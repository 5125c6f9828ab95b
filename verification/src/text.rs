//! Decimal, hexadecimal and clock text.
use vstd::prelude::*;
use vstd::string::*;

verus! {

/// The character of one hexadecimal digit (lower case).
pub open spec fn digit_char(d: nat) -> char {
    if d == 0 {
        '0'
    } else if d == 1 {
        '1'
    } else if d == 2 {
        '2'
    } else if d == 3 {
        '3'
    } else if d == 4 {
        '4'
    } else if d == 5 {
        '5'
    } else if d == 6 {
        '6'
    } else if d == 7 {
        '7'
    } else if d == 8 {
        '8'
    } else if d == 9 {
        '9'
    } else if d == 10 {
        'a'
    } else if d == 11 {
        'b'
    } else if d == 12 {
        'c'
    } else if d == 13 {
        'd'
    } else if d == 14 {
        'e'
    } else {
        'f'
    }
}

/// The decimal digits of `n`, without leading zeros.
pub open spec fn decimal(n: nat) -> Seq<char>
    decreases n,
{
    if n < 10 {
        seq![digit_char(n)]
    } else {
        decimal(n / 10).push(digit_char(n % 10))
    }
}

/// `n` in at least two digits.
pub open spec fn decimal2(n: nat) -> Seq<char> {
    if n < 10 {
        seq!['0'] + decimal(n)
    } else {
        decimal(n)
    }
}

/// `n` in at least three digits.
pub open spec fn decimal3(n: nat) -> Seq<char> {
    if n < 100 {
        seq!['0'] + decimal2(n)
    } else {
        decimal(n)
    }
}

/// Two hexadecimal digits.
pub open spec fn hex2(b: u8) -> Seq<char> {
    seq![digit_char((b / 16) as nat), digit_char((b % 16) as nat)]
}

/// Milliseconds as hours, minutes, seconds and milliseconds; leading units that are zero are
/// left out, seconds never are.
pub open spec fn clock_text(ms: u64) -> Seq<char> {
    let h = (ms / 3_600_000) as nat;
    let m = (ms / 60_000 % 60) as nat;
    let s = (ms / 1000 % 60) as nat;
    let front = if h > 0 {
        decimal(h) + "h "@ + decimal2(m) + "m "@ + decimal2(s)
    } else if m > 0 {
        decimal(m) + "m "@ + decimal2(s)
    } else {
        decimal(s)
    };
    front + "s "@ + decimal3((ms % 1000) as nat) + "ms"@
}

fn digit_str(d: u8) -> (r: &'static str)
    requires
        d < 16,
    ensures
        r@ == seq![digit_char(d as nat)],
{
    proof {
        reveal_strlit("0");
        reveal_strlit("1");
        reveal_strlit("2");
        reveal_strlit("3");
        reveal_strlit("4");
        reveal_strlit("5");
        reveal_strlit("6");
        reveal_strlit("7");
        reveal_strlit("8");
        reveal_strlit("9");
        reveal_strlit("a");
        reveal_strlit("b");
        reveal_strlit("c");
        reveal_strlit("d");
        reveal_strlit("e");
        reveal_strlit("f");
    }
    match d {
        0 => "0",
        1 => "1",
        2 => "2",
        3 => "3",
        4 => "4",
        5 => "5",
        6 => "6",
        7 => "7",
        8 => "8",
        9 => "9",
        10 => "a",
        11 => "b",
        12 => "c",
        13 => "d",
        14 => "e",
        _ => "f",
    }
}

/// Appends the decimal digits of `n`.
pub fn push_decimal(out: &mut String, n: u64)
    ensures
        final(out)@ == old(out)@ + decimal(n as nat),
    decreases n,
{
    if n < 10 {
        out.append(digit_str(n as u8));
    } else {
        push_decimal(out, n / 10);
        out.append(digit_str((n % 10) as u8));
    }
}

/// Appends `n` in at least two digits.
pub fn push_decimal2(out: &mut String, n: u64)
    ensures
        final(out)@ == old(out)@ + decimal2(n as nat),
{
    if n < 10 {
        out.append(digit_str(0));
    }
    push_decimal(out, n);
}

/// Appends `n` in at least three digits.
pub fn push_decimal3(out: &mut String, n: u64)
    ensures
        final(out)@ == old(out)@ + decimal3(n as nat),
{
    if n < 100 {
        out.append(digit_str(0));
        push_decimal2(out, n);
    } else {
        push_decimal(out, n);
    }
}

/// Appends two hexadecimal digits.
pub fn push_hex2(out: &mut String, b: u8)
    ensures
        final(out)@ == old(out)@ + hex2(b),
{
    out.append(digit_str(b / 16));
    out.append(digit_str(b % 16));
}

/// `n` in decimal.
pub fn decimal_string(n: u64) -> (r: String)
    ensures
        r@ == decimal(n as nat),
{
    let mut out: String = String::new();
    push_decimal(&mut out, n);
    out
}

/// A duration in milliseconds in clock units.
pub fn clock_string(ms: u64) -> (out: String)
    ensures
        out@ == clock_text(ms),
{
    let h: u64 = ms / 3_600_000;
    let m: u64 = ms / 60_000 % 60;
    let s: u64 = ms / 1000 % 60;
    let mut out: String = decimal_string(if h > 0 {
        h
    } else if m > 0 {
        m
    } else {
        s
    });
    if h > 0 {
        out.append("h ");
        push_decimal2(&mut out, m);
    }
    if h > 0 || m > 0 {
        out.append("m ");
        push_decimal2(&mut out, s);
    }
    out.append("s ");
    push_decimal3(&mut out, ms % 1000);
    out.append("ms");
    out
}

/// The number that a digit stands for.
pub open spec fn digit_value(c: char) -> Option<nat> {
    if '0' <= c && c <= '9' {
        Some((c as u32 - '0' as u32) as nat)
    } else if 'a' <= c && c <= 'f' {
        Some((c as u32 - 'a' as u32 + 10) as nat)
    } else {
        None
    }
}

/// The number that digits stand for, where `base` of one place make one of the next.
pub open spec fn number_in(t: Seq<char>, base: nat) -> Option<nat>
    decreases t.len(),
{
    if t.len() == 0 {
        Some(0)
    } else {
        match (number_in(t.drop_last(), base), digit_value(t.last())) {
            (Some(n), Some(d)) => if d < base {
                Some(n * base + d)
            } else {
                None
            },
            _ => None,
        }
    }
}

/// Each digit stands for its number.
pub proof fn lemma_digit_reads_back(d: nat)
    requires
        d < 16,
    ensures
        digit_value(digit_char(d)) == Some(d),
{
}

/// A decimal text reads back as its number, and starts with a zero only where it is zero itself.
pub proof fn lemma_decimal_reads_back(n: nat)
    ensures
        number_in(decimal(n), 10) == Some(n),
        decimal(n).len() > 0,
        decimal(n)[0] == '0' ==> n == 0,
        n < 10 <==> decimal(n).len() == 1,
        n < 100 <==> decimal(n).len() <= 2,
        n < 1000 <==> decimal(n).len() <= 3,
    decreases n,
{
    if n < 10 {
        lemma_digit_reads_back(n);
        assert(decimal(n).drop_last() =~= Seq::<char>::empty());
        assert(number_in(decimal(n).drop_last(), 10) == Some(0nat));
        assert(digit_char(n) == '0' ==> digit_value(digit_char(n)) == Some(0nat));
    } else {
        lemma_decimal_reads_back(n / 10);
        lemma_digit_reads_back(n % 10);
        assert(decimal(n).drop_last() =~= decimal(n / 10));
        assert(decimal(n)[0] == decimal(n / 10)[0]);
    }
}

/// The text of a byte has two digits and reads back as the byte.
pub proof fn lemma_hex_reads_back(b: u8)
    ensures
        hex2(b).len() == 2,
        number_in(hex2(b), 16) == Some(b as nat),
{
    let t = hex2(b);
    lemma_digit_reads_back((b / 16) as nat);
    lemma_digit_reads_back((b % 16) as nat);
    assert(t.drop_last() =~= seq![t[0]]);
    assert(t.drop_last().drop_last() =~= Seq::<char>::empty());
    assert(number_in(t.drop_last().drop_last(), 16) == Some(0nat));
    assert(number_in(t.drop_last(), 16) == Some((b / 16) as nat));
}

/// A number with a unit, in a clock text.
pub struct ClockField {
    pub value: nat,
    /// How many digits it has.
    pub width: nat,
    /// How many milliseconds one of it is.
    pub unit: nat,
}

/// What was read of a clock text so far: fields, and the digits of the next.
pub struct ClockReading {
    pub fields: Seq<ClockField>,
    pub value: nat,
    pub width: nat,
}

/// What was read once a unit ends a number.
pub open spec fn clock_ended(r: ClockReading, unit: nat) -> ClockReading {
    ClockReading {
        fields: r.fields.push(ClockField { value: r.value, width: r.width, unit }),
        value: 0,
        width: 0,
    }
}

/// Reads one more character: a digit; `h`, `m` or `s` behind digits; or the `s` of `ms`.
pub open spec fn read_clock_char(r: ClockReading, c: char) -> ClockReading {
    if '0' <= c && c <= '9' {
        ClockReading {
            value: r.value * 10 + (c as u32 - '0' as u32) as nat,
            width: r.width + 1,
            ..r
        }
    } else if c == 'h' {
        clock_ended(r, 3_600_000)
    } else if c == 'm' {
        clock_ended(r, 60_000)
    } else if c == 's' && r.width > 0 {
        clock_ended(r, 1000)
    } else if c == 's' && r.fields.len() > 0 {
        ClockReading {
            fields: r.fields.drop_last().push(ClockField { unit: 1, ..r.fields.last() }),
            ..r
        }
    } else {
        r
    }
}

/// Reads on in a clock text.
pub open spec fn read_clock_from(r: ClockReading, t: Seq<char>) -> ClockReading
    decreases t.len(),
{
    if t.len() == 0 {
        r
    } else {
        read_clock_char(read_clock_from(r, t.drop_last()), t.last())
    }
}

/// The fields of a clock text.
pub open spec fn clock_fields(t: Seq<char>) -> Seq<ClockField> {
    read_clock_from(ClockReading { fields: Seq::empty(), value: 0, width: 0 }, t).fields
}

/// The time that fields come to.
pub open spec fn clock_total(f: Seq<ClockField>) -> nat
    decreases f.len(),
{
    if f.len() == 0 {
        0
    } else {
        clock_total(f.drop_last()) + f.last().value * f.last().unit
    }
}

proof fn lemma_read_clock_join(r: ClockReading, a: Seq<char>, b: Seq<char>)
    ensures
        read_clock_from(r, a + b) == read_clock_from(read_clock_from(r, a), b),
    decreases b.len(),
{
    if b.len() == 0 {
        assert(a + b =~= a);
    } else {
        lemma_read_clock_join(r, a, b.drop_last());
        assert((a + b).drop_last() =~= a + b.drop_last());
        assert((a + b).last() == b.last());
    }
}

proof fn lemma_read_clock_decimal(r: ClockReading, n: nat)
    requires
        r.value == 0,
    ensures
        read_clock_from(r, decimal(n)) == (ClockReading {
            value: n,
            width: r.width + decimal(n).len(),
            ..r
        }),
    decreases n,
{
    let t = decimal(n);
    if n < 10 {
        assert(t.drop_last() =~= Seq::<char>::empty());
        assert(read_clock_from(r, t.drop_last()) == r);
    } else {
        lemma_read_clock_decimal(r, n / 10);
        assert(t.drop_last() =~= decimal(n / 10));
    }
}

proof fn lemma_read_clock_zero(r: ClockReading)
    requires
        r.value == 0,
    ensures
        read_clock_from(r, seq!['0']) == (ClockReading { width: r.width + 1, ..r }),
{
    assert(seq!['0'].drop_last() =~= Seq::<char>::empty());
    assert(read_clock_from(r, seq!['0'].drop_last()) == r);
}

proof fn lemma_read_clock_decimal2(r: ClockReading, n: nat)
    requires
        r.value == 0,
        n < 100,
    ensures
        read_clock_from(r, decimal2(n)) == (ClockReading { value: n, width: r.width + 2, ..r }),
{
    lemma_decimal_reads_back(n);
    lemma_read_clock_zero(r);
    if n < 10 {
        lemma_read_clock_join(r, seq!['0'], decimal(n));
        lemma_read_clock_decimal(ClockReading { width: r.width + 1, ..r }, n);
    } else {
        lemma_read_clock_decimal(r, n);
    }
}

proof fn lemma_read_clock_decimal3(r: ClockReading, n: nat)
    requires
        r.value == 0,
        n < 1000,
    ensures
        read_clock_from(r, decimal3(n)) == (ClockReading { value: n, width: r.width + 3, ..r }),
{
    lemma_decimal_reads_back(n);
    lemma_read_clock_zero(r);
    if n < 100 {
        lemma_read_clock_join(r, seq!['0'], decimal2(n));
        lemma_read_clock_decimal2(ClockReading { width: r.width + 1, ..r }, n);
    } else {
        lemma_read_clock_decimal(r, n);
    }
}

proof fn lemma_read_clock_unit(r: ClockReading)
    requires
        r.width > 0,
    ensures
        read_clock_from(r, "h "@) == clock_ended(r, 3_600_000),
        read_clock_from(r, "m "@) == clock_ended(r, 60_000),
        read_clock_from(r, "s "@) == clock_ended(r, 1000),
        read_clock_from(r, "ms"@) == clock_ended(r, 1),
{
    reveal_strlit("h ");
    reveal_strlit("m ");
    reveal_strlit("s ");
    reveal_strlit("ms");
    lemma_read_clock_two(r, "h "@, 'h', ' ');
    lemma_read_clock_two(r, "m "@, 'm', ' ');
    lemma_read_clock_two(r, "s "@, 's', ' ');
    lemma_read_clock_two(r, "ms"@, 'm', 's');
    let f = r.fields.push(ClockField { value: r.value, width: r.width, unit: 60_000 });
    assert(f.drop_last() =~= r.fields);
}

proof fn lemma_read_clock_two(r: ClockReading, t: Seq<char>, a: char, b: char)
    requires
        t.len() == 2,
        t[0] == a,
        t[1] == b,
    ensures
        read_clock_from(r, t) == read_clock_char(read_clock_char(r, a), b),
{
    let u = t.drop_last();
    assert(u.drop_last() =~= Seq::<char>::empty());
    assert(read_clock_from(r, u.drop_last()) == r);
    assert(u.last() == a);
    assert(read_clock_from(r, u) == read_clock_char(r, a));
    assert(t.last() == b);
}

/// A clock text reads back as its time, down to the millisecond. It ends with seconds and
/// milliseconds, before which minutes and hours stand where the time has so many; behind the first
/// field each has two digits, the milliseconds three, and is less than one of the unit before it.
pub proof fn lemma_clock_reads_back(ms: u64)
    ensures
        ({
            let f = clock_fields(clock_text(ms));
            let n = f.len() as int;
            &&& clock_total(f) == ms
            &&& 2 <= n <= 4
            &&& f[n - 1].unit == 1 && f[n - 1].value < 1000 && f[n - 1].width == 3
            &&& f[n - 2].unit == 1000 && f[n - 2].value < 60
            &&& n >= 3 ==> f[n - 3].unit == 60_000 && f[n - 3].value < 60 && f[n - 2].width == 2
            &&& n >= 4 ==> f[n - 4].unit == 3_600_000 && f[n - 3].width == 2
            &&& n >= 3 ==> f[0].value > 0
            &&& f[0].width == decimal(f[0].value).len()
        }),
{
    let h = (ms / 3_600_000) as nat;
    let m = (ms / 60_000 % 60) as nat;
    let s = (ms / 1000 % 60) as nat;
    let u = (ms % 1000) as nat;
    let start = ClockReading { fields: Seq::empty(), value: 0, width: 0 };
    lemma_decimal_reads_back(h);
    lemma_decimal_reads_back(m);
    lemma_decimal_reads_back(s);
    assert(h * 3_600_000 + m * 60_000 + s * 1000 + u == ms);
    let none = Seq::<ClockField>::empty();
    if h > 0 {
        let hour = ClockField { value: h, width: decimal(h).len(), unit: 3_600_000 };
        let minute = ClockField { value: m, width: 2, unit: 60_000 };
        lemma_read_clock_decimal(start, h);
        lemma_read_clock_join(start, decimal(h), "h "@);
        lemma_read_clock_unit(ClockReading { value: h, width: decimal(h).len(), ..start });
        lemma_read_clock_minutes(start, decimal(h) + "h "@, none.push(hour), m, s, true);
        let front = decimal(h) + "h "@ + decimal2(m) + "m "@ + decimal2(s);
        lemma_clock_tail(start, front, none.push(hour).push(minute), s, 2, u);
        lemma_total_push(none, hour);
        lemma_total_push(none.push(hour), minute);
        assert(clock_total(none) == 0);
    } else if m > 0 {
        let minute = ClockField { value: m, width: decimal(m).len(), unit: 60_000 };
        assert(Seq::<char>::empty() + decimal(m) =~= decimal(m));
        lemma_read_clock_minutes(start, Seq::empty(), none, m, s, false);
        let front = decimal(m) + "m "@ + decimal2(s);
        lemma_clock_tail(start, front, none.push(minute), s, 2, u);
        lemma_total_push(none, minute);
        assert(clock_total(none) == 0);
    } else {
        lemma_read_clock_decimal(start, s);
        lemma_clock_tail(start, decimal(s), none, s, decimal(s).len(), u);
        assert(clock_total(none) == 0);
    }
}

proof fn lemma_total_push(f: Seq<ClockField>, x: ClockField)
    ensures
        clock_total(f.push(x)) == clock_total(f) + x.value * x.unit,
{
    assert(f.push(x).drop_last() =~= f);
}

proof fn lemma_read_clock_minutes(
    r: ClockReading,
    front: Seq<char>,
    fields: Seq<ClockField>,
    m: nat,
    s: nat,
    padded: bool,
)
    requires
        read_clock_from(r, front) == (ClockReading { fields, value: 0, width: 0 }),
        m < 60,
        s < 60,
    ensures
        ({
            let digits = if padded {
                decimal2(m)
            } else {
                decimal(m)
            };
            let width = if padded {
                2
            } else {
                decimal(m).len()
            };
            read_clock_from(r, front + digits + "m "@ + decimal2(s)) == (ClockReading {
                fields: fields.push(ClockField { value: m, width, unit: 60_000 }),
                value: s,
                width: 2,
            })
        }),
{
    let digits = if padded {
        decimal2(m)
    } else {
        decimal(m)
    };
    let width = if padded {
        2
    } else {
        decimal(m).len()
    };
    let r1 = ClockReading { fields, value: 0, width: 0 };
    lemma_read_clock_decimal2(r1, m);
    lemma_read_clock_decimal(r1, m);
    lemma_decimal_reads_back(m);
    lemma_read_clock_join(r, front, digits);
    let r2 = ClockReading { fields, value: m, width };
    lemma_read_clock_unit(r2);
    lemma_read_clock_join(r, front + digits, "m "@);
    lemma_read_clock_decimal2(clock_ended(r2, 60_000), s);
    lemma_read_clock_join(r, front + digits + "m "@, decimal2(s));
}

proof fn lemma_clock_tail(
    r: ClockReading,
    front: Seq<char>,
    fields: Seq<ClockField>,
    s: nat,
    width: nat,
    u: nat,
)
    requires
        read_clock_from(r, front) == (ClockReading { fields, value: s, width }),
        width > 0,
        u < 1000,
    ensures
        read_clock_from(r, front + "s "@ + decimal3(u) + "ms"@).fields == fields.push(
            ClockField { value: s, width, unit: 1000 },
        ).push(ClockField { value: u, width: 3, unit: 1 }),
        clock_total(
            fields.push(ClockField { value: s, width, unit: 1000 }).push(
                ClockField { value: u, width: 3, unit: 1 },
            ),
        ) == clock_total(fields) + s * 1000 + u,
{
    let before = ClockReading { fields, value: s, width };
    let second = ClockField { value: s, width, unit: 1000 };
    let milli = ClockField { value: u, width: 3, unit: 1 };
    lemma_read_clock_unit(before);
    lemma_read_clock_join(r, front, "s "@);
    let e = clock_ended(before, 1000);
    lemma_read_clock_decimal3(e, u);
    lemma_read_clock_join(r, front + "s "@, decimal3(u));
    lemma_read_clock_unit(ClockReading { value: u, width: 3, ..e });
    lemma_read_clock_join(r, front + "s "@ + decimal3(u), "ms"@);
    lemma_total_push(fields, second);
    lemma_total_push(fields.push(second), milli);
}

} // verus!
