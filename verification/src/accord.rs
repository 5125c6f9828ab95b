//! What holds of definitions as they are registered, and of schemas that boards merge.
use vstd::prelude::*;
use crate::codec;
use crate::definition::{DataTypeDefinition, EndpointDefinition, EndpointSpec, TypeSpec};
use crate::discovery;
use crate::intake;
use crate::meta::{
    DataEndpoint, DataType, EP_DISCOVERY, EP_TELEMETRY_ERROR, EP_TIMESYNC, FIRST_USER_ENDPOINT,
    FIRST_USER_TYPE,
};
use crate::schema;
use crate::schema::SchemaSpec;
use crate::table;
use crate::table::Entry;

verus! {

proof fn lemma_push_lookup<D: Entry>(s: Seq<D::V>, v: D::V, id: u32, name: Seq<char>)
    ensures
        table::lookup::<D>(s.push(v), id) == (if D::key(v) == id {
            Some(v)
        } else {
            table::lookup::<D>(s, id)
        }),
        table::lookup_name::<D>(s.push(v), name) == (if D::title(v) == name {
            Some(v)
        } else {
            table::lookup_name::<D>(s, name)
        }),
{
    assert(s.push(v).drop_last() =~= s);
}

/// What is found under a name has that name and is among the definitions; and where nothing is
/// found, none has it.
pub proof fn lemma_found_by_name<D: Entry>(s: Seq<D::V>, name: Seq<char>)
    ensures
        match table::lookup_name::<D>(s, name) {
            Some(v) => D::title(v) == name && s.contains(v),
            None => forall|i: int| 0 <= i < s.len() ==> D::title(#[trigger] s[i]) != name,
        },
    decreases s.len(),
{
    if s.len() > 0 {
        let rest = s.drop_last();
        lemma_found_by_name::<D>(rest, name);
        assert(s[s.len() - 1] == s.last());
        if D::title(s.last()) != name {
            match table::lookup_name::<D>(rest, name) {
                Some(v) => {
                    let i = choose|i: int| 0 <= i < rest.len() && rest[i] == v;
                    assert(s[i] == v);
                },
                None => {
                    assert forall|i: int| 0 <= i < s.len() implies D::title(#[trigger] s[i])
                        != name by {
                        if i < rest.len() {
                            assert(rest[i] == s[i]);
                        }
                    }
                },
            }
        }
    }
}

/// An endpoint that is registered is found under its number and its name, and nothing else changes;
/// registering it again changes nothing; and a number or a name that stands for another endpoint is
/// refused.
pub proof fn lemma_registered_endpoint_is_found(
    s: SchemaSpec,
    e: EndpointSpec,
    id: DataEndpoint,
    name: Seq<char>,
)
    ensures
        s.endpoint(e.id) is None && s.endpoint_named(e.name) is None ==> (s.with_endpoint(e) matches Some(
            r,
        ) && r.endpoint(e.id) == Some(e) && r.endpoint_named(e.name) == Some(e) && (id != e.id
            ==> r.endpoint(id) == s.endpoint(id)) && (name != e.name ==> r.endpoint_named(name)
            == s.endpoint_named(name)) && r.types == s.types && r.with_endpoint(e) == Some(r)),
        s.endpoint(e.id) == Some(e) ==> s.with_endpoint(e) == Some(s),
        (s.endpoint(e.id) matches Some(x) && (x.name != e.name || x.link_local_only
            != e.link_local_only)) ==> s.with_endpoint(e) is None,
        s.endpoint(e.id) is None && s.endpoint_named(e.name) is Some ==> s.with_endpoint(e) is None,
{
    lemma_push_lookup::<EndpointDefinition>(s.endpoints, e, id, name);
    lemma_push_lookup::<EndpointDefinition>(s.endpoints, e, e.id, e.name);
}

/// A message type that is registered is found under its number and its name, and nothing else
/// changes; registering it again changes nothing; and one is refused whose number or name stands for
/// another, that goes nowhere or to an endpoint that is not known, or of which no packet can be made.
pub proof fn lemma_registered_type_is_found(
    s: SchemaSpec,
    t: TypeSpec,
    id: DataType,
    name: Seq<char>,
    k: int,
)
    ensures
        s.message(t.id) is None && s.message_named(t.name) is None && t.endpoints.len() > 0 && (forall|
            i: int,
        |
            0 <= i < t.endpoints.len() ==> s.endpoint(#[trigger] t.endpoints[i]) is Some)
            && t.element.static_size() <= crate::packet::MAX_PAYLOAD ==> (s.with_type(t) matches Some(
            r,
        ) && r.message(t.id) == Some(t) && r.message_named(t.name) == Some(t) && (id != t.id
            ==> r.message(id) == s.message(id)) && (name != t.name ==> r.message_named(name)
            == s.message_named(name)) && r.endpoints == s.endpoints && r.with_type(t) == Some(r)),
        s.message(t.id) == Some(t) ==> s.with_type(t) == Some(s),
        (s.message(t.id) matches Some(x) && (x.name != t.name || x.element != t.element
            || x.endpoints != t.endpoints || x.reliable != t.reliable || x.priority != t.priority
            || x.e2e_encryption != t.e2e_encryption)) ==> s.with_type(t) is None,
        s.message(t.id) is None && s.message_named(t.name) is Some ==> s.with_type(t) is None,
        s.message(t.id) is None && t.endpoints.len() == 0 ==> s.with_type(t) is None,
        s.message(t.id) is None && 0 <= k < t.endpoints.len() && s.endpoint(t.endpoints[k]) is None
            ==> s.with_type(t) is None,
{
    lemma_push_lookup::<DataTypeDefinition>(s.types, t, id, name);
    lemma_push_lookup::<DataTypeDefinition>(s.types, t, t.id, t.name);
    if 0 <= k < t.endpoints.len() && s.endpoint(t.endpoints[k]) is None {
        assert(!s.knows_all(t.endpoints));
    }
}

/// What a board tells others of its definitions: all that are not the network's own, and those
/// alone.
pub proof fn lemma_exported_is_all_but_the_networks_own(s: SchemaSpec, e: EndpointSpec, t: TypeSpec)
    ensures
        s.exported().endpoints.contains(e) <==> s.endpoints.contains(e) && e.id
            >= FIRST_USER_ENDPOINT,
        s.exported().types.contains(t) <==> s.types.contains(t) && t.id >= FIRST_USER_TYPE,
{
    let f = |x: EndpointSpec| x.id >= FIRST_USER_ENDPOINT;
    let g = |x: TypeSpec| x.id >= FIRST_USER_TYPE;
    let v = s.endpoints.filter(f);
    let w = s.types.filter(g);
    if v.contains(e) {
        s.endpoints.lemma_filter_contains_rev(f, e);
        let i = choose|i: int| 0 <= i < v.len() && v[i] == e;
        s.endpoints.lemma_filter_pred(f, i);
    }
    if s.endpoints.contains(e) && f(e) {
        let i = choose|i: int| 0 <= i < s.endpoints.len() && s.endpoints[i] == e;
        s.endpoints.lemma_filter_contains(f, i);
    }
    if w.contains(t) {
        s.types.lemma_filter_contains_rev(g, t);
        let i = choose|i: int| 0 <= i < w.len() && w[i] == t;
        s.types.lemma_filter_pred(g, i);
    }
    if s.types.contains(t) && g(t) {
        let i = choose|i: int| 0 <= i < s.types.len() && s.types[i] == t;
        s.types.lemma_filter_contains(g, i);
    }
}

/// What stays of two definitions that either board may have or not: of one that is had by one board
/// alone, that one.
pub open spec fn of_both<D: Entry>(a: Option<D::V>, b: Option<D::V>) -> Option<D::V> {
    match (a, b) {
        (Some(x), Some(y)) => Some(table::preferred::<D>(x, y)),
        (Some(x), None) => Some(x),
        (None, y) => y,
    }
}

/// Of two definitions one stays, whichever comes first.
pub proof fn lemma_one_definition_stays<D: Entry>(a: D::V, b: D::V)
    requires
        D::writable(a),
        D::writable(b),
    ensures
        table::preferred::<D>(a, b) == a || table::preferred::<D>(a, b) == b,
        table::preferred::<D>(a, b) == table::preferred::<D>(b, a),
        table::preferred::<D>(a, a) == a,
{
    codec::lemma_lex_trichotomy(D::bytes(a), D::bytes(b));
    if D::bytes(a) == D::bytes(b) {
        table::lemma_bytes_injective::<D>(a, b);
    }
}

proof fn lemma_merge_endpoints_lookup(s: SchemaSpec, list: Seq<EndpointSpec>, id: DataEndpoint)
    requires
        table::distinct::<EndpointDefinition>(s.endpoints),
        table::distinct::<EndpointDefinition>(list),
        id >= FIRST_USER_ENDPOINT,
    ensures
        table::distinct::<EndpointDefinition>(s.merge_endpoints(list).endpoints),
        s.merge_endpoints(list).endpoint(id) == of_both::<EndpointDefinition>(
            s.endpoint(id),
            table::lookup::<EndpointDefinition>(list, id),
        ),
        s.merge_endpoints(list).types == s.types,
    decreases list.len(),
{
    if list.len() > 0 {
        let rest = list.drop_last();
        lemma_merge_endpoints_lookup(s, rest, id);
        let base = s.merge_endpoints(rest);
        table::lemma_lookup_merged::<EndpointDefinition>(base.endpoints, list.last(), id);
    }
}

proof fn lemma_merge_types_lookup(s: SchemaSpec, list: Seq<TypeSpec>, id: DataType)
    requires
        table::distinct::<DataTypeDefinition>(s.types),
        table::distinct::<DataTypeDefinition>(list),
        id >= FIRST_USER_TYPE,
        table::lookup::<DataTypeDefinition>(list, id) matches Some(t) ==> schema::has_packets(
            t.element,
        ),
    ensures
        table::distinct::<DataTypeDefinition>(s.merge_types(list).types),
        s.merge_types(list).message(id) == of_both::<DataTypeDefinition>(
            s.message(id),
            table::lookup::<DataTypeDefinition>(list, id),
        ),
        s.merge_types(list).endpoints == s.endpoints,
    decreases list.len(),
{
    if list.len() > 0 {
        let rest = list.drop_last();
        lemma_merge_types_lookup(s, rest, id);
        let base = s.merge_types(rest);
        table::lemma_lookup_merged::<DataTypeDefinition>(base.types, list.last(), id);
    }
}

/// Two boards that have merged each other's definitions agree on all of them: under every number
/// they know the same endpoint and the same message type; and each keeps what it alone had.
pub proof fn lemma_merged_boards_agree(a: SchemaSpec, b: SchemaSpec, ep: DataEndpoint, ty: DataType)
    requires
        a.wf(),
        b.wf(),
        ep >= FIRST_USER_ENDPOINT,
        ty >= FIRST_USER_TYPE,
        table::all_writable::<EndpointDefinition>(a.endpoints),
        table::all_writable::<EndpointDefinition>(b.endpoints),
        table::all_writable::<DataTypeDefinition>(a.types),
        table::all_writable::<DataTypeDefinition>(b.types),
    ensures
        a.merge(b.exported()).endpoint(ep) == b.merge(a.exported()).endpoint(ep),
        a.merge(b.exported()).message(ty) == b.merge(a.exported()).message(ty),
        b.endpoint(ep) is None ==> a.merge(b.exported()).endpoint(ep) == a.endpoint(ep),
        b.message(ty) is None ==> a.merge(b.exported()).message(ty) == a.message(ty),
        a.endpoint(ep) is None ==> a.merge(b.exported()).endpoint(ep) == b.endpoint(ep),
        a.message(ty) is None ==> a.merge(b.exported()).message(ty) == b.message(ty),
        (a.endpoint(ep) is Some || b.endpoint(ep) is Some) ==> a.merge(b.exported()).endpoint(ep) is Some,
        (a.message(ty) is Some || b.message(ty) is Some) ==> a.merge(b.exported()).message(ty) is Some,
{
    lemma_merge_is_of_both(a, b, ep, ty);
    lemma_merge_is_of_both(b, a, ep, ty);
    table::lemma_lookup_sound::<EndpointDefinition>(a.endpoints, ep);
    table::lemma_lookup_sound::<EndpointDefinition>(b.endpoints, ep);
    table::lemma_lookup_sound::<DataTypeDefinition>(a.types, ty);
    table::lemma_lookup_sound::<DataTypeDefinition>(b.types, ty);
    if a.endpoint(ep) is Some && b.endpoint(ep) is Some {
        let x = a.endpoint(ep)->0;
        let y = b.endpoint(ep)->0;
        let i = choose|i: int| 0 <= i < a.endpoints.len() && a.endpoints[i] == x;
        let j = choose|j: int| 0 <= j < b.endpoints.len() && b.endpoints[j] == y;
        assert(EndpointDefinition::writable(a.endpoints[i]));
        assert(EndpointDefinition::writable(b.endpoints[j]));
        lemma_one_definition_stays::<EndpointDefinition>(x, y);
    }
    if a.message(ty) is Some && b.message(ty) is Some {
        let x = a.message(ty)->0;
        let y = b.message(ty)->0;
        let i = choose|i: int| 0 <= i < a.types.len() && a.types[i] == x;
        let j = choose|j: int| 0 <= j < b.types.len() && b.types[j] == y;
        assert(DataTypeDefinition::writable(a.types[i]));
        assert(DataTypeDefinition::writable(b.types[j]));
        lemma_one_definition_stays::<DataTypeDefinition>(x, y);
    }
}

proof fn lemma_merge_is_of_both(a: SchemaSpec, b: SchemaSpec, ep: DataEndpoint, ty: DataType)
    requires
        a.wf(),
        b.wf(),
        ep >= FIRST_USER_ENDPOINT,
        ty >= FIRST_USER_TYPE,
    ensures
        a.merge(b.exported()).endpoint(ep) == of_both::<EndpointDefinition>(
            a.endpoint(ep),
            b.endpoint(ep),
        ),
        a.merge(b.exported()).message(ty) == of_both::<DataTypeDefinition>(
            a.message(ty),
            b.message(ty),
        ),
{
    let x = b.exported();
    table::lemma_lookup_filter::<EndpointDefinition>(
        b.endpoints,
        |e: EndpointSpec| e.id >= FIRST_USER_ENDPOINT,
        ep,
    );
    table::lemma_lookup_filter::<DataTypeDefinition>(
        b.types,
        |t: TypeSpec| t.id >= FIRST_USER_TYPE,
        ty,
    );
    table::lemma_lookup_sound::<EndpointDefinition>(b.endpoints, ep);
    table::lemma_lookup_sound::<DataTypeDefinition>(b.types, ty);
    assert(x.endpoint(ep) == b.endpoint(ep));
    assert(x.message(ty) == b.message(ty));
    lemma_merge_endpoints_lookup(a, x.endpoints, ep);
    let mid = a.merge_endpoints(x.endpoints);
    assert(mid.types == a.types);
    lemma_merge_types_lookup(mid, x.types, ty);
}

/// Merging never touches the network's own definitions.
pub proof fn lemma_networks_own_stays(a: SchemaSpec, b: SchemaSpec, ep: DataEndpoint, ty: DataType)
    requires
        a.wf(),
        ep < FIRST_USER_ENDPOINT,
        ty < FIRST_USER_TYPE,
    ensures
        a.merge(b).wf(),
        a.merge(b).endpoint(ep) == a.endpoint(ep),
        a.merge(b).message(ty) == a.message(ty),
{
    schema::lemma_merge_endpoints_wf(a, b.endpoints);
    schema::lemma_merge_types_wf(a.merge_endpoints(b.endpoints), b.types);
}

/// Definitions cost what each of them takes when it is written.
pub proof fn lemma_definitions_cost_their_bytes<D: Entry>(s: Seq<D::V>, v: D::V)
    ensures
        table::table_cost::<D>(Seq::<D::V>::empty()) == 0,
        table::table_cost::<D>(s.push(v)) == table::table_cost::<D>(s) + D::bytes(v).len(),
{
    assert(s.push(v).drop_last() =~= s);
}

/// A number that is given out is the lowest that is free within its bounds; and none is given out
/// only where all are taken.
pub proof fn lemma_lowest_free_number<D: Entry>(s: Seq<D::V>, from: int, max: int)
    requires
        0 <= from,
        max <= u32::MAX,
    ensures
        match schema::free_id::<D>(s, from, max) {
            Some(id) => from <= id <= max && table::lookup::<D>(s, id) is None && forall|k: u32|
                from <= k < id ==> table::lookup::<D>(s, k) is Some,
            None => forall|k: u32| from <= k <= max ==> table::lookup::<D>(s, k) is Some,
        },
    decreases max - from + 1,
{
    if from <= max && table::lookup::<D>(s, from as u32) is Some {
        lemma_lowest_free_number::<D>(s, from + 1, max);
        assert forall|k: u32|
            from <= k && (schema::free_id::<D>(s, from, max) matches Some(id) ==> k < id) && k
                <= max implies table::lookup::<D>(s, k) is Some by {
            if k == from {
            }
        }
    }
}

/// Merging a definition is said to change something exactly where it does.
pub proof fn lemma_changes_are_noticed<D: Entry>(s: Seq<D::V>, t: D::V)
    requires
        table::distinct::<D>(s),
    ensures
        table::merge_changes::<D>(s, t) <==> table::merged::<D>(s, t) != s,
{
    table::lemma_lookup_sound::<D>(s, D::key(t));
    match table::lookup::<D>(s, D::key(t)) {
        Some(v) => {
            let i = choose|i: int| 0 <= i < s.len() && s[i] == v;
            let m = table::merged::<D>(s, t);
            assert(m[i] == table::settled::<D>(v, t));
            if table::merge_changes::<D>(s, t) {
                codec::lemma_lex_trichotomy(D::bytes(t), D::bytes(v));
                assert(m[i] == t);
                assert(D::bytes(t) != D::bytes(v));
            } else {
                assert forall|k: int| 0 <= k < s.len() implies #[trigger] m[k] == s[k] by {
                    if D::key(s[k]) == D::key(t) {
                        table::lemma_lookup_index::<D>(s, k);
                    }
                }
                assert(m =~= s);
            }
        },
        None => {
            assert(s.push(t).len() != s.len());
        },
    }
}

/// Messages of the network go to the endpoint that is there for them: those that tell of boards, those
/// that tell the time, and all others.
pub proof fn lemma_messages_of_the_network(ty: DataType)
    requires
        ty < FIRST_USER_TYPE,
    ensures
        ({
            let t = schema::builtin_type(ty);
            &&& t.id == ty
            &&& t.endpoints.len() == 1
            &&& discovery::is_discovery(ty) <==> t.endpoints[0] == EP_DISCOVERY
            &&& intake::about_time(ty) <==> t.endpoints[0] == EP_TIMESYNC
            &&& !discovery::is_discovery(ty) && !intake::about_time(ty) ==> t.endpoints[0]
                == EP_TELEMETRY_ERROR
            &&& schema::has_packets(t.element)
        }),
{
}

} // verus!
