//! Identifiers and shapes of messages.
use vstd::prelude::*;

verus! {

/// Identifier of a message type.
pub type DataType = u32;

/// Identifier of an endpoint.
pub type DataEndpoint = u32;

pub const TY_TELEMETRY_ERROR: DataType = 0;

pub const TY_RELIABLE_ACK: DataType = 1;

pub const TY_RELIABLE_PARTIAL_ACK: DataType = 2;

pub const TY_RELIABLE_PACKET_REQUEST: DataType = 3;

pub const TY_DISCOVERY_ANNOUNCE: DataType = 4;

pub const TY_DISCOVERY_TIMESYNC_SOURCES: DataType = 5;

pub const TY_DISCOVERY_TOPOLOGY: DataType = 6;

pub const TY_DISCOVERY_SCHEMA: DataType = 7;

pub const TY_DISCOVERY_ADDRESS: DataType = 8;

pub const TY_DISCOVERY_LINK_CAPABILITIES: DataType = 9;

pub const TY_DISCOVERY_LEAVE: DataType = 10;

pub const TY_TIMESYNC_ANNOUNCE: DataType = 11;

pub const TY_TIMESYNC_REQUEST: DataType = 12;

pub const TY_TIMESYNC_RESPONSE: DataType = 13;

pub const TY_MANAGED_VARIABLE_VALUE: DataType = 14;

pub const TY_P2P_MESSAGE: DataType = 15;
/// A board asks which boards there are.
pub const TY_DISCOVERY_TOPOLOGY_REQUEST: DataType = 16;
/// A board asks for definitions.
pub const TY_DISCOVERY_SCHEMA_REQUEST: DataType = 17;

/// Types below this number belong to the network itself.
pub const FIRST_USER_TYPE: DataType = 18;

pub const EP_TELEMETRY_ERROR: DataEndpoint = 0;

pub const EP_DISCOVERY: DataEndpoint = 1;

pub const EP_TIMESYNC: DataEndpoint = 2;

/// Endpoints below this number belong to the network itself.
pub const FIRST_USER_ENDPOINT: DataEndpoint = 3;

/// Largest endpoint that a frame can name; those above are reached on their own board only.
pub const MAX_VALUE_DATA_ENDPOINT: DataEndpoint = 255;

/// Largest type that is handed out without being asked for by number.
pub const MAX_VALUE_DATA_TYPE: DataType = 4095;

/// What one element of a payload is.
#[derive(Debug, Clone, Copy, PartialEq, Eq, Structural)]
pub enum MessageDataType {
    UInt8,
    UInt16,
    UInt32,
    UInt64,
    UInt128,
    Int8,
    Int16,
    Int32,
    Int64,
    Int128,
    Float32,
    Float64,
    Bool,
    String,
    Binary,
    NoData,
}

/// What a message is for.
#[derive(Debug, Clone, Copy, PartialEq, Eq, Structural)]
pub enum MessageClass {
    Data,
    Error,
    Warning,
}

/// The payload of a message: a fixed number of elements, or any number.
#[derive(Debug, Clone, Copy, PartialEq, Eq, Structural)]
pub enum MessageElement {
    Static(u32, MessageDataType, MessageClass),
    Dynamic(MessageDataType, MessageClass),
}

/// How delivery over one link is secured.
#[derive(Debug, Clone, Copy, PartialEq, Eq, Structural)]
pub enum ReliableMode {
    BestEffort,
    Ordered,
    Unordered,
}

/// Whether payloads are locked end to end.
#[derive(Debug, Clone, Copy, PartialEq, Eq, Structural)]
pub enum E2eEncryptionPolicy {
    PreferOff,
    PreferOn,
    RequireOn,
}

impl MessageDataType {
    /// Bytes of one element.
    pub open spec fn width(self) -> nat {
        match self {
            MessageDataType::UInt8 => 1,
            MessageDataType::UInt16 => 2,
            MessageDataType::UInt32 => 4,
            MessageDataType::UInt64 => 8,
            MessageDataType::UInt128 => 16,
            MessageDataType::Int8 => 1,
            MessageDataType::Int16 => 2,
            MessageDataType::Int32 => 4,
            MessageDataType::Int64 => 8,
            MessageDataType::Int128 => 16,
            MessageDataType::Float32 => 4,
            MessageDataType::Float64 => 8,
            MessageDataType::Bool => 1,
            MessageDataType::String => 1,
            MessageDataType::Binary => 1,
            MessageDataType::NoData => 0,
        }
    }

    /// Bytes of one element.
    pub fn byte_width(self) -> (w: usize)
        ensures
            w == self.width(),
            w <= 16,
    {
        match self {
            MessageDataType::UInt8 => 1,
            MessageDataType::UInt16 => 2,
            MessageDataType::UInt32 => 4,
            MessageDataType::UInt64 => 8,
            MessageDataType::UInt128 => 16,
            MessageDataType::Int8 => 1,
            MessageDataType::Int16 => 2,
            MessageDataType::Int32 => 4,
            MessageDataType::Int64 => 8,
            MessageDataType::Int128 => 16,
            MessageDataType::Float32 => 4,
            MessageDataType::Float64 => 8,
            MessageDataType::Bool => 1,
            MessageDataType::String => 1,
            MessageDataType::Binary => 1,
            MessageDataType::NoData => 0,
        }
    }

    /// The number of a kind in frames.
    pub open spec fn number(self) -> u8 {
        match self {
            MessageDataType::UInt8 => 0,
            MessageDataType::UInt16 => 1,
            MessageDataType::UInt32 => 2,
            MessageDataType::UInt64 => 3,
            MessageDataType::UInt128 => 4,
            MessageDataType::Int8 => 5,
            MessageDataType::Int16 => 6,
            MessageDataType::Int32 => 7,
            MessageDataType::Int64 => 8,
            MessageDataType::Int128 => 9,
            MessageDataType::Float32 => 10,
            MessageDataType::Float64 => 11,
            MessageDataType::Bool => 12,
            MessageDataType::String => 13,
            MessageDataType::Binary => 14,
            MessageDataType::NoData => 15,
        }
    }

    /// The kind with the number `n`.
    pub open spec fn of_number(n: u8) -> Option<MessageDataType> {
        match n {
            0 => Some(MessageDataType::UInt8),
            1 => Some(MessageDataType::UInt16),
            2 => Some(MessageDataType::UInt32),
            3 => Some(MessageDataType::UInt64),
            4 => Some(MessageDataType::UInt128),
            5 => Some(MessageDataType::Int8),
            6 => Some(MessageDataType::Int16),
            7 => Some(MessageDataType::Int32),
            8 => Some(MessageDataType::Int64),
            9 => Some(MessageDataType::Int128),
            10 => Some(MessageDataType::Float32),
            11 => Some(MessageDataType::Float64),
            12 => Some(MessageDataType::Bool),
            13 => Some(MessageDataType::String),
            14 => Some(MessageDataType::Binary),
            15 => Some(MessageDataType::NoData),
            _ => None,
        }
    }

    pub fn as_number(self) -> (n: u8)
        ensures
            n == self.number(),
            n < 16,
    {
        match self {
            MessageDataType::UInt8 => 0,
            MessageDataType::UInt16 => 1,
            MessageDataType::UInt32 => 2,
            MessageDataType::UInt64 => 3,
            MessageDataType::UInt128 => 4,
            MessageDataType::Int8 => 5,
            MessageDataType::Int16 => 6,
            MessageDataType::Int32 => 7,
            MessageDataType::Int64 => 8,
            MessageDataType::Int128 => 9,
            MessageDataType::Float32 => 10,
            MessageDataType::Float64 => 11,
            MessageDataType::Bool => 12,
            MessageDataType::String => 13,
            MessageDataType::Binary => 14,
            MessageDataType::NoData => 15,
        }
    }

    pub fn from_number(n: u8) -> (r: Option<MessageDataType>)
        ensures
            r == MessageDataType::of_number(n),
    {
        match n {
            0 => Some(MessageDataType::UInt8),
            1 => Some(MessageDataType::UInt16),
            2 => Some(MessageDataType::UInt32),
            3 => Some(MessageDataType::UInt64),
            4 => Some(MessageDataType::UInt128),
            5 => Some(MessageDataType::Int8),
            6 => Some(MessageDataType::Int16),
            7 => Some(MessageDataType::Int32),
            8 => Some(MessageDataType::Int64),
            9 => Some(MessageDataType::Int128),
            10 => Some(MessageDataType::Float32),
            11 => Some(MessageDataType::Float64),
            12 => Some(MessageDataType::Bool),
            13 => Some(MessageDataType::String),
            14 => Some(MessageDataType::Binary),
            15 => Some(MessageDataType::NoData),
            _ => None,
        }
    }
}

impl MessageClass {
    pub open spec fn number(self) -> u8 {
        match self {
            MessageClass::Data => 0,
            MessageClass::Error => 1,
            MessageClass::Warning => 2,
        }
    }

    pub open spec fn of_number(n: u8) -> Option<MessageClass> {
        match n {
            0 => Some(MessageClass::Data),
            1 => Some(MessageClass::Error),
            2 => Some(MessageClass::Warning),
            _ => None,
        }
    }

    pub fn as_number(self) -> (n: u8)
        ensures
            n == self.number(),
            n < 3,
    {
        match self {
            MessageClass::Data => 0,
            MessageClass::Error => 1,
            MessageClass::Warning => 2,
        }
    }

    pub fn from_number(n: u8) -> (r: Option<MessageClass>)
        ensures
            r == MessageClass::of_number(n),
    {
        match n {
            0 => Some(MessageClass::Data),
            1 => Some(MessageClass::Error),
            2 => Some(MessageClass::Warning),
            _ => None,
        }
    }
}

impl ReliableMode {
    pub open spec fn number(self) -> u8 {
        match self {
            ReliableMode::BestEffort => 0,
            ReliableMode::Ordered => 1,
            ReliableMode::Unordered => 2,
        }
    }

    pub open spec fn of_number(n: u8) -> Option<ReliableMode> {
        match n {
            0 => Some(ReliableMode::BestEffort),
            1 => Some(ReliableMode::Ordered),
            2 => Some(ReliableMode::Unordered),
            _ => None,
        }
    }

    pub fn as_number(self) -> (n: u8)
        ensures
            n == self.number(),
            n < 3,
    {
        match self {
            ReliableMode::BestEffort => 0,
            ReliableMode::Ordered => 1,
            ReliableMode::Unordered => 2,
        }
    }

    pub fn from_number(n: u8) -> (r: Option<ReliableMode>)
        ensures
            r == ReliableMode::of_number(n),
    {
        match n {
            0 => Some(ReliableMode::BestEffort),
            1 => Some(ReliableMode::Ordered),
            2 => Some(ReliableMode::Unordered),
            _ => None,
        }
    }
}

impl E2eEncryptionPolicy {
    pub open spec fn number(self) -> u8 {
        match self {
            E2eEncryptionPolicy::PreferOff => 0,
            E2eEncryptionPolicy::PreferOn => 1,
            E2eEncryptionPolicy::RequireOn => 2,
        }
    }

    pub open spec fn of_number(n: u8) -> Option<E2eEncryptionPolicy> {
        match n {
            0 => Some(E2eEncryptionPolicy::PreferOff),
            1 => Some(E2eEncryptionPolicy::PreferOn),
            2 => Some(E2eEncryptionPolicy::RequireOn),
            _ => None,
        }
    }

    pub fn as_number(self) -> (n: u8)
        ensures
            n == self.number(),
            n < 3,
    {
        match self {
            E2eEncryptionPolicy::PreferOff => 0,
            E2eEncryptionPolicy::PreferOn => 1,
            E2eEncryptionPolicy::RequireOn => 2,
        }
    }

    pub fn from_number(n: u8) -> (r: Option<E2eEncryptionPolicy>)
        ensures
            r == E2eEncryptionPolicy::of_number(n),
    {
        match n {
            0 => Some(E2eEncryptionPolicy::PreferOff),
            1 => Some(E2eEncryptionPolicy::PreferOn),
            2 => Some(E2eEncryptionPolicy::RequireOn),
            _ => None,
        }
    }
}

/// Numbers in frames stand for what they were made from.
pub proof fn lemma_numbers_roundtrip(
    dt: MessageDataType,
    class: MessageClass,
    mode: ReliableMode,
    policy: E2eEncryptionPolicy,
)
    ensures
        MessageDataType::of_number(dt.number()) == Some(dt),
        MessageClass::of_number(class.number()) == Some(class),
        ReliableMode::of_number(mode.number()) == Some(mode),
        E2eEncryptionPolicy::of_number(policy.number()) == Some(policy),
{
}

impl MessageElement {
    pub open spec fn kind(self) -> MessageDataType {
        match self {
            MessageElement::Static(_, dt, _) => dt,
            MessageElement::Dynamic(dt, _) => dt,
        }
    }

    pub open spec fn message_class(self) -> MessageClass {
        match self {
            MessageElement::Static(_, _, c) => c,
            MessageElement::Dynamic(_, c) => c,
        }
    }

    /// Number of elements; none are counted where any number is allowed.
    pub open spec fn elements(self) -> nat {
        match self {
            MessageElement::Static(n, _, _) => n as nat,
            MessageElement::Dynamic(_, _) => 0,
        }
    }

    /// Bytes of a payload with a fixed number of elements.
    pub open spec fn static_size(self) -> nat {
        self.elements() * self.kind().width()
    }

    /// Whether `len` bytes can be a payload.
    pub open spec fn fits(self, len: nat) -> bool {
        match self {
            MessageElement::Static(_, _, _) => len == self.static_size(),
            MessageElement::Dynamic(dt, _) => if dt.width() == 0 {
                len == 0
            } else {
                len % dt.width() == 0
            },
        }
    }

    pub fn data_type(self) -> (dt: MessageDataType)
        ensures
            dt == self.kind(),
    {
        match self {
            MessageElement::Static(_, dt, _) => dt,
            MessageElement::Dynamic(dt, _) => dt,
        }
    }

    pub fn class(self) -> (c: MessageClass)
        ensures
            c == self.message_class(),
    {
        match self {
            MessageElement::Static(_, _, c) => c,
            MessageElement::Dynamic(_, c) => c,
        }
    }

    /// Number of elements; 0 where any number is allowed.
    pub fn count(self) -> (n: u32)
        ensures
            n == self.elements(),
    {
        match self {
            MessageElement::Static(n, _, _) => n,
            MessageElement::Dynamic(_, _) => 0,
        }
    }

    /// Bytes of a payload with a fixed number of elements; 0 where any number is allowed.
    pub fn needed_size(self) -> (n: u64)
        ensures
            n == self.static_size(),
    {
        let c: u64 = self.count() as u64;
        let w: u64 = self.data_type().byte_width() as u64;
        proof {
            assert(c * w <= 0xFFFF_FFFF * 16) by (nonlinear_arith)
                requires
                    c <= 0xFFFF_FFFF,
                    w <= 16,
            ;
        }
        c * w
    }

    /// Whether `len` bytes can be a payload.
    pub fn accepts(self, len: usize) -> (b: bool)
        ensures
            b == self.fits(len as nat),
    {
        match self {
            MessageElement::Static(_, _, _) => len as u64 == self.needed_size(),
            MessageElement::Dynamic(dt, _) => {
                let w: usize = dt.byte_width();
                if w == 0 {
                    len == 0
                } else {
                    len % w == 0
                }
            },
        }
    }
}

} // verus!
