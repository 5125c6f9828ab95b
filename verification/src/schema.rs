//! The schema: which endpoints and message types there are.
use vstd::prelude::*;
use vstd::string::*;
use crate::codec;
use crate::definition::{DataTypeDefinition, EndpointDefinition, EndpointSpec, TypeSpec};
use crate::error::{TelemetryError, TelemetryResult};
use crate::meta::{
    DataEndpoint, DataType, E2eEncryptionPolicy, MessageClass, MessageDataType, MessageElement,
    ReliableMode, EP_DISCOVERY, EP_TELEMETRY_ERROR, EP_TIMESYNC, FIRST_USER_ENDPOINT,
    FIRST_USER_TYPE, MAX_VALUE_DATA_ENDPOINT, MAX_VALUE_DATA_TYPE, TY_DISCOVERY_ADDRESS,
    TY_DISCOVERY_ANNOUNCE, TY_DISCOVERY_LEAVE, TY_DISCOVERY_LINK_CAPABILITIES, TY_DISCOVERY_SCHEMA,
    TY_DISCOVERY_SCHEMA_REQUEST, TY_DISCOVERY_TIMESYNC_SOURCES, TY_DISCOVERY_TOPOLOGY,
    TY_DISCOVERY_TOPOLOGY_REQUEST, TY_MANAGED_VARIABLE_VALUE, TY_P2P_MESSAGE, TY_RELIABLE_ACK,
    TY_RELIABLE_PACKET_REQUEST, TY_RELIABLE_PARTIAL_ACK, TY_TELEMETRY_ERROR, TY_TIMESYNC_ANNOUNCE,
    TY_TIMESYNC_REQUEST, TY_TIMESYNC_RESPONSE,
};
use crate::packet;
use crate::table;
use crate::table::{Entry, Table};
use crate::text;

verus! {

/// A schema as a value: the definitions in the order in which they came.
pub struct SchemaSpec {
    pub endpoints: Seq<EndpointSpec>,
    pub types: Seq<TypeSpec>,
}

/// Name of an endpoint of the network itself.
pub open spec fn builtin_endpoint_name(id: DataEndpoint) -> Seq<char> {
    if id == 0 {
        "SEDSNET_ERROR"@
    } else if id == 1 {
        "DISCOVERY"@
    } else {
        "TIME_SYNC"@
    }
}

/// An endpoint of the network itself.
pub open spec fn builtin_endpoint(id: DataEndpoint) -> EndpointSpec {
    EndpointSpec {
        id,
        name: builtin_endpoint_name(id),
        description: ""@,
        link_local_only: false,
    }
}

/// Name of a message type of the network itself.
pub open spec fn builtin_type_name(id: DataType) -> Seq<char> {
    match id {
        0 => "SEDSNET_ERROR"@,
        1 => "RELIABLE_ACK"@,
        2 => "RELIABLE_PARTIAL_ACK"@,
        3 => "RELIABLE_PACKET_REQUEST"@,
        4 => "DISCOVERY_ANNOUNCE"@,
        5 => "DISCOVERY_TIMESYNC_SOURCES"@,
        6 => "DISCOVERY_TOPOLOGY"@,
        7 => "DISCOVERY_SCHEMA"@,
        8 => "DISCOVERY_ADDRESS"@,
        9 => "DISCOVERY_LINK_CAPABILITIES"@,
        10 => "DISCOVERY_LEAVE"@,
        11 => "TIMESYNC_ANNOUNCE"@,
        12 => "TIMESYNC_REQUEST"@,
        13 => "TIMESYNC_RESPONSE"@,
        14 => "MANAGED_VARIABLE_VALUE"@,
        15 => "P2P_MESSAGE"@,
        16 => "DISCOVERY_TOPOLOGY_REQUEST"@,
        _ => "DISCOVERY_SCHEMA_REQUEST"@,
    }
}

/// Where messages of a type of the network itself go.
pub open spec fn builtin_type_endpoint(id: DataType) -> DataEndpoint {
    if 4 <= id <= 10 || 16 <= id <= 17 {
        EP_DISCOVERY
    } else if 11 <= id <= 13 {
        EP_TIMESYNC
    } else {
        EP_TELEMETRY_ERROR
    }
}

/// A message type of the network itself.
pub open spec fn builtin_type(id: DataType) -> TypeSpec {
    TypeSpec {
        id,
        name: builtin_type_name(id),
        description: ""@,
        element: if id == 0 {
            MessageElement::Dynamic(MessageDataType::String, MessageClass::Error)
        } else {
            MessageElement::Dynamic(MessageDataType::Binary, MessageClass::Data)
        },
        endpoints: seq![builtin_type_endpoint(id)],
        reliable: ReliableMode::BestEffort,
        priority: 0,
        e2e_encryption: E2eEncryptionPolicy::PreferOff,
    }
}

/// Whether a payload of this shape can be that of a packet.
pub open spec fn has_packets(e: MessageElement) -> bool {
    e.static_size() <= packet::MAX_PAYLOAD
}

/// The smallest number from `from` up to `max` that no definition has.
pub open spec fn free_id<D: Entry>(s: Seq<D::V>, from: int, max: int) -> Option<u32>
    decreases max - from + 1,
{
    if from > max || from < 0 || from > u32::MAX {
        None
    } else if table::lookup::<D>(s, from as u32) is None {
        Some(from as u32)
    } else {
        free_id::<D>(s, from + 1, max)
    }
}

/// A free number stands for nothing yet.
pub proof fn lemma_free_id_is_free<D: Entry>(s: Seq<D::V>, from: int, max: int)
    ensures
        free_id::<D>(s, from, max) matches Some(id) ==> table::lookup::<D>(s, id) is None,
    decreases max - from + 1,
{
    if !(from > max || from < 0 || from > u32::MAX) && table::lookup::<D>(s, from as u32) is Some {
        lemma_free_id_is_free::<D>(s, from + 1, max);
    }
}

impl SchemaSpec {
    /// The definitions that are not the network's own.
    pub open spec fn exported(self) -> SchemaSpec {
        SchemaSpec {
            endpoints: self.endpoints.filter(|e: EndpointSpec| e.id >= FIRST_USER_ENDPOINT),
            types: self.types.filter(|t: TypeSpec| t.id >= FIRST_USER_TYPE),
        }
    }

    pub open spec fn endpoint(self, id: DataEndpoint) -> Option<EndpointSpec> {
        table::lookup::<EndpointDefinition>(self.endpoints, id)
    }

    pub open spec fn message(self, id: DataType) -> Option<TypeSpec> {
        table::lookup::<DataTypeDefinition>(self.types, id)
    }

    pub open spec fn endpoint_named(self, name: Seq<char>) -> Option<EndpointSpec> {
        table::lookup_name::<EndpointDefinition>(self.endpoints, name)
    }

    pub open spec fn message_named(self, name: Seq<char>) -> Option<TypeSpec> {
        table::lookup_name::<DataTypeDefinition>(self.types, name)
    }

    /// No number stands for two things, the network's own definitions are all there, and packets
    /// of every type can be made.
    pub open spec fn wf(self) -> bool {
        &&& table::distinct::<EndpointDefinition>(self.endpoints)
        &&& table::distinct::<DataTypeDefinition>(self.types)
        &&& forall|id: DataEndpoint|
            id < FIRST_USER_ENDPOINT ==> #[trigger] self.endpoint(id) == Some(builtin_endpoint(id))
        &&& forall|id: DataType|
            id < FIRST_USER_TYPE ==> #[trigger] self.message(id) == Some(builtin_type(id))
        &&& forall|id: DataType|
            (#[trigger] self.message(id)) matches Some(t) ==> has_packets(t.element)
    }

    /// Bytes that the definitions take when written.
    pub open spec fn cost(self) -> nat {
        table::table_cost::<EndpointDefinition>(self.endpoints) + table::table_cost::<
            DataTypeDefinition,
        >(self.types)
    }

    /// The schema after registering an endpoint, or `None` where that is refused.
    pub open spec fn with_endpoint(self, e: EndpointSpec) -> Option<SchemaSpec> {
        match self.endpoint(e.id) {
            Some(cur) => if cur.name == e.name && cur.link_local_only == e.link_local_only {
                Some(self)
            } else {
                None
            },
            None => if self.endpoint_named(e.name) is Some {
                None
            } else {
                Some(SchemaSpec { endpoints: self.endpoints.push(e), types: self.types })
            },
        }
    }

    /// Whether every endpoint in `ids` is defined.
    pub open spec fn knows_all(self, ids: Seq<DataEndpoint>) -> bool {
        forall|i: int| 0 <= i < ids.len() ==> self.endpoint(#[trigger] ids[i]) is Some
    }

    /// The schema after registering a message type, or `None` where that is refused.
    pub open spec fn with_type(self, t: TypeSpec) -> Option<SchemaSpec> {
        match self.message(t.id) {
            Some(cur) => if cur.name == t.name && cur.element == t.element && cur.endpoints
                == t.endpoints && cur.reliable == t.reliable && cur.priority == t.priority
                && cur.e2e_encryption == t.e2e_encryption {
                Some(self)
            } else {
                None
            },
            None => if self.message_named(t.name) is Some || t.endpoints.len() == 0
                || !self.knows_all(t.endpoints) || !has_packets(t.element) {
                None
            } else {
                Some(SchemaSpec { endpoints: self.endpoints, types: self.types.push(t) })
            },
        }
    }

    /// The schema without an endpoint and without the types that go there.
    pub open spec fn without_endpoint(self, id: DataEndpoint) -> SchemaSpec {
        SchemaSpec {
            endpoints: self.endpoints.filter(|e: EndpointSpec| e.id != id),
            types: self.types.filter(|t: TypeSpec| !t.endpoints.contains(id)),
        }
    }

    pub open spec fn without_type(self, id: DataType) -> SchemaSpec {
        SchemaSpec {
            endpoints: self.endpoints,
            types: self.types.filter(|t: TypeSpec| t.id != id),
        }
    }

    /// The schema with the user endpoints of `list` merged in.
    pub open spec fn merge_endpoints(self, list: Seq<EndpointSpec>) -> SchemaSpec
        decreases list.len(),
    {
        if list.len() == 0 {
            self
        } else {
            let base = self.merge_endpoints(list.drop_last());
            if list.last().id < FIRST_USER_ENDPOINT {
                base
            } else {
                SchemaSpec {
                    endpoints: table::merged::<EndpointDefinition>(base.endpoints, list.last()),
                    types: base.types,
                }
            }
        }
    }

    /// The schema with the user types of `list` merged in that packets can be made of.
    pub open spec fn merge_types(self, list: Seq<TypeSpec>) -> SchemaSpec
        decreases list.len(),
    {
        if list.len() == 0 {
            self
        } else {
            let base = self.merge_types(list.drop_last());
            if list.last().id < FIRST_USER_TYPE || !has_packets(list.last().element) {
                base
            } else {
                SchemaSpec {
                    endpoints: base.endpoints,
                    types: table::merged::<DataTypeDefinition>(base.types, list.last()),
                }
            }
        }
    }

    /// Whether merging the endpoints of `list` adds or replaces one.
    pub open spec fn endpoints_change(self, list: Seq<EndpointSpec>) -> bool
        decreases list.len(),
    {
        if list.len() == 0 {
            false
        } else {
            self.endpoints_change(list.drop_last()) || (list.last().id >= FIRST_USER_ENDPOINT
                && table::merge_changes::<EndpointDefinition>(
                self.merge_endpoints(list.drop_last()).endpoints,
                list.last(),
            ))
        }
    }

    /// Whether merging the types of `list` adds or replaces one.
    pub open spec fn types_change(self, list: Seq<TypeSpec>) -> bool
        decreases list.len(),
    {
        if list.len() == 0 {
            false
        } else {
            self.types_change(list.drop_last()) || (list.last().id >= FIRST_USER_TYPE
                && has_packets(list.last().element) && table::merge_changes::<DataTypeDefinition>(
                self.merge_types(list.drop_last()).types,
                list.last(),
            ))
        }
    }

    /// The schema with a snapshot merged in: its endpoints first, then its types.
    pub open spec fn merge(self, snapshot: SchemaSpec) -> SchemaSpec {
        self.merge_endpoints(snapshot.endpoints).merge_types(snapshot.types)
    }

    pub open spec fn merge_changes(self, snapshot: SchemaSpec) -> bool {
        self.endpoints_change(snapshot.endpoints) || self.merge_endpoints(
            snapshot.endpoints,
        ).types_change(snapshot.types)
    }

    /// What the scheduler ranks messages of a type by: discovery first, then state that all
    /// boards share, then link control, then user messages by their own priority.
    pub open spec fn scheduler_rank(self, id: DataType) -> u8 {
        if id == 7 || (11 <= id <= 14) {
            254
        } else if 4 <= id <= 10 || 16 <= id <= 17 {
            255
        } else if 1 <= id <= 3 {
            253
        } else {
            match self.message(id) {
                Some(t) => if t.priority <= 250 {
                    t.priority
                } else {
                    250
                },
                None => 0,
            }
        }
    }
}

proof fn lemma_lookup_push<D: Entry>(s: Seq<D::V>, v: D::V, id: u32)
    ensures
        table::lookup::<D>(s.push(v), id) == (if D::key(v) == id {
            Some(v)
        } else {
            table::lookup::<D>(s, id)
        }),
{
    assert(s.push(v).drop_last() =~= s);
}

/// Registering a definition keeps the schema well-formed.
pub proof fn lemma_register_wf(s: SchemaSpec, e: EndpointSpec, t: TypeSpec)
    requires
        s.wf(),
    ensures
        s.with_endpoint(e) matches Some(r) ==> r.wf(),
        s.with_type(t) matches Some(r) ==> r.wf(),
{
    assert(s.endpoints.push(e).drop_last() =~= s.endpoints);
    assert(s.types.push(t).drop_last() =~= s.types);
    if let Some(r) = s.with_endpoint(e) {
        assert forall|id: DataEndpoint| id < FIRST_USER_ENDPOINT implies #[trigger] r.endpoint(id)
            == Some(builtin_endpoint(id)) by {
            assert(s.endpoint(id) == Some(builtin_endpoint(id)));
            lemma_lookup_push::<EndpointDefinition>(s.endpoints, e, id);
        }
        assert forall|id: DataType| id < FIRST_USER_TYPE implies #[trigger] r.message(id) == Some(
            builtin_type(id),
        ) by {
            assert(s.message(id) == Some(builtin_type(id)));
        }
        assert forall|id: DataType| (#[trigger] r.message(id)) is Some implies has_packets(
            r.message(id)->0.element,
        ) by {
            assert(s.message(id) == r.message(id));
        }
    }
    if let Some(r) = s.with_type(t) {
        assert forall|id: DataEndpoint| id < FIRST_USER_ENDPOINT implies #[trigger] r.endpoint(id)
            == Some(builtin_endpoint(id)) by {
            assert(s.endpoint(id) == Some(builtin_endpoint(id)));
        }
        assert forall|id: DataType| id < FIRST_USER_TYPE implies #[trigger] r.message(id) == Some(
            builtin_type(id),
        ) by {
            assert(s.message(id) == Some(builtin_type(id)));
            lemma_lookup_push::<DataTypeDefinition>(s.types, t, id);
        }
        assert forall|id: DataType| (#[trigger] r.message(id)) is Some implies has_packets(
            r.message(id)->0.element,
        ) by {
            assert(s.message(id) matches Some(y) ==> has_packets(y.element));
            lemma_lookup_push::<DataTypeDefinition>(s.types, t, id);
        }
    }
}

/// Removing a user definition keeps the schema well-formed and takes away what it names, and
/// nothing else.
pub proof fn lemma_remove_endpoint(s: SchemaSpec, id: DataEndpoint)
    requires
        s.wf(),
        id >= FIRST_USER_ENDPOINT,
    ensures
        s.without_endpoint(id).wf(),
        forall|x: DataEndpoint|
            #[trigger] s.without_endpoint(id).endpoint(x) == (if x == id {
                None
            } else {
                s.endpoint(x)
            }),
        forall|x: DataType|
            #[trigger] s.without_endpoint(id).message(x) == (match s.message(x) {
                Some(t) => if t.endpoints.contains(id) {
                    None
                } else {
                    Some(t)
                },
                None => None,
            }),
{
    let r = s.without_endpoint(id);
    assert forall|x: DataEndpoint| #[trigger] r.endpoint(x) == (if x == id {
        None
    } else {
        s.endpoint(x)
    }) by {
        table::lemma_lookup_filter::<EndpointDefinition>(
            s.endpoints,
            |e: EndpointSpec| e.id != id,
            x,
        );
        table::lemma_lookup_sound::<EndpointDefinition>(s.endpoints, x);
    }
    assert forall|x: DataType| #[trigger] r.message(x) == (match s.message(x) {
        Some(t) => if t.endpoints.contains(id) {
            None
        } else {
            Some(t)
        },
        None => None,
    }) by {
        table::lemma_lookup_filter::<DataTypeDefinition>(
            s.types,
            |t: TypeSpec| !t.endpoints.contains(id),
            x,
        );
    }
    table::lemma_lookup_filter::<EndpointDefinition>(s.endpoints, |e: EndpointSpec| e.id != id, 0);
    table::lemma_lookup_filter::<DataTypeDefinition>(
        s.types,
        |t: TypeSpec| !t.endpoints.contains(id),
        0,
    );
    assert forall|x: DataType| x < FIRST_USER_TYPE implies #[trigger] r.message(x) == Some(
        builtin_type(x),
    ) by {
        assert(s.message(x) == Some(builtin_type(x)));
        assert(!builtin_type(x).endpoints.contains(id)) by {
            assert(builtin_type(x).endpoints =~= seq![builtin_type_endpoint(x)]);
            assert(forall|k: int| 0 <= k < 1 ==> builtin_type(x).endpoints[k] < id);
        }
    }
    assert forall|x: DataType| (#[trigger] r.message(x)) is Some implies has_packets(
            r.message(x)->0.element,
        ) by {
        assert(s.message(x) is Some);
    }
}

/// Removing a user type takes away that type and nothing else.
pub proof fn lemma_remove_type(s: SchemaSpec, id: DataType)
    requires
        s.wf(),
        id >= FIRST_USER_TYPE,
    ensures
        s.without_type(id).wf(),
        forall|x: DataType|
            #[trigger] s.without_type(id).message(x) == (if x == id {
                None
            } else {
                s.message(x)
            }),
{
    let r = s.without_type(id);
    assert forall|x: DataType| #[trigger] r.message(x) == (if x == id {
        None
    } else {
        s.message(x)
    }) by {
        table::lemma_lookup_filter::<DataTypeDefinition>(s.types, |t: TypeSpec| t.id != id, x);
        table::lemma_lookup_sound::<DataTypeDefinition>(s.types, x);
    }
    table::lemma_lookup_filter::<DataTypeDefinition>(s.types, |t: TypeSpec| t.id != id, 0);
    assert forall|x: DataEndpoint| x < FIRST_USER_ENDPOINT implies #[trigger] r.endpoint(x) == Some(
        builtin_endpoint(x),
    ) by {
        assert(s.endpoint(x) == Some(builtin_endpoint(x)));
    }
    assert forall|x: DataType| x < FIRST_USER_TYPE implies #[trigger] r.message(x) == Some(
        builtin_type(x),
    ) by {
        assert(s.message(x) == Some(builtin_type(x)));
    }
    assert forall|x: DataType| (#[trigger] r.message(x)) is Some implies has_packets(
            r.message(x)->0.element,
        ) by {
        assert(s.message(x) is Some);
    }
}

/// Merging keeps the schema well-formed.
pub proof fn lemma_merge_endpoints_wf(s: SchemaSpec, list: Seq<EndpointSpec>)
    requires
        s.wf(),
    ensures
        s.merge_endpoints(list).wf(),
    decreases list.len(),
{
    if list.len() > 0 {
        lemma_merge_endpoints_wf(s, list.drop_last());
        let base = s.merge_endpoints(list.drop_last());
        let r = s.merge_endpoints(list);
        table::lemma_lookup_merged::<EndpointDefinition>(base.endpoints, list.last(), 0);
        assert forall|x: DataEndpoint| x < FIRST_USER_ENDPOINT implies #[trigger] r.endpoint(x)
            == Some(builtin_endpoint(x)) by {
            assert(base.endpoint(x) == Some(builtin_endpoint(x)));
            table::lemma_lookup_merged::<EndpointDefinition>(base.endpoints, list.last(), x);
        }
        assert forall|x: DataType| x < FIRST_USER_TYPE implies #[trigger] r.message(x) == Some(
            builtin_type(x),
        ) by {
            assert(base.message(x) == Some(builtin_type(x)));
        }
        assert forall|x: DataType| (#[trigger] r.message(x)) is Some implies has_packets(
            r.message(x)->0.element,
        ) by {
            assert(base.message(x) == r.message(x));
        }
    }
}

/// Merging keeps the schema well-formed.
pub proof fn lemma_merge_types_wf(s: SchemaSpec, list: Seq<TypeSpec>)
    requires
        s.wf(),
    ensures
        s.merge_types(list).wf(),
    decreases list.len(),
{
    if list.len() > 0 {
        lemma_merge_types_wf(s, list.drop_last());
        let base = s.merge_types(list.drop_last());
        let r = s.merge_types(list);
        table::lemma_lookup_merged::<DataTypeDefinition>(base.types, list.last(), 0);
        assert forall|x: DataEndpoint| x < FIRST_USER_ENDPOINT implies #[trigger] r.endpoint(x)
            == Some(builtin_endpoint(x)) by {
            assert(base.endpoint(x) == Some(builtin_endpoint(x)));
        }
        assert forall|x: DataType| x < FIRST_USER_TYPE implies #[trigger] r.message(x) == Some(
            builtin_type(x),
        ) by {
            assert(base.message(x) == Some(builtin_type(x)));
            table::lemma_lookup_merged::<DataTypeDefinition>(base.types, list.last(), x);
        }
        assert forall|x: DataType| (#[trigger] r.message(x)) is Some implies has_packets(
            r.message(x)->0.element,
        ) by {
            assert(base.message(x) matches Some(y) ==> has_packets(y.element));
            table::lemma_lookup_merged::<DataTypeDefinition>(base.types, list.last(), x);
        }
    }
}

/// Some definitions of a schema, to be handed to another board.
pub struct SchemaSnapshot {
    pub endpoints: Vec<EndpointDefinition>,
    pub types: Vec<DataTypeDefinition>,
}

impl View for SchemaSnapshot {
    type V = SchemaSpec;

    open spec fn view(&self) -> SchemaSpec {
        SchemaSpec {
            endpoints: self.endpoints@.map_values(|d: EndpointDefinition| d@),
            types: self.types@.map_values(|d: DataTypeDefinition| d@),
        }
    }
}

impl SchemaSnapshot {
    /// Bytes that the definitions take when written, counted up to the largest `usize`.
    pub fn byte_cost(&self) -> (n: usize)
        ensures
            n == table::capped(self@.cost()),
    {
        table::list_cost(&self.endpoints).saturating_add(table::list_cost(&self.types))
    }
}

/// The endpoints and message types that a board knows.
pub struct Schema {
    endpoints: Table<EndpointDefinition>,
    types: Table<DataTypeDefinition>,
}

impl View for Schema {
    type V = SchemaSpec;

    closed spec fn view(&self) -> SchemaSpec {
        SchemaSpec { endpoints: self.endpoints@, types: self.types@ }
    }
}

fn builtin_endpoint_definition(id: DataEndpoint) -> (d: EndpointDefinition)
    requires
        id < FIRST_USER_ENDPOINT,
    ensures
        d@ == builtin_endpoint(id),
{
    let name: &str = if id == 0 {
        "SEDSNET_ERROR"
    } else if id == 1 {
        "DISCOVERY"
    } else {
        "TIME_SYNC"
    };
    EndpointDefinition {
        id,
        name: name.to_owned(),
        description: "".to_owned(),
        link_local_only: false,
    }
}

fn builtin_type_definition(id: DataType) -> (d: DataTypeDefinition)
    requires
        id < FIRST_USER_TYPE,
    ensures
        d@ == builtin_type(id),
{
    let name: &str = match id {
        0 => "SEDSNET_ERROR",
        1 => "RELIABLE_ACK",
        2 => "RELIABLE_PARTIAL_ACK",
        3 => "RELIABLE_PACKET_REQUEST",
        4 => "DISCOVERY_ANNOUNCE",
        5 => "DISCOVERY_TIMESYNC_SOURCES",
        6 => "DISCOVERY_TOPOLOGY",
        7 => "DISCOVERY_SCHEMA",
        8 => "DISCOVERY_ADDRESS",
        9 => "DISCOVERY_LINK_CAPABILITIES",
        10 => "DISCOVERY_LEAVE",
        11 => "TIMESYNC_ANNOUNCE",
        12 => "TIMESYNC_REQUEST",
        13 => "TIMESYNC_RESPONSE",
        14 => "MANAGED_VARIABLE_VALUE",
        15 => "P2P_MESSAGE",
        16 => "DISCOVERY_TOPOLOGY_REQUEST",
        _ => "DISCOVERY_SCHEMA_REQUEST",
    };
    let endpoint: DataEndpoint = if (4 <= id && id <= 10) || (16 <= id && id <= 17) {
        EP_DISCOVERY
    } else if 11 <= id && id <= 13 {
        EP_TIMESYNC
    } else {
        EP_TELEMETRY_ERROR
    };
    let mut endpoints: Vec<DataEndpoint> = Vec::new();
    endpoints.push(endpoint);
    let d = DataTypeDefinition {
        id,
        name: name.to_owned(),
        description: "".to_owned(),
        element: if id == 0 {
            MessageElement::Dynamic(MessageDataType::String, MessageClass::Error)
        } else {
            MessageElement::Dynamic(MessageDataType::Binary, MessageClass::Data)
        },
        endpoints,
        reliable: ReliableMode::BestEffort,
        priority: 0,
        e2e_encryption: E2eEncryptionPolicy::PreferOff,
    };
    assert(d@.endpoints =~= builtin_type(id).endpoints);
    d
}

impl Schema {
    /// The schema that holds the network's own definitions only.
    pub fn new() -> (r: Schema)
        ensures
            r@.wf(),
            forall|id: DataEndpoint|
                id >= FIRST_USER_ENDPOINT ==> #[trigger] r@.endpoint(id) is None,
            forall|id: DataType| id >= FIRST_USER_TYPE ==> #[trigger] r@.message(id) is None,
    {
        let mut endpoints: Table<EndpointDefinition> = Table::new();
        let mut i: DataEndpoint = 0;
        while i < FIRST_USER_ENDPOINT
            invariant
                i <= FIRST_USER_ENDPOINT,
                table::distinct::<EndpointDefinition>(endpoints@),
                forall|id: DataEndpoint|
                    #[trigger] table::lookup::<EndpointDefinition>(endpoints@, id) == (if id < i {
                        Some(builtin_endpoint(id))
                    } else {
                        None
                    }),
            decreases FIRST_USER_ENDPOINT - i,
        {
            let ghost before = endpoints@;
            endpoints.push(builtin_endpoint_definition(i));
            proof {
                assert(before.push(builtin_endpoint(i)).drop_last() =~= before);
                assert(table::lookup::<EndpointDefinition>(before, i) is None);
                assert forall|id: DataEndpoint| #[trigger]
                    table::lookup::<EndpointDefinition>(endpoints@, id) == (if id < i + 1 {
                    Some(builtin_endpoint(id))
                } else {
                    None
                }) by {
                    lemma_lookup_push::<EndpointDefinition>(before, builtin_endpoint(i), id);
                    assert(table::lookup::<EndpointDefinition>(before, id) == (if id < i {
                        Some(builtin_endpoint(id))
                    } else {
                        None
                    }));
                }
            }
            i = i + 1;
        }
        let mut types: Table<DataTypeDefinition> = Table::new();
        let mut k: DataType = 0;
        while k < FIRST_USER_TYPE
            invariant
                k <= FIRST_USER_TYPE,
                table::distinct::<DataTypeDefinition>(types@),
                forall|id: DataType|
                    #[trigger] table::lookup::<DataTypeDefinition>(types@, id) == (if id < k {
                        Some(builtin_type(id))
                    } else {
                        None
                    }),
            decreases FIRST_USER_TYPE - k,
        {
            let ghost before = types@;
            types.push(builtin_type_definition(k));
            proof {
                assert(before.push(builtin_type(k)).drop_last() =~= before);
                assert(table::lookup::<DataTypeDefinition>(before, k) is None);
                assert forall|id: DataType| #[trigger]
                    table::lookup::<DataTypeDefinition>(types@, id) == (if id < k + 1 {
                    Some(builtin_type(id))
                } else {
                    None
                }) by {
                    lemma_lookup_push::<DataTypeDefinition>(before, builtin_type(k), id);
                    assert(table::lookup::<DataTypeDefinition>(before, id) == (if id < k {
                        Some(builtin_type(id))
                    } else {
                        None
                    }));
                }
            }
            k = k + 1;
        }
        let r = Schema { endpoints, types };
        assert forall|id: DataEndpoint| id < FIRST_USER_ENDPOINT implies #[trigger] r@.endpoint(id)
            == Some(builtin_endpoint(id)) by {
            assert(table::lookup::<EndpointDefinition>(r@.endpoints, id) == Some(
                builtin_endpoint(id),
            ));
        }
        assert forall|id: DataType| id < FIRST_USER_TYPE implies #[trigger] r@.message(id) == Some(
            builtin_type(id),
        ) by {
            assert(table::lookup::<DataTypeDefinition>(r@.types, id) == Some(builtin_type(id)));
        }
        assert forall|id: DataEndpoint| id >= FIRST_USER_ENDPOINT implies #[trigger] r@.endpoint(id)
            is None by {
            assert(table::lookup::<EndpointDefinition>(r@.endpoints, id) is None);
        }
        assert forall|id: DataType| id >= FIRST_USER_TYPE implies #[trigger] r@.message(id)
            is None by {
            assert(table::lookup::<DataTypeDefinition>(r@.types, id) is None);
        }
        assert forall|id: DataType| (#[trigger] r@.message(id)) is Some implies has_packets(
            r@.message(id)->0.element,
        ) by {
            assert(id < FIRST_USER_TYPE);
            assert(table::lookup::<DataTypeDefinition>(r@.types, id) == Some(builtin_type(id)));
        }
        r
    }

    /// A copy of the schema.
    pub fn copied(&self) -> (r: Schema)
        ensures
            r@ == self@,
    {
        Schema { endpoints: self.endpoints.copied(), types: self.types.copied() }
    }

    /// The definition of an endpoint.
    pub fn endpoint_definition(&self, id: DataEndpoint) -> (r: Option<&EndpointDefinition>)
        ensures
            match self@.endpoint(id) {
                Some(e) => r matches Some(d) && d@ == e,
                None => r is None,
            },
    {
        self.endpoints.find(id)
    }

    /// The definition of a message type.
    pub fn message_meta(&self, id: DataType) -> (r: Option<&DataTypeDefinition>)
        ensures
            match self@.message(id) {
                Some(t) => r matches Some(d) && d@ == t,
                None => r is None,
            },
    {
        self.types.find(id)
    }

    pub fn endpoint_definition_by_name(&self, name: &str) -> (r: Option<&EndpointDefinition>)
        ensures
            match self@.endpoint_named(name@) {
                Some(e) => r matches Some(d) && d@ == e,
                None => r is None,
            },
    {
        self.endpoints.find_name(name)
    }

    pub fn data_type_definition_by_name(&self, name: &str) -> (r: Option<&DataTypeDefinition>)
        ensures
            match self@.message_named(name@) {
                Some(t) => r matches Some(d) && d@ == t,
                None => r is None,
            },
    {
        self.types.find_name(name)
    }

    pub fn endpoint_exists(&self, id: DataEndpoint) -> (b: bool)
        ensures
            b == (self@.endpoint(id) is Some),
    {
        self.endpoints.find(id).is_some()
    }

    pub fn data_type_exists(&self, id: DataType) -> (b: bool)
        ensures
            b == (self@.message(id) is Some),
    {
        self.types.find(id).is_some()
    }

    /// The number of the endpoint with the name `name`.
    pub fn try_named_endpoint(&self, name: &str) -> (r: Option<DataEndpoint>)
        ensures
            r == (match self@.endpoint_named(name@) {
                Some(e) => Some(e.id),
                None => None,
            }),
    {
        match self.endpoints.find_name(name) {
            Some(d) => Some(d.id),
            None => None,
        }
    }

    /// The number of the message type with the name `name`.
    pub fn try_named_type(&self, name: &str) -> (r: Option<DataType>)
        ensures
            r == (match self@.message_named(name@) {
                Some(t) => Some(t.id),
                None => None,
            }),
    {
        match self.types.find_name(name) {
            Some(d) => Some(d.id),
            None => None,
        }
    }

    /// Registers an endpoint under a number. A number or a name that stands for something else is
    /// refused.
    pub fn register_endpoint_id(
        &mut self,
        id: DataEndpoint,
        name: &str,
        description: &str,
        link_local_only: bool,
    ) -> (r: TelemetryResult<DataEndpoint>)
        requires
            old(self)@.wf(),
        ensures
            final(self)@.wf(),
            match old(self)@.with_endpoint(
                (EndpointSpec { id, name: name@, description: description@, link_local_only }),
            ) {
                Some(s) => r == Ok::<DataEndpoint, TelemetryError>(id) && final(self)@ == s,
                None => r == Err::<DataEndpoint, TelemetryError>(TelemetryError::BadArg)
                    && final(self)@ == old(self)@,
            },
    {
        let ghost e = EndpointSpec { id, name: name@, description: description@, link_local_only };
        proof {
            lemma_register_wf(self@, e, builtin_type(0));
        }
        let wanted: String = name.to_owned();
        match self.endpoints.find(id) {
            Some(cur) => {
                if cur.name == wanted && cur.link_local_only == link_local_only {
                    return Ok(id);
                }
                return Err(TelemetryError::BadArg);
            },
            None => {},
        }
        if self.endpoints.find_name(name).is_some() {
            return Err(TelemetryError::BadArg);
        }
        self.endpoints.push(
            EndpointDefinition { id, name: wanted, description: description.to_owned(), link_local_only },
        );
        Ok(id)
    }

    /// The smallest endpoint number that is free for a user endpoint.
    pub fn free_endpoint_id(&self) -> (r: Option<DataEndpoint>)
        ensures
            r == free_id::<EndpointDefinition>(
                self@.endpoints,
                FIRST_USER_ENDPOINT as int,
                MAX_VALUE_DATA_ENDPOINT as int,
            ),
    {
        let mut id: DataEndpoint = FIRST_USER_ENDPOINT;
        while id <= MAX_VALUE_DATA_ENDPOINT
            invariant
                id <= MAX_VALUE_DATA_ENDPOINT + 1,
                free_id::<EndpointDefinition>(
                    self@.endpoints,
                    FIRST_USER_ENDPOINT as int,
                    MAX_VALUE_DATA_ENDPOINT as int,
                ) == free_id::<EndpointDefinition>(
                    self@.endpoints,
                    id as int,
                    MAX_VALUE_DATA_ENDPOINT as int,
                ),
            decreases MAX_VALUE_DATA_ENDPOINT + 1 - id,
        {
            if self.endpoints.find(id).is_none() {
                return Some(id);
            }
            id = id + 1;
        }
        None
    }

    /// The smallest type number that is free for a user type.
    pub fn free_type_id(&self) -> (r: Option<DataType>)
        ensures
            r == free_id::<DataTypeDefinition>(
                self@.types,
                FIRST_USER_TYPE as int,
                MAX_VALUE_DATA_TYPE as int,
            ),
    {
        let mut id: DataType = FIRST_USER_TYPE;
        while id <= MAX_VALUE_DATA_TYPE
            invariant
                id <= MAX_VALUE_DATA_TYPE + 1,
                free_id::<DataTypeDefinition>(
                    self@.types,
                    FIRST_USER_TYPE as int,
                    MAX_VALUE_DATA_TYPE as int,
                ) == free_id::<DataTypeDefinition>(
                    self@.types,
                    id as int,
                    MAX_VALUE_DATA_TYPE as int,
                ),
            decreases MAX_VALUE_DATA_TYPE + 1 - id,
        {
            if self.types.find(id).is_none() {
                return Some(id);
            }
            id = id + 1;
        }
        None
    }

    /// Registers an endpoint under the smallest free number; `BadArg` where no number is free or
    /// the name is taken.
    pub fn register_endpoint_with_description(
        &mut self,
        name: &str,
        description: &str,
        link_local_only: bool,
    ) -> (r: TelemetryResult<DataEndpoint>)
        requires
            old(self)@.wf(),
        ensures
            final(self)@.wf(),
            match free_id::<EndpointDefinition>(
                old(self)@.endpoints,
                FIRST_USER_ENDPOINT as int,
                MAX_VALUE_DATA_ENDPOINT as int,
            ) {
                Some(id) => match old(self)@.with_endpoint(
                    (EndpointSpec { id, name: name@, description: description@, link_local_only }),
                ) {
                    Some(s) => r == Ok::<DataEndpoint, TelemetryError>(id) && final(self)@ == s,
                    None => r == Err::<DataEndpoint, TelemetryError>(TelemetryError::BadArg)
                        && final(self)@ == old(self)@,
                },
                None => r == Err::<DataEndpoint, TelemetryError>(TelemetryError::BadArg)
                    && final(self)@ == old(self)@,
            },
    {
        match self.free_endpoint_id() {
            Some(id) => self.register_endpoint_id(id, name, description, link_local_only),
            None => Err(TelemetryError::BadArg),
        }
    }

    /// Whether every endpoint in `ids` is defined.
    pub fn knows(&self, ids: &[DataEndpoint]) -> (b: bool)
        ensures
            b == self@.knows_all(ids@),
    {
        let mut i: usize = 0;
        while i < ids.len()
            invariant
                i <= ids@.len(),
                forall|j: int| 0 <= j < i ==> self@.endpoint(#[trigger] ids@[j]) is Some,
            decreases ids@.len() - i,
        {
            if self.endpoints.find(ids[i]).is_none() {
                assert(self@.endpoint(ids@[i as int]) is None);
                return false;
            }
            i = i + 1;
        }
        true
    }

    /// Registers a message type under its number. A number or a name that stands for something
    /// else, no endpoint, an endpoint that is not there, or a shape that is too long for a packet is
    /// refused.
    pub fn register_type(&mut self, d: DataTypeDefinition) -> (r: TelemetryResult<DataType>)
        requires
            old(self)@.wf(),
        ensures
            final(self)@.wf(),
            match old(self)@.with_type(d@) {
                Some(s) => r == Ok::<DataType, TelemetryError>(d.id) && final(self)@ == s,
                None => r == Err::<DataType, TelemetryError>(TelemetryError::BadArg)
                    && final(self)@ == old(self)@,
            },
    {
        proof {
            lemma_register_wf(self@, builtin_endpoint(0), d@);
        }
        match self.types.find(d.id) {
            Some(cur) => {
                if cur.name == d.name && cur.element == d.element && codec::same_u32(
                    &cur.endpoints,
                    &d.endpoints,
                ) && cur.reliable == d.reliable && cur.priority == d.priority
                    && cur.e2e_encryption == d.e2e_encryption {
                    return Ok(d.id);
                }
                return Err(TelemetryError::BadArg);
            },
            None => {},
        }
        if self.types.find_name(d.name.as_str()).is_some() || d.endpoints.len() == 0 || !self.knows(
            &d.endpoints,
        ) || d.element.needed_size() > packet::MAX_PAYLOAD {
            return Err(TelemetryError::BadArg);
        }
        let id: DataType = d.id;
        self.types.push(d);
        Ok(id)
    }

    /// Registers a message type that is not locked end to end.
    pub fn register_data_type_id(
        &mut self,
        id: DataType,
        name: &str,
        description: &str,
        element: MessageElement,
        endpoints: &[DataEndpoint],
        reliable: ReliableMode,
        priority: u8,
    ) -> (r: TelemetryResult<DataType>)
        requires
            old(self)@.wf(),
        ensures
            final(self)@.wf(),
            match old(self)@.with_type(
                (TypeSpec {
                    id,
                    name: name@,
                    description: description@,
                    element,
                    endpoints: endpoints@,
                    reliable,
                    priority,
                    e2e_encryption: E2eEncryptionPolicy::PreferOff,
                }),
            ) {
                Some(s) => r == Ok::<DataType, TelemetryError>(id) && final(self)@ == s,
                None => r == Err::<DataType, TelemetryError>(TelemetryError::BadArg)
                    && final(self)@ == old(self)@,
            },
    {
        self.register_type(
            DataTypeDefinition {
                id,
                name: name.to_owned(),
                description: description.to_owned(),
                element,
                endpoints: codec::copy_u32(endpoints),
                reliable,
                priority,
                e2e_encryption: E2eEncryptionPolicy::PreferOff,
            },
        )
    }

    /// Registers a message type under the smallest free number; `BadArg` where no number is free
    /// or the registration is refused.
    pub fn register_data_type_with_description(
        &mut self,
        name: &str,
        description: &str,
        element: MessageElement,
        endpoints: &[DataEndpoint],
        reliable: ReliableMode,
        priority: u8,
    ) -> (r: TelemetryResult<DataType>)
        requires
            old(self)@.wf(),
        ensures
            final(self)@.wf(),
            match free_id::<DataTypeDefinition>(
                old(self)@.types,
                FIRST_USER_TYPE as int,
                MAX_VALUE_DATA_TYPE as int,
            ) {
                Some(id) => match old(self)@.with_type(
                    (TypeSpec {
                        id,
                        name: name@,
                        description: description@,
                        element,
                        endpoints: endpoints@,
                        reliable,
                        priority,
                        e2e_encryption: E2eEncryptionPolicy::PreferOff,
                    }),
                ) {
                    Some(s) => r == Ok::<DataType, TelemetryError>(id) && final(self)@ == s,
                    None => r == Err::<DataType, TelemetryError>(TelemetryError::BadArg)
                        && final(self)@ == old(self)@,
                },
                None => r == Err::<DataType, TelemetryError>(TelemetryError::BadArg)
                    && final(self)@ == old(self)@,
            },
    {
        match self.free_type_id() {
            Some(id) => self.register_data_type_id(
                id,
                name,
                description,
                element,
                endpoints,
                reliable,
                priority,
            ),
            None => Err(TelemetryError::BadArg),
        }
    }

    /// Defines an endpoint that a handler asks for, under a name made from its number, unless it
    /// is defined already.
    pub fn ensure_endpoint(&mut self, id: DataEndpoint) -> (r: TelemetryResult<DataEndpoint>)
        requires
            old(self)@.wf(),
        ensures
            final(self)@.wf(),
            old(self)@.endpoint(id) is Some ==> r == Ok::<DataEndpoint, TelemetryError>(id)
                && final(self)@ == old(self)@,
            old(self)@.endpoint(id) is None ==> match old(self)@.with_endpoint(
                (EndpointSpec {
                    id,
                    name: "ENDPOINT_"@ + text::decimal(id as nat),
                    description: ""@,
                    link_local_only: false,
                }),
            ) {
                Some(s) => r == Ok::<DataEndpoint, TelemetryError>(id) && final(self)@ == s,
                None => r == Err::<DataEndpoint, TelemetryError>(TelemetryError::BadArg)
                    && final(self)@ == old(self)@,
            },
    {
        if self.endpoints.find(id).is_some() {
            return Ok(id);
        }
        let mut name: String = "ENDPOINT_".to_owned();
        text::push_decimal(&mut name, id as u64);
        self.register_endpoint_id(id, name.as_str(), "", false)
    }

    /// Removes a user endpoint and the types that go there; says whether it was there. The
    /// network's own endpoints stay.
    pub fn remove_endpoint(&mut self, id: DataEndpoint) -> (r: TelemetryResult<bool>)
        requires
            old(self)@.wf(),
        ensures
            final(self)@.wf(),
            id < FIRST_USER_ENDPOINT ==> r == Err::<bool, TelemetryError>(
                TelemetryError::PermissionDenied,
            ) && final(self)@ == old(self)@,
            id >= FIRST_USER_ENDPOINT ==> r == Ok::<bool, TelemetryError>(
                old(self)@.endpoint(id) is Some,
            ),
            id >= FIRST_USER_ENDPOINT && old(self)@.endpoint(id) is None ==> final(self)@ == old(self)@,
            id >= FIRST_USER_ENDPOINT && old(self)@.endpoint(id) is Some ==> final(self)@ == old(self)@.without_endpoint(id),
    {
        if id < FIRST_USER_ENDPOINT {
            return Err(TelemetryError::PermissionDenied);
        }
        if self.endpoints.find(id).is_none() {
            return Ok(false);
        }
        proof {
            lemma_remove_endpoint(self@, id);
        }
        let ghost before = self@;
        let ghost keep = |t: TypeSpec| !t.endpoints.contains(id);
        let mut kept: Table<DataTypeDefinition> = Table::new();
        let mut i: usize = 0;
        proof {
            reveal(Seq::filter);
            assert(self@.types.take(0) =~= Seq::<TypeSpec>::empty());
            assert(self@.types.take(0).filter(keep) =~= Seq::<TypeSpec>::empty());
        }
        while i < self.types.len()
            invariant
                i <= self.types@.len(),
                keep == (|t: TypeSpec| !t.endpoints.contains(id)),
                kept@ == self.types@.take(i as int).filter(keep),
                *self == *old(self),
            decreases self.types@.len() - i,
        {
            proof {
                assert(self.types@.take(i + 1) =~= self.types@.take(i as int).push(
                    self.types@[i as int],
                ));
                self.types@.take(i as int).lemma_filter_push(self.types@[i as int], keep);
            }
            if !codec::contains_u32(&self.types.at(i).endpoints, id) {
                kept.push(self.types.at(i).copied());
            }
            i = i + 1;
        }
        assert(self.types@.take(i as int) =~= self.types@);
        self.types = kept;
        self.endpoints.remove(id);
        proof {
            let f = |v: EndpointSpec| EndpointDefinition::key(v) != id;
            let g = |e: EndpointSpec| e.id != id;
            assert(f =~= g);
            assert(self@ == before.without_endpoint(id));
        }
        Ok(true)
    }

    /// Removes a user type; says whether it was there. The network's own types stay.
    pub fn remove_data_type(&mut self, id: DataType) -> (r: TelemetryResult<bool>)
        requires
            old(self)@.wf(),
        ensures
            final(self)@.wf(),
            id < FIRST_USER_TYPE ==> r == Err::<bool, TelemetryError>(
                TelemetryError::PermissionDenied,
            ) && final(self)@ == old(self)@,
            id >= FIRST_USER_TYPE ==> r == Ok::<bool, TelemetryError>(
                old(self)@.message(id) is Some,
            ) && final(self)@ == old(self)@.without_type(id),
    {
        if id < FIRST_USER_TYPE {
            return Err(TelemetryError::PermissionDenied);
        }
        proof {
            lemma_remove_type(self@, id);
            let f = |v: TypeSpec| DataTypeDefinition::key(v) != id;
            let g = |t: TypeSpec| t.id != id;
            assert(f =~= g);
        }
        let there: bool = self.types.find(id).is_some();
        self.types.remove(id);
        Ok(there)
    }

    /// Removes the endpoint with the name `name`, as `remove_endpoint` does.
    pub fn remove_endpoint_by_name(&mut self, name: &str) -> (r: TelemetryResult<bool>)
        requires
            old(self)@.wf(),
        ensures
            final(self)@.wf(),
            match old(self)@.endpoint_named(name@) {
                Some(e) => if e.id < FIRST_USER_ENDPOINT {
                    r == Err::<bool, TelemetryError>(TelemetryError::PermissionDenied) && final(self)@ == old(self)@
                } else {
                    r == Ok::<bool, TelemetryError>(true) && final(self)@ == old(self)@.without_endpoint(e.id)
                },
                None => r == Ok::<bool, TelemetryError>(false) && final(self)@ == old(self)@,
            },
    {
        match self.try_named_endpoint(name) {
            Some(id) => {
                proof {
                    lemma_named_is_there::<EndpointDefinition>(self@.endpoints, name@);
                }
                self.remove_endpoint(id)
            },
            None => Ok(false),
        }
    }

    /// Removes the message type with the name `name`, as `remove_data_type` does.
    pub fn remove_data_type_by_name(&mut self, name: &str) -> (r: TelemetryResult<bool>)
        requires
            old(self)@.wf(),
        ensures
            final(self)@.wf(),
            match old(self)@.message_named(name@) {
                Some(t) => if t.id < FIRST_USER_TYPE {
                    r == Err::<bool, TelemetryError>(TelemetryError::PermissionDenied) && final(self)@ == old(self)@
                } else {
                    r == Ok::<bool, TelemetryError>(true) && final(self)@ == old(self)@.without_type(t.id)
                },
                None => r == Ok::<bool, TelemetryError>(false) && final(self)@ == old(self)@,
            },
    {
        match self.try_named_type(name) {
            Some(id) => {
                proof {
                    lemma_named_is_there::<DataTypeDefinition>(self@.types, name@);
                }
                self.remove_data_type(id)
            },
            None => Ok(false),
        }
    }

    /// What the scheduler ranks messages of a type by.
    pub fn scheduler_priority(&self, id: DataType) -> (p: u8)
        ensures
            p == self@.scheduler_rank(id),
    {
        if id == 7 || (11 <= id && id <= 14) {
            254
        } else if (4 <= id && id <= 10) || id == 16 || id == 17 {
            255
        } else if 1 <= id && id <= 3 {
            253
        } else {
            match self.types.find(id) {
                Some(t) => if t.priority <= 250 {
                    t.priority
                } else {
                    250
                },
                None => 0,
            }
        }
    }

    /// The largest number that stands for an endpoint.
    pub fn current_max_endpoint_id(&self) -> (n: DataEndpoint)
        ensures
            n == table::max_key::<EndpointDefinition>(self@.endpoints),
    {
        self.endpoints.largest_key()
    }

    /// The largest number that stands for a message type.
    pub fn current_max_data_type_id(&self) -> (n: DataType)
        ensures
            n == table::max_key::<DataTypeDefinition>(self@.types),
    {
        self.types.largest_key()
    }

    /// Bytes that the definitions take when written, counted up to the largest `usize`.
    pub fn schema_bytes_used(&self) -> (n: usize)
        ensures
            n == table::capped(self@.cost()),
    {
        self.endpoints.cost().saturating_add(self.types.cost())
    }

    /// Merges a snapshot; says whether that added or replaced a definition.
    pub fn merge_schema_snapshot(&mut self, snapshot: &SchemaSnapshot) -> (changed: bool)
        requires
            old(self)@.wf(),
        ensures
            final(self)@.wf(),
            final(self)@ == old(self)@.merge(snapshot@),
            changed == old(self)@.merge_changes(snapshot@),
    {
        let ghost start = self@;
        let mut changed: bool = false;
        let mut i: usize = 0;
        assert(snapshot@.endpoints.take(0) =~= Seq::<EndpointSpec>::empty());
        while i < snapshot.endpoints.len()
            invariant
                i <= snapshot.endpoints@.len(),
                start == old(self)@,
                self@ == start.merge_endpoints(snapshot@.endpoints.take(i as int)),
                changed == start.endpoints_change(snapshot@.endpoints.take(i as int)),
            decreases snapshot.endpoints@.len() - i,
        {
            let ghost list = snapshot@.endpoints.take(i + 1);
            assert(list.drop_last() =~= snapshot@.endpoints.take(i as int));
            assert(list.last() == snapshot.endpoints@[i as int]@);
            if snapshot.endpoints[i].id >= FIRST_USER_ENDPOINT {
                let step: bool = self.endpoints.merge(&snapshot.endpoints[i]);
                changed = changed || step;
            }
            i = i + 1;
        }
        assert(snapshot@.endpoints.take(i as int) =~= snapshot@.endpoints);
        let ghost middle = self@;
        let ghost first = changed;
        let mut k: usize = 0;
        assert(snapshot@.types.take(0) =~= Seq::<TypeSpec>::empty());
        while k < snapshot.types.len()
            invariant
                k <= snapshot.types@.len(),
                self@ == middle.merge_types(snapshot@.types.take(k as int)),
                changed == (first || middle.types_change(snapshot@.types.take(k as int))),
            decreases snapshot.types@.len() - k,
        {
            let ghost list = snapshot@.types.take(k + 1);
            assert(list.drop_last() =~= snapshot@.types.take(k as int));
            assert(list.last() == snapshot.types@[k as int]@);
            if snapshot.types[k].id >= FIRST_USER_TYPE && snapshot.types[k].element.needed_size()
                <= packet::MAX_PAYLOAD {
                let step: bool = self.types.merge(&snapshot.types[k]);
                changed = changed || step;
            }
            k = k + 1;
        }
        assert(snapshot@.types.take(k as int) =~= snapshot@.types);
        proof {
            lemma_merge_endpoints_wf(start, snapshot@.endpoints);
            lemma_merge_types_wf(middle, snapshot@.types);
        }
        changed
    }

    /// Merges a snapshot if the schema then takes at most `budget` bytes.
    pub fn merge_schema_snapshot_with_budget(
        &mut self,
        snapshot: &SchemaSnapshot,
        budget: usize,
    ) -> (r: TelemetryResult<bool>)
        requires
            old(self)@.wf(),
        ensures
            final(self)@.wf(),
            table::capped(old(self)@.merge(snapshot@).cost()) <= budget ==> r == Ok::<
                bool,
                TelemetryError,
            >(old(self)@.merge_changes(snapshot@)) && final(self)@ == old(self)@.merge(snapshot@),
            table::capped(old(self)@.merge(snapshot@).cost()) > budget ==> (r matches Err(
                TelemetryError::PacketTooLarge(_),
            )) && final(self)@ == old(self)@,
    {
        let mut candidate: Schema = self.copied();
        let changed: bool = candidate.merge_schema_snapshot(snapshot);
        if candidate.schema_bytes_used() > budget {
            return Err(TelemetryError::PacketTooLarge("schema budget"));
        }
        *self = candidate;
        Ok(changed)
    }

    /// The definitions that are not the network's own.
    pub fn export_schema(&self) -> (r: SchemaSnapshot)
        ensures
            r@ == self@.exported(),
    {
        let mut endpoints: Vec<EndpointDefinition> = Vec::new();
        let mut types: Vec<DataTypeDefinition> = Vec::new();
        let ghost keep_e = |e: EndpointSpec| e.id >= FIRST_USER_ENDPOINT;
        let ghost keep_t = |t: TypeSpec| t.id >= FIRST_USER_TYPE;
        proof {
            reveal(Seq::filter);
            assert(self@.endpoints.take(0).filter(keep_e) =~= Seq::<EndpointSpec>::empty());
            assert(self@.types.take(0).filter(keep_t) =~= Seq::<TypeSpec>::empty());
        }
        let mut i: usize = 0;
        while i < self.endpoints.len()
            invariant
                i <= self.endpoints@.len(),
                keep_e == (|e: EndpointSpec| e.id >= FIRST_USER_ENDPOINT),
                endpoints@.map_values(|d: EndpointDefinition| d@) =~= self@.endpoints.take(
                    i as int,
                ).filter(keep_e),
            decreases self.endpoints@.len() - i,
        {
            let ghost done = self@.endpoints.take(i as int);
            proof {
                assert(self@.endpoints.take(i + 1) =~= done.push(self@.endpoints[i as int]));
                done.lemma_filter_push(self@.endpoints[i as int], keep_e);
            }
            if self.endpoints.at(i).id >= FIRST_USER_ENDPOINT {
                let ghost before = endpoints@;
                let d = self.endpoints.at(i).copied();
                let ghost dv = d@;
                endpoints.push(d);
                assert(endpoints@.map_values(|d: EndpointDefinition| d@) =~= before.map_values(
                    |d: EndpointDefinition| d@,
                ).push(dv));
            }
            i = i + 1;
        }
        assert(self@.endpoints.take(i as int) =~= self@.endpoints);
        let mut k: usize = 0;
        while k < self.types.len()
            invariant
                k <= self.types@.len(),
                keep_t == (|t: TypeSpec| t.id >= FIRST_USER_TYPE),
                types@.map_values(|d: DataTypeDefinition| d@) =~= self@.types.take(
                    k as int,
                ).filter(keep_t),
            decreases self.types@.len() - k,
        {
            let ghost done = self@.types.take(k as int);
            proof {
                assert(self@.types.take(k + 1) =~= done.push(self@.types[k as int]));
                done.lemma_filter_push(self@.types[k as int], keep_t);
            }
            if self.types.at(k).id >= FIRST_USER_TYPE {
                let ghost before = types@;
                let d = self.types.at(k).copied();
                let ghost dv = d@;
                types.push(d);
                assert(types@.map_values(|d: DataTypeDefinition| d@) =~= before.map_values(
                    |d: DataTypeDefinition| d@,
                ).push(dv));
            }
            k = k + 1;
        }
        assert(self@.types.take(k as int) =~= self@.types);
        SchemaSnapshot { endpoints, types }
    }
}

/// A definition found by name is found by its number too, unless a later one has that number.
proof fn lemma_named_is_there<D: Entry>(s: Seq<D::V>, name: Seq<char>)
    ensures
        table::lookup_name::<D>(s, name) matches Some(v) ==> table::lookup::<D>(s, D::key(v))
            is Some,
    decreases s.len(),
{
    if s.len() > 0 {
        lemma_named_is_there::<D>(s.drop_last(), name);
    }
}

/// Of two user types, messages of the one with the higher priority come first: a higher priority
/// never means a lower rank, and up to the highest that counts it means a higher one. A type that
/// is not known ranks last.
pub proof fn lemma_higher_priority_comes_first(s: SchemaSpec, a: DataType, b: DataType)
    requires
        a >= FIRST_USER_TYPE,
        b >= FIRST_USER_TYPE,
    ensures
        s.message(a) matches Some(x) ==> {
            &&& s.message(b) matches Some(y) ==> {
                &&& x.priority <= y.priority ==> s.scheduler_rank(a) <= s.scheduler_rank(b)
                &&& x.priority < y.priority <= 250 ==> s.scheduler_rank(a) < s.scheduler_rank(b)
            }
            &&& x.priority <= 250 ==> s.scheduler_rank(a) == x.priority
        },
        s.message(a) is None ==> s.scheduler_rank(a) <= s.scheduler_rank(b),
{
}

/// Messages of the network itself come before those of users: link control, before it the state
/// that boards share, and before that discovery.
pub proof fn lemma_network_comes_first(
    s: SchemaSpec,
    user: DataType,
    control: DataType,
    shared: DataType,
    found: DataType,
)
    requires
        user >= FIRST_USER_TYPE || user == TY_P2P_MESSAGE || user == TY_TELEMETRY_ERROR,
        control == TY_RELIABLE_ACK || control == TY_RELIABLE_PARTIAL_ACK || control
            == TY_RELIABLE_PACKET_REQUEST,
        shared == TY_DISCOVERY_SCHEMA || shared == TY_MANAGED_VARIABLE_VALUE || shared
            == TY_TIMESYNC_ANNOUNCE || shared == TY_TIMESYNC_REQUEST || shared
            == TY_TIMESYNC_RESPONSE,
        found == TY_DISCOVERY_ANNOUNCE || found == TY_DISCOVERY_TIMESYNC_SOURCES || found
            == TY_DISCOVERY_TOPOLOGY || found == TY_DISCOVERY_LEAVE || found
            == TY_DISCOVERY_ADDRESS || found == TY_DISCOVERY_LINK_CAPABILITIES || found
            == TY_DISCOVERY_TOPOLOGY_REQUEST || found
            == TY_DISCOVERY_SCHEMA_REQUEST,
    ensures
        s.scheduler_rank(user) < s.scheduler_rank(control),
        s.scheduler_rank(control) < s.scheduler_rank(shared),
        s.scheduler_rank(shared) < s.scheduler_rank(found),
        s.scheduler_rank(found) == u8::MAX,
{
}

} // verus!
