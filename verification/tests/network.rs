#![allow(dead_code, unused_variables, unused_mut, clippy::all)]
use sedsnet::address::{AddressChange, AddressChangeReason, Identity};
use sedsnet::common::PacketCounter;
use sedsnet::crc32::crc32_of;
use sedsnet::definition::{
    DataTypeDefinition as TypeEntry, EndpointDefinition as EndpointEntry,
};
use sedsnet::discovery::{
    ADDRESS_MODE_DYNAMIC, ADDRESS_MODE_STATIC, ADDRESS_STATE_APPROVED, DISCOVERY_FAST_INTERVAL_MS, DISCOVERY_ROUTE_TTL_MS, DISCOVERY_SLOW_LINK_PING_INTERVAL_MS, LINK_CAPABILITY_CHUNKING,
    LINK_CAPABILITY_END_TO_END_RELIABILITY, LINK_CAPABILITY_HEADER_TEMPLATES,
    LINK_CAPABILITY_OMIT_UNCHANGED_TIMESTAMPS, LINK_CAPABILITY_RELIABILITY,
    LINK_PROFILE_IPV4_LIKE, LINK_PROFILE_TEMPLATE, LinkCapabilities, TopologyBoardNode as Board,
};
use sedsnet::e2e::{Opening, RouterE2eEncryptionMode};
use sedsnet::encounter::Crossing;
use sedsnet::error::{TelemetryError, TelemetryErrorCode, TelemetryResult, MAX_CODE, MIN_CODE};
use sedsnet::exchange::Delivery;
use sedsnet::hash::{hash_bytes_u64, sender_address_u32};
use sedsnet::jobs::{Handler, Job, Target};
use sedsnet::ledger::{
    RELIABLE_MAX_END_TO_END_ACK_CACHE, RELIABLE_MAX_END_TO_END_PENDING,
    RELIABLE_MAX_RETURN_ROUTES,
};
use sedsnet::meeting::may_meet;
use sedsnet::meta::{
    E2eEncryptionPolicy, MessageClass, MessageDataType, MessageElement, ReliableMode,
    MAX_VALUE_DATA_ENDPOINT, MAX_VALUE_DATA_TYPE,
};
use sedsnet::p2p::P2pStreamEventKind;
use sedsnet::packet::{device_identifier, Packet as Message};
use sedsnet::pump::{Pump, PumpStep};
use sedsnet::registry::Registry;
use sedsnet::reliable::RELIABLE_RETRANSMIT_MS;
use sedsnet::router::{
    Router as Core, MAX_QUEUE_BUDGET, MAX_RECENT_RX_IDS, RECENT_RX_QUEUE_BYTES,
};
use sedsnet::routes::RouteSelectionMode;
use sedsnet::schema::{Schema, SchemaSnapshot};
use sedsnet::station::Station;
use sedsnet::topology::links_of;
use sedsnet::transport::{
    crc32_bytes, wrap_side_transport_frame, Link, LinkOptions, DEFAULT_SIDE_TRANSPORT_TEMPLATES,
    IPV4_LIKE_COMPACT_HEADER_TARGET_BYTES, IPV6_LIKE_COMPACT_HEADER_TARGET_BYTES,
    SIDE_TRANSPORT_KIND_FULL,
};
use sedsnet::timekeeper::{
    TimeSyncConfig, TimeSyncLeader, TimeSyncRole, TimeSyncTracker as Keeper,
};
use sedsnet::timesync::{compute_offset_delay, TimeSyncRequest, TimeSyncResponse};
use sedsnet::variables::Permissions;
use sedsnet::wire_format::{
    ReliableHeader, CRC32_BYTES, RELIABLE_FLAG_ACK_ONLY, RELIABLE_FLAG_UNSEQUENCED,
};
use std::sync::atomic::{AtomicBool, AtomicU64, AtomicUsize, Ordering};
use std::sync::{Arc, Mutex, Once, OnceLock};

const MAX_HANDLER_RETRIES: usize = sedsnet::jobs::MAX_HANDLER_RETRIES as usize;

/// The registry that all routers of the process share.
static REGISTRY: Mutex<Option<Registry>> = Mutex::new(None);

fn fleet_schema() -> Schema {
    let mut s = Schema::new();
    let card = s.register_endpoint_with_description("SD_CARD", "storage", false).unwrap();
    let radio = s.register_endpoint_with_description("RADIO", "radio link", false).unwrap();
    let both = [radio, card];
    s.register_data_type_with_description(
        "GPS_DATA",
        "position",
        MessageElement::Static(3, MessageDataType::Float32, MessageClass::Data),
        &both,
        ReliableMode::Ordered,
        80,
    )
    .unwrap();
    s.register_data_type_with_description(
        "IMU_DATA",
        "motion",
        MessageElement::Static(6, MessageDataType::Float32, MessageClass::Data),
        &both,
        ReliableMode::BestEffort,
        40,
    )
    .unwrap();
    s.register_data_type_with_description(
        "BATTERY_STATUS",
        "battery",
        MessageElement::Static(2, MessageDataType::Float32, MessageClass::Data),
        &both,
        ReliableMode::BestEffort,
        10,
    )
    .unwrap();
    s.register_data_type_with_description(
        "MESSAGE_DATA",
        "text",
        MessageElement::Dynamic(MessageDataType::String, MessageClass::Data),
        &both,
        ReliableMode::BestEffort,
        5,
    )
    .unwrap();
    s.register_data_type_with_description(
        "HEARTBEAT",
        "sign of life",
        MessageElement::Static(0, MessageDataType::NoData, MessageClass::Data),
        &both,
        ReliableMode::BestEffort,
        15,
    )
    .unwrap();
    s
}

fn with_registry<R>(f: impl FnOnce(&mut Registry) -> R) -> R {
    let mut slot = REGISTRY.lock().unwrap();
    if slot.is_none() {
        *slot = Some(Registry::new(fleet_schema()));
    }
    f(slot.as_mut().unwrap())
}

fn leak(s: &str) -> &'static str {
    Box::leak(s.to_owned().into_boxed_str())
}

#[derive(Clone, Copy, PartialEq, Eq, PartialOrd, Ord, Hash)]
struct DataType(u32);

#[derive(Clone, Copy, PartialEq, Eq, PartialOrd, Ord, Hash)]
struct DataEndpoint(u32);

#[allow(non_upper_case_globals)]
impl DataType {
    const TelemetryError: DataType = DataType(sedsnet::meta::TY_TELEMETRY_ERROR);
    const ReliableAck: DataType = DataType(sedsnet::meta::TY_RELIABLE_ACK);
    const ReliablePartialAck: DataType = DataType(sedsnet::meta::TY_RELIABLE_PARTIAL_ACK);
    const ReliablePacketRequest: DataType = DataType(sedsnet::meta::TY_RELIABLE_PACKET_REQUEST);
    const DiscoveryTimeSyncSources: DataType =
        DataType(sedsnet::meta::TY_DISCOVERY_TIMESYNC_SOURCES);
    const DiscoveryLeave: DataType = DataType(sedsnet::meta::TY_DISCOVERY_LEAVE);
    const TimeSyncRequest: DataType = DataType(sedsnet::meta::TY_TIMESYNC_REQUEST);
    const TimeSyncResponse: DataType = DataType(sedsnet::meta::TY_TIMESYNC_RESPONSE);
    const DiscoveryAnnounce: DataType = DataType(sedsnet::meta::TY_DISCOVERY_ANNOUNCE);
    const DiscoveryTopology: DataType = DataType(sedsnet::meta::TY_DISCOVERY_TOPOLOGY);
    const DiscoveryTopologyRequest: DataType =
        DataType(sedsnet::meta::TY_DISCOVERY_TOPOLOGY_REQUEST);
    const DiscoverySchema: DataType = DataType(sedsnet::meta::TY_DISCOVERY_SCHEMA);
    const DiscoveryAddress: DataType = DataType(sedsnet::meta::TY_DISCOVERY_ADDRESS);
    const DiscoveryLinkCapabilities: DataType =
        DataType(sedsnet::meta::TY_DISCOVERY_LINK_CAPABILITIES);
    const TimeSyncAnnounce: DataType = DataType(sedsnet::meta::TY_TIMESYNC_ANNOUNCE);
    const ManagedVariableValue: DataType = DataType(sedsnet::meta::TY_MANAGED_VARIABLE_VALUE);
    const P2pMessage: DataType = DataType(sedsnet::meta::TY_P2P_MESSAGE);

    fn try_named(name: &str) -> Option<DataType> {
        with_registry(|r| r.schema.try_named_type(name).map(DataType))
    }

    fn named(name: &str) -> DataType {
        DataType::try_named(name).expect("unknown data type")
    }

    fn try_from_u32(id: u32) -> Option<DataType> {
        with_registry(|r| r.schema.data_type_exists(id).then_some(DataType(id)))
    }

    fn as_u32(self) -> u32 {
        self.0
    }
}

impl std::fmt::Debug for DataType {
    fn fmt(&self, f: &mut std::fmt::Formatter<'_>) -> std::fmt::Result {
        f.write_str(get_message_name(*self))
    }
}

#[allow(non_upper_case_globals)]
impl DataEndpoint {
    const TelemetryError: DataEndpoint = DataEndpoint(sedsnet::meta::EP_TELEMETRY_ERROR);
    const Discovery: DataEndpoint = DataEndpoint(sedsnet::meta::EP_DISCOVERY);
    const TimeSync: DataEndpoint = DataEndpoint(sedsnet::meta::EP_TIMESYNC);

    fn try_named(name: &str) -> Option<DataEndpoint> {
        with_registry(|r| r.schema.try_named_endpoint(name).map(DataEndpoint))
    }

    fn named(name: &str) -> DataEndpoint {
        DataEndpoint::try_named(name).expect("unknown endpoint")
    }

    fn try_from_u32(id: u32) -> Option<DataEndpoint> {
        with_registry(|r| r.schema.endpoint_exists(id).then_some(DataEndpoint(id)))
    }

    fn as_str(self) -> &'static str {
        with_registry(|r| {
            r.schema.endpoint_definition(self.0).map(|d| leak(&d.name)).unwrap_or("UNKNOWN")
        })
    }

    fn as_u32(self) -> u32 {
        self.0
    }
}

impl std::fmt::Debug for DataEndpoint {
    fn fmt(&self, f: &mut std::fmt::Formatter<'_>) -> std::fmt::Result {
        f.write_str(self.as_str())
    }
}

fn ids(v: &[DataEndpoint]) -> Vec<u32> {
    v.iter().map(|e| e.0).collect()
}

fn endpoints_of(v: &[u32]) -> Vec<DataEndpoint> {
    v.iter().map(|e| DataEndpoint(*e)).collect()
}

/// A number that a payload can be made of.
trait Number: Copy {
    fn bytes(self) -> Vec<u8>;
}

impl Number for u8 {
    fn bytes(self) -> Vec<u8> {
        sedsnet::packet::encode_slice_le(&[self])
    }
}

impl Number for u16 {
    fn bytes(self) -> Vec<u8> {
        sedsnet::packet::encode_slice_le(&[self])
    }
}

impl Number for u32 {
    fn bytes(self) -> Vec<u8> {
        sedsnet::packet::encode_slice_le(&[self])
    }
}

impl Number for u64 {
    fn bytes(self) -> Vec<u8> {
        sedsnet::packet::encode_slice_le(&[self])
    }
}

impl Number for f32 {
    fn bytes(self) -> Vec<u8> {
        sedsnet::packet::encode_slice_le(&[self.to_bits()])
    }
}

impl Number for f64 {
    fn bytes(self) -> Vec<u8> {
        sedsnet::packet::encode_slice_le(&[self.to_bits()])
    }
}

fn encode_slice_le<T: Number>(vals: &[T]) -> Arc<[u8]> {
    let v: Vec<u8> = vals.iter().flat_map(|x| x.bytes()).collect();
    Arc::from(v)
}

struct Packet {
    inner: Message,
    endpoints: Vec<DataEndpoint>,
    text: OnceLock<Option<String>>,
}

impl Clone for Packet {
    fn clone(&self) -> Packet {
        Packet::wrap(self.inner.copied())
    }
}

impl PartialEq for Packet {
    fn eq(&self, other: &Packet) -> bool {
        self.packet_id() == other.packet_id() && self.payload() == other.payload()
    }
}

impl std::fmt::Debug for Packet {
    fn fmt(&self, f: &mut std::fmt::Formatter<'_>) -> std::fmt::Result {
        f.write_str(&self.header_string())
    }
}

impl Packet {
    fn wire_target_senders(&self) -> &[u64] {
        self.inner.wire_target_senders()
    }

    fn wrap(inner: Message) -> Packet {
        let endpoints = endpoints_of(inner.endpoints());
        Packet { inner, endpoints, text: OnceLock::new() }
    }

    fn new(
        ty: DataType,
        endpoints: &[DataEndpoint],
        sender: &str,
        timestamp: u64,
        payload: Arc<[u8]>,
    ) -> TelemetryResult<Packet> {
        let eps = ids(endpoints);
        with_registry(|r| Message::new(r, ty.0, &eps, sender, timestamp, payload.to_vec()))
            .map(Packet::wrap)
    }

    fn from_f32_slice(
        ty: DataType,
        vals: &[f32],
        endpoints: &[DataEndpoint],
        timestamp: u64,
    ) -> TelemetryResult<Packet> {
        let eps = ids(endpoints);
        let bits: Vec<u32> = vals.iter().map(|v| v.to_bits()).collect();
        with_registry(|r| Message::from_f32_bits(r, ty.0, &bits, &eps, timestamp)).map(Packet::wrap)
    }

    fn from_str_slice(
        ty: DataType,
        val: &str,
        endpoints: &[DataEndpoint],
        timestamp: u64,
    ) -> TelemetryResult<Packet> {
        let eps = ids(endpoints);
        with_registry(|r| Message::from_str_slice(r, ty.0, val, &eps, timestamp)).map(Packet::wrap)
    }

    fn from_bool_slice(
        ty: DataType,
        vals: &[bool],
        endpoints: &[DataEndpoint],
        timestamp: u64,
    ) -> TelemetryResult<Packet> {
        let eps = ids(endpoints);
        with_registry(|r| Message::from_bool_slice(r, ty.0, vals, &eps, timestamp)).map(Packet::wrap)
    }

    fn from_no_data(
        ty: DataType,
        endpoints: &[DataEndpoint],
        timestamp: u64,
    ) -> TelemetryResult<Packet> {
        let eps = ids(endpoints);
        with_registry(|r| Message::from_no_data(r, ty.0, &eps, timestamp)).map(Packet::wrap)
    }

    fn with_nonce(self, nonce: u16) -> Packet {
        Packet::wrap(self.inner.with_nonce(nonce))
    }

    fn data_type(&self) -> DataType {
        DataType(self.inner.data_type())
    }

    fn data_size(&self) -> usize {
        self.inner.data_size()
    }

    fn sender(&self) -> &str {
        self.inner.sender()
    }

    fn endpoints(&self) -> &[DataEndpoint] {
        &self.endpoints
    }

    fn timestamp(&self) -> u64 {
        self.inner.timestamp()
    }

    fn payload(&self) -> &[u8] {
        self.inner.payload()
    }

    fn nonce(&self) -> u16 {
        self.inner.nonce()
    }

    fn packet_id(&self) -> u64 {
        self.inner.packet_id()
    }

    fn validate(&self) -> TelemetryResult<()> {
        self.inner.validate()
    }

    fn header_string(&self) -> String {
        with_registry(|r| self.inner.header_string(&r.schema))
    }

    fn as_string(&self) -> String {
        if get_data_type(self.data_type()) == MessageDataType::Float32 {
            if let Ok(v) = self.data_as_f32() {
                let data: Vec<String> = v.iter().map(|x| x.to_string()).collect();
                return with_registry(|r| self.inner.text_with(&r.schema, &data.join(", ")));
            }
        }
        with_registry(|r| self.inner.as_string(&r.schema))
    }

    fn to_hex_string(&self) -> String {
        with_registry(|r| self.inner.to_hex_string(&r.schema))
    }

    fn data_as_f32(&self) -> TelemetryResult<Vec<f32>> {
        Ok(self.inner.data_as_f32_bits()?.into_iter().map(f32::from_bits).collect())
    }

    fn data_as_u16(&self) -> TelemetryResult<Vec<u16>> {
        self.inner.data_as_u16()
    }

    fn data_as_bool(&self) -> TelemetryResult<Vec<bool>> {
        self.inner.data_as_bool()
    }

    fn data_as_utf8_ref(&self) -> Option<&str> {
        self.text.get_or_init(|| self.inner.data_as_utf8()).as_deref()
    }
}

fn pack_packet(p: &Packet) -> Arc<[u8]> {
    Arc::from(with_registry(|r| sedsnet::wire_format::pack_packet(&r.schema, &p.inner)))
}

fn pack_packet_with_reliable(p: &Packet, h: ReliableHeader) -> Arc<[u8]> {
    Arc::from(with_registry(|r| {
        sedsnet::wire_format::pack_packet_with_reliable(&r.schema, &p.inner, h)
    }))
}

fn pack_packet_with_wire_contract(
    p: &Packet,
    h: Option<ReliableHeader>,
    shape: Option<MessageElement>,
    targets: &[u64],
) -> TelemetryResult<Arc<[u8]>> {
    with_registry(|r| {
        sedsnet::wire_format::pack_packet_with_wire_contract(
            &r.schema,
            &p.inner,
            h,
            shape,
            targets.to_vec(),
        )
    })
    .map(Arc::from)
}

fn pack_reliable_ack(sender: &str, ty: DataType, timestamp: u64, seq: u32) -> Arc<[u8]> {
    Arc::from(
        with_registry(|r| {
            sedsnet::wire_format::pack_reliable_ack(&r.schema, sender, ty.0, timestamp, seq)
        })
        .unwrap(),
    )
}

fn unpack_packet(wire: &[u8]) -> TelemetryResult<Packet> {
    let (frame, _) = unlock(wire.to_vec())?;
    with_registry(|r| sedsnet::wire_format::unpack_packet(r, &frame)).map(Packet::wrap)
}

#[derive(Debug)]
struct Envelope {
    ty: DataType,
    endpoints: Arc<[DataEndpoint]>,
    sender: Arc<str>,
    timestamp_ms: u64,
}

#[derive(Debug)]
struct FrameInfo {
    envelope: Envelope,
    reliable: Option<ReliableHeader>,
}

fn envelope_of(e: sedsnet::wire_format::Envelope) -> Envelope {
    Envelope {
        ty: DataType(e.ty),
        endpoints: Arc::from(endpoints_of(&e.endpoints)),
        sender: Arc::from(e.sender.as_str()),
        timestamp_ms: e.timestamp_ms,
    }
}

fn peek_envelope(wire: &[u8]) -> TelemetryResult<Envelope> {
    with_registry(|r| sedsnet::wire_format::peek_envelope(r, wire)).map(envelope_of)
}

fn peek_frame_info(wire: &[u8]) -> TelemetryResult<FrameInfo> {
    let i = with_registry(|r| sedsnet::wire_format::peek_frame_info(r, wire))?;
    Ok(FrameInfo { envelope: envelope_of(i.envelope), reliable: i.reliable })
}

fn packet_id_from_wire(wire: &[u8]) -> TelemetryResult<u64> {
    with_registry(|r| sedsnet::wire_format::packet_id_from_wire(r, wire))
}

fn rewrite_reliable_header_owned(
    wire: &[u8],
    flags: u8,
    seq: u32,
    ack: u32,
) -> TelemetryResult<Option<Vec<u8>>> {
    with_registry(|r| {
        sedsnet::wire_format::rewrite_reliable_header_owned(r, wire, flags, seq, ack)
    })
}

fn header_size_bytes(p: &Packet) -> usize {
    sedsnet::wire_format::header_size_bytes(&p.inner)
}

fn packet_wire_size(p: &Packet) -> usize {
    with_registry(|r| sedsnet::wire_format::packet_wire_size(&r.schema, &p.inner))
}

/// A running checksum.
struct Hasher(Vec<u8>);

impl Hasher {
    fn new() -> Hasher {
        Hasher(Vec::new())
    }

    fn update(&mut self, bytes: &[u8]) {
        self.0.extend_from_slice(bytes);
    }

    fn finalize(self) -> u32 {
        crc32_of(&self.0, self.0.len())
    }
}

#[derive(Clone, Copy, Debug, PartialEq)]
struct EndpointDefinition {
    id: DataEndpoint,
    name: &'static str,
    description: &'static str,
    link_local_only: bool,
}

#[derive(Clone, Copy, Debug, PartialEq)]
struct DataTypeDefinition {
    id: DataType,
    name: &'static str,
    description: &'static str,
    element: MessageElement,
    endpoints: &'static [DataEndpoint],
    reliable: ReliableMode,
    priority: u8,
    e2e_encryption: E2eEncryptionPolicy,
}

#[derive(Debug)]
struct RuntimeSchemaSnapshot {
    endpoints: Vec<EndpointDefinition>,
    types: Vec<DataTypeDefinition>,
}

#[derive(Debug)]
struct OwnedEndpointDefinition {
    id: DataEndpoint,
    name: String,
    description: String,
    link_local_only: bool,
}

#[derive(Debug)]
struct OwnedDataTypeDefinition {
    id: DataType,
    name: String,
    description: String,
    element: MessageElement,
    endpoints: Vec<DataEndpoint>,
    reliable: ReliableMode,
    priority: u8,
    e2e_encryption: E2eEncryptionPolicy,
}

#[derive(Debug)]
struct OwnedRuntimeSchemaSnapshot {
    endpoints: Vec<OwnedEndpointDefinition>,
    types: Vec<OwnedDataTypeDefinition>,
}

#[derive(Debug)]
struct MergeReport(bool);

impl MergeReport {
    fn changed(&self) -> bool {
        self.0
    }
}

fn endpoint_entry(d: &EndpointEntry) -> EndpointDefinition {
    EndpointDefinition {
        id: DataEndpoint(d.id),
        name: leak(&d.name),
        description: leak(&d.description),
        link_local_only: d.link_local_only,
    }
}

fn type_entry(d: &TypeEntry) -> DataTypeDefinition {
    DataTypeDefinition {
        id: DataType(d.id),
        name: leak(&d.name),
        description: leak(&d.description),
        element: d.element,
        endpoints: Box::leak(endpoints_of(&d.endpoints).into_boxed_slice()),
        reliable: d.reliable,
        priority: d.priority,
        e2e_encryption: d.e2e_encryption,
    }
}

fn plain_snapshot(s: &RuntimeSchemaSnapshot) -> SchemaSnapshot {
    SchemaSnapshot {
        endpoints: s
            .endpoints
            .iter()
            .map(|d| EndpointEntry {
                id: d.id.0,
                name: d.name.to_owned(),
                description: d.description.to_owned(),
                link_local_only: d.link_local_only,
            })
            .collect(),
        types: s
            .types
            .iter()
            .map(|d| TypeEntry {
                id: d.id.0,
                name: d.name.to_owned(),
                description: d.description.to_owned(),
                element: d.element,
                endpoints: ids(d.endpoints),
                reliable: d.reliable,
                priority: d.priority,
                e2e_encryption: d.e2e_encryption,
            })
            .collect(),
    }
}

fn owned_snapshot(s: &OwnedRuntimeSchemaSnapshot) -> SchemaSnapshot {
    SchemaSnapshot {
        endpoints: s
            .endpoints
            .iter()
            .map(|d| EndpointEntry {
                id: d.id.0,
                name: d.name.clone(),
                description: d.description.clone(),
                link_local_only: d.link_local_only,
            })
            .collect(),
        types: s
            .types
            .iter()
            .map(|d| TypeEntry {
                id: d.id.0,
                name: d.name.clone(),
                description: d.description.clone(),
                element: d.element,
                endpoints: ids(&d.endpoints),
                reliable: d.reliable,
                priority: d.priority,
                e2e_encryption: d.e2e_encryption,
            })
            .collect(),
    }
}

fn export_schema() -> RuntimeSchemaSnapshot {
    let s = with_registry(|r| r.schema.export_schema());
    RuntimeSchemaSnapshot {
        endpoints: s.endpoints.iter().map(endpoint_entry).collect(),
        types: s.types.iter().map(type_entry).collect(),
    }
}

fn merge_schema_snapshot(s: RuntimeSchemaSnapshot) -> MergeReport {
    let plain = plain_snapshot(&s);
    MergeReport(with_registry(|r| r.schema.merge_schema_snapshot(&plain)))
}

fn merge_owned_schema_snapshot(s: OwnedRuntimeSchemaSnapshot) -> MergeReport {
    let plain = owned_snapshot(&s);
    MergeReport(with_registry(|r| r.schema.merge_schema_snapshot(&plain)))
}

fn merge_owned_schema_snapshot_with_budget(
    s: OwnedRuntimeSchemaSnapshot,
    budget: usize,
) -> TelemetryResult<MergeReport> {
    let plain = owned_snapshot(&s);
    with_registry(|r| r.schema.merge_schema_snapshot_with_budget(&plain, budget)).map(MergeReport)
}

fn owned_schema_byte_cost(s: &OwnedRuntimeSchemaSnapshot) -> usize {
    owned_snapshot(s).byte_cost()
}

fn build_discovery_schema_from_snapshot(
    sender: &str,
    timestamp: u64,
    s: RuntimeSchemaSnapshot,
) -> TelemetryResult<Packet> {
    let plain = plain_snapshot(&s);
    with_registry(|r| {
        sedsnet::discovery::build_discovery_schema_from_snapshot(r, sender, timestamp, &plain)
    })
    .map(Packet::wrap)
}

fn decode_discovery_schema(p: &Packet) -> TelemetryResult<OwnedRuntimeSchemaSnapshot> {
    let s = sedsnet::discovery::decode_discovery_schema(&p.inner)?;
    Ok(OwnedRuntimeSchemaSnapshot {
        endpoints: s
            .endpoints
            .iter()
            .map(|d| OwnedEndpointDefinition {
                id: DataEndpoint(d.id),
                name: d.name.clone(),
                description: d.description.clone(),
                link_local_only: d.link_local_only,
            })
            .collect(),
        types: s
            .types
            .iter()
            .map(|d| OwnedDataTypeDefinition {
                id: DataType(d.id),
                name: d.name.clone(),
                description: d.description.clone(),
                element: d.element,
                endpoints: endpoints_of(&d.endpoints),
                reliable: d.reliable,
                priority: d.priority,
                e2e_encryption: d.e2e_encryption,
            })
            .collect(),
    })
}

fn schema_bytes_used() -> usize {
    with_registry(|r| r.schema.schema_bytes_used())
}

fn register_endpoint_with_description(
    name: &str,
    description: &str,
    link_local_only: bool,
) -> TelemetryResult<DataEndpoint> {
    with_registry(|r| {
        r.schema.register_endpoint_with_description(name, description, link_local_only)
    })
    .map(DataEndpoint)
}

fn register_endpoint_id_with_description(
    id: DataEndpoint,
    name: &str,
    description: &str,
    link_local_only: bool,
) -> TelemetryResult<DataEndpoint> {
    with_registry(|r| r.schema.register_endpoint_id(id.0, name, description, link_local_only))
        .map(DataEndpoint)
}

fn register_data_type_with_description(
    name: &str,
    description: &str,
    element: MessageElement,
    endpoints: &[DataEndpoint],
    reliable: ReliableMode,
    priority: u8,
) -> TelemetryResult<DataType> {
    let eps = ids(endpoints);
    with_registry(|r| {
        r.schema.register_data_type_with_description(
            name,
            description,
            element,
            &eps,
            reliable,
            priority,
        )
    })
    .map(DataType)
}

fn register_data_type_id_with_description(
    id: DataType,
    name: &str,
    description: &str,
    element: MessageElement,
    endpoints: &[DataEndpoint],
    reliable: ReliableMode,
    priority: u8,
) -> TelemetryResult<DataType> {
    let eps = ids(endpoints);
    with_registry(|r| {
        r.schema.register_data_type_id(id.0, name, description, element, &eps, reliable, priority)
    })
    .map(DataType)
}

fn register_data_type_id(
    id: DataType,
    name: &str,
    element: MessageElement,
    endpoints: &[DataEndpoint],
    reliable: ReliableMode,
    priority: u8,
) -> TelemetryResult<DataType> {
    register_data_type_id_with_description(id, name, "", element, endpoints, reliable, priority)
}

fn register_data_type_id_with_description_and_e2e_encryption(
    id: DataType,
    name: &str,
    description: &str,
    element: MessageElement,
    endpoints: &[DataEndpoint],
    reliable: ReliableMode,
    priority: u8,
    e2e_encryption: E2eEncryptionPolicy,
) -> TelemetryResult<DataType> {
    let d = TypeEntry {
        id: id.0,
        name: name.to_owned(),
        description: description.to_owned(),
        element,
        endpoints: ids(endpoints),
        reliable,
        priority,
        e2e_encryption,
    };
    with_registry(|r| r.schema.register_type(d)).map(DataType)
}

fn remove_endpoint(id: DataEndpoint) -> TelemetryResult<bool> {
    with_registry(|r| r.schema.remove_endpoint(id.0))
}

fn remove_endpoint_by_name(name: &str) -> TelemetryResult<bool> {
    with_registry(|r| r.schema.remove_endpoint_by_name(name))
}

fn remove_data_type(id: DataType) -> TelemetryResult<bool> {
    with_registry(|r| r.schema.remove_data_type(id.0))
}

fn remove_data_type_by_name(name: &str) -> TelemetryResult<bool> {
    with_registry(|r| r.schema.remove_data_type_by_name(name))
}

fn endpoint_exists(id: DataEndpoint) -> bool {
    with_registry(|r| r.schema.endpoint_exists(id.0))
}

fn data_type_exists(id: DataType) -> bool {
    with_registry(|r| r.schema.data_type_exists(id.0))
}

fn endpoint_definition_by_name(name: &str) -> Option<EndpointDefinition> {
    with_registry(|r| r.schema.endpoint_definition_by_name(name).map(endpoint_entry))
}

fn data_type_definition_by_name(name: &str) -> Option<DataTypeDefinition> {
    with_registry(|r| r.schema.data_type_definition_by_name(name).map(type_entry))
}

fn message_meta(ty: DataType) -> DataTypeDefinition {
    with_registry(|r| r.schema.message_meta(ty.0).map(type_entry)).expect("unknown data type")
}

fn get_message_meta(ty: DataType) -> DataTypeDefinition {
    message_meta(ty)
}

fn get_message_name(ty: DataType) -> &'static str {
    with_registry(|r| r.schema.message_meta(ty.0).map(|d| leak(&d.name))).unwrap_or("UNKNOWN")
}

fn get_data_type(ty: DataType) -> MessageDataType {
    message_meta(ty).element.data_type()
}

fn get_needed_message_size(ty: DataType) -> usize {
    message_meta(ty).element.needed_size() as usize
}

fn element_count(ty: DataType) -> usize {
    message_meta(ty).element.count() as usize
}

fn scheduler_priority(ty: DataType) -> u8 {
    with_registry(|r| r.schema.scheduler_priority(ty.0))
}

fn current_max_data_type_id() -> u32 {
    with_registry(|r| r.schema.current_max_data_type_id())
}

fn current_max_endpoint_id() -> u32 {
    with_registry(|r| r.schema.current_max_endpoint_id())
}

fn is_discovery_type(ty: DataType) -> bool {
    sedsnet::discovery::is_discovery_type(ty.0)
}

fn build_discovery_announce(
    sender: &str,
    timestamp: u64,
    endpoints: &[DataEndpoint],
) -> TelemetryResult<Packet> {
    let eps = ids(endpoints);
    with_registry(|r| sedsnet::discovery::build_discovery_announce(r, sender, timestamp, &eps))
        .map(Packet::wrap)
}

fn decode_discovery_announce(p: &Packet) -> TelemetryResult<Vec<DataEndpoint>> {
    Ok(endpoints_of(&sedsnet::discovery::decode_discovery_announce(&p.inner)?))
}

fn build_discovery_leave(sender: &str, timestamp: u64) -> TelemetryResult<Packet> {
    let p = with_registry(|r| sedsnet::discovery::build_discovery_leave(r, sender, timestamp))?;
    Ok(Packet::wrap(p))
}

fn build_discovery_timesync_sources(
    sender: &str,
    timestamp: u64,
    sources: &[&str],
) -> TelemetryResult<Packet> {
    let list: Vec<String> = sources.iter().map(|s| s.to_string()).collect();
    with_registry(|r| {
        sedsnet::discovery::build_discovery_timesync_sources(r, sender, timestamp, &list)
    })
    .map(Packet::wrap)
}

fn build_discovery_link_capabilities(
    sender: &str,
    timestamp: u64,
    c: LinkCapabilities,
) -> TelemetryResult<Packet> {
    with_registry(|r| {
        sedsnet::discovery::build_discovery_link_capabilities(r, sender, timestamp, c)
    })
    .map(Packet::wrap)
}

fn decode_discovery_link_capabilities(p: &Packet) -> TelemetryResult<LinkCapabilities> {
    sedsnet::discovery::decode_discovery_link_capabilities(&p.inner)
}

#[derive(Clone, Debug, PartialEq)]
struct AddressAdvertisement {
    hostname: String,
    address: u32,
    requested_address: u32,
    mode: u8,
    state: u8,
    birth_ms: u64,
    owner_hash: u64,
    reachable_endpoints: Vec<DataEndpoint>,
    reachable_network_variables: Vec<DataType>,
    reachable_timesync_sources: Vec<String>,
    link_capabilities: LinkCapabilities,
}

fn decode_discovery_address(p: &Packet) -> TelemetryResult<AddressAdvertisement> {
    let a = sedsnet::discovery::decode_discovery_address(&p.inner)?;
    Ok(AddressAdvertisement {
        hostname: a.hostname,
        address: a.address,
        requested_address: a.requested_address,
        mode: a.mode,
        state: a.state,
        birth_ms: a.birth_ms,
        owner_hash: a.owner_hash,
        reachable_endpoints: endpoints_of(&a.reachable_endpoints),
        reachable_network_variables: a
            .reachable_network_variables
            .into_iter()
            .map(DataType)
            .collect(),
        reachable_timesync_sources: a.reachable_timesync_sources,
        link_capabilities: a.link_capabilities,
    })
}

fn build_discovery_address(
    sender: &str,
    timestamp: u64,
    a: &AddressAdvertisement,
) -> TelemetryResult<Packet> {
    let a = sedsnet::discovery::AddressAdvertisement {
        hostname: a.hostname.clone(),
        address: a.address,
        requested_address: a.requested_address,
        mode: a.mode,
        state: a.state,
        birth_ms: a.birth_ms,
        owner_hash: a.owner_hash,
        reachable_endpoints: ids(&a.reachable_endpoints),
        reachable_network_variables: a.reachable_network_variables.iter().map(|x| x.0).collect(),
        reachable_timesync_sources: a.reachable_timesync_sources.clone(),
        link_capabilities: a.link_capabilities,
    };
    let p = with_registry(|r| {
        sedsnet::discovery::build_discovery_address(r, sender, timestamp, &a)
    })?;
    Ok(Packet::wrap(p))
}

#[derive(Clone, Debug, PartialEq)]
struct TopologyBoardNode {
    sender_id: String,
    reachable_endpoints: Vec<DataEndpoint>,
    reachable_timesync_sources: Vec<String>,
    connections: Vec<String>,
}

fn boards_of(v: &[TopologyBoardNode]) -> Vec<Board> {
    v.iter()
        .map(|b| Board {
            sender_id: b.sender_id.clone(),
            reachable_endpoints: ids(&b.reachable_endpoints),
            reachable_timesync_sources: b.reachable_timesync_sources.clone(),
            connections: b.connections.clone(),
        })
        .collect()
}

fn build_discovery_topology(
    sender: &str,
    timestamp: u64,
    boards: &[TopologyBoardNode],
) -> TelemetryResult<Packet> {
    let list = boards_of(boards);
    with_registry(|r| sedsnet::discovery::build_discovery_topology(r, sender, timestamp, &list))
        .map(Packet::wrap)
}

fn elect_discovery_master(local: &str, boards: &[TopologyBoardNode]) -> String {
    sedsnet::topology::elect_discovery_master(local, &boards_of(boards))
}

fn build_timesync_request(seq: u64, t1: u64) -> TelemetryResult<Packet> {
    with_registry(|r| sedsnet::timesync::build_timesync_request(r, seq, t1)).map(Packet::wrap)
}

fn decode_timesync_request(p: &Packet) -> TelemetryResult<TimeSyncRequest> {
    sedsnet::timesync::decode_timesync_request(&p.inner)
}

fn build_timesync_response(seq: u64, t1: u64, t2: u64, t3: u64) -> TelemetryResult<Packet> {
    with_registry(|r| sedsnet::timesync::build_timesync_response(r, seq, t1, t2, t3))
        .map(Packet::wrap)
}

fn decode_timesync_response(p: &Packet) -> TelemetryResult<TimeSyncResponse> {
    sedsnet::timesync::decode_timesync_response(&p.inner)
}

/// The time a board goes by.
struct TimeSyncTracker(Keeper);

impl TimeSyncTracker {
    fn new(cfg: TimeSyncConfig) -> TimeSyncTracker {
        TimeSyncTracker(Keeper::new(cfg))
    }

    fn handle_announce(&mut self, p: &Packet, now: u64) -> TelemetryResult<()> {
        self.0.handle_announce(&p.inner, now)
    }

    fn leader(&self, now: u64, local: bool) -> Option<TimeSyncLeader> {
        self.0.leader(now, local)
    }
}

fn build_timesync_announce_with_sender(
    sender: &str,
    priority: u64,
    time_ms: u64,
) -> TelemetryResult<Packet> {
    let p = with_registry(|r| {
        sedsnet::timesync::build_timesync_announce_with_sender(r, sender, priority, time_ms)
    })?;
    Ok(Packet::wrap(p))
}

trait Clock {
    fn now_ms(&self) -> u64;
}

impl<F: Fn() -> u64> Clock for F {
    fn now_ms(&self) -> u64 {
        self()
    }
}

struct UnixClock;

impl Clock for UnixClock {
    fn now_ms(&self) -> u64 {
        std::time::SystemTime::now()
            .duration_since(std::time::UNIX_EPOCH)
            .expect("time before the epoch")
            .as_millis() as u64
    }
}

struct StepClock {
    t: AtomicU64,
    step: u64,
}

impl StepClock {
    fn new_box(start: u64, step: u64) -> Box<dyn Clock + Send + Sync> {
        Box::new(StepClock::new(start, step))
    }

    fn new_default_box() -> Box<dyn Clock + Send + Sync> {
        Box::new(StepClock::new(0, 0))
    }

    fn new(start: u64, step: u64) -> Self {
        Self { t: AtomicU64::new(start), step }
    }
}

impl Clock for StepClock {
    fn now_ms(&self) -> u64 {
        self.t.fetch_add(self.step, Ordering::Relaxed)
    }
}

type PacketFn = Arc<dyn Fn(&Packet) -> TelemetryResult<()> + Send + Sync>;
type PackedFn = Arc<dyn Fn(&[u8]) -> TelemetryResult<()> + Send + Sync>;

#[derive(Clone)]
enum Callback {
    Packet(PacketFn),
    Packed(PackedFn),
}

struct EndpointHandler {
    endpoint: DataEndpoint,
    callback: Callback,
}

/// Endpoints of the network itself are not for programs.
fn check_endpoint(endpoint: DataEndpoint) {
    let h = Handler { endpoint: endpoint.0, packed: false };
    if let Err(TelemetryError::HandlerError(m)) = Core::new(false, "").add_handler(h) {
        panic!("{}", m);
    }
    with_registry(|r| r.schema.ensure_endpoint(endpoint.0)).unwrap();
}

impl EndpointHandler {
    fn new_packet_handler<F>(endpoint: DataEndpoint, f: F) -> EndpointHandler
    where
        F: Fn(&Packet) -> TelemetryResult<()> + Send + Sync + 'static,
    {
        check_endpoint(endpoint);
        EndpointHandler { endpoint, callback: Callback::Packet(Arc::new(f)) }
    }

    fn new_packet_handler_for<F>(endpoint: EndpointDefinition, f: F) -> EndpointHandler
    where
        F: Fn(&Packet) -> TelemetryResult<()> + Send + Sync + 'static,
    {
        EndpointHandler::new_packet_handler(endpoint.id, f)
    }

    fn new_packed_handler<F>(endpoint: DataEndpoint, f: F) -> EndpointHandler
    where
        F: Fn(&[u8]) -> TelemetryResult<()> + Send + Sync + 'static,
    {
        check_endpoint(endpoint);
        EndpointHandler { endpoint, callback: Callback::Packed(Arc::new(f)) }
    }
}

type LockFn = fn(u32, &[u8], &[u8]) -> (Vec<u8>, [u8; 4]);
type UnlockFn = fn(u32, &[u8], &[u8], &[u8]) -> Option<Vec<u8>>;

/// Who locks and unlocks for all routers of the process.
static PROVIDER: Mutex<Option<(LockFn, UnlockFn)>> = Mutex::new(None);

fn provider() -> Option<(LockFn, UnlockFn)> {
    *PROVIDER.lock().unwrap()
}

fn sum_of(key_id: u32, aad: &[u8], cipher: &[u8]) -> [u8; 4] {
    let mut tag = [0u8; 4];
    for (idx, byte) in aad.iter().copied().enumerate() {
        tag[idx % 4] ^= byte;
    }
    for (idx, byte) in cipher.iter().copied().enumerate() {
        tag[idx % 4] ^= byte;
    }
    tag[0] ^= key_id as u8;
    tag
}

fn test_crypto_seal(key_id: u32, aad: &[u8], plain: &[u8]) -> (Vec<u8>, [u8; 4]) {
    let out: Vec<u8> = plain.iter().map(|byte| byte ^ key_id as u8 ^ 0xA5).collect();
    let tag = sum_of(key_id, aad, &out);
    (out, tag)
}

fn test_crypto_open(key_id: u32, aad: &[u8], cipher: &[u8], tag: &[u8]) -> Option<Vec<u8>> {
    if tag.len() != 4 || tag != sum_of(key_id, aad, cipher) {
        return None;
    }
    Some(cipher.iter().map(|byte| byte ^ key_id as u8 ^ 0xA5).collect())
}

fn register_test_encryption() {
    *PROVIDER.lock().unwrap() = Some((test_crypto_seal, test_crypto_open));
}

fn clear_c_cryptography_provider() {
    *PROVIDER.lock().unwrap() = None;
}

fn refresh_crc32(bytes: &mut [u8]) {
    let data_len = bytes.len() - 4;
    let crc = crc32_of(bytes, data_len);
    bytes[data_len..].copy_from_slice(&crc.to_le_bytes());
}

/// A frame without its lock, and whether it had one.
fn unlock(frame: Vec<u8>) -> TelemetryResult<(Vec<u8>, bool)> {
    match Opening::of_frame(&frame) {
        None => Ok((frame, false)),
        Some(o) => {
            let open = provider().ok_or(TelemetryError::BadArg)?.1;
            let text = open(o.key, &o.shown, &o.cipher, &o.tag)
                .ok_or(TelemetryError::Unpack("payload cannot be unlocked"))?;
            Ok((o.open(&text), true))
        }
    }
}

struct RouterConfig {
    handlers: Vec<EndpointHandler>,
    sender: String,
    reliable: bool,
    e2e_mode: RouterE2eEncryptionMode,
    e2e_key: u32,
    mode: u8,
    requested: u32,
    on_change: Option<ChangeFn>,
    timesync: Option<TimeSyncConfig>,
}

type ChangeFn = Arc<dyn Fn(AddressChange) -> TelemetryResult<()> + Send + Sync>;

impl Default for RouterConfig {
    fn default() -> RouterConfig {
        RouterConfig::new([])
    }
}

impl RouterConfig {
    fn new(handlers: impl IntoIterator<Item = EndpointHandler>) -> RouterConfig {
        RouterConfig {
            handlers: handlers.into_iter().collect(),
            sender: device_identifier().to_owned(),
            reliable: true,
            e2e_mode: RouterE2eEncryptionMode::Preferred,
            e2e_key: 0,
            mode: ADDRESS_MODE_DYNAMIC,
            requested: 0,
            on_change: None,
            timesync: None,
        }
    }

    fn with_timesync(self, cfg: TimeSyncConfig) -> RouterConfig {
        RouterConfig { timesync: Some(cfg), ..self }
    }

    fn with_hostname(self, name: &str) -> RouterConfig {
        self.with_sender(name)
    }

    fn with_dynamic_address(self) -> RouterConfig {
        RouterConfig { mode: ADDRESS_MODE_DYNAMIC, requested: 0, ..self }
    }

    fn with_requested_address(self, address: u32) -> RouterConfig {
        RouterConfig { mode: ADDRESS_MODE_DYNAMIC, requested: address, ..self }
    }

    fn with_static_address(self, address: u32) -> RouterConfig {
        RouterConfig { mode: ADDRESS_MODE_STATIC, requested: address, ..self }
    }

    fn on_address_change<F>(self, f: F) -> RouterConfig
    where
        F: Fn(AddressChange) -> TelemetryResult<()> + Send + Sync + 'static,
    {
        RouterConfig { on_change: Some(Arc::new(f)), ..self }
    }

    fn with_sender(mut self, name: &str) -> RouterConfig {
        self.sender = name.to_owned();
        self
    }

    fn with_reliable_enabled(mut self, on: bool) -> RouterConfig {
        self.reliable = on;
        self
    }

    fn with_e2e_encryption(mut self, mode: RouterE2eEncryptionMode) -> RouterConfig {
        self.e2e_mode = mode;
        self
    }

    fn with_e2e_key_id(mut self, key: u32) -> RouterConfig {
        self.e2e_key = key;
        self
    }
}

#[derive(Clone, Copy)]
struct RouterSideOptions {
    reliable_enabled: bool,
    link_local_enabled: bool,
    header_template_enabled: bool,
    max_frame_bytes: usize,
    compact_header_target_bytes: usize,
    max_side_transport_templates: usize,
    omit_unchanged_timestamps: bool,
}

impl Default for RouterSideOptions {
    fn default() -> RouterSideOptions {
        RouterSideOptions {
            reliable_enabled: false,
            link_local_enabled: false,
            header_template_enabled: false,
            max_frame_bytes: 0,
            compact_header_target_bytes: 0,
            max_side_transport_templates: DEFAULT_SIDE_TRANSPORT_TEMPLATES,
            omit_unchanged_timestamps: false,
        }
    }
}

impl RouterSideOptions {
    fn with_ipv4_like_compact_header_target(self) -> RouterSideOptions {
        RouterSideOptions {
            header_template_enabled: true,
            compact_header_target_bytes: IPV4_LIKE_COMPACT_HEADER_TARGET_BYTES,
            omit_unchanged_timestamps: true,
            ..self
        }
    }

    fn with_small_packet_transport(self, max_frame_bytes: usize) -> RouterSideOptions {
        RouterSideOptions {
            header_template_enabled: true,
            compact_header_target_bytes: IPV6_LIKE_COMPACT_HEADER_TARGET_BYTES,
            max_frame_bytes,
            ..self
        }
    }

    fn with_omitted_unchanged_compact_timestamps_for_type(self, _ty: DataType) -> RouterSideOptions {
        RouterSideOptions { omit_unchanged_timestamps: true, ..self }
    }

    fn link(&self, reliable: bool) -> LinkOptions {
        LinkOptions {
            reliable,
            templates: self.header_template_enabled,
            omit_timestamps: self.omit_unchanged_timestamps,
            max_frame: self.max_frame_bytes,
            target: self.compact_header_target_bytes,
            max_templates: self.max_side_transport_templates,
        }
    }
}

type RelaySideOptions = RouterSideOptions;

#[derive(Clone, Debug)]
struct RuntimeTypeStats {
    data_type: DataType,
    rx_packets: u64,
    relayed_rx_packets: u64,
    relayed_tx_packets: u64,
    tx_packets: u64,
    tx_retries: u64,
    handler_failures: u64,
}

#[derive(Clone, Debug)]
struct AdaptiveStats {
    auto_balancing_enabled: bool,
    estimated_capacity_bps: u64,
    peak_capacity_bps: u64,
    current_usage_bps: u64,
    peak_usage_bps: u64,
    available_headroom_bps: u64,
    effective_weight: u64,
    sample_count: u64,
    last_observed_ms: u64,
}

struct QueueStats {
    rx_len: usize,
    rx_bytes: usize,
    tx_len: usize,
    tx_bytes: usize,
}

struct DiscoveryStats {
    route_count: usize,
    announcer_count: usize,
}

struct ReliableStats {
    reliable_return_route_count: usize,
    end_to_end_pending_count: usize,
}

struct RouteModeStats {
    src_side_id: Option<usize>,
    selection_mode: Option<RouteSelectionMode>,
}

struct RouteStats {
    src_side_id: Option<usize>,
    dst_side_id: usize,
    enabled: bool,
}

struct TypedRouteStats {
    src_side_id: Option<usize>,
    data_type: DataType,
    dst_side_id: usize,
    enabled: bool,
}

struct RouteWeightStats {
    src_side_id: Option<usize>,
    dst_side_id: usize,
    weight: u32,
}

struct RoutePriorityStats {
    src_side_id: Option<usize>,
    dst_side_id: usize,
    priority: u32,
}

struct ClientStats {
    connected: bool,
    side_names: Vec<String>,
    reachable_endpoints: Vec<DataEndpoint>,
}

#[derive(Clone, Debug)]
struct RuntimeSideStats {
    side_id: usize,
    reliable_enabled: bool,
    link_local_enabled: bool,
    ingress_enabled: bool,
    egress_enabled: bool,
    tx_retries: u64,
    total_handler_retries: u64,
    tx_handler_failures: u64,
    local_handler_failures: u64,
    local_delivery_packets: u64,
    relayed_rx_packets: u64,
    rx_bytes: u64,
    adaptive: AdaptiveStats,
    side_name: String,
    header_template_enabled: bool,
    max_side_transport_templates: usize,
    compact_header_target_bytes: usize,
    side_transport_profile: &'static str,
    side_transport_full_frames: u64,
    side_transport_compact_frames: u64,
    side_transport_compact_delta_frames: u64,
    side_transport_compact_omitted_timestamp_frames: u64,
    side_transport_bytes_saved: u64,
    side_transport_min_compact_overhead_bytes: Option<usize>,
    side_transport_compact_target_misses: u64,
    side_transport_template_evictions: u64,
    side_transport_tx_template_count: usize,
    side_transport_rx_template_count: usize,
    rx_packets: u64,
    tx_packets: u64,
    data_types: Vec<RuntimeTypeStats>,
}

struct RuntimeStatsSnapshot {
    sides: Vec<RuntimeSideStats>,
    queues: QueueStats,
    discovery: DiscoveryStats,
    reliable: ReliableStats,
    route_modes: Vec<RouteModeStats>,
    route_overrides: Vec<RouteStats>,
    typed_route_overrides: Vec<TypedRouteStats>,
    route_weights: Vec<RouteWeightStats>,
    route_priorities: Vec<RoutePriorityStats>,
    total_handler_failures: u64,
    total_handler_retries: u64,
}

/// What a router keeps of one of its links.
#[derive(Debug)]
struct RouteSnapshot {
    side_name: String,
    reachable_endpoints: Vec<DataEndpoint>,
    reachable_timesync_sources: Vec<String>,
    announcers: Vec<AnnouncerSnapshot>,
}

#[derive(Debug)]
struct AnnouncerSnapshot {
    sender_id: String,
    routers: Vec<TopologyBoardNode>,
}

#[derive(Debug)]
struct TopologySnapshot {
    advertised_endpoints: Vec<DataEndpoint>,
    advertised_timesync_sources: Vec<String>,
    routes: Vec<RouteSnapshot>,
    routers: Vec<TopologyBoardNode>,
    links: Vec<TopologyLink>,
    current_announce_interval_ms: u64,
    next_announce_ms: u64,
}

#[derive(Clone, Copy)]
struct NetworkVariablePermissions(Permissions);

impl NetworkVariablePermissions {
    const READ_ONLY: Self = NetworkVariablePermissions(Permissions { read: true, write: false });
    const WRITE_ONLY: Self = NetworkVariablePermissions(Permissions { read: false, write: true });
    const READ_WRITE: Self = NetworkVariablePermissions(Permissions { read: true, write: true });
}

struct P2pDatagram {
    source_hostname: String,
    source_port: u16,
    destination_port: u16,
    payload: Vec<u8>,
}

struct P2pStreamEvent<'a> {
    kind: P2pStreamEventKind,
    stream_id: u32,
    peer_stream_id: u32,
    sequence: u32,
    payload: &'a [u8],
}

type DatagramFn = Arc<dyn Fn(&P2pDatagram) -> TelemetryResult<()> + Send + Sync>;
type StreamFn = Arc<dyn Fn(P2pStreamEvent<'_>) -> TelemetryResult<()> + Send + Sync>;

/// Tells routers of the process apart.
static OWNERS: AtomicU64 = AtomicU64::new(1);

/// A board with those who do its jobs.
struct Node {
    watchers: Mutex<Vec<(u32, PacketFn)>>,
    ports: Mutex<Vec<(u16, DatagramFn)>>,
    stream_handlers: Mutex<Vec<(u16, StreamFn)>>,
    on_change: Option<ChangeFn>,
    state: Mutex<Station>,
    handlers: Vec<Callback>,
    sides: Mutex<Vec<Option<Callback>>>,
    spare: Mutex<Link>,
    clock: Box<dyn Clock + Send + Sync>,
    busy: AtomicBool,
    crossings: Mutex<Vec<(u64, Crossing)>>,
    relay: bool,
}

#[derive(Debug)]
struct TopologyLink {
    source: String,
    target: String,
}

fn nodes_of(v: Vec<Board>) -> Vec<TopologyBoardNode> {
    v.into_iter()
        .map(|b| TopologyBoardNode {
            sender_id: b.sender_id,
            reachable_endpoints: endpoints_of(&b.reachable_endpoints),
            reachable_timesync_sources: b.reachable_timesync_sources,
            connections: b.connections,
        })
        .collect()
}

impl Node {
    fn new(relay: bool, cfg: RouterConfig, clock: Box<dyn Clock + Send + Sync>) -> Node {
        let mut core = Core::new(relay, &cfg.sender);
        core.e2e_mode = cfg.e2e_mode;
        core.e2e_key = cfg.e2e_key;
        core.can_lock = provider().is_some();
        core.identity = Identity {
            address: if cfg.requested != 0 { cfg.requested } else { core.identity.address },
            requested: cfg.requested,
            mode: cfg.mode,
            birth: clock.now_ms(),
            owner: OWNERS.fetch_add(1, Ordering::SeqCst),
        };
        with_registry(|r| r.note_sender(&cfg.sender));
        let mut handlers = Vec::new();
        for h in cfg.handlers {
            let packed = matches!(h.callback, Callback::Packed(_));
            core.add_handler(Handler { endpoint: h.endpoint.0, packed }).unwrap();
            handlers.push(h.callback);
        }
        Node {
            watchers: Mutex::new(Vec::new()),
            ports: Mutex::new(Vec::new()),
            stream_handlers: Mutex::new(Vec::new()),
            on_change: cfg.on_change,
            state: Mutex::new(Station::new(core, cfg.timesync, cfg.reliable)),
            handlers,
            sides: Mutex::new(Vec::new()),
            spare: Mutex::new(Link::new(LinkOptions::plain())),
            clock,
            busy: AtomicBool::new(false),
            crossings: Mutex::new(Vec::new()),
            relay,
        }
    }

    fn now(&self) -> u64 {
        self.clock.now_ms()
    }

    fn with_state<R>(&self, f: impl FnOnce(&mut Station, &mut Registry) -> R) -> R {
        let mut state = self.state.lock().unwrap();
        with_registry(|r| f(&mut state, r))
    }

    fn with_core<R>(&self, f: impl FnOnce(&mut Core, &mut Registry) -> R) -> R {
        self.with_state(|s, r| f(&mut s.core, r))
    }

    fn call(&self, c: &Callback, packet: Option<&Packet>, frame: Option<&[u8]>) -> TelemetryResult<()> {
        match (c, packet, frame) {
            (Callback::Packet(f), Some(p), _) => f(p),
            (Callback::Packed(f), _, Some(b)) => f(b),
            _ => Ok(()),
        }
    }

    fn run_jobs(&self) {
        if self.busy.swap(true, Ordering::SeqCst) {
            return;
        }
        loop {
            let now = self.now();
            let job = match self.with_core(|c, r| c.next_job(&r.schema, now)) {
                Some(j) => j,
                None => break,
            };
            let callback = match job.target {
                Target::Handler(h) => Some(self.handlers[h].clone()),
                Target::Side(s) => self.sides.lock().unwrap().get(s).cloned().flatten(),
            };
            let packet = job.packet.as_ref().map(|p| Packet::wrap(p.copied()));
            let result = match (&callback, job.target, &job.frame) {
                (Some(Callback::Packed(f)), Target::Side(s), Some(b)) => self.send(f, s, b, now),
                (Some(c), _, _) => self.call(c, packet.as_ref(), job.frame.as_deref()),
                (None, _, _) => Ok(()),
            };
            let later = self.now();
            self.with_state(|x, r| x.note_job(r, &job, result.is_ok(), now, later));
            if result.is_ok() {
                let _ = self.with_state(|x, r| x.confirm_job(r, &job, later));
            }
            self.with_core(|c, r| c.finish_job(r, job, result, later));
        }
        self.busy.store(false, Ordering::SeqCst);
    }

    /// A link was measured from outside.
    fn note_side_link_probe_sample(
        &self,
        side: usize,
        bytes: usize,
        ms: u64,
    ) -> TelemetryResult<()> {
        let now = self.now();
        self.state.lock().unwrap().probe(side, bytes, ms, now)
    }

    /// Sends a frame over a link in the form that the link takes.
    fn send(&self, f: &PackedFn, side: usize, frame: &[u8], now: u64) -> TelemetryResult<()> {
        for piece in self.encode(side, &self.lock(frame), now)? {
            f(&piece)?;
        }
        Ok(())
    }

    /// A frame as it goes out: locked, where it is to be.
    fn lock(&self, frame: &[u8]) -> Vec<u8> {
        let c = self.with_core(|c, r| c.closing(&r.schema, frame, vec![0; 12]));
        match (c, provider()) {
            (Some(c), Some((lock, _))) => {
                let (cipher, tag) = lock(c.key, &c.shown, &c.text);
                c.close(&tag, &cipher)
            }
            _ => frame.to_vec(),
        }
    }

    fn encode(&self, side: usize, frame: &[u8], now: u64) -> TelemetryResult<Vec<Vec<u8>>> {
        self.state.lock().unwrap().encode(side, frame.to_vec(), now)
    }

    fn export_runtime_stats(&self) -> RuntimeStatsSnapshot {
        let now = self.now();
        let types: Vec<u32> = with_registry(|r| {
            (0..=r.schema.current_max_data_type_id())
                .filter(|t| r.schema.message_meta(*t).is_some())
                .collect()
        });
        let state = self.state.lock().unwrap();
        let rows = state.route_rows();
        let mut sources = vec![None];
        sources.extend((0..state.core.sides.len()).map(Some));
        let route_modes = sources
            .into_iter()
            .map(|src_side_id| RouteModeStats {
                src_side_id,
                selection_mode: state.mode_rule(src_side_id),
            })
            .filter(|m| m.selection_mode.is_some())
            .collect();
        let route_overrides = rows
            .iter()
            .filter_map(|r| {
                r.enabled.map(|enabled| RouteStats {
                    src_side_id: r.source,
                    dst_side_id: r.side,
                    enabled,
                })
            })
            .collect();
        let route_weights = rows
            .iter()
            .filter_map(|r| {
                r.weight.map(|weight| RouteWeightStats {
                    src_side_id: r.source,
                    dst_side_id: r.side,
                    weight,
                })
            })
            .collect();
        let route_priorities = rows
            .iter()
            .filter_map(|r| {
                r.priority.map(|priority| RoutePriorityStats {
                    src_side_id: r.source,
                    dst_side_id: r.side,
                    priority,
                })
            })
            .collect();
        let mut typed_route_overrides = Vec::new();
        for r in rows.iter() {
            for ty in types.iter() {
                if let Some(enabled) = state.typed_rule(r.source, *ty, r.side) {
                    typed_route_overrides.push(TypedRouteStats {
                        src_side_id: r.source,
                        data_type: DataType(*ty),
                        dst_side_id: r.side,
                        enabled,
                    });
                }
            }
        }
        let sides = (0..state.core.sides.len())
            .map(|side_id| {
                let s = state.side_report(side_id);
                RuntimeSideStats {
                    side_id,
                    reliable_enabled: s.reliable,
                    link_local_enabled: s.link_local,
                    ingress_enabled: s.ingress,
                    egress_enabled: s.egress,
                    tx_retries: s.totals.tx_retries,
                    total_handler_retries: s.retries,
                    tx_handler_failures: s.totals.tx_failures,
                    local_handler_failures: s.totals.local_failures,
                    local_delivery_packets: s.totals.local_deliveries,
                    relayed_rx_packets: s.totals.relayed_rx_packets,
                    rx_bytes: s.totals.rx_bytes,
                    adaptive: AdaptiveStats {
                        auto_balancing_enabled: s.balanced,
                        estimated_capacity_bps: s.rate.capacity,
                        peak_capacity_bps: s.rate.peak_capacity,
                        current_usage_bps: s.rate.usage,
                        peak_usage_bps: s.rate.peak_usage,
                        available_headroom_bps: s.rate.available(),
                        effective_weight: s.effective_weight,
                        sample_count: s.rate.samples,
                        last_observed_ms: s.rate.last,
                    },
                    side_name: state.core.sides[side_id].name.clone(),
                    header_template_enabled: s.options.templates,
                    max_side_transport_templates: s.options.max_templates,
                    compact_header_target_bytes: s.options.target,
                    side_transport_profile: s.options.profile_name(),
                    side_transport_full_frames: s.counters.full,
                    side_transport_compact_frames: s.counters.compact,
                    side_transport_compact_delta_frames: s.counters.delta,
                    side_transport_compact_omitted_timestamp_frames: s.counters.omitted,
                    side_transport_bytes_saved: s.counters.saved,
                    side_transport_min_compact_overhead_bytes: s.counters.least,
                    side_transport_compact_target_misses: s.counters.misses,
                    side_transport_template_evictions: s.counters.evictions,
                    side_transport_tx_template_count: s.tx_templates,
                    side_transport_rx_template_count: s.rx_templates,
                    rx_packets: s.totals.rx_packets,
                    tx_packets: s.totals.tx_packets,
                    data_types: state.wires[side_id]
                        .stats
                        .types
                        .iter()
                        .map(|t| RuntimeTypeStats {
                            data_type: DataType(t.data_type),
                            rx_packets: t.rx_packets,
                            relayed_rx_packets: t.relayed_rx_packets,
                            relayed_tx_packets: t.relayed_tx_packets,
                            tx_packets: t.tx_packets,
                            tx_retries: t.tx_retries,
                            handler_failures: t.handler_failures,
                        })
                        .collect(),
                }
            })
            .collect();
        let all = state.board_report(now);
        RuntimeStatsSnapshot {
            sides,
            queues: QueueStats {
                rx_len: all.rx_len,
                rx_bytes: all.rx_bytes,
                tx_len: all.tx_len,
                tx_bytes: all.tx_bytes,
            },
            discovery: DiscoveryStats {
                route_count: all.route_count,
                announcer_count: all.announcer_count,
            },
            reliable: ReliableStats {
                reliable_return_route_count: all.return_routes,
                end_to_end_pending_count: all.pending,
            },
            route_modes,
            route_overrides,
            typed_route_overrides,
            route_weights,
            route_priorities,
            total_handler_failures: all.failures.failures,
            total_handler_retries: all.failures.tries,
        }
    }

    fn settle(&self) -> TelemetryResult<()> {
        if self.busy.load(Ordering::SeqCst) {
            return Ok(());
        }
        self.run_jobs();
        self.state.lock().unwrap().core.take_failure()
    }

    fn settle_quietly(&self) -> TelemetryResult<()> {
        if self.busy.load(Ordering::SeqCst) {
            return Ok(());
        }
        self.run_jobs();
        let _ = self.state.lock().unwrap().core.take_failure();
        Ok(())
    }

    fn add_side(&self, name: &str, c: Callback, o: RouterSideOptions) -> usize {
        let packed = matches!(c, Callback::Packed(_));
        let link = o.link(o.reliable_enabled && self.state.lock().unwrap().reliable);
        let id = self
            .state
            .lock()
            .unwrap()
            .add_side(name, packed, link, o.link_local_enabled)
            .unwrap();
        let mut sides = self.sides.lock().unwrap();
        if id < sides.len() {
            sides[id] = Some(c);
        } else {
            sides.push(Some(c));
        }
        id
    }

    fn remove_side(&self, side: usize) -> TelemetryResult<()> {
        self.state.lock().unwrap().core.remove_side(side)?;
        self.sides.lock().unwrap()[side] = None;
        Ok(())
    }

    fn tx(&self, p: &Packet) -> TelemetryResult<()> {
        let now = self.now();
        let (changed, r) = self.with_state(|s, reg| s.submit(reg, &p.inner, now));
        if changed {
            self.tell_watchers(p)?;
        }
        r?;
        self.settle()
    }

    fn make<T: Number>(&self, ty: DataType, vals: &[T]) -> TelemetryResult<Packet> {
        let now = self.now();
        let sender = self.state.lock().unwrap().core.sender.clone();
        let eps = message_meta(ty).endpoints;
        Packet::new(ty, eps, &sender, now, encode_slice_le(vals))
    }

    fn log<T: Number>(&self, ty: DataType, vals: &[T]) -> TelemetryResult<()> {
        let p = self.make(ty, vals)?;
        self.tx(&p)
    }

    fn log_queue<T: Number>(&self, ty: DataType, vals: &[T]) -> TelemetryResult<()> {
        let p = self.make(ty, vals)?;
        self.tx_queue(p)
    }

    fn tx_queue(&self, p: Packet) -> TelemetryResult<()> {
        self.with_core(|c, r| c.queue_tx(&r.schema, p.inner.copied(), None))
    }

    /// Hands to the program what came for it.
    fn deliver(&self, d: Delivery) -> TelemetryResult<()> {
        match d {
            Delivery::Nothing => Ok(()),
            Delivery::Task(j) => self.do_task(&j),
            Delivery::Asked(q) => {
                let now = self.now();
                self.with_state(|s, r| s.reply(r, q, now))
            }
            Delivery::Moved(c) => match &self.on_change {
                Some(f) => f(c),
                None => Ok(()),
            },
            Delivery::Value(p) => self.tell_watchers(&Packet::wrap(p)),
            Delivery::Datagram(m) => {
                let port = m.head.destination_port;
                let f = self.ports.lock().unwrap().iter().find(|x| x.0 == port).map(|x| x.1.clone());
                match f {
                    Some(f) => f(&P2pDatagram {
                        source_hostname: m.source_hostname,
                        source_port: m.head.source_port,
                        destination_port: port,
                        payload: m.payload,
                    }),
                    None => Ok(()),
                }
            }
            Delivery::Stream(kind, s, m) => {
                let port = s.local_port;
                let f = {
                    let v = self.stream_handlers.lock().unwrap();
                    v.iter().find(|x| x.0 == port).map(|x| x.1.clone())
                };
                match f {
                    Some(f) => f(P2pStreamEvent {
                        kind,
                        stream_id: s.id,
                        peer_stream_id: s.peer_id,
                        sequence: m.head.sequence,
                        payload: &m.payload,
                    }),
                    None => Ok(()),
                }
            }
        }
    }

    fn do_task(&self, j: &Job) -> TelemetryResult<()> {
        match j.target {
            Target::Handler(h) => {
                let p = j.packet.as_ref().map(|p| Packet::wrap(p.copied()));
                self.call(&self.handlers[h], p.as_ref(), j.frame.as_deref())
            }
            Target::Side(s) => {
                let c = self.sides.lock().unwrap().get(s).cloned().flatten();
                let p = j.packet.as_ref().map(|p| Packet::wrap(p.copied()));
                match c {
                    Some(c) => self.call(&c, p.as_ref(), j.frame.as_deref()),
                    None => Ok(()),
                }
            }
        }
    }

    /// Hands a packet that is sent over a link to another router.
    fn wire(&self, c: Crossing, other: &Arc<Router>) {
        let owner = other.0.state.lock().unwrap().core.identity.owner;
        self.crossings.lock().unwrap().push((owner, c));
        let to = other.clone();
        let f: PacketFn = Arc::new(move |pkt: &Packet| {
            let now = to.0.now();
            to.0.with_state(|s, r| c.pass(s, r, &pkt.inner, now))?;
            to.0.tell()?;
            to.0.settle_quietly()
        });
        let mut sides = self.sides.lock().unwrap();
        assert_eq!(sides.len(), c.side);
        sides.push(Some(Callback::Packet(f)));
    }

    fn crossing_to(&self, other: &Router) -> Crossing {
        let owner = other.0.state.lock().unwrap().core.identity.owner;
        let all = self.crossings.lock().unwrap();
        all.iter().rev().find(|x| x.0 == owner).unwrap().1
    }

    /// Hands to the program what was kept for it.
    fn tell(&self) -> TelemetryResult<()> {
        let told = std::mem::take(&mut self.state.lock().unwrap().told);
        for d in told {
            self.deliver(d)?;
        }
        Ok(())
    }

    fn tell_watchers(&self, p: &Packet) -> TelemetryResult<()> {
        let watchers: Vec<PacketFn> = {
            let w = self.watchers.lock().unwrap();
            w.iter().filter(|x| x.0 == p.data_type().0).map(|x| x.1.clone()).collect()
        };
        for f in watchers {
            f(p)?;
        }
        Ok(())
    }

    /// Asks other boards for a value.
    fn ask_value(&self, ty: DataType) -> TelemetryResult<()> {
        let now = self.now();
        self.with_state(|s, r| s.ask_value(r, ty.0, now))?;
        self.settle()
    }

    fn poll_timesync(&self) -> TelemetryResult<bool> {
        let now = self.now();
        match self.with_state(|s, r| s.time_announcement(r, now))? {
            Some((p, sides)) => {
                for side in sides {
                    self.with_core(|c, r| c.queue_tx(&r.schema, p.copied(), Some(side)))?;
                }
                Ok(true)
            }
            None => Ok(false),
        }
    }

    fn rx(&self, p: &Packet, from: Option<usize>) -> TelemetryResult<()> {
        let now = self.now();
        let d = self.with_state(|s, r| s.receive(r, &p.inner, from, now))?;
        self.deliver(d)?;
        self.settle_quietly()
    }

    fn rx_packed(&self, bytes: &[u8], from: Option<usize>) -> TelemetryResult<()> {
        let now = self.now();
        let d = match self.arrive(bytes, from)? {
            Some(frame) => self.with_state(|s, r| s.receive_frame(r, frame, from, now))?,
            None => Delivery::Nothing,
        };
        self.deliver(d)?;
        self.settle_quietly()
    }

    /// The frame that bytes complete, unlocked.
    fn arrive(&self, bytes: &[u8], from: Option<usize>) -> TelemetryResult<Option<Vec<u8>>> {
        let frame = match self.with_state(|s, r| s.arrive(r, bytes, from))? {
            Some(f) => f,
            None => return Ok(None),
        };
        let (frame, was_locked) = unlock(frame)?;
        if was_locked {
            self.with_state(|s, r| s.count_opened(r, &frame, from));
        }
        Ok(Some(frame))
    }

    fn rx_queue(&self, p: &Packet, from: Option<usize>) -> TelemetryResult<()> {
        let now = self.now();
        self.with_state(|s, r| s.queue(r, &p.inner, from, now))
    }

    fn rx_packed_queue(&self, bytes: &[u8], from: Option<usize>) -> TelemetryResult<()> {
        match self.arrive(bytes, from)? {
            Some(frame) => self.with_core(|c, r| c.queue_frame(r, frame, from)),
            None => Ok(()),
        }
    }

    fn step_rx(&self) -> TelemetryResult<bool> {
        let now = self.now();
        match self.with_state(|s, r| s.work_next(r, now)) {
            None => Ok(false),
            Some(x) => {
                self.deliver(x?)?;
                if !self.relay {
                    self.settle_quietly()?;
                }
                Ok(true)
            }
        }
    }

    fn step_tx(&self) -> TelemetryResult<bool> {
        if !self.state.lock().unwrap().core.is_idle() {
            self.settle()?;
            return Ok(true);
        }
        let now = self.now();
        match self.with_core(|c, r| c.work_tx(&r.schema, now)) {
            None => Ok(false),
            Some(x) => {
                x?;
                self.settle()?;
                Ok(true)
            }
        }
    }

    fn resend(&self) -> TelemetryResult<()> {
        let now = self.now();
        self.state.lock().unwrap().core.resend_due(now);
        self.settle()
    }

    fn process_rx_queue(&self) -> TelemetryResult<()> {
        if self.busy.load(Ordering::SeqCst) {
            return Ok(());
        }
        while self.step_rx()? {}
        Ok(())
    }

    fn process_tx_queue(&self) -> TelemetryResult<()> {
        if self.busy.load(Ordering::SeqCst) {
            return Ok(());
        }
        self.resend()?;
        loop {
            while self.state.lock().unwrap().core.discovery_waits() {
                self.step_rx()?;
            }
            if !self.step_tx()? {
                return Ok(());
            }
        }
    }

    fn process_tx_queue_with_timeout(&self, limit: u32) -> TelemetryResult<()> {
        if limit == 0 {
            return self.process_tx_queue();
        }
        let start = self.now();
        self.resend()?;
        while self.now().wrapping_sub(start) < limit as u64 && self.step_tx()? {}
        Ok(())
    }

    fn process_all_queues_with_timeout(&self, limit: u32) -> TelemetryResult<()> {
        if self.busy.load(Ordering::SeqCst) {
            return Ok(());
        }
        let start = self.now();
        let mut pump = Pump::new(start, limit as u64);
        if self.with_state(|s, r| s.greet(r, start))? {
            self.settle()?;
        }
        self.resend()?;
        loop {
            let now = self.now();
            let (rx, tx) = {
                let state = self.state.lock().unwrap();
                let c = &state.core;
                (c.rx.len() > 0, c.tx.len() > 0 || !c.is_idle())
            };
            match pump.next(now, rx, tx) {
                PumpStep::Receive => {
                    self.step_rx()?;
                }
                PumpStep::Transmit => {
                    self.step_tx()?;
                }
                PumpStep::Stop => return Ok(()),
            }
        }
    }

    fn announce_discovery(&self) -> TelemetryResult<()> {
        let now = self.now();
        self.with_state(|s, r| s.announce(r, now))?;
        self.settle_quietly()
    }

    fn poll_discovery(&self) -> TelemetryResult<bool> {
        let now = self.now();
        self.state.lock().unwrap().forget_lost(now);
        let did = self.with_core(|c, r| c.poll_discovery(r, now))?;
        while self.with_state(|s, r| s.ping_slow(r, now))? {}
        self.settle_quietly()?;
        Ok(did)
    }

    fn export_topology(&self) -> TopologySnapshot {
        let now = self.now();
        let state = self.state.lock().unwrap();
        let core = &state.core;
        let mut routes = Vec::new();
        for i in state.heard_sides(now) {
            routes.push(RouteSnapshot {
                side_name: core.sides[i].name.clone(),
                reachable_endpoints: endpoints_of(&core.presence.reached_endpoints(Some(i), now)),
                reachable_timesync_sources: core.presence.reached_sources(Some(i), now),
                announcers: core
                    .presence
                    .announcers(Some(i), now)
                    .into_iter()
                    .map(|x| AnnouncerSnapshot {
                        routers: nodes_of(state.boards_behind(i, &x, now)),
                        sender_id: x,
                    })
                    .collect(),
            });
        }
        let links = links_of(&core.presence.boards_told(None, now))
            .into_iter()
            .map(|(source, target)| TopologyLink { source, target })
            .collect();
        TopologySnapshot {
            advertised_endpoints: endpoints_of(&state.advertised_endpoints(now)),
            advertised_timesync_sources: core.known_sources(now),
            routes,
            routers: nodes_of(state.known_boards(now)),
            links,
            current_announce_interval_ms: core.interval,
            next_announce_ms: core.next_announce,
        }
    }

    fn rule(
        &self,
        source: Option<usize>,
        side: usize,
        f: impl FnOnce(&mut sedsnet::routes::RoutePolicy),
    ) -> TelemetryResult<()> {
        let mut state = self.state.lock().unwrap();
        state.core.check_route(source, side)?;
        f(&mut state.core.policy);
        Ok(())
    }

    fn source_rule(
        &self,
        source: Option<usize>,
        f: impl FnOnce(&mut sedsnet::routes::RoutePolicy),
    ) -> TelemetryResult<()> {
        let mut state = self.state.lock().unwrap();
        if let Some(s) = source {
            state.core.check_route(None, s)?;
        }
        f(&mut state.core.policy);
        Ok(())
    }

    fn shared_bytes(&self) -> usize {
        self.with_core(|c, r| c.shared_bytes(&r.schema))
    }
}

struct Router(Node);

impl Router {
    fn sender_hash(name: &str) -> u64 {
        sedsnet::hash::sender_hash(name)
    }

    fn note_reliable_return_route(&self, side: usize, id: u64) {
        self.0.state.lock().unwrap().returns.note(id, side);
    }

    fn has_return_route(&self, id: u64) -> bool {
        self.0.state.lock().unwrap().returns.find(id).is_some()
    }

    fn queue_end_to_end_reliable_ack(&self, p: &Packet, wanted: bool) -> TelemetryResult<()> {
        let now = self.0.now();
        if wanted {
            self.0.with_state(|s, r| s.confirm(r, &p.inner, now))?;
        }
        Ok(())
    }

    fn is_end_to_end_ack_packet(p: &Packet) -> bool {
        sedsnet::ledger::read_receipt(&p.inner).is_some()
    }

    fn end_to_end_ack_sender_hash(p: &Packet) -> Option<u64> {
        sedsnet::ledger::read_receipt(&p.inner).map(|x| x.1)
    }

    fn new(cfg: RouterConfig) -> Router {
        Router::new_with_clock(cfg, Box::new(UnixClock))
    }

    fn new_with_clock(cfg: RouterConfig, clock: Box<dyn Clock + Send + Sync>) -> Router {
        Router(Node::new(false, cfg, clock))
    }

    fn tx(&self, p: Packet) -> TelemetryResult<()> {
        self.0.tx(&p)
    }

    fn tx_queue(&self, p: Packet) -> TelemetryResult<()> {
        self.0.tx_queue(p)
    }

    fn log<T: Number>(&self, ty: DataType, vals: &[T]) -> TelemetryResult<()> {
        self.0.log(ty, vals)
    }

    fn log_queue<T: Number>(&self, ty: DataType, vals: &[T]) -> TelemetryResult<()> {
        self.0.log_queue(ty, vals)
    }

    fn rx(&self, p: &Packet) -> TelemetryResult<()> {
        self.0.rx(p, None)
    }

    fn rx_queue(&self, p: Packet) -> TelemetryResult<()> {
        self.0.rx_queue(&p, None)
    }

    fn rx_packed(&self, bytes: &[u8]) -> TelemetryResult<()> {
        self.0.rx_packed(bytes, None)
    }

    fn rx_packed_queue(&self, bytes: &[u8]) -> TelemetryResult<()> {
        self.0.rx_packed_queue(bytes, None)
    }

    fn rx_from_side(&self, p: &Packet, side: usize) -> TelemetryResult<()> {
        self.0.rx(p, Some(side))
    }

    fn rx_packed_from_side(&self, bytes: &[u8], side: usize) -> TelemetryResult<()> {
        self.0.rx_packed(bytes, Some(side))
    }

    fn rx_queue_from_side(&self, p: Packet, side: usize) -> TelemetryResult<()> {
        self.0.rx_queue(&p, Some(side))
    }

    fn rx_packed_queue_from_side(&self, bytes: &[u8], side: usize) -> TelemetryResult<()> {
        self.0.rx_packed_queue(bytes, Some(side))
    }

    fn enable_managed_variable(&self, ty: DataType) -> TelemetryResult<()> {
        self.enable_network_variable(ty, NetworkVariablePermissions::READ_WRITE)
    }

    fn enable_network_variable(
        &self,
        ty: DataType,
        p: NetworkVariablePermissions,
    ) -> TelemetryResult<()> {
        self.0.state.lock().unwrap().variables.enable(ty.0, p.0);
        Ok(())
    }

    fn seed_managed_variable(&self, p: Packet) -> TelemetryResult<()> {
        self.0.state.lock().unwrap().variables.store(&p.inner);
        Ok(())
    }

    fn request_managed_variable(&self, ty: DataType) -> TelemetryResult<()> {
        self.0.ask_value(ty)
    }

    fn set_network_variable(&self, p: Packet) -> TelemetryResult<()> {
        self.0.state.lock().unwrap().variables.set(&p.inner)?;
        self.tx(p)
    }

    fn get_cached_network_variable(&self, ty: DataType) -> TelemetryResult<Option<Packet>> {
        Ok(self.0.state.lock().unwrap().variables.get(ty.0)?.map(Packet::wrap))
    }

    fn get_network_variable(
        &self,
        ty: DataType,
        max_age_ms: Option<u64>,
    ) -> TelemetryResult<Option<Packet>> {
        assert_eq!(max_age_ms, None, "values are kept however old they are");
        let now = self.0.now();
        let value = self.0.with_state(|s, r| s.want_value(r, ty.0, now))?;
        self.0.settle()?;
        Ok(value.map(Packet::wrap))
    }

    fn on_network_variable_update<F>(&self, ty: DataType, f: F) -> TelemetryResult<()>
    where
        F: Fn(&Packet) -> TelemetryResult<()> + Send + Sync + 'static,
    {
        self.0.state.lock().unwrap().keep_from_now(ty.0);
        self.0.watchers.lock().unwrap().push((ty.0, Arc::new(f)));
        Ok(())
    }

    fn request_topology(&self) -> TelemetryResult<()> {
        let now = self.0.now();
        self.0.with_state(|s, r| s.request_topology(r, now))?;
        self.0.settle()
    }

    fn request_schema(&self) -> TelemetryResult<()> {
        let now = self.0.now();
        self.0.with_state(|s, r| s.request_schema(r, now))?;
        self.0.settle()
    }

    fn hostname(&self) -> Arc<str> {
        self.sender()
    }

    fn current_address(&self) -> u32 {
        self.0.state.lock().unwrap().core.identity.address
    }

    fn bind_p2p_port<F>(&self, port: u16, f: F) -> TelemetryResult<()>
    where
        F: Fn(&P2pDatagram) -> TelemetryResult<()> + Send + Sync + 'static,
    {
        self.0.ports.lock().unwrap().push((port, Arc::new(f)));
        Ok(())
    }

    fn bind_p2p_stream_port<F>(&self, port: u16, f: F) -> TelemetryResult<()>
    where
        F: Fn(P2pStreamEvent<'_>) -> TelemetryResult<()> + Send + Sync + 'static,
    {
        self.0.state.lock().unwrap().stream_ports.push(port);
        self.0.stream_handlers.lock().unwrap().push((port, Arc::new(f)));
        Ok(())
    }

    fn address_of(&self, hostname: &str) -> TelemetryResult<u32> {
        let state = self.0.state.lock().unwrap();
        let peer = state.directory.named(hostname).ok_or(TelemetryError::BadArg)?;
        Ok(peer.identity.address)
    }

    fn send_p2p_to_hostname(
        &self,
        hostname: &str,
        port: u16,
        source_port: u16,
        payload: &[u8],
    ) -> TelemetryResult<()> {
        let address = self.address_of(hostname)?;
        self.send_p2p_to_address(address, port, source_port, payload)
    }

    fn send_p2p_to_address(
        &self,
        address: u32,
        port: u16,
        source_port: u16,
        payload: &[u8],
    ) -> TelemetryResult<()> {
        let now = self.0.now();
        self.0.with_state(|s, r| s.send_letter(r, address, port, source_port, payload, now))?;
        self.0.settle()
    }

    fn open_p2p_stream_to_hostname(
        &self,
        hostname: &str,
        port: u16,
        source_port: u16,
    ) -> TelemetryResult<u32> {
        let address = self.address_of(hostname)?;
        let now = self.0.now();
        let id = self.0.with_state(|s, r| s.open_stream(r, address, port, source_port, now))?;
        self.0.settle()?;
        Ok(id)
    }

    fn send_p2p_stream(&self, stream: u32, payload: &[u8]) -> TelemetryResult<()> {
        let now = self.0.now();
        self.0.with_state(|s, r| s.send_on_stream(r, stream, payload, now))?;
        self.0.settle()
    }

    fn close_p2p_stream(&self, stream: u32) -> TelemetryResult<()> {
        let now = self.0.now();
        self.0.with_state(|s, r| s.close_stream(r, stream, now))?;
        self.0.settle()
    }

    fn wrap_side_transport_frame(kind: u8, body: &[u8]) -> Vec<u8> {
        wrap_side_transport_frame(kind, body)
    }

    fn crc32_bytes(bytes: &[u8]) -> u32 {
        crc32_bytes(bytes)
    }

    fn split_side_transport_frame(
        &self,
        _side: usize,
        frame: Vec<u8>,
        max: usize,
    ) -> TelemetryResult<Vec<Vec<u8>>> {
        let address = sender_address_u32(&self.sender());
        let options = LinkOptions { max_frame: max, ..LinkOptions::plain() };
        self.0.spare.lock().unwrap().options = options;
        self.0.spare.lock().unwrap().encode(frame, false, 0, address)
    }

    fn encode_side_transport_frames(
        &self,
        side: usize,
        _options: RouterSideOptions,
        frame: Arc<[u8]>,
    ) -> TelemetryResult<Vec<Vec<u8>>> {
        self.0.encode(side, &frame, self.0.now())
    }

    fn decode_side_transport_frame(
        &self,
        side: usize,
        bytes: &[u8],
    ) -> TelemetryResult<Option<Arc<[u8]>>> {
        Ok(self.0.state.lock().unwrap().wires[side].link.decode(bytes).map(Arc::from))
    }

    fn waiting_transfers(&self, side: usize) -> usize {
        self.0.state.lock().unwrap().wires[side].link.waiting.len()
    }
}

struct Relay(Node);

impl Relay {
    fn new(clock: Box<dyn Clock + Send + Sync>) -> Relay {
        Relay(Node::new(true, RouterConfig::default().with_sender("RELAY"), clock))
    }

    fn rx_from_side(&self, side: usize, p: Packet) -> TelemetryResult<()> {
        self.0.rx_queue(&p, Some(side))
    }

    fn rx_packed_from_side(&self, side: usize, bytes: &[u8]) -> TelemetryResult<()> {
        self.0.rx_packed_queue(bytes, Some(side))
    }
}

/// What routers and relays have in common.
trait Controls {
    fn node(&self) -> &Node;

    fn add_side_packet<F>(&self, name: impl AsRef<str>, f: F) -> usize
    where
        F: Fn(&Packet) -> TelemetryResult<()> + Send + Sync + 'static,
    {
        self.add_side_packet_with_options(name, f, RouterSideOptions::default())
    }

    fn add_side_packet_with_options<F>(
        &self,
        name: impl AsRef<str>,
        f: F,
        o: RouterSideOptions,
    ) -> usize
    where
        F: Fn(&Packet) -> TelemetryResult<()> + Send + Sync + 'static,
    {
        self.node().add_side(name.as_ref(), Callback::Packet(Arc::new(f)), o)
    }

    fn add_side_packed<F>(&self, name: impl AsRef<str>, f: F) -> usize
    where
        F: Fn(&[u8]) -> TelemetryResult<()> + Send + Sync + 'static,
    {
        self.add_side_packed_with_options(name, f, RouterSideOptions::default())
    }

    fn add_side_packed_with_options<F>(
        &self,
        name: impl AsRef<str>,
        f: F,
        o: RouterSideOptions,
    ) -> usize
    where
        F: Fn(&[u8]) -> TelemetryResult<()> + Send + Sync + 'static,
    {
        self.node().add_side(name.as_ref(), Callback::Packed(Arc::new(f)), o)
    }

    fn add_side_packed_small_packets<F>(&self, name: &str, f: F, max_frame_bytes: usize) -> usize
    where
        F: Fn(&[u8]) -> TelemetryResult<()> + Send + Sync + 'static,
    {
        let o = RouterSideOptions::default().with_small_packet_transport(max_frame_bytes);
        self.add_side_packed_with_options(name, f, o)
    }

    fn export_runtime_stats(&self) -> RuntimeStatsSnapshot {
        self.node().export_runtime_stats()
    }

    fn note_side_link_probe_sample(
        &self,
        side: usize,
        bytes: usize,
        ms: u64,
    ) -> TelemetryResult<()> {
        self.node().note_side_link_probe_sample(side, bytes, ms)
    }

    fn client_stats(&self, name: &str) -> Option<ClientStats> {
        let now = self.node().now();
        let state = self.node().state.lock().unwrap();
        let core = &state.core;
        let (side, endpoints) = core.presence.client(&name.to_owned(), now)?;
        Some(ClientStats {
            connected: true,
            side_names: vec![core.sides[side].name.clone()],
            reachable_endpoints: endpoints_of(&endpoints),
        })
    }

    fn remove_side(&self, side: usize) -> TelemetryResult<()> {
        self.node().remove_side(side)
    }

    fn set_side_ingress_enabled(&self, side: usize, on: bool) -> TelemetryResult<()> {
        self.node().state.lock().unwrap().core.set_side_ingress_enabled(side, on)
    }

    fn set_side_egress_enabled(&self, side: usize, on: bool) -> TelemetryResult<()> {
        self.node().state.lock().unwrap().core.set_side_egress_enabled(side, on)
    }

    fn process_rx_queue(&self) -> TelemetryResult<()> {
        self.node().process_rx_queue()
    }

    fn process_tx_queue(&self) -> TelemetryResult<()> {
        self.node().process_tx_queue()
    }

    fn process_tx_queue_with_timeout(&self, limit: u32) -> TelemetryResult<()> {
        self.node().process_tx_queue_with_timeout(limit)
    }

    fn process_all_queues(&self) -> TelemetryResult<()> {
        self.node().process_all_queues_with_timeout(0)
    }

    fn process_all_queues_with_timeout(&self, limit: u32) -> TelemetryResult<()> {
        self.node().process_all_queues_with_timeout(limit)
    }

    fn poll_timesync(&self) -> TelemetryResult<bool> {
        self.node().poll_timesync()
    }

    fn periodic_no_timesync(&self, limit: u32) -> TelemetryResult<()> {
        self.node().poll_discovery()?;
        self.node().process_all_queues_with_timeout(limit)
    }

    fn periodic(&self, limit: u32) -> TelemetryResult<()> {
        self.node().poll_discovery()?;
        self.node().poll_timesync()?;
        self.node().process_all_queues_with_timeout(limit)
    }

    fn clear_queues(&self) {
        self.node().state.lock().unwrap().core.clear_queues();
    }

    fn set_sender(&self, name: &str) {
        self.node().state.lock().unwrap().core.set_sender(name);
    }

    fn sender(&self) -> Arc<str> {
        Arc::from(self.node().state.lock().unwrap().core.sender.as_str())
    }

    fn announce_discovery(&self) -> TelemetryResult<()> {
        self.node().announce_discovery()
    }

    fn poll_discovery(&self) -> TelemetryResult<bool> {
        self.node().poll_discovery()
    }

    fn export_topology(&self) -> TopologySnapshot {
        self.node().export_topology()
    }

    fn set_route(&self, source: Option<usize>, side: usize, on: bool) -> TelemetryResult<()> {
        self.node().rule(source, side, |p| p.set_route(source, side, on))
    }

    fn set_typed_route(
        &self,
        source: Option<usize>,
        ty: DataType,
        side: usize,
        on: bool,
    ) -> TelemetryResult<()> {
        self.node().rule(source, side, |p| p.set_typed_route(source, ty.0, side, on))
    }

    fn clear_typed_route(
        &self,
        source: Option<usize>,
        ty: DataType,
        side: usize,
    ) -> TelemetryResult<()> {
        self.node().rule(source, side, |p| p.clear_typed_route(source, ty.0, side))
    }

    fn set_route_weight(&self, source: Option<usize>, side: usize, w: u32) -> TelemetryResult<()> {
        self.node().rule(source, side, |p| p.set_route_weight(source, side, w))
    }

    fn clear_route_weight(&self, source: Option<usize>, side: usize) -> TelemetryResult<()> {
        self.node().rule(source, side, |p| p.clear_route_weight(source, side))
    }

    fn set_route_priority(&self, source: Option<usize>, side: usize, w: u32) -> TelemetryResult<()> {
        self.node().rule(source, side, |p| p.set_route_priority(source, side, w))
    }

    fn clear_route_priority(&self, source: Option<usize>, side: usize) -> TelemetryResult<()> {
        self.node().rule(source, side, |p| p.clear_route_priority(source, side))
    }

    fn set_source_route_mode(
        &self,
        source: Option<usize>,
        mode: RouteSelectionMode,
    ) -> TelemetryResult<()> {
        self.node().source_rule(source, |p| p.set_source_route_mode(source, mode))
    }

    fn clear_source_route_mode(&self, source: Option<usize>) -> TelemetryResult<()> {
        self.node().source_rule(source, |p| p.clear_source_route_mode(source))
    }

    fn debug_end_to_end_pending_destination_count(&self, id: u64) -> Option<usize> {
        self.node().state.lock().unwrap().pending.holders(id).map(|v| v.len())
    }

    fn debug_end_to_end_acked_destination_count(&self, id: u64) -> Option<usize> {
        self.node().state.lock().unwrap().acked.holders(id).map(|v| v.len())
    }

    fn debug_end_to_end_tracked_count(&self) -> usize {
        self.node().state.lock().unwrap().pending.len()
    }

    fn debug_end_to_end_acked_packet_count(&self) -> usize {
        self.node().state.lock().unwrap().acked.len()
    }

    fn debug_reliable_return_route_count(&self) -> usize {
        self.node().state.lock().unwrap().returns.items.len()
    }

    fn debug_shared_queue_bytes_used(&self) -> usize {
        self.node().shared_bytes()
    }

    fn debug_recent_rx_capacity(&self) -> (usize, usize) {
        let n = self.node().state.lock().unwrap().core.recent.capacity();
        (n, n * 8)
    }

    fn debug_queue_lengths(&self) -> (usize, usize, usize) {
        let state = self.node().state.lock().unwrap();
        let c = &state.core;
        (c.rx.len(), c.tx.len(), c.recent.len())
    }

    fn debug_side_storage(&self) -> (usize, usize) {
        let state = self.node().state.lock().unwrap();
        let c = &state.core;
        (c.sides.iter().map(|s| s.name.len()).sum(), c.sides.len())
    }
}

impl Controls for Router {
    fn node(&self) -> &Node {
        &self.0
    }
}

impl Controls for Relay {
    fn node(&self) -> &Node {
        &self.0
    }
}

type SeenType = Arc<Mutex<Option<(DataType, Vec<f32>)>>>;

fn crosswire(a: &Arc<Router>, b: &Arc<Router>) {
    let (f, g) = {
        let mut x = a.0.state.lock().unwrap();
        let mut y = b.0.state.lock().unwrap();
        sedsnet::common::crosswire(&mut x, &mut y)
    };
    a.0.wire(f.unwrap(), b);
    b.0.wire(g.unwrap(), a);
}

fn exchange_discovery(a: &Router, b: &Router) {
    let now = a.0.now();
    let f = a.0.crossing_to(b);
    let g = b.0.crossing_to(a);
    {
        let mut x = a.0.state.lock().unwrap();
        let mut y = b.0.state.lock().unwrap();
        with_registry(|r| {
            assert!(may_meet(&x, &y, r, f.side, g.side, now));
            sedsnet::common::exchange_discovery(&mut x, &mut y, r, f.side, g.side, now)
        })
        .unwrap();
    }
    a.0.tell().unwrap();
    b.0.tell().unwrap();
}

/// The common types were made already.
static COMMON: Mutex<bool> = Mutex::new(false);

fn ensure_common_test_schema() {
    let mut done = COMMON.lock().unwrap();
    with_registry(|r| sedsnet::common::ensure_common_test_schema(&mut r.schema, &mut done)).unwrap();
}

fn test_payload_len_for(ty: DataType) -> usize {
    with_registry(|r| {
        assert!(r.schema.data_type_exists(ty.0));
        sedsnet::common::test_payload_len_for(&r.schema, ty.0) as usize
    })
}

fn packed_frame_type(bytes: &[u8]) -> Option<DataType> {
    with_registry(|r| sedsnet::common::packed_frame_type(r, bytes)).map(DataType)
}

fn count_packed_frames_of_type(frames: &[Vec<u8>], ty: DataType) -> usize {
    with_registry(|r| sedsnet::common::count_packed_frames_of_type(r, frames, ty.0))
}

fn count_packets_of_type(pkts: &[Packet], ty: DataType) -> usize {
    let plain: Vec<Message> = pkts.iter().map(|p| p.inner.copied()).collect();
    sedsnet::common::count_packets_of_type(&plain, ty.0)
}

fn get_handler(rx_count_c: Arc<AtomicUsize>) -> EndpointHandler {
    let count = rx_count_c.load(Ordering::SeqCst);
    let c = with_registry(|r| sedsnet::common::get_handler(&r.schema, count)).unwrap();
    assert_eq!(c.count, count);
    EndpointHandler::new_packet_handler(DataEndpoint(c.handler.endpoint), move |pkt: &Packet| {
        let mut result = Ok(());
        let _ = rx_count_c.fetch_update(Ordering::SeqCst, Ordering::SeqCst, |n| {
            let mut now = PacketCounter { count: n, ..c };
            result = now.take(&pkt.inner);
            Some(now.count)
        });
        result
    })
}

fn get_sd_card_handler(seen: SeenType) -> EndpointHandler {
    let h = with_registry(|r| sedsnet::common::bind_sd_card(&r.schema)).unwrap();
    EndpointHandler::new_packet_handler(DataEndpoint(h.endpoint), move |pkt: &Packet| {
        let (ty, bits) = with_registry(|r| {
            assert!(sedsnet::common::takes_position(&r.schema, &pkt.inner));
            sedsnet::common::get_sd_card_handler(&r.schema, &pkt.inner)
        });
        let vals = bits.into_iter().map(f32::from_bits).collect();
        *seen.lock().unwrap() = Some((DataType(ty), vals));
        Ok(())
    })
}

fn handle_errors(result: Result<(), TelemetryError>) {
    assert!(
        sedsnet::common::is_handler_failure(&result),
        "expected a failed handler, got {result:?}"
    );
    sedsnet::common::handle_errors(result);
}

fn fake_telemetry_packet_bytes() -> Packet {
    Packet::wrap(with_registry(sedsnet::common::fake_telemetry_packet_bytes).unwrap())
}

fn make_message_packet(payload: &[u8], ts: u64) -> Packet {
    Packet::wrap(
        with_registry(|r| sedsnet::common::make_message_packet(r, payload, ts))
            .expect("packet build failed"),
    )
}

#[test]
fn every_error_formats_without_recursing() {
    let errors = [
        TelemetryError::GenericError(None),
        TelemetryError::GenericError(Some("test error".to_string())),
        TelemetryError::InvalidType,
        TelemetryError::SizeMismatch { expected: 1, got: 4 },
        TelemetryError::SizeMismatchError,
        TelemetryError::EmptyEndpoints,
        TelemetryError::TimestampInvalid,
        TelemetryError::MissingPayload,
        TelemetryError::HandlerError("handler failed"),
        TelemetryError::BadArg,
        TelemetryError::PermissionDenied,
        TelemetryError::Pack("pack failed"),
        TelemetryError::Unpack("unpack failed"),
        TelemetryError::Io("no discovered route"),
        TelemetryError::InvalidUtf8,
        TelemetryError::TypeMismatch { expected: 1, got: 4 },
        TelemetryError::InvalidLinkId("missing side"),
        TelemetryError::PacketTooLarge("queue limit"),
    ];
    for error in errors {
        assert_eq!(error.to_text(), format!("{error:?}"));
        assert_eq!(format!("send failed: {}", error.to_text()), format!("send failed: {error:?}"));
    }
}


fn copied_packet() {
    let mut places = vec![
        fake_telemetry_packet_bytes().inner,
        fake_telemetry_packet_bytes().inner,
    ];
    let copy = |places: &mut Vec<Message>, dest: Option<usize>, src: Option<usize>| {
        with_registry(|r| sedsnet::common::copy_telemetry_packet_raw(r, places, dest, src))
    };
    assert!(copy(&mut places, None, Some(0)).is_err());
    assert!(copy(&mut places, Some(0), Some(0)).is_ok());
    assert!(copy(&mut places, Some(1), Some(0)).is_ok());
    let (src, dest) = (&places[0], &places[1]);
    assert_eq!(dest.timestamp(), src.timestamp());
    assert_eq!(dest.data_type(), src.data_type());
    assert_eq!(dest.data_size(), src.data_size());
    assert_eq!(dest.endpoints().len(), src.endpoints().len());
    for i in 0..dest.endpoints().len() {
        assert_eq!(dest.endpoints()[i], src.endpoints()[i]);
    }
    assert_eq!(dest.payload(), src.payload());
}

#[test]
fn tests_helpers_copy_telemetry_packet() {
    copied_packet();
}

#[test]
fn mod_helpers_copy_telemetry_packet() {
    copied_packet();
}


#[test]
fn preferred_e2e_type_seals_packed_side_payload_and_roundtrips() {
    ensure_common_test_schema();
    register_test_encryption();
    let ep = DataEndpoint::named("RADIO");
    let ty = DataType(3_902);
    let _ = remove_data_type(ty);
    register_data_type_id_with_description_and_e2e_encryption(
        ty,
        "E2E_PREFERRED_TEST",
        "",
        MessageElement::Dynamic(MessageDataType::UInt8, MessageClass::Data),
        &[ep],
        ReliableMode::BestEffort,
        10,
        E2eEncryptionPolicy::PreferOn,
    )
    .unwrap();

    let captured = Arc::new(Mutex::new(Vec::<u8>::new()));
    let captured_for_side = captured.clone();
    let router = Router::new_with_clock(
        RouterConfig::default()
            .with_e2e_encryption(RouterE2eEncryptionMode::Preferred)
            .with_e2e_key_id(0x5A),
        Box::new(|| 0u64),
    );
    router.add_side_packed("crypto-link", move |bytes: &[u8]| {
        *captured_for_side.lock().unwrap() = bytes.to_vec();
        Ok(())
    });

    let payload = [1_u8, 2, 3, 4, 5, 6];
    router.log(ty, &payload).unwrap();
    let wire = captured.lock().unwrap().clone();
    assert!(!wire.windows(payload.len()).any(|window| window == payload));
    let decoded = unpack_packet(&wire).unwrap();
    assert_eq!(decoded.data_type(), ty);
    assert_eq!(decoded.payload(), payload);

    let _ = remove_data_type(ty);
    clear_c_cryptography_provider();
}

#[test]
fn encrypted_payload_rejects_authenticated_header_tamper() {
    ensure_common_test_schema();
    register_test_encryption();
    let ep = DataEndpoint::named("RADIO");
    let ty = DataType(3_903);
    let _ = remove_data_type(ty);
    register_data_type_id_with_description_and_e2e_encryption(
        ty,
        "E2E_TAMPER_TEST",
        "",
        MessageElement::Dynamic(MessageDataType::UInt8, MessageClass::Data),
        &[ep],
        ReliableMode::BestEffort,
        10,
        E2eEncryptionPolicy::RequireOn,
    )
    .unwrap();

    let captured = Arc::new(Mutex::new(Vec::<u8>::new()));
    let captured_for_side = captured.clone();
    let router = Router::new_with_clock(
        RouterConfig::default()
            .with_e2e_encryption(RouterE2eEncryptionMode::RequiredOnly)
            .with_e2e_key_id(0x33),
        Box::new(|| 0u64),
    );
    router.add_side_packed("crypto-link", move |bytes: &[u8]| {
        *captured_for_side.lock().unwrap() = bytes.to_vec();
        Ok(())
    });

    router.log(ty, &[9_u8, 8, 7, 6]).unwrap();
    let mut wire = captured.lock().unwrap().clone();
    assert!(unpack_packet(&wire).is_ok());
    wire[1] ^= 0x01;
    refresh_crc32(&mut wire);
    assert!(unpack_packet(&wire).is_err());

    let _ = remove_data_type(ty);
    clear_c_cryptography_provider();
}

#[test]
fn preferred_e2e_fanout_reaches_three_boards_with_same_endpoint_and_rejects_mods() {
    ensure_common_test_schema();
    register_test_encryption();
    let ep = DataEndpoint::named("RADIO");
    let ty = DataType(3_904);
    let _ = remove_data_type(ty);
    register_data_type_id_with_description_and_e2e_encryption(
        ty,
        "E2E_THREE_BOARD_RADIO_TEST",
        "",
        MessageElement::Dynamic(MessageDataType::UInt8, MessageClass::Data),
        &[ep],
        ReliableMode::BestEffort,
        10,
        E2eEncryptionPolicy::PreferOn,
    )
    .unwrap();

    let seen_a = Arc::new(Mutex::new(Vec::<Vec<u8>>::new()));
    let seen_b = Arc::new(Mutex::new(Vec::<Vec<u8>>::new()));
    let seen_c = Arc::new(Mutex::new(Vec::<Vec<u8>>::new()));

    let mk_board = |name: &'static str, seen: Arc<Mutex<Vec<Vec<u8>>>>| {
        Router::new_with_clock(
            RouterConfig::new(vec![EndpointHandler::new_packet_handler(ep, move |pkt: &Packet| {
                seen.lock().unwrap().push(pkt.payload().to_vec());
                Ok(())
            })])
            .with_sender(name)
            .with_e2e_key_id(0x44),
            Box::new(|| 0u64),
        )
    };

    let board_a = Arc::new(mk_board("BOARD_A", seen_a.clone()));
    let board_b = Arc::new(mk_board("BOARD_B", seen_b.clone()));
    let board_c = Arc::new(mk_board("BOARD_C", seen_c.clone()));
    let captured = Arc::new(Mutex::new(Vec::<u8>::new()));

    let source = Router::new_with_clock(
        RouterConfig::default().with_sender("SOURCE").with_e2e_key_id(0x44),
        Box::new(|| 0u64),
    );

    let a = board_a.clone();
    let b = board_b.clone();
    let c = board_c.clone();
    let captured_for_side = captured.clone();
    source.add_side_packed("shared-radio", move |bytes: &[u8]| {
        *captured_for_side.lock().unwrap() = bytes.to_vec();
        a.rx_packed(bytes)?;
        b.rx_packed(bytes)?;
        c.rx_packed(bytes)?;
        Ok(())
    });

    let payload = [42_u8, 9, 7, 1];
    source.log(ty, &payload).unwrap();
    assert_eq!(seen_a.lock().unwrap().as_slice(), &[payload.to_vec()]);
    assert_eq!(seen_b.lock().unwrap().as_slice(), &[payload.to_vec()]);
    assert_eq!(seen_c.lock().unwrap().as_slice(), &[payload.to_vec()]);

    let wire = captured.lock().unwrap().clone();
    assert!(!wire.windows(payload.len()).any(|window| window == payload));

    let mut header_tampered = wire.clone();
    header_tampered[1] ^= 0x01;
    refresh_crc32(&mut header_tampered);
    assert!(board_a.rx_packed(&header_tampered).is_err());

    let mut payload_tampered = wire;
    let data_len = payload_tampered.len() - 4;
    payload_tampered[data_len - 1] ^= 0x55;
    refresh_crc32(&mut payload_tampered);
    assert!(board_b.rx_packed(&payload_tampered).is_err());

    let _ = remove_data_type(ty);
    clear_c_cryptography_provider();
}

fn runtime_reliable_max_return_routes() -> usize {
    sedsnet::ledger::RELIABLE_MAX_RETURN_ROUTES
}

const COMPRESSION_MEMORY_TESTS_FLAG_COMPRESSED_PAYLOAD: u8 = 0x01;

#[test]
fn tests_compressible_payload_sets_compressed_flag_and_roundtrips() {
    let payload = vec![0u8; 4096];
    let pkt = make_message_packet(&payload, 11);

    let wire = pack_packet(&pkt);
    assert_eq!(wire[0] & COMPRESSION_MEMORY_TESTS_FLAG_COMPRESSED_PAYLOAD, COMPRESSION_MEMORY_TESTS_FLAG_COMPRESSED_PAYLOAD);

    let decoded = unpack_packet(&wire).expect("unpack failed");
    assert_eq!(decoded.payload(), payload.as_slice());
}

#[test]
fn tests_below_threshold_payload_stays_uncompressed_and_roundtrips() {
    let payload = b"small-msg".to_vec();
    let pkt = make_message_packet(&payload, 22);

    let wire = pack_packet(&pkt);
    assert_eq!(wire[0] & COMPRESSION_MEMORY_TESTS_FLAG_COMPRESSED_PAYLOAD, 0);

    let decoded = unpack_packet(&wire).expect("unpack failed");
    assert_eq!(decoded.payload(), payload.as_slice());
}

#[test]
fn tests_mixed_payload_workload_roundtrips_without_failures() {
    for i in 0..1500u64 {
        let payload = if i % 2 == 0 {
            vec![b'Z'; 192]
        } else {
            let mut v = Vec::with_capacity(192);
            for j in 0..192u16 {
                v.push(32u8 + (((i as u16 + j) as u8) % 95));
            }
            v
        };

        let pkt = make_message_packet(&payload, i);
        let wire = pack_packet(&pkt);
        let decoded = unpack_packet(&wire).expect("unpack failed");
        assert_eq!(decoded.payload(), payload.as_slice());
    }
}

struct Tests2TestBus {
    frames: Arc<Mutex<Vec<Vec<u8>>>>,
}

impl Tests2TestBus {
    fn new() -> (
        Self,
        impl Fn(&[u8]) -> TelemetryResult<()> + Send + Sync + 'static,
    ) {
        let frames = Arc::new(Mutex::new(Vec::<Vec<u8>>::new()));
        let tx_frames = frames.clone();
        let tx = move |bytes: &[u8]| -> TelemetryResult<()> {
            tx_frames.lock().unwrap().push(bytes.to_vec());
            Ok(())
        };
        (Self { frames }, tx)
    }
}

#[test]
fn pack_roundtrip_gps() {
    let endpoints = &[DataEndpoint::named("SD_CARD"), DataEndpoint::named("RADIO")];
    let pkt = Packet::from_f32_slice(
        DataType::named("GPS_DATA"),
        &[5.2141414, 3.1342144, 1.1231232],
        endpoints,
        0,
    )
    .unwrap();

    pkt.validate().unwrap();

    let bytes = pack_packet(&pkt);
    let rpkt = unpack_packet(&bytes).unwrap();

    rpkt.validate().unwrap();
    assert_eq!(rpkt.data_type(), pkt.data_type());
    assert_eq!(rpkt.data_size(), pkt.data_size());
    assert_eq!(rpkt.timestamp(), pkt.timestamp());
    assert_eq!(rpkt.endpoints(), pkt.endpoints());
    assert_eq!(rpkt.payload(), pkt.payload());
}

#[test]
fn header_string_matches_expectation() {
    let endpoints = &[DataEndpoint::named("SD_CARD"), DataEndpoint::named("RADIO")];
    let pkt =
        Packet::from_f32_slice(DataType::named("GPS_DATA"), &[1.0, 2.0, 3.0], endpoints, 0)
            .unwrap();
    let s = pkt.header_string();
    assert_eq!(
        s,
        "Type: GPS_DATA, Data Size: 12, Sender: TEST_PLATFORM, Endpoints: [SD_CARD, RADIO], Timestamp: 0 (0s 000ms)"
    );
}

#[test]
fn packet_to_string_formats_floats() {
    let endpoints = &[DataEndpoint::named("SD_CARD"), DataEndpoint::named("RADIO")];
    let pkt =
        Packet::from_f32_slice(DataType::named("GPS_DATA"), &[1.0, 2.5, 3.25], endpoints, 0)
            .unwrap();

    let text = pkt.as_string();
    assert!(text.starts_with(
        "{Type: GPS_DATA, Data Size: 12, Sender: TEST_PLATFORM, Endpoints: [SD_CARD, RADIO], Timestamp: 0 (0s 000ms), Data: "
    ));
    assert!(text.contains("1"));
    assert!(text.contains("2.5"));
    assert!(text.contains("3.25"));
}

#[test]
fn router_sends_and_receives() {
    let tx_seen: Arc<Mutex<Option<Packet>>> = Arc::new(Mutex::new(None));
    let sd_seen_decoded: SeenType = Arc::new(Mutex::new(None));
    let tx_seen_c = tx_seen.clone();
    let transmit = move |bytes: &[u8]| -> TelemetryResult<()> {
        let pkt = unpack_packet(bytes)?;
        *tx_seen_c.lock().unwrap() = Some(pkt);
        Ok(())
    };
    let sd_seen_c = sd_seen_decoded.clone();
    let sd_handler = get_sd_card_handler(sd_seen_c);
    let box_clock = StepClock::new_default_box();

    let router = Router::new_with_clock(RouterConfig::new(vec![sd_handler]), box_clock);
    router.add_side_packed("tx", transmit);
    let data = [1.0_f32, 2.0, 3.0];
    router.log(DataType::named("GPS_DATA"), &data).unwrap();
    let tx_pkt = tx_seen
        .lock()
        .unwrap()
        .clone()
        .expect("no tx packet recorded");
    assert_eq!(tx_pkt.data_type(), DataType::named("GPS_DATA"));
    assert_eq!(tx_pkt.payload().len(), 3 * 4);
    let mut expected = Vec::new();
    for v in data {
        expected.extend_from_slice(&v.to_le_bytes());
    }
    assert_eq!(tx_pkt.payload(), &*expected);
    let (seen_ty, seen_vals) = sd_seen_decoded
        .lock()
        .unwrap()
        .clone()
        .expect("no sd packet recorded");
    assert_eq!(seen_ty, DataType::named("GPS_DATA"));
    assert_eq!(seen_vals, data);
}

#[test]
fn router_load_balancing_smoke_exercises_public_runtime_controls() {

    let seen_a: Arc<Mutex<Vec<Packet>>> = Arc::new(Mutex::new(Vec::new()));
    let seen_b: Arc<Mutex<Vec<Packet>>> = Arc::new(Mutex::new(Vec::new()));
    let seen_a_c = seen_a.clone();
    let seen_b_c = seen_b.clone();

    let router = Router::new_with_clock(RouterConfig::default(), StepClock::new_default_box());
    let side_a = router.add_side_packet("A", move |pkt: &Packet| -> TelemetryResult<()> {
        seen_a_c.lock().unwrap().push(pkt.clone());
        Ok(())
    });
    let side_b = router.add_side_packet("B", move |pkt: &Packet| -> TelemetryResult<()> {
        seen_b_c.lock().unwrap().push(pkt.clone());
        Ok(())
    });

    let discovery_a =
        build_discovery_announce("REMOTE_A", 0, &[DataEndpoint::named("RADIO")]).unwrap();
    let discovery_b =
        build_discovery_announce("REMOTE_B", 1, &[DataEndpoint::named("RADIO")]).unwrap();
    router.rx_from_side(&discovery_a, side_a).unwrap();
    router.rx_from_side(&discovery_b, side_b).unwrap();
    seen_a.lock().unwrap().clear();
    seen_b.lock().unwrap().clear();

    router
        .set_source_route_mode(None, RouteSelectionMode::Weighted)
        .unwrap();
    router.set_route_weight(None, side_a, 1).unwrap();
    router.set_route_weight(None, side_b, 1).unwrap();

    let pkt = Packet::from_f32_slice(
        DataType::named("GPS_DATA"),
        &[1.0, 2.0, 3.0],
        &[DataEndpoint::named("RADIO")],
        1,
    )
    .unwrap();
    let pkt_failover = Packet::from_f32_slice(
        DataType::named("GPS_DATA"),
        &[4.0, 5.0, 6.0],
        &[DataEndpoint::named("RADIO")],
        2,
    )
    .unwrap();
    router.tx(pkt.clone()).unwrap();

    router
        .set_source_route_mode(None, RouteSelectionMode::Failover)
        .unwrap();
    router.set_route_priority(None, side_a, 0).unwrap();
    router.set_route_priority(None, side_b, 1).unwrap();
    router.tx(pkt_failover).unwrap();

    router.clear_route_weight(None, side_a).unwrap();
    router.clear_route_priority(None, side_b).unwrap();
    router.clear_source_route_mode(None).unwrap();

    let total = seen_a.lock().unwrap().len() + seen_b.lock().unwrap().len();
    assert_eq!(total, 2);
}

#[test]
fn relay_load_balancing_smoke_exercises_public_runtime_controls() {
    ensure_common_test_schema();

    let seen_a: Arc<Mutex<Vec<Packet>>> = Arc::new(Mutex::new(Vec::new()));
    let seen_b: Arc<Mutex<Vec<Packet>>> = Arc::new(Mutex::new(Vec::new()));
    let seen_a_c = seen_a.clone();
    let seen_b_c = seen_b.clone();

    let relay = Relay::new(StepClock::new_default_box());
    let ingress = relay.add_side_packet("INGRESS", |_pkt: &Packet| Ok(()));
    let side_a = relay.add_side_packet("A", move |pkt: &Packet| -> TelemetryResult<()> {
        seen_a_c.lock().unwrap().push(pkt.clone());
        Ok(())
    });
    let side_b = relay.add_side_packet("B", move |pkt: &Packet| -> TelemetryResult<()> {
        seen_b_c.lock().unwrap().push(pkt.clone());
        Ok(())
    });

    let discovery_a =
        build_discovery_announce("REMOTE_A", 0, &[DataEndpoint::named("RADIO")]).unwrap();
    let discovery_b =
        build_discovery_announce("REMOTE_B", 1, &[DataEndpoint::named("RADIO")]).unwrap();
    relay.rx_from_side(side_a, discovery_a).unwrap();
    relay.rx_from_side(side_b, discovery_b).unwrap();
    relay.process_all_queues().unwrap();
    seen_a.lock().unwrap().clear();
    seen_b.lock().unwrap().clear();

    relay
        .set_source_route_mode(Some(ingress), RouteSelectionMode::Weighted)
        .unwrap();
    relay.set_route_weight(Some(ingress), side_a, 2).unwrap();
    relay.set_route_weight(Some(ingress), side_b, 1).unwrap();
    relay
        .set_source_route_mode(Some(ingress), RouteSelectionMode::Failover)
        .unwrap();
    relay.set_route_priority(Some(ingress), side_a, 0).unwrap();
    relay.set_route_priority(Some(ingress), side_b, 1).unwrap();

    let pkt = Packet::from_f32_slice(
        DataType::named("GPS_DATA"),
        &[1.0, 2.0, 3.0],
        &[DataEndpoint::named("RADIO")],
        2,
    )
    .unwrap();
    relay.rx_from_side(ingress, pkt).unwrap();
    relay.process_all_queues().unwrap();

    relay.clear_route_weight(Some(ingress), side_a).unwrap();
    relay.clear_route_priority(Some(ingress), side_b).unwrap();
    relay.clear_source_route_mode(Some(ingress)).unwrap();

    let total = count_packets_of_type(
        &seen_a.lock().unwrap(),
        DataType::named("GPS_DATA"),
    ) + count_packets_of_type(
        &seen_b.lock().unwrap(),
        DataType::named("GPS_DATA"),
    );
    assert_eq!(total, 1);
}

#[test]
fn queued_roundtrip_between_two_routers() {
    let (bus, tx_fn) = Tests2TestBus::new();
    let box_clock_tx = StepClock::new_default_box();
    let box_clock_rx = StepClock::new_default_box();

    let tx_router = Router::new_with_clock(Default::default(), box_clock_tx);
    tx_router.add_side_packed("tx", tx_fn);
    let seen: SeenType = Arc::new(Mutex::new(None));
    let seen_c = seen.clone();
    let sd_handler = get_sd_card_handler(seen_c);
    fn tx_handler(_bytes: &[u8]) -> TelemetryResult<()> {
        Ok(())
    }

    let rx_router = Router::new_with_clock(
        RouterConfig::new(vec![sd_handler]),
        box_clock_rx,
    );
    rx_router.add_side_packed("tx", tx_handler);
    let data = [1.0_f32, 2.0, 3.0];
    tx_router
        .log_queue(DataType::named("GPS_DATA"), &data)
        .unwrap();
    tx_router.process_tx_queue().unwrap();
    let frames = bus.frames.lock().unwrap().clone();
    let gps_frames: Vec<Vec<u8>> = frames
        .iter()
        .filter(|frame| {
            packed_frame_type(frame.as_slice()) == Some(DataType::named("GPS_DATA"))
        })
        .cloned()
        .collect();
    assert_eq!(
        gps_frames.len(),
        1,
        "expected exactly one GPS_DATA TX frame"
    );
    for frame in &gps_frames {
        rx_router.rx_packed_queue(frame).unwrap();
    }
    rx_router.process_rx_queue().unwrap();
    let (ty, vals) = seen.lock().unwrap().clone().expect("no packet delivered");
    assert_eq!(ty, DataType::named("GPS_DATA"));
    assert_eq!(vals, data);
}

#[test]
fn queued_self_delivery_via_receive_queue() {
    let (bus, tx_fn) = Tests2TestBus::new();
    let box_clock = StepClock::new_default_box();

    let router = Router::new_with_clock(Default::default(), box_clock);
    router.add_side_packed("tx", tx_fn);
    let data = [10.0_f32, 10.25, 10.5];
    router
        .log_queue(DataType::named("GPS_DATA"), &data)
        .unwrap();

    let data = [10.0_f32, 10.25];
    router
        .log_queue(DataType::named("BATTERY_STATUS"), &data)
        .unwrap();

    let data = [10.0_f32, 10.25, 10.2];
    router
        .log_queue(DataType::named("GPS_DATA"), &data)
        .unwrap();
    router.process_tx_queue().unwrap();
    let frames = bus.frames.lock().unwrap().clone();
    assert_eq!(
        count_packed_frames_of_type(&frames, DataType::named("GPS_DATA")),
        2
    );
    assert_eq!(
        count_packed_frames_of_type(&frames, DataType::named("BATTERY_STATUS")),
        1
    );
    router.rx_packed_queue(&frames[0]).unwrap();
    router.process_rx_queue().unwrap();
}

#[test]
fn tests_p2p_service_port_delivers_http_like_payload_by_hostname_and_address() {
    let server_seen = Arc::new(Mutex::new(Vec::<Vec<u8>>::new()));
    let server_seen_c = server_seen.clone();

    let client = Arc::new(Router::new(
        RouterConfig::default()
            .with_hostname("client-node")
            .with_dynamic_address(),
    ));
    let server = Arc::new(Router::new(
        RouterConfig::default()
            .with_hostname("http-service")
            .with_static_address(0x1020_3040),
    ));
    server
        .bind_p2p_port(80, move |msg| -> TelemetryResult<()> {
            assert_eq!(msg.source_hostname, "client-node");
            assert_eq!(msg.source_port, 49_152);
            assert_eq!(msg.destination_port, 80);
            server_seen_c.lock().unwrap().push(msg.payload.to_vec());
            Ok(())
        })
        .unwrap();

    crosswire(&client, &server);
    exchange_discovery(&client, &server);

    client
        .send_p2p_to_hostname(
            "http-service",
            80,
            49_152,
            b"GET /status HTTP/1.1\r\nHost: http-service\r\n\r\n",
        )
        .unwrap();
    server.process_all_queues().unwrap();
    client.process_all_queues().unwrap();

    client
        .send_p2p_to_address(
            0x1020_3040,
            80,
            49_152,
            b"POST /upload HTTP/1.1\r\nContent-Length: 0\r\n\r\n",
        )
        .unwrap();
    server.process_all_queues().unwrap();
    client.process_all_queues().unwrap();

    let seen = server_seen.lock().unwrap().clone();
    assert_eq!(seen.len(), 2);
    assert!(seen[0].starts_with(b"GET /status HTTP/1.1"));
    assert!(seen[1].starts_with(b"POST /upload HTTP/1.1"));
}

#[test]
fn tests_duplicate_dynamic_addresses_are_shifted_and_reported() {
    let changes = Arc::new(Mutex::new(Vec::<AddressChange>::new()));
    let changes_c = changes.clone();
    let older = Arc::new(Router::new(
        RouterConfig::default()
            .with_hostname("older-dynamic")
            .with_requested_address(77),
    ));
    let newer = Arc::new(Router::new(
        RouterConfig::default()
            .with_hostname("newer-dynamic")
            .with_requested_address(77)
            .on_address_change(move |change| {
                changes_c.lock().unwrap().push(change);
                Ok(())
            }),
    ));
    crosswire(&older, &newer);
    exchange_discovery(&older, &newer);

    assert_eq!(older.current_address(), 77);
    assert_ne!(newer.current_address(), 77);
    let changes = changes.lock().unwrap().clone();
    assert_eq!(changes.len(), 1);
    assert_eq!(changes[0].reason, AddressChangeReason::RequestedConflict);
    assert_eq!(changes[0].old_address, 77);
    assert_eq!(changes[0].new_address, newer.current_address());
}

#[test]
fn tests_static_address_beats_dynamic_and_duplicate_static_older_wins() {
    let static_node = Arc::new(Router::new(
        RouterConfig::default()
            .with_hostname("static-owner")
            .with_static_address(0x55),
    ));
    let dynamic = Arc::new(Router::new(
        RouterConfig::default()
            .with_hostname("dynamic-loser")
            .with_requested_address(0x55),
    ));
    crosswire(&static_node, &dynamic);
    exchange_discovery(&static_node, &dynamic);
    assert_eq!(static_node.current_address(), 0x55);
    assert_ne!(dynamic.current_address(), 0x55);

    let static_changes = Arc::new(Mutex::new(Vec::<AddressChange>::new()));
    let static_changes_c = static_changes.clone();
    let newer_static = Arc::new(Router::new(
        RouterConfig::default()
            .with_hostname("static-newer")
            .with_static_address(0x55)
            .on_address_change(move |change| {
                static_changes_c.lock().unwrap().push(change);
                Ok(())
            }),
    ));
    crosswire(&static_node, &newer_static);
    exchange_discovery(&static_node, &newer_static);

    assert_eq!(static_node.current_address(), 0x55);
    assert_ne!(newer_static.current_address(), 0x55);
    let changes = static_changes.lock().unwrap().clone();
    assert_eq!(changes.len(), 1);
    assert_eq!(changes[0].reason, AddressChangeReason::StaticConflict);
}

#[test]
fn tests_duplicate_hostnames_are_renamed_and_hostname_p2p_uses_discovered_name() {
    let changes = Arc::new(Mutex::new(Vec::<AddressChange>::new()));
    let changes_c = changes.clone();
    let first = Arc::new(Router::new(
        RouterConfig::default()
            .with_hostname("duplicate-host")
            .with_static_address(0x301),
    ));
    let second_seen = Arc::new(Mutex::new(Vec::<Vec<u8>>::new()));
    let second_seen_c = second_seen.clone();
    let second = Arc::new(Router::new(
        RouterConfig::default()
            .with_hostname("duplicate-host")
            .with_static_address(0x302)
            .on_address_change(move |change| {
                changes_c.lock().unwrap().push(change);
                Ok(())
            }),
    ));
    second
        .bind_p2p_port(443, move |msg| {
            second_seen_c.lock().unwrap().push(msg.payload.to_vec());
            Ok(())
        })
        .unwrap();

    crosswire(&first, &second);
    exchange_discovery(&first, &second);

    assert_eq!(first.hostname().as_ref(), "duplicate-host");
    assert_ne!(second.hostname().as_ref(), "duplicate-host");
    let renamed = second.hostname().to_string();
    let changes = changes.lock().unwrap().clone();
    assert_eq!(changes.len(), 1);
    assert_eq!(changes[0].reason, AddressChangeReason::HostnameConflict);

    first
        .send_p2p_to_hostname(&renamed, 443, 50_000, b"GET /secure HTTP/1.1\r\n\r\n")
        .unwrap();
    second.process_all_queues().unwrap();
    first.process_all_queues().unwrap();
    assert_eq!(
        second_seen.lock().unwrap().as_slice(),
        &[b"GET /secure HTTP/1.1\r\n\r\n".to_vec()]
    );
}

#[test]
fn tests_p2p_stream_connects_sends_and_closes_without_datagram_delivery() {
    let client_events = Arc::new(Mutex::new(Vec::<String>::new()));
    let server_events = Arc::new(Mutex::new(Vec::<String>::new()));
    let datagrams = Arc::new(Mutex::new(Vec::<Vec<u8>>::new()));

    let client = Arc::new(Router::new(
        RouterConfig::default()
            .with_hostname("stream-client")
            .with_dynamic_address(),
    ));
    let server = Arc::new(Router::new(
        RouterConfig::default()
            .with_hostname("stream-server")
            .with_static_address(0x4040),
    ));

    let client_events_c = client_events.clone();
    client
        .bind_p2p_stream_port(49_200, move |event| {
            assert!(matches!(
                event.kind,
                P2pStreamEventKind::Connected
                    | P2pStreamEventKind::Data
                    | P2pStreamEventKind::Closed
                    | P2pStreamEventKind::Reset
            ));
            client_events_c.lock().unwrap().push(format!(
                "{:?}:{}:{}:{}:{}",
                event.kind,
                event.stream_id,
                event.peer_stream_id,
                event.sequence,
                String::from_utf8_lossy(event.payload)
            ));
            Ok(())
        })
        .unwrap();

    let server_events_c = server_events.clone();
    server
        .bind_p2p_stream_port(8080, move |event| {
            assert!(matches!(
                event.kind,
                P2pStreamEventKind::Accepted
                    | P2pStreamEventKind::Data
                    | P2pStreamEventKind::Closed
                    | P2pStreamEventKind::Reset
            ));
            server_events_c.lock().unwrap().push(format!(
                "{:?}:{}:{}:{}:{}",
                event.kind,
                event.stream_id,
                event.peer_stream_id,
                event.sequence,
                String::from_utf8_lossy(event.payload)
            ));
            Ok(())
        })
        .unwrap();

    let datagrams_c = datagrams.clone();
    server
        .bind_p2p_port(8080, move |msg| {
            datagrams_c.lock().unwrap().push(msg.payload.to_vec());
            Ok(())
        })
        .unwrap();

    crosswire(&client, &server);
    exchange_discovery(&client, &server);

    let client_stream = client
        .open_p2p_stream_to_hostname("stream-server", 8080, 49_200)
        .unwrap();
    server.process_all_queues().unwrap();
    client.process_all_queues().unwrap();

    let connected = client_events.lock().unwrap().clone();
    assert_eq!(connected.len(), 1);
    assert!(connected[0].starts_with("Connected:"));

    let accepted = server_events.lock().unwrap().clone();
    assert_eq!(accepted.len(), 1);
    assert!(accepted[0].starts_with("Accepted:"));
    let server_stream: u32 = accepted[0].split(':').nth(1).unwrap().parse().unwrap();

    client
        .send_p2p_stream(client_stream, b"GET /stream HTTP/1.1\r\n\r\n")
        .unwrap();
    server.process_all_queues().unwrap();
    client.process_all_queues().unwrap();

    server
        .send_p2p_stream(
            server_stream,
            b"HTTP/1.1 200 OK\r\nContent-Length: 2\r\n\r\nOK",
        )
        .unwrap();
    client.process_all_queues().unwrap();
    server.process_all_queues().unwrap();

    client.close_p2p_stream(client_stream).unwrap();
    server.process_all_queues().unwrap();

    let server_events = server_events.lock().unwrap().clone();
    assert!(
        server_events
            .iter()
            .any(|e| { e.starts_with("Data:") && e.ends_with("GET /stream HTTP/1.1\r\n\r\n") })
    );
    assert!(server_events.iter().any(|e| e.starts_with("Closed:")));

    let client_events = client_events.lock().unwrap().clone();
    assert!(client_events.iter().any(|e| {
        e.starts_with("Data:") && e.ends_with("HTTP/1.1 200 OK\r\nContent-Length: 2\r\n\r\nOK")
    }));

    assert!(datagrams.lock().unwrap().is_empty());
}

fn handler_failure_tests_pick_any_type() -> DataType {
    for i in 0..=MAX_VALUE_DATA_TYPE {
        if let Some(ty) = DataType::try_from_u32(i) {
            return ty;
        }
    }
    panic!("No usable DataType found for tests");
}

fn handler_failure_tests_payload_for(ty: DataType) -> Vec<u8> {
    vec![0u8; test_payload_len_for(ty)]
}

#[test]
fn tests_local_handler_failure_sends_error_packet_to_other_locals() {
    let ty = handler_failure_tests_pick_any_type();
    let ts = 42_u64;
    let failing_ep = DataEndpoint::named("SD_CARD");
    let other_ep = DataEndpoint::TelemetryError;
    let recv_count = Arc::new(AtomicUsize::new(0));
    let last_payload = Arc::new(Mutex::new(String::new()));

    let recv_count_c = recv_count.clone();
    let last_payload_c = last_payload.clone();

    let failing = EndpointHandler::new_packet_handler(failing_ep, |_pkt: &Packet| {
        Err(TelemetryError::BadArg)
    });

    let capturing = EndpointHandler::new_packet_handler(other_ep, move |pkt: &Packet| {
        if pkt.data_type() == DataType::TelemetryError {
            *last_payload_c.lock().unwrap() = pkt.as_string();
        }
        recv_count_c.fetch_add(1, Ordering::SeqCst);
        Ok(())
    });

    let box_clock = StepClock::new_default_box();

    let router = Router::new_with_clock(RouterConfig::new(vec![failing, capturing]), box_clock);

    let pkt = Packet::new(
        ty,
        &[failing_ep, other_ep],
        device_identifier(),
        ts,
        Arc::<[u8]>::from(handler_failure_tests_payload_for(ty)),
    )
    .unwrap();

    handle_errors(router.tx(pkt));
    assert!(
        recv_count.load(Ordering::SeqCst) >= 1,
        "capturing handler should have been invoked at least once"
    );
    let expected = format!(
        "{{Type: SEDSNET_ERROR, Data Size: {:?}, Sender: TEST_PLATFORM, Endpoints: [SEDSNET_ERROR], Timestamp: 0 (0s 000ms), Error: (\"Handler for endpoint {:?} failed on device {:?}: {:?}\")}}",
        69,
        failing_ep,
        device_identifier(),
        TelemetryError::BadArg
    );
    let got = last_payload.lock().unwrap().clone();
    assert_eq!(got, expected, "mismatch in TelemetryError payload text");
}

#[test]
fn tests_tx_failure_sends_error_packet_to_all_local_endpoints() {
    let ty = handler_failure_tests_pick_any_type();
    let ts = 31415_u64;
    let local_ep = DataEndpoint::named("SD_CARD");
    let remote_ep = DataEndpoint::named("RADIO");

    let saw_error = Arc::new(AtomicUsize::new(0));
    let last_payload = Arc::new(Mutex::new(String::new()));
    let saw_error_c = saw_error.clone();
    let last_payload_c = last_payload.clone();

    let capturing = EndpointHandler::new_packet_handler(local_ep, move |pkt: &Packet| {
        if pkt.data_type() == DataType::TelemetryError {
            *last_payload_c.lock().unwrap() = pkt.as_string();
            saw_error_c.fetch_add(1, Ordering::SeqCst);
        }
        Ok(())
    });

    let tx_fail =
        |_bytes: &[u8]| -> TelemetryResult<()> { Err(TelemetryError::Io("boom")) };
    let box_clock = StepClock::new_default_box();

    let router = Router::new_with_clock(RouterConfig::new(vec![capturing]), box_clock);
    router.add_side_packed("tx", tx_fail);

    let pkt = Packet::new(
        ty,
        &[local_ep, remote_ep],
        "router_test",
        ts,
        Arc::<[u8]>::from(handler_failure_tests_payload_for(ty)),
    )
    .unwrap();

    handle_errors(router.tx(pkt));

    assert!(
        saw_error.load(Ordering::SeqCst) >= 1,
        "local handler should have received TelemetryError after TX failures"
    );
    let expected = format!(
        "{{Type: SEDSNET_ERROR, Data Size: {:?}, Sender: TEST_PLATFORM, Endpoints: [SD_CARD], Timestamp: 0 (0s 000ms), Error: (\"TX Handler failed on device {:?}: {:?}\")}}",
        55,
        device_identifier(),
        TelemetryError::Io("boom")
    );
    let got = last_payload.lock().unwrap().clone();
    assert_eq!(got, expected, "mismatch in TelemetryError payload text");
}

fn timeout_tests_mk_rx_only_local(vals: &[f32], ts: u64) -> Packet {
    Packet::from_f32_slice(
        DataType::named("GPS_DATA"),
        vals,
        &[DataEndpoint::named("SD_CARD")],
        ts,
    )
    .unwrap()
}

fn timeout_tests_tx_counter(
    counter: Arc<AtomicUsize>,
) -> impl Fn(&[u8]) -> TelemetryResult<()> + Send + Sync + 'static {
    move |bytes: &[u8]| {
        assert!(!bytes.is_empty());
        if packed_frame_type(bytes) == Some(DataType::named("GPS_DATA")) {
            counter.fetch_add(1, Ordering::SeqCst);
        }
        Ok(())
    }
}

#[test]
fn process_all_queues_timeout_zero_drains_fully() {
    let tx_count = Arc::new(AtomicUsize::new(0));
    let tx = timeout_tests_tx_counter(tx_count.clone());

    let rx_count = Arc::new(AtomicUsize::new(0));
    let rx_count_c = rx_count.clone();
    let handler = EndpointHandler::new_packet_handler(
        DataEndpoint::named("SD_CARD"),
        move |_pkt: &Packet| {
            rx_count_c.fetch_add(1, Ordering::SeqCst);
            Ok(())
        },
    );

    let box_clock = StepClock::new_default_box();

    let r = Router::new_with_clock(RouterConfig::new(vec![handler]), box_clock);
    r.add_side_packed("tx", tx);
    for i in 0..3usize {
        let base = 1.0_f32 + i as f32;
        r.log_queue(DataType::named("GPS_DATA"), &[base, 2.0, 3.0])
            .unwrap();
    }
    for i in 0..2u64 {
        r.rx_queue(timeout_tests_mk_rx_only_local(&[9.0 + i as f32, 8.0, 7.0], 123 + i))
            .unwrap();
    }
    r.process_all_queues_with_timeout(0).unwrap();
    assert_eq!(
        tx_count.load(Ordering::SeqCst),
        3,
        "all TX packets should be sent"
    );
    assert_eq!(
        rx_count.load(Ordering::SeqCst),
        5,
        "handler sees TX+RX packets"
    );
}

#[test]
fn process_all_queues_respects_nonzero_timeout_budget_one_receive_one_send() {
    let tx_count = Arc::new(AtomicUsize::new(0));
    let tx = timeout_tests_tx_counter(tx_count.clone());

    let rx_count = Arc::new(AtomicUsize::new(0));
    let rx_count_c = rx_count.clone();
    let handler = get_handler(rx_count_c);
    let r = Router::new_with_clock(
        RouterConfig::new(vec![handler]),
        Box::new(|| UnixClock.now_ms()),
    );
    r.add_side_packed("tx", tx);
    for i in 0..5u64 {
        let base_tx = 1.0_f32 + i as f32;
        r.log_queue(DataType::named("GPS_DATA"), &[base_tx, 2.0, 3.0])
            .unwrap();
        r.rx_queue(
            Packet::from_f32_slice(
                DataType::named("GPS_DATA"),
                &[4.0 + i as f32, 5.0, 6.0],
                &[DataEndpoint::named("SD_CARD")],
                1 + i,
            )
            .unwrap(),
        )
        .unwrap();
    }
    r.process_all_queues_with_timeout(5).unwrap();

    let first_tx = tx_count.load(Ordering::SeqCst);
    let first_rx = rx_count.load(Ordering::SeqCst);
    assert!(
        first_tx + first_rx > 0,
        "expected some work to be done with non-zero timeout"
    );
    assert!(
        first_tx <= 5 && first_rx <= 10,
        "processed more items than were queued (tx={first_tx}, rx={first_rx})"
    );
    r.process_all_queues_with_timeout(0).unwrap();
    assert_eq!(tx_count.load(Ordering::SeqCst), 5);
    assert_eq!(rx_count.load(Ordering::SeqCst), 10);
}

#[test]
fn process_all_queues_respects_nonzero_timeout_budget_two_receive_one_send() {
    ensure_common_test_schema();
    let tx_count = Arc::new(AtomicUsize::new(0));
    let tx = timeout_tests_tx_counter(tx_count.clone());

    let rx_count = Arc::new(AtomicUsize::new(0));
    let rx_count_c = rx_count.clone();
    let handler = get_handler(rx_count_c);
    let clock = StepClock::new_box(0, 5);

    let r = Router::new_with_clock(RouterConfig::new(vec![handler]), clock);
    r.add_side_packed("tx", tx);
    for i in 0..5u64 {
        let base_tx = 1.0_f32 + i as f32;
        r.log_queue(DataType::named("GPS_DATA"), &[base_tx, 2.0, 3.0])
            .unwrap();

        r.rx_queue(
            Packet::from_f32_slice(
                DataType::named("GPS_DATA"),
                &[4.0 + i as f32, 5.0, 6.0],
                &[DataEndpoint::named("SD_CARD")],
                1 + i,
            )
            .unwrap(),
        )
        .unwrap();
    }
    r.process_all_queues_with_timeout(10).unwrap();

    let first_tx = tx_count.load(Ordering::SeqCst);
    let first_rx = rx_count.load(Ordering::SeqCst);
    assert!(
        first_tx + first_rx > 0,
        "expected some work to be done before the timeout budget expired"
    );
    assert!(first_tx <= 1, "first pass should do at most one GPS TX");
    assert!(
        first_rx <= 2,
        "first pass should do at most one loop of RX work"
    );
    r.process_all_queues_with_timeout(0).unwrap();
    assert_eq!(tx_count.load(Ordering::SeqCst), 5);
    assert_eq!(rx_count.load(Ordering::SeqCst), 10);
}

#[test]
fn process_all_queues_handles_u64_wraparound() {
    let tx_count = Arc::new(AtomicUsize::new(0));
    let tx = timeout_tests_tx_counter(tx_count.clone());

    let rx_count = Arc::new(AtomicUsize::new(0));
    let rx_count_c = rx_count.clone();
    let handler = get_handler(rx_count_c);
    let start = u64::MAX - 1;
    let clock = StepClock::new_box(start, 2);
    let r = Router::new_with_clock(RouterConfig::new(vec![handler]), clock);
    r.add_side_packed("tx", tx);
    r.log_queue(DataType::named("GPS_DATA"), &[1.0_f32, 2.0, 3.0])
        .unwrap();
    r.rx_queue(timeout_tests_mk_rx_only_local(&[4.0, 5.0, 6.0], 7)).unwrap();
    r.process_all_queues_with_timeout(1).unwrap();
    assert!(tx_count.load(Ordering::SeqCst) <= 1, "expected <=1 TX");
    assert!(
        rx_count.load(Ordering::SeqCst) <= 2,
        "local handler can be invoked by TX local delivery (+1) and RX (+1)"
    );
    assert!(tx_count.load(Ordering::SeqCst) + rx_count.load(Ordering::SeqCst) >= 1);
}

#[test]
fn process_all_queues_timeout_does_not_starve_rx_after_slow_tx() {

    struct ManualClock {
        now_ms: Arc<AtomicU64>,
    }

    impl Clock for ManualClock {
        fn now_ms(&self) -> u64 {
            self.now_ms.load(Ordering::SeqCst)
        }
    }

    let now_ms = Arc::new(AtomicU64::new(0));
    let tx_count = Arc::new(AtomicUsize::new(0));
    let tx_count_c = tx_count.clone();
    let now_ms_c = now_ms.clone();
    let seen_remote: Arc<Mutex<Vec<Packet>>> = Arc::new(Mutex::new(Vec::new()));
    let seen_remote_c = seen_remote.clone();

    let router = Router::new_with_clock(
        RouterConfig::new(vec![EndpointHandler::new_packet_handler(
            DataEndpoint::named("RADIO"),
            |_pkt| Ok(()),
        )]),
        Box::new(ManualClock {
            now_ms: now_ms.clone(),
        }),
    );
    let side_remote =
        router.add_side_packet("REMOTE", move |pkt: &Packet| -> TelemetryResult<()> {
            tx_count_c.fetch_add(1, Ordering::SeqCst);
            now_ms_c.store(2, Ordering::SeqCst);
            seen_remote_c.lock().unwrap().push(pkt.clone());
            Ok(())
        });

    router
        .log_queue(DataType::named("GPS_DATA"), &[1.0_f32, 2.0, 3.0])
        .unwrap();
    let discovery_pkt =
        build_discovery_announce("REMOTE_NODE", 0, &[DataEndpoint::named("RADIO")]).unwrap();
    let discovery_bytes = pack_packet(&discovery_pkt);
    router
        .rx_packed_queue_from_side(discovery_bytes.as_ref(), side_remote)
        .unwrap();

    router.process_all_queues_with_timeout(2).unwrap();

    assert_eq!(tx_count.load(Ordering::SeqCst), 1);
    let topo = router.export_topology();
    assert_eq!(topo.routes.len(), 1);
    assert_eq!(
        topo.routes[0].reachable_endpoints,
        vec![DataEndpoint::named("RADIO")]
    );
}

fn tests_extra_zero_clock() -> Box<dyn Clock + Send + Sync> {
    Box::new(|| 0u64)
}

fn tests_extra_matches_deser_err(e: TelemetryError) {
    match e {
        TelemetryError::Unpack(_) => {}
        other => panic!("expected Unpack error, got {other:?}"),
    }
}

fn tests_extra_rewrite_crc32(buf: &mut [u8]) {
    if buf.len() < CRC32_BYTES {
        return;
    }
    let data_len = buf.len() - CRC32_BYTES;
    let mut hasher = Hasher::new();
    hasher.update(&buf[..data_len]);
    let crc = hasher.finalize();
    buf[data_len..].copy_from_slice(&crc.to_le_bytes());
}

#[test]
fn error_enum_code_roundtrip_and_strings() {
    let samples = [
        TelemetryError::InvalidType,
        TelemetryError::EmptyEndpoints,
        TelemetryError::Unpack("oops"),
        TelemetryError::Io("disk"),
        TelemetryError::HandlerError("fail"),
        TelemetryError::MissingPayload,
        TelemetryError::TimestampInvalid,
    ];
    for e in samples {
        let code = e.to_error_code();
        assert!(code.as_str().starts_with('{'));
        let back = TelemetryErrorCode::try_from_i32(code.as_i32());
        assert!(back.is_some(), "roundtrip failed for {code:?}");
    }
}

#[test]
fn unpack_header_only_short_buffer_fails() {
    let tiny = [0x00u8];
    let err = peek_envelope(&tiny).unwrap_err();
    tests_extra_matches_deser_err(err);
    let truncated = [0x00u8, 0x80];
    let err = peek_envelope(&truncated).unwrap_err();
    tests_extra_matches_deser_err(err);
}

#[test]
fn header_size_is_prefix_of_wire_image() {
    let pkt = Packet::from_f32_slice(
        DataType::named("GPS_DATA"),
        &[1.0, 2.0, 3.0],
        &[DataEndpoint::named("SD_CARD"), DataEndpoint::named("RADIO")],
        123,
    )
    .unwrap();

    let wire = pack_packet(&pkt);
    let hdr = header_size_bytes(&pkt);
    assert!(hdr <= wire.len());
    assert!(hdr > 0);
}

#[test]
fn packer_is_canonical_roundtrip() {
    let msg = "hello world";
    let pkt = Packet::from_str_slice(
        DataType::TelemetryError,
        msg,
        &[DataEndpoint::named("SD_CARD"), DataEndpoint::named("RADIO")],
        0,
    )
    .unwrap();

    let wire1 = pack_packet(&pkt);
    let pkt2 = unpack_packet(&wire1).unwrap();
    let wire2 = pack_packet(&pkt2);
    assert_eq!(&*wire1, &*wire2, "packer must be canonical");
}

#[test]
fn pack_unpack_roundtrip_matches_packet_identity() {
    let pkt = Packet::from_str_slice(
        DataType::TelemetryError,
        "pack/unpack roundtrip check",
        &[DataEndpoint::TelemetryError],
        456,
    )
    .unwrap();

    let packed = pack_packet(&pkt);
    assert_eq!(packed, pack_packet(&pkt));

    let unpacked = unpack_packet(&packed).unwrap();
    assert_eq!(unpacked.packet_id(), pkt.packet_id());
    assert_eq!(unpacked.payload(), pkt.payload());
}

#[test]
fn packer_varint_scalars_grow_as_expected() {

    fn non_rle_ascii(len: usize) -> Vec<u8> {
        let mut out = Vec::with_capacity(len);
        for i in 0..len {
            out.push(b'a' + ((i % 26) as u8));
        }
        out
    }
    fn pkt_with(len: usize, sender_len: usize, ts: u64) -> Packet {
        let sender_bytes = non_rle_ascii(sender_len);
        let s: String = sender_bytes.iter().map(|b| char::from(*b)).collect();
        let payload = non_rle_ascii(len);
        Packet::new(
            DataType::TelemetryError,
            &[DataEndpoint::named("SD_CARD")],
            &s,
            ts,
            Arc::<[u8]>::from(payload),
        )
        .unwrap()
    }
    let p1 = pkt_with(10, 5, 0x7F);
    let w1 = pack_packet(&p1);
    let h1 = header_size_bytes(&p1);
    assert!(h1 > 4, "NEP + 4 one-byte varints minimum");
    let p2 = pkt_with(200, 200, 0x7F);
    let w2 = pack_packet(&p2);
    let h2 = header_size_bytes(&p2);
    assert!(w2.len() > w1.len(), "wire should grow with larger varints");
    assert!(h2 >= h1, "header should not shrink with larger varints");
    let p3 = pkt_with(200, 200, 1u64 << 40);
    let w3 = pack_packet(&p3);
    let h3 = header_size_bytes(&p3);
    assert!(
        w3.len() > w2.len(),
        "wire should grow with larger timestamp"
    );
    assert!(h3 > h2, "header should grow with larger timestamp");
    assert_eq!(packet_wire_size(&p3), w3.len());
}

#[test]
fn endpoints_bitpack_roundtrip_many_and_extremes() {
    let mut eps = Vec::<DataEndpoint>::new();
    for i in 0..=MAX_VALUE_DATA_ENDPOINT {
        if let Some(ep) = DataEndpoint::try_from_u32(i) {
            eps.push(ep);
        }
    }
    let mut endpoints = Vec::new();
    for _ in 0..4 {
        endpoints.extend_from_slice(&eps);
    }
    let payload = vec![0x55u8; 257];
    let pkt = Packet::new(
        DataType::TelemetryError,
        &endpoints,
        "sender",
        123456,
        Arc::<[u8]>::from(payload),
    )
    .unwrap();

    let wire = pack_packet(&pkt);
    let back = unpack_packet(&wire).unwrap();
    let has_all_endpoints = back.endpoints().iter().all(|ep| endpoints.contains(ep));
    assert!(has_all_endpoints, "endpoints must roundtrip 1:1");
    assert_eq!(back.data_type(), pkt.data_type());
    assert_eq!(back.timestamp(), pkt.timestamp());
    assert_eq!(back.payload(), pkt.payload());
    assert_eq!(packet_wire_size(&pkt), wire.len());
}

#[test]
fn peek_envelope_matches_full_parse_on_large_values() {

    let sender = "S".repeat(10_000);
    let payload = vec![b'h'; 4096];
    let ts = (1u64 << 40) + 123;

    let pkt = Packet::new(
        DataType::TelemetryError,
        &[DataEndpoint::named("SD_CARD"), DataEndpoint::named("RADIO")],
        &sender,
        ts,
        Arc::<[u8]>::from(payload),
    )
    .unwrap();

    let wire = pack_packet(&pkt);
    assert!(
        !wire
            .windows(sender.len())
            .any(|window| window == sender.as_bytes()),
        "sender hostname must be discovery/config metadata, not packet-header bytes"
    );
    let env = peek_envelope(&wire).unwrap();
    let full = unpack_packet(&wire).unwrap();

    assert_eq!(env.ty, pkt.data_type());
    assert_eq!(env.sender.as_ref(), pkt.sender());
    assert_eq!(env.timestamp_ms, pkt.timestamp());
    assert_eq!(&*env.endpoints, pkt.endpoints());

    assert_eq!(full.data_type(), pkt.data_type());
    assert_eq!(full.timestamp(), pkt.timestamp());
    assert_eq!(full.endpoints(), pkt.endpoints());
    assert_eq!(full.payload(), pkt.payload());
}

#[test]
fn corrupt_endpoint_bits_yields_bad_endpoint_error() {
    let bits = 32 - MAX_VALUE_DATA_ENDPOINT.leading_zeros();
    let ep_bits: u8 = if bits == 0 { 1 } else { bits as u8 };
    let upper_val = (1u64 << ep_bits) - 1;
    if upper_val as u32 <= MAX_VALUE_DATA_ENDPOINT {
        return;
    }
    let pkt = Packet::from_f32_slice(
        DataType::named("GPS_DATA"),
        &[1.0, 2.0, 3.0],
        &[DataEndpoint::named("SD_CARD")],
        123,
    )
    .unwrap();
    let mut wire = pack_packet(&pkt).to_vec();
    let ep_offset = header_size_bytes(&pkt);
    assert!(ep_offset < wire.len());
    let mut v = upper_val;
    for (bitpos, _) in (0..ep_bits).enumerate() {
        let byte_idx = ep_offset + (bitpos / 8);
        let bit_off = bitpos % 8;
        if (v & 1) != 0 {
            wire[byte_idx] |= 1 << bit_off;
        } else {
            wire[byte_idx] &= !(1 << bit_off);
        }
        v >>= 1;
    }
    tests_extra_rewrite_crc32(&mut wire);
    let err = unpack_packet(&wire).unwrap_err();
    match err {
        TelemetryError::Unpack(msg) if msg.contains("endpoint") => {}
        other => panic!("expected bad endpoint unpack error, got {other:?}"),
    }
}

#[test]
fn header_size_is_prefix_and_less_than_total() {

    let pkt = Packet::from_f32_slice(
        DataType::named("GPS_DATA"),
        &[1.0, 2.0, 3.0],
        &[DataEndpoint::named("SD_CARD"), DataEndpoint::named("RADIO")],
        999,
    )
    .unwrap();

    let wire = pack_packet(&pkt);
    let hdr = header_size_bytes(&pkt);

    assert!(hdr > 0 && hdr < wire.len());
    assert_eq!(packet_wire_size(&pkt), wire.len());
}

#[test]
fn data_as_utf8_ref_trims_trailing_nuls() {
    let ty = DataType::TelemetryError;
    let mut buf = vec![0u8; test_payload_len_for(ty)];

    let s = b"hello\0\0";
    buf[..s.len()].copy_from_slice(s);

    let pkt = Packet::new(
        ty,
        &[DataEndpoint::named("SD_CARD")],
        "tester",
        0,
        Arc::<[u8]>::from(buf),
    )
    .unwrap();

    assert_eq!(pkt.data_as_utf8_ref(), Some("hello"));
}

#[test]
fn clear_queues_prevents_further_processing() {
    let tx_count = Arc::new(AtomicUsize::new(0));
    let tx_count_c = tx_count.clone();
    let tx = move |bytes: &[u8]| -> TelemetryResult<()> {
        assert!(!bytes.is_empty());
        tx_count_c.fetch_add(1, Ordering::SeqCst);
        Ok(())
    };
    let rx_count = Arc::new(AtomicUsize::new(0));
    let rx_count_c = rx_count.clone();
    let handler = EndpointHandler::new_packet_handler(
        DataEndpoint::named("SD_CARD"),
        move |_pkt: &Packet| {
            rx_count_c.fetch_add(1, Ordering::SeqCst);
            Ok(())
        },
    );

    let r = Router::new_with_clock(RouterConfig::new(vec![handler]), tests_extra_zero_clock());
    r.add_side_packed("tx", tx);
    let pkt_tx = Packet::from_f32_slice(
        DataType::named("GPS_DATA"),
        &[1.0_f32, 2.0, 3.0],
        &[DataEndpoint::named("SD_CARD"), DataEndpoint::named("RADIO")],
        0,
    )
    .unwrap();
    let pkt_rx = Packet::from_f32_slice(
        DataType::named("GPS_DATA"),
        &[4.0_f32, 5.0, 6.0],
        &[DataEndpoint::named("SD_CARD")],
        0,
    )
    .unwrap();

    r.tx_queue(pkt_tx).unwrap();
    r.rx_queue(pkt_rx).unwrap();
    r.clear_queues();

    r.process_all_queues().unwrap();
    assert_eq!(
        tx_count.load(Ordering::SeqCst),
        0,
        "should not TX after clear"
    );
    assert_eq!(
        rx_count.load(Ordering::SeqCst),
        0,
        "should not RX after clear"
    );
}

#[test]
fn local_handler_retry_attempts_are_three() {
    const EXPECTED_ATTEMPTS: usize = 3;

    let counter = Arc::new(AtomicUsize::new(0));
    let counter_c = counter.clone();
    let failing = EndpointHandler::new_packet_handler(
        DataEndpoint::named("SD_CARD"),
        move |_pkt: &Packet| {
            counter_c.fetch_add(1, Ordering::SeqCst);
            Err(TelemetryError::BadArg)
        },
    );
    let r = Router::new_with_clock(RouterConfig::new(vec![failing]), tests_extra_zero_clock());
    let pkt = Packet::from_f32_slice(
        DataType::named("GPS_DATA"),
        &[1.0_f32, 2.0, 3.0],
        &[DataEndpoint::named("SD_CARD")],
        0,
    )
    .unwrap();
    let res = r.tx(pkt);
    match res {
        Err(TelemetryError::HandlerError(_)) => {}
        other => panic!("expected HandlerError after retries, got {other:?}"),
    }

    assert_eq!(
        counter.load(Ordering::SeqCst),
        EXPECTED_ATTEMPTS,
        "handler should be invoked exactly {EXPECTED_ATTEMPTS} times"
    );
}

#[test]
fn from_f32_slice_builds_valid_packet() {
    let need = test_payload_len_for(DataType::named("GPS_DATA")) / 4;
    assert_eq!(need, 3);

    let bytes = vec![5.3f32; need];
    let pkt = Packet::from_f32_slice(
        DataType::named("GPS_DATA"),
        &bytes,
        &[DataEndpoint::named("SD_CARD")],
        12345,
    )
    .unwrap();

    assert_eq!(pkt.payload().len(), 12);
    assert_eq!(pkt.data_size(), 12);
    assert_eq!(pkt.timestamp(), 12345);
}

#[test]
fn from_none_slice_builds_valid_packet() {
    let need = 0;
    assert_eq!(need, 0);

    let pkt = Packet::from_no_data(
        DataType::named("HEARTBEAT"),
        &[DataEndpoint::named("SD_CARD")],
        12345,
    )
    .unwrap();

    assert_eq!(pkt.payload().len(), 0);
    assert_eq!(pkt.data_size(), 0);
    assert_eq!(pkt.timestamp(), 12345);
}

#[test]
fn unpack_header_only_then_full_parse_matches() {
    let endpoints = &[DataEndpoint::named("SD_CARD"), DataEndpoint::named("RADIO")];
    let pkt = Packet::from_f32_slice(
        DataType::named("GPS_DATA"),
        &[5.25_f32, 3.5, 1.0],
        endpoints,
        42,
    )
    .unwrap();
    let wire = pack_packet(&pkt);

    let env = peek_envelope(&wire).unwrap();
    assert_eq!(env.ty, pkt.data_type());
    assert_eq!(&*env.endpoints, pkt.endpoints());
    assert_eq!(env.sender.as_ref(), pkt.sender());
    assert_eq!(env.timestamp_ms, pkt.timestamp());

    let round = unpack_packet(&wire).unwrap();
    round.validate().unwrap();
    assert_eq!(round.data_type(), pkt.data_type());
    assert_eq!(round.data_size(), pkt.data_size());
    assert_eq!(round.timestamp(), pkt.timestamp());
    assert_eq!(round.endpoints(), pkt.endpoints());
    assert_eq!(round.payload(), pkt.payload());
}

#[test]
fn tx_failure_emits_error_to_local_endpoints() {
    let failing_tx = |_bytes: &[u8]| -> TelemetryResult<()> { Err(TelemetryError::Io("boom")) };
    let last_payload = Arc::new(Mutex::new(String::new()));
    let last_payload_c = last_payload.clone();

    let capturing = EndpointHandler::new_packet_handler(
        DataEndpoint::named("SD_CARD"),
        move |pkt: &Packet| {
            if pkt.data_type() == DataType::TelemetryError {
                *last_payload_c.lock().unwrap() = pkt.as_string();
            }
            Ok(())
        },
    );

    let r = Router::new_with_clock(RouterConfig::new(vec![capturing]), tests_extra_zero_clock());
    r.add_side_packed("tx", failing_tx);
    let pkt = Packet::from_f32_slice(
        DataType::named("GPS_DATA"),
        &[1.0_f32, 2.0, 3.0],
        &[DataEndpoint::named("SD_CARD"), DataEndpoint::named("RADIO")],
        7,
    )
    .unwrap();

    let res = r.tx(pkt);
    match res {
        Err(TelemetryError::HandlerError(_)) => {}
        other => panic!("expected HandlerError from TX failure, got {other:?}"),
    }
    let got = last_payload.lock().unwrap().clone();
    assert!(
        !got.is_empty(),
        "expected TelemetryError to be delivered locally after TX failure"
    );
}

fn tests_more_zero_clock() -> Box<dyn Clock + Send + Sync> {
    Box::new(|| 0u64)
}

fn tests_more_concrete_len_for_test(ty: DataType) -> usize {
    match message_meta(ty).element {
        MessageElement::Static(_, _, _) => get_needed_message_size(ty),
        MessageElement::Dynamic(_, _) => {
            let w = match get_data_type(ty) {
                MessageDataType::UInt8 | MessageDataType::Int8 | MessageDataType::Bool => 1,
                MessageDataType::UInt16 | MessageDataType::Int16 => 2,
                MessageDataType::UInt32 | MessageDataType::Int32 | MessageDataType::Float32 => {
                    4
                }
                MessageDataType::UInt64 | MessageDataType::Int64 | MessageDataType::Float64 => {
                    8
                }
                MessageDataType::UInt128 | MessageDataType::Int128 => 16,
                MessageDataType::String | MessageDataType::Binary => 1,
                MessageDataType::NoData => 0,
            };
            let elems = element_count(ty).max(1);
            std::cmp::max(1, w * elems)
        }
    }
}

fn tests_more_ensure_compact_reliable_test_type() -> (DataType, DataEndpoint) {
    let ep = DataEndpoint::try_named("COMPACT_RELIABLE_EP").unwrap_or_else(|| {
        register_endpoint_with_description(
            "COMPACT_RELIABLE_EP",
            "compact reliable test endpoint",
            false,
        )
        .unwrap_or_else(|_| DataEndpoint::named("COMPACT_RELIABLE_EP"))
    });
    let ty = DataType::try_named("COMPACT_RELIABLE_TYPE").unwrap_or_else(|| {
        register_data_type_with_description(
            "COMPACT_RELIABLE_TYPE",
            "compact reliable test type",
            MessageElement::Static(3, MessageDataType::Float32, MessageClass::Data),
            &[ep],
            ReliableMode::Ordered,
            1,
        )
        .unwrap_or_else(|_| DataType::named("COMPACT_RELIABLE_TYPE"))
    });
    (ty, ep)
}

fn tests_more_append_crc32(buf: &mut Vec<u8>) {
    let mut hasher = Hasher::new();
    hasher.update(buf);
    let crc = hasher.finalize();
    buf.extend_from_slice(&crc.to_le_bytes());
}

#[test]
fn packet_validate_rejects_empty_endpoints_and_size_mismatch() {
    let ty = DataType::named("GPS_DATA");
    let need = tests_more_concrete_len_for_test(ty);

    let err = Packet::new(ty, &[], "x", 0, Arc::<[u8]>::from(vec![0u8; need])).unwrap_err();
    assert!(matches!(err, TelemetryError::EmptyEndpoints));
    let err = Packet::new(
        ty,
        &[DataEndpoint::named("SD_CARD")],
        "x",
        0,
        Arc::<[u8]>::from(vec![0u8; need + 1]),
    )
    .unwrap_err();
    assert!(matches!(err, TelemetryError::SizeMismatch { .. }));
}

#[test]
fn enum_conversion_bounds_and_rejections() {
    let max_ty = current_max_data_type_id();
    assert!(DataType::try_from_u32(max_ty).is_some());
    assert!(DataType::try_from_u32(MAX_VALUE_DATA_TYPE + 1).is_none());

    let max_ep = current_max_endpoint_id();
    assert!(DataEndpoint::try_from_u32(max_ep).is_some());
    assert!(DataEndpoint::try_from_u32(MAX_VALUE_DATA_ENDPOINT + 1).is_none());

    let min = MIN_CODE;
    let max = MAX_CODE;
    assert!(TelemetryErrorCode::try_from_i32(min).is_some());
    assert!(TelemetryErrorCode::try_from_i32(max).is_some());
    assert!(TelemetryErrorCode::try_from_i32(min - 1).is_none());
    assert!(TelemetryErrorCode::try_from_i32(max + 1).is_none());
}

#[test]
fn packet_wire_size_matches_packed_len() {
    let endpoints = &[DataEndpoint::named("SD_CARD"), DataEndpoint::named("RADIO")];
    let pkt =
        Packet::from_f32_slice(DataType::named("GPS_DATA"), &[1.0, 2.0, 3.0], endpoints, 9)
            .unwrap();
    let need = packet_wire_size(&pkt);
    let out = pack_packet(&pkt);
    assert_eq!(need, out.len());
}

#[test]
fn schema_default_endpoints_omit_wire_bitmap_but_custom_endpoints_keep_it() {
    ensure_common_test_schema();
    let ty = DataType::named("GPS_DATA");
    let mut default_eps = message_meta(ty).endpoints.to_vec();
    default_eps.sort_unstable();
    let subset_eps = &default_eps[..1];

    let default_pkt = Packet::from_f32_slice(ty, &[1.0, 2.0, 3.0], &default_eps, 9)
        .unwrap()
        .with_nonce(7);
    let subset_pkt = Packet::from_f32_slice(ty, &[1.0, 2.0, 3.0], subset_eps, 9)
        .unwrap()
        .with_nonce(7);

    let default_wire = pack_packet(&default_pkt);
    let subset_wire = pack_packet(&subset_pkt);
    let bitmap_bytes = ((MAX_VALUE_DATA_ENDPOINT as usize) + 1).div_ceil(8);

    assert_eq!(
        default_wire[0] & 0x20,
        0,
        "default endpoint set omits bitmap"
    );
    assert_ne!(
        subset_wire[0] & 0x20,
        0,
        "custom endpoint set carries bitmap"
    );
    assert_eq!(subset_wire.len(), default_wire.len() + bitmap_bytes);

    let default_round = unpack_packet(&default_wire).unwrap();
    let subset_round = unpack_packet(&subset_wire).unwrap();
    assert_eq!(default_round.endpoints(), default_eps.as_slice());
    assert_eq!(subset_round.endpoints(), subset_eps);
    assert_eq!(
        packet_id_from_wire(&default_wire).unwrap(),
        default_pkt.packet_id()
    );
    assert_eq!(
        packet_id_from_wire(&subset_wire).unwrap(),
        subset_pkt.packet_id()
    );
}

#[test]
fn compact_reliable_header_roundtrips_and_shrinks_data_frames() {
    let (ty, ep) = tests_more_ensure_compact_reliable_test_type();
    let pkt = Packet::from_f32_slice(ty, &[1.0, 2.0, 3.0], &[ep], 9)
        .unwrap()
        .with_nonce(7);

    let compact = pack_packet_with_reliable(
        &pkt,
        ReliableHeader {
            flags: 0,
            seq: 1,
            ack: 0,
        },
    );
    let fixed = pack_packet_with_reliable(
        &pkt,
        ReliableHeader {
            flags: 0,
            seq: u32::MAX,
            ack: u32::MAX,
        },
    );

    assert_ne!(
        compact[0] & 0x40,
        0,
        "small seq uses compact reliable header"
    );
    assert_eq!(
        fixed[0] & 0x40,
        0,
        "large seq+ack keeps fixed reliable header"
    );
    assert!(compact.len() + 7 <= fixed.len());

    let info = peek_frame_info(&compact).unwrap();
    assert_eq!(
        info.reliable,
        Some(ReliableHeader {
            flags: 0,
            seq: 1,
            ack: 0
        })
    );
    assert_eq!(
        unpack_packet(&compact).unwrap().packet_id(),
        pkt.packet_id()
    );
}

#[test]
fn compact_reliable_ack_and_owned_rewrite_roundtrip() {
    let (ty, ep) = tests_more_ensure_compact_reliable_test_type();
    let ack = pack_reliable_ack("DST", ty, 0, 3);
    assert_ne!(
        ack[0] & 0x40,
        0,
        "small ACK-only frame uses compact reliable header"
    );
    let ack_info = peek_frame_info(&ack).unwrap();
    assert_eq!(
        ack_info.reliable,
        Some(ReliableHeader {
            flags: RELIABLE_FLAG_ACK_ONLY,
            seq: 0,
            ack: 3
        })
    );

    let pkt = Packet::from_f32_slice(ty, &[4.0, 5.0, 6.0], &[ep], 10).unwrap();
    let fixed = pack_packet_with_reliable(
        &pkt,
        ReliableHeader {
            flags: 0,
            seq: u32::MAX,
            ack: u32::MAX,
        },
    );
    let rewritten = rewrite_reliable_header_owned(&fixed, 0, 4, 0)
        .unwrap()
        .expect("reliable header present");
    assert_ne!(rewritten[0] & 0x40, 0);
    assert!(rewritten.len() < fixed.len());
    assert_eq!(
        peek_frame_info(&rewritten).unwrap().reliable,
        Some(ReliableHeader {
            flags: 0,
            seq: 4,
            ack: 0
        })
    );
}

#[test]
fn packed_only_handlers_do_not_unpack() {
    let pkt = Packet::from_f32_slice(
        DataType::named("GPS_DATA"),
        &[1.0, 2.0, 3.0],
        &[DataEndpoint::named("SD_CARD")],
        123,
    )
    .unwrap();
    let wire = pack_packet(&pkt);

    let called = Arc::new(AtomicUsize::new(0));
    let c = called.clone();
    let handler = EndpointHandler::new_packed_handler(
        DataEndpoint::named("SD_CARD"),
        move |bytes: &[u8]| {
            assert!(bytes.len() >= header_size_bytes(&pkt));
            c.fetch_add(1, Ordering::SeqCst);
            Ok(())
        },
    );

    let r = Router::new_with_clock(RouterConfig::new(vec![handler]), tests_more_zero_clock());
    r.rx_packed(&wire).unwrap();
    assert_eq!(called.load(Ordering::SeqCst), 1);
}

#[test]
fn packet_handlers_trigger_single_unpack_and_fan_out() {
    let endpoints = &[DataEndpoint::named("SD_CARD"), DataEndpoint::named("RADIO")];
    let pkt =
        Packet::from_f32_slice(DataType::named("GPS_DATA"), &[1.0, 2.0, 3.0], endpoints, 5)
            .unwrap();
    let wire = pack_packet(&pkt);

    let packet_called = Arc::new(AtomicUsize::new(0));
    let packed_called = Arc::new(AtomicUsize::new(0));

    let ph = packet_called.clone();
    let sh = packed_called.clone();

    let packet_h =
        EndpointHandler::new_packet_handler(DataEndpoint::named("SD_CARD"), move |_pkt| {
            ph.fetch_add(1, Ordering::SeqCst);
            Ok(())
        });

    let packed_h =
        EndpointHandler::new_packed_handler(DataEndpoint::named("RADIO"), move |_b| {
            sh.fetch_add(1, Ordering::SeqCst);
            Ok(())
        });

    let r = Router::new_with_clock(RouterConfig::new(vec![packet_h, packed_h]), tests_more_zero_clock());

    r.rx_packed(&wire).unwrap();
    assert_eq!(packet_called.load(Ordering::SeqCst), 1);
    assert_eq!(packed_called.load(Ordering::SeqCst), 1);
}

#[test]
fn send_avoids_packing_when_only_local_packet_handlers_exist() {
    let tx_called = Arc::new(AtomicUsize::new(0));
    let txc = tx_called.clone();
    let tx = move |bytes: &[u8]| -> TelemetryResult<()> {
        if packed_frame_type(bytes) == Some(DataType::named("GPS_DATA")) {
            txc.fetch_add(1, Ordering::SeqCst);
        }
        Ok(())
    };

    let hits = Arc::new(AtomicUsize::new(0));
    let h = hits.clone();
    let handler = EndpointHandler::new_packet_handler(
        DataEndpoint::named("SD_CARD"),
        move |pkt: &Packet| {
            pkt.validate().unwrap();
            h.fetch_add(1, Ordering::SeqCst);
            Ok(())
        },
    );

    let r = Router::new_with_clock(RouterConfig::new(vec![handler]), tests_more_zero_clock());
    r.add_side_packed("tx", tx);
    let pkt = Packet::from_f32_slice(
        DataType::named("GPS_DATA"),
        &[1.0, 2.0, 3.0],
        &[DataEndpoint::named("SD_CARD")],
        0,
    )
    .unwrap();
    r.tx(pkt).unwrap();

    assert_eq!(tx_called.load(Ordering::SeqCst), 0);
    assert_eq!(hits.load(Ordering::SeqCst), 1);
}

#[test]
fn receive_direct_packet_invokes_handlers() {
    let called = Arc::new(AtomicUsize::new(0));
    let c = called.clone();
    let handler =
        EndpointHandler::new_packet_handler(DataEndpoint::named("SD_CARD"), move |_pkt| {
            c.fetch_add(1, Ordering::SeqCst);
            Ok(())
        });

    let r = Router::new_with_clock(RouterConfig::new(vec![handler]), tests_more_zero_clock());
    let pkt = Packet::from_f32_slice(
        DataType::named("GPS_DATA"),
        &[0.5, 0.5, 0.5],
        &[DataEndpoint::named("SD_CARD")],
        0,
    )
    .unwrap();
    r.rx(&pkt).unwrap();

    assert_eq!(called.load(Ordering::SeqCst), 1);
}

#[test]
fn error_payload_is_truncated_to_meta_size() {
    let failing_tx = |_b: &[u8]| -> TelemetryResult<()> { Err(TelemetryError::Io("boom")) };

    let captured = Arc::new(Mutex::new(String::new()));
    let c = captured.clone();
    let handler =
        EndpointHandler::new_packet_handler(DataEndpoint::named("SD_CARD"), move |pkt| {
            if pkt.data_type() == DataType::TelemetryError {
                *c.lock().unwrap() = pkt.as_string();
            }
            Ok(())
        });

    let r = Router::new_with_clock(RouterConfig::new(vec![handler]), tests_more_zero_clock());
    r.add_side_packed("tx", failing_tx);
    let pkt = Packet::from_f32_slice(
        DataType::named("GPS_DATA"),
        &[1.0, 2.0, 3.0],
        &[DataEndpoint::named("SD_CARD"), DataEndpoint::named("RADIO")],
        1,
    )
    .unwrap();
    let _ = r.tx(pkt);

    let s = captured.lock().unwrap().clone();
    assert!(!s.is_empty());
    assert!(s.len() < 8_192);
}

#[test]
fn encode_slice_le_u16_and_f64() {
    let vals16 = [0x0102u16, 0xA1B2];
    let got = encode_slice_le(&vals16);
    let mut exp = Vec::new();
    for v in vals16 {
        exp.extend_from_slice(&v.to_le_bytes());
    }
    assert_eq!(&*got, &exp);

    let vals64 = [1.5f64, -2.25];
    let got = encode_slice_le(&vals64);
    let mut exp = Vec::new();
    for v in vals64 {
        exp.extend_from_slice(&v.to_le_bytes());
    }
    assert_eq!(&*got, &exp);
}

#[test]
fn test_payload_len_for_respects_element_width() {

    for i in 0..=MAX_VALUE_DATA_TYPE {
        if let Some(ty) = DataType::try_from_u32(i) {
            let len = test_payload_len_for(ty);

            match get_data_type(ty) {
                MessageDataType::String | MessageDataType::Binary => {
                    assert!(len >= 1, "string/hex must have at least 1 byte for {ty:?}");
                }
                kind => {
                    let width = match kind {
                        MessageDataType::UInt8
                        | MessageDataType::Int8
                        | MessageDataType::Bool => 1,
                        MessageDataType::UInt16 | MessageDataType::Int16 => 2,
                        MessageDataType::UInt32
                        | MessageDataType::Int32
                        | MessageDataType::Float32 => 4,
                        MessageDataType::UInt64
                        | MessageDataType::Int64
                        | MessageDataType::Float64 => 8,
                        MessageDataType::UInt128 | MessageDataType::Int128 => 16,
                        MessageDataType::String | MessageDataType::Binary => 1,
                        MessageDataType::NoData => 0,
                    };
                    if width == 0 {
                        assert_eq!(
                            len, 0,
                            "NoData type must have zero-length payload for {ty:?}"
                        );
                        return;
                    }
                    assert_eq!(
                        len % width,
                        0,
                        "test payload length {len} not multiple of element width {width} for {ty:?}"
                    );
                }
            }
        }
    }
}

#[test]
fn unpack_packet_rejects_overflowed_varint() {
    let mut wire = vec![0x00u8];
    wire.extend([0xFFu8; 11]);
    tests_more_append_crc32(&mut wire);
    let err = unpack_packet(&wire).unwrap_err();
    match err {
        TelemetryError::Unpack(msg) if msg.eq("uleb128 too long") => {}
        other => panic!("expected Unpack(uleb128 too long...) error, got {other:?}"),
    }
}

#[test]
fn pack_packet_is_order_invariant_for_endpoints() {
    ensure_common_test_schema();

    let eps_a = &[DataEndpoint::named("RADIO"), DataEndpoint::named("SD_CARD")];
    let eps_b = &[DataEndpoint::named("SD_CARD"), DataEndpoint::named("RADIO")];

    let pkt_a = Packet::from_f32_slice(DataType::named("GPS_DATA"), &[1.0, 2.0, 3.0], eps_a, 0)
        .unwrap()
        .with_nonce(7);
    let pkt_b = Packet::from_f32_slice(DataType::named("GPS_DATA"), &[1.0, 2.0, 3.0], eps_b, 0)
        .unwrap()
        .with_nonce(7);

    let wa = pack_packet(&pkt_a);
    let wb = pack_packet(&pkt_b);

    assert_eq!(wa, wb, "endpoint order must not affect packed bytes");
}

#[test]
fn process_all_queues_timeout_zero_handles_large_queues() {
    ensure_common_test_schema();

    let tx_count = Arc::new(AtomicUsize::new(0));
    let txc = tx_count.clone();
    let tx = move |bytes: &[u8]| -> TelemetryResult<()> {
        if packed_frame_type(bytes) == Some(DataType::named("GPS_DATA")) {
            txc.fetch_add(1, Ordering::SeqCst);
        }
        Ok(())
    };

    let rx_count = Arc::new(AtomicUsize::new(0));
    let rxc = rx_count.clone();
    let handler =
        EndpointHandler::new_packet_handler(DataEndpoint::named("SD_CARD"), move |_pkt| {
            rxc.fetch_add(1, Ordering::SeqCst);
            Ok(())
        });

    let router = Router::new_with_clock(
        RouterConfig::new(vec![handler]),
        Box::new(|| UnixClock.now_ms()),
    );
    router.add_side_packed("tx", tx);
    const N: usize = 200;
    for i in 0..N {
        let base_tx = 1.0_f32 + i as f32 * 0.01;
        router
            .log_queue(DataType::named("GPS_DATA"), &[base_tx, 2.0, 3.0])
            .unwrap();

        let pkt = Packet::from_f32_slice(
            DataType::named("GPS_DATA"),
            &[9.0 + i as f32 * 0.01, 8.0, 7.0],
            &[DataEndpoint::named("SD_CARD")],
            i as u64,
        )
        .unwrap();
        router.rx_queue(pkt).unwrap();
    }

    let (queued_rx, _queued_tx, _queued_recent) = router.debug_queue_lengths();
    assert!(queued_rx <= N, "RX queue should be bounded");
    assert!(
        router.debug_shared_queue_bytes_used() <= MAX_QUEUE_BUDGET,
        "shared queue budget should cap retained queued bytes"
    );

    router.process_all_queues_with_timeout(0).unwrap();

    assert_eq!(
        tx_count.load(Ordering::SeqCst),
        N,
        "all queued GPS TX should flush"
    );
    assert_eq!(
        rx_count.load(Ordering::SeqCst),
        N + queued_rx,
        "each retained GPS TX local delivery + retained RX packet should invoke handler"
    );
}

#[test]
fn tests_router_is_send_and_sync() {
    fn assert_send_sync<T: Send + Sync>() {}
    assert_send_sync::<Router>();
}

#[test]
fn tests_data_as_f32_roundtrips_gps() {
    let eps = &[DataEndpoint::named("SD_CARD"), DataEndpoint::named("RADIO")];
    let src = [1.5_f32, -2.25, 3.0];

    let pkt = Packet::from_f32_slice(DataType::named("GPS_DATA"), &src, eps, 42).unwrap();
    let vals = pkt.data_as_f32().unwrap();

    assert_eq!(vals, src);
}

#[test]
fn tests_mismatched_typed_accessor_returns_type_mismatch() {
    let eps = &[DataEndpoint::named("SD_CARD")];
    let src = [1.0_f32, 2.0, 3.0];

    let pkt = Packet::from_f32_slice(DataType::named("GPS_DATA"), &src, eps, 0).unwrap();

    let res = pkt.data_as_u16();
    match res {
        Err(TelemetryError::TypeMismatch { .. }) => {}
        other => panic!("expected TypeMismatch, got {other:?}"),
    }
}

#[test]
fn tests_data_as_bool_decodes_nonzero() {
    let mut bool_ty_opt = None;
    for i in 0..=MAX_VALUE_DATA_TYPE {
        if let Some(ty) = DataType::try_from_u32(i).filter(|x| { let ty = *x; get_data_type(ty) == MessageDataType::Bool }) {
            bool_ty_opt = Some(ty);
            break;
        }
    }
    let bool_ty = match bool_ty_opt {
        Some(t) => t,
        None => return,
    };

    let eps = &[DataEndpoint::named("SD_CARD")];
    let vals = [true];

    let pkt = Packet::from_bool_slice(bool_ty, &vals, eps, 0).unwrap();
    let decoded = pkt.data_as_bool().unwrap();
    assert_eq!(decoded, vals);
}

fn relay_tests_zero_clock() -> Box<dyn Clock + Send + Sync> {
    Box::new(|| 0u64)
}

fn relay_tests_wire_for_value(v: u64) -> Arc<[u8]> {
    ensure_common_test_schema();
    let pkt = Packet::from_f32_slice(
        DataType::named("GPS_DATA"),
        &[v as f32, 0.0, 0.0],
        &[DataEndpoint::named("SD_CARD")],
        v,
    )
    .unwrap();
    pack_packet(&pkt)
}

#[derive(Clone)]
struct RelayTestsSideBus {
    frames: Arc<Mutex<Vec<Vec<u8>>>>,
}

impl RelayTestsSideBus {
    fn new() -> (
        Self,
        impl Fn(&[u8]) -> TelemetryResult<()> + Send + Sync + 'static,
    ) {
        let frames = Arc::new(Mutex::new(Vec::<Vec<u8>>::new()));
        let frames_c = frames.clone();
        let tx = move |bytes: &[u8]| -> TelemetryResult<()> {
            frames_c.lock().unwrap().push(bytes.to_vec());
            Ok(())
        };
        (Self { frames }, tx)
    }
}

fn relay_tests_advertise_side(relay: &Relay, side: usize, sender: &str, endpoint: DataEndpoint) {
    let pkt = build_discovery_announce(sender, 0, &[endpoint]).unwrap();
    relay.rx_from_side(side, pkt).unwrap();
}

#[test]
fn relay_packed_side_chunking_reassembles_for_fixed_size_links() {
    ensure_common_test_schema();

    let delivered = Arc::new(AtomicUsize::new(0));
    let delivered_c = delivered.clone();
    let receiver = Arc::new(Router::new_with_clock(
        RouterConfig::new(vec![EndpointHandler::new_packet_handler(
            DataEndpoint::named("SD_CARD"),
            move |_pkt: &Packet| {
                delivered_c.fetch_add(1, Ordering::SeqCst);
                Ok(())
            },
        )]),
        relay_tests_zero_clock(),
    ));
    let receiver_side_id = Arc::new(Mutex::new(None));
    let receiver_side_id_c = receiver_side_id.clone();
    let chunk_count = Arc::new(AtomicUsize::new(0));
    let chunk_count_c = chunk_count.clone();
    let max_seen = Arc::new(AtomicUsize::new(0));
    let max_seen_c = max_seen.clone();
    let receiver_c = receiver.clone();
    let relay = Relay::new(relay_tests_zero_clock());
    let max_frame_bytes = 48usize;

    let input_side = relay.add_side_packet("input", |_pkt| Ok(()));
    relay.add_side_packed_small_packets(
        "fixed-link",
        move |bytes: &[u8]| {
            chunk_count_c.fetch_add(1, Ordering::SeqCst);
            let mut current = max_seen_c.load(Ordering::SeqCst);
            while bytes.len() > current
                && max_seen_c
                    .compare_exchange(current, bytes.len(), Ordering::SeqCst, Ordering::SeqCst)
                    .is_err()
            {
                current = max_seen_c.load(Ordering::SeqCst);
            }
            let side = receiver_side_id_c
                .lock()
                .unwrap()
                .expect("receiver side id");
            receiver_c.rx_packed_from_side(bytes, side)
        },
        max_frame_bytes,
    );
    let rx_side = receiver.add_side_packed_with_options(
        "fixed-link",
        |_bytes| Ok(()),
        RouterSideOptions {
            header_template_enabled: true,
            max_frame_bytes,
            ..RouterSideOptions::default()
        },
    );
    *receiver_side_id.lock().unwrap() = Some(rx_side);

    let payload = vec![b'R'; 180];
    let pkt = Packet::new(
        DataType::TelemetryError,
        &[DataEndpoint::named("SD_CARD")],
        "RELAY_CHUNK_SRC",
        55,
        Arc::<[u8]>::from(payload),
    )
    .unwrap()
    .with_nonce(31);

    relay.rx_from_side(input_side, pkt).unwrap();
    relay.process_all_queues().unwrap();

    assert_eq!(delivered.load(Ordering::SeqCst), 1);
    assert!(chunk_count.load(Ordering::SeqCst) > 1);
    assert!(max_seen.load(Ordering::SeqCst) <= max_frame_bytes);
}

#[test]
fn relay_basic_fan_out() {
    let relay = Arc::new(Relay::new(relay_tests_zero_clock()));
    let (bus_a, tx_a) = RelayTestsSideBus::new();
    let (bus_b, tx_b) = RelayTestsSideBus::new();
    let (bus_c, tx_c) = RelayTestsSideBus::new();

    let id_a = relay.add_side_packed("A", tx_a);
    let id_b = relay.add_side_packed("B", tx_b);
    let id_c = relay.add_side_packed("C", tx_c);

    relay_tests_advertise_side(&relay, id_b, "SIDE_B", DataEndpoint::named("SD_CARD"));
    relay_tests_advertise_side(&relay, id_c, "SIDE_C", DataEndpoint::named("SD_CARD"));
    relay.process_all_queues().unwrap();
    bus_a.frames.lock().unwrap().clear();
    bus_b.frames.lock().unwrap().clear();
    bus_c.frames.lock().unwrap().clear();

    let frame = relay_tests_wire_for_value(1);
    relay
        .rx_packed_from_side(id_a, frame.as_ref())
        .expect("rx_packed_from_side failed");
    relay
        .process_all_queues()
        .expect("process_all_queues failed");

    let frames_a = bus_a.frames.lock().unwrap().clone();
    let frames_b = bus_b.frames.lock().unwrap().clone();
    let frames_c = bus_c.frames.lock().unwrap().clone();
    assert_eq!(
        count_packed_frames_of_type(&frames_a, DataType::named("GPS_DATA")),
        0,
        "source side must not receive its own GPS frame"
    );
    assert_eq!(
        count_packed_frames_of_type(&frames_b, DataType::named("GPS_DATA")),
        1,
        "side B should see one GPS frame"
    );
    assert_eq!(
        count_packed_frames_of_type(&frames_c, DataType::named("GPS_DATA")),
        1,
        "side C should see one GPS frame"
    );

    assert!(
        frames_b
            .iter()
            .any(|bytes| bytes.as_slice() == frame.as_ref())
    );
    assert!(
        frames_c
            .iter()
            .any(|bytes| bytes.as_slice() == frame.as_ref())
    );
}

#[test]
fn relay_invalid_side_id_returns_error() {
    let relay = Relay::new(relay_tests_zero_clock());
    let res = relay.rx_packed_from_side(0, &[0x01, 0x02]);
    match res {
        Err(TelemetryError::HandlerError(msg)) => {
            assert!(
                msg.contains("relay: invalid side id"),
                "unexpected error message: {msg}"
            );
        }
        other => panic!("expected HandlerError for invalid side id, got {other:?}"),
    }
}

#[test]
fn relay_clear_queues_drops_pending_work() {
    let relay = Relay::new(relay_tests_zero_clock());

    let tx_count_b = Arc::new(AtomicUsize::new(0));
    let tx_count_c = Arc::new(AtomicUsize::new(0));

    let tx_b_c = tx_count_b.clone();
    let tx_b = move |bytes: &[u8]| -> TelemetryResult<()> {
        assert!(!bytes.is_empty());
        tx_b_c.fetch_add(1, Ordering::SeqCst);
        Ok(())
    };

    let tx_c_c = tx_count_c.clone();
    let tx_c = move |bytes: &[u8]| -> TelemetryResult<()> {
        assert!(!bytes.is_empty());
        tx_c_c.fetch_add(1, Ordering::SeqCst);
        Ok(())
    };

    let id_a = relay.add_side_packed("A", |_b| Ok(()));
    relay.add_side_packed("B", tx_b);
    relay.add_side_packed("C", tx_c);
    let frame_a = relay_tests_wire_for_value(1);
    let frame_b = relay_tests_wire_for_value(2);
    relay.rx_packed_from_side(id_a, frame_a.as_ref()).unwrap();
    relay.rx_packed_from_side(id_a, frame_b.as_ref()).unwrap();
    relay.process_rx_queue().unwrap();
    relay.clear_queues();
    relay.process_all_queues().unwrap();

    assert_eq!(
        tx_count_b.load(Ordering::SeqCst),
        0,
        "no frames should be sent to side B after clear_queues"
    );
    assert_eq!(
        tx_count_c.load(Ordering::SeqCst),
        0,
        "no frames should be sent to side C after clear_queues"
    );
}

#[test]
fn relay_timeout_limits_work_per_call() {
    let clock = StepClock::new_box(0, 10);
    let relay = Relay::new(clock);

    let tx_count = Arc::new(AtomicUsize::new(0));
    let txc = tx_count.clone();
    let tx = move |bytes: &[u8]| -> TelemetryResult<()> {
        assert!(!bytes.is_empty());
        if packed_frame_type(bytes) == Some(DataType::named("GPS_DATA")) {
            txc.fetch_add(1, Ordering::SeqCst);
        }
        Ok(())
    };

    let id_src = relay.add_side_packed("SRC", |_b| Ok(()));
    let id_dst = relay.add_side_packed("DST", tx);
    relay_tests_advertise_side(&relay, id_dst, "DST_SIDE", DataEndpoint::named("SD_CARD"));
    relay.process_all_queues_with_timeout(0).unwrap();
    for i in 0..5u8 {
        let frame = relay_tests_wire_for_value(i as u64);
        relay.rx_packed_from_side(id_src, frame.as_ref()).unwrap();
    }
    relay
        .process_all_queues_with_timeout(5)
        .expect("process_all_queues_with_timeout failed");
    assert_eq!(
        tx_count.load(Ordering::SeqCst),
        0,
        "timeout should have prevented any TX in first call"
    );
    relay
        .process_all_queues_with_timeout(0)
        .expect("final drain failed");
    assert_eq!(tx_count.load(Ordering::SeqCst), 5,);
}

#[test]
fn relay_side_tx_reentry_defers_recursive_queue_drains() {
    let relay = Arc::new(Relay::new(relay_tests_zero_clock()));
    let remaining = Arc::new(AtomicUsize::new(6));
    let ingress = relay.add_side_packed("INGRESS", move |_bytes| Ok(()));

    let relay_c = relay.clone();
    let remaining_c = remaining.clone();
    let loop_hits = Arc::new(AtomicUsize::new(0));
    let loop_hits_c = loop_hits.clone();
    let in_tx = Arc::new(AtomicBool::new(false));
    let reentered = Arc::new(AtomicBool::new(false));
    let in_tx_c = in_tx.clone();
    let reentered_c = reentered.clone();
    relay.add_side_packed("LOOP", move |bytes| {
        loop_hits_c.fetch_add(1, Ordering::SeqCst);
        if in_tx_c.swap(true, Ordering::SeqCst) {
            reentered_c.store(true, Ordering::SeqCst);
        }
        if remaining_c
            .fetch_update(Ordering::SeqCst, Ordering::SeqCst, |n| n.checked_sub(1))
            .is_ok()
        {
            relay_c.rx_packed_from_side(ingress, bytes)?;
            relay_c.process_all_queues()?;
        }
        in_tx_c.store(false, Ordering::SeqCst);
        Ok(())
    });

    relay
        .rx_packed_from_side(ingress, relay_tests_wire_for_value(1).as_ref())
        .unwrap();
    relay.process_all_queues().unwrap();
    for _ in 0..8 {
        relay.process_all_queues().unwrap();
    }

    assert!(!reentered.load(Ordering::SeqCst));
    assert!(remaining.load(Ordering::SeqCst) < 6);
    assert!(loop_hits.load(Ordering::SeqCst) > 0);
}

fn dedupe_tests_zero_clock() -> Box<dyn Clock + Send + Sync> {
    Box::new(|| 0u64)
}

fn dedupe_tests_wire_for_value(v: u64) -> Arc<[u8]> {
    let pkt = Packet::from_f32_slice(
        DataType::named("GPS_DATA"),
        &[v as f32, 0.0, 0.0],
        &[DataEndpoint::named("SD_CARD")],
        v,
    )
    .unwrap();
    pack_packet(&pkt)
}

fn dedupe_tests_advertise_side(relay: &Relay, side: usize, sender: &str) {
    ensure_common_test_schema();
    let pkt = build_discovery_announce(sender, 0, &[DataEndpoint::named("SD_CARD")]).unwrap();
    relay.rx_from_side(side, pkt).unwrap();
}

#[test]
fn tests_router_rx_packed_deduplicates_identical_frames() {
    let hits = Arc::new(AtomicUsize::new(0));
    let hits_c = hits.clone();

    let handler = EndpointHandler::new_packet_handler(
        DataEndpoint::named("SD_CARD"),
        move |_pkt: &Packet| {
            hits_c.fetch_add(1, Ordering::SeqCst);
            Ok(())
        },
    );
    let r = Router::new_with_clock(RouterConfig::new(vec![handler]), dedupe_tests_zero_clock());
    let pkt = Packet::from_f32_slice(
        DataType::named("GPS_DATA"),
        &[1.0_f32, 2.0, 3.0],
        &[DataEndpoint::named("SD_CARD")],
        0,
    )
    .unwrap();
    let wire = pack_packet(&pkt);
    for _ in 0..5 {
        r.rx_packed(&wire).unwrap();
    }

    assert_eq!(
        hits.load(Ordering::SeqCst),
        1,
        "rx_packed should deliver identical frames only once"
    );
}

#[test]
fn tests_router_rx_packed_dedup_persists_across_time_advance() {
    let hits = Arc::new(AtomicUsize::new(0));
    let hits_c = hits.clone();

    let handler = EndpointHandler::new_packet_handler(
        DataEndpoint::named("SD_CARD"),
        move |_pkt: &Packet| {
            hits_c.fetch_add(1, Ordering::SeqCst);
            Ok(())
        },
    );
    let clock = StepClock::new_box(0, 1);
    let r = Router::new_with_clock(RouterConfig::new(vec![handler]), clock);

    let pkt = Packet::from_f32_slice(
        DataType::named("GPS_DATA"),
        &[1.0_f32, 2.0, 3.0],
        &[DataEndpoint::named("SD_CARD")],
        0,
    )
    .unwrap();
    let wire = pack_packet(&pkt);
    r.rx_packed(&wire).unwrap();
    r.rx_packed(&wire).unwrap();

    assert_eq!(
        hits.load(Ordering::SeqCst),
        1,
        "dedupe should persist even as clock advances"
    );
}

#[test]
fn tests_router_rx_packed_does_not_dedupe_different_frames() {
    let hits = Arc::new(AtomicUsize::new(0));
    let hits_c = hits.clone();

    let handler = EndpointHandler::new_packet_handler(
        DataEndpoint::named("SD_CARD"),
        move |_pkt: &Packet| {
            hits_c.fetch_add(1, Ordering::SeqCst);
            Ok(())
        },
    );

    let r = Router::new_with_clock(RouterConfig::new(vec![handler]), dedupe_tests_zero_clock());
    let pkt_a = Packet::from_f32_slice(
        DataType::named("GPS_DATA"),
        &[1.0_f32, 2.0, 3.0],
        &[DataEndpoint::named("SD_CARD")],
        0,
    )
    .unwrap();
    let wire_a = pack_packet(&pkt_a);
    let pkt_b = Packet::from_f32_slice(
        DataType::named("GPS_DATA"),
        &[4.0_f32, 5.0, 6.0],
        &[DataEndpoint::named("SD_CARD")],
        0,
    )
    .unwrap();
    let wire_b = pack_packet(&pkt_b);

    r.rx_packed(&wire_a).unwrap();
    r.rx_packed(&wire_b).unwrap();

    assert_eq!(
        hits.load(Ordering::SeqCst),
        2,
        "different frames must never be deduplicated"
    );
}

#[test]
fn tests_router_rx_packed_does_not_dedupe_same_payload_same_ms_when_nonce_differs() {
    ensure_common_test_schema();
    let hits = Arc::new(AtomicUsize::new(0));
    let hits_c = hits.clone();

    let handler = EndpointHandler::new_packet_handler(
        DataEndpoint::named("SD_CARD"),
        move |_pkt: &Packet| {
            hits_c.fetch_add(1, Ordering::SeqCst);
            Ok(())
        },
    );

    let r = Router::new_with_clock(RouterConfig::new(vec![handler]), dedupe_tests_zero_clock());

    let pkt_a = Packet::from_f32_slice(
        DataType::named("GPS_DATA"),
        &[1.0_f32, 2.0, 3.0],
        &[DataEndpoint::named("SD_CARD")],
        0,
    )
    .unwrap();
    let pkt_b = Packet::from_f32_slice(
        DataType::named("GPS_DATA"),
        &[1.0_f32, 2.0, 3.0],
        &[DataEndpoint::named("SD_CARD")],
        0,
    )
    .unwrap();

    let wire_a = pack_packet(&pkt_a);
    let wire_b = pack_packet(&pkt_b);

    r.rx_packed(&wire_a).unwrap();
    r.rx_packed(&wire_b).unwrap();

    assert_ne!(pkt_a.nonce(), pkt_b.nonce());
    assert_eq!(hits.load(Ordering::SeqCst), 2);
}

#[test]
fn tests_packed_side_template_dictionary_is_bounded() {
    ensure_common_test_schema();
    let receiver = Arc::new(Router::new_with_clock(
        RouterConfig::default(),
        dedupe_tests_zero_clock(),
    ));
    let receiver_side_id = Arc::new(Mutex::new(None));
    let receiver_side_id_c = receiver_side_id.clone();
    let receiver_c = receiver.clone();

    let sender = Router::new_with_clock(RouterConfig::default(), dedupe_tests_zero_clock());
    sender.add_side_packed_with_options(
        "bounded-link",
        move |bytes: &[u8]| {
            let side = receiver_side_id_c
                .lock()
                .unwrap()
                .expect("receiver side id");
            receiver_c.rx_packed_from_side(bytes, side)
        },
        RouterSideOptions {
            header_template_enabled: true,
            max_side_transport_templates: 1,
            ..RouterSideOptions::default()
        },
    );
    let rx_side = receiver.add_side_packed_with_options(
        "bounded-link",
        |_bytes| Ok(()),
        RouterSideOptions {
            header_template_enabled: true,
            max_side_transport_templates: 1,
            ..RouterSideOptions::default()
        },
    );
    *receiver_side_id.lock().unwrap() = Some(rx_side);

    for (sender_id, ts, nonce) in [("SRC_A", 1, 1), ("SRC_B", 2, 2), ("SRC_A", 3, 3)] {
        let mut payload = Vec::new();
        payload.extend_from_slice(&(ts as f32).to_le_bytes());
        payload.extend_from_slice(&0.0f32.to_le_bytes());
        payload.extend_from_slice(&0.0f32.to_le_bytes());
        let pkt = Packet::new(
            DataType::named("GPS_DATA"),
            &[DataEndpoint::named("SD_CARD")],
            sender_id,
            ts,
            Arc::<[u8]>::from(payload),
        )
        .unwrap()
        .with_nonce(nonce);
        sender.tx(pkt).unwrap();
    }

    let stats = sender.export_runtime_stats();
    let side = stats
        .sides
        .iter()
        .find(|side| side.side_name == "bounded-link")
        .expect("bounded side stats");
    assert_eq!(side.max_side_transport_templates, 1);
    assert_eq!(side.side_transport_profile, "template");
    assert_eq!(side.side_transport_tx_template_count, 1);
    assert_eq!(side.side_transport_full_frames, 3);
    assert_eq!(side.side_transport_compact_frames, 0);
    assert!(side.side_transport_template_evictions >= 2);
}

#[test]
fn tests_compact_header_target_misses_are_counted() {
    ensure_common_test_schema();
    let receiver = Arc::new(Router::new_with_clock(
        RouterConfig::default(),
        dedupe_tests_zero_clock(),
    ));
    let receiver_side_id = Arc::new(Mutex::new(None));
    let receiver_side_id_c = receiver_side_id.clone();
    let receiver_c = receiver.clone();

    let sender = Router::new_with_clock(RouterConfig::default(), dedupe_tests_zero_clock());
    sender.add_side_packed_with_options(
        "tight-target",
        move |bytes: &[u8]| {
            let side = receiver_side_id_c
                .lock()
                .unwrap()
                .expect("receiver side id");
            receiver_c.rx_packed_from_side(bytes, side)
        },
        RouterSideOptions {
            header_template_enabled: true,
            compact_header_target_bytes: 1,
            ..RouterSideOptions::default()
        },
    );
    let rx_side = receiver.add_side_packed_with_options(
        "tight-target",
        |_bytes| Ok(()),
        RouterSideOptions {
            header_template_enabled: true,
            ..RouterSideOptions::default()
        },
    );
    *receiver_side_id.lock().unwrap() = Some(rx_side);

    for (value, nonce) in [(1.0, 11), (2.0, 12)] {
        let pkt = Packet::from_f32_slice(
            DataType::named("GPS_DATA"),
            &[value, 0.0, 0.0],
            &[DataEndpoint::named("SD_CARD")],
            nonce as u64,
        )
        .unwrap()
        .with_nonce(nonce);
        sender.tx(pkt).unwrap();
    }

    let stats = sender.export_runtime_stats();
    let side = stats
        .sides
        .iter()
        .find(|side| side.side_name == "tight-target")
        .expect("tight target side stats");
    assert_eq!(side.side_transport_compact_frames, 1);
    assert_eq!(side.side_transport_compact_target_misses, 1);
}

#[test]
fn tests_packed_side_chunking_reassembles_for_fixed_size_links() {
    ensure_common_test_schema();
    let delivered = Arc::new(AtomicUsize::new(0));
    let delivered_c = delivered.clone();
    let receiver = Arc::new(Router::new_with_clock(
        RouterConfig::new(vec![EndpointHandler::new_packet_handler(
            DataEndpoint::named("SD_CARD"),
            move |_pkt: &Packet| {
                delivered_c.fetch_add(1, Ordering::SeqCst);
                Ok(())
            },
        )]),
        dedupe_tests_zero_clock(),
    ));
    let receiver_side_id = Arc::new(Mutex::new(None));
    let receiver_side_id_c = receiver_side_id.clone();
    let chunk_count = Arc::new(AtomicUsize::new(0));
    let chunk_count_c = chunk_count.clone();
    let max_seen = Arc::new(AtomicUsize::new(0));
    let max_seen_c = max_seen.clone();
    let receiver_c = receiver.clone();
    let sender = Router::new_with_clock(RouterConfig::default(), dedupe_tests_zero_clock());
    let max_frame_bytes = 48usize;

    sender.add_side_packed_small_packets(
        "fixed-link",
        move |bytes: &[u8]| {
            chunk_count_c.fetch_add(1, Ordering::SeqCst);
            let mut current = max_seen_c.load(Ordering::SeqCst);
            while bytes.len() > current
                && max_seen_c
                    .compare_exchange(current, bytes.len(), Ordering::SeqCst, Ordering::SeqCst)
                    .is_err()
            {
                current = max_seen_c.load(Ordering::SeqCst);
            }
            let side = receiver_side_id_c
                .lock()
                .unwrap()
                .expect("receiver side id");
            receiver_c.rx_packed_from_side(bytes, side)
        },
        max_frame_bytes,
    );
    let rx_side = receiver.add_side_packed_with_options(
        "fixed-link",
        |_bytes| Ok(()),
        RouterSideOptions {
            header_template_enabled: true,
            max_frame_bytes,
            ..RouterSideOptions::default()
        },
    );
    *receiver_side_id.lock().unwrap() = Some(rx_side);

    let payload = vec![b'X'; 180];
    let pkt = Packet::new(
        DataType::TelemetryError,
        &[DataEndpoint::named("SD_CARD")],
        "CHUNK_SRC",
        55,
        Arc::<[u8]>::from(payload),
    )
    .unwrap()
    .with_nonce(21);

    sender.tx(pkt).unwrap();

    assert_eq!(delivered.load(Ordering::SeqCst), 1);
    assert!(chunk_count.load(Ordering::SeqCst) > 1);
    assert!(max_seen.load(Ordering::SeqCst) <= max_frame_bytes);
}

#[test]
fn tests_relay_deduplicates_identical_frames_per_side() {
    ensure_common_test_schema();
    let relay = Relay::new(dedupe_tests_zero_clock());

    let tx_count_b = Arc::new(AtomicUsize::new(0));
    let tx_count_c = Arc::new(AtomicUsize::new(0));

    let tx_b_c = tx_count_b.clone();
    let tx_b = move |bytes: &[u8]| -> TelemetryResult<()> {
        assert!(!bytes.is_empty());
        if packed_frame_type(bytes) == Some(DataType::named("GPS_DATA")) {
            tx_b_c.fetch_add(1, Ordering::SeqCst);
        }
        Ok(())
    };

    let tx_c_c = tx_count_c.clone();
    let tx_c = move |bytes: &[u8]| -> TelemetryResult<()> {
        assert!(!bytes.is_empty());
        if packed_frame_type(bytes) == Some(DataType::named("GPS_DATA")) {
            tx_c_c.fetch_add(1, Ordering::SeqCst);
        }
        Ok(())
    };

    let id_src = relay.add_side_packed("SRC", |_b| Ok(()));
    let side_b = relay.add_side_packed("B", tx_b);
    let side_c = relay.add_side_packed("C", tx_c);
    relay
        .set_source_route_mode(Some(id_src), RouteSelectionMode::Fanout)
        .unwrap();
    dedupe_tests_advertise_side(&relay, side_b, "SIDE_B");
    dedupe_tests_advertise_side(&relay, side_c, "SIDE_C");
    relay.process_all_queues_with_timeout(0).unwrap();

    let frame = dedupe_tests_wire_for_value(1);

    for _ in 0..5 {
        relay
            .rx_packed_from_side(id_src, frame.as_ref())
            .expect("rx_packed_from_side failed");
    }

    relay
        .process_all_queues_with_timeout(0)
        .expect("process_all_queues_with_timeout failed");

    let forwarded_b = tx_count_b.load(Ordering::SeqCst);
    let forwarded_c = tx_count_c.load(Ordering::SeqCst);
    assert_eq!(
        forwarded_b + forwarded_c,
        2,
        "deduplicated ingress should emit exactly one application frame per selected side"
    );
    assert_eq!(forwarded_b, 1);
    assert_eq!(forwarded_c, 1);
}

#[test]
fn tests_relay_dedup_persists_across_time_advance() {
    let now_ms = Arc::new(AtomicU64::new(0));
    let clock_now = now_ms.clone();
    let clock: Box<dyn Clock + Send + Sync> =
        Box::new(move || clock_now.load(Ordering::SeqCst));
    let relay = Relay::new(clock);

    let tx_count = Arc::new(AtomicUsize::new(0));
    let txc = tx_count.clone();

    let id_src = relay.add_side_packed("SRC", |_b| Ok(()));
    let dst = relay.add_side_packed("DST", move |bytes: &[u8]| -> TelemetryResult<()> {
        assert!(!bytes.is_empty());
        if packed_frame_type(bytes) == Some(DataType::named("GPS_DATA")) {
            txc.fetch_add(1, Ordering::SeqCst);
        }
        Ok(())
    });
    dedupe_tests_advertise_side(&relay, dst, "DST_SIDE");
    relay.process_all_queues_with_timeout(0).unwrap();

    let frame = dedupe_tests_wire_for_value(1);

    relay
        .rx_packed_from_side(id_src, frame.as_ref())
        .expect("first rx_packed_from_side failed");
    relay
        .process_all_queues_with_timeout(0)
        .expect("first drain failed");

    now_ms.store(1_000, Ordering::SeqCst);

    relay
        .rx_packed_from_side(id_src, frame.as_ref())
        .expect("second rx_packed_from_side failed");
    relay
        .process_all_queues_with_timeout(0)
        .expect("second drain failed");

    assert_eq!(
        tx_count.load(Ordering::SeqCst),
        1,
        "identical frame from same side should still be deduped after time advance"
    );
}

#[test]
fn tests_relay_does_not_dedupe_different_frames_from_same_side() {
    let relay = Relay::new(dedupe_tests_zero_clock());

    let tx_count = Arc::new(AtomicUsize::new(0));
    let txc = tx_count.clone();

    let id_src = relay.add_side_packed("SRC", |_b| Ok(()));
    let dst = relay.add_side_packed("DST", move |bytes: &[u8]| -> TelemetryResult<()> {
        assert!(!bytes.is_empty());
        if packed_frame_type(bytes) == Some(DataType::named("GPS_DATA")) {
            txc.fetch_add(1, Ordering::SeqCst);
        }
        Ok(())
    });
    dedupe_tests_advertise_side(&relay, dst, "DST_SIDE");
    relay.process_all_queues_with_timeout(0).unwrap();

    let frame_a = dedupe_tests_wire_for_value(1);
    let frame_b = dedupe_tests_wire_for_value(2);

    relay
        .rx_packed_from_side(id_src, frame_a.as_ref())
        .expect("rx_packed_from_side A failed");
    relay
        .rx_packed_from_side(id_src, frame_b.as_ref())
        .expect("rx_packed_from_side B failed");

    relay
        .process_all_queues_with_timeout(0)
        .expect("drain failed");

    assert_eq!(
        tx_count.load(Ordering::SeqCst),
        2,
        "relay must not dedupe different frames from the same side"
    );
}

fn relay_reliable_tests_zero_clock() -> Box<dyn Clock + Send + Sync> {
    Box::new(|| 0u64)
}

fn relay_reliable_tests_advertise_side(relay: &Relay, side: usize) {
    let pkt =
        build_discovery_announce("DST_SIDE", 0, &[DataEndpoint::named("SD_CARD")]).unwrap();
    relay.rx_from_side(side, pkt).unwrap();
}

#[test]
fn tests_relay_reliable_seq_advances_with_ack() {
    let relay = Arc::new(Relay::new(relay_reliable_tests_zero_clock()));

    relay.add_side_packed_with_options(
        "SRC",
        |_b| Ok(()),
        RelaySideOptions {
            reliable_enabled: true,
            link_local_enabled: false,
            ..RelaySideOptions::default()
        },
    );

    let sent: Arc<Mutex<Vec<Vec<u8>>>> = Arc::new(Mutex::new(Vec::new()));
    let sent_c = sent.clone();
    let relay_c = relay.clone();
    let dst = relay.add_side_packed_with_options(
        "DST",
        move |bytes: &[u8]| -> TelemetryResult<()> {
            sent_c.lock().unwrap().push(bytes.to_vec());

            let frame = peek_frame_info(bytes)?;
            if let Some(hdr) = frame.reliable {
                let ack_bytes =
                    pack_reliable_ack("DST", frame.envelope.ty, 0, hdr.seq);
                relay_c.rx_packed_from_side(1, ack_bytes.as_ref())?;
            }
            Ok(())
        },
        RelaySideOptions {
            reliable_enabled: true,
            link_local_enabled: false,
            ..RelaySideOptions::default()
        },
    );
    relay_reliable_tests_advertise_side(&relay, dst);
    relay.process_all_queues_with_timeout(0).unwrap();

    let pkt1 = Packet::from_f32_slice(
        DataType::named("GPS_DATA"),
        &[1.0_f32, 2.0, 3.0],
        &[DataEndpoint::named("SD_CARD")],
        0,
    )
    .unwrap();
    let pkt2 = Packet::from_f32_slice(
        DataType::named("GPS_DATA"),
        &[4.0_f32, 5.0, 6.0],
        &[DataEndpoint::named("SD_CARD")],
        0,
    )
    .unwrap();

    relay.rx_from_side(0, pkt1).unwrap();
    relay.rx_from_side(0, pkt2).unwrap();
    relay.process_all_queues_with_timeout(0).unwrap();
    relay.process_all_queues_with_timeout(0).unwrap();

    let sent = sent.lock().unwrap();
    let gps_sent: Vec<_> = sent
        .iter()
        .filter(|bytes| {
            packed_frame_type(bytes.as_slice()) == Some(DataType::named("GPS_DATA"))
        })
        .collect();
    assert!(
        gps_sent.len() >= 2,
        "expected at least 2 forwarded GPS frames"
    );

    let f1 = peek_frame_info(gps_sent[0]).unwrap();
    let f2 = peek_frame_info(gps_sent[1]).unwrap();
    let h1 = f1.reliable.expect("frame 1 missing reliable header");
    let h2 = f2.reliable.expect("frame 2 missing reliable header");
    assert_eq!(h1.seq, 1);
    assert_eq!(h2.seq, 2);
    assert_eq!(h1.flags & RELIABLE_FLAG_UNSEQUENCED, 0);
    assert_eq!(h2.flags & RELIABLE_FLAG_UNSEQUENCED, 0);
}

#[test]
fn tests_relay_reliable_retransmit_across_chain_preserves_order() {
    ensure_common_test_schema();
    let reliable_ty = {
        let radio = DataEndpoint::named("RADIO");
        let sd_card = DataEndpoint::named("SD_CARD");
        DataType::try_named("RELAY_CHAIN_RELIABLE_DATA").unwrap_or_else(|| {
            register_data_type_with_description(
                "RELAY_CHAIN_RELIABLE_DATA",
                "ordered reliable relay-chain regression test type",
                MessageElement::Static(3, MessageDataType::Float32, MessageClass::Data),
                &[radio, sd_card],
                ReliableMode::Ordered,
                1,
            )
            .expect("register RELAY_CHAIN_RELIABLE_DATA")
        })
    };
    let relay1 = Arc::new(Relay::new(StepClock::new_box(
        0,
        RELIABLE_RETRANSMIT_MS + 1,
    )));
    let relay2 = Arc::new(Relay::new(relay_reliable_tests_zero_clock()));

    relay1.add_side_packed_with_options(
        "SRC",
        |_b| Ok(()),
        RelaySideOptions {
            reliable_enabled: true,
            link_local_enabled: false,
            ..RelaySideOptions::default()
        },
    );
    let drop_first = Arc::new(Mutex::new(true));
    let drop_first_c = drop_first.clone();
    let relay2_rx = relay2.clone();
    let link_sent: Arc<Mutex<Vec<u32>>> = Arc::new(Mutex::new(Vec::new()));
    let link_sent_c = link_sent.clone();
    let relay1_mid = relay1.add_side_packed_with_options(
        "MID",
        move |bytes: &[u8]| -> TelemetryResult<()> {
            let frame = peek_frame_info(bytes)?;
            if let Some(hdr) = frame.reliable.filter(|hdr| (hdr.flags & RELIABLE_FLAG_ACK_ONLY) == 0 && frame.envelope.ty == reliable_ty) {
                link_sent_c.lock().unwrap().push(hdr.seq);
                if hdr.seq == 1 && *drop_first_c.lock().unwrap() {
                    *drop_first_c.lock().unwrap() = false;
                    return Ok(());
                }
            }
            relay2_rx.rx_packed_from_side(0, bytes)
        },
        RelaySideOptions {
            reliable_enabled: true,
            link_local_enabled: false,
            ..RelaySideOptions::default()
        },
    );
    let relay1_rx = relay1.clone();
    let _relay2_mid = relay2.add_side_packed_with_options(
        "MID",
        move |bytes: &[u8]| -> TelemetryResult<()> { relay1_rx.rx_packed_from_side(1, bytes) },
        RelaySideOptions {
            reliable_enabled: true,
            link_local_enabled: false,
            ..RelaySideOptions::default()
        },
    );
    let delivered: Arc<Mutex<Vec<u32>>> = Arc::new(Mutex::new(Vec::new()));
    let delivered_c = delivered.clone();
    let relay2_for_ack = relay2.clone();
    let relay1_for_ack = relay1.clone();
    let relay2_dst_id: Arc<Mutex<Option<usize>>> = Arc::new(Mutex::new(None));
    let relay2_dst_id_c = relay2_dst_id.clone();
    let relay2_dst = relay2.add_side_packed_with_options(
        "DST",
        move |bytes: &[u8]| -> TelemetryResult<()> {
            let frame = peek_frame_info(bytes)?;
            if let Some(hdr) = frame.reliable.filter(|hdr| (hdr.flags & RELIABLE_FLAG_ACK_ONLY) == 0) {
                delivered_c.lock().unwrap().push(hdr.seq);
                let ack_bytes =
                    pack_reliable_ack("DST", frame.envelope.ty, 0, hdr.seq);
                if let Some(dst_id) = *relay2_dst_id_c.lock().unwrap() {
                    relay2_for_ack.rx_packed_from_side(dst_id, ack_bytes.as_ref())?;
                }
                relay1_for_ack.rx_packed_from_side(relay1_mid, ack_bytes.as_ref())?;
            }
            Ok(())
        },
        RelaySideOptions {
            reliable_enabled: true,
            link_local_enabled: false,
            ..RelaySideOptions::default()
        },
    );
    *relay2_dst_id.lock().unwrap() = Some(relay2_dst);

    let pkt1 = Packet::from_f32_slice(
        reliable_ty,
        &[1.0_f32, 2.0, 3.0],
        &[DataEndpoint::named("SD_CARD"), DataEndpoint::named("RADIO")],
        0,
    )
    .unwrap();
    let pkt2 = Packet::from_f32_slice(
        reliable_ty,
        &[4.0_f32, 5.0, 6.0],
        &[DataEndpoint::named("SD_CARD"), DataEndpoint::named("RADIO")],
        0,
    )
    .unwrap();

    relay1.rx_from_side(0, pkt1).unwrap();
    relay1.rx_from_side(0, pkt2).unwrap();

    for _ in 0..10 {
        relay1.process_all_queues_with_timeout(0).unwrap();
        relay2.process_all_queues_with_timeout(0).unwrap();
        if delivered.lock().unwrap().len() >= 2 {
            break;
        }
    }

    let delivered = delivered.lock().unwrap().clone();
    let mut first_seen = Vec::new();
    for seq in delivered {
        if !first_seen.contains(&seq) {
            first_seen.push(seq);
        }
    }
    assert!(
        first_seen.as_slice().starts_with(&[1, 2]),
        "destination must observe the ordered sequence before any later retransmits: {first_seen:?}"
    );

    let link_sent = link_sent.lock().unwrap().clone();
    let seq1_count = link_sent.iter().filter(|&&s| s == 1).count();
    assert!(
        seq1_count >= 2,
        "expected seq1 to be retransmitted across the relay chain"
    );
}

#[test]
fn tests_relay_reliable_reorders_out_of_order_frames() {
    let relay = Arc::new(Relay::new(relay_reliable_tests_zero_clock()));

    relay.add_side_packed_with_options(
        "SRC",
        |_b| Ok(()),
        RelaySideOptions {
            reliable_enabled: true,
            link_local_enabled: false,
            ..RelaySideOptions::default()
        },
    );

    let delivered: Arc<Mutex<Vec<u32>>> = Arc::new(Mutex::new(Vec::new()));
    let delivered_c = delivered.clone();
    let relay_for_ack = relay.clone();
    let dst = relay.add_side_packed_with_options(
        "DST",
        move |bytes: &[u8]| -> TelemetryResult<()> {
            let frame = peek_frame_info(bytes)?;
            if let Some(hdr) = frame.reliable.filter(|hdr| frame.envelope.ty == DataType::named("GPS_DATA") && (hdr.flags & RELIABLE_FLAG_ACK_ONLY) == 0) {
                delivered_c.lock().unwrap().push(hdr.seq);
                let ack_bytes =
                    pack_reliable_ack("DST", frame.envelope.ty, 0, hdr.seq);
                relay_for_ack.rx_packed_from_side(1, ack_bytes.as_ref())?;
            }
            Ok(())
        },
        RelaySideOptions {
            reliable_enabled: true,
            link_local_enabled: false,
            ..RelaySideOptions::default()
        },
    );
    relay_reliable_tests_advertise_side(&relay, dst);
    relay.process_all_queues_with_timeout(0).unwrap();

    let pkt1 = Packet::from_f32_slice(
        DataType::named("GPS_DATA"),
        &[1.0_f32, 2.0, 3.0],
        &[DataEndpoint::named("SD_CARD")],
        0,
    )
    .unwrap();
    let pkt2 = Packet::from_f32_slice(
        DataType::named("GPS_DATA"),
        &[4.0_f32, 5.0, 6.0],
        &[DataEndpoint::named("SD_CARD")],
        0,
    )
    .unwrap();

    let seq1 = pack_packet_with_reliable(
        &pkt1,
        ReliableHeader {
            flags: 0,
            seq: 1,
            ack: 0,
        },
    );
    let seq2 = pack_packet_with_reliable(
        &pkt2,
        ReliableHeader {
            flags: 0,
            seq: 2,
            ack: 0,
        },
    );
    relay.rx_packed_from_side(0, seq2.as_ref()).unwrap();
    relay.rx_packed_from_side(0, seq1.as_ref()).unwrap();
    relay.rx_packed_from_side(0, seq2.as_ref()).unwrap();

    relay.process_all_queues_with_timeout(0).unwrap();

    let delivered = delivered.lock().unwrap().clone();
    assert_eq!(
        delivered,
        vec![1, 2],
        "out-of-order frames must be reordered"
    );
}

#[test]
fn tests_relay_reliable_sender_does_not_block_while_waiting_for_ack() {
    let relay = Arc::new(Relay::new(relay_reliable_tests_zero_clock()));

    relay.add_side_packed_with_options(
        "SRC",
        |_b| Ok(()),
        RelaySideOptions {
            reliable_enabled: true,
            link_local_enabled: false,
            ..RelaySideOptions::default()
        },
    );

    let sent: Arc<Mutex<Vec<u32>>> = Arc::new(Mutex::new(Vec::new()));
    let sent_c = sent.clone();
    relay.add_side_packed_with_options(
        "DST",
        move |bytes: &[u8]| -> TelemetryResult<()> {
            let frame = peek_frame_info(bytes)?;
            if let Some(hdr) = frame.reliable.filter(|hdr| frame.envelope.ty == DataType::named("GPS_DATA")) {
                sent_c.lock().unwrap().push(hdr.seq);
            }
            Ok(())
        },
        RelaySideOptions {
            reliable_enabled: true,
            link_local_enabled: false,
            ..RelaySideOptions::default()
        },
    );

    let pkt1 = Packet::from_f32_slice(
        DataType::named("GPS_DATA"),
        &[1.0_f32, 2.0, 3.0],
        &[DataEndpoint::named("SD_CARD")],
        0,
    )
    .unwrap();
    let pkt2 = Packet::from_f32_slice(
        DataType::named("GPS_DATA"),
        &[4.0_f32, 5.0, 6.0],
        &[DataEndpoint::named("SD_CARD")],
        1,
    )
    .unwrap();

    relay.rx_from_side(0, pkt1).unwrap();
    relay.rx_from_side(0, pkt2).unwrap();
    relay.process_all_queues_with_timeout(0).unwrap();

    assert_eq!(*sent.lock().unwrap(), vec![1, 2]);
}

fn reliable_tests_zero_clock() -> Box<dyn Clock + Send + Sync> {
    Box::new(|| 0u64)
}

fn reliable_tests_ensure_reliable_test_schema() {
    static INIT: Once = Once::new();

    INIT.call_once(|| {
        let radio = DataEndpoint::try_named("RADIO").unwrap_or_else(|| {
            register_endpoint_with_description("RADIO", "test radio endpoint", false)
                .expect("register RADIO")
        });
        let sd_card = DataEndpoint::try_named("SD_CARD").unwrap_or_else(|| {
            register_endpoint_with_description("SD_CARD", "test sd endpoint", false)
                .expect("register SD_CARD")
        });
        if DataType::try_named("RELIABLE_TEST_DATA").is_none() {
            register_data_type_with_description(
                "RELIABLE_TEST_DATA",
                "test reliable data type",
                MessageElement::Static(3, MessageDataType::Float32, MessageClass::Data),
                &[radio, sd_card],
                ReliableMode::Ordered,
                1,
            )
            .expect("register RELIABLE_TEST_DATA");
        }
    });
}

#[test]
fn reliable_retransmit_delivers_once() {
    reliable_tests_ensure_reliable_test_schema();
    let rx_hits = Arc::new(AtomicUsize::new(0));
    let rx_hits_c = rx_hits.clone();
    let handler = EndpointHandler::new_packet_handler(
        DataEndpoint::named("SD_CARD"),
        move |_pkt: &Packet| {
            rx_hits_c.fetch_add(1, Ordering::SeqCst);
            Ok(())
        },
    );

    let sender = Arc::new(Router::new_with_clock(
        RouterConfig::new(Vec::new()).with_reliable_enabled(true),
        StepClock::new_box(0, 250),
    ));

    let receiver = Arc::new(Router::new_with_clock(
        RouterConfig::new(vec![handler]).with_reliable_enabled(true),
        reliable_tests_zero_clock(),
    ));

    let sender_side_id: Arc<Mutex<Option<usize>>> = Arc::new(Mutex::new(None));
    let receiver_side_id: Arc<Mutex<Option<usize>>> = Arc::new(Mutex::new(None));

    let sender_for_ack = sender.clone();
    let sender_side_id_c = sender_side_id.clone();
    let receiver_side = receiver.add_side_packed_with_options(
        "TO_SENDER",
        move |bytes: &[u8]| {
            if let Some(side_id) = *sender_side_id_c.lock().unwrap() {
                sender_for_ack.rx_packed_from_side(bytes, side_id)?;
            }
            Ok(())
        },
        RouterSideOptions {
            reliable_enabled: true,
            link_local_enabled: false,
            ..RouterSideOptions::default()
        },
    );
    *receiver_side_id.lock().unwrap() = Some(receiver_side);

    let drop_first = Arc::new(AtomicBool::new(true));
    let receiver_for_tx = receiver.clone();
    let drop_first_tx = drop_first.clone();
    let receiver_side_id_c = receiver_side_id.clone();
    let tx = move |bytes: &[u8]| -> TelemetryResult<()> {
        if drop_first_tx.swap(false, Ordering::SeqCst) {
            return Ok(());
        }
        if let Some(side_id) = *receiver_side_id_c.lock().unwrap() {
            receiver_for_tx.rx_packed_from_side(bytes, side_id)?;
        }
        Ok(())
    };

    let sender_side = sender.add_side_packed_with_options(
        "TO_RECEIVER",
        tx,
        RouterSideOptions {
            reliable_enabled: true,
            link_local_enabled: false,
            ..RouterSideOptions::default()
        },
    );
    *sender_side_id.lock().unwrap() = Some(sender_side);

    let pkt = Packet::from_f32_slice(
        DataType::named("GPS_DATA"),
        &[1.0_f32, 2.0, 3.0],
        &[DataEndpoint::named("SD_CARD")],
        0,
    )
    .unwrap();

    sender.tx(pkt).unwrap();

    for _ in 0..3 {
        sender.process_tx_queue_with_timeout(0).unwrap();
    }

    assert_eq!(rx_hits.load(Ordering::SeqCst), 1);
}

#[test]
fn immediate_rx_from_side_emits_reliable_ack_without_queue_drain() {
    reliable_tests_ensure_reliable_test_schema();

    let sent_frames: Arc<Mutex<Vec<Vec<u8>>>> = Arc::new(Mutex::new(Vec::new()));
    let sent_frames_c = sent_frames.clone();
    let sender = Router::new_with_clock(
        RouterConfig::default().with_reliable_enabled(true),
        reliable_tests_zero_clock(),
    );
    sender.add_side_packed_with_options(
        "to_receiver",
        move |bytes: &[u8]| {
            sent_frames_c.lock().unwrap().push(bytes.to_vec());
            Ok(())
        },
        RouterSideOptions {
            reliable_enabled: true,
            ..RouterSideOptions::default()
        },
    );

    let pkt = Packet::from_f32_slice(
        DataType::named("RELIABLE_TEST_DATA"),
        &[1.0_f32, 2.0, 3.0],
        &[DataEndpoint::named("RADIO")],
        7,
    )
    .unwrap();
    sender.tx(pkt).unwrap();
    let frame = sent_frames.lock().unwrap().first().cloned().unwrap();

    let controls: Arc<Mutex<Vec<Vec<u8>>>> = Arc::new(Mutex::new(Vec::new()));
    let controls_c = controls.clone();
    let receiver = Router::new_with_clock(
        RouterConfig::default().with_reliable_enabled(true),
        reliable_tests_zero_clock(),
    );
    let receiver_side = receiver.add_side_packed_with_options(
        "to_sender",
        move |bytes: &[u8]| {
            controls_c.lock().unwrap().push(bytes.to_vec());
            Ok(())
        },
        RouterSideOptions {
            reliable_enabled: true,
            ..RouterSideOptions::default()
        },
    );

    receiver.rx_packed_from_side(&frame, receiver_side).unwrap();

    let controls = controls.lock().unwrap().clone();
    assert!(
        controls.iter().any(|bytes| {
            peek_envelope(bytes.as_slice())
                .map(|env| env.ty == DataType::ReliableAck)
                .unwrap_or(false)
        }),
        "reliable ack should be emitted immediately on direct rx"
    );
}

#[test]
fn direct_tx_handler_failure_emits_error_without_queue_drain() {
    reliable_tests_ensure_reliable_test_schema();

    let seen: Arc<Mutex<Vec<Vec<u8>>>> = Arc::new(Mutex::new(Vec::new()));
    let seen_c = seen.clone();
    let handler = EndpointHandler::new_packet_handler(DataEndpoint::named("SD_CARD"), |_pkt| {
        Err(TelemetryError::Io("boom"))
    });
    let router = Router::new_with_clock(RouterConfig::new(vec![handler]), reliable_tests_zero_clock());
    router.add_side_packed("observer", move |bytes| {
        seen_c.lock().unwrap().push(bytes.to_vec());
        Ok(())
    });

    let pkt = Packet::from_f32_slice(
        DataType::named("RELIABLE_TEST_DATA"),
        &[9.0_f32, 8.0, 7.0],
        &[DataEndpoint::named("SD_CARD"), DataEndpoint::named("RADIO")],
        11,
    )
    .unwrap();

    router.rx(&pkt).unwrap();

    let seen = seen.lock().unwrap().clone();
    assert!(
        seen.iter().any(|bytes| {
            peek_envelope(bytes.as_slice())
                .map(|env| env.ty == DataType::TelemetryError)
                .unwrap_or(false)
        }),
        "telemetry error should be emitted immediately on direct tx failure"
    );
    assert_eq!(router.debug_queue_lengths().1, 0);
}

#[test]
fn partial_ack_is_emitted_and_still_allows_requested_replay() {
    let sent_frames: Arc<Mutex<Vec<Vec<u8>>>> = Arc::new(Mutex::new(Vec::new()));
    let sent_frames_c = sent_frames.clone();
    let sender = Router::new_with_clock(
        RouterConfig::default().with_reliable_enabled(true),
        reliable_tests_zero_clock(),
    );
    let sender_side = sender.add_side_packed_with_options(
        "to_receiver",
        move |bytes: &[u8]| {
            sent_frames_c.lock().unwrap().push(bytes.to_vec());
            Ok(())
        },
        RouterSideOptions {
            reliable_enabled: true,
            ..RouterSideOptions::default()
        },
    );

    let pkt1 = Packet::from_f32_slice(
        DataType::named("GPS_DATA"),
        &[1.0_f32, 0.0, 0.0],
        &[DataEndpoint::named("RADIO")],
        1,
    )
    .unwrap();
    let pkt2 = Packet::from_f32_slice(
        DataType::named("GPS_DATA"),
        &[2.0_f32, 0.0, 0.0],
        &[DataEndpoint::named("RADIO")],
        2,
    )
    .unwrap();
    sender.tx(pkt1).unwrap();
    sender.tx(pkt2).unwrap();

    let frames = sent_frames.lock().unwrap().clone();
    assert_eq!(frames.len(), 2);

    let receiver_controls: Arc<Mutex<Vec<Vec<u8>>>> = Arc::new(Mutex::new(Vec::new()));
    let receiver_controls_c = receiver_controls.clone();
    let receiver = Router::new_with_clock(
        RouterConfig::default().with_reliable_enabled(true),
        reliable_tests_zero_clock(),
    );
    let receiver_side = receiver.add_side_packed_with_options(
        "to_sender",
        move |bytes: &[u8]| {
            receiver_controls_c.lock().unwrap().push(bytes.to_vec());
            Ok(())
        },
        RouterSideOptions {
            reliable_enabled: true,
            ..RouterSideOptions::default()
        },
    );

    receiver
        .rx_packed_from_side(&frames[1], receiver_side)
        .unwrap();
    receiver.process_tx_queue().unwrap();
    let controls = receiver_controls.lock().unwrap().clone();
    assert!(controls.iter().any(|frame| {
        peek_envelope(frame)
            .map(|env| env.ty == DataType::ReliablePartialAck)
            .unwrap_or(false)
    }));
    assert!(controls.iter().any(|frame| {
        peek_envelope(frame)
            .map(|env| env.ty == DataType::ReliablePacketRequest)
            .unwrap_or(false)
    }));

    let ack1 = Packet::new(
        DataType::ReliableAck,
        message_meta(DataType::ReliableAck).endpoints,
        "RX",
        0,
        encode_slice_le(&[DataType::named("GPS_DATA").as_u32(), 1]),
    )
    .unwrap();
    sender.rx_from_side(&ack1, sender_side).unwrap();
    for control in controls.iter().filter(|frame| {
        peek_envelope(frame)
            .map(|env| env.ty == DataType::ReliablePartialAck)
            .unwrap_or(false)
    }) {
        sender.rx_packed_from_side(control, sender_side).unwrap();
    }

    sent_frames.lock().unwrap().clear();
    let request2 = Packet::new(
        DataType::ReliablePacketRequest,
        message_meta(DataType::ReliablePacketRequest).endpoints,
        "RX",
        0,
        encode_slice_le(&[DataType::named("GPS_DATA").as_u32(), 2]),
    )
    .unwrap();
    sender.rx_from_side(&request2, sender_side).unwrap();
    sender.process_tx_queue_with_timeout(0).unwrap();
    assert!(
        sent_frames
            .lock()
            .unwrap()
            .iter()
            .any(|frame| peek_frame_info(frame)
                .ok()
                .and_then(|info| info.reliable.map(|hdr| hdr.seq == 2))
                .unwrap_or(false)),
        "requested packet should still retransmit"
    );
}

#[test]
fn reliable_ordered_delivers_in_order() {
    let delivered: Arc<Mutex<Vec<u32>>> = Arc::new(Mutex::new(Vec::new()));
    let delivered_c = delivered.clone();
    let handler = EndpointHandler::new_packed_handler(
        DataEndpoint::named("SD_CARD"),
        move |bytes: &[u8]| -> TelemetryResult<()> {
            let frame = peek_frame_info(bytes)?;
            if let Some(hdr) = frame.reliable.filter(|hdr| frame.envelope.ty == DataType::named("GPS_DATA") && (hdr.flags & RELIABLE_FLAG_ACK_ONLY) == 0) {
                delivered_c.lock().unwrap().push(hdr.seq);
            }
            Ok(())
        },
    );

    let router = Router::new_with_clock(
        RouterConfig::new(vec![handler]).with_reliable_enabled(true),
        reliable_tests_zero_clock(),
    );

    let side = router.add_side_packed_with_options(
        "SRC",
        |_b| Ok(()),
        RouterSideOptions {
            reliable_enabled: true,
            link_local_enabled: false,
            ..RouterSideOptions::default()
        },
    );

    let pkt1 = Packet::from_f32_slice(
        DataType::named("GPS_DATA"),
        &[1.0_f32, 2.0, 3.0],
        &[DataEndpoint::named("SD_CARD")],
        0,
    )
    .unwrap();
    let pkt2 = Packet::from_f32_slice(
        DataType::named("GPS_DATA"),
        &[4.0_f32, 5.0, 6.0],
        &[DataEndpoint::named("SD_CARD")],
        0,
    )
    .unwrap();

    let seq1 = pack_packet_with_reliable(
        &pkt1,
        ReliableHeader {
            flags: 0,
            seq: 1,
            ack: 0,
        },
    );
    let seq2 = pack_packet_with_reliable(
        &pkt2,
        ReliableHeader {
            flags: 0,
            seq: 2,
            ack: 0,
        },
    );
    router.rx_packed_from_side(seq2.as_ref(), side).unwrap();
    router.rx_packed_from_side(seq1.as_ref(), side).unwrap();
    router.rx_packed_from_side(seq2.as_ref(), side).unwrap();

    let delivered = delivered.lock().unwrap().clone();
    assert_eq!(
        delivered,
        vec![1, 2],
        "ordered reliable delivery must reorder"
    );
}

#[test]
fn reliable_sender_does_not_block_while_waiting_for_ack() {
    let sent: Arc<Mutex<Vec<u32>>> = Arc::new(Mutex::new(Vec::new()));
    let sent_c = sent.clone();

    let router = Router::new_with_clock(
        RouterConfig::new(Vec::new()).with_reliable_enabled(true),
        reliable_tests_zero_clock(),
    );

    router.add_side_packed_with_options(
        "DST",
        move |bytes: &[u8]| -> TelemetryResult<()> {
            let frame = peek_frame_info(bytes)?;
            if let Some(hdr) = frame.reliable.filter(|hdr| frame.envelope.ty == DataType::named("GPS_DATA")) {
                sent_c.lock().unwrap().push(hdr.seq);
            }
            Ok(())
        },
        RouterSideOptions {
            reliable_enabled: true,
            link_local_enabled: false,
            ..RouterSideOptions::default()
        },
    );

    let pkt1 = Packet::from_f32_slice(
        DataType::named("GPS_DATA"),
        &[1.0_f32, 2.0, 3.0],
        &[DataEndpoint::named("SD_CARD")],
        0,
    )
    .unwrap();
    let pkt2 = Packet::from_f32_slice(
        DataType::named("GPS_DATA"),
        &[4.0_f32, 5.0, 6.0],
        &[DataEndpoint::named("SD_CARD")],
        1,
    )
    .unwrap();

    router.tx(pkt1).unwrap();
    router.tx(pkt2).unwrap();
    router.process_tx_queue_with_timeout(0).unwrap();

    assert_eq!(*sent.lock().unwrap(), vec![1, 2]);
}

#[test]
fn reliable_disabled_skips_ack() {
    let rx_hits = Arc::new(AtomicUsize::new(0));
    let rx_hits_c = rx_hits.clone();
    let handler = EndpointHandler::new_packet_handler(
        DataEndpoint::named("SD_CARD"),
        move |_pkt: &Packet| {
            rx_hits_c.fetch_add(1, Ordering::SeqCst);
            Ok(())
        },
    );

    let ack_count = Arc::new(AtomicUsize::new(0));
    let ack_count_c = ack_count.clone();
    let rx_direct = move |_bytes: &[u8]| -> TelemetryResult<()> {
        ack_count_c.fetch_add(1, Ordering::SeqCst);
        Ok(())
    };

    let receiver = Arc::new(Router::new_with_clock(
        RouterConfig::new(vec![handler]).with_reliable_enabled(false),
        reliable_tests_zero_clock(),
    ));
    receiver.add_side_packed("ACK", rx_direct);

    let rx_for_tx = receiver.clone();
    let tx = move |bytes: &[u8]| -> TelemetryResult<()> {
        rx_for_tx.rx_packed_from_side(bytes, 0)?;
        Ok(())
    };

    let sender = Router::new_with_clock(
        RouterConfig::new(Vec::new()).with_reliable_enabled(false),
        reliable_tests_zero_clock(),
    );
    sender.add_side_packed("TO_RECEIVER", tx);

    let pkt = Packet::from_f32_slice(
        DataType::named("GPS_DATA"),
        &[4.0_f32, 5.0, 6.0],
        &[DataEndpoint::named("SD_CARD")],
        0,
    )
    .unwrap();

    sender.tx(pkt).unwrap();

    assert_eq!(rx_hits.load(Ordering::SeqCst), 1);
    assert_eq!(ack_count.load(Ordering::SeqCst), 0);
}

fn discovery_tests_zero_clock() -> Box<dyn Clock + Send + Sync> {
    StepClock::new_box(0, 0)
}

fn discovery_tests_ensure_topology_test_schema() {
    static INIT: Once = Once::new();

    INIT.call_once(|| {
        let radio = DataEndpoint::try_named("RADIO").unwrap_or_else(|| {
            register_endpoint_with_description("RADIO", "test radio endpoint", false)
                .expect("register RADIO")
        });
        let sd_card = DataEndpoint::try_named("SD_CARD").unwrap_or_else(|| {
            register_endpoint_with_description("SD_CARD", "test sd endpoint", false)
                .expect("register SD_CARD")
        });
        if DataType::try_named("GPS_DATA").is_none() {
            register_data_type_with_description(
                "GPS_DATA",
                "test gps data type",
                MessageElement::Static(3, MessageDataType::Float32, MessageClass::Data),
                &[radio, sd_card],
                ReliableMode::BestEffort,
                1,
            )
            .expect("register GPS_DATA");
        }
    });
}

fn discovery_tests_ensure_reliable_overlap_test_schema() -> DataType {
    static INIT: Once = Once::new();

    INIT.call_once(|| {
        let gs = DataEndpoint::try_named("GROUND_STATION").unwrap_or_else(|| {
            register_endpoint_with_description(
                "GROUND_STATION",
                "test ground station endpoint",
                false,
            )
            .expect("register GROUND_STATION")
        });
        let actuator = DataEndpoint::try_named("ACTUATOR_BOARD").unwrap_or_else(|| {
            register_endpoint_with_description(
                "ACTUATOR_BOARD",
                "test actuator endpoint",
                false,
            )
            .expect("register ACTUATOR_BOARD")
        });
        if DataType::try_named("RELIABLE_COMMAND_TEST").is_none() {
            register_data_type_with_description(
                "RELIABLE_COMMAND_TEST",
                "test reliable command type",
                MessageElement::Static(1, MessageDataType::Float32, MessageClass::Data),
                &[gs, actuator],
                ReliableMode::Ordered,
                1,
            )
            .expect("register RELIABLE_COMMAND_TEST");
        }
    });

    DataType::named("RELIABLE_COMMAND_TEST")
}

#[derive(Clone)]
struct DiscoveryTestsSharedClock {
    now_ms: Arc<AtomicU64>,
}

impl Clock for DiscoveryTestsSharedClock {
    fn now_ms(&self) -> u64 {
        self.now_ms.load(Ordering::SeqCst)
    }
}

fn discovery_tests_endpoint_by_name(name: &str) -> Option<DataEndpoint> {
    for i in 0..=MAX_VALUE_DATA_ENDPOINT {
        if let Some(ep) = DataEndpoint::try_from_u32(i).filter(|x| { let ep = *x; ep.as_str() == name }) {
            return Some(ep);
        }
    }
    None
}

fn discovery_tests_datatype_by_name(name: &str) -> Option<DataType> {
    for i in 0..=MAX_VALUE_DATA_TYPE {
        if let Some(ty) = DataType::try_from_u32(i).filter(|x| { let ty = *x; get_message_name(ty) == name }) {
            return Some(ty);
        }
    }
    None
}

fn discovery_tests_pump_routers(routers: &[&Router], rounds: usize) {
    for _ in 0..rounds {
        for router in routers {
            router.process_all_queues().unwrap();
        }
    }
}

fn discovery_tests_side_stats(
    stats: &RuntimeStatsSnapshot,
    side_id: usize,
) -> &RuntimeSideStats {
    stats
        .sides
        .iter()
        .find(|side| side.side_id == side_id)
        .unwrap()
}

fn discovery_tests_type_stats(
    side: &RuntimeSideStats,
    ty: DataType,
) -> &RuntimeTypeStats {
    side.data_types
        .iter()
        .find(|item| item.data_type == ty)
        .unwrap()
}

#[test]
fn discovery_link_capabilities_roundtrip() {
    let caps = LinkCapabilities {
        version: 1,
        flags: LINK_CAPABILITY_HEADER_TEMPLATES
            | LINK_CAPABILITY_CHUNKING
            | LINK_CAPABILITY_RELIABILITY
            | LINK_CAPABILITY_END_TO_END_RELIABILITY
            | LINK_CAPABILITY_OMIT_UNCHANGED_TIMESTAMPS,
        profile: LINK_PROFILE_IPV4_LIKE,
        max_frame_bytes: 64,
        compact_header_target_bytes: 20,
        max_side_transport_templates: 8,
    };
    let pkt = build_discovery_link_capabilities("NODE_A", 42, caps).unwrap();
    assert_eq!(pkt.data_type(), DataType::DiscoveryLinkCapabilities);
    let decoded = decode_discovery_link_capabilities(&pkt).unwrap();
    assert_eq!(decoded, caps);
}

#[test]
fn router_discovery_advertises_side_link_capabilities() {
    let seen: Arc<Mutex<Vec<Packet>>> = Arc::new(Mutex::new(Vec::new()));
    let seen_cb = seen.clone();
    let router = Router::new_with_clock(RouterConfig::default(), discovery_tests_zero_clock());
    router.add_side_packet_with_options(
        "RADIO",
        move |pkt| {
            seen_cb.lock().unwrap().push(pkt.clone());
            Ok(())
        },
        RouterSideOptions {
            reliable_enabled: true,
            max_frame_bytes: 64,
            max_side_transport_templates: 8,
            ..RouterSideOptions::default().with_ipv4_like_compact_header_target()
        },
    );

    router.announce_discovery().unwrap();
    router.process_tx_queue().unwrap();

    let packets = seen.lock().unwrap();
    let caps_pkt = packets
        .iter()
        .find(|pkt| pkt.data_type() == DataType::DiscoveryAddress)
        .expect("missing unified address discovery packet");
    let caps = decode_discovery_address(caps_pkt)
        .unwrap()
        .link_capabilities;
    assert_eq!(caps.version, 1);
    assert_eq!(caps.profile, LINK_PROFILE_IPV4_LIKE);
    assert_eq!(caps.max_frame_bytes, 64);
    assert_eq!(caps.compact_header_target_bytes, 20);
    assert_eq!(caps.max_side_transport_templates, 8);
    assert_ne!(caps.flags & LINK_CAPABILITY_HEADER_TEMPLATES, 0);
    assert_ne!(caps.flags & LINK_CAPABILITY_CHUNKING, 0);
    assert_ne!(caps.flags & LINK_CAPABILITY_RELIABILITY, 0);
    assert_ne!(caps.flags & LINK_CAPABILITY_END_TO_END_RELIABILITY, 0);
    assert_ne!(caps.flags & LINK_CAPABILITY_OMIT_UNCHANGED_TIMESTAMPS, 0);
}

#[test]
fn discovery_master_election_prefers_central_low_hop_router() {
    let boards = vec![
        TopologyBoardNode {
            sender_id: "A_NODE".to_string(),
            reachable_endpoints: Vec::new(),
            reachable_timesync_sources: Vec::new(),
            connections: vec!["B_NODE".to_string()],
        },
        TopologyBoardNode {
            sender_id: "B_NODE".to_string(),
            reachable_endpoints: Vec::new(),
            reachable_timesync_sources: Vec::new(),
            connections: vec!["A_NODE".to_string(), "C_NODE".to_string()],
        },
        TopologyBoardNode {
            sender_id: "C_NODE".to_string(),
            reachable_endpoints: Vec::new(),
            reachable_timesync_sources: Vec::new(),
            connections: vec!["B_NODE".to_string()],
        },
    ];
    assert_eq!(
        elect_discovery_master("A_NODE", &boards),
        "B_NODE"
    );
}

#[test]
fn discovery_master_election_uses_deterministic_tiebreaks_and_fails_over() {
    let symmetric_ring = vec![
        TopologyBoardNode {
            sender_id: "A_NODE".to_string(),
            reachable_endpoints: Vec::new(),
            reachable_timesync_sources: Vec::new(),
            connections: vec!["B_NODE".to_string(), "D_NODE".to_string()],
        },
        TopologyBoardNode {
            sender_id: "B_NODE".to_string(),
            reachable_endpoints: Vec::new(),
            reachable_timesync_sources: Vec::new(),
            connections: vec!["A_NODE".to_string(), "C_NODE".to_string()],
        },
        TopologyBoardNode {
            sender_id: "C_NODE".to_string(),
            reachable_endpoints: Vec::new(),
            reachable_timesync_sources: Vec::new(),
            connections: vec!["B_NODE".to_string(), "D_NODE".to_string()],
        },
        TopologyBoardNode {
            sender_id: "D_NODE".to_string(),
            reachable_endpoints: Vec::new(),
            reachable_timesync_sources: Vec::new(),
            connections: vec!["A_NODE".to_string(), "C_NODE".to_string()],
        },
    ];
    assert_eq!(
        elect_discovery_master("D_NODE", &symmetric_ring),
        "A_NODE"
    );

    let failed_over_ring = vec![
        TopologyBoardNode {
            sender_id: "B_NODE".to_string(),
            reachable_endpoints: Vec::new(),
            reachable_timesync_sources: Vec::new(),
            connections: vec!["C_NODE".to_string()],
        },
        TopologyBoardNode {
            sender_id: "C_NODE".to_string(),
            reachable_endpoints: Vec::new(),
            reachable_timesync_sources: Vec::new(),
            connections: vec!["B_NODE".to_string(), "D_NODE".to_string()],
        },
        TopologyBoardNode {
            sender_id: "D_NODE".to_string(),
            reachable_endpoints: Vec::new(),
            reachable_timesync_sources: Vec::new(),
            connections: vec!["C_NODE".to_string()],
        },
    ];
    assert_eq!(
        elect_discovery_master("D_NODE", &failed_over_ring),
        "C_NODE"
    );
}

#[test]
fn unknown_remote_endpoint_does_not_flood_without_discovery_route() {
    discovery_tests_ensure_topology_test_schema();

    let seen_a: Arc<Mutex<Vec<Packet>>> = Arc::new(Mutex::new(Vec::new()));
    let seen_b: Arc<Mutex<Vec<Packet>>> = Arc::new(Mutex::new(Vec::new()));
    let seen_a_c = seen_a.clone();
    let seen_b_c = seen_b.clone();

    let router = Router::new_with_clock(RouterConfig::default(), discovery_tests_zero_clock());
    router.add_side_packet("A", move |pkt: &Packet| -> TelemetryResult<()> {
        seen_a_c.lock().unwrap().push(pkt.clone());
        Ok(())
    });
    router.add_side_packet("B", move |pkt: &Packet| -> TelemetryResult<()> {
        seen_b_c.lock().unwrap().push(pkt.clone());
        Ok(())
    });

    let pkt = Packet::from_f32_slice(
        DataType::named("GPS_DATA"),
        &[1.0_f32, 2.0, 3.0],
        &[DataEndpoint::named("RADIO")],
        42,
    )
    .unwrap();
    router.tx(pkt).unwrap();

    assert!(seen_a.lock().unwrap().is_empty());
    assert!(seen_b.lock().unwrap().is_empty());
}

#[test]
fn unknown_remote_endpoint_does_not_fallback_to_single_side_after_topology_exists() {
    discovery_tests_ensure_topology_test_schema();

    let seen: Arc<Mutex<Vec<Packet>>> = Arc::new(Mutex::new(Vec::new()));
    let seen_c = seen.clone();

    let router = Router::new_with_clock(RouterConfig::default(), discovery_tests_zero_clock());
    let side =
        router.add_side_packet("RADIO", move |pkt: &Packet| -> TelemetryResult<()> {
            seen_c.lock().unwrap().push(pkt.clone());
            Ok(())
        });
    router
        .rx_from_side(
            &build_discovery_announce("REMOTE_SD", 0, &[DataEndpoint::named("SD_CARD")])
                .unwrap(),
            side,
        )
        .unwrap();

    let pkt = Packet::from_f32_slice(
        DataType::named("GPS_DATA"),
        &[1.0_f32, 2.0, 3.0],
        &[DataEndpoint::named("RADIO")],
        42,
    )
    .unwrap();
    router.tx(pkt).unwrap();

    assert!(seen.lock().unwrap().is_empty());
}

#[test]
fn topology_requests_use_elected_master_and_late_joiners_get_fresh_topology() {
    discovery_tests_ensure_topology_test_schema();

    let opts = RouterSideOptions {
        reliable_enabled: true,
        ..RouterSideOptions::default()
    };

    let a = Arc::new(Router::new_with_clock(
        RouterConfig::default().with_sender("A_NODE"),
        discovery_tests_zero_clock(),
    ));
    let b = Arc::new(Router::new_with_clock(
        RouterConfig::default().with_sender("B_NODE"),
        discovery_tests_zero_clock(),
    ));
    let c = Arc::new(Router::new_with_clock(
        RouterConfig::default().with_sender("C_NODE"),
        discovery_tests_zero_clock(),
    ));

    let a_ingress_from_b: Arc<Mutex<Option<usize>>> = Arc::new(Mutex::new(None));
    let b_ingress_from_a: Arc<Mutex<Option<usize>>> = Arc::new(Mutex::new(None));
    let b_ingress_from_c: Arc<Mutex<Option<usize>>> = Arc::new(Mutex::new(None));
    let c_ingress_from_b: Arc<Mutex<Option<usize>>> = Arc::new(Mutex::new(None));

    let b_for_a = b.clone();
    let b_ingress_from_a_c = b_ingress_from_a.clone();
    let _a_to_b = a.add_side_packed_with_options(
        "A_TO_B",
        move |bytes| {
            if let Some(side) = *b_ingress_from_a_c.lock().unwrap() {
                b_for_a.rx_packed_from_side(bytes, side)?;
            }
            Ok(())
        },
        opts,
    );

    let a_for_b = a.clone();
    let a_ingress_from_b_c = a_ingress_from_b.clone();
    let b_to_a = b.add_side_packed_with_options(
        "B_TO_A",
        move |bytes| {
            if let Some(side) = *a_ingress_from_b_c.lock().unwrap() {
                a_for_b.rx_packed_from_side(bytes, side)?;
            }
            Ok(())
        },
        opts,
    );
    *b_ingress_from_a.lock().unwrap() = Some(b_to_a);
    *a_ingress_from_b.lock().unwrap() = Some(_a_to_b);

    a.announce_discovery().unwrap();
    b.announce_discovery().unwrap();
    discovery_tests_pump_routers(&[a.as_ref(), b.as_ref()], 6);

    let b_to_c_frames: Arc<Mutex<Vec<Vec<u8>>>> = Arc::new(Mutex::new(Vec::new()));
    let b_to_c_frames_c = b_to_c_frames.clone();
    let c_to_b_frames: Arc<Mutex<Vec<Vec<u8>>>> = Arc::new(Mutex::new(Vec::new()));
    let c_to_b_frames_c = c_to_b_frames.clone();
    let c_for_b = c.clone();
    let c_ingress_from_b_c = c_ingress_from_b.clone();
    let _b_to_c = b.add_side_packed_with_options(
        "B_TO_C",
        move |bytes| {
            b_to_c_frames_c.lock().unwrap().push(bytes.to_vec());
            if let Some(side) = *c_ingress_from_b_c.lock().unwrap() {
                c_for_b.rx_packed_from_side(bytes, side)?;
            }
            Ok(())
        },
        opts,
    );

    let b_for_c = b.clone();
    let b_ingress_from_c_c = b_ingress_from_c.clone();
    let c_to_b = c.add_side_packed_with_options(
        "C_TO_B",
        move |bytes| {
            c_to_b_frames_c.lock().unwrap().push(bytes.to_vec());
            if let Some(side) = *b_ingress_from_c_c.lock().unwrap() {
                b_for_c.rx_packed_from_side(bytes, side)?;
            }
            Ok(())
        },
        opts,
    );
    *c_ingress_from_b.lock().unwrap() = Some(c_to_b);
    *b_ingress_from_c.lock().unwrap() = Some(_b_to_c);

    assert!(
        !c.export_topology()
            .routers
            .iter()
            .any(|board| board.sender_id == "A_NODE")
    );
    b_to_c_frames.lock().unwrap().clear();
    c_to_b_frames.lock().unwrap().clear();

    c.request_topology().unwrap();
    c.request_schema().unwrap();
    discovery_tests_pump_routers(
        &[c.as_ref(), b.as_ref(), a.as_ref(), b.as_ref(), c.as_ref()],
        8,
    );

    let c_topology = c.export_topology();
    assert!(
        c_topology
            .routers
            .iter()
            .any(|board| board.sender_id == "A_NODE")
            && c_topology
                .routers
                .iter()
                .any(|board| board.sender_id == "B_NODE")
            && c_topology
                .routers
                .iter()
                .any(|board| board.sender_id == "C_NODE")
    );

    let a_topology = a.export_topology();
    assert!(
        a_topology
            .routers
            .iter()
            .any(|board| board.sender_id == "C_NODE"),
        "topology reply propagation should update routers along the path too"
    );

    let request_frames = c_to_b_frames.lock().unwrap().clone();
    assert!(request_frames.iter().any(|bytes| {
        peek_frame_info(bytes.as_slice())
            .map(|frame| {
                frame.envelope.ty == DataType::DiscoveryTopologyRequest
                    && frame.reliable.is_some()
            })
            .unwrap_or(false)
    }));

    let frames = b_to_c_frames.lock().unwrap().clone();
    let frame_summary: Vec<(DataType, String, bool)> = frames
        .iter()
        .map(|bytes| {
            let frame = peek_frame_info(bytes.as_slice()).unwrap();
            let pkt = unpack_packet(bytes.as_slice()).unwrap();
            (
                frame.envelope.ty,
                pkt.sender().to_string(),
                frame.reliable.is_some(),
            )
        })
        .collect();
    assert!(
        frames.iter().any(|bytes| {
            let frame = peek_frame_info(bytes.as_slice()).unwrap();
            frame.envelope.ty == DataType::DiscoveryTopology && frame.reliable.is_some()
        }),
        "{frame_summary:?}"
    );
    assert!(
        frames.iter().any(|bytes| {
            let frame = peek_frame_info(bytes.as_slice()).unwrap();
            frame.envelope.ty == DataType::DiscoverySchema && frame.reliable.is_some()
        }),
        "{frame_summary:?}"
    );
}

#[test]
fn timesync_leadership_is_separate_from_discovery_master_election() {
    let boards = vec![
        TopologyBoardNode {
            sender_id: "A_NODE".to_string(),
            reachable_endpoints: Vec::new(),
            reachable_timesync_sources: vec!["A_NODE".to_string()],
            connections: vec!["B_NODE".to_string()],
        },
        TopologyBoardNode {
            sender_id: "B_NODE".to_string(),
            reachable_endpoints: Vec::new(),
            reachable_timesync_sources: vec!["B_NODE".to_string()],
            connections: vec!["A_NODE".to_string(), "C_NODE".to_string()],
        },
        TopologyBoardNode {
            sender_id: "C_NODE".to_string(),
            reachable_endpoints: Vec::new(),
            reachable_timesync_sources: Vec::new(),
            connections: vec!["B_NODE".to_string()],
        },
    ];
    assert_eq!(
        elect_discovery_master("C_NODE", &boards),
        "B_NODE"
    );

    let mut tracker =
        TimeSyncTracker::new(TimeSyncConfig {
            role: TimeSyncRole::Consumer,
            priority: 100,
            ..Default::default()
        });
    tracker
        .handle_announce(
            &build_timesync_announce_with_sender("A_NODE", 1, 1_000)
                .unwrap(),
            0,
        )
        .unwrap();
    tracker
        .handle_announce(
            &build_timesync_announce_with_sender("B_NODE", 20, 1_000)
                .unwrap(),
            0,
        )
        .unwrap();

    let leader = tracker.leader(0, false);
    assert!(matches!(
        leader,
        Some(TimeSyncLeader::Remote(ref src)) if src.sender == "A_NODE"
    ));
}

#[test]
fn router_uses_discovery_routes_for_outbound_packets() {
    let seen_a: Arc<Mutex<Vec<Packet>>> = Arc::new(Mutex::new(Vec::new()));
    let seen_b: Arc<Mutex<Vec<Packet>>> = Arc::new(Mutex::new(Vec::new()));
    let seen_a_c = seen_a.clone();
    let seen_b_c = seen_b.clone();

    let router = Router::new_with_clock(RouterConfig::default(), discovery_tests_zero_clock());
    let side_a = router.add_side_packet("A", move |pkt: &Packet| -> TelemetryResult<()> {
        seen_a_c.lock().unwrap().push(pkt.clone());
        Ok(())
    });
    router.add_side_packet("B", move |pkt: &Packet| -> TelemetryResult<()> {
        seen_b_c.lock().unwrap().push(pkt.clone());
        Ok(())
    });

    let discovery_pkt =
        build_discovery_announce("REMOTE_A", 0, &[DataEndpoint::named("RADIO")]).unwrap();
    router.rx_from_side(&discovery_pkt, side_a).unwrap();
    seen_a.lock().unwrap().clear();
    seen_b.lock().unwrap().clear();

    let msg = Packet::from_f32_slice(
        DataType::named("GPS_DATA"),
        &[1.0, 2.0, 3.0],
        &[DataEndpoint::named("RADIO")],
        1,
    )
    .unwrap();
    router.tx(msg).unwrap();

    let got_a = seen_a.lock().unwrap().clone();
    let got_b = seen_b.lock().unwrap().clone();
    assert_eq!(
        count_packets_of_type(&got_a, DataType::named("GPS_DATA")),
        1
    );
    assert_eq!(
        count_packets_of_type(&got_b, DataType::named("GPS_DATA")),
        0
    );
}

#[test]
fn queued_discovery_is_processed_before_queued_telemetry_routing() {
    discovery_tests_ensure_topology_test_schema();

    let seen_a: Arc<Mutex<Vec<Packet>>> = Arc::new(Mutex::new(Vec::new()));
    let seen_b: Arc<Mutex<Vec<Packet>>> = Arc::new(Mutex::new(Vec::new()));
    let seen_a_c = seen_a.clone();
    let seen_b_c = seen_b.clone();

    let router = Router::new_with_clock(RouterConfig::default(), discovery_tests_zero_clock());
    let side_a = router.add_side_packet("A", move |pkt: &Packet| -> TelemetryResult<()> {
        seen_a_c.lock().unwrap().push(pkt.clone());
        Ok(())
    });
    router.add_side_packet("B", move |pkt: &Packet| -> TelemetryResult<()> {
        seen_b_c.lock().unwrap().push(pkt.clone());
        Ok(())
    });

    let discovery_pkt =
        build_discovery_announce("REMOTE_A", 0, &[DataEndpoint::named("RADIO")]).unwrap();
    router.rx_queue_from_side(discovery_pkt, side_a).unwrap();
    router
        .tx_queue(
            Packet::from_f32_slice(
                DataType::named("GPS_DATA"),
                &[1.0, 2.0, 3.0],
                &[DataEndpoint::named("RADIO")],
                1,
            )
            .unwrap(),
        )
        .unwrap();

    router.process_tx_queue().unwrap();

    assert_eq!(
        count_packets_of_type(&seen_a.lock().unwrap(), DataType::named("GPS_DATA")),
        1
    );
    assert_eq!(
        count_packets_of_type(&seen_b.lock().unwrap(), DataType::named("GPS_DATA")),
        0
    );
}

#[test]
fn reliable_immediate_tx_prefers_highest_overlap_discovered_holder() {
    discovery_tests_ensure_topology_test_schema();
    let reliable_ty = discovery_tests_ensure_reliable_overlap_test_schema();
    let gs = DataEndpoint::named("GROUND_STATION");
    let actuator = DataEndpoint::named("ACTUATOR_BOARD");
    let radio = DataEndpoint::named("RADIO");

    let seen_a: Arc<Mutex<Vec<Packet>>> = Arc::new(Mutex::new(Vec::new()));
    let seen_b: Arc<Mutex<Vec<Packet>>> = Arc::new(Mutex::new(Vec::new()));
    let seen_c: Arc<Mutex<Vec<Packet>>> = Arc::new(Mutex::new(Vec::new()));
    let seen_a_c = seen_a.clone();
    let seen_b_c = seen_b.clone();
    let seen_c_c = seen_c.clone();

    let router = Router::new_with_clock(RouterConfig::default(), discovery_tests_zero_clock());
    let side_a = router.add_side_packet("A", move |pkt: &Packet| -> TelemetryResult<()> {
        seen_a_c.lock().unwrap().push(pkt.clone());
        Ok(())
    });
    let side_b = router.add_side_packet("B", move |pkt: &Packet| -> TelemetryResult<()> {
        seen_b_c.lock().unwrap().push(pkt.clone());
        Ok(())
    });
    let side_c = router.add_side_packet("C", move |pkt: &Packet| -> TelemetryResult<()> {
        seen_c_c.lock().unwrap().push(pkt.clone());
        Ok(())
    });

    router
        .rx_from_side(
            &build_discovery_announce("GS_ONLY", 0, &[gs]).unwrap(),
            side_a,
        )
        .unwrap();
    router
        .rx_from_side(
            &build_discovery_announce("BEST_HOLDER", 0, &[gs, actuator]).unwrap(),
            side_b,
        )
        .unwrap();
    router
        .rx_from_side(
            &build_discovery_announce("UNRELATED", 0, &[radio]).unwrap(),
            side_c,
        )
        .unwrap();
    seen_a.lock().unwrap().clear();
    seen_b.lock().unwrap().clear();
    seen_c.lock().unwrap().clear();

    let pkt = Packet::from_f32_slice(reliable_ty, &[9.0], &[gs, actuator], 1).unwrap();
    router.tx(pkt).unwrap();

    assert_eq!(
        count_packets_of_type(&seen_a.lock().unwrap(), reliable_ty),
        0
    );
    assert_eq!(
        count_packets_of_type(&seen_b.lock().unwrap(), reliable_ty),
        1
    );
    assert_eq!(
        count_packets_of_type(&seen_c.lock().unwrap(), reliable_ty),
        0
    );
}

#[test]
fn reliable_queued_tx_prefers_highest_overlap_discovered_holder() {
    discovery_tests_ensure_topology_test_schema();
    let reliable_ty = discovery_tests_ensure_reliable_overlap_test_schema();
    let gs = DataEndpoint::named("GROUND_STATION");
    let actuator = DataEndpoint::named("ACTUATOR_BOARD");
    let radio = DataEndpoint::named("RADIO");

    let seen_a: Arc<Mutex<Vec<Packet>>> = Arc::new(Mutex::new(Vec::new()));
    let seen_b: Arc<Mutex<Vec<Packet>>> = Arc::new(Mutex::new(Vec::new()));
    let seen_c: Arc<Mutex<Vec<Packet>>> = Arc::new(Mutex::new(Vec::new()));
    let seen_a_c = seen_a.clone();
    let seen_b_c = seen_b.clone();
    let seen_c_c = seen_c.clone();

    let router = Router::new_with_clock(RouterConfig::default(), discovery_tests_zero_clock());
    let side_a = router.add_side_packet("A", move |pkt: &Packet| -> TelemetryResult<()> {
        seen_a_c.lock().unwrap().push(pkt.clone());
        Ok(())
    });
    let side_b = router.add_side_packet("B", move |pkt: &Packet| -> TelemetryResult<()> {
        seen_b_c.lock().unwrap().push(pkt.clone());
        Ok(())
    });
    let side_c = router.add_side_packet("C", move |pkt: &Packet| -> TelemetryResult<()> {
        seen_c_c.lock().unwrap().push(pkt.clone());
        Ok(())
    });

    router
        .rx_from_side(
            &build_discovery_announce("GS_ONLY", 0, &[gs]).unwrap(),
            side_a,
        )
        .unwrap();
    router
        .rx_from_side(
            &build_discovery_announce("BEST_HOLDER", 0, &[gs, actuator]).unwrap(),
            side_b,
        )
        .unwrap();
    router
        .rx_from_side(
            &build_discovery_announce("UNRELATED", 0, &[radio]).unwrap(),
            side_c,
        )
        .unwrap();
    seen_a.lock().unwrap().clear();
    seen_b.lock().unwrap().clear();
    seen_c.lock().unwrap().clear();

    router
        .tx_queue(Packet::from_f32_slice(reliable_ty, &[7.0], &[gs, actuator], 2).unwrap())
        .unwrap();
    router.process_tx_queue().unwrap();

    assert_eq!(
        count_packets_of_type(&seen_a.lock().unwrap(), reliable_ty),
        0
    );
    assert_eq!(
        count_packets_of_type(&seen_b.lock().unwrap(), reliable_ty),
        1
    );
    assert_eq!(
        count_packets_of_type(&seen_c.lock().unwrap(), reliable_ty),
        0
    );
}

#[test]
fn reliable_tracking_ignores_local_endpoint_only_discovery_announcers() {
    discovery_tests_ensure_topology_test_schema();
    let reliable_ty = discovery_tests_ensure_reliable_overlap_test_schema();
    let gs = DataEndpoint::named("GROUND_STATION");
    let actuator = DataEndpoint::named("ACTUATOR_BOARD");

    let router = Router::new_with_clock(
        RouterConfig::new(vec![EndpointHandler::new_packet_handler(gs, |_pkt| Ok(()))])
            .with_sender("SRC"),
        StepClock::new_box(0, 0),
    );
    let side = router.add_side_packed_with_options(
        "link",
        |_bytes| Ok(()),
        RouterSideOptions {
            reliable_enabled: true,
            link_local_enabled: false,
            ..RouterSideOptions::default()
        },
    );

    router
        .rx_from_side(
            &build_discovery_announce("GS_ONLY", 0, &[gs]).unwrap(),
            side,
        )
        .unwrap();
    router
        .rx_from_side(
            &build_discovery_announce("ACTUATOR_ONLY", 0, &[actuator]).unwrap(),
            side,
        )
        .unwrap();

    let pkt = Packet::from_f32_slice(reliable_ty, &[3.0], &[gs, actuator], 10).unwrap();
    let packet_id = pkt.packet_id();
    router.tx(pkt).unwrap();

    assert_eq!(
        router.debug_end_to_end_pending_destination_count(packet_id),
        Some(1),
        "local-only endpoint announcers must not create phantom end-to-end ack expectations",
    );
}

#[test]
fn end_to_end_pending_destinations_clear_when_discovered_holder_expires() {

    let now_ms = Arc::new(AtomicU64::new(0));
    let clock = Box::new(DiscoveryTestsSharedClock {
        now_ms: now_ms.clone(),
    });
    let router = Router::new_with_clock(RouterConfig::default().with_sender("SRC"), clock);
    let side = router.add_side_packed_with_options(
        "link",
        |_bytes| Ok(()),
        RouterSideOptions {
            reliable_enabled: true,
            link_local_enabled: false,
            ..RouterSideOptions::default()
        },
    );

    router
        .rx_from_side(
            &build_discovery_announce("DEST_A", 0, &[DataEndpoint::named("RADIO")])
                .unwrap(),
            side,
        )
        .unwrap();
    router
        .rx_from_side(
            &build_discovery_announce("DEST_B", 0, &[DataEndpoint::named("RADIO")])
                .unwrap(),
            side,
        )
        .unwrap();

    let pkt = Packet::from_f32_slice(
        DataType::named("GPS_DATA"),
        &[11.0, 0.0, 0.0],
        &[DataEndpoint::named("RADIO")],
        11,
    )
    .unwrap();
    let packet_id = pkt.packet_id();
    router.tx(pkt).unwrap();
    assert_eq!(
        router.debug_end_to_end_pending_destination_count(packet_id),
        Some(2)
    );

    let ack = Packet::new(
        DataType::ReliableAck,
        message_meta(DataType::ReliableAck).endpoints,
        "E2EACK:DEST_A",
        0,
        Arc::<[u8]>::from(packet_id.to_le_bytes().to_vec()),
    )
    .unwrap();
    router.rx_from_side(&ack, side).unwrap();
    assert_eq!(
        router.debug_end_to_end_pending_destination_count(packet_id),
        Some(1)
    );

    now_ms.store(DISCOVERY_ROUTE_TTL_MS + 1, Ordering::SeqCst);
    router.periodic_no_timesync(0).unwrap();
    assert_eq!(
        router.debug_end_to_end_pending_destination_count(packet_id),
        None
    );
}

#[test]
fn in_flight_end_to_end_destinations_survive_topology_reachability_changes() {
    let router = Router::new_with_clock(
        RouterConfig::default().with_sender("SRC"),
        StepClock::new_box(0, 0),
    );
    let side = router.add_side_packed_with_options(
        "link",
        |_bytes| Ok(()),
        RouterSideOptions {
            reliable_enabled: true,
            link_local_enabled: false,
            ..RouterSideOptions::default()
        },
    );

    router
        .rx_from_side(
            &build_discovery_announce("DEST_A", 0, &[DataEndpoint::named("RADIO")])
                .unwrap(),
            side,
        )
        .unwrap();
    router
        .rx_from_side(
            &build_discovery_announce("DEST_B", 0, &[DataEndpoint::named("RADIO")])
                .unwrap(),
            side,
        )
        .unwrap();

    let pkt = Packet::from_f32_slice(
        DataType::named("GPS_DATA"),
        &[21.0, 0.0, 0.0],
        &[DataEndpoint::named("RADIO")],
        21,
    )
    .unwrap();
    let packet_id = pkt.packet_id();
    router.tx(pkt).unwrap();
    assert_eq!(
        router.debug_end_to_end_pending_destination_count(packet_id),
        Some(2)
    );

    router
        .rx_from_side(
            &build_discovery_announce("DEST_A", 1, &[DataEndpoint::named("SD_CARD")])
                .unwrap(),
            side,
        )
        .unwrap();
    router
        .rx_from_side(
            &build_discovery_announce("DEST_B", 1, &[DataEndpoint::named("SD_CARD")])
                .unwrap(),
            side,
        )
        .unwrap();

    assert_eq!(
        router.debug_end_to_end_pending_destination_count(packet_id),
        Some(2)
    );
}

#[test]
fn in_flight_end_to_end_destinations_survive_runtime_data_type_removal() {

    let name_of_type = "DISCOVERY_INFLIGHT_TYPE_9101";
    let _ = remove_data_type_by_name(name_of_type);
    let custom_ty = register_data_type_with_description(
        name_of_type,
        "inflight custom type",
        MessageElement::Dynamic(MessageDataType::Binary, MessageClass::Data),
        &[DataEndpoint::named("RADIO")],
        ReliableMode::BestEffort,
        3,
    )
    .unwrap();

    let router = Router::new_with_clock(
        RouterConfig::default().with_sender("SRC"),
        StepClock::new_box(0, 0),
    );
    let side = router.add_side_packed_with_options(
        "link",
        |_bytes| Ok(()),
        RouterSideOptions {
            reliable_enabled: true,
            link_local_enabled: false,
            ..RouterSideOptions::default()
        },
    );

    router
        .rx_from_side(
            &build_discovery_announce("DEST_A", 0, &[DataEndpoint::named("RADIO")])
                .unwrap(),
            side,
        )
        .unwrap();

    let pkt = Packet::new(
        custom_ty,
        &[DataEndpoint::named("RADIO")],
        "SRC",
        0,
        Arc::<[u8]>::from(vec![1u8, 2, 3, 4]),
    )
    .unwrap();
    let packet_id = pkt.packet_id();
    router.tx(pkt).unwrap();
    assert_eq!(
        router.debug_end_to_end_pending_destination_count(packet_id),
        Some(1)
    );

    assert!(remove_data_type_by_name(name_of_type).unwrap());
    router.periodic_no_timesync(0).unwrap();
    assert_eq!(
        router.debug_end_to_end_pending_destination_count(packet_id),
        Some(1)
    );
}

#[test]
fn explicit_target_contract_skips_wrong_local_router_delivery() {
    let hits = Arc::new(AtomicUsize::new(0));
    let hits_c = hits.clone();
    let router = Router::new_with_clock(
        RouterConfig::new(vec![EndpointHandler::new_packet_handler(
            DataEndpoint::named("RADIO"),
            move |_pkt| {
                hits_c.fetch_add(1, Ordering::SeqCst);
                Ok(())
            },
        )])
        .with_sender("LOCAL"),
        StepClock::new_box(0, 0),
    );
    let side = router.add_side_packet("LINK", |_pkt: &Packet| Ok(()));

    let pkt = Packet::from_f32_slice(
        DataType::named("GPS_DATA"),
        &[41.0, 0.0, 0.0],
        &[DataEndpoint::named("RADIO")],
        41,
    )
    .unwrap();
    let wire = pack_packet_with_wire_contract(
        &pkt,
        Some(ReliableHeader {
            flags: RELIABLE_FLAG_UNSEQUENCED,
            seq: 0,
            ack: 0,
        }),
        Some(message_meta(pkt.data_type()).element),
        &[hash_bytes_u64(
            0x517C_C1B7_2722_0A95,
            "OTHER_DEST".as_bytes(),
        )],
    )
    .unwrap();
    router.rx_packed_from_side(&wire, side).unwrap();
    assert_eq!(hits.load(Ordering::SeqCst), 0);
}

#[test]
fn reliable_router_state_stays_bounded_under_unacked_traffic() {
    let router = Router::new_with_clock(
        RouterConfig::default().with_sender("SRC"),
        StepClock::new_box(0, 0),
    );
    let side = router.add_side_packed_with_options(
        "link",
        |_bytes| Ok(()),
        RouterSideOptions {
            reliable_enabled: true,
            ..RouterSideOptions::default()
        },
    );

    router
        .rx_from_side(
            &build_discovery_announce("DEST_A", 0, &[DataEndpoint::named("RADIO")])
                .unwrap(),
            side,
        )
        .unwrap();

    for idx in 0..(RELIABLE_MAX_END_TO_END_PENDING.max(1) + 4) {
        let pkt = Packet::from_f32_slice(
            DataType::named("GPS_DATA"),
            &[idx as f32, 0.0, 0.0],
            &[DataEndpoint::named("RADIO")],
            idx as u64,
        )
        .unwrap();
        let _ = router.tx(pkt);
    }

    assert!(
        router.debug_end_to_end_tracked_count() <= RELIABLE_MAX_END_TO_END_PENDING.max(1)
    );

    for idx in 0..(RELIABLE_MAX_RETURN_ROUTES.max(1) + 4) {
        let pkt = Packet::from_f32_slice(
            DataType::named("GPS_DATA"),
            &[idx as f32, 1.0, 0.0],
            &[DataEndpoint::named("RADIO")],
            (1000 + idx) as u64,
        )
        .unwrap();
        router.rx_from_side(&pkt, side).unwrap();
    }

    assert!(
        router.debug_reliable_return_route_count() <= RELIABLE_MAX_RETURN_ROUTES.max(1)
    );
}

#[test]
fn discovery_topology_counts_against_shared_queue_budget() {
    discovery_tests_ensure_topology_test_schema();
    let router = Router::new_with_clock(RouterConfig::default(), discovery_tests_zero_clock());
    let side = router.add_side_packed("link", |_bytes| Ok(()));

    for idx in 0..128 {
        let boards = vec![TopologyBoardNode {
            sender_id: format!("REMOTE_BOARD_{idx}_{}", "x".repeat(512)),
            reachable_endpoints: vec![
                DataEndpoint::named("RADIO"),
                DataEndpoint::named("SD_CARD"),
            ],
            reachable_timesync_sources: vec![format!("TIME_{idx}_{}", "y".repeat(256))],
            connections: vec![format!("CONN_{idx}_{}", "z".repeat(512))],
        }];
        let sender = format!("SRC_{idx}");
        let pkt = build_discovery_topology(&sender, idx as u64, &boards).unwrap();
        router.rx_from_side(&pkt, side).unwrap();
    }

    assert!(
        router.debug_shared_queue_bytes_used() <= MAX_QUEUE_BUDGET,
        "discovery topology state must be part of the shared queue budget"
    );
}

#[test]
fn queued_packed_discovery_learns_routes_for_locally_handled_endpoints() {
    discovery_tests_ensure_topology_test_schema();
    let seen_remote: Arc<Mutex<Vec<Packet>>> = Arc::new(Mutex::new(Vec::new()));
    let seen_remote_c = seen_remote.clone();

    let router = Router::new_with_clock(
        RouterConfig::new(vec![EndpointHandler::new_packet_handler(
            DataEndpoint::named("RADIO"),
            |_pkt| Ok(()),
        )]),
        discovery_tests_zero_clock(),
    );
    let side_remote =
        router.add_side_packet("REMOTE", move |pkt: &Packet| -> TelemetryResult<()> {
            seen_remote_c.lock().unwrap().push(pkt.clone());
            Ok(())
        });

    let discovery_pkt =
        build_discovery_announce("REMOTE_NODE", 0, &[DataEndpoint::named("RADIO")])
            .unwrap();
    let discovery_bytes = pack_packet(&discovery_pkt);
    router
        .rx_packed_queue_from_side(discovery_bytes.as_ref(), side_remote)
        .unwrap();
    router.process_rx_queue().unwrap();

    let topo = router.export_topology();
    assert_eq!(topo.routes.len(), 1);
    assert_eq!(
        topo.routes[0].reachable_endpoints,
        vec![DataEndpoint::named("RADIO")]
    );
    assert_eq!(
        topo.advertised_endpoints,
        vec![DataEndpoint::named("RADIO")]
    );

    let msg = Packet::from_f32_slice(
        DataType::named("GPS_DATA"),
        &[1.0, 2.0, 3.0],
        &[DataEndpoint::named("RADIO")],
        11,
    )
    .unwrap();
    router.tx(msg).unwrap();

    let got = seen_remote.lock().unwrap().clone();
    assert_eq!(count_packets_of_type(&got, DataType::named("GPS_DATA")), 0);
}

#[test]
fn queued_packet_discovery_updates_route_table_after_full_queue_drain() {
    let router = Router::new_with_clock(
        RouterConfig::new(vec![EndpointHandler::new_packet_handler(
            DataEndpoint::named("SD_CARD"),
            |_pkt| Ok(()),
        )]),
        discovery_tests_zero_clock(),
    );
    let side_fill =
        router.add_side_packet("FILL", |_pkt: &Packet| -> TelemetryResult<()> { Ok(()) });

    let discovery_pkt = build_discovery_announce(
        "AB",
        0,
        &[DataEndpoint::named("RADIO"), DataEndpoint::TimeSync],
    )
    .unwrap();
    router.rx_queue_from_side(discovery_pkt, side_fill).unwrap();
    router.process_all_queues_with_timeout(0).unwrap();

    let topo = router.export_topology();
    assert_eq!(topo.routes.len(), 1);
    assert_eq!(topo.routes[0].side_name, "FILL");
    assert_eq!(
        topo.routes[0].reachable_endpoints,
        vec![DataEndpoint::named("RADIO")]
    );
    assert!(
        topo.advertised_endpoints
            .contains(&DataEndpoint::named("SD_CARD")),
        "local endpoints should remain advertised"
    );
    assert!(
        topo.advertised_endpoints
            .contains(&DataEndpoint::named("RADIO")),
        "learned remote endpoints should be reflected in advertised discovery state"
    );
}

#[test]
fn queued_packed_discovery_timesync_sources_update_route_table_after_full_queue_drain() {
    let router = Router::new_with_clock(
        RouterConfig::new(vec![EndpointHandler::new_packet_handler(
            DataEndpoint::named("SD_CARD"),
            |_pkt| Ok(()),
        )]),
        discovery_tests_zero_clock(),
    );
    let side_fill =
        router.add_side_packet("FILL", |_pkt: &Packet| -> TelemetryResult<()> { Ok(()) });

    let announce =
        build_discovery_announce("AB", 0, &[DataEndpoint::named("RADIO")]).unwrap();
    let announce_bytes = pack_packet(&announce);
    router
        .rx_packed_queue_from_side(announce_bytes.as_ref(), side_fill)
        .unwrap();

    let sources = build_discovery_timesync_sources("AB", 0, &["AB", "AB_BACKUP"]).unwrap();
    let source_bytes = pack_packet(&sources);
    router
        .rx_packed_queue_from_side(source_bytes.as_ref(), side_fill)
        .unwrap();

    router.process_all_queues_with_timeout(0).unwrap();

    let topo = router.export_topology();
    assert_eq!(topo.routes.len(), 1);
    assert_eq!(topo.routes[0].side_name, "FILL");
    assert_eq!(
        topo.routes[0].reachable_endpoints,
        vec![DataEndpoint::named("RADIO")]
    );
    assert_eq!(
        topo.routes[0].reachable_timesync_sources,
        vec!["AB".to_string(), "AB_BACKUP".to_string()]
    );
    assert!(
        topo.advertised_timesync_sources.contains(&"AB".to_string()),
        "learned timesync sources should be exported in topology"
    );
}

#[test]
fn queued_packed_discovery_from_same_sender_is_ignored_and_local_endpoint_does_not_flood() {

    let seen_remote: Arc<Mutex<Vec<Packet>>> = Arc::new(Mutex::new(Vec::new()));
    let seen_remote_c = seen_remote.clone();

    let router = Router::new_with_clock(
        RouterConfig::new(vec![EndpointHandler::new_packet_handler(
            DataEndpoint::named("RADIO"),
            |_pkt| Ok(()),
        )]),
        discovery_tests_zero_clock(),
    );
    let side_remote =
        router.add_side_packet("REMOTE", move |pkt: &Packet| -> TelemetryResult<()> {
            seen_remote_c.lock().unwrap().push(pkt.clone());
            Ok(())
        });

    let discovery_pkt =
        build_discovery_announce(device_identifier(), 0, &[DataEndpoint::named("RADIO")])
            .unwrap();
    let discovery_bytes = pack_packet(&discovery_pkt);
    router
        .rx_packed_queue_from_side(discovery_bytes.as_ref(), side_remote)
        .unwrap();
    router.process_rx_queue().unwrap();

    let topo = router.export_topology();
    assert!(topo.routes.is_empty());
    assert_eq!(
        topo.advertised_endpoints,
        vec![DataEndpoint::named("RADIO")]
    );

    let msg = Packet::from_f32_slice(
        DataType::named("GPS_DATA"),
        &[4.0, 5.0, 6.0],
        &[DataEndpoint::named("RADIO")],
        12,
    )
    .unwrap();
    router.tx(msg).unwrap();

    assert!(seen_remote.lock().unwrap().is_empty());
}

#[test]
fn relay_uses_discovery_routes_for_selective_fanout() {
    discovery_tests_ensure_topology_test_schema();
    let seen_a: Arc<Mutex<Vec<Packet>>> = Arc::new(Mutex::new(Vec::new()));
    let seen_b: Arc<Mutex<Vec<Packet>>> = Arc::new(Mutex::new(Vec::new()));
    let seen_a_c = seen_a.clone();
    let seen_b_c = seen_b.clone();

    let relay = Relay::new(discovery_tests_zero_clock());
    let side_a = relay.add_side_packet("A", move |pkt: &Packet| -> TelemetryResult<()> {
        seen_a_c.lock().unwrap().push(pkt.clone());
        Ok(())
    });
    let _side_b = relay.add_side_packet("B", move |pkt: &Packet| -> TelemetryResult<()> {
        seen_b_c.lock().unwrap().push(pkt.clone());
        Ok(())
    });
    let side_c =
        relay.add_side_packet("C", |_pkt: &Packet| -> TelemetryResult<()> { Ok(()) });

    let discovery_pkt =
        build_discovery_announce("NODE_A", 0, &[DataEndpoint::named("RADIO")]).unwrap();
    relay.rx_from_side(side_a, discovery_pkt).unwrap();
    relay.process_all_queues().unwrap();
    seen_a.lock().unwrap().clear();
    seen_b.lock().unwrap().clear();

    let msg = Packet::from_f32_slice(
        DataType::named("GPS_DATA"),
        &[9.0, 8.0, 7.0],
        &[DataEndpoint::named("RADIO")],
        2,
    )
    .unwrap();
    relay.rx_from_side(side_c, msg).unwrap();
    relay.process_all_queues().unwrap();

    let got_a = seen_a.lock().unwrap().clone();
    let got_b = seen_b.lock().unwrap().clone();
    assert_eq!(
        count_packets_of_type(&got_a, DataType::named("GPS_DATA")),
        1
    );
    assert_eq!(
        count_packets_of_type(&got_b, DataType::named("GPS_DATA")),
        0
    );
}

#[test]
fn relay_runtime_routes_support_asymmetric_and_ingress_only_links() {
    discovery_tests_ensure_topology_test_schema();
    let seen_a: Arc<Mutex<Vec<Packet>>> = Arc::new(Mutex::new(Vec::new()));
    let seen_b: Arc<Mutex<Vec<Packet>>> = Arc::new(Mutex::new(Vec::new()));
    let seen_c: Arc<Mutex<Vec<Packet>>> = Arc::new(Mutex::new(Vec::new()));
    let seen_a_c = seen_a.clone();
    let seen_b_c = seen_b.clone();
    let seen_c_c = seen_c.clone();

    let relay = Relay::new(discovery_tests_zero_clock());
    let side_a = relay.add_side_packet("A", move |pkt: &Packet| -> TelemetryResult<()> {
        seen_a_c.lock().unwrap().push(pkt.clone());
        Ok(())
    });
    let side_b = relay.add_side_packet("B", move |pkt: &Packet| -> TelemetryResult<()> {
        seen_b_c.lock().unwrap().push(pkt.clone());
        Ok(())
    });
    let side_c = relay.add_side_packet("C", move |pkt: &Packet| -> TelemetryResult<()> {
        seen_c_c.lock().unwrap().push(pkt.clone());
        Ok(())
    });

    relay.set_route(Some(side_a), side_b, true).unwrap();
    relay.set_route(Some(side_b), side_a, false).unwrap();
    relay.set_side_egress_enabled(side_c, false).unwrap();

    let pkt_a = Packet::from_f32_slice(
        DataType::named("GPS_DATA"),
        &[1.0, 2.0, 3.0],
        &[DataEndpoint::named("RADIO")],
        1,
    )
    .unwrap();
    relay.rx_from_side(side_a, pkt_a).unwrap();
    relay.process_all_queues().unwrap();
    assert_eq!(
        count_packets_of_type(&seen_b.lock().unwrap(), DataType::named("GPS_DATA")),
        1
    );
    assert_eq!(
        count_packets_of_type(&seen_c.lock().unwrap(), DataType::named("GPS_DATA")),
        0
    );

    let pkt_b = Packet::from_f32_slice(
        DataType::named("GPS_DATA"),
        &[4.0, 5.0, 6.0],
        &[DataEndpoint::named("RADIO")],
        2,
    )
    .unwrap();
    relay.rx_from_side(side_b, pkt_b).unwrap();
    relay.process_all_queues().unwrap();
    assert_eq!(
        count_packets_of_type(&seen_a.lock().unwrap(), DataType::named("GPS_DATA")),
        0
    );

    let pkt_c = Packet::from_f32_slice(
        DataType::named("GPS_DATA"),
        &[7.0, 8.0, 9.0],
        &[DataEndpoint::named("RADIO")],
        3,
    )
    .unwrap();
    relay.rx_from_side(side_c, pkt_c).unwrap();
    relay.process_all_queues().unwrap();
    assert_eq!(
        count_packets_of_type(&seen_a.lock().unwrap(), DataType::named("GPS_DATA")),
        0
    );
    assert_eq!(
        count_packets_of_type(&seen_b.lock().unwrap(), DataType::named("GPS_DATA")),
        1
    );
    assert_eq!(
        count_packets_of_type(&seen_c.lock().unwrap(), DataType::named("GPS_DATA")),
        0
    );
}

#[test]
fn relay_can_disable_ingress_for_a_side() {
    let relay = Relay::new(discovery_tests_zero_clock());
    let side =
        relay.add_side_packet("A", |_pkt: &Packet| -> TelemetryResult<()> { Ok(()) });
    relay.set_side_ingress_enabled(side, false).unwrap();

    let pkt = Packet::from_f32_slice(
        DataType::named("GPS_DATA"),
        &[1.0, 2.0, 3.0],
        &[DataEndpoint::named("RADIO")],
        4,
    )
    .unwrap();

    match relay.rx_from_side(side, pkt) {
        Err(TelemetryError::HandlerError(msg)) => {
            assert!(msg.contains("ingress disabled"));
        }
        other => panic!("expected ingress-disabled error, got {other:?}"),
    }
}

#[test]
fn relay_typed_routes_can_target_one_or_many_sides() {
    discovery_tests_ensure_topology_test_schema();
    let seen_a: Arc<Mutex<Vec<Packet>>> = Arc::new(Mutex::new(Vec::new()));
    let seen_b: Arc<Mutex<Vec<Packet>>> = Arc::new(Mutex::new(Vec::new()));
    let seen_c: Arc<Mutex<Vec<Packet>>> = Arc::new(Mutex::new(Vec::new()));
    let seen_d: Arc<Mutex<Vec<Packet>>> = Arc::new(Mutex::new(Vec::new()));
    let seen_a_c = seen_a.clone();
    let seen_b_c = seen_b.clone();
    let seen_c_c = seen_c.clone();
    let seen_d_c = seen_d.clone();

    let relay = Relay::new(discovery_tests_zero_clock());
    let side_a = relay.add_side_packet("A", move |pkt: &Packet| -> TelemetryResult<()> {
        seen_a_c.lock().unwrap().push(pkt.clone());
        Ok(())
    });
    let side_b = relay.add_side_packet("B", move |pkt: &Packet| -> TelemetryResult<()> {
        seen_b_c.lock().unwrap().push(pkt.clone());
        Ok(())
    });
    let _side_c = relay.add_side_packet("C", move |pkt: &Packet| -> TelemetryResult<()> {
        seen_c_c.lock().unwrap().push(pkt.clone());
        Ok(())
    });
    let side_d = relay.add_side_packet("D", move |pkt: &Packet| -> TelemetryResult<()> {
        seen_d_c.lock().unwrap().push(pkt.clone());
        Ok(())
    });
    relay
        .rx_from_side(
            side_b,
            build_discovery_announce("REMOTE_B", 0, &[DataEndpoint::named("RADIO")])
                .unwrap(),
        )
        .unwrap();
    relay
        .rx_from_side(
            side_d,
            build_discovery_announce("REMOTE_D", 1, &[DataEndpoint::named("RADIO")])
                .unwrap(),
        )
        .unwrap();
    relay.process_all_queues().unwrap();
    seen_a.lock().unwrap().clear();
    seen_b.lock().unwrap().clear();
    seen_c.lock().unwrap().clear();
    seen_d.lock().unwrap().clear();

    relay
        .set_typed_route(Some(side_a), DataType::named("GPS_DATA"), side_b, true)
        .unwrap();
    relay
        .set_typed_route(Some(side_a), DataType::named("GPS_DATA"), side_d, true)
        .unwrap();
    relay
        .set_source_route_mode(Some(side_a), RouteSelectionMode::Fanout)
        .unwrap();

    let gps_pkt = Packet::from_f32_slice(
        DataType::named("GPS_DATA"),
        &[1.0, 2.0, 3.0],
        &[DataEndpoint::named("RADIO")],
        1,
    )
    .unwrap();
    relay.rx_from_side(side_a, gps_pkt).unwrap();
    relay.process_all_queues().unwrap();

    assert_eq!(
        count_packets_of_type(&seen_a.lock().unwrap(), DataType::named("GPS_DATA")),
        0
    );
    let first_b =
        count_packets_of_type(&seen_b.lock().unwrap(), DataType::named("GPS_DATA"));
    let first_c =
        count_packets_of_type(&seen_c.lock().unwrap(), DataType::named("GPS_DATA"));
    let first_d =
        count_packets_of_type(&seen_d.lock().unwrap(), DataType::named("GPS_DATA"));
    assert_eq!(first_c, 0);
    let first_targets = first_b + first_d;
    assert!((1..=2).contains(&first_targets));

    relay
        .clear_typed_route(Some(side_a), DataType::named("GPS_DATA"), side_b)
        .unwrap();
    relay
        .clear_typed_route(Some(side_a), DataType::named("GPS_DATA"), side_d)
        .unwrap();

    let fallback_pkt = Packet::from_f32_slice(
        DataType::named("GPS_DATA"),
        &[9.0, 8.0, 7.0],
        &[DataEndpoint::named("RADIO")],
        2,
    )
    .unwrap();
    relay.rx_from_side(side_a, fallback_pkt).unwrap();
    relay.process_all_queues().unwrap();

    let total_b =
        count_packets_of_type(&seen_b.lock().unwrap(), DataType::named("GPS_DATA"));
    let total_c =
        count_packets_of_type(&seen_c.lock().unwrap(), DataType::named("GPS_DATA"));
    let total_d =
        count_packets_of_type(&seen_d.lock().unwrap(), DataType::named("GPS_DATA"));
    assert_eq!(total_c, 0);
    let total_targets = total_b + total_d;
    assert!(total_targets >= first_targets);
    assert!(total_targets <= first_targets + 2);
}

#[test]
fn relay_remove_side_stops_transmit_and_rejects_removed_ingress() {
    discovery_tests_ensure_topology_test_schema();
    let seen_a: Arc<Mutex<Vec<Packet>>> = Arc::new(Mutex::new(Vec::new()));
    let seen_b: Arc<Mutex<Vec<Packet>>> = Arc::new(Mutex::new(Vec::new()));
    let seen_c: Arc<Mutex<Vec<Packet>>> = Arc::new(Mutex::new(Vec::new()));
    let seen_a_c = seen_a.clone();
    let seen_b_c = seen_b.clone();
    let seen_c_c = seen_c.clone();

    let relay = Relay::new(discovery_tests_zero_clock());
    let side_a = relay.add_side_packet("A", move |pkt: &Packet| -> TelemetryResult<()> {
        seen_a_c.lock().unwrap().push(pkt.clone());
        Ok(())
    });
    let side_b = relay.add_side_packet("B", move |pkt: &Packet| -> TelemetryResult<()> {
        seen_b_c.lock().unwrap().push(pkt.clone());
        Ok(())
    });
    relay.add_side_packet("C", move |pkt: &Packet| -> TelemetryResult<()> {
        seen_c_c.lock().unwrap().push(pkt.clone());
        Ok(())
    });

    relay.remove_side(side_a).unwrap();

    let pkt = Packet::from_f32_slice(
        DataType::named("GPS_DATA"),
        &[1.0, 2.0, 3.0],
        &[DataEndpoint::named("RADIO")],
        5,
    )
    .unwrap();
    relay.rx_from_side(side_b, pkt.clone()).unwrap();
    relay.process_all_queues().unwrap();

    assert_eq!(
        count_packets_of_type(&seen_a.lock().unwrap(), DataType::named("GPS_DATA")),
        0
    );
    assert_eq!(
        count_packets_of_type(&seen_b.lock().unwrap(), DataType::named("GPS_DATA")),
        0
    );
    assert_eq!(
        count_packets_of_type(&seen_c.lock().unwrap(), DataType::named("GPS_DATA")),
        1
    );
    match relay.rx_from_side(side_a, pkt) {
        Err(TelemetryError::HandlerError(msg)) => {
            assert!(msg.contains("invalid side id"));
        }
        other => panic!("expected invalid removed side error, got {other:?}"),
    }
}

#[test]
fn relay_remove_side_updates_discovery_routes_and_announces_remaining_topology() {
    let seen_a: Arc<Mutex<Vec<Packet>>> = Arc::new(Mutex::new(Vec::new()));
    let seen_b: Arc<Mutex<Vec<Packet>>> = Arc::new(Mutex::new(Vec::new()));
    let seen_a_c = seen_a.clone();
    let seen_b_c = seen_b.clone();

    let relay = Relay::new(discovery_tests_zero_clock());
    let side_a = relay.add_side_packet("A", move |pkt: &Packet| -> TelemetryResult<()> {
        seen_a_c.lock().unwrap().push(pkt.clone());
        Ok(())
    });
    let side_b = relay.add_side_packet("B", move |pkt: &Packet| -> TelemetryResult<()> {
        seen_b_c.lock().unwrap().push(pkt.clone());
        Ok(())
    });

    let discovery_pkt =
        build_discovery_announce("REMOTE_B", 0, &[DataEndpoint::named("SD_CARD")]).unwrap();
    relay.rx_from_side(side_b, discovery_pkt).unwrap();
    relay.process_rx_queue().unwrap();
    assert_eq!(relay.export_topology().routes.len(), 1);

    seen_a.lock().unwrap().clear();
    seen_b.lock().unwrap().clear();
    relay.remove_side(side_a).unwrap();

    let snap = relay.export_topology();
    assert_eq!(snap.routes.len(), 1);
    assert_eq!(
        snap.advertised_endpoints,
        vec![DataEndpoint::named("SD_CARD")]
    );
    assert!(relay.poll_discovery().unwrap());
    relay.process_tx_queue().unwrap();

    assert!(seen_a.lock().unwrap().is_empty());
    let b_pkts = seen_b.lock().unwrap().clone();
    let announce = b_pkts
        .iter()
        .find(|pkt| pkt.data_type() == DataType::DiscoveryAnnounce)
        .unwrap();
    let eps = decode_discovery_announce(announce).unwrap();
    assert_eq!(eps, vec![DataEndpoint::named("SD_CARD")]);
    assert!(
        b_pkts
            .iter()
            .any(|pkt| pkt.data_type() == DataType::DiscoveryTopology)
    );
}

#[test]
fn router_exports_topology_and_adaptive_discovery_schedule() {
    discovery_tests_ensure_topology_test_schema();

    let router = Router::new_with_clock(
        RouterConfig::new(vec![EndpointHandler::new_packet_handler(
            DataEndpoint::named("RADIO"),
            |_pkt| Ok(()),
        )]),
        StepClock::new_box(0, 0),
    );
    let side_a =
        router.add_side_packet("A", |_pkt: &Packet| -> TelemetryResult<()> { Ok(()) });

    let discovery_pkt =
        build_discovery_announce("REMOTE_A", 0, &[DataEndpoint::named("SD_CARD")]).unwrap();
    router.rx_from_side(&discovery_pkt, side_a).unwrap();

    let snap_before = router.export_topology();
    assert_eq!(
        snap_before.advertised_endpoints,
        vec![DataEndpoint::named("SD_CARD"), DataEndpoint::named("RADIO")]
    );
    assert_eq!(snap_before.routes.len(), 1);
    assert_eq!(snap_before.routes[0].side_name, "A");
    assert_eq!(
        snap_before.current_announce_interval_ms,
        DISCOVERY_FAST_INTERVAL_MS
    );

    assert!(router.poll_discovery().unwrap());

    let snap_after = router.export_topology();
    assert_eq!(snap_after.next_announce_ms, DISCOVERY_FAST_INTERVAL_MS);
    assert!(snap_after.current_announce_interval_ms >= DISCOVERY_FAST_INTERVAL_MS);
}

#[test]
fn router_exports_board_graph_and_tracks_transitive_endpoint_holders() {
    discovery_tests_ensure_topology_test_schema();

    let router = Router::new_with_clock(RouterConfig::default(), discovery_tests_zero_clock());
    let side_a =
        router.add_side_packet("A", |_pkt: &Packet| -> TelemetryResult<()> { Ok(()) });

    let topology = vec![
        TopologyBoardNode {
            sender_id: "REMOTE_A".to_string(),
            reachable_endpoints: vec![
                DataEndpoint::named("SD_CARD"),
                DataEndpoint::TimeSync,
                DataEndpoint::TelemetryError,
            ],
            reachable_timesync_sources: Vec::new(),
            connections: vec!["SENSOR_B".to_string()],
        },
        TopologyBoardNode {
            sender_id: "SENSOR_B".to_string(),
            reachable_endpoints: vec![DataEndpoint::named("RADIO")],
            reachable_timesync_sources: Vec::new(),
            connections: vec!["REMOTE_A".to_string()],
        },
    ];
    let topology_pkt = build_discovery_topology("REMOTE_A", 0, &topology).unwrap();
    router.rx_from_side(&topology_pkt, side_a).unwrap();

    let snap = router.export_topology();
    assert_eq!(snap.routes.len(), 1);
    assert_eq!(snap.routes[0].announcers.len(), 1);
    assert_eq!(snap.routes[0].announcers[0].sender_id, "REMOTE_A");
    assert!(
        snap.routes[0].announcers[0]
            .routers
            .iter()
            .any(|board| board.sender_id == "SENSOR_B"
                && board.reachable_endpoints == vec![DataEndpoint::named("RADIO")])
    );
    assert!(
        snap.routers
            .iter()
            .any(|board| board.sender_id == "SENSOR_B"
                && board.connections.contains(&"REMOTE_A".to_string()))
    );
    assert!(
        snap.links
            .iter()
            .any(|link| link.source == "REMOTE_A" && link.target == "SENSOR_B")
    );

    assert!(
        snap.advertised_endpoints
            .contains(&DataEndpoint::named("RADIO")),
        "transitive endpoint holders should contribute to exported reachability"
    );
    assert!(!snap.advertised_endpoints.contains(&DataEndpoint::TimeSync));
    assert!(
        !snap
            .advertised_endpoints
            .contains(&DataEndpoint::TelemetryError)
    );
}

#[test]
fn discovery_leave_prunes_client_topology_and_stats_immediately() {
    discovery_tests_ensure_topology_test_schema();

    let router = Router::new_with_clock(RouterConfig::default(), discovery_tests_zero_clock());
    let side_a =
        router.add_side_packet("A", |_pkt: &Packet| -> TelemetryResult<()> { Ok(()) });

    let discovery_pkt =
        build_discovery_announce("LEAVING_NODE", 0, &[DataEndpoint::named("RADIO")])
            .unwrap();
    router.rx_from_side(&discovery_pkt, side_a).unwrap();
    let stats = router.client_stats("LEAVING_NODE").unwrap();
    assert!(stats.connected);
    assert_eq!(stats.side_names, vec!["A"]);
    assert_eq!(
        stats.reachable_endpoints,
        vec![DataEndpoint::named("RADIO")]
    );

    let leave = build_discovery_leave("LEAVING_NODE", 1).unwrap();
    router.rx_from_side(&leave, side_a).unwrap();

    assert!(router.client_stats("LEAVING_NODE").is_none());
    assert!(
        !router
            .export_topology()
            .routers
            .iter()
            .any(|board| board.sender_id == "LEAVING_NODE")
    );
}

#[test]
fn router_remove_side_stops_transmit_and_rejects_removed_ingress() {
    let seen_a: Arc<Mutex<Vec<Packet>>> = Arc::new(Mutex::new(Vec::new()));
    let seen_b: Arc<Mutex<Vec<Packet>>> = Arc::new(Mutex::new(Vec::new()));
    let seen_a_c = seen_a.clone();
    let seen_b_c = seen_b.clone();

    let router = Router::new_with_clock(RouterConfig::default(), discovery_tests_zero_clock());
    let side_a = router.add_side_packet("A", move |pkt: &Packet| -> TelemetryResult<()> {
        seen_a_c.lock().unwrap().push(pkt.clone());
        Ok(())
    });
    router.add_side_packet("B", move |pkt: &Packet| -> TelemetryResult<()> {
        seen_b_c.lock().unwrap().push(pkt.clone());
        Ok(())
    });

    router.remove_side(side_a).unwrap();

    let msg = Packet::from_f32_slice(
        DataType::named("GPS_DATA"),
        &[1.0, 2.0, 3.0],
        &[DataEndpoint::named("RADIO")],
        1,
    )
    .unwrap();
    router.tx(msg.clone()).unwrap();

    assert!(seen_a.lock().unwrap().is_empty());
    assert_eq!(seen_b.lock().unwrap().len(), 1);
    match router.rx_from_side(&msg, side_a) {
        Err(TelemetryError::HandlerError(msg)) => {
            assert!(msg.contains("invalid side id"));
        }
        other => panic!("expected invalid removed side error, got {other:?}"),
    }
}

#[test]
fn router_remove_side_updates_discovery_routes_and_announces_remaining_topology() {
    let seen_a: Arc<Mutex<Vec<Packet>>> = Arc::new(Mutex::new(Vec::new()));
    let seen_b: Arc<Mutex<Vec<Packet>>> = Arc::new(Mutex::new(Vec::new()));
    let seen_a_c = seen_a.clone();
    let seen_b_c = seen_b.clone();

    let router = Router::new_with_clock(
        RouterConfig::new(vec![EndpointHandler::new_packet_handler(
            DataEndpoint::named("RADIO"),
            |_pkt| Ok(()),
        )]),
        discovery_tests_zero_clock(),
    );
    let side_a = router.add_side_packet("A", move |pkt: &Packet| -> TelemetryResult<()> {
        seen_a_c.lock().unwrap().push(pkt.clone());
        Ok(())
    });
    router.add_side_packet("B", move |pkt: &Packet| -> TelemetryResult<()> {
        seen_b_c.lock().unwrap().push(pkt.clone());
        Ok(())
    });

    let discovery_pkt =
        build_discovery_announce("REMOTE_A", 0, &[DataEndpoint::named("SD_CARD")]).unwrap();
    router.rx_from_side(&discovery_pkt, side_a).unwrap();
    assert_eq!(router.export_topology().routes.len(), 1);

    seen_a.lock().unwrap().clear();
    seen_b.lock().unwrap().clear();
    router.remove_side(side_a).unwrap();

    let snap = router.export_topology();
    assert!(snap.routes.is_empty());
    assert_eq!(
        snap.advertised_endpoints,
        vec![DataEndpoint::named("RADIO")]
    );
    assert!(router.poll_discovery().unwrap());
    router.process_tx_queue().unwrap();

    assert!(seen_a.lock().unwrap().is_empty());
    let b_pkts = seen_b.lock().unwrap().clone();
    let announce = b_pkts
        .iter()
        .find(|pkt| pkt.data_type() == DataType::DiscoveryAddress)
        .unwrap();
    let eps = decode_discovery_address(announce)
        .unwrap()
        .reachable_endpoints;
    assert_eq!(eps, vec![DataEndpoint::named("RADIO")]);
    assert!(
        b_pkts
            .iter()
            .any(|pkt| pkt.data_type() == DataType::DiscoveryTopology)
    );
}

#[test]
fn router_runtime_routes_support_asymmetric_and_ingress_only_links() {
    discovery_tests_ensure_topology_test_schema();
    let seen_a: Arc<Mutex<Vec<Packet>>> = Arc::new(Mutex::new(Vec::new()));
    let seen_b: Arc<Mutex<Vec<Packet>>> = Arc::new(Mutex::new(Vec::new()));
    let seen_c: Arc<Mutex<Vec<Packet>>> = Arc::new(Mutex::new(Vec::new()));
    let seen_a_c = seen_a.clone();
    let seen_b_c = seen_b.clone();
    let seen_c_c = seen_c.clone();

    let router = Router::new_with_clock(RouterConfig::default(), discovery_tests_zero_clock());
    let side_a = router.add_side_packet("A", move |pkt: &Packet| -> TelemetryResult<()> {
        seen_a_c.lock().unwrap().push(pkt.clone());
        Ok(())
    });
    let side_b = router.add_side_packet("B", move |pkt: &Packet| -> TelemetryResult<()> {
        seen_b_c.lock().unwrap().push(pkt.clone());
        Ok(())
    });
    let side_c = router.add_side_packet("C", move |pkt: &Packet| -> TelemetryResult<()> {
        seen_c_c.lock().unwrap().push(pkt.clone());
        Ok(())
    });

    router.set_route(None, side_b, false).unwrap();
    router.set_route(None, side_c, false).unwrap();
    router.set_route(Some(side_a), side_b, true).unwrap();
    router.set_route(Some(side_b), side_a, false).unwrap();
    router.set_side_egress_enabled(side_c, false).unwrap();

    let local_tx = Packet::from_f32_slice(
        DataType::named("GPS_DATA"),
        &[1.0, 2.0, 3.0],
        &[DataEndpoint::named("RADIO")],
        1,
    )
    .unwrap();
    router.tx(local_tx).unwrap();
    assert_eq!(
        count_packets_of_type(&seen_a.lock().unwrap(), DataType::named("GPS_DATA")),
        1
    );
    assert_eq!(
        count_packets_of_type(&seen_b.lock().unwrap(), DataType::named("GPS_DATA")),
        0
    );
    assert_eq!(
        count_packets_of_type(&seen_c.lock().unwrap(), DataType::named("GPS_DATA")),
        0
    );

    let from_a = Packet::from_f32_slice(
        DataType::named("GPS_DATA"),
        &[4.0, 5.0, 6.0],
        &[DataEndpoint::named("RADIO")],
        2,
    )
    .unwrap();
    router.rx_from_side(&from_a, side_a).unwrap();
    assert_eq!(
        count_packets_of_type(&seen_b.lock().unwrap(), DataType::named("GPS_DATA")),
        1
    );
    assert_eq!(
        count_packets_of_type(&seen_c.lock().unwrap(), DataType::named("GPS_DATA")),
        0
    );

    let from_b = Packet::from_f32_slice(
        DataType::named("GPS_DATA"),
        &[7.0, 8.0, 9.0],
        &[DataEndpoint::named("RADIO")],
        3,
    )
    .unwrap();
    router.rx_from_side(&from_b, side_b).unwrap();
    assert_eq!(
        count_packets_of_type(&seen_a.lock().unwrap(), DataType::named("GPS_DATA")),
        1
    );

    let from_c = Packet::from_f32_slice(
        DataType::named("GPS_DATA"),
        &[10.0, 11.0, 12.0],
        &[DataEndpoint::named("RADIO")],
        4,
    )
    .unwrap();
    router.rx_from_side(&from_c, side_c).unwrap();
    assert_eq!(
        count_packets_of_type(&seen_a.lock().unwrap(), DataType::named("GPS_DATA")),
        1
    );
    assert_eq!(
        count_packets_of_type(&seen_b.lock().unwrap(), DataType::named("GPS_DATA")),
        1
    );
    assert_eq!(
        count_packets_of_type(&seen_c.lock().unwrap(), DataType::named("GPS_DATA")),
        0
    );
}

#[test]
fn router_typed_routes_can_target_one_or_many_sides() {
    discovery_tests_ensure_topology_test_schema();
    let seen_a: Arc<Mutex<Vec<Packet>>> = Arc::new(Mutex::new(Vec::new()));
    let seen_b: Arc<Mutex<Vec<Packet>>> = Arc::new(Mutex::new(Vec::new()));
    let seen_c: Arc<Mutex<Vec<Packet>>> = Arc::new(Mutex::new(Vec::new()));
    let seen_a_c = seen_a.clone();
    let seen_b_c = seen_b.clone();
    let seen_c_c = seen_c.clone();

    let router = Router::new_with_clock(RouterConfig::default(), discovery_tests_zero_clock());
    let side_a = router.add_side_packet("A", move |pkt: &Packet| -> TelemetryResult<()> {
        seen_a_c.lock().unwrap().push(pkt.clone());
        Ok(())
    });
    let side_b = router.add_side_packet("B", move |pkt: &Packet| -> TelemetryResult<()> {
        seen_b_c.lock().unwrap().push(pkt.clone());
        Ok(())
    });
    let side_c = router.add_side_packet("C", move |pkt: &Packet| -> TelemetryResult<()> {
        seen_c_c.lock().unwrap().push(pkt.clone());
        Ok(())
    });

    let discovery_b =
        build_discovery_announce("REMOTE_B", 0, &[DataEndpoint::named("RADIO")]).unwrap();
    let discovery_c =
        build_discovery_announce("REMOTE_C", 1, &[DataEndpoint::named("RADIO")]).unwrap();
    router.rx_from_side(&discovery_b, side_b).unwrap();
    router.rx_from_side(&discovery_c, side_c).unwrap();
    seen_a.lock().unwrap().clear();
    seen_b.lock().unwrap().clear();
    seen_c.lock().unwrap().clear();

    router
        .set_typed_route(None, DataType::named("GPS_DATA"), side_b, true)
        .unwrap();
    router
        .set_typed_route(None, DataType::named("GPS_DATA"), side_c, true)
        .unwrap();
    router
        .set_source_route_mode(None, RouteSelectionMode::Fanout)
        .unwrap();

    let gps_pkt = Packet::from_f32_slice(
        DataType::named("GPS_DATA"),
        &[1.0, 2.0, 3.0],
        &[DataEndpoint::named("RADIO")],
        1,
    )
    .unwrap();
    router.tx(gps_pkt).unwrap();
    assert_eq!(
        count_packets_of_type(&seen_a.lock().unwrap(), DataType::named("GPS_DATA")),
        0
    );
    let first_b =
        count_packets_of_type(&seen_b.lock().unwrap(), DataType::named("GPS_DATA"));
    let first_c =
        count_packets_of_type(&seen_c.lock().unwrap(), DataType::named("GPS_DATA"));
    assert_eq!(first_b + first_c, 2);

    router
        .clear_typed_route(None, DataType::named("GPS_DATA"), side_b)
        .unwrap();
    router
        .clear_typed_route(None, DataType::named("GPS_DATA"), side_c)
        .unwrap();

    let fallback_pkt = Packet::from_f32_slice(
        DataType::named("GPS_DATA"),
        &[7.0, 8.0, 9.0],
        &[DataEndpoint::named("RADIO")],
        2,
    )
    .unwrap();
    router.tx(fallback_pkt).unwrap();
    assert_eq!(
        count_packets_of_type(&seen_a.lock().unwrap(), DataType::named("GPS_DATA")),
        0
    );
    let total_b =
        count_packets_of_type(&seen_b.lock().unwrap(), DataType::named("GPS_DATA"));
    let total_c =
        count_packets_of_type(&seen_c.lock().unwrap(), DataType::named("GPS_DATA"));
    assert_eq!(total_b + total_c, 3);

    let _ = side_a;
}

#[test]
fn router_typed_routes_still_respect_base_route_disables() {
    let seen_a: Arc<Mutex<Vec<Packet>>> = Arc::new(Mutex::new(Vec::new()));
    let seen_b: Arc<Mutex<Vec<Packet>>> = Arc::new(Mutex::new(Vec::new()));
    let seen_a_c = seen_a.clone();
    let seen_b_c = seen_b.clone();

    let router = Router::new_with_clock(RouterConfig::default(), discovery_tests_zero_clock());
    let side_a = router.add_side_packet("A", move |pkt: &Packet| -> TelemetryResult<()> {
        seen_a_c.lock().unwrap().push(pkt.clone());
        Ok(())
    });
    let side_b = router.add_side_packet("B", move |pkt: &Packet| -> TelemetryResult<()> {
        seen_b_c.lock().unwrap().push(pkt.clone());
        Ok(())
    });

    router
        .set_typed_route(None, DataType::named("GPS_DATA"), side_b, true)
        .unwrap();
    router.set_route(None, side_b, false).unwrap();

    let gps_pkt = Packet::from_f32_slice(
        DataType::named("GPS_DATA"),
        &[1.0, 2.0, 3.0],
        &[DataEndpoint::named("RADIO")],
        1,
    )
    .unwrap();
    router.tx(gps_pkt).unwrap();

    assert!(seen_a.lock().unwrap().is_empty());
    assert!(seen_b.lock().unwrap().is_empty());

    let _ = side_a;
}

#[test]
fn router_weighted_route_mode_splits_discovered_paths_by_weight() {
    let seen_a: Arc<Mutex<Vec<Packet>>> = Arc::new(Mutex::new(Vec::new()));
    let seen_b: Arc<Mutex<Vec<Packet>>> = Arc::new(Mutex::new(Vec::new()));
    let seen_a_c = seen_a.clone();
    let seen_b_c = seen_b.clone();

    let router = Router::new_with_clock(RouterConfig::default(), discovery_tests_zero_clock());
    let side_a = router.add_side_packet("A", move |pkt: &Packet| -> TelemetryResult<()> {
        seen_a_c.lock().unwrap().push(pkt.clone());
        Ok(())
    });
    let side_b = router.add_side_packet("B", move |pkt: &Packet| -> TelemetryResult<()> {
        seen_b_c.lock().unwrap().push(pkt.clone());
        Ok(())
    });

    let discovery_a =
        build_discovery_announce("REMOTE_A", 0, &[DataEndpoint::named("RADIO")]).unwrap();
    let discovery_b =
        build_discovery_announce("REMOTE_B", 1, &[DataEndpoint::named("RADIO")]).unwrap();
    router.rx_from_side(&discovery_a, side_a).unwrap();
    router.rx_from_side(&discovery_b, side_b).unwrap();
    seen_a.lock().unwrap().clear();
    seen_b.lock().unwrap().clear();

    router
        .set_source_route_mode(None, RouteSelectionMode::Weighted)
        .unwrap();
    router.set_route_weight(None, side_a, 2).unwrap();
    router.set_route_weight(None, side_b, 1).unwrap();

    for seq in 0..6 {
        let pkt = Packet::from_f32_slice(
            DataType::named("IMU_DATA"),
            &[
                seq as f32,
                seq as f32 + 1.0,
                seq as f32 + 2.0,
                seq as f32 + 3.0,
                seq as f32 + 4.0,
                seq as f32 + 5.0,
            ],
            &[DataEndpoint::named("RADIO")],
            seq as u64,
        )
        .unwrap();
        router.tx(pkt).unwrap();
    }

    assert_eq!(seen_a.lock().unwrap().len(), 4);
    assert_eq!(seen_b.lock().unwrap().len(), 2);
}

#[test]
fn router_discovery_defaults_to_adaptive_load_balancing() {
    discovery_tests_ensure_topology_test_schema();

    let now_ms = Arc::new(AtomicU64::new(0));
    let armed = Arc::new(AtomicBool::new(false));
    let seen_a = Arc::new(AtomicUsize::new(0));
    let seen_b = Arc::new(AtomicUsize::new(0));
    let seen_a_c = seen_a.clone();
    let seen_b_c = seen_b.clone();
    let now_a = now_ms.clone();
    let now_b = now_ms.clone();
    let armed_b = armed.clone();

    let router = Router::new_with_clock(
        RouterConfig::default(),
        Box::new(DiscoveryTestsSharedClock {
            now_ms: now_ms.clone(),
        }),
    );
    let side_a = router.add_side_packet("A", move |pkt: &Packet| -> TelemetryResult<()> {
        if pkt.data_type() == DataType::named("IMU_DATA") {
            seen_a_c.fetch_add(1, Ordering::SeqCst);
        }
        now_a.fetch_add(1, Ordering::SeqCst);
        Ok(())
    });
    let side_b = router.add_side_packet("B", move |pkt: &Packet| -> TelemetryResult<()> {
        if pkt.data_type() == DataType::named("IMU_DATA") {
            seen_b_c.fetch_add(1, Ordering::SeqCst);
        }
        let delay_ms = if armed_b.load(Ordering::SeqCst)
            && pkt.data_type() == DataType::named("IMU_DATA")
        {
            4
        } else {
            1
        };
        now_b.fetch_add(delay_ms, Ordering::SeqCst);
        Ok(())
    });
    router.set_side_egress_enabled(side_a, false).unwrap();
    router.set_side_egress_enabled(side_b, false).unwrap();

    let discovery_a =
        build_discovery_announce("REMOTE_A", 0, &[DataEndpoint::named("RADIO")]).unwrap();
    let discovery_b =
        build_discovery_announce("REMOTE_B", 1, &[DataEndpoint::named("RADIO")]).unwrap();
    router.rx_from_side(&discovery_a, side_a).unwrap();
    router.rx_from_side(&discovery_b, side_b).unwrap();
    router.set_side_egress_enabled(side_a, true).unwrap();
    router.set_side_egress_enabled(side_b, true).unwrap();
    seen_a.store(0, Ordering::SeqCst);
    seen_b.store(0, Ordering::SeqCst);
    armed.store(true, Ordering::SeqCst);

    for seq in 0..24 {
        let pkt = Packet::from_f32_slice(
            DataType::named("IMU_DATA"),
            &[
                seq as f32,
                seq as f32 + 1.0,
                seq as f32 + 2.0,
                seq as f32 + 3.0,
                seq as f32 + 4.0,
                seq as f32 + 5.0,
            ],
            &[DataEndpoint::named("RADIO")],
            seq as u64,
        )
        .unwrap();
        router.tx(pkt).unwrap();
    }

    let a = seen_a.load(Ordering::SeqCst);
    let b = seen_b.load(Ordering::SeqCst);
    assert_eq!(a + b, 24);
    assert!(
        a > b,
        "expected faster side to receive more traffic: a={a}, b={b}"
    );
    assert!(b > 0, "expected adaptive balancing instead of failover");

    let stats = router.export_runtime_stats();
    let side_a_stats = stats
        .sides
        .iter()
        .find(|side| side.side_name == "A")
        .unwrap();
    let side_b_stats = stats
        .sides
        .iter()
        .find(|side| side.side_name == "B")
        .unwrap();
    assert!(
        side_a_stats.adaptive.estimated_capacity_bps
            > side_b_stats.adaptive.estimated_capacity_bps,
        "expected adaptive capacity estimate to favor faster side"
    );
}

#[test]
fn link_probe_samples_seed_adaptive_capacity_without_sending_probe_frames() {
    discovery_tests_ensure_topology_test_schema();

    let router = Router::new_with_clock(RouterConfig::default(), discovery_tests_zero_clock());
    let fast = router.add_side_packet("ETHERNET", |_pkt| Ok(()));
    let slow = router.add_side_packet("LORA", |_pkt| Ok(()));

    router
        .note_side_link_probe_sample(fast, 10_000, 10)
        .unwrap();
    router
        .note_side_link_probe_sample(slow, 250, 5_000)
        .unwrap();

    let stats = router.export_runtime_stats();
    let fast_stats = stats
        .sides
        .iter()
        .find(|side| side.side_name == "ETHERNET")
        .unwrap();
    let slow_stats = stats
        .sides
        .iter()
        .find(|side| side.side_name == "LORA")
        .unwrap();
    assert!(
        fast_stats.adaptive.estimated_capacity_bps
            > slow_stats.adaptive.estimated_capacity_bps
    );
}

#[test]
fn slow_links_get_minimal_discovery_pings_between_full_refreshes() {
    discovery_tests_ensure_topology_test_schema();

    let now_ms = Arc::new(AtomicU64::new(5_000));
    let seen: Arc<Mutex<Vec<Packet>>> = Arc::new(Mutex::new(Vec::new()));
    let seen_c = seen.clone();

    let router = Router::new_with_clock(
        RouterConfig::new(vec![EndpointHandler::new_packet_handler(
            DataEndpoint::named("RADIO"),
            |_pkt| Ok(()),
        )]),
        Box::new(DiscoveryTestsSharedClock {
            now_ms: now_ms.clone(),
        }),
    );
    let side = router.add_side_packet("LORA", move |pkt: &Packet| -> TelemetryResult<()> {
        seen_c.lock().unwrap().push(pkt.clone());
        Ok(())
    });

    router
        .note_side_link_probe_sample(side, 250, 5_000)
        .unwrap();
    router.announce_discovery().unwrap();
    router.process_tx_queue().unwrap();
    assert!(
        seen.lock()
            .unwrap()
            .iter()
            .any(|pkt| pkt.data_type() == DataType::DiscoverySchema)
    );

    seen.lock().unwrap().clear();
    now_ms.store(10_000, Ordering::SeqCst);
    assert!(router.poll_discovery().unwrap());
    router.process_tx_queue().unwrap();
    assert!(
        seen.lock().unwrap().is_empty(),
        "slow side should wait for the lightweight ping cadence"
    );

    now_ms.store(
        5_000 + DISCOVERY_SLOW_LINK_PING_INTERVAL_MS,
        Ordering::SeqCst,
    );
    assert!(router.poll_discovery().unwrap());
    router.process_tx_queue().unwrap();

    let pkts = seen.lock().unwrap().clone();
    assert_eq!(pkts.len(), 1);
    assert_eq!(pkts[0].data_type(), DataType::DiscoveryAnnounce);
    assert!(
        decode_discovery_announce(&pkts[0])
            .unwrap()
            .is_empty()
    );
}

#[test]
fn relay_slow_links_get_minimal_discovery_pings_between_full_refreshes() {
    let now_ms = Arc::new(AtomicU64::new(5_000));
    let seen: Arc<Mutex<Vec<Packet>>> = Arc::new(Mutex::new(Vec::new()));
    let seen_c = seen.clone();

    let relay = Relay::new(Box::new(DiscoveryTestsSharedClock {
        now_ms: now_ms.clone(),
    }));
    let side = relay.add_side_packet("LORA", move |pkt: &Packet| -> TelemetryResult<()> {
        seen_c.lock().unwrap().push(pkt.clone());
        Ok(())
    });

    relay.note_side_link_probe_sample(side, 250, 5_000).unwrap();
    relay.announce_discovery().unwrap();
    relay.process_tx_queue().unwrap();
    assert!(
        seen.lock()
            .unwrap()
            .iter()
            .any(|pkt| pkt.data_type() == DataType::DiscoverySchema)
    );

    seen.lock().unwrap().clear();
    now_ms.store(
        5_000 + DISCOVERY_SLOW_LINK_PING_INTERVAL_MS,
        Ordering::SeqCst,
    );
    assert!(relay.poll_discovery().unwrap());
    relay.process_tx_queue().unwrap();

    let pkts = seen.lock().unwrap().clone();
    assert_eq!(pkts.len(), 1);
    assert_eq!(pkts[0].data_type(), DataType::DiscoveryAnnounce);
    assert!(
        decode_discovery_announce(&pkts[0])
            .unwrap()
            .is_empty()
    );
}

#[test]
fn timesync_announces_throttle_only_the_measured_slow_side() {
    let now_ms = Arc::new(AtomicU64::new(5_000));
    let seen_fast: Arc<Mutex<Vec<Packet>>> = Arc::new(Mutex::new(Vec::new()));
    let seen_slow: Arc<Mutex<Vec<Packet>>> = Arc::new(Mutex::new(Vec::new()));
    let seen_fast_c = seen_fast.clone();
    let seen_slow_c = seen_slow.clone();

    let router = Router::new_with_clock(
        RouterConfig::default().with_timesync(TimeSyncConfig {
            role: TimeSyncRole::Source,
            announce_interval_ms: 1_000,
            ..Default::default()
        }),
        Box::new(DiscoveryTestsSharedClock {
            now_ms: now_ms.clone(),
        }),
    );
    let fast =
        router.add_side_packet("ETHERNET", move |pkt: &Packet| -> TelemetryResult<()> {
            seen_fast_c.lock().unwrap().push(pkt.clone());
            Ok(())
        });
    let slow = router.add_side_packet("LORA", move |pkt: &Packet| -> TelemetryResult<()> {
        seen_slow_c.lock().unwrap().push(pkt.clone());
        Ok(())
    });
    let local_sender = router.sender().to_string();
    let local_sources = [local_sender.as_str()];

    router
        .set_source_route_mode(None, RouteSelectionMode::Fanout)
        .unwrap();
    router
        .rx_from_side(
            &build_discovery_timesync_sources("FAST_TS", 0, &local_sources).unwrap(),
            fast,
        )
        .unwrap();
    router
        .rx_from_side(
            &build_discovery_timesync_sources("SLOW_TS", 1, &local_sources).unwrap(),
            slow,
        )
        .unwrap();
    router.process_rx_queue().unwrap();
    router.process_tx_queue().unwrap();
    seen_fast.lock().unwrap().clear();
    seen_slow.lock().unwrap().clear();
    router
        .note_side_link_probe_sample(slow, 250, 5_000)
        .unwrap();

    now_ms.store(6_000, Ordering::SeqCst);
    assert!(router.poll_timesync().unwrap());
    router.process_tx_queue().unwrap();
    assert_eq!(
        count_packets_of_type(&seen_fast.lock().unwrap(), DataType::TimeSyncAnnounce),
        1
    );
    assert_eq!(
        count_packets_of_type(&seen_slow.lock().unwrap(), DataType::TimeSyncAnnounce),
        0
    );

    seen_fast.lock().unwrap().clear();
    seen_slow.lock().unwrap().clear();
    now_ms.store(7_000, Ordering::SeqCst);
    assert!(router.poll_timesync().unwrap());
    router.process_tx_queue().unwrap();
    assert_eq!(
        count_packets_of_type(&seen_fast.lock().unwrap(), DataType::TimeSyncAnnounce),
        1
    );
    assert_eq!(
        count_packets_of_type(&seen_slow.lock().unwrap(), DataType::TimeSyncAnnounce),
        0
    );
}

#[test]
fn router_exports_runtime_stats_with_route_and_type_details() {
    discovery_tests_ensure_topology_test_schema();

    let now_ms = Arc::new(AtomicU64::new(0));
    let seen_a = Arc::new(AtomicUsize::new(0));
    let seen_b = Arc::new(AtomicUsize::new(0));
    let seen_a_c = seen_a.clone();
    let seen_b_c = seen_b.clone();
    let now_a = now_ms.clone();
    let now_b = now_ms.clone();

    let router = Router::new_with_clock(
        RouterConfig::default(),
        Box::new(DiscoveryTestsSharedClock {
            now_ms: now_ms.clone(),
        }),
    );
    let retry_budget = Arc::new(AtomicUsize::new(0));
    let retry_budget_c = retry_budget.clone();
    let side_a = router.add_side_packet("A", move |_pkt: &Packet| -> TelemetryResult<()> {
        seen_a_c.fetch_add(1, Ordering::SeqCst);
        now_a.fetch_add(1, Ordering::SeqCst);
        if retry_budget_c.fetch_add(1, Ordering::SeqCst) < 2 {
            return Err(TelemetryError::Io("side tx busy"));
        }
        Ok(())
    });
    let side_b = router.add_side_packet("B", move |_pkt: &Packet| -> TelemetryResult<()> {
        seen_b_c.fetch_add(1, Ordering::SeqCst);
        now_b.fetch_add(3, Ordering::SeqCst);
        Ok(())
    });

    let discovery_a =
        build_discovery_announce("REMOTE_A", 0, &[DataEndpoint::named("RADIO")]).unwrap();
    let discovery_b =
        build_discovery_announce("REMOTE_B", 1, &[DataEndpoint::named("RADIO")]).unwrap();
    router.rx_from_side(&discovery_a, side_a).unwrap();
    router.rx_from_side(&discovery_b, side_b).unwrap();

    router
        .set_source_route_mode(None, RouteSelectionMode::Weighted)
        .unwrap();
    router.set_route(None, side_b, false).unwrap();
    router.set_route_weight(None, side_a, 2).unwrap();
    router.set_route_weight(None, side_b, 1).unwrap();
    router.set_route_priority(None, side_a, 7).unwrap();
    router
        .set_typed_route(None, DataType::named("GPS_DATA"), side_a, true)
        .unwrap();
    router
        .set_typed_route(None, DataType::named("GPS_DATA"), side_b, false)
        .unwrap();

    for seq in 0..3 {
        let pkt = Packet::from_f32_slice(
            DataType::named("GPS_DATA"),
            &[seq as f32, seq as f32 + 1.0, seq as f32 + 2.0],
            &[DataEndpoint::named("RADIO")],
            seq as u64,
        )
        .unwrap();
        router.tx_queue(pkt).unwrap();
    }

    let queued = router.export_runtime_stats();
    assert!(queued.queues.tx_len >= 3);
    assert!(queued.queues.tx_bytes > 0);
    assert_eq!(queued.queues.rx_len, 0);

    router.process_tx_queue().unwrap();

    let stats = router.export_runtime_stats();
    assert_eq!(
        stats
            .route_modes
            .iter()
            .find(|mode| mode.src_side_id.is_none())
            .unwrap()
            .selection_mode,
        Some(RouteSelectionMode::Weighted)
    );
    assert!(
        stats
            .route_overrides
            .iter()
            .any(|route| route.src_side_id.is_none()
                && route.dst_side_id == side_b
                && !route.enabled)
    );
    assert!(
        stats
            .route_weights
            .iter()
            .any(|weight| weight.src_side_id.is_none()
                && weight.dst_side_id == side_a
                && weight.weight == 2)
    );
    assert!(
        stats
            .route_priorities
            .iter()
            .any(|priority| priority.src_side_id.is_none()
                && priority.dst_side_id == side_a
                && priority.priority == 7)
    );
    assert!(
        stats
            .typed_route_overrides
            .iter()
            .any(|route| route.src_side_id.is_none()
                && route.data_type == DataType::named("GPS_DATA")
                && route.dst_side_id == side_a
                && route.enabled)
    );
    assert!(
        stats
            .typed_route_overrides
            .iter()
            .any(|route| route.src_side_id.is_none()
                && route.data_type == DataType::named("GPS_DATA")
                && route.dst_side_id == side_b
                && !route.enabled)
    );
    assert_eq!(stats.discovery.route_count, 2);
    assert_eq!(stats.discovery.announcer_count, 2);
    assert_eq!(stats.queues.tx_len, 0);
    assert_eq!(stats.queues.rx_len, 0);
    assert_eq!(stats.reliable.reliable_return_route_count, 0);
    assert_eq!(stats.reliable.end_to_end_pending_count, 0);
    assert_eq!(stats.total_handler_failures, 0);
    assert_eq!(stats.total_handler_retries, 0);

    let side_a_stats = discovery_tests_side_stats(&stats, side_a);
    let side_b_stats = discovery_tests_side_stats(&stats, side_b);
    let side_a_type = discovery_tests_type_stats(side_a_stats, DataType::named("GPS_DATA"));
    assert!(side_a_stats.rx_packets >= 1);
    assert!(!side_a_stats.reliable_enabled);
    assert!(!side_a_stats.link_local_enabled);
    assert!(side_a_stats.ingress_enabled);
    assert!(side_a_stats.egress_enabled);
    assert!(side_a_stats.tx_packets >= 3);
    assert_eq!(side_a_stats.tx_retries, 2);
    assert_eq!(side_a_stats.total_handler_retries, 2);
    assert_eq!(side_a_stats.tx_handler_failures, 0);
    assert_eq!(side_a_stats.local_handler_failures, 0);
    assert_eq!(side_a_stats.local_delivery_packets, 0);
    assert_eq!(side_a_type.tx_packets, 3);
    assert_eq!(side_a_type.handler_failures, 0);
    assert_eq!(side_a_type.relayed_tx_packets, 0);
    assert!(side_a_stats.adaptive.auto_balancing_enabled);
    assert!(side_a_stats.adaptive.estimated_capacity_bps > 0);
    assert!(
        side_a_stats.adaptive.peak_capacity_bps
            >= side_a_stats.adaptive.estimated_capacity_bps
    );
    assert!(side_a_stats.adaptive.current_usage_bps > 0);
    assert!(
        side_a_stats.adaptive.peak_usage_bps >= side_a_stats.adaptive.current_usage_bps
    );
    assert_eq!(
        side_a_stats.adaptive.effective_weight,
        side_a_stats.adaptive.available_headroom_bps.max(1)
    );
    assert!(side_a_stats.adaptive.sample_count >= 3);
    assert!(side_a_stats.adaptive.last_observed_ms > 0);
    assert_eq!(
        side_b_stats
            .data_types
            .iter()
            .find(|item| item.data_type == DataType::named("GPS_DATA"))
            .map(|item| item.tx_packets)
            .unwrap_or(0),
        0
    );
}

#[test]
fn relay_exports_runtime_stats_with_route_and_bandwidth_details() {
    discovery_tests_ensure_topology_test_schema();

    let now_ms = Arc::new(AtomicU64::new(0));
    let now_a = now_ms.clone();
    let now_b = now_ms.clone();

    let relay = Relay::new(Box::new(DiscoveryTestsSharedClock {
        now_ms: now_ms.clone(),
    }));
    let side_a = relay.add_side_packet("A", move |_pkt: &Packet| -> TelemetryResult<()> {
        now_a.fetch_add(1, Ordering::SeqCst);
        Ok(())
    });
    let side_b = relay.add_side_packet("B", move |_pkt: &Packet| -> TelemetryResult<()> {
        now_b.fetch_add(4, Ordering::SeqCst);
        Ok(())
    });
    let side_c =
        relay.add_side_packet("C", |_pkt: &Packet| -> TelemetryResult<()> { Ok(()) });

    let discovery_a =
        build_discovery_announce("REMOTE_A", 0, &[DataEndpoint::named("RADIO")]).unwrap();
    let discovery_b =
        build_discovery_announce("REMOTE_B", 1, &[DataEndpoint::named("RADIO")]).unwrap();
    relay.rx_from_side(side_a, discovery_a).unwrap();
    relay.rx_from_side(side_b, discovery_b).unwrap();
    relay.process_rx_queue().unwrap();

    relay
        .set_source_route_mode(Some(side_c), RouteSelectionMode::Weighted)
        .unwrap();
    relay.set_route(Some(side_c), side_b, false).unwrap();
    relay.set_route_weight(Some(side_c), side_a, 2).unwrap();
    relay.set_route_weight(Some(side_c), side_b, 1).unwrap();
    relay.set_route_priority(Some(side_c), side_a, 4).unwrap();
    relay
        .set_typed_route(Some(side_c), DataType::named("GPS_DATA"), side_a, true)
        .unwrap();
    relay
        .set_typed_route(Some(side_c), DataType::named("GPS_DATA"), side_b, false)
        .unwrap();

    for seq in 0..6 {
        let pkt = Packet::from_f32_slice(
            DataType::named("GPS_DATA"),
            &[seq as f32, seq as f32 + 1.0, seq as f32 + 2.0],
            &[DataEndpoint::named("RADIO")],
            seq as u64,
        )
        .unwrap();
        relay.rx_from_side(side_c, pkt).unwrap();
    }
    let queued = relay.export_runtime_stats();
    assert_eq!(queued.queues.rx_len, 6);
    assert!(queued.queues.rx_bytes > 0);
    relay.process_all_queues().unwrap();

    let stats = relay.export_runtime_stats();
    assert_eq!(
        stats
            .route_modes
            .iter()
            .find(|mode| mode.src_side_id == Some(side_c))
            .unwrap()
            .selection_mode,
        Some(RouteSelectionMode::Weighted)
    );
    assert!(
        stats
            .route_overrides
            .iter()
            .any(|route| route.src_side_id == Some(side_c)
                && route.dst_side_id == side_b
                && !route.enabled)
    );
    assert!(
        stats
            .route_weights
            .iter()
            .any(|weight| weight.src_side_id == Some(side_c)
                && weight.dst_side_id == side_a
                && weight.weight == 2)
    );
    assert!(
        stats
            .route_priorities
            .iter()
            .any(|priority| priority.src_side_id == Some(side_c)
                && priority.dst_side_id == side_a
                && priority.priority == 4)
    );
    assert!(
        stats
            .typed_route_overrides
            .iter()
            .any(|route| route.src_side_id == Some(side_c)
                && route.data_type == DataType::named("GPS_DATA")
                && route.dst_side_id == side_a
                && route.enabled)
    );
    assert!(
        stats
            .typed_route_overrides
            .iter()
            .any(|route| route.src_side_id == Some(side_c)
                && route.data_type == DataType::named("GPS_DATA")
                && route.dst_side_id == side_b
                && !route.enabled)
    );
    assert_eq!(stats.queues.rx_len, 0);
    assert_eq!(stats.queues.tx_len, 0);
    assert_eq!(stats.total_handler_failures, 0);
    assert_eq!(stats.total_handler_retries, 0);

    let ingress_stats = discovery_tests_side_stats(&stats, side_c);
    assert_eq!(ingress_stats.rx_packets, 6);
    assert_eq!(ingress_stats.relayed_rx_packets, 6);
    assert!(
        stats.reliable.reliable_return_route_count <= ingress_stats.rx_packets as usize
    );
    let ingress_type = discovery_tests_type_stats(ingress_stats, DataType::named("GPS_DATA"));
    assert_eq!(ingress_type.rx_packets, 6);
    assert_eq!(ingress_type.relayed_rx_packets, 6);
    let egress_a = discovery_tests_side_stats(&stats, side_a);
    let egress_b = discovery_tests_side_stats(&stats, side_b);
    assert!(egress_a.tx_packets > egress_b.tx_packets);
    assert!(egress_a.adaptive.estimated_capacity_bps > 0);
    assert!(egress_a.adaptive.current_usage_bps > 0);
    assert!(egress_a.adaptive.peak_usage_bps >= egress_a.adaptive.current_usage_bps);
    assert_eq!(
        egress_a.adaptive.effective_weight,
        egress_a.adaptive.available_headroom_bps.max(1)
    );
    assert!(egress_a.adaptive.last_observed_ms > 0);
    assert_eq!(
        egress_b
            .data_types
            .iter()
            .find(|item| item.data_type == DataType::named("GPS_DATA"))
            .map(|item| item.tx_packets)
            .unwrap_or(0),
        0
    );
    assert!(stats.discovery.route_count >= 2);
}

#[test]
fn router_runtime_stats_track_ingress_local_handler_failures_and_relayed_rx() {
    discovery_tests_ensure_topology_test_schema();

    let failing = EndpointHandler::new_packet_handler(
        DataEndpoint::named("SD_CARD"),
        |_pkt: &Packet| Err(TelemetryError::HandlerError("local handler failed")),
    );
    let router = Router::new_with_clock(RouterConfig::new(vec![failing]), discovery_tests_zero_clock());
    let side = router.add_side_packet("INGRESS", |_pkt: &Packet| Ok(()));

    let pkt = Packet::from_f32_slice(
        DataType::named("GPS_DATA"),
        &[1.0, 2.0, 3.0],
        &[DataEndpoint::named("SD_CARD")],
        1,
    )
    .unwrap();
    router.rx_from_side(&pkt, side).unwrap();

    let stats = router.export_runtime_stats();
    let ingress = discovery_tests_side_stats(&stats, side);
    let gps = discovery_tests_type_stats(ingress, DataType::named("GPS_DATA"));

    assert_eq!(stats.total_handler_failures, 1);
    assert_eq!(stats.total_handler_retries, MAX_HANDLER_RETRIES as u64);
    assert_eq!(ingress.rx_packets, 1);
    assert!(ingress.rx_bytes > 0);
    assert_eq!(ingress.relayed_rx_packets, 1);
    assert_eq!(ingress.local_delivery_packets, 1);
    assert_eq!(ingress.local_handler_failures, 1);
    assert_eq!(ingress.total_handler_retries, MAX_HANDLER_RETRIES as u64);
    assert_eq!(gps.rx_packets, 2);
    assert_eq!(gps.relayed_rx_packets, 1);
    assert_eq!(gps.handler_failures, 1);
}

#[test]
fn relay_runtime_stats_track_tx_failures_and_retries() {
    discovery_tests_ensure_topology_test_schema();

    let relay = Relay::new(discovery_tests_zero_clock());
    let side_a = relay.add_side_packet("A", |_pkt: &Packet| {
        Err(TelemetryError::Io("side tx failed hard"))
    });
    let side_b = relay.add_side_packet("B", |_pkt: &Packet| Ok(()));
    let side_c = relay.add_side_packet("C", |_pkt: &Packet| Ok(()));

    let discovery_a =
        build_discovery_announce("REMOTE_A", 0, &[DataEndpoint::named("RADIO")]).unwrap();
    relay.rx_from_side(side_a, discovery_a).unwrap();
    relay.process_rx_queue().unwrap();

    relay
        .set_source_route_mode(Some(side_c), RouteSelectionMode::Failover)
        .unwrap();
    relay.set_route(Some(side_c), side_b, false).unwrap();
    relay.set_route_priority(Some(side_c), side_a, 0).unwrap();

    let pkt = Packet::from_f32_slice(
        DataType::named("GPS_DATA"),
        &[9.0, 8.0, 7.0],
        &[DataEndpoint::named("RADIO")],
        42,
    )
    .unwrap();
    relay.rx_from_side(side_c, pkt).unwrap();
    assert!(matches!(
        relay.process_all_queues(),
        Err(TelemetryError::Io("side tx failed hard"))
    ));

    let stats = relay.export_runtime_stats();
    let failing_side = discovery_tests_side_stats(&stats, side_a);
    let ingress = discovery_tests_side_stats(&stats, side_c);
    let gps_failures = failing_side
        .data_types
        .iter()
        .find(|item| item.data_type == DataType::named("GPS_DATA"))
        .map(|item| item.handler_failures)
        .unwrap_or(0);

    assert_eq!(stats.total_handler_failures, 1);
    assert_eq!(stats.total_handler_retries, 1);
    assert!(
        stats
            .route_overrides
            .iter()
            .any(|route| route.src_side_id == Some(side_c)
                && route.dst_side_id == side_b
                && !route.enabled)
    );
    assert!(
        stats
            .route_priorities
            .iter()
            .any(|priority| priority.src_side_id == Some(side_c)
                && priority.dst_side_id == side_a
                && priority.priority == 0)
    );
    assert_eq!(ingress.rx_packets, 1);
    assert_eq!(ingress.relayed_rx_packets, 1);
    assert_eq!(failing_side.tx_packets, 0);
    assert_eq!(failing_side.tx_handler_failures, 1);
    assert_eq!(failing_side.tx_retries, 1);
    assert_eq!(failing_side.total_handler_retries, 1);
    assert_eq!(gps_failures, 0);
    let gps_tx_retries = failing_side
        .data_types
        .iter()
        .find(|item| item.data_type == DataType::named("GPS_DATA"))
        .map(|item| item.tx_retries)
        .unwrap_or(0);
    assert_eq!(gps_tx_retries, 0);
}

#[test]
fn router_failover_route_mode_switches_when_preferred_path_expires() {
    let now_ms = Arc::new(AtomicU64::new(0));
    let seen_a: Arc<Mutex<Vec<Packet>>> = Arc::new(Mutex::new(Vec::new()));
    let seen_b: Arc<Mutex<Vec<Packet>>> = Arc::new(Mutex::new(Vec::new()));
    let seen_a_c = seen_a.clone();
    let seen_b_c = seen_b.clone();

    let router = Router::new_with_clock(
        RouterConfig::default(),
        Box::new(DiscoveryTestsSharedClock {
            now_ms: now_ms.clone(),
        }),
    );
    let side_a = router.add_side_packet("A", move |pkt: &Packet| -> TelemetryResult<()> {
        seen_a_c.lock().unwrap().push(pkt.clone());
        Ok(())
    });
    let side_b = router.add_side_packet("B", move |pkt: &Packet| -> TelemetryResult<()> {
        seen_b_c.lock().unwrap().push(pkt.clone());
        Ok(())
    });

    let discovery_a =
        build_discovery_announce("REMOTE_A", 0, &[DataEndpoint::named("RADIO")]).unwrap();
    router.rx_from_side(&discovery_a, side_a).unwrap();
    now_ms.store(DISCOVERY_ROUTE_TTL_MS / 2, Ordering::SeqCst);
    let discovery_b = build_discovery_announce(
        "REMOTE_B",
        DISCOVERY_ROUTE_TTL_MS / 2,
        &[DataEndpoint::named("RADIO")],
    )
    .unwrap();
    router.rx_from_side(&discovery_b, side_b).unwrap();
    seen_a.lock().unwrap().clear();
    seen_b.lock().unwrap().clear();

    router
        .set_source_route_mode(None, RouteSelectionMode::Failover)
        .unwrap();
    router.set_route_priority(None, side_a, 0).unwrap();
    router.set_route_priority(None, side_b, 1).unwrap();

    let pkt1 = Packet::from_f32_slice(
        DataType::named("GPS_DATA"),
        &[1.0, 2.0, 3.0],
        &[DataEndpoint::named("RADIO")],
        1,
    )
    .unwrap();
    router.tx(pkt1).unwrap();
    assert_eq!(
        count_packets_of_type(&seen_a.lock().unwrap(), DataType::named("GPS_DATA")),
        1
    );
    assert_eq!(
        count_packets_of_type(&seen_b.lock().unwrap(), DataType::named("GPS_DATA")),
        0
    );

    now_ms.store(DISCOVERY_ROUTE_TTL_MS + 1, Ordering::SeqCst);
    let pkt2 = Packet::from_f32_slice(
        DataType::named("GPS_DATA"),
        &[2.0, 3.0, 4.0],
        &[DataEndpoint::named("RADIO")],
        2,
    )
    .unwrap();
    router.tx(pkt2).unwrap();
    assert_eq!(
        count_packets_of_type(&seen_a.lock().unwrap(), DataType::named("GPS_DATA")),
        1
    );
    assert_eq!(
        count_packets_of_type(&seen_b.lock().unwrap(), DataType::named("GPS_DATA")),
        1
    );
}

#[test]
fn router_weighted_route_mode_falls_back_to_remaining_path_when_other_path_expires() {
    let now_ms = Arc::new(AtomicU64::new(0));
    let seen_a: Arc<Mutex<Vec<Packet>>> = Arc::new(Mutex::new(Vec::new()));
    let seen_b: Arc<Mutex<Vec<Packet>>> = Arc::new(Mutex::new(Vec::new()));
    let seen_a_c = seen_a.clone();
    let seen_b_c = seen_b.clone();

    let router = Router::new_with_clock(
        RouterConfig::default(),
        Box::new(DiscoveryTestsSharedClock {
            now_ms: now_ms.clone(),
        }),
    );
    let side_a = router.add_side_packet("A", move |pkt: &Packet| -> TelemetryResult<()> {
        seen_a_c.lock().unwrap().push(pkt.clone());
        Ok(())
    });
    let side_b = router.add_side_packet("B", move |pkt: &Packet| -> TelemetryResult<()> {
        seen_b_c.lock().unwrap().push(pkt.clone());
        Ok(())
    });

    let discovery_a =
        build_discovery_announce("REMOTE_A", 0, &[DataEndpoint::named("RADIO")]).unwrap();
    router.rx_from_side(&discovery_a, side_a).unwrap();
    now_ms.store(DISCOVERY_ROUTE_TTL_MS / 2, Ordering::SeqCst);
    let discovery_b = build_discovery_announce(
        "REMOTE_B",
        DISCOVERY_ROUTE_TTL_MS / 2,
        &[DataEndpoint::named("RADIO")],
    )
    .unwrap();
    router.rx_from_side(&discovery_b, side_b).unwrap();
    seen_a.lock().unwrap().clear();
    seen_b.lock().unwrap().clear();

    router
        .set_source_route_mode(None, RouteSelectionMode::Weighted)
        .unwrap();
    router.set_route_weight(None, side_a, 1).unwrap();
    router.set_route_weight(None, side_b, 1).unwrap();

    for seq in 0..2 {
        let pkt = Packet::from_f32_slice(
            DataType::named("GPS_DATA"),
            &[seq as f32, seq as f32 + 1.0, seq as f32 + 2.0],
            &[DataEndpoint::named("RADIO")],
            seq as u64,
        )
        .unwrap();
        router.tx(pkt).unwrap();
    }
    let before_a =
        count_packets_of_type(&seen_a.lock().unwrap(), DataType::named("GPS_DATA"));
    let before_b =
        count_packets_of_type(&seen_b.lock().unwrap(), DataType::named("GPS_DATA"));
    assert_eq!(before_a + before_b, 2);

    now_ms.store(DISCOVERY_ROUTE_TTL_MS + 1, Ordering::SeqCst);
    let pkt3 = Packet::from_f32_slice(
        DataType::named("GPS_DATA"),
        &[9.0, 10.0, 11.0],
        &[DataEndpoint::named("RADIO")],
        3,
    )
    .unwrap();
    router.tx(pkt3).unwrap();

    assert_eq!(
        count_packets_of_type(&seen_a.lock().unwrap(), DataType::named("GPS_DATA")),
        before_a
    );
    assert_eq!(
        count_packets_of_type(&seen_b.lock().unwrap(), DataType::named("GPS_DATA")),
        before_b + 1
    );
}

#[test]
fn router_failover_route_mode_switches_when_preferred_side_is_removed() {
    let seen_a: Arc<Mutex<Vec<Packet>>> = Arc::new(Mutex::new(Vec::new()));
    let seen_b: Arc<Mutex<Vec<Packet>>> = Arc::new(Mutex::new(Vec::new()));
    let seen_a_c = seen_a.clone();
    let seen_b_c = seen_b.clone();

    let router = Router::new_with_clock(RouterConfig::default(), discovery_tests_zero_clock());
    let side_a = router.add_side_packet("A", move |pkt: &Packet| -> TelemetryResult<()> {
        seen_a_c.lock().unwrap().push(pkt.clone());
        Ok(())
    });
    let side_b = router.add_side_packet("B", move |pkt: &Packet| -> TelemetryResult<()> {
        seen_b_c.lock().unwrap().push(pkt.clone());
        Ok(())
    });

    let discovery_a =
        build_discovery_announce("REMOTE_A", 0, &[DataEndpoint::named("RADIO")]).unwrap();
    let discovery_b =
        build_discovery_announce("REMOTE_B", 1, &[DataEndpoint::named("RADIO")]).unwrap();
    router.rx_from_side(&discovery_a, side_a).unwrap();
    router.rx_from_side(&discovery_b, side_b).unwrap();
    seen_a.lock().unwrap().clear();
    seen_b.lock().unwrap().clear();

    router
        .set_source_route_mode(None, RouteSelectionMode::Failover)
        .unwrap();
    router.set_route_priority(None, side_a, 0).unwrap();
    router.set_route_priority(None, side_b, 1).unwrap();

    let pkt1 = Packet::from_f32_slice(
        DataType::named("GPS_DATA"),
        &[1.0, 2.0, 3.0],
        &[DataEndpoint::named("RADIO")],
        1,
    )
    .unwrap();
    router.tx(pkt1).unwrap();
    assert_eq!(
        count_packets_of_type(&seen_a.lock().unwrap(), DataType::named("GPS_DATA")),
        1
    );
    assert_eq!(
        count_packets_of_type(&seen_b.lock().unwrap(), DataType::named("GPS_DATA")),
        0
    );

    router.remove_side(side_a).unwrap();
    let pkt2 = Packet::from_f32_slice(
        DataType::named("GPS_DATA"),
        &[4.0, 5.0, 6.0],
        &[DataEndpoint::named("RADIO")],
        2,
    )
    .unwrap();
    router.tx(pkt2).unwrap();

    let before_a =
        count_packets_of_type(&seen_a.lock().unwrap(), DataType::named("GPS_DATA"));
    let before_b =
        count_packets_of_type(&seen_b.lock().unwrap(), DataType::named("GPS_DATA"));
    assert_eq!(before_a + before_b, 2);
}

#[test]
fn relay_weighted_route_mode_splits_discovered_paths_by_weight() {
    let seen_a: Arc<Mutex<Vec<Packet>>> = Arc::new(Mutex::new(Vec::new()));
    let seen_b: Arc<Mutex<Vec<Packet>>> = Arc::new(Mutex::new(Vec::new()));
    let seen_a_c = seen_a.clone();
    let seen_b_c = seen_b.clone();

    let relay = Relay::new(discovery_tests_zero_clock());
    let side_a = relay.add_side_packet("A", move |pkt: &Packet| -> TelemetryResult<()> {
        seen_a_c.lock().unwrap().push(pkt.clone());
        Ok(())
    });
    let side_b = relay.add_side_packet("B", move |pkt: &Packet| -> TelemetryResult<()> {
        seen_b_c.lock().unwrap().push(pkt.clone());
        Ok(())
    });
    let side_c =
        relay.add_side_packet("C", |_pkt: &Packet| -> TelemetryResult<()> { Ok(()) });

    let discovery_a =
        build_discovery_announce("REMOTE_A", 0, &[DataEndpoint::named("RADIO")]).unwrap();
    let discovery_b =
        build_discovery_announce("REMOTE_B", 1, &[DataEndpoint::named("RADIO")]).unwrap();
    relay.rx_from_side(side_a, discovery_a).unwrap();
    relay.rx_from_side(side_b, discovery_b).unwrap();
    relay.process_rx_queue().unwrap();
    relay.process_tx_queue().unwrap();
    seen_a.lock().unwrap().clear();
    seen_b.lock().unwrap().clear();

    relay
        .set_source_route_mode(Some(side_c), RouteSelectionMode::Weighted)
        .unwrap();
    relay.set_route_weight(Some(side_c), side_a, 2).unwrap();
    relay.set_route_weight(Some(side_c), side_b, 1).unwrap();

    for seq in 0..6 {
        let pkt = Packet::from_f32_slice(
            DataType::named("GPS_DATA"),
            &[seq as f32, seq as f32 + 1.0, seq as f32 + 2.0],
            &[DataEndpoint::named("RADIO")],
            seq as u64,
        )
        .unwrap();
        relay.rx_from_side(side_c, pkt).unwrap();
    }
    relay.process_all_queues().unwrap();

    assert_eq!(
        count_packets_of_type(&seen_a.lock().unwrap(), DataType::named("GPS_DATA")),
        4
    );
    assert_eq!(
        count_packets_of_type(&seen_b.lock().unwrap(), DataType::named("GPS_DATA")),
        2
    );
}

#[test]
fn relay_failover_route_mode_switches_when_preferred_path_expires() {
    let now_ms = Arc::new(AtomicU64::new(0));
    let seen_a: Arc<Mutex<Vec<Packet>>> = Arc::new(Mutex::new(Vec::new()));
    let seen_b: Arc<Mutex<Vec<Packet>>> = Arc::new(Mutex::new(Vec::new()));
    let seen_a_c = seen_a.clone();
    let seen_b_c = seen_b.clone();

    let relay = Relay::new(Box::new(DiscoveryTestsSharedClock {
        now_ms: now_ms.clone(),
    }));
    let side_a = relay.add_side_packet("A", move |pkt: &Packet| -> TelemetryResult<()> {
        seen_a_c.lock().unwrap().push(pkt.clone());
        Ok(())
    });
    let side_b = relay.add_side_packet("B", move |pkt: &Packet| -> TelemetryResult<()> {
        seen_b_c.lock().unwrap().push(pkt.clone());
        Ok(())
    });
    let side_c =
        relay.add_side_packet("C", |_pkt: &Packet| -> TelemetryResult<()> { Ok(()) });

    let discovery_a =
        build_discovery_announce("REMOTE_A", 0, &[DataEndpoint::named("RADIO")]).unwrap();
    relay.rx_from_side(side_a, discovery_a).unwrap();
    relay.process_rx_queue().unwrap();
    relay.process_tx_queue().unwrap();
    now_ms.store(DISCOVERY_ROUTE_TTL_MS / 2, Ordering::SeqCst);
    let discovery_b = build_discovery_announce(
        "REMOTE_B",
        DISCOVERY_ROUTE_TTL_MS / 2,
        &[DataEndpoint::named("RADIO")],
    )
    .unwrap();
    relay.rx_from_side(side_b, discovery_b).unwrap();
    relay.process_rx_queue().unwrap();
    relay.process_tx_queue().unwrap();
    seen_a.lock().unwrap().clear();
    seen_b.lock().unwrap().clear();

    relay
        .set_source_route_mode(Some(side_c), RouteSelectionMode::Failover)
        .unwrap();
    relay.set_route_priority(Some(side_c), side_a, 0).unwrap();
    relay.set_route_priority(Some(side_c), side_b, 1).unwrap();

    let pkt1 = Packet::from_f32_slice(
        DataType::named("GPS_DATA"),
        &[1.0, 2.0, 3.0],
        &[DataEndpoint::named("RADIO")],
        1,
    )
    .unwrap();
    relay.rx_from_side(side_c, pkt1).unwrap();
    relay.process_all_queues().unwrap();
    assert_eq!(
        count_packets_of_type(&seen_a.lock().unwrap(), DataType::named("GPS_DATA")),
        1
    );
    assert_eq!(
        count_packets_of_type(&seen_b.lock().unwrap(), DataType::named("GPS_DATA")),
        0
    );

    now_ms.store(DISCOVERY_ROUTE_TTL_MS + 1, Ordering::SeqCst);
    let pkt2 = Packet::from_f32_slice(
        DataType::named("GPS_DATA"),
        &[2.0, 3.0, 4.0],
        &[DataEndpoint::named("RADIO")],
        2,
    )
    .unwrap();
    relay.rx_from_side(side_c, pkt2).unwrap();
    relay.process_all_queues().unwrap();
    let before_a =
        count_packets_of_type(&seen_a.lock().unwrap(), DataType::named("GPS_DATA"));
    let before_b =
        count_packets_of_type(&seen_b.lock().unwrap(), DataType::named("GPS_DATA"));
    assert_eq!(before_a + before_b, 2);
}

#[test]
fn relay_weighted_route_mode_falls_back_to_remaining_path_when_other_path_expires() {
    let now_ms = Arc::new(AtomicU64::new(0));
    let seen_a: Arc<Mutex<Vec<Packet>>> = Arc::new(Mutex::new(Vec::new()));
    let seen_b: Arc<Mutex<Vec<Packet>>> = Arc::new(Mutex::new(Vec::new()));
    let seen_a_c = seen_a.clone();
    let seen_b_c = seen_b.clone();

    let relay = Relay::new(Box::new(DiscoveryTestsSharedClock {
        now_ms: now_ms.clone(),
    }));
    let side_a = relay.add_side_packet("A", move |pkt: &Packet| -> TelemetryResult<()> {
        seen_a_c.lock().unwrap().push(pkt.clone());
        Ok(())
    });
    let side_b = relay.add_side_packet("B", move |pkt: &Packet| -> TelemetryResult<()> {
        seen_b_c.lock().unwrap().push(pkt.clone());
        Ok(())
    });
    let side_c =
        relay.add_side_packet("C", |_pkt: &Packet| -> TelemetryResult<()> { Ok(()) });

    let discovery_a =
        build_discovery_announce("REMOTE_A", 0, &[DataEndpoint::named("RADIO")]).unwrap();
    relay.rx_from_side(side_a, discovery_a).unwrap();
    relay.process_all_queues().unwrap();
    now_ms.store(DISCOVERY_ROUTE_TTL_MS / 2, Ordering::SeqCst);
    let discovery_b = build_discovery_announce(
        "REMOTE_B",
        DISCOVERY_ROUTE_TTL_MS / 2,
        &[DataEndpoint::named("RADIO")],
    )
    .unwrap();
    relay.rx_from_side(side_b, discovery_b).unwrap();
    relay.process_all_queues().unwrap();
    seen_a.lock().unwrap().clear();
    seen_b.lock().unwrap().clear();

    relay
        .set_source_route_mode(Some(side_c), RouteSelectionMode::Weighted)
        .unwrap();
    relay.set_route_weight(Some(side_c), side_a, 1).unwrap();
    relay.set_route_weight(Some(side_c), side_b, 1).unwrap();

    for seq in 0..2 {
        let pkt = Packet::from_f32_slice(
            DataType::named("GPS_DATA"),
            &[seq as f32, seq as f32 + 1.0, seq as f32 + 2.0],
            &[DataEndpoint::named("RADIO")],
            seq as u64,
        )
        .unwrap();
        relay.rx_from_side(side_c, pkt).unwrap();
    }
    relay.process_all_queues().unwrap();
    let before_a =
        count_packets_of_type(&seen_a.lock().unwrap(), DataType::named("GPS_DATA"));
    let before_b =
        count_packets_of_type(&seen_b.lock().unwrap(), DataType::named("GPS_DATA"));
    assert_eq!(before_a + before_b, 2);

    now_ms.store(DISCOVERY_ROUTE_TTL_MS + 1, Ordering::SeqCst);
    let pkt3 = Packet::from_f32_slice(
        DataType::named("GPS_DATA"),
        &[9.0, 10.0, 11.0],
        &[DataEndpoint::named("RADIO")],
        3,
    )
    .unwrap();
    relay.rx_from_side(side_c, pkt3).unwrap();
    relay.process_all_queues().unwrap();

    assert_eq!(
        count_packets_of_type(&seen_a.lock().unwrap(), DataType::named("GPS_DATA")),
        before_a
    );
    assert_eq!(
        count_packets_of_type(&seen_b.lock().unwrap(), DataType::named("GPS_DATA")),
        before_b + 1
    );
}

#[test]
fn relay_failover_route_mode_switches_when_preferred_side_is_removed() {
    let seen_a: Arc<Mutex<Vec<Packet>>> = Arc::new(Mutex::new(Vec::new()));
    let seen_b: Arc<Mutex<Vec<Packet>>> = Arc::new(Mutex::new(Vec::new()));
    let seen_a_c = seen_a.clone();
    let seen_b_c = seen_b.clone();

    let relay = Relay::new(discovery_tests_zero_clock());
    let side_a = relay.add_side_packet("A", move |pkt: &Packet| -> TelemetryResult<()> {
        seen_a_c.lock().unwrap().push(pkt.clone());
        Ok(())
    });
    let side_b = relay.add_side_packet("B", move |pkt: &Packet| -> TelemetryResult<()> {
        seen_b_c.lock().unwrap().push(pkt.clone());
        Ok(())
    });
    let side_c =
        relay.add_side_packet("C", |_pkt: &Packet| -> TelemetryResult<()> { Ok(()) });

    let discovery_a =
        build_discovery_announce("REMOTE_A", 0, &[DataEndpoint::named("RADIO")]).unwrap();
    let discovery_b =
        build_discovery_announce("REMOTE_B", 1, &[DataEndpoint::named("RADIO")]).unwrap();
    relay.rx_from_side(side_a, discovery_a).unwrap();
    relay.rx_from_side(side_b, discovery_b).unwrap();
    relay.process_all_queues().unwrap();
    seen_a.lock().unwrap().clear();
    seen_b.lock().unwrap().clear();

    relay
        .set_source_route_mode(Some(side_c), RouteSelectionMode::Failover)
        .unwrap();
    relay.set_route_priority(Some(side_c), side_a, 0).unwrap();
    relay.set_route_priority(Some(side_c), side_b, 1).unwrap();

    let pkt1 = Packet::from_f32_slice(
        DataType::named("GPS_DATA"),
        &[1.0, 2.0, 3.0],
        &[DataEndpoint::named("RADIO")],
        1,
    )
    .unwrap();
    relay.rx_from_side(side_c, pkt1).unwrap();
    relay.process_all_queues().unwrap();
    assert_eq!(
        count_packets_of_type(&seen_a.lock().unwrap(), DataType::named("GPS_DATA")),
        1
    );
    assert_eq!(
        count_packets_of_type(&seen_b.lock().unwrap(), DataType::named("GPS_DATA")),
        0
    );

    relay.remove_side(side_a).unwrap();
    let pkt2 = Packet::from_f32_slice(
        DataType::named("GPS_DATA"),
        &[4.0, 5.0, 6.0],
        &[DataEndpoint::named("RADIO")],
        2,
    )
    .unwrap();
    relay.rx_from_side(side_c, pkt2).unwrap();
    relay.process_all_queues().unwrap();

    assert_eq!(
        count_packets_of_type(&seen_a.lock().unwrap(), DataType::named("GPS_DATA")),
        1
    );
    assert_eq!(
        count_packets_of_type(&seen_b.lock().unwrap(), DataType::named("GPS_DATA")),
        1
    );
}

#[test]
fn router_can_disable_ingress_for_a_side() {
    let router = Router::new_with_clock(RouterConfig::default(), discovery_tests_zero_clock());
    let side =
        router.add_side_packet("A", |_pkt: &Packet| -> TelemetryResult<()> { Ok(()) });
    router.set_side_ingress_enabled(side, false).unwrap();

    let pkt = Packet::from_f32_slice(
        DataType::named("GPS_DATA"),
        &[1.0, 2.0, 3.0],
        &[DataEndpoint::named("RADIO")],
        5,
    )
    .unwrap();

    match router.rx_from_side(&pkt, side) {
        Err(TelemetryError::HandlerError(msg)) => {
            assert!(msg.contains("ingress disabled"));
        }
        other => panic!("expected ingress-disabled error, got {other:?}"),
    }
}

#[test]
fn router_periodic_dispatches_discovery_and_timesync_when_enabled() {
    let seen: Arc<Mutex<Vec<Packet>>> = Arc::new(Mutex::new(Vec::new()));
    let seen_c = seen.clone();

    let router = Router::new_with_clock(
        RouterConfig::default().with_timesync(TimeSyncConfig {
            role: TimeSyncRole::Source,
            ..Default::default()
        }),
        discovery_tests_zero_clock(),
    );
    router.add_side_packet("NET", move |pkt: &Packet| -> TelemetryResult<()> {
        seen_c.lock().unwrap().push(pkt.clone());
        Ok(())
    });

    router.periodic(0).unwrap();

    let pkts = seen.lock().unwrap().clone();
    assert!(pkts.iter().any(|pkt| matches!(
        pkt.data_type(),
        DataType::DiscoveryAddress
            | DataType::DiscoveryAnnounce
            | DataType::DiscoveryTopology
            | DataType::DiscoveryTimeSyncSources
    )));
    assert!(
        pkts.iter()
            .any(|pkt| pkt.data_type() == DataType::TimeSyncAnnounce)
    );
}

#[test]
fn router_periodic_can_skip_timesync_but_still_dispatch_discovery() {
    let seen: Arc<Mutex<Vec<Packet>>> = Arc::new(Mutex::new(Vec::new()));
    let seen_c = seen.clone();

    let router = Router::new_with_clock(
        RouterConfig::default().with_timesync(TimeSyncConfig {
            role: TimeSyncRole::Source,
            ..Default::default()
        }),
        discovery_tests_zero_clock(),
    );
    router.add_side_packet("NET", move |pkt: &Packet| -> TelemetryResult<()> {
        seen_c.lock().unwrap().push(pkt.clone());
        Ok(())
    });

    router.periodic_no_timesync(0).unwrap();

    let pkts = seen.lock().unwrap().clone();
    assert!(pkts.iter().any(|pkt| matches!(
        pkt.data_type(),
        DataType::DiscoveryAddress
            | DataType::DiscoveryAnnounce
            | DataType::DiscoveryTopology
            | DataType::DiscoveryTimeSyncSources
    )));
    assert!(
        pkts.iter()
            .all(|pkt| pkt.data_type() != DataType::TimeSyncAnnounce)
    );
}

#[test]
fn queued_timesync_packets_precede_normal_telemetry() {
    let seen: Arc<Mutex<Vec<Packet>>> = Arc::new(Mutex::new(Vec::new()));
    let seen_c = seen.clone();

    let router = Router::new_with_clock(
        RouterConfig::default().with_timesync(TimeSyncConfig {
            role: TimeSyncRole::Consumer,
            ..Default::default()
        }),
        discovery_tests_zero_clock(),
    );
    router.add_side_packet("NET", move |pkt: &Packet| -> TelemetryResult<()> {
        seen_c.lock().unwrap().push(pkt.clone());
        Ok(())
    });

    router
        .log_queue(DataType::named("GPS_DATA"), &[1.0_f32, 2.0, 3.0])
        .unwrap();
    let announce =
        build_timesync_announce_with_sender("SRC_FAST", 1, 1_700).unwrap();
    router.rx(&announce).unwrap();
    router.process_tx_queue().unwrap();

    let pkts = seen.lock().unwrap().clone();
    assert!(pkts.len() >= 2);
    let gps_idx = pkts
        .iter()
        .position(|pkt| pkt.data_type() == DataType::named("GPS_DATA"))
        .expect("expected queued GPS packet");
    let request_idx = pkts
        .iter()
        .position(|pkt| pkt.data_type() == DataType::TimeSyncRequest)
        .expect("expected queued time-sync request");
    assert!(request_idx < gps_idx);
}

#[test]
fn queued_discovery_packets_precede_normal_telemetry() {
    let seen: Arc<Mutex<Vec<Packet>>> = Arc::new(Mutex::new(Vec::new()));
    let seen_c = seen.clone();

    let router = Router::new_with_clock(
        RouterConfig::new(vec![EndpointHandler::new_packet_handler(
            DataEndpoint::named("RADIO"),
            |_pkt| Ok(()),
        )]),
        discovery_tests_zero_clock(),
    );
    router.add_side_packet("NET", move |pkt: &Packet| -> TelemetryResult<()> {
        seen_c.lock().unwrap().push(pkt.clone());
        Ok(())
    });

    router
        .log_queue(DataType::named("GPS_DATA"), &[1.0_f32, 2.0, 3.0])
        .unwrap();
    router.announce_discovery().unwrap();
    router.process_tx_queue().unwrap();

    let pkts = seen.lock().unwrap().clone();
    let gps_idx = pkts
        .iter()
        .position(|pkt| pkt.data_type() == DataType::named("GPS_DATA"))
        .unwrap();
    assert!(gps_idx > 0);
    assert!(
        pkts[..gps_idx]
            .iter()
            .all(|pkt| is_discovery_type(pkt.data_type()))
    );
}

#[test]
fn reliable_packets_use_discovery_selection_instead_of_flooding() {
    discovery_tests_ensure_topology_test_schema();
    let seen_a: Arc<Mutex<Vec<Packet>>> = Arc::new(Mutex::new(Vec::new()));
    let seen_b: Arc<Mutex<Vec<Packet>>> = Arc::new(Mutex::new(Vec::new()));
    let seen_a_c = seen_a.clone();
    let seen_b_c = seen_b.clone();

    let router = Router::new_with_clock(RouterConfig::default(), discovery_tests_zero_clock());
    let side_a = router.add_side_packet("A", move |pkt: &Packet| -> TelemetryResult<()> {
        seen_a_c.lock().unwrap().push(pkt.clone());
        Ok(())
    });
    let side_b = router.add_side_packet("B", move |pkt: &Packet| -> TelemetryResult<()> {
        seen_b_c.lock().unwrap().push(pkt.clone());
        Ok(())
    });

    let discovery_pkt =
        build_discovery_announce("REMOTE_A", 0, &[DataEndpoint::named("RADIO")]).unwrap();
    router.rx_from_side(&discovery_pkt, side_a).unwrap();
    let discovery_pkt =
        build_discovery_announce("REMOTE_B", 0, &[DataEndpoint::named("RADIO")]).unwrap();
    router.rx_from_side(&discovery_pkt, side_b).unwrap();
    seen_a.lock().unwrap().clear();
    seen_b.lock().unwrap().clear();

    let msg = Packet::from_f32_slice(
        DataType::named("GPS_DATA"),
        &[5.0, 6.0, 7.0],
        &[DataEndpoint::named("RADIO")],
        3,
    )
    .unwrap();
    router.tx(msg).unwrap();

    let seen_a_len = seen_a.lock().unwrap().len();
    let seen_b_len = seen_b.lock().unwrap().len();
    assert_eq!(
        seen_a_len + seen_b_len,
        1,
        "reliable outbound traffic should follow one discovered path instead of flooding",
    );
}

#[test]
fn relay_exports_aggregated_topology() {
    discovery_tests_ensure_topology_test_schema();

    let relay = Relay::new(discovery_tests_zero_clock());
    let side_a =
        relay.add_side_packet("A", |_pkt: &Packet| -> TelemetryResult<()> { Ok(()) });
    relay.add_side_packet("B", |_pkt: &Packet| -> TelemetryResult<()> { Ok(()) });

    let discovery_pkt = build_discovery_announce(
        "NODE_A",
        0,
        &[DataEndpoint::named("RADIO"), DataEndpoint::named("SD_CARD")],
    )
    .unwrap();
    relay.rx_from_side(side_a, discovery_pkt).unwrap();
    relay.process_all_queues().unwrap();

    let snap = relay.export_topology();
    assert_eq!(
        snap.advertised_endpoints,
        vec![DataEndpoint::named("SD_CARD"), DataEndpoint::named("RADIO")]
    );
    assert!(snap.routers.iter().any(|board| board.sender_id == "RELAY"
        && board.connections.contains(&"NODE_A".to_string())));
    assert_eq!(snap.routes.len(), 1);
    assert_eq!(snap.routes[0].side_name, "A");
    assert_eq!(snap.routes[0].announcers.len(), 1);
    assert_eq!(snap.routes[0].announcers[0].sender_id, "NODE_A");
    assert!(
        snap.routes[0].announcers[0]
            .routers
            .iter()
            .any(|board| board.sender_id == "NODE_A")
    );
}

#[test]
fn relay_periodic_dispatches_discovery() {
    let seen_a: Arc<Mutex<Vec<Packet>>> = Arc::new(Mutex::new(Vec::new()));
    let seen_b: Arc<Mutex<Vec<Packet>>> = Arc::new(Mutex::new(Vec::new()));
    let seen_a_c = seen_a.clone();
    let seen_b_c = seen_b.clone();

    let relay = Relay::new(discovery_tests_zero_clock());
    let side_a = relay.add_side_packet("A", move |pkt: &Packet| -> TelemetryResult<()> {
        seen_a_c.lock().unwrap().push(pkt.clone());
        Ok(())
    });
    relay.add_side_packet("B", move |pkt: &Packet| -> TelemetryResult<()> {
        seen_b_c.lock().unwrap().push(pkt.clone());
        Ok(())
    });

    let discovery_pkt =
        build_discovery_announce("NODE_A", 0, &[DataEndpoint::named("RADIO")]).unwrap();
    relay.rx_from_side(side_a, discovery_pkt).unwrap();
    relay.periodic(0).unwrap();
    seen_a.lock().unwrap().clear();
    seen_b.lock().unwrap().clear();

    relay.periodic(0).unwrap();

    assert!(
        seen_b
            .lock()
            .unwrap()
            .iter()
            .any(|pkt| pkt.data_type() == DataType::DiscoveryAnnounce)
    );
}

#[test]
fn relay_end_to_end_acked_holders_clear_when_discovered_holder_expires() {
    let now_ms = Arc::new(AtomicU64::new(0));
    let relay = Relay::new(Box::new(DiscoveryTestsSharedClock {
        now_ms: now_ms.clone(),
    }));
    let side =
        relay.add_side_packet("A", |_pkt: &Packet| -> TelemetryResult<()> { Ok(()) });

    relay
        .rx_from_side(
            side,
            build_discovery_announce("DEST_A", 0, &[DataEndpoint::named("RADIO")]).unwrap(),
        )
        .unwrap();
    relay.process_all_queues().unwrap();

    let packet_id = 77u64;
    let ack = Packet::new(
        DataType::ReliableAck,
        message_meta(DataType::ReliableAck).endpoints,
        "E2EACK:DEST_A",
        0,
        Arc::<[u8]>::from(packet_id.to_le_bytes().to_vec()),
    )
    .unwrap();
    relay.rx_from_side(side, ack).unwrap();
    relay.process_all_queues().unwrap();
    assert_eq!(
        relay.debug_end_to_end_acked_destination_count(packet_id),
        Some(1)
    );

    now_ms.store(DISCOVERY_ROUTE_TTL_MS + 1, Ordering::SeqCst);
    relay.periodic(0).unwrap();
    assert_eq!(
        relay.debug_end_to_end_acked_destination_count(packet_id),
        None
    );
}

#[test]
fn relay_keeps_forwarding_to_unacked_destinations_after_reachability_changes() {
    let seen: Arc<Mutex<Vec<Packet>>> = Arc::new(Mutex::new(Vec::new()));
    let seen_c = seen.clone();
    let relay = Relay::new(discovery_tests_zero_clock());
    let ingress =
        relay.add_side_packet("INGRESS", |_pkt: &Packet| -> TelemetryResult<()> { Ok(()) });
    let link = relay.add_side_packet("LINK", move |pkt: &Packet| -> TelemetryResult<()> {
        seen_c.lock().unwrap().push(pkt.clone());
        Ok(())
    });

    relay
        .rx_from_side(
            link,
            build_discovery_announce("DEST_A", 0, &[DataEndpoint::named("RADIO")]).unwrap(),
        )
        .unwrap();
    relay
        .rx_from_side(
            link,
            build_discovery_announce("DEST_B", 0, &[DataEndpoint::named("RADIO")]).unwrap(),
        )
        .unwrap();
    relay.process_all_queues().unwrap();

    let pkt = Packet::from_f32_slice(
        DataType::named("GPS_DATA"),
        &[31.0, 0.0, 0.0],
        &[DataEndpoint::named("RADIO")],
        31,
    )
    .unwrap();
    let packet_id = pkt.packet_id();
    relay.rx_from_side(ingress, pkt.clone()).unwrap();
    relay.process_all_queues().unwrap();
    seen.lock().unwrap().clear();

    let ack = Packet::new(
        DataType::ReliableAck,
        message_meta(DataType::ReliableAck).endpoints,
        "E2EACK:DEST_A",
        0,
        Arc::<[u8]>::from(packet_id.to_le_bytes().to_vec()),
    )
    .unwrap();
    relay.rx_from_side(link, ack).unwrap();
    relay.process_all_queues().unwrap();

    relay
        .rx_from_side(
            link,
            build_discovery_announce("DEST_B", 1, &[DataEndpoint::named("SD_CARD")])
                .unwrap(),
        )
        .unwrap();
    relay.process_all_queues().unwrap();

    relay.rx_from_side(ingress, pkt).unwrap();
    relay.process_all_queues().unwrap();
    assert!(
        seen.lock()
            .unwrap()
            .iter()
            .any(|p| p.data_type() == DataType::named("GPS_DATA"))
    );
}

#[test]
fn reliable_relay_state_stays_bounded_under_unacked_traffic() {
    let relay = Relay::new(discovery_tests_zero_clock());
    let side =
        relay.add_side_packet("A", |_pkt: &Packet| -> TelemetryResult<()> { Ok(()) });

    for idx in 0..(RELIABLE_MAX_RETURN_ROUTES.max(1) + 4) {
        let pkt = Packet::from_f32_slice(
            DataType::named("GPS_DATA"),
            &[idx as f32, 2.0, 0.0],
            &[DataEndpoint::named("RADIO")],
            idx as u64,
        )
        .unwrap();
        relay.rx_from_side(side, pkt).unwrap();
    }
    assert!(relay.debug_reliable_return_route_count() <= RELIABLE_MAX_RETURN_ROUTES.max(1));

    let packet_id = 123u64;
    for idx in 0..(RELIABLE_MAX_END_TO_END_PENDING.max(1) + 4) {
        let ack = Packet::new(
            DataType::ReliableAck,
            message_meta(DataType::ReliableAck).endpoints,
            &format!("E2EACK:DEST_{idx}"),
            idx as u64,
            Arc::<[u8]>::from(packet_id.to_le_bytes().to_vec()),
        )
        .unwrap();
        relay.rx_from_side(side, ack).unwrap();
    }
    assert!(
        relay
            .debug_end_to_end_acked_destination_count(packet_id)
            .unwrap_or(0)
            <= RELIABLE_MAX_END_TO_END_PENDING.max(1)
    );

    for idx in 0..(RELIABLE_MAX_END_TO_END_ACK_CACHE.max(1) + 4) {
        let ack = Packet::new(
            DataType::ReliableAck,
            message_meta(DataType::ReliableAck).endpoints,
            "E2EACK:DEST_A",
            idx as u64,
            Arc::<[u8]>::from((10_000u64 + idx as u64).to_le_bytes().to_vec()),
        )
        .unwrap();
        relay.rx_from_side(side, ack).unwrap();
    }
    assert!(
        relay.debug_end_to_end_acked_packet_count()
            <= RELIABLE_MAX_END_TO_END_ACK_CACHE.max(1)
    );
}

#[test]
fn link_local_only_packets_stay_on_software_bus_sides() {
    let Some(software_bus) = discovery_tests_endpoint_by_name("SOFTWARE_BUS") else {
        return;
    };
    let Some(ipc_message) = discovery_tests_datatype_by_name("IPC_MESSAGE") else {
        return;
    };
    let seen_net: Arc<Mutex<Vec<Packet>>> = Arc::new(Mutex::new(Vec::new()));
    let seen_ll: Arc<Mutex<Vec<Packet>>> = Arc::new(Mutex::new(Vec::new()));
    let seen_net_c = seen_net.clone();
    let seen_ll_c = seen_ll.clone();

    let router = Router::new_with_clock(RouterConfig::default(), discovery_tests_zero_clock());
    router.add_side_packet("NET", move |pkt: &Packet| -> TelemetryResult<()> {
        seen_net_c.lock().unwrap().push(pkt.clone());
        Ok(())
    });
    router.add_side_packet_with_options(
        "LL",
        move |pkt: &Packet| -> TelemetryResult<()> {
            seen_ll_c.lock().unwrap().push(pkt.clone());
            Ok(())
        },
        RouterSideOptions {
            reliable_enabled: false,
            link_local_enabled: true,
            ..RouterSideOptions::default()
        },
    );

    let pkt = Packet::new(
        ipc_message,
        &[software_bus],
        "IPC_NODE",
        7,
        Arc::<[u8]>::from(b"hello-ipc".as_slice()),
    )
    .unwrap();
    router.tx(pkt).unwrap();

    let ipc_count_net = seen_net
        .lock()
        .unwrap()
        .iter()
        .filter(|pkt| pkt.data_type() == ipc_message)
        .count();
    let ipc_count_ll = seen_ll
        .lock()
        .unwrap()
        .iter()
        .filter(|pkt| pkt.data_type() == ipc_message)
        .count();
    assert_eq!(ipc_count_net, 0);
    assert_eq!(ipc_count_ll, 1);
}

#[test]
fn runtime_registered_ipc_stays_off_network_sides() {
    discovery_tests_ensure_topology_test_schema();
    let ep_name = "RUNTIME_IPC_EP_9901";
    let ty_name = "RUNTIME_IPC_MSG_9901";
    let _ = remove_data_type_by_name(ty_name);
    let _ = remove_endpoint_by_name(ep_name);

    let runtime_ipc_ep =
        register_endpoint_with_description(ep_name, "runtime ipc endpoint", true)
            .expect("register runtime ipc endpoint");
    let runtime_ipc_ty = register_data_type_with_description(
        ty_name,
        "runtime ipc type",
        MessageElement::Dynamic(MessageDataType::Binary, MessageClass::Data),
        &[runtime_ipc_ep],
        ReliableMode::BestEffort,
        1,
    )
    .expect("register runtime ipc type");

    let seen_net: Arc<Mutex<Vec<Packet>>> = Arc::new(Mutex::new(Vec::new()));
    let seen_ll: Arc<Mutex<Vec<Packet>>> = Arc::new(Mutex::new(Vec::new()));
    let seen_net_c = seen_net.clone();
    let seen_ll_c = seen_ll.clone();

    let router = Router::new_with_clock(RouterConfig::default(), discovery_tests_zero_clock());
    router.add_side_packet("NET", move |pkt: &Packet| -> TelemetryResult<()> {
        seen_net_c.lock().unwrap().push(pkt.clone());
        Ok(())
    });
    router.add_side_packet_with_options(
        "IPC",
        move |pkt: &Packet| -> TelemetryResult<()> {
            seen_ll_c.lock().unwrap().push(pkt.clone());
            Ok(())
        },
        RouterSideOptions {
            reliable_enabled: false,
            link_local_enabled: true,
            ..RouterSideOptions::default()
        },
    );

    let pkt = Packet::new(
        runtime_ipc_ty,
        &[runtime_ipc_ep],
        "RUNTIME_IPC_NODE",
        17,
        Arc::<[u8]>::from(b"runtime-ipc".as_slice()),
    )
    .unwrap();
    router.tx(pkt).unwrap();

    let ipc_count_net = seen_net
        .lock()
        .unwrap()
        .iter()
        .filter(|pkt| pkt.data_type() == runtime_ipc_ty)
        .count();
    let ipc_count_ll = seen_ll
        .lock()
        .unwrap()
        .iter()
        .filter(|pkt| pkt.data_type() == runtime_ipc_ty)
        .count();
    assert_eq!(ipc_count_net, 0);
    assert_eq!(ipc_count_ll, 1);

    assert!(remove_data_type_by_name(ty_name).unwrap());
    assert!(remove_endpoint_by_name(ep_name).unwrap());
}

#[test]
fn link_local_routes_ignore_non_link_local_discovery_candidates() {
    let Some(software_bus) = discovery_tests_endpoint_by_name("SOFTWARE_BUS") else {
        return;
    };
    let Some(ipc_message) = discovery_tests_datatype_by_name("IPC_MESSAGE") else {
        return;
    };
    let seen_net: Arc<Mutex<Vec<Packet>>> = Arc::new(Mutex::new(Vec::new()));
    let seen_ll: Arc<Mutex<Vec<Packet>>> = Arc::new(Mutex::new(Vec::new()));
    let seen_net_c = seen_net.clone();
    let seen_ll_c = seen_ll.clone();

    let router = Router::new_with_clock(RouterConfig::default(), discovery_tests_zero_clock());
    let side_net =
        router.add_side_packet("NET", move |pkt: &Packet| -> TelemetryResult<()> {
            seen_net_c.lock().unwrap().push(pkt.clone());
            Ok(())
        });
    let side_ll = router.add_side_packet_with_options(
        "LL",
        move |pkt: &Packet| -> TelemetryResult<()> {
            seen_ll_c.lock().unwrap().push(pkt.clone());
            Ok(())
        },
        RouterSideOptions {
            reliable_enabled: false,
            link_local_enabled: true,
            ..RouterSideOptions::default()
        },
    );

    let pkt_net = build_discovery_announce("NET_NODE", 0, &[software_bus]).unwrap();
    router.rx_from_side(&pkt_net, side_net).unwrap();
    let pkt_ll = build_discovery_announce("LL_NODE", 0, &[software_bus]).unwrap();
    router.rx_from_side(&pkt_ll, side_ll).unwrap();
    seen_net.lock().unwrap().clear();
    seen_ll.lock().unwrap().clear();

    let pkt = Packet::new(
        ipc_message,
        &[software_bus],
        "IPC_NODE",
        8,
        Arc::<[u8]>::from(b"stay-local".as_slice()),
    )
    .unwrap();
    router.tx(pkt).unwrap();

    let ipc_count_net = seen_net
        .lock()
        .unwrap()
        .iter()
        .filter(|pkt| pkt.data_type() == ipc_message)
        .count();
    let ipc_count_ll = seen_ll
        .lock()
        .unwrap()
        .iter()
        .filter(|pkt| pkt.data_type() == ipc_message)
        .count();
    assert_eq!(ipc_count_net, 0);
    assert_eq!(ipc_count_ll, 1);
}

#[test]
fn relay_link_local_routes_ignore_non_link_local_discovery_candidates() {
    let Some(software_bus) = discovery_tests_endpoint_by_name("SOFTWARE_BUS") else {
        return;
    };
    let Some(ipc_message) = discovery_tests_datatype_by_name("IPC_MESSAGE") else {
        return;
    };
    let seen_net: Arc<Mutex<Vec<Packet>>> = Arc::new(Mutex::new(Vec::new()));
    let seen_ll: Arc<Mutex<Vec<Packet>>> = Arc::new(Mutex::new(Vec::new()));
    let seen_net_c = seen_net.clone();
    let seen_ll_c = seen_ll.clone();

    let relay = Relay::new(discovery_tests_zero_clock());
    let side_net =
        relay.add_side_packet("NET", move |pkt: &Packet| -> TelemetryResult<()> {
            seen_net_c.lock().unwrap().push(pkt.clone());
            Ok(())
        });
    let side_ll = relay.add_side_packet_with_options(
        "LL",
        move |pkt: &Packet| -> TelemetryResult<()> {
            seen_ll_c.lock().unwrap().push(pkt.clone());
            Ok(())
        },
        RelaySideOptions {
            reliable_enabled: false,
            link_local_enabled: true,
            ..RelaySideOptions::default()
        },
    );
    let side_src =
        relay.add_side_packet("SRC", |_pkt: &Packet| -> TelemetryResult<()> { Ok(()) });

    let pkt_net = build_discovery_announce("NET_NODE", 0, &[software_bus]).unwrap();
    relay.rx_from_side(side_net, pkt_net).unwrap();
    let pkt_ll = build_discovery_announce("LL_NODE", 0, &[software_bus]).unwrap();
    relay.rx_from_side(side_ll, pkt_ll).unwrap();
    relay.process_all_queues().unwrap();
    seen_net.lock().unwrap().clear();
    seen_ll.lock().unwrap().clear();

    let pkt = Packet::new(
        ipc_message,
        &[software_bus],
        "IPC_NODE",
        9,
        Arc::<[u8]>::from(b"relay-local".as_slice()),
    )
    .unwrap();
    relay.rx_from_side(side_src, pkt).unwrap();
    relay.process_all_queues().unwrap();

    let ipc_count_net = seen_net
        .lock()
        .unwrap()
        .iter()
        .filter(|pkt| pkt.data_type() == ipc_message)
        .count();
    let ipc_count_ll = seen_ll
        .lock()
        .unwrap()
        .iter()
        .filter(|pkt| pkt.data_type() == ipc_message)
        .count();
    assert_eq!(ipc_count_net, 0);
    assert_eq!(ipc_count_ll, 1);
}

#[test]
fn discovery_hides_link_local_endpoints_from_network_sides() {
    let Some(software_bus) = discovery_tests_endpoint_by_name("SOFTWARE_BUS") else {
        return;
    };
    let seen_net: Arc<Mutex<Vec<Packet>>> = Arc::new(Mutex::new(Vec::new()));
    let seen_ll: Arc<Mutex<Vec<Packet>>> = Arc::new(Mutex::new(Vec::new()));
    let seen_net_c = seen_net.clone();
    let seen_ll_c = seen_ll.clone();

    let router = Router::new_with_clock(
        RouterConfig::new(vec![
            EndpointHandler::new_packet_handler(software_bus, |_pkt| Ok(())),
            EndpointHandler::new_packet_handler(
                DataEndpoint::named("RADIO"),
                |_pkt| Ok(()),
            ),
        ]),
        discovery_tests_zero_clock(),
    );
    router.add_side_packet("NET", move |pkt: &Packet| -> TelemetryResult<()> {
        seen_net_c.lock().unwrap().push(pkt.clone());
        Ok(())
    });
    router.add_side_packet_with_options(
        "LL",
        move |pkt: &Packet| -> TelemetryResult<()> {
            seen_ll_c.lock().unwrap().push(pkt.clone());
            Ok(())
        },
        RouterSideOptions {
            reliable_enabled: false,
            link_local_enabled: true,
            ..RouterSideOptions::default()
        },
    );

    router.announce_discovery().unwrap();
    router.process_tx_queue().unwrap();

    let net = seen_net.lock().unwrap().clone();
    let ll = seen_ll.lock().unwrap().clone();
    let net_announce = net
        .iter()
        .find(|pkt| pkt.data_type() == DataType::DiscoveryAddress)
        .unwrap();
    let ll_announce = ll
        .iter()
        .find(|pkt| pkt.data_type() == DataType::DiscoveryAddress)
        .unwrap();
    let net_eps = decode_discovery_address(net_announce)
        .unwrap()
        .reachable_endpoints;
    let ll_eps = decode_discovery_address(ll_announce)
        .unwrap()
        .reachable_endpoints;
    assert!(!net_eps.contains(&software_bus));
    assert!(net_eps.contains(&DataEndpoint::named("RADIO")));
    assert!(ll_eps.contains(&software_bus));
}

#[test]
fn discovery_keeps_timesync_endpoint_out_of_user_reachability_when_enabled() {
    let seen: Arc<Mutex<Vec<Packet>>> = Arc::new(Mutex::new(Vec::new()));
    let seen_c = seen.clone();

    let router = Router::new_with_clock(
        RouterConfig::default().with_timesync(TimeSyncConfig::default()),
        discovery_tests_zero_clock(),
    );
    router.add_side_packet("NET", move |pkt: &Packet| -> TelemetryResult<()> {
        seen_c.lock().unwrap().push(pkt.clone());
        Ok(())
    });

    router.announce_discovery().unwrap();
    router.process_tx_queue().unwrap();

    let topo = router.export_topology();
    assert!(!topo.advertised_endpoints.contains(&DataEndpoint::TimeSync));
}

#[test]
fn timesync_packets_use_discovery_candidates_instead_of_flooding() {
    let seen_a: Arc<Mutex<Vec<Packet>>> = Arc::new(Mutex::new(Vec::new()));
    let seen_b: Arc<Mutex<Vec<Packet>>> = Arc::new(Mutex::new(Vec::new()));
    let seen_a_c = seen_a.clone();
    let seen_b_c = seen_b.clone();

    let router = Router::new_with_clock(
        RouterConfig::default().with_timesync(TimeSyncConfig::default()),
        discovery_tests_zero_clock(),
    );
    let side_a = router.add_side_packet("A", move |pkt: &Packet| -> TelemetryResult<()> {
        seen_a_c.lock().unwrap().push(pkt.clone());
        Ok(())
    });
    router.add_side_packet("B", move |pkt: &Packet| -> TelemetryResult<()> {
        seen_b_c.lock().unwrap().push(pkt.clone());
        Ok(())
    });

    let discovery_pkt =
        build_discovery_timesync_sources("REMOTE_A", 0, &["REMOTE_A"])
            .unwrap();
    router.rx_from_side(&discovery_pkt, side_a).unwrap();
    let announce =
        build_timesync_announce_with_sender("REMOTE_A", 1, 1_000).unwrap();
    router.rx_from_side(&announce, side_a).unwrap();
    seen_a.lock().unwrap().clear();
    seen_b.lock().unwrap().clear();

    let request = build_timesync_request(1, 123).unwrap();
    router.tx(request).unwrap();

    assert_eq!(seen_a.lock().unwrap().len(), 1);
    assert!(seen_b.lock().unwrap().is_empty());
    assert_eq!(
        seen_a.lock().unwrap()[0].data_type(),
        DataType::TimeSyncRequest
    );
}

#[test]
fn discovery_advertises_local_timesync_source_ids() {
    let seen: Arc<Mutex<Vec<Packet>>> = Arc::new(Mutex::new(Vec::new()));
    let seen_c = seen.clone();

    let router = Router::new_with_clock(
        RouterConfig::default().with_timesync(TimeSyncConfig {
            role: TimeSyncRole::Source,
            ..Default::default()
        }),
        discovery_tests_zero_clock(),
    );
    router.add_side_packet("NET", move |pkt: &Packet| -> TelemetryResult<()> {
        seen_c.lock().unwrap().push(pkt.clone());
        Ok(())
    });

    router.announce_discovery().unwrap();
    router.process_tx_queue().unwrap();

    let pkts = seen.lock().unwrap().clone();
    let src_pkt = pkts
        .iter()
        .find(|pkt| pkt.data_type() == DataType::DiscoveryAddress)
        .unwrap();
    let sources = decode_discovery_address(src_pkt)
        .unwrap()
        .reachable_timesync_sources;
    assert!(sources.contains(&device_identifier().to_string()));
}

#[test]
fn timesync_requests_prefer_exact_discovered_source_route() {
    let seen_a: Arc<Mutex<Vec<Packet>>> = Arc::new(Mutex::new(Vec::new()));
    let seen_b: Arc<Mutex<Vec<Packet>>> = Arc::new(Mutex::new(Vec::new()));
    let seen_a_c = seen_a.clone();
    let seen_b_c = seen_b.clone();

    let router = Router::new_with_clock(
        RouterConfig::default().with_timesync(TimeSyncConfig::default()),
        discovery_tests_zero_clock(),
    );
    let side_a = router.add_side_packet("A", move |pkt: &Packet| -> TelemetryResult<()> {
        seen_a_c.lock().unwrap().push(pkt.clone());
        Ok(())
    });
    let side_b = router.add_side_packet("B", move |pkt: &Packet| -> TelemetryResult<()> {
        seen_b_c.lock().unwrap().push(pkt.clone());
        Ok(())
    });

    let generic_timesync =
        build_discovery_announce("SIDE_A", 0, &[DataEndpoint::TimeSync]).unwrap();
    router.rx_from_side(&generic_timesync, side_a).unwrap();
    let exact_source =
        build_discovery_timesync_sources("SIDE_B", 0, &["SRC_BEST"]).unwrap();
    router.rx_from_side(&exact_source, side_b).unwrap();
    seen_a.lock().unwrap().clear();
    seen_b.lock().unwrap().clear();

    let source_announce =
        build_timesync_announce_with_sender("SRC_BEST", 1, 1000).unwrap();
    router.rx(&source_announce).unwrap();
    seen_a.lock().unwrap().clear();
    seen_b.lock().unwrap().clear();

    let request = build_timesync_request(1, 123).unwrap();
    router.tx(request).unwrap();

    assert!(seen_a.lock().unwrap().is_empty());
    assert_eq!(seen_b.lock().unwrap().len(), 1);
    assert_eq!(
        seen_b.lock().unwrap()[0].data_type(),
        DataType::TimeSyncRequest
    );
}

#[test]
fn timesync_responses_return_only_to_requesting_side() {
    let seen_a: Arc<Mutex<Vec<Packet>>> = Arc::new(Mutex::new(Vec::new()));
    let seen_b: Arc<Mutex<Vec<Packet>>> = Arc::new(Mutex::new(Vec::new()));
    let seen_a_c = seen_a.clone();
    let seen_b_c = seen_b.clone();

    let router = Router::new_with_clock(
        RouterConfig::default().with_timesync(TimeSyncConfig {
            role: TimeSyncRole::Source,
            ..Default::default()
        }),
        discovery_tests_zero_clock(),
    );
    let side_a = router.add_side_packet("A", move |pkt: &Packet| -> TelemetryResult<()> {
        seen_a_c.lock().unwrap().push(pkt.clone());
        Ok(())
    });
    router.add_side_packet("B", move |pkt: &Packet| -> TelemetryResult<()> {
        seen_b_c.lock().unwrap().push(pkt.clone());
        Ok(())
    });

    let request = build_timesync_request(7, 111).unwrap();
    router.rx_from_side(&request, side_a).unwrap();
    router.process_tx_queue().unwrap();

    let got_a = seen_a.lock().unwrap().clone();
    let got_b = seen_b.lock().unwrap().clone();
    assert_eq!(
        got_a
            .iter()
            .filter(|pkt| pkt.data_type() == DataType::TimeSyncResponse)
            .count(),
        1
    );
    assert_eq!(
        got_b
            .iter()
            .filter(|pkt| pkt.data_type() == DataType::TimeSyncResponse)
            .count(),
        0
    );
}

#[test]
fn managed_variable_request_replays_latest_value_to_endpoint_handler() {
    ensure_common_test_schema();
    let ty = DataType::named("GPS_DATA");
    let ep = DataEndpoint::named("RADIO");

    let seen_client: Arc<Mutex<Vec<Packet>>> = Arc::new(Mutex::new(Vec::new()));
    let seen_client_c = seen_client.clone();

    let source = Arc::new(Router::new_with_clock(
        RouterConfig::new(vec![EndpointHandler::new_packet_handler(ep, |_pkt| Ok(()))])
            .with_sender("SOURCE"),
        discovery_tests_zero_clock(),
    ));
    source.enable_managed_variable(ty).unwrap();
    source.log(ty, &[1.0_f32, 2.0, 3.0]).unwrap();

    let client = Arc::new(Router::new_with_clock(
        RouterConfig::new(vec![EndpointHandler::new_packet_handler(
            ep,
            move |pkt: &Packet| {
                seen_client_c.lock().unwrap().push(pkt.clone());
                Ok(())
            },
        )])
        .with_sender("CLIENT_RESTARTED"),
        discovery_tests_zero_clock(),
    ));

    client.enable_managed_variable(ty).unwrap();

    let client_for_source = client.clone();
    source.add_side_packet("to-client", move |pkt: &Packet| {
        client_for_source.rx_from_side(pkt, 0)
    });
    let source_for_client = source.clone();
    client.add_side_packet("to-source", move |pkt: &Packet| {
        source_for_client.rx_from_side(pkt, 0)
    });

    client.request_managed_variable(ty).unwrap();
    source.process_all_queues().unwrap();
    client.process_all_queues().unwrap();

    let seen = seen_client.lock().unwrap().clone();
    assert_eq!(seen.len(), 1);
    assert_eq!(seen[0].data_type(), ty);
    assert_eq!(seen[0].data_as_f32().unwrap(), vec![1.0, 2.0, 3.0]);
}

#[test]
fn network_variable_getter_requests_missing_value_and_uses_cache() {
    ensure_common_test_schema();
    let ty = DataType::named("GPS_DATA");
    let ep = DataEndpoint::named("RADIO");

    let source = Arc::new(Router::new_with_clock(
        RouterConfig::new(vec![EndpointHandler::new_packet_handler(ep, |_pkt| Ok(()))])
            .with_sender("NV_SOURCE"),
        discovery_tests_zero_clock(),
    ));
    let value = Packet::from_f32_slice(ty, &[9.0_f32, 8.0, 7.0], &[ep], 1).unwrap();
    source.seed_managed_variable(value).unwrap();

    let client = Arc::new(Router::new_with_clock(
        RouterConfig::new(vec![EndpointHandler::new_packet_handler(ep, |_pkt| Ok(()))])
            .with_sender("NV_CLIENT"),
        discovery_tests_zero_clock(),
    ));

    let client_for_source = client.clone();
    source.add_side_packet("to-client", move |pkt: &Packet| {
        client_for_source.rx_from_side(pkt, 0)
    });
    let source_for_client = source.clone();
    client.add_side_packet("to-source", move |pkt: &Packet| {
        source_for_client.rx_from_side(pkt, 0)
    });

    assert!(client.get_network_variable(ty, None).unwrap().is_none());
    source.process_all_queues().unwrap();
    client.process_all_queues().unwrap();

    let cached = client.get_network_variable(ty, None).unwrap().unwrap();
    assert_eq!(cached.data_as_f32().unwrap(), vec![9.0, 8.0, 7.0]);
}

#[test]
fn network_variable_update_callback_runs_on_inbound_cache_change() {
    ensure_common_test_schema();
    let ty = DataType::named("GPS_DATA");
    let ep = DataEndpoint::named("RADIO");

    let source = Arc::new(Router::new_with_clock(
        RouterConfig::new(vec![EndpointHandler::new_packet_handler(ep, |_pkt| Ok(()))])
            .with_sender("NV_SOURCE_CB"),
        discovery_tests_zero_clock(),
    ));
    let value = Packet::from_f32_slice(ty, &[4.0_f32, 5.0, 6.0], &[ep], 1).unwrap();
    source.seed_managed_variable(value).unwrap();

    let client = Arc::new(Router::new_with_clock(
        RouterConfig::new(vec![EndpointHandler::new_packet_handler(ep, |_pkt| Ok(()))])
            .with_sender("NV_CLIENT_CB"),
        discovery_tests_zero_clock(),
    ));
    let callback_values = Arc::new(Mutex::new(Vec::<Vec<f32>>::new()));
    let callback_values_c = callback_values.clone();
    client
        .on_network_variable_update(ty, move |pkt| {
            callback_values_c.lock().unwrap().push(pkt.data_as_f32()?);
            Ok(())
        })
        .unwrap();

    let client_for_source = client.clone();
    source.add_side_packet("to-client", move |pkt: &Packet| {
        client_for_source.rx_from_side(pkt, 0)
    });
    let source_for_client = source.clone();
    client.add_side_packet("to-source", move |pkt: &Packet| {
        source_for_client.rx_from_side(pkt, 0)
    });

    assert!(client.get_network_variable(ty, None).unwrap().is_none());
    source.process_all_queues().unwrap();
    client.process_all_queues().unwrap();

    assert_eq!(
        *callback_values.lock().unwrap(),
        vec![vec![4.0_f32, 5.0, 6.0]]
    );
    client.process_all_queues().unwrap();
    assert_eq!(callback_values.lock().unwrap().len(), 1);
}

#[test]
fn network_variable_setter_caches_and_respects_permissions() {
    ensure_common_test_schema();
    let ty = DataType::named("GPS_DATA");
    let ep = DataEndpoint::named("RADIO");
    let router = Router::new_with_clock(
        RouterConfig::new(vec![EndpointHandler::new_packet_handler(ep, |_pkt| Ok(()))]),
        discovery_tests_zero_clock(),
    );
    let pkt = Packet::from_f32_slice(ty, &[1.0_f32, 2.0, 3.0], &[ep], 1).unwrap();

    router.set_network_variable(pkt.clone()).unwrap();
    assert_eq!(
        router
            .get_cached_network_variable(ty)
            .unwrap()
            .unwrap()
            .data_as_f32()
            .unwrap(),
        vec![1.0, 2.0, 3.0]
    );

    router
        .enable_network_variable(ty, NetworkVariablePermissions::READ_ONLY)
        .unwrap();
    assert_eq!(
        router.set_network_variable(pkt),
        Err(TelemetryError::PermissionDenied)
    );
    router
        .enable_network_variable(ty, NetworkVariablePermissions::WRITE_ONLY)
        .unwrap();
    assert_eq!(
        router.get_cached_network_variable(ty),
        Err(TelemetryError::PermissionDenied)
    );
}

#[test]
fn required_e2e_type_rejects_tx_without_crypto_support() {
    
    ensure_common_test_schema();
    let ep = DataEndpoint::named("RADIO");
    let ty = DataType(3_901);
    let _ = remove_data_type(ty);
    register_data_type_id_with_description_and_e2e_encryption(
        ty,
        "E2E_REQUIRED_TEST",
        "",
        MessageElement::Static(1, MessageDataType::UInt8, MessageClass::Data),
        &[ep],
        ReliableMode::BestEffort,
        10,
        E2eEncryptionPolicy::RequireOn,
    )
    .unwrap();

    let router = Router::new_with_clock(RouterConfig::default(), discovery_tests_zero_clock());
    assert_eq!(router.log(ty, &[7_u8]), Err(TelemetryError::BadArg));

    let _ = remove_data_type(ty);
}

#[test]
fn forced_e2e_router_rejects_plain_user_data_without_crypto_support() {
    
    ensure_common_test_schema();
    let ty = DataType::named("GPS_DATA");
    let router = Router::new_with_clock(
        RouterConfig::default().with_e2e_encryption(RouterE2eEncryptionMode::ForceAll),
        discovery_tests_zero_clock(),
    );
    assert_eq!(
        router.log(ty, &[1.0_f32, 2.0, 3.0]),
        Err(TelemetryError::BadArg)
    );
}

#[test]
fn immediate_cross_wired_router_reentry_falls_back_to_queue() {
    let Some(ipc_message) = discovery_tests_datatype_by_name("IPC_MESSAGE") else {
        return;
    };

    let remaining = Arc::new(AtomicUsize::new(6));
    let sequence = Arc::new(AtomicUsize::new(1));
    let a_slot = Arc::new(Mutex::new(None::<Arc<Router>>));
    let b_slot = Arc::new(Mutex::new(None::<Arc<Router>>));

    let a_remaining = remaining.clone();
    let a_sequence = sequence.clone();
    let a_router = a_slot.clone();
    let router_a = Arc::new(Router::new_with_clock(
        RouterConfig::new(vec![EndpointHandler::new_packet_handler(
            DataEndpoint::named("RADIO"),
            move |_pkt: &Packet| {
                if a_remaining
                    .fetch_update(Ordering::SeqCst, Ordering::SeqCst, |n| n.checked_sub(1))
                    .is_err()
                {
                    return Ok(());
                }
                let seq = a_sequence.fetch_add(1, Ordering::SeqCst) as u64;
                let pkt = Packet::new(
                    ipc_message,
                    &[DataEndpoint::named("SD_CARD")],
                    "A_NODE",
                    seq,
                    Arc::<[u8]>::from(b"bounce-a".as_slice()),
                )?;
                a_router
                    .lock()
                    .unwrap()
                    .as_ref()
                    .expect("router A initialized")
                    .tx(pkt)
            },
        )])
        .with_sender("A_NODE"),
        StepClock::new_default_box(),
    ));

    let b_remaining = remaining.clone();
    let b_sequence = sequence.clone();
    let b_router = b_slot.clone();
    let router_b = Arc::new(Router::new_with_clock(
        RouterConfig::new(vec![EndpointHandler::new_packet_handler(
            DataEndpoint::named("SD_CARD"),
            move |_pkt: &Packet| {
                if b_remaining
                    .fetch_update(Ordering::SeqCst, Ordering::SeqCst, |n| n.checked_sub(1))
                    .is_err()
                {
                    return Ok(());
                }
                let seq = b_sequence.fetch_add(1, Ordering::SeqCst) as u64;
                let pkt = Packet::new(
                    ipc_message,
                    &[DataEndpoint::named("RADIO")],
                    "B_NODE",
                    seq,
                    Arc::<[u8]>::from(b"bounce-b".as_slice()),
                )?;
                b_router
                    .lock()
                    .unwrap()
                    .as_ref()
                    .expect("router B initialized")
                    .tx(pkt)
            },
        )])
        .with_sender("B_NODE"),
        StepClock::new_default_box(),
    ));

    *a_slot.lock().unwrap() = Some(router_a.clone());
    *b_slot.lock().unwrap() = Some(router_b.clone());

    let a_in_tx = Arc::new(AtomicBool::new(false));
    let a_reentered = Arc::new(AtomicBool::new(false));
    let b_in_tx = Arc::new(AtomicBool::new(false));
    let b_reentered = Arc::new(AtomicBool::new(false));

    let router_b_for_side = router_b.clone();
    let a_in_tx_flag = a_in_tx.clone();
    let a_reentered_flag = a_reentered.clone();
    let side_a = router_a.add_side_packet("A_TO_B", move |pkt: &Packet| {
        if a_in_tx_flag.swap(true, Ordering::SeqCst) {
            a_reentered_flag.store(true, Ordering::SeqCst);
        }
        let result = router_b_for_side.rx_from_side(pkt, 0);
        a_in_tx_flag.store(false, Ordering::SeqCst);
        result
    });

    let router_a_for_side = router_a.clone();
    let b_in_tx_flag = b_in_tx.clone();
    let b_reentered_flag = b_reentered.clone();
    let side_b = router_b.add_side_packet("B_TO_A", move |pkt: &Packet| {
        if b_in_tx_flag.swap(true, Ordering::SeqCst) {
            b_reentered_flag.store(true, Ordering::SeqCst);
        }
        let result = router_a_for_side.rx_from_side(pkt, 0);
        b_in_tx_flag.store(false, Ordering::SeqCst);
        result
    });

    assert_eq!(side_a, 0);
    assert_eq!(side_b, 0);

    let first = Packet::new(
        ipc_message,
        &[DataEndpoint::named("SD_CARD")],
        "START",
        0,
        Arc::<[u8]>::from(b"start".as_slice()),
    )
    .unwrap();
    router_a.tx(first).unwrap();

    for _ in 0..8 {
        router_a.process_all_queues().unwrap();
        router_b.process_all_queues().unwrap();
    }

    assert!(!a_reentered.load(Ordering::SeqCst));
    assert!(!b_reentered.load(Ordering::SeqCst));
    assert!(remaining.load(Ordering::SeqCst) < 6);
}

#[test]
fn discovery_schema_packet_roundtrips_and_merges_new_entries() {
    static ENDPOINTS_230: [DataEndpoint; 1] = [DataEndpoint(230)];
    let endpoint = EndpointDefinition {
        id: DataEndpoint(230),
        name: "SCHEMA_SYNC_EP_230",
        description: "",
        link_local_only: false,
    };
    let ty = DataTypeDefinition {
        id: DataType(3001),
        name: "SCHEMA_SYNC_TYPE_3001",
        description: "",
        element: MessageElement::Static(2, MessageDataType::UInt16, MessageClass::Data),
        endpoints: &ENDPOINTS_230,
        reliable: ReliableMode::BestEffort,
        priority: 17,
        e2e_encryption: E2eEncryptionPolicy::PreferOn,
    };
    let snapshot = RuntimeSchemaSnapshot {
        endpoints: vec![endpoint],
        types: vec![ty],
    };
    let pkt = build_discovery_schema_from_snapshot("REMOTE", 10, snapshot).unwrap();
    let decoded = decode_discovery_schema(&pkt).unwrap();
    assert_eq!(
        decoded.types[0].e2e_encryption,
        E2eEncryptionPolicy::PreferOn
    );
    let report = merge_owned_schema_snapshot(decoded);
    assert!(report.changed() || DataType::try_from_u32(3001).is_some());
    assert_eq!(message_meta(DataType(3001)).element, ty.element);
}

#[test]
fn decoded_schema_is_owned_until_it_fits_the_registry_budget() {
    let endpoint = OwnedEndpointDefinition {
        id: DataEndpoint(250),
        name: "SCHEMA_SYNC_BUDGET_EP_250".to_string(),
        description: String::new(),
        link_local_only: false,
    };
    let ty = OwnedDataTypeDefinition {
        id: DataType(4090),
        name: "X".repeat(MAX_QUEUE_BUDGET),
        description: String::new(),
        element: MessageElement::Static(1, MessageDataType::UInt8, MessageClass::Data),
        endpoints: vec![endpoint.id],
        reliable: ReliableMode::BestEffort,
        priority: 1,
        e2e_encryption: E2eEncryptionPolicy::PreferOff,
    };
    let snapshot = OwnedRuntimeSchemaSnapshot {
        endpoints: vec![endpoint],
        types: vec![ty],
    };
    assert!(owned_schema_byte_cost(&snapshot) > MAX_QUEUE_BUDGET);

    let err =
        merge_owned_schema_snapshot_with_budget(snapshot, MAX_QUEUE_BUDGET).unwrap_err();
    assert!(matches!(err, TelemetryError::PacketTooLarge(_)));
    assert!(schema_bytes_used() <= MAX_QUEUE_BUDGET);
    assert!(DataType::try_from_u32(4090).is_none());
}

#[test]
fn schema_registry_counts_against_router_shared_queue_budget() {

    let router = Router::new(RouterConfig::default());
    let schema_bytes = schema_bytes_used();
    assert!(schema_bytes > 0);
    assert!(router.debug_shared_queue_bytes_used() >= schema_bytes);
    assert!(router.debug_shared_queue_bytes_used() <= MAX_QUEUE_BUDGET);
}

#[test]
fn endpoint_handler_registration_creates_missing_endpoint() {
    let endpoint = DataEndpoint(249);
    assert!(!endpoint_exists(endpoint));
    let _handler = EndpointHandler::new_packet_handler(endpoint, |_pkt: &Packet| Ok(()));
    assert!(endpoint_exists(endpoint));
    assert_eq!(endpoint.as_str(), "ENDPOINT_249");
}

#[test]
fn runtime_schema_auto_ids_are_searchable_exported_and_removable() {
    let ep_name = "SCHEMA_AUTO_EP_UNIQUE_9000";
    let ty_name = "SCHEMA_AUTO_TYPE_UNIQUE_9000";
    let _ = remove_data_type_by_name(ty_name);
    let _ = remove_endpoint_by_name(ep_name);

    assert!(DataEndpoint::try_named("SCHEMA_AUTO_EP_MISSING_9000").is_none());
    assert!(DataType::try_named("SCHEMA_AUTO_TYPE_MISSING_9000").is_none());

    let endpoint =
        register_endpoint_with_description(ep_name, "auto id endpoint", false).unwrap();
    let ty = register_data_type_with_description(
        ty_name,
        "auto id data type",
        MessageElement::Dynamic(MessageDataType::Binary, MessageClass::Warning),
        &[endpoint],
        ReliableMode::Unordered,
        42,
    )
    .unwrap();

    assert_eq!(DataEndpoint::try_named(ep_name), Some(endpoint));
    assert_eq!(DataType::try_named(ty_name), Some(ty));

    let endpoint_ref = endpoint_definition_by_name(ep_name).unwrap();
    assert_eq!(endpoint_ref.id, endpoint);
    assert_eq!(endpoint_ref.description, "auto id endpoint");

    let ty_ref = data_type_definition_by_name(ty_name).unwrap();
    assert_eq!(ty_ref.id, ty);
    assert_eq!(ty_ref.description, "auto id data type");
    assert_eq!(ty_ref.endpoints, &[endpoint]);
    assert_eq!(message_meta(ty).reliable, ReliableMode::Unordered);
    assert_eq!(message_meta(ty).priority, 42);

    let snapshot = export_schema();
    assert!(
        snapshot
            .endpoints
            .iter()
            .any(|def| def.id == endpoint && def.name == ep_name)
    );
    assert!(
        snapshot
            .types
            .iter()
            .any(|def| def.id == ty && def.name == ty_name)
    );

    assert!(remove_data_type_by_name(ty_name).unwrap());
    assert!(remove_endpoint_by_name(ep_name).unwrap());
    assert!(DataEndpoint::try_named(ep_name).is_none());
    assert!(DataType::try_named(ty_name).is_none());
}

#[test]
fn endpoint_registration_conflicts_and_endpoint_removal_are_validated() {
    let endpoint = DataEndpoint(9003);
    let ty = DataType(9003);
    let ep_name = "SCHEMA_CONFLICT_EP_9003";
    let ty_name = "SCHEMA_CONFLICT_TYPE_9003";
    let _ = remove_data_type_by_name(ty_name);
    let _ = remove_endpoint(endpoint);
    let _ = remove_endpoint_by_name(ep_name);

    register_endpoint_id_with_description(endpoint, ep_name, "first endpoint", false)
        .unwrap();
    assert_eq!(
        register_endpoint_id_with_description(
            endpoint,
            "SCHEMA_CONFLICT_EP_OTHER_9003",
            "first endpoint",
            false,
        )
        .unwrap_err(),
        TelemetryError::BadArg
    );
    assert_eq!(
        register_endpoint_id_with_description(
            DataEndpoint(9004),
            ep_name,
            "first endpoint",
            false,
        )
        .unwrap_err(),
        TelemetryError::BadArg
    );

    register_data_type_id_with_description(
        ty,
        ty_name,
        "dependent type",
        MessageElement::Static(1, MessageDataType::UInt16, MessageClass::Data),
        &[endpoint],
        ReliableMode::BestEffort,
        1,
    )
    .unwrap();
    assert!(data_type_exists(ty));

    assert!(remove_endpoint(endpoint).unwrap());
    assert!(!endpoint_exists(endpoint));
    assert!(!data_type_exists(ty));
}

#[test]
fn schema_entries_can_be_named_described_used_by_handlers_and_removed() {
    let endpoint = DataEndpoint(247);
    let ty = DataType(4088);
    let ep_name = "SCHEMA_LOOKUP_EP_247";
    let ty_name = "SCHEMA_LOOKUP_TYPE_4088";
    let _ = remove_data_type_by_name(ty_name);
    let _ = remove_endpoint_by_name(ep_name);

    register_endpoint_id_with_description(endpoint, ep_name, "lookup test endpoint", false)
        .unwrap();
    register_data_type_id_with_description(
        ty,
        ty_name,
        "lookup test type",
        MessageElement::Static(1, MessageDataType::UInt32, MessageClass::Data),
        &[endpoint],
        ReliableMode::BestEffort,
        9,
    )
    .unwrap();

    let endpoint_ref = endpoint_definition_by_name(ep_name).unwrap();
    assert_eq!(endpoint_ref.id, endpoint);
    assert_eq!(endpoint_ref.description, "lookup test endpoint");
    let _handler =
        EndpointHandler::new_packet_handler_for(endpoint_ref, |_pkt: &Packet| Ok(()));

    let ty_ref = data_type_definition_by_name(ty_name).unwrap();
    assert_eq!(ty_ref.id, ty);
    assert_eq!(ty_ref.description, "lookup test type");
    assert_eq!(message_meta(ty).priority, 9);

    assert!(remove_data_type_by_name(ty_name).unwrap());
    assert!(!data_type_exists(ty));
    assert!(remove_endpoint_by_name(ep_name).unwrap());
    assert!(!endpoint_exists(endpoint));
}

#[test]
fn data_type_registration_rejects_different_shape_for_existing_id() {
    let endpoint = DataEndpoint(248);
    let _handler = EndpointHandler::new_packet_handler(endpoint, |_pkt: &Packet| Ok(()));
    let ty = DataType(4089);
    let first = register_data_type_id(
        ty,
        "SCHEMA_SYNC_EXPLICIT_TYPE_4089",
        MessageElement::Static(1, MessageDataType::UInt16, MessageClass::Data),
        &[endpoint],
        ReliableMode::BestEffort,
        3,
    );
    assert!(first.is_ok() || data_type_exists(ty));
    let err = register_data_type_id(
        ty,
        "SCHEMA_SYNC_EXPLICIT_TYPE_4089",
        MessageElement::Static(2, MessageDataType::UInt16, MessageClass::Data),
        &[endpoint],
        ReliableMode::BestEffort,
        3,
    )
    .unwrap_err();
    assert_eq!(err, TelemetryError::BadArg);
}

#[test]
fn conflicting_schema_type_layout_resolves_deterministically() {
    static ENDPOINTS_231: [DataEndpoint; 1] = [DataEndpoint(231)];
    let endpoint = EndpointDefinition {
        id: DataEndpoint(231),
        name: "SCHEMA_SYNC_EP_231",
        description: "",
        link_local_only: false,
    };
    let a = DataTypeDefinition {
        id: DataType(3002),
        name: "SCHEMA_SYNC_TYPE_3002",
        description: "",
        element: MessageElement::Static(1, MessageDataType::UInt16, MessageClass::Data),
        endpoints: &ENDPOINTS_231,
        reliable: ReliableMode::BestEffort,
        priority: 1,
        e2e_encryption: E2eEncryptionPolicy::PreferOff,
    };
    let b = DataTypeDefinition {
        id: DataType(3002),
        name: "SCHEMA_SYNC_TYPE_3002",
        description: "",
        element: MessageElement::Static(2, MessageDataType::UInt16, MessageClass::Data),
        endpoints: &ENDPOINTS_231,
        reliable: ReliableMode::BestEffort,
        priority: 1,
        e2e_encryption: E2eEncryptionPolicy::PreferOff,
    };

    let _ = merge_schema_snapshot(RuntimeSchemaSnapshot {
        endpoints: vec![endpoint],
        types: vec![a],
    });
    let _ = merge_schema_snapshot(RuntimeSchemaSnapshot {
        endpoints: vec![endpoint],
        types: vec![b],
    });
    let first = message_meta(DataType(3002)).element;
    let _ = merge_schema_snapshot(RuntimeSchemaSnapshot {
        endpoints: vec![endpoint],
        types: vec![a],
    });
    let second = message_meta(DataType(3002)).element;
    assert_eq!(first, second);
    assert!(export_schema().types.iter().any(|def| {
        def.id == DataType(3002) && (def.element == a.element || def.element == b.element)
    }));
}

#[test]
fn inline_wire_shape_keeps_old_payload_decodable_after_layout_change() {
    ensure_common_test_schema();
    let endpoint = DataEndpoint::named("RADIO");
    let ty = (13..=MAX_VALUE_DATA_TYPE)
        .find_map(|id| {
            (!data_type_exists(DataType(id))).then_some(DataType(id))
        })
        .expect("free runtime data type id");
    let ty_name = "SCHEMA_WIRE_TYPE_4090";
    let _ = remove_data_type_by_name(ty_name);
    register_data_type_id_with_description(
        ty,
        ty_name,
        "wire shape type v1",
        MessageElement::Static(1, MessageDataType::UInt16, MessageClass::Data),
        &[endpoint],
        ReliableMode::BestEffort,
        1,
    )
    .unwrap();

    let pkt = Packet::new(
        ty,
        &[endpoint],
        "SRC",
        0,
        Arc::<[u8]>::from(7u16.to_le_bytes().to_vec()),
    )
    .unwrap();
    let wire = pack_packet_with_wire_contract(
        &pkt,
        None,
        Some(message_meta(ty).element),
        &[],
    )
    .unwrap();

    assert!(remove_data_type_by_name(ty_name).unwrap());
    register_data_type_id_with_description(
        ty,
        ty_name,
        "wire shape type v2",
        MessageElement::Static(2, MessageDataType::UInt16, MessageClass::Data),
        &[endpoint],
        ReliableMode::BestEffort,
        1,
    )
    .unwrap();

    let decoded = unpack_packet(&wire).unwrap();
    decoded.validate().unwrap();
    assert_eq!(decoded.data_as_u16().unwrap(), vec![7u16]);
}

#[test]
fn conflicting_schema_endpoint_metadata_resolves_deterministically() {
    let a = EndpointDefinition {
        id: DataEndpoint(9005),
        name: "SCHEMA_SYNC_EP_9005_A",
        description: "a",
        link_local_only: false,
    };
    let b = EndpointDefinition {
        id: DataEndpoint(9005),
        name: "SCHEMA_SYNC_EP_9005_B",
        description: "b",
        link_local_only: true,
    };

    let _ = merge_schema_snapshot(RuntimeSchemaSnapshot {
        endpoints: vec![a],
        types: vec![],
    });
    let _ = merge_schema_snapshot(RuntimeSchemaSnapshot {
        endpoints: vec![b],
        types: vec![],
    });
    let first = endpoint_definition_by_name("SCHEMA_SYNC_EP_9005_A")
        .or_else(|| endpoint_definition_by_name("SCHEMA_SYNC_EP_9005_B"))
        .unwrap();
    let _ = merge_schema_snapshot(RuntimeSchemaSnapshot {
        endpoints: vec![a],
        types: vec![],
    });
    let second = endpoint_definition_by_name("SCHEMA_SYNC_EP_9005_A")
        .or_else(|| endpoint_definition_by_name("SCHEMA_SYNC_EP_9005_B"))
        .unwrap();

    assert_eq!(first.id, second.id);
    assert_eq!(first.name, second.name);
    assert_eq!(first.description, second.description);
    assert_eq!(first.link_local_only, second.link_local_only);
    assert!(first == a || first == b);
}

#[test]
fn timesync_request_roundtrip() {
    let pkt = build_timesync_request(7, 1234).unwrap();
    let decoded = decode_timesync_request(&pkt).unwrap();
    assert_eq!(decoded.seq, 7);
    assert_eq!(decoded.t1_ms, 1234);
}

#[test]
fn timesync_response_roundtrip() {
    let pkt = build_timesync_response(9, 100, 110, 115).unwrap();
    let decoded = decode_timesync_response(&pkt).unwrap();
    assert_eq!(decoded.seq, 9);
    assert_eq!(decoded.t1_ms, 100);
    assert_eq!(decoded.t2_ms, 110);
    assert_eq!(decoded.t3_ms, 115);
}

#[test]
fn timesync_offset_delay_math() {
    let sample = compute_offset_delay(10, 20, 30, 40);
    assert_eq!(sample.offset_ms, 0);
    assert_eq!(sample.delay_ms, 20);
}

#[test]
#[should_panic(expected = "reserved internal endpoint handlers must not be user-registered")]
fn user_cannot_register_discovery_endpoint_handler() {
    let _ = EndpointHandler::new_packet_handler(DataEndpoint::Discovery, |_pkt| Ok(()));
}

#[test]
#[should_panic(expected = "reserved internal endpoint handlers must not be user-registered")]
fn user_cannot_register_timesync_endpoint_handler() {
    let _ = EndpointHandler::new_packet_handler(DataEndpoint::TimeSync, |_pkt| Ok(()));
}

#[test]
fn relay_mode_retransmits_when_remote_endpoint_present() {
    static TX_CALLS: AtomicUsize = AtomicUsize::new(0);

    fn transmit(_bytes: &[u8]) -> TelemetryResult<()> {
        TX_CALLS.fetch_add(1, Ordering::SeqCst);
        Ok(())
    }
    let local_calls = Arc::new(AtomicUsize::new(0));
    let local_calls_c = local_calls.clone();
    let sd_handler =
        EndpointHandler::new_packet_handler(DataEndpoint::named("SD_CARD"), move |_pkt| {
            local_calls_c.fetch_add(1, Ordering::SeqCst);
            Ok(())
        });

    let router = Router::new_with_clock(
        RouterConfig::new(vec![sd_handler]),
        StepClock::new_default_box(),
    );
    router.add_side_packed("tx", transmit);
    let endpoints = &[DataEndpoint::named("SD_CARD"), DataEndpoint::named("RADIO")];
    let pkt =
        Packet::from_f32_slice(DataType::named("GPS_DATA"), &[1.0, 2.0, 3.0], endpoints, 0)
            .unwrap();

    router.rx(&pkt).unwrap();
    assert_eq!(local_calls.load(Ordering::SeqCst), 1);
    assert_eq!(TX_CALLS.load(Ordering::SeqCst), 1);
}

#[test]
fn queued_packed_ingress_retries_side_tx_and_relays_between_router_sides() {
    ensure_common_test_schema();
    #[derive(Default)]
    struct TxState {
        attempts: AtomicUsize,
        delivered: Mutex<Vec<Vec<u8>>>,
    }

    let router = Router::new_with_clock(RouterConfig::default(), StepClock::new_default_box());
    let tx_state = Arc::new(TxState::default());
    let tx_state_c = tx_state.clone();

    let side_a = router.add_side_packed_with_options(
        "can",
        |_bytes| Ok(()),
        RouterSideOptions {
            reliable_enabled: true,
            ..RouterSideOptions::default()
        },
    );
    router.add_side_packed_with_options(
        "uart",
        move |bytes: &[u8]| -> TelemetryResult<()> {
            let attempt = tx_state_c.attempts.fetch_add(1, Ordering::SeqCst);
            if attempt == 0 {
                return Err(TelemetryError::Io("busy"));
            }
            tx_state_c.delivered.lock().unwrap().push(bytes.to_vec());
            Ok(())
        },
        RouterSideOptions {
            reliable_enabled: true,
            ..RouterSideOptions::default()
        },
    );

    let pkt = Packet::from_f32_slice(
        DataType::named("GPS_DATA"),
        &[1.0, 2.0, 3.0],
        &[DataEndpoint::named("RADIO")],
        7,
    )
    .unwrap();
    let wire = pack_packet(&pkt);

    router
        .rx_packed_queue_from_side(wire.as_ref(), side_a)
        .unwrap();
    router.process_all_queues_with_timeout(0).unwrap();

    let delivered = tx_state.delivered.lock().unwrap().clone();
    assert!(tx_state.attempts.load(Ordering::SeqCst) >= 2);
    assert_eq!(
        count_packed_frames_of_type(&delivered, DataType::named("GPS_DATA")),
        1
    );
    assert!(!delivered[0].is_empty());
}

#[test]
fn disabled_route_prevents_retransmit_on_receive() {

    static TX_CALLS: AtomicUsize = AtomicUsize::new(0);

    fn transmit(_bytes: &[u8]) -> TelemetryResult<()> {
        TX_CALLS.fetch_add(1, Ordering::SeqCst);
        Ok(())
    }

    let router = Router::new_with_clock(
        RouterConfig::new(vec![EndpointHandler::new_packet_handler(
            DataEndpoint::named("SD_CARD"),
            |_pkt| Ok(()),
        )]),
        StepClock::new_default_box(),
    );
    let side = router.add_side_packed("tx", transmit);
    router.set_route(None, side, false).unwrap();

    let endpoints = &[DataEndpoint::named("SD_CARD"), DataEndpoint::named("RADIO")];
    let pkt =
        Packet::from_f32_slice(DataType::named("GPS_DATA"), &[1.0, 2.0, 3.0], endpoints, 0)
            .unwrap();

    router.rx(&pkt).unwrap();

    assert_eq!(TX_CALLS.load(Ordering::SeqCst), 0);
}

#[test]
fn receive_dedupes_identical_packed_frames() {

    let hits = Arc::new(AtomicUsize::new(0));
    let hits_c = hits.clone();
    let sd_handler =
        EndpointHandler::new_packed_handler(DataEndpoint::named("SD_CARD"), move |_b| {
            hits_c.fetch_add(1, Ordering::SeqCst);
            Ok(())
        });

    let router = Router::new_with_clock(
        RouterConfig::new(vec![sd_handler]),
        StepClock::new_default_box(),
    );

    let endpoints = &[DataEndpoint::named("SD_CARD")];
    let pkt =
        Packet::from_f32_slice(DataType::named("GPS_DATA"), &[1.0, 2.0, 3.0], endpoints, 0)
            .unwrap();
    let bytes = pack_packet(&pkt);

    router.rx_packed(&bytes).unwrap();
    router.rx_packed(&bytes).unwrap();

    assert_eq!(hits.load(Ordering::SeqCst), 1);
}

#[test]
fn rx_packed_delivers_to_packed_handlers() {

    let seen: Arc<Mutex<Option<Vec<u8>>>> = Arc::new(Mutex::new(None));
    let seen_c = seen.clone();
    let sd_handler =
        EndpointHandler::new_packed_handler(DataEndpoint::named("SD_CARD"), move |b| {
            *seen_c.lock().unwrap() = Some(b.to_vec());
            Ok(())
        });

    let router = Router::new_with_clock(
        RouterConfig::new(vec![sd_handler]),
        StepClock::new_default_box(),
    );

    let endpoints = &[DataEndpoint::named("SD_CARD")];
    let pkt =
        Packet::from_f32_slice(DataType::named("GPS_DATA"), &[1.0, 2.0, 3.0], endpoints, 0)
            .unwrap();
    let bytes = pack_packet(&pkt);

    router.rx_packed(&bytes).unwrap();
    let got = seen.lock().unwrap().clone().expect("no bytes delivered");
    assert_eq!(*got, *bytes);
}

#[test]
fn tests_recent_rx_cache_preallocates_and_reserves_shared_budget() {

    let router = Router::new(RouterConfig::default());
    let (capacity, max_bytes) = router.debug_recent_rx_capacity();

    assert_eq!(max_bytes, RECENT_RX_QUEUE_BYTES.max(1));
    assert_eq!(
        capacity,
        (RECENT_RX_QUEUE_BYTES.max(1) / std::mem::size_of::<u64>()).max(1)
    );
    assert!(capacity <= MAX_RECENT_RX_IDS.max(1));
    assert!(
        router.debug_shared_queue_bytes_used() <= MAX_QUEUE_BUDGET,
        "reserved recent ID memory must fit inside the shared queue budget"
    );
    assert!(
        router.debug_shared_queue_bytes_used() >= max_bytes,
        "recent ID reservation should count against the shared queue budget immediately"
    );
}

#[test]
fn tests_router_sender_id_can_be_updated_at_runtime_for_emitted_packets() {

    let seen = Arc::new(Mutex::new(Vec::new()));
    let seen_c = seen.clone();
    let router = Router::new(RouterConfig::default().with_sender("OLD_SENDER"));
    router.add_side_packet("tx", move |pkt: &Packet| {
        seen_c.lock().unwrap().push(pkt.sender().to_string());
        Ok(())
    });

    router.set_sender("NEW_SENDER");
    assert_eq!(router.sender().as_ref(), "NEW_SENDER");

    router.announce_discovery().unwrap();
    router.process_tx_queue().unwrap();

    assert!(
        seen.lock()
            .unwrap()
            .iter()
            .any(|sender| sender == "NEW_SENDER")
    );
}

#[test]
fn tests_runtime_sender_id_updates_are_reflected_in_topology_exports() {

    let router = Router::new(RouterConfig::default().with_sender("ROUTER_OLD"));
    router.set_sender("ROUTER_NEW");
    let router_topology = router.export_topology();
    assert!(
        router_topology
            .routers
            .iter()
            .any(|board| board.sender_id == "ROUTER_NEW")
    );

    let relay = Relay::new(Box::new(StepClock::new(0, 0)));
    relay.set_sender("RELAY_NEW");
    let relay_topology = relay.export_topology();
    assert!(
        relay_topology
            .routers
            .iter()
            .any(|board| board.sender_id == "RELAY_NEW")
    );
}

#[test]
fn tests_helpers_packet_hex_to_string() {
    let pkt = fake_telemetry_packet_bytes();
    let got = pkt.to_hex_string();
    let expect = "Type: GPS_DATA, Data Size: 12, Sender: TEST_PLATFORM, Endpoints: [SD_CARD, RADIO], Timestamp: 1123581321 (312h 06m 21s 321ms), Data (hex): 0x00 0x00 0x98 0x41 0x00 0x00 0x04 0x42 0x00 0x00 0x50 0x42";
    assert_eq!(got, expect);
}

const COMPRESSION_FLAG_COMPRESSED_PAYLOAD: u8 = 0x01;

#[test]
fn compression_memory_tests_compressible_payload_sets_compressed_flag_and_roundtrips() {
    let payload = vec![0u8; 4096];
    let pkt = make_message_packet(&payload, 11);

    let wire = pack_packet(&pkt);
    assert_eq!(wire[0] & COMPRESSION_FLAG_COMPRESSED_PAYLOAD, COMPRESSION_FLAG_COMPRESSED_PAYLOAD);

    let decoded = unpack_packet(&wire).expect("unpack failed");
    assert_eq!(decoded.payload(), payload.as_slice());
}

#[test]
fn compression_memory_tests_below_threshold_payload_stays_uncompressed_and_roundtrips() {
    let payload = b"small-msg".to_vec();
    let pkt = make_message_packet(&payload, 22);

    let wire = pack_packet(&pkt);
    assert_eq!(wire[0] & COMPRESSION_FLAG_COMPRESSED_PAYLOAD, 0);

    let decoded = unpack_packet(&wire).expect("unpack failed");
    assert_eq!(decoded.payload(), payload.as_slice());
}

#[test]
fn compression_memory_tests_mixed_payload_workload_roundtrips_without_failures() {
    for i in 0..1500u64 {
        let payload = if i % 2 == 0 {
            vec![b'Z'; 192]
        } else {
            let mut v = Vec::with_capacity(192);
            for j in 0..192u16 {
                v.push(32u8 + (((i as u16 + j) as u8) % 95));
            }
            v
        };

        let pkt = make_message_packet(&payload, i);
        let wire = pack_packet(&pkt);
        let decoded = unpack_packet(&wire).expect("unpack failed");
        assert_eq!(decoded.payload(), payload.as_slice());
    }
}

#[test]
fn data_conversion_types_data_as_f32_roundtrips_gps() {
    let eps = &[DataEndpoint::named("SD_CARD"), DataEndpoint::named("RADIO")];
    let src = [1.5_f32, -2.25, 3.0];

    let pkt = Packet::from_f32_slice(DataType::named("GPS_DATA"), &src, eps, 42).unwrap();
    let vals = pkt.data_as_f32().unwrap();

    assert_eq!(vals, src);
}

#[test]
fn data_conversion_types_mismatched_typed_accessor_returns_type_mismatch() {
    let eps = &[DataEndpoint::named("SD_CARD")];
    let src = [1.0_f32, 2.0, 3.0];

    let pkt = Packet::from_f32_slice(DataType::named("GPS_DATA"), &src, eps, 0).unwrap();

    let res = pkt.data_as_u16();
    match res {
        Err(TelemetryError::TypeMismatch { .. }) => {}
        other => panic!("expected TypeMismatch, got {other:?}"),
    }
}

#[test]
fn data_conversion_types_data_as_bool_decodes_nonzero() {
    let mut bool_ty_opt = None;
    for i in 0..=MAX_VALUE_DATA_TYPE {
        if let Some(ty) = DataType::try_from_u32(i).filter(|x| { let ty = *x; get_data_type(ty) == MessageDataType::Bool }) {
            bool_ty_opt = Some(ty);
            break;
        }
    }
    let bool_ty = match bool_ty_opt {
        Some(t) => t,
        None => return,
    };

    let eps = &[DataEndpoint::named("SD_CARD")];
    let vals = [true];

    let pkt = Packet::from_bool_slice(bool_ty, &vals, eps, 0).unwrap();
    let decoded = pkt.data_as_bool().unwrap();
    assert_eq!(decoded, vals);
}

fn dedupe_zero_clock() -> Box<dyn Clock + Send + Sync> {
    Box::new(|| 0u64)
}

fn dedupe_best_effort_type() -> DataType {
    static TYPE: std::sync::OnceLock<DataType> = std::sync::OnceLock::new();
    *TYPE.get_or_init(|| {
        ensure_common_test_schema();
        register_data_type_with_description(
            "DEDUPE_BEST_EFFORT_DATA",
            "compact transport regression fixture",
            MessageElement::Static(
                3,
                MessageDataType::Float32,
                MessageClass::Data,
            ),
            &[DataEndpoint::named("RADIO"), DataEndpoint::named("SD_CARD")],
            ReliableMode::BestEffort,
            1,
        )
        .unwrap()
    })
}

fn dedupe_wire_for_value(v: u64) -> Arc<[u8]> {
    let pkt = Packet::from_f32_slice(
        dedupe_best_effort_type(),
        &[v as f32, 0.0, 0.0],
        &[DataEndpoint::named("SD_CARD")],
        v,
    )
    .unwrap();
    pack_packet(&pkt)
}

fn dedupe_advertise_side(relay: &Relay, side: usize, sender: &str) {
    ensure_common_test_schema();
    let pkt = build_discovery_announce(sender, 0, &[DataEndpoint::named("SD_CARD")]).unwrap();
    relay.rx_from_side(side, pkt).unwrap();
}

#[test]
fn dedupe_tests_router_rx_packed_deduplicates_identical_frames() {
    let hits = Arc::new(AtomicUsize::new(0));
    let hits_c = hits.clone();

    let handler = EndpointHandler::new_packet_handler(
        DataEndpoint::named("SD_CARD"),
        move |_pkt: &Packet| {
            hits_c.fetch_add(1, Ordering::SeqCst);
            Ok(())
        },
    );
    let r = Router::new_with_clock(RouterConfig::new(vec![handler]), dedupe_zero_clock());
    let pkt = Packet::from_f32_slice(
        dedupe_best_effort_type(),
        &[1.0_f32, 2.0, 3.0],
        &[DataEndpoint::named("SD_CARD")],
        0,
    )
    .unwrap();
    let wire = pack_packet(&pkt);
    for _ in 0..5 {
        r.rx_packed(&wire).unwrap();
    }

    assert_eq!(
        hits.load(Ordering::SeqCst),
        1,
        "rx_packed should deliver identical frames only once"
    );
}

#[test]
fn dedupe_tests_router_rx_packed_dedup_persists_across_time_advance() {
    let hits = Arc::new(AtomicUsize::new(0));
    let hits_c = hits.clone();

    let handler = EndpointHandler::new_packet_handler(
        DataEndpoint::named("SD_CARD"),
        move |_pkt: &Packet| {
            hits_c.fetch_add(1, Ordering::SeqCst);
            Ok(())
        },
    );
    let clock = StepClock::new_box(0, 1);
    let r = Router::new_with_clock(RouterConfig::new(vec![handler]), clock);

    let pkt = Packet::from_f32_slice(
        dedupe_best_effort_type(),
        &[1.0_f32, 2.0, 3.0],
        &[DataEndpoint::named("SD_CARD")],
        0,
    )
    .unwrap();
    let wire = pack_packet(&pkt);
    r.rx_packed(&wire).unwrap();
    r.rx_packed(&wire).unwrap();

    assert_eq!(
        hits.load(Ordering::SeqCst),
        1,
        "dedupe should persist even as clock advances"
    );
}

#[test]
fn dedupe_tests_router_rx_packed_does_not_dedupe_different_frames() {
    let hits = Arc::new(AtomicUsize::new(0));
    let hits_c = hits.clone();

    let handler = EndpointHandler::new_packet_handler(
        DataEndpoint::named("SD_CARD"),
        move |_pkt: &Packet| {
            hits_c.fetch_add(1, Ordering::SeqCst);
            Ok(())
        },
    );

    let r = Router::new_with_clock(RouterConfig::new(vec![handler]), dedupe_zero_clock());
    let pkt_a = Packet::from_f32_slice(
        dedupe_best_effort_type(),
        &[1.0_f32, 2.0, 3.0],
        &[DataEndpoint::named("SD_CARD")],
        0,
    )
    .unwrap();
    let wire_a = pack_packet(&pkt_a);
    let pkt_b = Packet::from_f32_slice(
        dedupe_best_effort_type(),
        &[4.0_f32, 5.0, 6.0],
        &[DataEndpoint::named("SD_CARD")],
        0,
    )
    .unwrap();
    let wire_b = pack_packet(&pkt_b);

    r.rx_packed(&wire_a).unwrap();
    r.rx_packed(&wire_b).unwrap();

    assert_eq!(
        hits.load(Ordering::SeqCst),
        2,
        "different frames must never be deduplicated"
    );
}

#[test]
fn dedupe_tests_router_rx_packed_does_not_dedupe_same_payload_same_ms_when_nonce_differs() {
    ensure_common_test_schema();
    let hits = Arc::new(AtomicUsize::new(0));
    let hits_c = hits.clone();

    let handler = EndpointHandler::new_packet_handler(
        DataEndpoint::named("SD_CARD"),
        move |_pkt: &Packet| {
            hits_c.fetch_add(1, Ordering::SeqCst);
            Ok(())
        },
    );

    let r = Router::new_with_clock(RouterConfig::new(vec![handler]), dedupe_zero_clock());

    let pkt_a = Packet::from_f32_slice(
        dedupe_best_effort_type(),
        &[1.0_f32, 2.0, 3.0],
        &[DataEndpoint::named("SD_CARD")],
        0,
    )
    .unwrap();
    let pkt_b = Packet::from_f32_slice(
        dedupe_best_effort_type(),
        &[1.0_f32, 2.0, 3.0],
        &[DataEndpoint::named("SD_CARD")],
        0,
    )
    .unwrap();

    let wire_a = pack_packet(&pkt_a);
    let wire_b = pack_packet(&pkt_b);

    r.rx_packed(&wire_a).unwrap();
    r.rx_packed(&wire_b).unwrap();

    assert_ne!(pkt_a.nonce(), pkt_b.nonce());
    assert_eq!(hits.load(Ordering::SeqCst), 2);
}

#[test]
fn dedupe_tests_packed_side_header_templates_reduce_followup_frame_size() {
    ensure_common_test_schema();
    let delivered = Arc::new(AtomicUsize::new(0));
    let delivered_c = delivered.clone();
    let receiver = Arc::new(Router::new_with_clock(
        RouterConfig::new(vec![EndpointHandler::new_packet_handler(
            DataEndpoint::named("SD_CARD"),
            move |_pkt: &Packet| {
                delivered_c.fetch_add(1, Ordering::SeqCst);
                Ok(())
            },
        )]),
        dedupe_zero_clock(),
    ));
    let receiver_side_id = Arc::new(Mutex::new(None));
    let receiver_side_id_c = receiver_side_id.clone();
    let frames = Arc::new(Mutex::new(Vec::<usize>::new()));
    let frames_c = frames.clone();
    let receiver_c = receiver.clone();

    let sender = Router::new_with_clock(RouterConfig::default(), dedupe_zero_clock());
    sender.add_side_packed_small_packets(
        "link",
        move |bytes: &[u8]| {
            frames_c.lock().unwrap().push(bytes.len());
            let side = receiver_side_id_c
                .lock()
                .unwrap()
                .expect("receiver side id");
            receiver_c.rx_packed_from_side(bytes, side)
        },
        0,
    );
    let rx_side = receiver.add_side_packed_with_options(
        "link",
        |_bytes| Ok(()),
        RouterSideOptions {
            header_template_enabled: true,
            ..RouterSideOptions::default()
        },
    );
    *receiver_side_id.lock().unwrap() = Some(rx_side);

    let pkt_a = Packet::from_f32_slice(
        dedupe_best_effort_type(),
        &[1.0_f32, 2.0, 3.0],
        &[DataEndpoint::named("SD_CARD")],
        10_000,
    )
    .unwrap()
    .with_nonce(11);
    let pkt_b = Packet::from_f32_slice(
        dedupe_best_effort_type(),
        &[4.0_f32, 5.0, 6.0],
        &[DataEndpoint::named("SD_CARD")],
        10_001,
    )
    .unwrap()
    .with_nonce(12);

    sender.tx(pkt_a).unwrap();
    sender.tx(pkt_b).unwrap();

    let lens = frames.lock().unwrap();
    assert_eq!(delivered.load(Ordering::SeqCst), 2);
    assert_eq!(lens.len(), 2);
    assert!(lens[1] < lens[0], "second frame should use compact header");

    let stats = sender.export_runtime_stats();
    let side = stats
        .sides
        .iter()
        .find(|side| side.side_name == "link")
        .expect("link side stats");
    assert!(side.header_template_enabled);
    assert_eq!(side.side_transport_profile, "ipv6_like");
    assert_eq!(side.side_transport_full_frames, 1);
    assert_eq!(side.side_transport_compact_frames, 1);
    assert_eq!(side.side_transport_compact_delta_frames, 0);
    assert!(side.side_transport_bytes_saved > 0);
    assert_eq!(
        side.compact_header_target_bytes,
        IPV6_LIKE_COMPACT_HEADER_TARGET_BYTES
    );
    assert!(
        side.side_transport_min_compact_overhead_bytes
            .expect("compact overhead")
            <= side.compact_header_target_bytes,
        "simple compact follow-up frames should fit the configured overhead target"
    );
    assert_eq!(side.side_transport_compact_target_misses, 0);
}

#[test]
fn compact_templates_from_multiple_bus_producers_do_not_alias() {
    ensure_common_test_schema();
    let delivered = Arc::new(Mutex::new(Vec::<String>::new()));
    let delivered_c = delivered.clone();
    let receiver = Router::new_with_clock(
        RouterConfig::new([EndpointHandler::new_packet_handler(
            DataEndpoint::named("SD_CARD"),
            move |packet| {
                delivered_c
                    .lock()
                    .unwrap()
                    .push(packet.sender().to_string());
                Ok(())
            },
        )]),
        dedupe_zero_clock(),
    );
    let receiver_side = receiver.add_side_packed_with_options(
        "shared-can",
        |_| Ok(()),
        RouterSideOptions {
            header_template_enabled: true,
            max_side_transport_templates: 8,
            ..RouterSideOptions::default()
        },
    );

    let frames_a = Arc::new(Mutex::new(Vec::<Vec<u8>>::new()));
    let frames_b = Arc::new(Mutex::new(Vec::<Vec<u8>>::new()));
    let make_sender = |name: &'static str, frames: Arc<Mutex<Vec<Vec<u8>>>>| {
        let router =
            Router::new_with_clock(RouterConfig::default().with_sender(name), dedupe_zero_clock());
        router.add_side_packed_with_options(
            "shared-can",
            move |bytes| {
                frames.lock().unwrap().push(bytes.to_vec());
                Ok(())
            },
            RouterSideOptions {
                header_template_enabled: true,
                max_side_transport_templates: 8,
                ..RouterSideOptions::default()
            },
        );
        router
    };
    let sender_a = make_sender("PRODUCER_A", frames_a.clone());
    let sender_b = make_sender("PRODUCER_B", frames_b.clone());

    for (router, sender, base) in [
        (&sender_a, "PRODUCER_A", 10u16),
        (&sender_b, "PRODUCER_B", 20u16),
    ] {
        for offset in 0..2u16 {
            router
                .tx(Packet::new(
                    dedupe_best_effort_type(),
                    &[DataEndpoint::named("SD_CARD")],
                    sender,
                    u64::from(base + offset),
                    Arc::from(
                        [f32::from(offset), 0.0, 0.0]
                            .into_iter()
                            .flat_map(f32::to_le_bytes)
                            .collect::<Vec<_>>(),
                    ),
                )
                .unwrap()
                .with_nonce(base + offset))
                .unwrap();
        }
    }

    let a = frames_a.lock().unwrap().clone();
    let b = frames_b.lock().unwrap().clone();
    assert_eq!(a.len(), 2);
    assert_eq!(b.len(), 2);
    for frame in [&a[0], &b[0], &a[1], &b[1]] {
        receiver
            .rx_packed_from_side(frame.as_slice(), receiver_side)
            .unwrap();
    }
    assert_eq!(
        *delivered.lock().unwrap(),
        vec!["PRODUCER_A", "PRODUCER_B", "PRODUCER_A", "PRODUCER_B"]
    );
}

#[test]
fn compact_templates_are_disabled_after_shared_bus_discovery() {
    ensure_common_test_schema();
    let frames = Arc::new(Mutex::new(Vec::<Vec<u8>>::new()));
    let frames_c = frames.clone();
    let sender = Router::new_with_clock(RouterConfig::default().with_sender("LOCAL"), dedupe_zero_clock());
    let side = sender.add_side_packed_with_options(
        "shared-can",
        move |bytes| {
            frames_c.lock().unwrap().push(bytes.to_vec());
            Ok(())
        },
        RouterSideOptions {
            header_template_enabled: true,
            max_side_transport_templates: 8,
            ..RouterSideOptions::default()
        },
    );
    for peer in ["PEER_A", "PEER_B"] {
        sender
            .rx_from_side(
                &build_discovery_announce(peer, 0, &[DataEndpoint::named("SD_CARD")]).unwrap(),
                side,
            )
            .unwrap();
    }
    frames.lock().unwrap().clear();

    for nonce in 1..=2u16 {
        sender
            .tx(Packet::from_f32_slice(
                dedupe_best_effort_type(),
                &[f32::from(nonce), 0.0, 0.0],
                &[DataEndpoint::named("SD_CARD")],
                u64::from(nonce),
            )
            .unwrap()
            .with_nonce(nonce))
            .unwrap();
    }
    let stats = sender.export_runtime_stats();
    let side = stats
        .sides
        .iter()
        .find(|side| side.side_name == "shared-can")
        .unwrap();
    assert_eq!(side.side_transport_tx_template_count, 0);
    assert_eq!(side.side_transport_compact_frames, 0);
}

#[test]
fn chunk_transfer_ids_do_not_collide_across_bus_producers() {
    ensure_common_test_schema();
    let ty = DataType::try_named("SHARED_BUS_CHUNK_TEST").unwrap_or_else(|| {
        register_data_type_with_description(
            "SHARED_BUS_CHUNK_TEST",
            "multi-producer chunk reassembly regression test",
            MessageElement::Dynamic(
                MessageDataType::Binary,
                MessageClass::Data,
            ),
            &[DataEndpoint::named("SD_CARD")],
            ReliableMode::BestEffort,
            1,
        )
        .unwrap()
    });
    let delivered = Arc::new(Mutex::new(Vec::<(String, Vec<u8>)>::new()));
    let delivered_c = delivered.clone();
    let receiver = Router::new_with_clock(
        RouterConfig::new([EndpointHandler::new_packet_handler(
            DataEndpoint::named("SD_CARD"),
            move |packet| {
                delivered_c
                    .lock()
                    .unwrap()
                    .push((packet.sender().to_string(), packet.payload().to_vec()));
                Ok(())
            },
        )]),
        dedupe_zero_clock(),
    );
    let receiver_side = receiver.add_side_packed_with_options(
        "shared-can",
        |_| Ok(()),
        RouterSideOptions {
            max_frame_bytes: 64,
            ..RouterSideOptions::default()
        },
    );

    let capture = |sender: &'static str, salt: u8| {
        let frames = Arc::new(Mutex::new(Vec::<Vec<u8>>::new()));
        let frames_c = frames.clone();
        let router =
            Router::new_with_clock(RouterConfig::default().with_sender(sender), dedupe_zero_clock());
        router.add_side_packed_with_options(
            "shared-can",
            move |bytes| {
                frames_c.lock().unwrap().push(bytes.to_vec());
                Ok(())
            },
            RouterSideOptions {
                max_frame_bytes: 64,
                ..RouterSideOptions::default()
            },
        );
        router
            .tx(Packet::new(
                ty,
                &[DataEndpoint::named("SD_CARD")],
                sender,
                u64::from(salt),
                Arc::from(
                    (0..180u16)
                        .map(|value| (value as u8).wrapping_add(salt))
                        .collect::<Vec<_>>(),
                ),
            )
            .unwrap()
            .with_nonce(u16::from(salt)))
            .unwrap();
        let captured = frames.lock().unwrap().clone();
        assert!(captured.len() > 1);
        let application_transfer_id =
            u32::from_le_bytes(captured.last().unwrap()[4..8].try_into().unwrap());
        captured
            .into_iter()
            .filter(|frame| {
                frame.starts_with(b"SDT\x03")
                    && u32::from_le_bytes(frame[4..8].try_into().unwrap())
                        == application_transfer_id
            })
            .collect::<Vec<_>>()
    };
    let a = capture("PRODUCER_A", 0x11);
    let b = capture("PRODUCER_B", 0x77);
    let transfer_id = |frame: &[u8]| {
        assert_eq!(&frame[..4], b"SDT\x03");
        u32::from_le_bytes(frame[4..8].try_into().unwrap())
    };
    assert_ne!(transfer_id(&a[0]), transfer_id(&b[0]));
    for index in 0..a.len().max(b.len()) {
        if let Some(frame) = a.get(index) {
            receiver.rx_packed_from_side(frame, receiver_side).unwrap();
        }
        if let Some(frame) = b.get(index) {
            receiver.rx_packed_from_side(frame, receiver_side).unwrap();
        }
    }
    let delivered = delivered.lock().unwrap();
    assert_eq!(delivered.len(), 2, "delivered={delivered:?}");
    let expected_a = (0..180u16)
        .map(|value| (value as u8).wrapping_add(0x11))
        .collect::<Vec<_>>();
    let expected_b = (0..180u16)
        .map(|value| (value as u8).wrapping_add(0x77))
        .collect::<Vec<_>>();
    assert!(delivered.contains(&("PRODUCER_A".into(), expected_a)));
    assert!(delivered.contains(&("PRODUCER_B".into(), expected_b)));
}

#[test]
fn packed_side_header_templates_preserve_absolute_unchanged_timestamps() {
    ensure_common_test_schema();
    let delivered_payloads = Arc::new(Mutex::new(Vec::<Vec<f32>>::new()));
    let delivered_payloads_c = delivered_payloads.clone();
    let receiver = Arc::new(Router::new_with_clock(
        RouterConfig::new(vec![EndpointHandler::new_packet_handler(
            DataEndpoint::named("SD_CARD"),
            move |pkt: &Packet| {
                let mut payload = Vec::with_capacity(pkt.payload().len() / 4);
                for chunk in pkt.payload().as_chunks::<4>().0 {
                    payload.push(f32::from_le_bytes(*chunk));
                }
                delivered_payloads_c.lock().unwrap().push(payload);
                Ok(())
            },
        )]),
        dedupe_zero_clock(),
    ));
    let receiver_side_id = Arc::new(Mutex::new(None));
    let receiver_side_id_c = receiver_side_id.clone();
    let frames = Arc::new(Mutex::new(Vec::<usize>::new()));
    let frames_c = frames.clone();
    let receiver_c = receiver.clone();

    let sender = Router::new_with_clock(RouterConfig::default(), dedupe_zero_clock());
    sender.add_side_packed_with_options(
        "link",
        move |bytes: &[u8]| {
            frames_c.lock().unwrap().push(bytes.len());
            let side = receiver_side_id_c
                .lock()
                .unwrap()
                .expect("receiver side id");
            receiver_c.rx_packed_from_side(bytes, side)
        },
        RouterSideOptions {
            header_template_enabled: true,
            compact_header_target_bytes: 20,
            ..RouterSideOptions::default()
                .with_omitted_unchanged_compact_timestamps_for_type(dedupe_best_effort_type())
        },
    );
    let rx_side = receiver.add_side_packed_with_options(
        "link",
        |_bytes| Ok(()),
        RouterSideOptions {
            header_template_enabled: true,
            compact_header_target_bytes: 20,
            ..RouterSideOptions::default()
                .with_omitted_unchanged_compact_timestamps_for_type(dedupe_best_effort_type())
        },
    );
    *receiver_side_id.lock().unwrap() = Some(rx_side);

    let pkt_a = Packet::from_f32_slice(
        dedupe_best_effort_type(),
        &[1.0_f32, 2.0, 3.0],
        &[DataEndpoint::named("SD_CARD")],
        10_000,
    )
    .unwrap()
    .with_nonce(21);
    let pkt_b = Packet::from_f32_slice(
        dedupe_best_effort_type(),
        &[4.0_f32, 5.0, 6.0],
        &[DataEndpoint::named("SD_CARD")],
        10_000,
    )
    .unwrap()
    .with_nonce(22);

    sender.tx(pkt_a).unwrap();
    sender.tx(pkt_b).unwrap();

    let lens = frames.lock().unwrap();
    assert_eq!(lens.len(), 2);
    assert!(lens[1] < lens[0], "second frame should use compact header");
    drop(lens);

    let delivered = delivered_payloads.lock().unwrap();
    assert_eq!(delivered.len(), 2);
    assert_eq!(delivered[0], vec![1.0, 2.0, 3.0]);
    assert_eq!(delivered[1], vec![4.0, 5.0, 6.0]);
    drop(delivered);

    let stats = sender.export_runtime_stats();
    let side = stats
        .sides
        .iter()
        .find(|side| side.side_name == "link")
        .expect("link side stats");
    assert_eq!(side.side_transport_full_frames, 1);
    assert_eq!(side.side_transport_compact_frames, 1);
    assert_eq!(side.side_transport_compact_delta_frames, 0);
    assert_eq!(side.side_transport_compact_omitted_timestamp_frames, 0);
    assert!(side.side_transport_bytes_saved > 0);
    assert_eq!(side.side_transport_compact_target_misses, 0);
}

#[test]
fn dedupe_tests_packed_side_timestamp_omission_policy_does_not_apply_to_other_types() {
    ensure_common_test_schema();
    let other_ty = DataType::try_named("POLICY_OTHER_DATA").unwrap_or_else(|| {
        register_data_type_with_description(
            "POLICY_OTHER_DATA",
            "test type that should not inherit GPS timestamp omission policy",
            MessageElement::Static(3, MessageDataType::Float32, MessageClass::Data),
            &[DataEndpoint::named("SD_CARD")],
            ReliableMode::BestEffort,
            1,
        )
        .expect("register POLICY_OTHER_DATA")
    });
    let delivered = Arc::new(AtomicUsize::new(0));
    let delivered_c = delivered.clone();
    let receiver = Arc::new(Router::new_with_clock(
        RouterConfig::new(vec![EndpointHandler::new_packet_handler(
            DataEndpoint::named("SD_CARD"),
            move |_pkt: &Packet| {
                delivered_c.fetch_add(1, Ordering::SeqCst);
                Ok(())
            },
        )]),
        dedupe_zero_clock(),
    ));
    let receiver_side_id = Arc::new(Mutex::new(None));
    let receiver_side_id_c = receiver_side_id.clone();
    let receiver_c = receiver.clone();

    let sender = Router::new_with_clock(RouterConfig::default(), dedupe_zero_clock());
    sender.add_side_packed_with_options(
        "link",
        move |bytes: &[u8]| {
            let side = receiver_side_id_c
                .lock()
                .unwrap()
                .expect("receiver side id");
            receiver_c.rx_packed_from_side(bytes, side)
        },
        RouterSideOptions {
            header_template_enabled: true,
            compact_header_target_bytes: 20,
            ..RouterSideOptions::default()
                .with_omitted_unchanged_compact_timestamps_for_type(dedupe_best_effort_type())
        },
    );
    let rx_side = receiver.add_side_packed_with_options(
        "link",
        |_bytes| Ok(()),
        RouterSideOptions {
            header_template_enabled: true,
            compact_header_target_bytes: 20,
            ..RouterSideOptions::default()
                .with_omitted_unchanged_compact_timestamps_for_type(dedupe_best_effort_type())
        },
    );
    *receiver_side_id.lock().unwrap() = Some(rx_side);

    let pkt_a = Packet::from_f32_slice(
        other_ty,
        &[1.0_f32, 2.0, 3.0],
        &[DataEndpoint::named("SD_CARD")],
        10_000,
    )
    .unwrap()
    .with_nonce(31);
    let pkt_b = Packet::from_f32_slice(
        other_ty,
        &[4.0_f32, 5.0, 6.0],
        &[DataEndpoint::named("SD_CARD")],
        10_000,
    )
    .unwrap()
    .with_nonce(32);

    sender.tx(pkt_a).unwrap();
    sender.tx(pkt_b).unwrap();

    assert_eq!(delivered.load(Ordering::SeqCst), 2);
    let stats = sender.export_runtime_stats();
    let side = stats
        .sides
        .iter()
        .find(|side| side.side_name == "link")
        .expect("link side stats");
    assert_eq!(side.side_transport_full_frames, 1);
    assert_eq!(side.side_transport_compact_frames, 1);
    assert_eq!(side.side_transport_compact_delta_frames, 0);
    assert_eq!(side.side_transport_compact_omitted_timestamp_frames, 0);
}

#[test]
fn dedupe_tests_packed_side_template_dictionary_is_bounded() {
    ensure_common_test_schema();
    let receiver = Arc::new(Router::new_with_clock(
        RouterConfig::default(),
        dedupe_zero_clock(),
    ));
    let receiver_side_id = Arc::new(Mutex::new(None));
    let receiver_side_id_c = receiver_side_id.clone();
    let receiver_c = receiver.clone();

    let sender = Router::new_with_clock(RouterConfig::default(), dedupe_zero_clock());
    sender.add_side_packed_with_options(
        "bounded-link",
        move |bytes: &[u8]| {
            let side = receiver_side_id_c
                .lock()
                .unwrap()
                .expect("receiver side id");
            receiver_c.rx_packed_from_side(bytes, side)
        },
        RouterSideOptions {
            header_template_enabled: true,
            max_side_transport_templates: 1,
            ..RouterSideOptions::default()
        },
    );
    let rx_side = receiver.add_side_packed_with_options(
        "bounded-link",
        |_bytes| Ok(()),
        RouterSideOptions {
            header_template_enabled: true,
            max_side_transport_templates: 1,
            ..RouterSideOptions::default()
        },
    );
    *receiver_side_id.lock().unwrap() = Some(rx_side);

    for (sender_id, ts, nonce) in [("SRC_A", 1, 1), ("SRC_B", 2, 2), ("SRC_A", 3, 3)] {
        let mut payload = Vec::new();
        payload.extend_from_slice(&(ts as f32).to_le_bytes());
        payload.extend_from_slice(&0.0f32.to_le_bytes());
        payload.extend_from_slice(&0.0f32.to_le_bytes());
        let pkt = Packet::new(
            dedupe_best_effort_type(),
            &[DataEndpoint::named("SD_CARD")],
            sender_id,
            ts,
            Arc::<[u8]>::from(payload),
        )
        .unwrap()
        .with_nonce(nonce);
        sender.tx(pkt).unwrap();
    }

    let stats = sender.export_runtime_stats();
    let side = stats
        .sides
        .iter()
        .find(|side| side.side_name == "bounded-link")
        .expect("bounded side stats");
    assert_eq!(side.max_side_transport_templates, 1);
    assert_eq!(side.side_transport_profile, "template");
    assert_eq!(side.side_transport_tx_template_count, 1);
    assert_eq!(side.side_transport_full_frames, 3);
    assert_eq!(side.side_transport_compact_frames, 0);
    assert!(side.side_transport_template_evictions >= 2);
}

#[test]
fn bounded_side_template_dictionaries_remain_synchronized() {
    ensure_common_test_schema();
    let delivered = Arc::new(AtomicUsize::new(0));
    let delivered_c = delivered.clone();
    let receiver = Arc::new(Router::new_with_clock(
        RouterConfig::new(vec![EndpointHandler::new_packet_handler(
            DataEndpoint::named("SD_CARD"),
            move |_pkt: &Packet| {
                delivered_c.fetch_add(1, Ordering::SeqCst);
                Ok(())
            },
        )])
        .with_reliable_enabled(false),
        dedupe_zero_clock(),
    ));
    let receiver_side_id = Arc::new(Mutex::new(None));
    let receiver_side_id_c = receiver_side_id.clone();
    let receiver_c = receiver.clone();

    let sender = Router::new_with_clock(RouterConfig::default(), dedupe_zero_clock());
    sender.add_side_packed_with_options(
        "bounded-link",
        move |bytes: &[u8]| {
            let side = receiver_side_id_c
                .lock()
                .unwrap()
                .expect("receiver side id");
            receiver_c.rx_packed_from_side(bytes, side)
        },
        RouterSideOptions {
            header_template_enabled: true,
            max_side_transport_templates: 2,
            ..RouterSideOptions::default()
        },
    );
    let rx_side = receiver.add_side_packed_with_options(
        "bounded-link",
        |_bytes| Ok(()),
        RouterSideOptions {
            header_template_enabled: true,
            max_side_transport_templates: 2,
            ..RouterSideOptions::default()
        },
    );
    *receiver_side_id.lock().unwrap() = Some(rx_side);

    let sources = ["SRC_A", "SRC_B", "SRC_C", "SRC_A", "SRC_B", "SRC_C"];
    for (index, sender_id) in sources.into_iter().enumerate() {
        let payload: Arc<[u8]> = [index as f32, 0.0, 0.0]
            .into_iter()
            .flat_map(f32::to_le_bytes)
            .collect::<Vec<_>>()
            .into();
        let pkt = Packet::new(
            dedupe_best_effort_type(),
            &[DataEndpoint::named("SD_CARD")],
            sender_id,
            index as u64,
            payload,
        )
        .unwrap()
        .with_nonce(index as u16 + 1);
        sender.tx(pkt).unwrap();
    }

    assert_eq!(delivered.load(Ordering::SeqCst), sources.len());
    let tx_stats = sender.export_runtime_stats();
    let tx_side = tx_stats
        .sides
        .iter()
        .find(|side| side.side_name == "bounded-link")
        .expect("bounded sender side stats");
    let rx_stats = receiver.export_runtime_stats();
    let rx_side = rx_stats
        .sides
        .iter()
        .find(|side| side.side_name == "bounded-link")
        .expect("bounded receiver side stats");
    assert_eq!(tx_side.side_transport_tx_template_count, 2);
    assert_eq!(rx_side.side_transport_rx_template_count, 2);
    assert!(tx_side.side_transport_template_evictions > 0);
    assert_eq!(
        tx_side.side_transport_template_evictions,
        rx_side.side_transport_template_evictions
    );
}

#[test]
fn packed_sender_honors_smaller_discovered_peer_template_capacity() {
    ensure_common_test_schema();
    let delivered = Arc::new(AtomicUsize::new(0));
    let delivered_c = delivered.clone();
    let receiver = Arc::new(Router::new_with_clock(
        RouterConfig::new(vec![EndpointHandler::new_packet_handler(
            DataEndpoint::named("SD_CARD"),
            move |_pkt: &Packet| {
                delivered_c.fetch_add(1, Ordering::SeqCst);
                Ok(())
            },
        )]),
        dedupe_zero_clock(),
    ));
    let receiver_side_id = Arc::new(Mutex::new(None));
    let receiver_side_id_c = receiver_side_id.clone();
    let receiver_c = receiver.clone();

    let sender = Router::new_with_clock(RouterConfig::default(), dedupe_zero_clock());
    let sender_side = sender.add_side_packed_with_options(
        "mismatched-link",
        move |bytes: &[u8]| {
            let side = receiver_side_id_c
                .lock()
                .unwrap()
                .expect("receiver side id");
            receiver_c.rx_packed_from_side(bytes, side)
        },
        RouterSideOptions {
            header_template_enabled: true,
            max_side_transport_templates: 8,
            ..RouterSideOptions::default()
        },
    );
    let rx_side = receiver.add_side_packed_with_options(
        "mismatched-link",
        |_bytes| Ok(()),
        RouterSideOptions {
            header_template_enabled: true,
            max_side_transport_templates: 4,
            ..RouterSideOptions::default()
        },
    );
    *receiver_side_id.lock().unwrap() = Some(rx_side);

    /* Populate the larger sender dictionary before discovery so learning
     * the constrained peer must actively shrink existing state. */
    for (index, sender_id) in ["SRC_A", "SRC_B", "SRC_C", "SRC_D", "SRC_E", "SRC_F"]
        .into_iter()
        .enumerate()
    {
        let payload: Arc<[u8]> = [index as f32, 0.0, 0.0]
            .into_iter()
            .flat_map(f32::to_le_bytes)
            .collect::<Vec<_>>()
            .into();
        sender
            .tx(Packet::new(
                dedupe_best_effort_type(),
                &[DataEndpoint::named("SD_CARD")],
                sender_id,
                index as u64 + 1,
                payload,
            )
            .unwrap()
            .with_nonce(index as u16 + 100))
            .unwrap();
    }
    let before_discovery = sender.export_runtime_stats();
    let before_side = before_discovery
        .sides
        .iter()
        .find(|side| side.side_name == "mismatched-link")
        .expect("sender side before discovery");
    assert_eq!(before_side.side_transport_tx_template_count, 6);

    let peer_advertisement = AddressAdvertisement {
        hostname: "RECEIVER".into(),
        address: 42,
        requested_address: 0,
        mode: ADDRESS_MODE_DYNAMIC,
        state: ADDRESS_STATE_APPROVED,
        birth_ms: 0,
        owner_hash: 42,
        reachable_endpoints: vec![DataEndpoint::named("SD_CARD")],
        reachable_network_variables: Vec::new(),
        reachable_timesync_sources: Vec::new(),
        link_capabilities: LinkCapabilities {
            version: 1,
            flags: LINK_CAPABILITY_HEADER_TEMPLATES,
            profile: LINK_PROFILE_TEMPLATE,
            max_frame_bytes: 0,
            compact_header_target_bytes: 0,
            max_side_transport_templates: 4,
        },
    };
    let discovery =
        build_discovery_address("RECEIVER", 0, &peer_advertisement).unwrap();
    sender.rx_from_side(&discovery, sender_side).unwrap();
    sender.process_all_queues().unwrap();

    let sources = [
        "SRC_A", "SRC_B", "SRC_C", "SRC_D", "SRC_E", "SRC_F", "SRC_A", "SRC_B", "SRC_C", "SRC_D",
        "SRC_E", "SRC_F",
    ];
    for (index, sender_id) in sources.into_iter().enumerate() {
        let payload: Arc<[u8]> = [index as f32, 0.0, 0.0]
            .into_iter()
            .flat_map(f32::to_le_bytes)
            .collect::<Vec<_>>()
            .into();
        sender
            .tx(Packet::new(
                dedupe_best_effort_type(),
                &[DataEndpoint::named("SD_CARD")],
                sender_id,
                index as u64 + 1,
                payload,
            )
            .unwrap()
            .with_nonce(index as u16 + 1))
            .unwrap();
        sender.process_all_queues().unwrap();
        receiver.process_all_queues().unwrap();
    }

    let receiver_stats = receiver.export_runtime_stats();
    let receiver_side = receiver_stats
        .sides
        .iter()
        .find(|side| side.side_name == "mismatched-link")
        .expect("mismatched receiver side stats");
    let received_values = receiver_side
        .data_types
        .iter()
        .find(|item| item.data_type == dedupe_best_effort_type())
        .expect("received GPS data stats");
    assert_eq!(received_values.rx_packets, sources.len() as u64 + 6);
    assert_eq!(receiver_side.side_transport_rx_template_count, 4);
    let stats = sender.export_runtime_stats();
    let side = stats
        .sides
        .iter()
        .find(|side| side.side_name == "mismatched-link")
        .expect("mismatched sender side stats");
    assert_eq!(side.side_transport_tx_template_count, 4);
}

#[test]
fn compact_side_recovers_when_initial_full_template_is_lost() {
    ensure_common_test_schema();
    let delivered = Arc::new(AtomicUsize::new(0));
    let delivered_c = delivered.clone();
    let receiver = Arc::new(Router::new_with_clock(
        RouterConfig::new(vec![EndpointHandler::new_packet_handler(
            DataEndpoint::named("SD_CARD"),
            move |_pkt: &Packet| {
                delivered_c.fetch_add(1, Ordering::SeqCst);
                Ok(())
            },
        )]),
        dedupe_zero_clock(),
    ));
    let receiver_side_id = Arc::new(Mutex::new(None));
    let receiver_side_id_c = receiver_side_id.clone();
    let receiver_c = receiver.clone();
    let transmitted = Arc::new(AtomicUsize::new(0));
    let transmitted_c = transmitted.clone();

    let sender = Router::new_with_clock(RouterConfig::default(), dedupe_zero_clock());
    sender.add_side_packed_with_options(
        "lossy-link",
        move |bytes: &[u8]| {
            if transmitted_c.fetch_add(1, Ordering::SeqCst) == 0 {
                return Ok(());
            }
            let side = receiver_side_id_c
                .lock()
                .unwrap()
                .expect("receiver side id");
            receiver_c.rx_packed_from_side(bytes, side)
        },
        RouterSideOptions {
            header_template_enabled: true,
            max_side_transport_templates: 2,
            ..RouterSideOptions::default()
        },
    );
    let rx_side = receiver.add_side_packed_with_options(
        "lossy-link",
        |_bytes| Ok(()),
        RouterSideOptions {
            header_template_enabled: true,
            max_side_transport_templates: 2,
            ..RouterSideOptions::default()
        },
    );
    *receiver_side_id.lock().unwrap() = Some(rx_side);

    for index in 0..11u16 {
        let pkt = Packet::from_f32_slice(
            dedupe_best_effort_type(),
            &[index as f32, 0.0, 0.0],
            &[DataEndpoint::named("SD_CARD")],
            u64::from(index),
        )
        .unwrap()
        .with_nonce(index + 1);
        sender.tx(pkt).unwrap();
    }

    assert_eq!(transmitted.load(Ordering::SeqCst), 11);
    assert_eq!(delivered.load(Ordering::SeqCst), 2);
    let stats = sender.export_runtime_stats();
    let side = stats
        .sides
        .iter()
        .find(|side| side.side_name == "lossy-link")
        .expect("lossy sender side stats");
    assert_eq!(side.side_transport_full_frames, 2);
    assert_eq!(side.side_transport_compact_frames, 9);
}

#[test]
fn topology_change_resynchronizes_a_missing_compact_template_immediately() {

    ensure_common_test_schema();
    let template_type = register_data_type_with_description(
        "TEMPLATE_RESET_DATA",
        "best-effort template recovery fixture",
        MessageElement::Static(
            3,
            MessageDataType::Float32,
            MessageClass::Data,
        ),
        &[DataEndpoint::named("SD_CARD")],
        ReliableMode::BestEffort,
        1,
    )
    .unwrap();
    let delivered = Arc::new(AtomicUsize::new(0));
    let delivered_c = delivered.clone();
    let receiver = Arc::new(Router::new_with_clock(
        RouterConfig::new(vec![EndpointHandler::new_packet_handler(
            DataEndpoint::named("SD_CARD"),
            move |_pkt: &Packet| {
                delivered_c.fetch_add(1, Ordering::SeqCst);
                Ok(())
            },
        )])
        .with_sender("RECEIVER"),
        dedupe_zero_clock(),
    ));
    let receiver_side_id = Arc::new(Mutex::new(None));
    let receiver_side_id_c = receiver_side_id.clone();
    let receiver_c = receiver.clone();
    let transmitted = Arc::new(AtomicUsize::new(0));
    let transmitted_c = transmitted.clone();

    let sender =
        Router::new_with_clock(RouterConfig::default().with_sender("SENDER"), dedupe_zero_clock());
    let lossy = sender.add_side_packed_with_options(
        "lossy-link",
        move |bytes: &[u8]| {
            if transmitted_c.fetch_add(1, Ordering::SeqCst) == 0 {
                return Ok(());
            }
            let side = receiver_side_id_c
                .lock()
                .unwrap()
                .expect("receiver side id");
            receiver_c.rx_packed_from_side(bytes, side)
        },
        RouterSideOptions {
            header_template_enabled: true,
            ..RouterSideOptions::default()
        },
    );
    let ingress = sender.add_side_packet("new-peer", |_pkt| Ok(()));
    let rx_side = receiver.add_side_packed_with_options(
        "lossy-link",
        |_bytes| Ok(()),
        RouterSideOptions {
            header_template_enabled: true,
            ..RouterSideOptions::default()
        },
    );
    *receiver_side_id.lock().unwrap() = Some(rx_side);

    sender
        .rx_from_side(
            &build_discovery_announce("STORAGE_NODE", 0, &[DataEndpoint::named("SD_CARD")])
                .unwrap(),
            lossy,
        )
        .unwrap();

    let packet = |nonce| {
        Packet::from_f32_slice(
            template_type,
            &[nonce as f32, 0.0, 0.0],
            &[DataEndpoint::named("SD_CARD")],
            u64::from(nonce),
        )
        .unwrap()
        .with_nonce(nonce)
    };
    sender.tx(packet(1)).unwrap();
    sender.tx(packet(2)).unwrap();
    assert_eq!(delivered.load(Ordering::SeqCst), 0);

    sender
        .rx_from_side(
            &build_discovery_announce("NEW_PEER", 2, &[DataEndpoint::named("RADIO")]).unwrap(),
            ingress,
        )
        .unwrap();
    sender.tx(packet(3)).unwrap();
    receiver.process_all_queues().unwrap();

    assert_eq!(transmitted.load(Ordering::SeqCst), 3);
    let stats = sender.export_runtime_stats();
    let side = stats
        .sides
        .iter()
        .find(|side| side.side_name == "lossy-link")
        .expect("lossy sender side stats");
    assert_eq!(side.side_transport_full_frames, 2);
    assert_eq!(side.side_transport_compact_frames, 1);
    let received = receiver.export_runtime_stats();
    let received_gps = received.sides[0]
        .data_types
        .iter()
        .find(|item| item.data_type == template_type)
        .expect("post-topology-change full frame must decode as GPS_DATA");
    assert_eq!(received_gps.rx_packets, 1);
}

#[test]
fn dedupe_tests_compact_header_target_misses_are_counted() {
    ensure_common_test_schema();
    let receiver = Arc::new(Router::new_with_clock(
        RouterConfig::default(),
        dedupe_zero_clock(),
    ));
    let receiver_side_id = Arc::new(Mutex::new(None));
    let receiver_side_id_c = receiver_side_id.clone();
    let receiver_c = receiver.clone();

    let sender = Router::new_with_clock(RouterConfig::default(), dedupe_zero_clock());
    sender.add_side_packed_with_options(
        "tight-target",
        move |bytes: &[u8]| {
            let side = receiver_side_id_c
                .lock()
                .unwrap()
                .expect("receiver side id");
            receiver_c.rx_packed_from_side(bytes, side)
        },
        RouterSideOptions {
            header_template_enabled: true,
            compact_header_target_bytes: 1,
            ..RouterSideOptions::default()
        },
    );
    let rx_side = receiver.add_side_packed_with_options(
        "tight-target",
        |_bytes| Ok(()),
        RouterSideOptions {
            header_template_enabled: true,
            ..RouterSideOptions::default()
        },
    );
    *receiver_side_id.lock().unwrap() = Some(rx_side);

    for (value, nonce) in [(1.0, 11), (2.0, 12)] {
        let pkt = Packet::from_f32_slice(
            dedupe_best_effort_type(),
            &[value, 0.0, 0.0],
            &[DataEndpoint::named("SD_CARD")],
            nonce as u64,
        )
        .unwrap()
        .with_nonce(nonce);
        sender.tx(pkt).unwrap();
    }

    let stats = sender.export_runtime_stats();
    let side = stats
        .sides
        .iter()
        .find(|side| side.side_name == "tight-target")
        .expect("tight target side stats");
    assert_eq!(side.side_transport_compact_frames, 1);
    assert_eq!(side.side_transport_compact_target_misses, 1);
}

#[test]
fn dedupe_tests_packed_side_chunking_reassembles_for_fixed_size_links() {
    ensure_common_test_schema();
    let delivered = Arc::new(AtomicUsize::new(0));
    let delivered_c = delivered.clone();
    let receiver = Arc::new(Router::new_with_clock(
        RouterConfig::new(vec![EndpointHandler::new_packet_handler(
            DataEndpoint::named("SD_CARD"),
            move |_pkt: &Packet| {
                delivered_c.fetch_add(1, Ordering::SeqCst);
                Ok(())
            },
        )]),
        dedupe_zero_clock(),
    ));
    let receiver_side_id = Arc::new(Mutex::new(None));
    let receiver_side_id_c = receiver_side_id.clone();
    let chunk_count = Arc::new(AtomicUsize::new(0));
    let chunk_count_c = chunk_count.clone();
    let max_seen = Arc::new(AtomicUsize::new(0));
    let max_seen_c = max_seen.clone();
    let receiver_c = receiver.clone();
    let sender = Router::new_with_clock(RouterConfig::default(), dedupe_zero_clock());
    let max_frame_bytes = 48usize;

    sender.add_side_packed_small_packets(
        "fixed-link",
        move |bytes: &[u8]| {
            chunk_count_c.fetch_add(1, Ordering::SeqCst);
            let mut current = max_seen_c.load(Ordering::SeqCst);
            while bytes.len() > current
                && max_seen_c
                    .compare_exchange(current, bytes.len(), Ordering::SeqCst, Ordering::SeqCst)
                    .is_err()
            {
                current = max_seen_c.load(Ordering::SeqCst);
            }
            let side = receiver_side_id_c
                .lock()
                .unwrap()
                .expect("receiver side id");
            receiver_c.rx_packed_from_side(bytes, side)
        },
        max_frame_bytes,
    );
    let rx_side = receiver.add_side_packed_with_options(
        "fixed-link",
        |_bytes| Ok(()),
        RouterSideOptions {
            header_template_enabled: true,
            max_frame_bytes,
            ..RouterSideOptions::default()
        },
    );
    *receiver_side_id.lock().unwrap() = Some(rx_side);

    let payload = vec![b'X'; 180];
    let pkt = Packet::new(
        DataType::TelemetryError,
        &[DataEndpoint::named("SD_CARD")],
        "CHUNK_SRC",
        55,
        Arc::<[u8]>::from(payload),
    )
    .unwrap()
    .with_nonce(21);

    sender.tx(pkt).unwrap();

    assert_eq!(delivered.load(Ordering::SeqCst), 1);
    assert!(chunk_count.load(Ordering::SeqCst) > 1);
    assert!(max_seen.load(Ordering::SeqCst) <= max_frame_bytes);
}

#[test]
fn dedupe_tests_relay_deduplicates_identical_frames_per_side() {
    ensure_common_test_schema();
    let relay = Relay::new(dedupe_zero_clock());

    let tx_count_b = Arc::new(AtomicUsize::new(0));
    let tx_count_c = Arc::new(AtomicUsize::new(0));

    let tx_b_c = tx_count_b.clone();
    let tx_b = move |bytes: &[u8]| -> TelemetryResult<()> {
        assert!(!bytes.is_empty());
        if packed_frame_type(bytes) == Some(dedupe_best_effort_type()) {
            tx_b_c.fetch_add(1, Ordering::SeqCst);
        }
        Ok(())
    };

    let tx_c_c = tx_count_c.clone();
    let tx_c = move |bytes: &[u8]| -> TelemetryResult<()> {
        assert!(!bytes.is_empty());
        if packed_frame_type(bytes) == Some(dedupe_best_effort_type()) {
            tx_c_c.fetch_add(1, Ordering::SeqCst);
        }
        Ok(())
    };

    let id_src = relay.add_side_packed("SRC", |_b| Ok(()));
    let side_b = relay.add_side_packed("B", tx_b);
    let side_c = relay.add_side_packed("C", tx_c);
    relay
        .set_source_route_mode(Some(id_src), RouteSelectionMode::Fanout)
        .unwrap();
    dedupe_advertise_side(&relay, side_b, "SIDE_B");
    dedupe_advertise_side(&relay, side_c, "SIDE_C");
    relay.process_all_queues_with_timeout(0).unwrap();

    let frame = dedupe_wire_for_value(1);

    for _ in 0..5 {
        relay
            .rx_packed_from_side(id_src, frame.as_ref())
            .expect("rx_packed_from_side failed");
    }

    relay
        .process_all_queues_with_timeout(0)
        .expect("process_all_queues_with_timeout failed");

    let forwarded_b = tx_count_b.load(Ordering::SeqCst);
    let forwarded_c = tx_count_c.load(Ordering::SeqCst);
    assert_eq!(
        forwarded_b + forwarded_c,
        2,
        "deduplicated ingress should emit exactly one application frame per selected side"
    );
    assert_eq!(forwarded_b, 1);
    assert_eq!(forwarded_c, 1);
}

#[test]
fn dedupe_tests_relay_dedup_persists_across_time_advance() {
    let now_ms = Arc::new(AtomicU64::new(0));
    let clock_now = now_ms.clone();
    let clock: Box<dyn Clock + Send + Sync> = Box::new(move || clock_now.load(Ordering::SeqCst));
    let relay = Relay::new(clock);

    let tx_count = Arc::new(AtomicUsize::new(0));
    let txc = tx_count.clone();

    let id_src = relay.add_side_packed("SRC", |_b| Ok(()));
    let dst = relay.add_side_packed("DST", move |bytes: &[u8]| -> TelemetryResult<()> {
        assert!(!bytes.is_empty());
        if packed_frame_type(bytes) == Some(dedupe_best_effort_type()) {
            txc.fetch_add(1, Ordering::SeqCst);
        }
        Ok(())
    });
    dedupe_advertise_side(&relay, dst, "DST_SIDE");
    relay.process_all_queues_with_timeout(0).unwrap();

    let frame = dedupe_wire_for_value(1);

    relay
        .rx_packed_from_side(id_src, frame.as_ref())
        .expect("first rx_packed_from_side failed");
    relay
        .process_all_queues_with_timeout(0)
        .expect("first drain failed");

    now_ms.store(1_000, Ordering::SeqCst);

    relay
        .rx_packed_from_side(id_src, frame.as_ref())
        .expect("second rx_packed_from_side failed");
    relay
        .process_all_queues_with_timeout(0)
        .expect("second drain failed");

    assert_eq!(
        tx_count.load(Ordering::SeqCst),
        1,
        "identical frame from same side should still be deduped after time advance"
    );
}

#[test]
fn dedupe_tests_relay_does_not_dedupe_different_frames_from_same_side() {
    let relay = Relay::new(dedupe_zero_clock());

    let tx_count = Arc::new(AtomicUsize::new(0));
    let txc = tx_count.clone();

    let id_src = relay.add_side_packed("SRC", |_b| Ok(()));
    let dst = relay.add_side_packed("DST", move |bytes: &[u8]| -> TelemetryResult<()> {
        assert!(!bytes.is_empty());
        if packed_frame_type(bytes) == Some(dedupe_best_effort_type()) {
            txc.fetch_add(1, Ordering::SeqCst);
        }
        Ok(())
    });
    dedupe_advertise_side(&relay, dst, "DST_SIDE");
    relay.process_all_queues_with_timeout(0).unwrap();

    let frame_a = dedupe_wire_for_value(1);
    let frame_b = dedupe_wire_for_value(2);

    relay
        .rx_packed_from_side(id_src, frame_a.as_ref())
        .expect("rx_packed_from_side A failed");
    relay
        .rx_packed_from_side(id_src, frame_b.as_ref())
        .expect("rx_packed_from_side B failed");

    relay
        .process_all_queues_with_timeout(0)
        .expect("drain failed");

    assert_eq!(
        tx_count.load(Ordering::SeqCst),
        2,
        "relay must not dedupe different frames from the same side"
    );
}

fn failure_pick_any_type() -> DataType {
    for i in 0..=MAX_VALUE_DATA_TYPE {
        if let Some(ty) = DataType::try_from_u32(i) {
            return ty;
        }
    }
    panic!("No usable DataType found for tests");
}

fn failure_payload_for(ty: DataType) -> Vec<u8> {
    vec![0u8; test_payload_len_for(ty)]
}

#[test]
fn handler_failure_tests_local_handler_failure_sends_error_packet_to_other_locals() {
    let ty = failure_pick_any_type();
    let ts = 42_u64;
    let failing_ep = DataEndpoint::named("SD_CARD");
    let other_ep = DataEndpoint::TelemetryError;
    let recv_count = Arc::new(AtomicUsize::new(0));
    let last_payload = Arc::new(Mutex::new(String::new()));

    let recv_count_c = recv_count.clone();
    let last_payload_c = last_payload.clone();

    let failing = EndpointHandler::new_packet_handler(failing_ep, |_pkt: &Packet| {
        Err(TelemetryError::BadArg)
    });

    let capturing = EndpointHandler::new_packet_handler(other_ep, move |pkt: &Packet| {
        if pkt.data_type() == DataType::TelemetryError {
            *last_payload_c.lock().unwrap() = pkt.as_string();
        }
        recv_count_c.fetch_add(1, Ordering::SeqCst);
        Ok(())
    });

    let box_clock = StepClock::new_default_box();

    let router = Router::new_with_clock(RouterConfig::new(vec![failing, capturing]), box_clock);

    let pkt = Packet::new(
        ty,
        &[failing_ep, other_ep],
        device_identifier(),
        ts,
        Arc::<[u8]>::from(failure_payload_for(ty)),
    )
    .unwrap();

    handle_errors(router.tx(pkt));
    assert!(
        recv_count.load(Ordering::SeqCst) >= 1,
        "capturing handler should have been invoked at least once"
    );
    let expected = format!(
        "{{Type: SEDSNET_ERROR, Data Size: {:?}, Sender: TEST_PLATFORM, Endpoints: [SEDSNET_ERROR], Timestamp: 0 (0s 000ms), Error: (\"Handler for endpoint {:?} failed on device {:?}: {:?}\")}}",
        69,
        failing_ep,
        device_identifier(),
        TelemetryError::BadArg
    );
    let got = last_payload.lock().unwrap().clone();
    assert_eq!(got, expected, "mismatch in TelemetryError payload text");
}

#[test]
fn handler_failure_tests_tx_failure_sends_error_packet_to_all_local_endpoints() {
    let ty = failure_pick_any_type();
    let ts = 31415_u64;
    let local_ep = DataEndpoint::named("SD_CARD");
    let remote_ep = DataEndpoint::named("RADIO");

    let saw_error = Arc::new(AtomicUsize::new(0));
    let last_payload = Arc::new(Mutex::new(String::new()));
    let saw_error_c = saw_error.clone();
    let last_payload_c = last_payload.clone();

    let capturing = EndpointHandler::new_packet_handler(local_ep, move |pkt: &Packet| {
        if pkt.data_type() == DataType::TelemetryError {
            *last_payload_c.lock().unwrap() = pkt.as_string();
            saw_error_c.fetch_add(1, Ordering::SeqCst);
        }
        Ok(())
    });

    let tx_fail = |_bytes: &[u8]| -> TelemetryResult<()> { Err(TelemetryError::Io("boom")) };
    let box_clock = StepClock::new_default_box();

    let router = Router::new_with_clock(RouterConfig::new(vec![capturing]), box_clock);
    router.add_side_packed("tx", tx_fail);

    let pkt = Packet::new(
        ty,
        &[local_ep, remote_ep],
        "router_test",
        ts,
        Arc::<[u8]>::from(failure_payload_for(ty)),
    )
    .unwrap();

    handle_errors(router.tx(pkt));

    assert!(
        saw_error.load(Ordering::SeqCst) >= 1,
        "local handler should have received TelemetryError after TX failures"
    );
    let expected = format!(
        "{{Type: SEDSNET_ERROR, Data Size: {:?}, Sender: TEST_PLATFORM, Endpoints: [SD_CARD], Timestamp: 0 (0s 000ms), Error: (\"TX Handler failed on device {:?}: {:?}\")}}",
        55,
        device_identifier(),
        TelemetryError::Io("boom")
    );
    let got = last_payload.lock().unwrap().clone();
    assert_eq!(got, expected, "mismatch in TelemetryError payload text");
}

#[test]
fn remote_only_tx_failure_is_bounded_and_not_reported_over_failed_side() {
    let attempts = Arc::new(AtomicUsize::new(0));
    let attempts_c = attempts.clone();
    let router = Router::new_with_clock(RouterConfig::default(), StepClock::new_default_box());
    router.add_side_packed("failed", move |_bytes: &[u8]| {
        attempts_c.fetch_add(1, Ordering::SeqCst);
        Err(TelemetryError::Io("transport unavailable"))
    });

    let ty = failure_pick_any_type();
    let packet = Packet::new(
        ty,
        &[DataEndpoint::named("RADIO")],
        "isolated_board",
        0,
        Arc::<[u8]>::from(failure_payload_for(ty)),
    )
    .unwrap();

    assert!(router.tx(packet).is_err());
    assert_eq!(
        attempts.load(Ordering::SeqCst),
        MAX_HANDLER_RETRIES,
        "a failed transport must not recursively transmit its own error report"
    );
}

#[test]
fn mod_recent_rx_cache_preallocates_and_reserves_shared_budget() {

    let router = Router::new(RouterConfig::default());
    let (capacity, max_bytes) = router.debug_recent_rx_capacity();

    assert_eq!(max_bytes, RECENT_RX_QUEUE_BYTES.max(1));
    assert_eq!(
        capacity,
        (RECENT_RX_QUEUE_BYTES.max(1) / size_of::<u64>()).max(1)
    );
    assert!(capacity <= MAX_RECENT_RX_IDS.max(1));
    assert!(
        router.debug_shared_queue_bytes_used() <= MAX_QUEUE_BUDGET,
        "reserved recent ID memory must fit inside the shared queue budget"
    );
    assert!(
        router.debug_shared_queue_bytes_used() >= max_bytes,
        "recent ID reservation should count against the shared queue budget immediately"
    );
}

#[test]
fn mod_router_sender_id_can_be_updated_at_runtime_for_emitted_packets() {

    let seen = Arc::new(Mutex::new(Vec::new()));
    let seen_c = seen.clone();
    let router = Router::new(RouterConfig::default().with_sender("OLD_SENDER"));
    router.add_side_packet("tx", move |pkt: &Packet| {
        seen_c.lock().unwrap().push(pkt.sender().to_string());
        Ok(())
    });

    router.set_sender("NEW_SENDER");
    assert_eq!(router.sender().as_ref(), "NEW_SENDER");

    router.announce_discovery().unwrap();
    router.process_tx_queue().unwrap();

    assert!(
        seen.lock()
            .unwrap()
            .iter()
            .any(|sender| sender == "NEW_SENDER")
    );
}

#[test]
fn mod_runtime_sender_id_updates_are_reflected_in_topology_exports() {

    let router = Router::new(RouterConfig::default().with_sender("ROUTER_OLD"));
    router.set_sender("ROUTER_NEW");
    let router_topology = router.export_topology();
    assert!(
        router_topology
            .routers
            .iter()
            .any(|board| board.sender_id == "ROUTER_NEW")
    );

    let relay = Relay::new(Box::new(StepClock::new(0, 0)));
    relay.set_sender("RELAY_NEW");
    let relay_topology = relay.export_topology();
    assert!(
        relay_topology
            .routers
            .iter()
            .any(|board| board.sender_id == "RELAY_NEW")
    );
}

#[test]
fn mod_helpers_packet_hex_to_string() {
    let pkt = fake_telemetry_packet_bytes();
    let got = pkt.to_hex_string();
    let expect = "Type: GPS_DATA, Data Size: 12, Sender: TEST_PLATFORM, Endpoints: [SD_CARD, RADIO], Timestamp: 1123581321 (312h 06m 21s 321ms), Data (hex): 0x00 0x00 0x98 0x41 0x00 0x00 0x04 0x42 0x00 0x00 0x50 0x42";
    assert_eq!(got, expect);
}

#[test]
fn router_and_relay_side_churn_reclaims_names_and_reuses_slots() {
    let router = Router::new(RouterConfig::default());
    let relay = Relay::new(StepClock::new_default_box());
    let mut router_capacity = None;
    let mut relay_capacity = None;

    for index in 0..256 {
        let router_side = router.add_side_packed(format!("router-side-{index}"), |_| Ok(()));
        assert_eq!(router_side, 0);
        router.remove_side(router_side).unwrap();
        let router_storage = router.debug_side_storage();
        assert_eq!(router_storage.0, 0);
        if let Some(capacity) = router_capacity {
            assert_eq!(router_storage.1, capacity);
        } else {
            router_capacity = Some(router_storage.1);
        }

        let relay_side = relay.add_side_packed(format!("relay-side-{index}"), |_| Ok(()));
        assert_eq!(relay_side, 0);
        relay.remove_side(relay_side).unwrap();
        let relay_storage = relay.debug_side_storage();
        assert_eq!(relay_storage.0, 0);
        if let Some(capacity) = relay_capacity {
            assert_eq!(relay_storage.1, capacity);
        } else {
            relay_capacity = Some(relay_storage.1);
        }
    }

    assert!(router_capacity.is_some_and(|capacity| capacity > 0 && capacity <= 4));
    assert!(relay_capacity.is_some_and(|capacity| capacity > 0 && capacity <= 4));
}

#[test]
fn scheduler_reserves_discovery_and_shared_state_priority_bands() {
    let discovery = scheduler_priority(DataType::DiscoveryAddress);
    let schema = scheduler_priority(DataType::DiscoverySchema);
    let managed = scheduler_priority(DataType::ManagedVariableValue);
    let timesync = scheduler_priority(DataType::TimeSyncAnnounce);
    let user = scheduler_priority(DataType::P2pMessage);

    assert_eq!(discovery, 255);
    assert_eq!(schema, managed);
    assert_eq!(managed, timesync);
    assert!(discovery > managed);
    assert!(managed > user);
}

fn relaying_zero_clock() -> Box<dyn Clock + Send + Sync> {
    Box::new(|| 0u64)
}

fn relaying_advertise_side(relay: &Relay, side: usize) {
    let pkt = build_discovery_announce("DST_SIDE", 0, &[DataEndpoint::named("SD_CARD")]).unwrap();
    relay.rx_from_side(side, pkt).unwrap();
}

#[test]
fn relay_reliable_tests_relay_reliable_seq_advances_with_ack() {
    let relay = Arc::new(Relay::new(relaying_zero_clock()));

    relay.add_side_packed_with_options(
        "SRC",
        |_b| Ok(()),
        RelaySideOptions {
            reliable_enabled: true,
            link_local_enabled: false,
            ..RelaySideOptions::default()
        },
    );

    let sent: Arc<Mutex<Vec<Vec<u8>>>> = Arc::new(Mutex::new(Vec::new()));
    let sent_c = sent.clone();
    let relay_c = relay.clone();
    let dst = relay.add_side_packed_with_options(
        "DST",
        move |bytes: &[u8]| -> TelemetryResult<()> {
            sent_c.lock().unwrap().push(bytes.to_vec());

            let frame = peek_frame_info(bytes)?;
            if let Some(hdr) = frame.reliable {
                let ack_bytes =
                    pack_reliable_ack("DST", frame.envelope.ty, 0, hdr.seq);
                relay_c.rx_packed_from_side(1, ack_bytes.as_ref())?;
            }
            Ok(())
        },
        RelaySideOptions {
            reliable_enabled: true,
            link_local_enabled: false,
            ..RelaySideOptions::default()
        },
    );
    relaying_advertise_side(&relay, dst);
    relay.process_all_queues_with_timeout(0).unwrap();

    let pkt1 = Packet::from_f32_slice(
        DataType::named("GPS_DATA"),
        &[1.0_f32, 2.0, 3.0],
        &[DataEndpoint::named("SD_CARD")],
        0,
    )
    .unwrap();
    let pkt2 = Packet::from_f32_slice(
        DataType::named("GPS_DATA"),
        &[4.0_f32, 5.0, 6.0],
        &[DataEndpoint::named("SD_CARD")],
        0,
    )
    .unwrap();

    relay.rx_from_side(0, pkt1).unwrap();
    relay.rx_from_side(0, pkt2).unwrap();
    relay.process_all_queues_with_timeout(0).unwrap();
    relay.process_all_queues_with_timeout(0).unwrap();

    let sent = sent.lock().unwrap();
    let gps_sent: Vec<_> = sent
        .iter()
        .filter(|bytes| packed_frame_type(bytes.as_slice()) == Some(DataType::named("GPS_DATA")))
        .collect();
    assert!(
        gps_sent.len() >= 2,
        "expected at least 2 forwarded GPS frames"
    );

    let f1 = peek_frame_info(gps_sent[0]).unwrap();
    let f2 = peek_frame_info(gps_sent[1]).unwrap();
    let h1 = f1.reliable.expect("frame 1 missing reliable header");
    let h2 = f2.reliable.expect("frame 2 missing reliable header");
    assert_eq!(h1.seq, 1);
    assert_eq!(h2.seq, 2);
    assert_eq!(h1.flags & RELIABLE_FLAG_UNSEQUENCED, 0);
    assert_eq!(h2.flags & RELIABLE_FLAG_UNSEQUENCED, 0);
}

#[test]
fn relay_reliable_tests_relay_reliable_retransmit_across_chain_preserves_order() {
    ensure_common_test_schema();
    let reliable_ty = {
        let radio = DataEndpoint::named("RADIO");
        let sd_card = DataEndpoint::named("SD_CARD");
        DataType::try_named("RELAY_CHAIN_RELIABLE_DATA").unwrap_or_else(|| {
            register_data_type_with_description(
                "RELAY_CHAIN_RELIABLE_DATA",
                "ordered reliable relay-chain regression test type",
                MessageElement::Static(3, MessageDataType::Float32, MessageClass::Data),
                &[radio, sd_card],
                ReliableMode::Ordered,
                1,
            )
            .expect("register RELAY_CHAIN_RELIABLE_DATA")
        })
    };
    let relay1 = Arc::new(Relay::new(StepClock::new_box(
        0,
        RELIABLE_RETRANSMIT_MS + 1,
    )));
    let relay2 = Arc::new(Relay::new(relaying_zero_clock()));

    relay1.add_side_packed_with_options(
        "SRC",
        |_b| Ok(()),
        RelaySideOptions {
            reliable_enabled: true,
            link_local_enabled: false,
            ..RelaySideOptions::default()
        },
    );
    let drop_first = Arc::new(Mutex::new(true));
    let drop_first_c = drop_first.clone();
    let relay2_rx = relay2.clone();
    let link_sent: Arc<Mutex<Vec<u32>>> = Arc::new(Mutex::new(Vec::new()));
    let link_sent_c = link_sent.clone();
    let relay1_mid = relay1.add_side_packed_with_options(
        "MID",
        move |bytes: &[u8]| -> TelemetryResult<()> {
            let frame = peek_frame_info(bytes)?;
            if let Some(hdr) = frame.reliable.filter(|hdr| (hdr.flags & RELIABLE_FLAG_ACK_ONLY) == 0 && frame.envelope.ty == reliable_ty) {
                link_sent_c.lock().unwrap().push(hdr.seq);
                if hdr.seq == 1 && *drop_first_c.lock().unwrap() {
                    *drop_first_c.lock().unwrap() = false;
                    return Ok(());
                }
            }
            relay2_rx.rx_packed_from_side(0, bytes)
        },
        RelaySideOptions {
            reliable_enabled: true,
            link_local_enabled: false,
            ..RelaySideOptions::default()
        },
    );
    let relay1_rx = relay1.clone();
    let _relay2_mid = relay2.add_side_packed_with_options(
        "MID",
        move |bytes: &[u8]| -> TelemetryResult<()> { relay1_rx.rx_packed_from_side(1, bytes) },
        RelaySideOptions {
            reliable_enabled: true,
            link_local_enabled: false,
            ..RelaySideOptions::default()
        },
    );
    let delivered: Arc<Mutex<Vec<u32>>> = Arc::new(Mutex::new(Vec::new()));
    let delivered_c = delivered.clone();
    let relay2_for_ack = relay2.clone();
    let relay1_for_ack = relay1.clone();
    let relay2_dst_id: Arc<Mutex<Option<usize>>> = Arc::new(Mutex::new(None));
    let relay2_dst_id_c = relay2_dst_id.clone();
    let relay2_dst = relay2.add_side_packed_with_options(
        "DST",
        move |bytes: &[u8]| -> TelemetryResult<()> {
            let frame = peek_frame_info(bytes)?;
            if let Some(hdr) = frame.reliable.filter(|hdr| (hdr.flags & RELIABLE_FLAG_ACK_ONLY) == 0) {
                delivered_c.lock().unwrap().push(hdr.seq);
                let ack_bytes =
                    pack_reliable_ack("DST", frame.envelope.ty, 0, hdr.seq);
                if let Some(dst_id) = *relay2_dst_id_c.lock().unwrap() {
                    relay2_for_ack.rx_packed_from_side(dst_id, ack_bytes.as_ref())?;
                }
                relay1_for_ack.rx_packed_from_side(relay1_mid, ack_bytes.as_ref())?;
            }
            Ok(())
        },
        RelaySideOptions {
            reliable_enabled: true,
            link_local_enabled: false,
            ..RelaySideOptions::default()
        },
    );
    *relay2_dst_id.lock().unwrap() = Some(relay2_dst);

    let pkt1 = Packet::from_f32_slice(
        reliable_ty,
        &[1.0_f32, 2.0, 3.0],
        &[DataEndpoint::named("SD_CARD"), DataEndpoint::named("RADIO")],
        0,
    )
    .unwrap();
    let pkt2 = Packet::from_f32_slice(
        reliable_ty,
        &[4.0_f32, 5.0, 6.0],
        &[DataEndpoint::named("SD_CARD"), DataEndpoint::named("RADIO")],
        0,
    )
    .unwrap();

    relay1.rx_from_side(0, pkt1).unwrap();
    relay1.rx_from_side(0, pkt2).unwrap();

    for _ in 0..10 {
        relay1.process_all_queues_with_timeout(0).unwrap();
        relay2.process_all_queues_with_timeout(0).unwrap();
        if delivered.lock().unwrap().len() >= 2 {
            break;
        }
    }

    let delivered = delivered.lock().unwrap().clone();
    let mut first_seen = Vec::new();
    for seq in delivered {
        if !first_seen.contains(&seq) {
            first_seen.push(seq);
        }
    }
    assert!(
        first_seen.as_slice().starts_with(&[1, 2]),
        "destination must observe the ordered sequence before any later retransmits: {first_seen:?}"
    );

    let link_sent = link_sent.lock().unwrap().clone();
    let seq1_count = link_sent.iter().filter(|&&s| s == 1).count();
    assert!(
        seq1_count >= 2,
        "expected seq1 to be retransmitted across the relay chain"
    );
}

#[test]
fn relay_reliable_tests_relay_reliable_reorders_out_of_order_frames() {
    let relay = Arc::new(Relay::new(relaying_zero_clock()));

    relay.add_side_packed_with_options(
        "SRC",
        |_b| Ok(()),
        RelaySideOptions {
            reliable_enabled: true,
            link_local_enabled: false,
            ..RelaySideOptions::default()
        },
    );

    let delivered: Arc<Mutex<Vec<u32>>> = Arc::new(Mutex::new(Vec::new()));
    let delivered_c = delivered.clone();
    let relay_for_ack = relay.clone();
    let dst = relay.add_side_packed_with_options(
        "DST",
        move |bytes: &[u8]| -> TelemetryResult<()> {
            let frame = peek_frame_info(bytes)?;
            if let Some(hdr) = frame.reliable.filter(|hdr| frame.envelope.ty == DataType::named("GPS_DATA") && (hdr.flags & RELIABLE_FLAG_ACK_ONLY) == 0) {
                delivered_c.lock().unwrap().push(hdr.seq);
                let ack_bytes =
                    pack_reliable_ack("DST", frame.envelope.ty, 0, hdr.seq);
                relay_for_ack.rx_packed_from_side(1, ack_bytes.as_ref())?;
            }
            Ok(())
        },
        RelaySideOptions {
            reliable_enabled: true,
            link_local_enabled: false,
            ..RelaySideOptions::default()
        },
    );
    relaying_advertise_side(&relay, dst);
    relay.process_all_queues_with_timeout(0).unwrap();

    let pkt1 = Packet::from_f32_slice(
        DataType::named("GPS_DATA"),
        &[1.0_f32, 2.0, 3.0],
        &[DataEndpoint::named("SD_CARD")],
        0,
    )
    .unwrap();
    let pkt2 = Packet::from_f32_slice(
        DataType::named("GPS_DATA"),
        &[4.0_f32, 5.0, 6.0],
        &[DataEndpoint::named("SD_CARD")],
        0,
    )
    .unwrap();

    let seq1 = pack_packet_with_reliable(
        &pkt1,
        ReliableHeader {
            flags: 0,
            seq: 1,
            ack: 0,
        },
    );
    let seq2 = pack_packet_with_reliable(
        &pkt2,
        ReliableHeader {
            flags: 0,
            seq: 2,
            ack: 0,
        },
    );
    relay.rx_packed_from_side(0, seq2.as_ref()).unwrap();
    relay.rx_packed_from_side(0, seq1.as_ref()).unwrap();
    relay.rx_packed_from_side(0, seq2.as_ref()).unwrap();

    relay.process_all_queues_with_timeout(0).unwrap();

    let delivered = delivered.lock().unwrap().clone();
    assert_eq!(
        delivered,
        vec![1, 2],
        "out-of-order frames must be reordered"
    );
}

#[test]
fn relay_reliable_tests_relay_reliable_sender_does_not_block_while_waiting_for_ack() {
    let relay = Arc::new(Relay::new(relaying_zero_clock()));

    relay.add_side_packed_with_options(
        "SRC",
        |_b| Ok(()),
        RelaySideOptions {
            reliable_enabled: true,
            link_local_enabled: false,
            ..RelaySideOptions::default()
        },
    );

    let sent: Arc<Mutex<Vec<u32>>> = Arc::new(Mutex::new(Vec::new()));
    let sent_c = sent.clone();
    relay.add_side_packed_with_options(
        "DST",
        move |bytes: &[u8]| -> TelemetryResult<()> {
            let frame = peek_frame_info(bytes)?;
            if let Some(hdr) = frame.reliable.filter(|hdr| frame.envelope.ty == DataType::named("GPS_DATA")) {
                sent_c.lock().unwrap().push(hdr.seq);
            }
            Ok(())
        },
        RelaySideOptions {
            reliable_enabled: true,
            link_local_enabled: false,
            ..RelaySideOptions::default()
        },
    );

    let pkt1 = Packet::from_f32_slice(
        DataType::named("GPS_DATA"),
        &[1.0_f32, 2.0, 3.0],
        &[DataEndpoint::named("SD_CARD")],
        0,
    )
    .unwrap();
    let pkt2 = Packet::from_f32_slice(
        DataType::named("GPS_DATA"),
        &[4.0_f32, 5.0, 6.0],
        &[DataEndpoint::named("SD_CARD")],
        1,
    )
    .unwrap();

    relay.rx_from_side(0, pkt1).unwrap();
    relay.rx_from_side(0, pkt2).unwrap();
    relay.process_all_queues_with_timeout(0).unwrap();

    assert_eq!(*sent.lock().unwrap(), vec![1, 2]);
}

fn ack_check_ack_return_identity(original_sender: &str) {
    ensure_common_test_schema();
    let router = Router::new_with_clock(
        RouterConfig::new([])
            .with_sender("GS")
            .with_reliable_enabled(true),
        Box::new(|| 0u64),
    );
    let sent = Arc::new(std::sync::Mutex::new(Vec::<Vec<u8>>::new()));
    let output = sent.clone();
    let side = router.add_side_packed_with_options(
        "CAN",
        move |bytes| {
            output.lock().unwrap().push(bytes.to_vec());
            Ok(())
        },
        RouterSideOptions::default(),
    );
    let endpoint = DataEndpoint::named("RADIO");
    router
        .rx_from_side(
            &build_discovery_announce("AB", 0, &[endpoint]).unwrap(),
            side,
        )
        .unwrap();
    router.process_all_queues().unwrap();
    sent.lock().unwrap().clear();
    let packet = Packet::new(
        DataType::named("GPS_DATA"),
        &[endpoint],
        original_sender,
        1,
        Arc::<[u8]>::from([0u8; 12]),
    )
    .unwrap();
    router.note_reliable_return_route(side, packet.packet_id());
    router.queue_end_to_end_reliable_ack(&packet, true).unwrap();
    for index in 0..runtime_reliable_max_return_routes().max(1) {
        router.note_reliable_return_route(side, packet.packet_id().wrapping_add(index as u64 + 1));
    }
    assert!(
        !router.has_return_route(packet.packet_id())
    );
    router.process_all_queues().unwrap();
    let frames = sent.lock().unwrap();
    let acks: Vec<_> = frames
        .iter()
        .filter_map(|bytes| unpack_packet(bytes).ok())
        .filter(Router::is_end_to_end_ack_packet)
        .collect();
    assert_eq!(
        acks.len(),
        1,
        "ACK must return to AB even after its per-packet return route is evicted"
    );
    assert_eq!(
        Router::end_to_end_ack_sender_hash(&acks[0]),
        Some(Router::sender_hash("GS"))
    );
    assert_eq!(
        acks[0].wire_target_senders().get(1),
        Some(&Router::sender_hash("AB"))
    );
}

#[test]
fn discovery_refresh_survives_a_missed_transport_template() {
    ensure_common_test_schema();
    let tx = Router::new(RouterConfig::default());
    let rx = Router::new(RouterConfig::default());
    let opts = RouterSideOptions::default().with_small_packet_transport(512);
    let tx_side = tx.add_side_packed_with_options("can", |_| Ok(()), opts);
    let rx_side = rx.add_side_packed_with_options("can", |_| Ok(()), opts);
    for timestamp in [1000, 6000] {
        let packet = build_discovery_announce("GB", timestamp, &[]).unwrap();
        let frames = tx.encode_side_transport_frames(
            tx_side, opts, pack_packet(&packet)).unwrap();
        if timestamp == 1000 { continue; }
        let decoded = rx.decode_side_transport_frame(rx_side, &frames[0]).unwrap();
        assert!(decoded.is_some(), "discovery must bootstrap without a dictionary");
    }
}

#[test]
fn compact_loss_must_not_change_packet_identity() {
    ensure_common_test_schema();
    let tx = Router::new_with_clock(RouterConfig::new([]).with_sender("VB"), Box::new(|| 0u64));
    let rx = Router::new_with_clock(RouterConfig::new([]).with_sender("GS"), Box::new(|| 0u64));
    let opts = RouterSideOptions::default().with_small_packet_transport(0);
    let a = tx.add_side_packed_with_options("wire", |_| Ok(()), opts);
    let b = rx.add_side_packed_with_options("wire", |_| Ok(()), opts);
    for (index, timestamp) in [10000, 10010, 10020].into_iter().enumerate() {
        let pkt = Packet::new(
            DataType::named("GPS_DATA"),
            &[DataEndpoint::named("RADIO")],
            "VB",
            timestamp,
            Arc::<[u8]>::from([0u8; 12]),
        )
        .unwrap();
        let raw = pack_packet(&pkt);
        let frames = tx
            .encode_side_transport_frames(a, opts, raw.clone())
            .unwrap();
        assert_eq!(frames.len(), 1);
        if index == 1 {
            continue;
        }
        let received = rx
            .decode_side_transport_frame(b, &frames[0])
            .unwrap()
            .unwrap();
        assert_eq!(
            unpack_packet(&received).unwrap().timestamp(),
            timestamp
        );
        assert_eq!(
            received, raw,
            "loss must not silently rewrite a later packet"
        );
    }
}

#[test]
fn generated_ack_keeps_original_sender_after_return_cache_eviction() {
    ack_check_ack_return_identity("AB");
}

#[test]
fn compact_sender_ack_returns_after_cache_eviction() {
    ack_check_ack_return_identity(&format!("@addr:{}", sender_address_u32("AB")));
}

#[test]
fn lost_chunk_cannot_poison_later_frames_from_same_router() {
    ensure_common_test_schema();
    let rf = Router::new_with_clock(RouterConfig::new([]).with_sender("RF"), Box::new(|| 0));
    let fc = Router::new_with_clock(RouterConfig::new([]).with_sender("FC"), Box::new(|| 0));
    let side = fc.add_side_packed_with_options("CAN", |_| Ok(()), RouterSideOptions::default());
    let first = Router::wrap_side_transport_frame(SIDE_TRANSPORT_KIND_FULL, &[1; 180]);
    let second = Router::wrap_side_transport_frame(SIDE_TRANSPORT_KIND_FULL, &[2; 180]);
    assert_eq!(Router::crc32_bytes(&first), Router::crc32_bytes(&second));
    let a = rf.split_side_transport_frame(0, first, 128).unwrap();
    let b = rf.split_side_transport_frame(0, second, 128).unwrap();
    assert_ne!(
        &a[0][4..8],
        &b[0][4..8],
        "different packets need different transfer IDs"
    );
    assert!(
        fc.decode_side_transport_frame(side, &a[0])
            .unwrap()
            .is_none()
    );
    let mut result = None;
    for frame in b {
        result = fc.decode_side_transport_frame(side, &frame).unwrap();
    }
    assert_eq!(result.unwrap().as_ref(), &[2; 180]);
}

#[test]
fn incomplete_side_transfers_stay_bounded_under_repeated_loss() {
    ensure_common_test_schema();
    let router = Router::new_with_clock(RouterConfig::new([]).with_sender("RF"), Box::new(|| 0));
    let side = router.add_side_packed_with_options("CAN", |_| Ok(()), RouterSideOptions::default());
    for i in 0..1000u32 {
        let mut data = vec![0; 180];
        data[..4].copy_from_slice(&i.to_le_bytes());
        let frame = Router::wrap_side_transport_frame(SIDE_TRANSPORT_KIND_FULL, &data);
        let chunks = router.split_side_transport_frame(side, frame, 128).unwrap();
        assert!(
            router
                .decode_side_transport_frame(side, &chunks[0])
                .unwrap()
                .is_none()
        );
        assert!(router.waiting_transfers(side) <= 4);
    }
}

#[test]
fn p2p_address_tests_p2p_service_port_delivers_http_like_payload_by_hostname_and_address() {
    let server_seen = Arc::new(Mutex::new(Vec::<Vec<u8>>::new()));
    let server_seen_c = server_seen.clone();

    let client = Arc::new(Router::new(
        RouterConfig::default()
            .with_hostname("client-node")
            .with_dynamic_address(),
    ));
    let server = Arc::new(Router::new(
        RouterConfig::default()
            .with_hostname("http-service")
            .with_static_address(0x1020_3040),
    ));
    server
        .bind_p2p_port(80, move |msg| -> TelemetryResult<()> {
            assert_eq!(msg.source_hostname, "client-node");
            assert_eq!(msg.source_port, 49_152);
            assert_eq!(msg.destination_port, 80);
            server_seen_c.lock().unwrap().push(msg.payload.to_vec());
            Ok(())
        })
        .unwrap();

    crosswire(&client, &server);
    exchange_discovery(&client, &server);

    client
        .send_p2p_to_hostname(
            "http-service",
            80,
            49_152,
            b"GET /status HTTP/1.1\r\nHost: http-service\r\n\r\n",
        )
        .unwrap();
    server.process_all_queues().unwrap();
    client.process_all_queues().unwrap();

    client
        .send_p2p_to_address(
            0x1020_3040,
            80,
            49_152,
            b"POST /upload HTTP/1.1\r\nContent-Length: 0\r\n\r\n",
        )
        .unwrap();
    server.process_all_queues().unwrap();
    client.process_all_queues().unwrap();

    let seen = server_seen.lock().unwrap().clone();
    assert_eq!(seen.len(), 2);
    assert!(seen[0].starts_with(b"GET /status HTTP/1.1"));
    assert!(seen[1].starts_with(b"POST /upload HTTP/1.1"));
}

#[test]
fn p2p_address_tests_duplicate_dynamic_addresses_are_shifted_and_reported() {
    let changes = Arc::new(Mutex::new(Vec::<AddressChange>::new()));
    let changes_c = changes.clone();
    let older = Arc::new(Router::new(
        RouterConfig::default()
            .with_hostname("older-dynamic")
            .with_requested_address(77),
    ));
    let newer = Arc::new(Router::new(
        RouterConfig::default()
            .with_hostname("newer-dynamic")
            .with_requested_address(77)
            .on_address_change(move |change| {
                changes_c.lock().unwrap().push(change);
                Ok(())
            }),
    ));
    crosswire(&older, &newer);
    exchange_discovery(&older, &newer);

    assert_eq!(older.current_address(), 77);
    assert_ne!(newer.current_address(), 77);
    let changes = changes.lock().unwrap().clone();
    assert_eq!(changes.len(), 1);
    assert_eq!(changes[0].reason, AddressChangeReason::RequestedConflict);
    assert_eq!(changes[0].old_address, 77);
    assert_eq!(changes[0].new_address, newer.current_address());
}

#[test]
fn p2p_address_tests_static_address_beats_dynamic_and_duplicate_static_older_wins() {
    let static_node = Arc::new(Router::new(
        RouterConfig::default()
            .with_hostname("static-owner")
            .with_static_address(0x55),
    ));
    let dynamic = Arc::new(Router::new(
        RouterConfig::default()
            .with_hostname("dynamic-loser")
            .with_requested_address(0x55),
    ));
    crosswire(&static_node, &dynamic);
    exchange_discovery(&static_node, &dynamic);
    assert_eq!(static_node.current_address(), 0x55);
    assert_ne!(dynamic.current_address(), 0x55);

    let static_changes = Arc::new(Mutex::new(Vec::<AddressChange>::new()));
    let static_changes_c = static_changes.clone();
    let newer_static = Arc::new(Router::new(
        RouterConfig::default()
            .with_hostname("static-newer")
            .with_static_address(0x55)
            .on_address_change(move |change| {
                static_changes_c.lock().unwrap().push(change);
                Ok(())
            }),
    ));
    crosswire(&static_node, &newer_static);
    exchange_discovery(&static_node, &newer_static);

    assert_eq!(static_node.current_address(), 0x55);
    assert_ne!(newer_static.current_address(), 0x55);
    let changes = static_changes.lock().unwrap().clone();
    assert_eq!(changes.len(), 1);
    assert_eq!(changes[0].reason, AddressChangeReason::StaticConflict);
}

#[test]
fn p2p_address_tests_duplicate_hostnames_are_renamed_and_hostname_p2p_uses_discovered_name() {
    let changes = Arc::new(Mutex::new(Vec::<AddressChange>::new()));
    let changes_c = changes.clone();
    let first = Arc::new(Router::new(
        RouterConfig::default()
            .with_hostname("duplicate-host")
            .with_static_address(0x301),
    ));
    let second_seen = Arc::new(Mutex::new(Vec::<Vec<u8>>::new()));
    let second_seen_c = second_seen.clone();
    let second = Arc::new(Router::new(
        RouterConfig::default()
            .with_hostname("duplicate-host")
            .with_static_address(0x302)
            .on_address_change(move |change| {
                changes_c.lock().unwrap().push(change);
                Ok(())
            }),
    ));
    second
        .bind_p2p_port(443, move |msg| {
            second_seen_c.lock().unwrap().push(msg.payload.to_vec());
            Ok(())
        })
        .unwrap();

    crosswire(&first, &second);
    exchange_discovery(&first, &second);

    assert_eq!(first.hostname().as_ref(), "duplicate-host");
    assert_ne!(second.hostname().as_ref(), "duplicate-host");
    let renamed = second.hostname().to_string();
    let changes = changes.lock().unwrap().clone();
    assert_eq!(changes.len(), 1);
    assert_eq!(changes[0].reason, AddressChangeReason::HostnameConflict);

    first
        .send_p2p_to_hostname(&renamed, 443, 50_000, b"GET /secure HTTP/1.1\r\n\r\n")
        .unwrap();
    second.process_all_queues().unwrap();
    first.process_all_queues().unwrap();
    assert_eq!(
        second_seen.lock().unwrap().as_slice(),
        &[b"GET /secure HTTP/1.1\r\n\r\n".to_vec()]
    );
}

#[test]
fn p2p_address_tests_p2p_stream_connects_sends_and_closes_without_datagram_delivery() {
    let client_events = Arc::new(Mutex::new(Vec::<String>::new()));
    let server_events = Arc::new(Mutex::new(Vec::<String>::new()));
    let datagrams = Arc::new(Mutex::new(Vec::<Vec<u8>>::new()));

    let client = Arc::new(Router::new(
        RouterConfig::default()
            .with_hostname("stream-client")
            .with_dynamic_address(),
    ));
    let server = Arc::new(Router::new(
        RouterConfig::default()
            .with_hostname("stream-server")
            .with_static_address(0x4040),
    ));

    let client_events_c = client_events.clone();
    client
        .bind_p2p_stream_port(49_200, move |event| {
            assert!(matches!(
                event.kind,
                P2pStreamEventKind::Connected
                    | P2pStreamEventKind::Data
                    | P2pStreamEventKind::Closed
                    | P2pStreamEventKind::Reset
            ));
            client_events_c.lock().unwrap().push(format!(
                "{:?}:{}:{}:{}:{}",
                event.kind,
                event.stream_id,
                event.peer_stream_id,
                event.sequence,
                String::from_utf8_lossy(event.payload)
            ));
            Ok(())
        })
        .unwrap();

    let server_events_c = server_events.clone();
    server
        .bind_p2p_stream_port(8080, move |event| {
            assert!(matches!(
                event.kind,
                P2pStreamEventKind::Accepted
                    | P2pStreamEventKind::Data
                    | P2pStreamEventKind::Closed
                    | P2pStreamEventKind::Reset
            ));
            server_events_c.lock().unwrap().push(format!(
                "{:?}:{}:{}:{}:{}",
                event.kind,
                event.stream_id,
                event.peer_stream_id,
                event.sequence,
                String::from_utf8_lossy(event.payload)
            ));
            Ok(())
        })
        .unwrap();

    let datagrams_c = datagrams.clone();
    server
        .bind_p2p_port(8080, move |msg| {
            datagrams_c.lock().unwrap().push(msg.payload.to_vec());
            Ok(())
        })
        .unwrap();

    crosswire(&client, &server);
    exchange_discovery(&client, &server);

    let client_stream = client
        .open_p2p_stream_to_hostname("stream-server", 8080, 49_200)
        .unwrap();
    server.process_all_queues().unwrap();
    client.process_all_queues().unwrap();

    let connected = client_events.lock().unwrap().clone();
    assert_eq!(connected.len(), 1);
    assert!(connected[0].starts_with("Connected:"));

    let accepted = server_events.lock().unwrap().clone();
    assert_eq!(accepted.len(), 1);
    assert!(accepted[0].starts_with("Accepted:"));
    let server_stream: u32 = accepted[0].split(':').nth(1).unwrap().parse().unwrap();

    client
        .send_p2p_stream(client_stream, b"GET /stream HTTP/1.1\r\n\r\n")
        .unwrap();
    server.process_all_queues().unwrap();
    client.process_all_queues().unwrap();

    server
        .send_p2p_stream(
            server_stream,
            b"HTTP/1.1 200 OK\r\nContent-Length: 2\r\n\r\nOK",
        )
        .unwrap();
    client.process_all_queues().unwrap();
    server.process_all_queues().unwrap();

    client.close_p2p_stream(client_stream).unwrap();
    server.process_all_queues().unwrap();

    let server_events = server_events.lock().unwrap().clone();
    assert!(
        server_events
            .iter()
            .any(|e| { e.starts_with("Data:") && e.ends_with("GET /stream HTTP/1.1\r\n\r\n") })
    );
    assert!(server_events.iter().any(|e| e.starts_with("Closed:")));

    let client_events = client_events.lock().unwrap().clone();
    assert!(client_events.iter().any(|e| {
        e.starts_with("Data:") && e.ends_with("HTTP/1.1 200 OK\r\nContent-Length: 2\r\n\r\nOK")
    }));

    assert!(datagrams.lock().unwrap().is_empty());
}

#[test]
fn concurrency_tests_router_is_send_and_sync() {
    fn assert_send_sync<T: Send + Sync>() {}
    assert_send_sync::<Router>();
}
