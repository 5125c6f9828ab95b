//! A small telemetry network: typed packets, a compact wire format, and the
//! routing state machines that carry packets between boards.
pub mod accord;
pub mod address;
pub mod assoc;
pub mod assurance;
pub mod brevity;
pub mod capacity;
pub mod chunks;
pub mod codec;
pub mod common;
pub mod compact;
pub mod conduct;
pub mod crc32;
pub mod definition;
pub mod delivery;
pub mod discovery;
pub mod duties;
pub mod e2e;
pub mod egress;
pub mod encounter;
pub mod endpoint_set;
pub mod error;
pub mod exchange;
pub mod fairness;
pub mod hash;
pub mod ingress;
pub mod inquiry;
pub mod intake;
pub mod jobs;
pub mod keeping;
pub mod knowledge;
pub mod ledger;
pub mod meeting;
pub mod meta;
pub mod neighbours;
pub mod notation;
pub mod overview;
pub mod p2p;
pub mod packet;
pub mod portrait;
pub mod presence;
pub mod pump;
pub mod queue;
pub mod receipt;
pub mod recent;
pub mod registry;
pub mod reliable;
pub mod report;
pub mod rle;
pub mod router;
pub mod routes;
pub mod schema;
pub mod station;
pub mod stats;
pub mod table;
pub mod text;
pub mod timekeeper;
pub mod timesync;
pub mod topology;
pub mod transport;
pub mod variables;
pub mod varint;
pub mod wire_format;
