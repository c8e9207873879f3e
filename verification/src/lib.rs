//! Messages on append-only queues.

pub mod ask;
pub mod ask_laws;
pub mod author;
pub mod bind;
pub mod bounds;
pub mod bundle;
pub mod bus;
pub mod bus_laws;
pub mod bytes;
pub mod capability;
pub mod carry;
pub mod clock;
pub mod codec;
pub mod codec_laws;
pub mod config;
pub mod config_laws;
pub mod correlation;
pub mod digest;
pub mod emit;
pub mod envelope;
pub mod event_laws;
pub mod event_log;
pub mod filter;
pub mod fold;
pub mod fold_laws;
pub mod framing;
pub mod image;
pub mod inbox;
pub mod json;
pub mod json_laws;
pub mod kinds;
pub mod layout;
pub mod layout_laws;
pub mod link;
pub mod link_laws;
pub mod local;
pub mod mapping;
pub mod names;
pub mod offers;
pub mod plan;
pub mod plugin;
pub mod policy;
pub mod predicate;
pub mod prepare;
pub mod prepare_laws;
pub mod projection;
pub mod proxy;
pub mod questions;
pub mod queue;
pub mod queue_laws;
pub mod queue_ops;
pub mod queue_reads;
pub mod read;
pub mod redact;
pub mod reply;
pub mod resident;
pub mod resolve;
pub mod schema;
pub mod serve;
pub mod spool;
pub mod stamp;
pub mod subscription;
pub mod table;
pub mod template;
pub mod text;
pub mod transport;
pub mod validate;
