//! Run-time schemas, an in-memory byte channel, and the decision logic of the
//! import and server macros of a Cap'n Proto toolkit.
pub mod byte_channel;
pub mod capnproto_rpc;
pub mod capstone;
pub mod dynamic_value;
pub mod error;
pub mod glob;
pub mod import;
pub mod import_laws;
pub mod introspect;
pub mod reconnect;
pub mod registry;
pub mod schema;
pub mod schema_capnp;
pub mod strings;
pub mod struct_list;
pub mod text;
pub mod traits;
