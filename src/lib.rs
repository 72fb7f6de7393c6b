pub mod error;
pub mod oid;
pub mod protocol;
pub mod table;
pub mod text;

pub use error::AgentError;
pub use oid::OID;
pub use protocol::{parse_command, Command, Session};
pub use table::{
    build_results, build_stat_entries, find_next, find_oid, Entry, Qdisc, QdiscAttr, QdiscStats,
    ValueType,
};
pub use text::{render_signed, render_unsigned};
