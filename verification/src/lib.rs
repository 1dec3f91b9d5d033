//! Reads documentation sources for the references they make and the
//! identities they publish, and decides the small byte-level questions a
//! repository scan asks of its files.

pub mod text;
pub mod unicode;

pub mod rst;
pub mod feedback;
pub mod bytes;
pub mod order;
pub mod tree;
pub mod correlate;
pub mod document;
pub mod cache;
pub mod claim;
pub mod discovery;
pub mod evaluate;
pub mod policy;
pub mod projection;
pub mod anchor;
pub mod lfs;
pub mod declared;
pub mod locale;
pub mod external;
