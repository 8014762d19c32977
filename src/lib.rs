//! A guest object runtime: object identities backed by host-side state,
//! manual reference counting with autorelease pools, a class registry with
//! hierarchy-aware method lookup, message dispatch, and the chunked
//! fast-enumeration and sentinel-terminated argument protocols.
pub mod array;
pub mod enumeration;
pub mod error;
pub mod memory;
pub mod registry;
pub mod runtime;
pub mod store;
pub mod varargs;
