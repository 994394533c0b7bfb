//! Addresses of remote objects and the file loader service.
use vstd::prelude::*;
use std::sync::Arc;

verus! {

/// A connection through which remote objects are reached.
#[derive(Debug)]
pub struct Connector {}

/// An object, either held here or living behind a connector.
pub enum Address<T> {
    Local(Arc<T>),
    Remote { connector: Arc<Connector>, remote_id: u64, object_id: u64 },
}

/// How an address is sent over the wire: `(0, 0)` for a local object,
/// otherwise its remote and object ids.
pub open spec fn wire_id<T>(a: Address<T>) -> (u64, u64) {
    match a {
        Address::Local(_) => (0, 0),
        Address::Remote { remote_id, object_id, .. } => (remote_id, object_id),
    }
}

impl Connector {
    /// The wire identity of `address`.
    pub fn uuid_of<T>(&self, address: &Address<T>) -> (r: (u64, u64))
        ensures
            r == wire_id(*address),
    {
        match address {
            Address::Local(_) => (0, 0),
            Address::Remote { remote_id, object_id, .. } => (*remote_id, *object_id),
        }
    }
}

/// The server side of the file loader service.
#[derive(Debug)]
pub struct FileLoaderServer {}

} // verus!
