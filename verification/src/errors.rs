//! Error kinds shared by the file store and the job engine.

use vstd::prelude::*;

verus! {

/// What can go wrong inside the cluster logic.
#[derive(Clone, Copy, Debug, PartialEq, Eq, Structural)]
pub enum ClusterError {
    /// A peer could not be reached.
    NetworkUnreachable,
    /// A framing error or short read on a connection.
    ProtocolViolation,
    /// The named file is not in the distributed store.
    NotFound,
    /// Fewer alive workers than the job asked for.
    NoCapacity,
    /// An empty or unparseable input table.
    MalformedInput,
    /// Fewer replicas confirmed than were requested.
    ReplicationShort,
}

} // verus!
