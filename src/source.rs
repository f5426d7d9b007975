//! Synchronization and contributing source identifiers.
use vstd::prelude::*;

verus! {

/// Identifies one RTP source within a session (SSRC).
#[derive(Clone, Copy, Debug, Hash, PartialEq, Eq, Structural)]
pub struct SynchronizationSource(pub u32);

/// The SSRC of a source whose media was mixed into a packet (CSRC).
#[derive(Clone, Copy, Debug, Hash, PartialEq, Eq, Structural)]
pub struct ContributingSource(pub u32);

/// An ordered list of contributing sources, in insertion order.
pub type ContributingSourceList = Vec<ContributingSource>;

/// The contributing source that carries the same 32-bit value as `s`.
pub open spec fn contributing_of(s: SynchronizationSource) -> ContributingSource {
    ContributingSource(s.0)
}

/// The synchronization source that carries the same 32-bit value as `c`.
pub open spec fn synchronization_of(c: ContributingSource) -> SynchronizationSource {
    SynchronizationSource(c.0)
}

impl SynchronizationSource {
    /// Reinterprets this source as a contributing source; the value is kept.
    pub fn to_contributing(self) -> (r: ContributingSource)
        ensures
            r == contributing_of(self),
    {
        ContributingSource(self.0)
    }
}

impl ContributingSource {
    /// Reinterprets this source as a synchronization source; the value is kept.
    pub fn to_synchronization(self) -> (r: SynchronizationSource)
        ensures
            r == synchronization_of(self),
    {
        SynchronizationSource(self.0)
    }
}

impl From<SynchronizationSource> for ContributingSource {
    fn from(s: SynchronizationSource) -> (r: ContributingSource)
        ensures
            r == contributing_of(s),
    {
        s.to_contributing()
    }
}

impl vstd::std_specs::convert::FromSpecImpl<SynchronizationSource> for ContributingSource {
    open spec fn obeys_from_spec() -> bool {
        true
    }

    open spec fn from_spec(s: SynchronizationSource) -> ContributingSource {
        contributing_of(s)
    }
}

impl From<ContributingSource> for SynchronizationSource {
    fn from(c: ContributingSource) -> (r: SynchronizationSource)
        ensures
            r == synchronization_of(c),
    {
        c.to_synchronization()
    }
}

impl vstd::std_specs::convert::FromSpecImpl<ContributingSource> for SynchronizationSource {
    open spec fn obeys_from_spec() -> bool {
        true
    }

    open spec fn from_spec(c: ContributingSource) -> SynchronizationSource {
        synchronization_of(c)
    }
}

/// Converting a contributing source to a synchronization source and back
/// gives the same contributing source, and the same holds the other way
/// round: the two conversions are mutually inverse over all 32-bit values.
pub proof fn lemma_identifier_duality(v: u32)
    ensures
        contributing_of(synchronization_of(ContributingSource(v))) == ContributingSource(v),
        synchronization_of(contributing_of(SynchronizationSource(v))) == SynchronizationSource(v),
{
}

} // verus!
