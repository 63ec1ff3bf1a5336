//! Labels of the metrics that a server records about replication.

use vstd::prelude::*;

verus! {

/// Name of the counter of snapshots; its `status` label holds the
/// [`SnapshotStatusTag::value`] of how the snapshot went.
pub const REPLICATOR_SNAPSHOT_STATUS: &'static str = "replicator.snapshot_status";

/// How the replicator handled a snapshot.
#[derive(Debug, Clone, Copy, PartialEq, Eq)]
pub enum SnapshotStatusTag {
    /// A snapshot was started by the replicator.
    Started,
    /// A snapshot succeeded at the replicator.
    Successful,
    /// A snapshot failed at the replicator.
    Failed,
}

impl SnapshotStatusTag {
    /// The text that stands for the tag in a metric's label.
    pub open spec fn spec_value(self) -> Seq<char> {
        match self {
            SnapshotStatusTag::Started => "started"@,
            SnapshotStatusTag::Successful => "successful"@,
            SnapshotStatusTag::Failed => "failed"@,
        }
    }

    /// Returns the tag as text, for use in a metric's label.
    pub fn value(&self) -> (label: &str)
        ensures
            label@ == self.spec_value(),
    {
        match self {
            SnapshotStatusTag::Started => "started",
            SnapshotStatusTag::Successful => "successful",
            SnapshotStatusTag::Failed => "failed",
        }
    }
}

} // verus!
