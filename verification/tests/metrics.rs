use mysql_srv::metrics::{SnapshotStatusTag, REPLICATOR_SNAPSHOT_STATUS};

#[test]
fn snapshot_status_labels() {
    assert_eq!(SnapshotStatusTag::Started.value(), "started");
    assert_eq!(SnapshotStatusTag::Successful.value(), "successful");
    assert_eq!(SnapshotStatusTag::Failed.value(), "failed");
}

#[test]
fn snapshot_status_metric_name() {
    assert_eq!(REPLICATOR_SNAPSHOT_STATUS, "replicator.snapshot_status");
}
