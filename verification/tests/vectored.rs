use mysql_srv::VectoredWrite;

/// A sink that takes at most `step` bytes of what it is handed.
fn take(pending: &[&[u8]], step: usize, sink: &mut Vec<u8>) -> usize {
    let mut took = 0;
    for slice in pending {
        let n = (step - took).min(slice.len());
        sink.extend(&slice[..n]);
        took += n;
        if took == step {
            break;
        }
    }
    took
}

fn write_all(slices: Vec<&[u8]>, step: usize) -> (Vec<u8>, usize) {
    let mut write = VectoredWrite::new(slices);
    let mut sink = Vec::new();
    let mut calls = 0;
    while !write.is_done() {
        let took = take(write.pending(), step, &mut sink);
        assert!(write.advance(took));
        calls += 1;
    }
    (sink, calls)
}

#[test]
fn sink_that_takes_all_is_done_at_once() {
    let slices: Vec<&[u8]> = vec![&[1, 2, 3], &[4], &[5, 6]];
    assert_eq!(write_all(slices, 100), (vec![1, 2, 3, 4, 5, 6], 1));
}

#[test]
fn partial_writes_send_every_byte_once() {
    let data: Vec<&[u8]> = vec![&[1, 2, 3], &[], &[4], &[5, 6, 7, 8], &[]];
    for step in 1..10 {
        let (sink, calls) = write_all(data.clone(), step);
        assert_eq!(sink, vec![1, 2, 3, 4, 5, 6, 7, 8]);
        assert_eq!(calls, (8 + step - 1) / step);
    }
}

#[test]
fn nothing_to_write_is_done() {
    assert!(VectoredWrite::new(Vec::new()).is_done());
    let empty: Vec<&[u8]> = vec![&[], &[]];
    let write = VectoredWrite::new(empty);
    assert!(write.is_done());
    assert!(write.pending().is_empty());
}

#[test]
fn pending_starts_with_bytes() {
    let slices: Vec<&[u8]> = vec![&[], &[1, 2], &[], &[3]];
    let mut write = VectoredWrite::new(slices);
    assert_eq!(write.pending(), &[&[1u8, 2][..], &[][..], &[3][..]]);
    assert!(write.advance(1));
    assert_eq!(write.pending(), &[&[2u8][..], &[][..], &[3][..]]);
    assert!(write.advance(1));
    assert_eq!(write.pending(), &[&[3u8][..]]);
    assert!(write.advance(1));
    assert!(write.is_done());
    assert!(write.pending().is_empty());
}

#[test]
fn write_of_no_bytes_changes_nothing() {
    let slices: Vec<&[u8]> = vec![&[1, 2], &[3]];
    let mut write = VectoredWrite::new(slices);
    assert!(write.advance(0));
    assert!(!write.is_done());
    assert_eq!(write.pending(), &[&[1u8, 2][..], &[3][..]]);
}

#[test]
fn more_than_was_pending_is_refused() {
    let slices: Vec<&[u8]> = vec![&[1, 2], &[3]];
    let mut write = VectoredWrite::new(slices);
    assert!(!write.advance(4));
    assert_eq!(write.pending(), &[&[1u8, 2][..], &[3][..]]);
    assert!(write.advance(2));
    assert!(!write.advance(2));
    assert_eq!(write.pending(), &[&[3u8][..]]);
    assert!(write.advance(1));
    assert!(!write.advance(1));
    assert!(write.advance(0));
    assert!(write.is_done());
}
