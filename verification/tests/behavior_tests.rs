use bytes_quilt::{BytesQuilt, Error, MissingSegment};

#[test]
fn chunked_writes_match_single_write() {
    let mut one_call = BytesQuilt::new();
    one_call.put_at(0, &[5_u8, 4, 3, 2, 1]).expect("write fail");
    let mut many_calls = BytesQuilt::new();
    for (i, b) in [5_u8, 4, 3, 2, 1].iter().enumerate() {
        many_calls.put_at(i, &[*b]).expect("write fail");
        assert!(many_calls.missing_segments().is_empty());
    }
    assert_eq!(one_call.into_inner(), many_calls.into_inner());
}

#[test]
fn new_gap_is_reported_exactly_once() {
    let mut buffer = BytesQuilt::new();
    buffer.put_at(0, &[1, 2, 3, 4, 5]).expect("write fail");
    let reported = buffer.put_at(8, &[9, 9]).expect("write fail");
    assert_eq!(
        Some(MissingSegment {
            offset: 5,
            length: 3
        }),
        reported
    );
    // The later listing shows the gap, but no further call reports it as new.
    assert_eq!(
        vec![MissingSegment {
            offset: 5,
            length: 3
        }],
        buffer.missing_segments()
    );
    let again = buffer.put_at(10, &[7]).expect("write fail");
    assert_eq!(None, again);
}

#[test]
fn overfill_leaves_ledger_unchanged() {
    let mut buffer = BytesQuilt::new();
    buffer.put_at(2, &[2, 1]).expect("write fail");
    let before = buffer.missing_segments();
    assert_eq!(Err(Error::NotEnoughSpace), buffer.put_at(0, &[4, 3, 7, 8]));
    assert_eq!(before, buffer.missing_segments());
}

#[test]
fn overwrite_leaves_ledger_unchanged() {
    let mut buffer = BytesQuilt::new();
    buffer.put_at(2, &[2, 1]).expect("write fail");
    buffer.put_at(0, &[4, 3]).expect("write fail");
    let before = buffer.missing_segments();
    assert_eq!(Err(Error::WouldOverwrite), buffer.put_at(0, &[7, 8]));
    assert_eq!(before, buffer.missing_segments());
}

#[test]
fn offsets_for_truncates_partial_frame() {
    let gap = MissingSegment {
        offset: 0,
        length: 10,
    };
    // floor(10 / 3) = 3 frames; the final byte is not represented.
    assert_eq!(&[0, 3, 6][..], gap.offsets_for(3).as_slice());
}

#[test]
fn offsets_for_gap_shorter_than_frame() {
    let gap = MissingSegment {
        offset: 4,
        length: 2,
    };
    assert!(gap.offsets_for(5).is_empty());
}

#[test]
fn three_pair_writes_assemble_in_offset_order() {
    let mut buffer = BytesQuilt::new();
    buffer.put_at(4, &[2, 1]).expect("write fail");
    buffer.put_at(2, &[6, 5]).expect("write fail");
    buffer.put_at(0, &[8, 7]).expect("write fail");
    let bytes = buffer.into_inner();
    assert_eq!(&[8, 7, 6, 5, 2, 1][..], bytes.as_ref());
}

#[test]
fn zero_length_write_at_append_point_is_noop() {
    let mut buffer = BytesQuilt::new();
    buffer.put_at(0, &[1, 2]).expect("write fail");
    assert_eq!(Ok(None), buffer.put_at(2, &[]));
    assert!(buffer.missing_segments().is_empty());
    let bytes = buffer.into_inner();
    assert_eq!(&[1, 2][..], bytes.as_ref());
}

#[test]
fn zero_length_backfill_keeps_gap_intact() {
    let mut buffer = BytesQuilt::new();
    buffer.put_at(4, &[2, 1]).expect("write fail");
    assert_eq!(Ok(None), buffer.put_at(1, &[]));
    assert_eq!(
        vec![MissingSegment {
            offset: 0,
            length: 4
        }],
        buffer.missing_segments()
    );
}

#[test]
fn zero_length_write_ahead_still_opens_gap() {
    let mut buffer = BytesQuilt::new();
    let reported = buffer.put_at(3, &[]).expect("write fail");
    assert_eq!(
        Some(MissingSegment {
            offset: 0,
            length: 3
        }),
        reported
    );
}

#[test]
fn empty_buffer_assembles_to_nothing() {
    let buffer = BytesQuilt::default();
    let bytes = buffer.into_inner();
    assert!(bytes.as_ref().is_empty());
}

#[test]
fn mid_tail_write_appends_at_live_edge() {
    // A write strictly between the frontier and the append point is
    // accepted and appended at the live edge, as documented on `put_at`.
    let mut buffer = BytesQuilt::new();
    buffer.put_at(0, &[1, 2, 3]).expect("write fail");
    assert_eq!(Ok(None), buffer.put_at(2, &[9]));
    let bytes = buffer.into_inner();
    assert_eq!(&[1, 2, 3, 9][..], bytes.as_ref());
}
