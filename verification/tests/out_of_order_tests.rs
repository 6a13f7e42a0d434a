use bytes_quilt::{Error, MissingSegment, OutOfOrderBytes};

#[test]
fn lib_one_offset_missing() {
    let segment = MissingSegment {
        offset: 0,
        length: 10,
    };
    assert_eq!(&[0][..], segment.offsets_for(10).as_slice());
    let segment = MissingSegment {
        offset: 10,
        length: 10,
    };
    assert_eq!(&[10][..], segment.offsets_for(10).as_slice());
}

#[test]
fn lib_two_offsets_missing() {
    let segment = MissingSegment {
        offset: 0,
        length: 10,
    };
    assert_eq!(&[0, 5][..], segment.offsets_for(5).as_slice());
    let segment = MissingSegment {
        offset: 10,
        length: 10,
    };
    assert_eq!(&[10, 15][..], segment.offsets_for(5).as_slice());
}

#[test]
fn lib_many_offsets_missing() {
    let segment = MissingSegment {
        offset: 5,
        length: 10,
    };
    assert_eq!(
        &[5, 6, 7, 8, 9, 10, 11, 12, 13, 14][..],
        segment.offsets_for(1).as_slice()
    );
}

#[test]
fn lib_offsets_for_frame_size_five() {
    let missing_segment = MissingSegment {
        offset: 0,
        length: 10,
    };
    assert_eq!(&[0, 5][..], missing_segment.offsets_for(5).as_slice());
}

#[test]
fn lib_offsets_for_frame_size_two() {
    let missing_segment = MissingSegment {
        offset: 0,
        length: 10,
    };
    assert_eq!(&[0, 2, 4, 6, 8][..], missing_segment.offsets_for(2).as_slice());
}

#[test]
fn lib_fill_in_order() {
    let mut buffer = OutOfOrderBytes::with_capacity(20);
    buffer
        .insert_at_offset(0, &[5_u8, 4, 3, 2, 1])
        .expect("write fail");
    let bytes = buffer.into_bytes();
    assert_eq!(&[5_u8, 4, 3, 2, 1][..], bytes.as_ref())
}

#[test]
fn lib_fill_in_order_produces_no_missing_segments() {
    let mut buffer = OutOfOrderBytes::with_capacity(20);
    for offset in 0..20 {
        buffer.insert_at_offset(offset, &[3]).expect("write fail");
    }
    assert!(buffer.missing_segments().is_empty());
    let bytes = buffer.into_bytes();
    assert_eq!(vec![3; 20], bytes.as_ref())
}

#[test]
fn lib_detect_missing_segments() {
    let mut buffer = OutOfOrderBytes::with_capacity(20);
    let missing_segment = buffer
        .insert_at_offset(5, &[5, 4, 3, 2, 1])
        .expect("write fail");
    assert_eq!(
        Some(MissingSegment {
            offset: 0,
            length: 5
        }),
        missing_segment
    );
}

#[test]
fn lib_detect_multiple_missing_segments() {
    let mut buffer = OutOfOrderBytes::with_capacity(20);
    buffer
        .insert_at_offset(5, &[5, 4, 3, 2, 1])
        .expect("write fail");
    buffer
        .insert_at_offset(15, &[1, 2, 3, 4, 5])
        .expect("write fail");
    assert_eq!(
        vec![
            MissingSegment {
                offset: 0,
                length: 5
            },
            MissingSegment {
                offset: 10,
                length: 5
            }
        ],
        buffer.missing_segments()
    );
}

#[test]
fn lib_detect_missing_segments_of_different_sizes() {
    let mut buffer = OutOfOrderBytes::with_capacity(40);
    buffer
        .insert_at_offset(5, &[5, 4, 3, 2, 1])
        .expect("write fail");
    buffer
        .insert_at_offset(15, &[1, 2, 3, 4, 5])
        .expect("write fail");
    buffer
        .insert_at_offset(35, &[1, 2, 3, 4, 5])
        .expect("write fail");
    assert_eq!(
        vec![
            MissingSegment {
                offset: 0,
                length: 5
            },
            MissingSegment {
                offset: 10,
                length: 5
            },
            MissingSegment {
                offset: 20,
                length: 15
            }
        ],
        buffer.missing_segments()
    );
}

#[test]
fn lib_split_missing_segments_on_incomplete_writes() {
    let mut buffer = OutOfOrderBytes::with_capacity(40);
    buffer
        .insert_at_offset(15, &[1, 2, 3, 4, 5])
        .expect("write fail");
    assert_eq!(
        vec![MissingSegment {
            offset: 0,
            length: 15
        }],
        buffer.missing_segments()
    );
    buffer
        .insert_at_offset(5, &[5, 4, 3, 2, 1])
        .expect("write fail");
    assert_eq!(
        vec![
            MissingSegment {
                offset: 0,
                length: 5
            },
            MissingSegment {
                offset: 10,
                length: 5
            },
        ],
        buffer.missing_segments()
    );
}

#[test]
fn lib_fill_out_of_order_start_aligned_segment() {
    let mut buffer = OutOfOrderBytes::with_capacity(20);
    buffer
        .insert_at_offset(5, &[5, 4, 3, 2, 1])
        .expect("write fail");
    buffer
        .insert_at_offset(0, &[10, 9, 8, 7, 6])
        .expect("write fail");
    let bytes = buffer.into_bytes();
    assert_eq!(&[10, 9, 8, 7, 6, 5, 4, 3, 2, 1][..], bytes.as_ref())
}

#[test]
fn lib_partial_fill_out_of_order_start_aligned_segment() {
    let mut buffer = OutOfOrderBytes::with_capacity(20);
    buffer.insert_at_offset(4, &[2, 1]).expect("write fail");
    buffer.insert_at_offset(0, &[6, 5]).expect("write fail");
    buffer.insert_at_offset(2, &[4, 3]).expect("write fail");
    let bytes = buffer.into_bytes();
    assert_eq!(&[6, 5, 4, 3, 2, 1][..], bytes.as_ref())
}

#[test]
fn lib_fill_out_of_order_non_aligned_segment() {
    let mut buffer = OutOfOrderBytes::with_capacity(20);
    buffer.insert_at_offset(4, &[2, 1]).expect("write fail");
    buffer.insert_at_offset(2, &[4, 3]).expect("write fail");
    buffer.insert_at_offset(0, &[6, 5]).expect("write fail");
    let bytes = buffer.into_bytes();
    assert_eq!(&[6, 5, 4, 3, 2, 1][..], bytes.as_ref())
}

#[test]
fn lib_partial_fill_out_of_order_non_aligned_segment() {
    let mut buffer = OutOfOrderBytes::with_capacity(20);
    buffer.insert_at_offset(6, &[2, 1]).expect("write fail");
    buffer.insert_at_offset(2, &[6, 5]).expect("write fail");
    buffer.insert_at_offset(0, &[8, 7]).expect("write fail");
    buffer.insert_at_offset(4, &[4, 3]).expect("write fail");
    let bytes = buffer.into_bytes();
    assert_eq!(&[8, 7, 6, 5, 4, 3, 2, 1][..], bytes.as_ref())
}

#[test]
fn lib_fails_to_overfill_a_missing_segment() {
    let mut buffer = OutOfOrderBytes::with_capacity(20);
    buffer.insert_at_offset(4, &[2, 1]).expect("write fail");
    assert_eq!(
        Err(Error::NotEnoughSpace),
        buffer.insert_at_offset(2, &[4, 3, 7, 8])
    );
}

#[test]
fn lib_fails_to_overwrite_a_received_segment() {
    let mut buffer = OutOfOrderBytes::with_capacity(20);
    buffer.insert_at_offset(4, &[2, 1]).expect("write fail");
    buffer.insert_at_offset(2, &[4, 3]).expect("write fail");
    assert_eq!(Err(Error::WouldOverwrite), buffer.insert_at_offset(2, &[7, 8]));
}

#[test]
fn lib_fails_to_overwrite_a_received_segment_in_the_tail() {
    let mut buffer = OutOfOrderBytes::with_capacity(20);
    buffer.insert_at_offset(4, &[2, 1]).expect("write fail");
    assert_eq!(Err(Error::WouldOverwrite), buffer.insert_at_offset(4, &[7, 8]));
}
