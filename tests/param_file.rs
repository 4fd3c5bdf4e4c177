use ppatch::param_file::{FromBytesError, ParamFile};

const HEADER: usize = 0x40;

/// A little-endian 64-bit file with rows of `row_size` bytes at the given offsets.
fn build(ids: &[u32], offsets: &[usize], row_size: usize, total: usize) -> Vec<u8> {
    let mut b = vec![0u8; total];
    let data_end = offsets.iter().map(|o| o + row_size).max().unwrap_or(HEADER + 24 * ids.len());
    b[0..4].copy_from_slice(&(data_end as u32).to_le_bytes());
    b[10..12].copy_from_slice(&(ids.len() as u16).to_le_bytes());
    b[44] = 0;
    b[45] = 4;
    for (k, (&id, &o)) in ids.iter().zip(offsets.iter()).enumerate() {
        let base = HEADER + 24 * k;
        b[base..base + 4].copy_from_slice(&id.to_le_bytes());
        b[base + 8..base + 16].copy_from_slice(&(o as u64).to_le_bytes());
        for i in 0..row_size {
            if o + i < total {
                b[o + i] = (id as u8).wrapping_add(i as u8);
            }
        }
    }
    b
}

fn aligned_addr() -> usize {
    0x1000
}

#[test]
fn reads_rows_of_a_well_formed_file() {
    let start = HEADER + 24 * 3;
    let buf = build(&[10, 20, 30], &[start, start + 8, start + 16], 8, start + 24 + 5);
    let f = ParamFile::from_bytes(buf.clone(), aligned_addr()).unwrap();
    assert_eq!(f.row_size(), 8);
    assert_eq!(f.row_descriptors().len(), 3);
    assert_eq!(f.index_of(20), Some(1));
    assert_eq!(f.index_of(25), None);
    let r = f.by_id(30).unwrap();
    assert_eq!(r.id, 30);
    assert!(f.by_id(25).is_none());
    let g = f.get(1).unwrap();
    assert_eq!(g.id, 20);
    assert_eq!(g.data, buf[start + 8..start + 16].to_vec());
    assert_eq!(r.data, buf[start + 16..start + 24].to_vec());
    let rows = f.rows();
    assert_eq!(rows.len(), 3);
    assert_eq!(rows.iter().map(|r| r.id).collect::<Vec<_>>(), vec![10, 20, 30]);
    assert!(f.get(3).is_none());
    assert_eq!(f.header().row_count(), 3);
    assert!(f.header().is_64_bit());
    assert!(!f.header().is_big_endian());
    assert_eq!(f.header().header_size(), 0x40);
}

#[test]
fn single_row_size_comes_from_data_end() {
    let start = HEADER + 24;
    let buf = build(&[7], &[start], 12, start + 12);
    let f = ParamFile::from_bytes(buf, aligned_addr()).unwrap();
    assert_eq!(f.row_size(), 12);
}

#[test]
fn empty_file_has_no_rows() {
    let buf = build(&[], &[], 0, HEADER);
    let f = ParamFile::from_bytes(buf, aligned_addr()).unwrap();
    assert_eq!(f.row_size(), 0);
    assert!(f.rows().is_empty());
}

#[test]
fn equal_ids_are_unsorted_descriptors() {
    let start = HEADER + 24 * 2;
    let buf = build(&[5, 5], &[start, start + 4], 4, start + 8);
    assert_eq!(ParamFile::from_bytes(buf, aligned_addr()).unwrap_err().0, FromBytesError::UnsortedRowDescs);
}

#[test]
fn overlapping_rows_are_intersecting_data() {
    let start = HEADER + 24 * 3;
    // Rows are 8 bytes apart, but the third starts inside the second.
    let buf = build(&[1, 2, 3], &[start, start + 8, start + 12], 8, start + 20);
    assert_eq!(ParamFile::from_bytes(buf, aligned_addr()).unwrap_err().0, FromBytesError::IntersectingData);
}

#[test]
fn row_over_the_descriptors_is_intersecting_data() {
    let start = HEADER + 24 * 2;
    let buf = build(&[1, 2], &[start - 8, start], 8, start + 8);
    assert_eq!(ParamFile::from_bytes(buf, aligned_addr()).unwrap_err().0, FromBytesError::IntersectingData);
}

#[test]
fn row_past_the_end_is_out_of_bounds() {
    let start = HEADER + 24 * 2;
    let mut buf = build(&[1, 2], &[start, start + 8], 8, start + 16);
    buf.truncate(start + 12);
    buf[0..4].copy_from_slice(&((start + 12) as u32).to_le_bytes());
    assert_eq!(ParamFile::from_bytes(buf, aligned_addr()).unwrap_err().0, FromBytesError::OutOfBoundsOffset);
}

#[test]
fn misaligned_buffer_is_rejected() {
    let buf = build(&[], &[], 0, HEADER);
    let (e, back) = ParamFile::from_bytes(buf.clone(), 0x1004).unwrap_err();
    assert_eq!(e, FromBytesError::InsufficientAlignment);
    assert_eq!(back, buf);
}

#[test]
fn rows_are_written_by_bytes_and_by_id() {
    let start = HEADER + 24 * 2;
    let buf = build(&[4, 8], &[start, start + 6], 6, start + 12);
    let mut f = ParamFile::from_bytes(buf, aligned_addr()).unwrap();
    assert_eq!(f.row_size(), 6);
    assert!(f.write_row(0, &[1, 2, 3, 4, 5, 6]));
    assert!(f.write_by_id(8, &[9, 9, 9, 9, 9, 7]));
    assert!(!f.write_by_id(5, &[0; 6]));
    assert!(!f.write_row(0, &[0; 5]));
    assert_eq!(f.by_id(4).unwrap().data, vec![1, 2, 3, 4, 5, 6]);
    assert_eq!(f.get(1).unwrap().data, vec![9, 9, 9, 9, 9, 7]);
}

#[test]
fn short_buffers_are_too_small() {
    assert_eq!(ParamFile::from_bytes(vec![0u8; 0x20], aligned_addr()).unwrap_err().0, FromBytesError::BufferTooSmall);
    let mut buf = build(&[1, 2], &[HEADER + 48, HEADER + 52], 4, HEADER + 56);
    buf.truncate(HEADER + 30);
    assert_eq!(ParamFile::from_bytes(buf, aligned_addr()).unwrap_err().0, FromBytesError::BufferTooSmall);
}

#[test]
fn foreign_layouts_are_unsupported() {
    let mut buf = build(&[], &[], 0, HEADER);
    buf[44] = 1;
    assert_eq!(
        ParamFile::from_bytes(buf, aligned_addr()).unwrap_err().0,
        FromBytesError::UnsupportedFile { is_big_endian: true, is_64bit: true }
    );
    let mut buf = build(&[], &[], 0, HEADER);
    buf[45] = 0;
    assert_eq!(
        ParamFile::from_bytes(buf, aligned_addr()).unwrap_err().0,
        FromBytesError::UnsupportedFile { is_big_endian: false, is_64bit: false }
    );
}

#[test]
fn row_words_round_trip() {
    let start = HEADER + 24 * 2;
    let buf = build(&[1, 2], &[start, start + 8], 8, start + 16);
    let mut f = ParamFile::from_bytes(buf, aligned_addr()).unwrap();
    let words = f.row_words(1).unwrap();
    assert_eq!(words.len(), 2);
    assert_eq!(words[0], u32::from_le_bytes([2, 3, 4, 5]));
    assert!(f.write_row_words(1, &[0xAABB_CCDD, 0x1122_3344]));
    assert_eq!(f.row_words(1).unwrap(), vec![0xAABB_CCDD, 0x1122_3344]);
    assert_eq!(f.row_words(0).unwrap()[0], u32::from_le_bytes([1, 2, 3, 4]));
    assert!(!f.write_row_words(2, &[0, 0]));
    assert!(!f.write_row_words(0, &[0]));
    let bytes = f.into_bytes();
    assert_eq!(&bytes[start + 8..start + 12], &[0xDD, 0xCC, 0xBB, 0xAA]);
}

#[test]
fn unchecked_constructor_reads_the_same_file() {
    let start = HEADER + 24 * 2;
    let buf = build(&[3, 9], &[start, start + 4], 4, start + 8);
    let f = ParamFile::from_bytes_unchecked(buf);
    assert_eq!(f.row_size(), 4);
    assert_eq!(f.index_of(9), Some(1));
}
