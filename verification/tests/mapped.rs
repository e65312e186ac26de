use rinha_rust_api::mapped::{
    load_i16, load_u32, read_mapped_slice, read_u32, signed_byte, typed_slice, IndexError,
};

#[test]
fn elements_are_little_endian() {
    let bytes = [0x01u8, 0x02, 0x03, 0x84, 0xff, 0xff, 0x00, 0x80];
    assert_eq!(load_u32(&bytes, 0), 0x8403_0201);
    assert_eq!(load_i16(&bytes, 0), 0x0201);
    assert_eq!(load_i16(&bytes, 4), -1);
    assert_eq!(load_i16(&bytes, 6), i16::MIN);
    for b in 0..=255u8 {
        assert_eq!(signed_byte(b), i32::from(b as i8));
    }
}

#[test]
fn numbers_are_read_in_turn() {
    let bytes = [1u8, 0, 0, 0, 2, 0, 0, 0, 3];
    let mut off = 0;
    assert_eq!(read_u32(&bytes, &mut off), Ok(1));
    assert_eq!(read_u32(&bytes, &mut off), Ok(2));
    assert_eq!(off, 8);
    assert_eq!(read_u32(&bytes, &mut off), Err(IndexError::TruncatedU32));
    assert_eq!(off, 8);
}

#[test]
fn slices_are_checked() {
    let bytes = [7u8; 12];
    assert_eq!(typed_slice(&bytes, 4, 2, 4, 4), Ok(&bytes[4..12]));
    assert_eq!(typed_slice(&bytes, 4, 3, 4, 4), Err(IndexError::SliceTruncated));
    assert_eq!(typed_slice(&bytes, 2, 1, 4, 4), Err(IndexError::SliceUnaligned));
    assert_eq!(typed_slice(&bytes, 2, 0, 4, 4), Ok(&bytes[2..2]));
    assert_eq!(typed_slice(&bytes, 0, usize::MAX, 4, 4), Err(IndexError::SliceTooLarge));
    assert_eq!(typed_slice(&bytes, usize::MAX, 1, 4, 4), Err(IndexError::SliceTooLarge));
    let mut off = 4;
    assert_eq!(read_mapped_slice(&bytes, &mut off, 1, 4, 4), Ok(&bytes[4..8]));
    assert_eq!(off, 8);
    assert_eq!(
        read_mapped_slice(&bytes, &mut off, 2, 4, 4),
        Err(IndexError::SliceTruncated)
    );
    assert_eq!(off, 8);
}

#[test]
fn errors_are_told() {
    let told = |e: IndexError| e.message("dir/x.bin");
    assert_eq!(told(IndexError::EmptyLabels), "empty labels.bin");
    assert_eq!(told(IndexError::OddLength), "dir/x.bin has odd length");
    assert_eq!(
        told(IndexError::VectorsMismatch { found: 120, labels: 3 }),
        "vectors.bin size mismatch: got 120 i16s for 3 labels"
    );
    assert_eq!(
        told(IndexError::ResidualsMismatch { found: 0, labels: 9_876_543_210 }),
        "residuals.bin size mismatch: got 0 bytes for 9876543210 labels"
    );
    assert_eq!(told(IndexError::BadHeader), "bad ivf header");
    assert_eq!(told(IndexError::BadDimensions), "bad ivf dimensions");
    assert_eq!(told(IndexError::BadNprobe), "bad ivf nprobe");
    assert_eq!(told(IndexError::BadPayload), "bad ivf payload");
    assert_eq!(told(IndexError::TruncatedU32), "truncated u32");
    assert_eq!(told(IndexError::SliceTooLarge), "dir/x.bin: mapped slice too large");
    assert_eq!(told(IndexError::SliceTruncated), "dir/x.bin: truncated mapped slice");
    assert_eq!(told(IndexError::SliceUnaligned), "dir/x.bin: unaligned mapped slice");
}
