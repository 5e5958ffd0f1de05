use quilt_tiler::rnc_format::{read_u32_le, HeaderError, RncHeader};

fn file(cols: u32, rows: u32, offsets: &[u32], tail: usize) -> Vec<u8> {
    let mut data = vec![0u8; 8];
    data.extend_from_slice(&cols.to_le_bytes());
    data.extend_from_slice(&rows.to_le_bytes());
    for o in offsets {
        data.extend_from_slice(&o.to_le_bytes());
    }
    data.extend_from_slice(&vec![0u8; tail]);
    data
}

#[test]
fn header_parses_dims_and_offsets() {
    // 2x1 grid, two 10-byte "tiles".
    let mut data = vec![0u8; 8];
    data.extend_from_slice(&2u32.to_le_bytes());
    data.extend_from_slice(&1u32.to_le_bytes());
    let offsets = [36u32, 46, 56, 56];
    for o in offsets {
        data.extend_from_slice(&o.to_le_bytes());
    }
    data.extend_from_slice(&[0u8; 24]);
    let header = RncHeader::parse(&data).expect("valid header parses");
    assert_eq!(header.cols, 2);
    assert_eq!(header.rows, 1);
    assert_eq!(header.tile_range(0, 0), Some((36, 46)));
    assert_eq!(header.tile_range(1, 0), Some((46, 56)));
    assert_eq!(header.tile_range(2, 0), None);
}

#[test]
fn header_rejects_truncated_table() {
    let data = vec![0u8; 10];
    let err = RncHeader::parse(&data).unwrap_err();
    assert!(err.message().contains("offset"));
}

#[test]
fn each_header_fault_is_named() {
    assert_eq!(
        RncHeader::parse(&[0u8; 13]).unwrap_err(),
        HeaderError::FieldOutOfBounds { at: 12, len: 13 }
    );
    assert_eq!(
        RncHeader::parse(&file(0, 7, &[], 0)).unwrap_err(),
        HeaderError::EmptyGrid { cols: 0, rows: 7 }
    );
    assert_eq!(
        RncHeader::parse(&file(u32::MAX, u32::MAX, &[], 0)).unwrap_err(),
        HeaderError::TableTooLarge
    );
    assert_eq!(
        RncHeader::parse(&file(2_147_483_646, 2_147_483_650, &[], 0)).unwrap_err(),
        HeaderError::TableOverflows
    );
    assert_eq!(
        RncHeader::parse(&file(1, 1, &[28, 28], 0)).unwrap_err(),
        HeaderError::TruncatedTable { len: 24, need: 28 }
    );
    assert_eq!(
        RncHeader::parse(&file(1, 1, &[30, 29, 29], 10)).unwrap_err(),
        HeaderError::NotMonotone
    );
    assert_eq!(
        RncHeader::parse(&file(1, 1, &[28, 40, 40], 2)).unwrap_err(),
        HeaderError::PastEnd
    );
}

#[test]
fn tile_bytes_cut_the_tile_out_of_the_file() {
    let mut data = file(1, 2, &[32, 33, 35, 99], 4);
    data[32] = 7;
    data[33] = 8;
    data[34] = 9;
    let header = RncHeader::parse(&data).expect("valid header parses");
    assert_eq!(header.tile_bytes(&data, 0, 0), Some(&[7u8][..]));
    assert_eq!(header.tile_bytes(&data, 0, 1), Some(&[8u8, 9][..]));
    assert_eq!(header.tile_bytes(&data, 0, 2), None);
    assert_eq!(header.tile_bytes(&data[..34], 0, 1), None);
}

#[test]
fn fields_are_little_endian() {
    assert_eq!(read_u32_le(&[9, 1, 2, 3, 4], 1), Ok(0x0403_0201));
    assert_eq!(
        read_u32_le(&[9, 1, 2, 3, 4], 2),
        Err(HeaderError::FieldOutOfBounds { at: 2, len: 5 })
    );
}

#[test]
fn header_faults_have_messages() {
    let text = |data: &[u8]| RncHeader::parse(data).expect_err("refused").message();
    assert_eq!(
        text(&[0; 10]),
        "offset 8 out of bounds (file is 10 bytes)"
    );
    assert_eq!(text(&[0; 16]), "empty tile grid (0x0)");
    let mut one = vec![0u8; 16];
    one[8] = 1;
    one[12] = 1;
    assert_eq!(
        text(&one),
        "truncated offset table: file is 16 bytes, need at least 28"
    );
}
