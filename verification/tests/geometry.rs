use smpte2022_1_fec::fec::{is_readable, FecHeader, Orientation};
use smpte2022_1_fec::geometry::{FecGeometry, FecGeometryError};

fn header(orientation: Orientation, offset: u8, number_associated: u8) -> FecHeader {
    FecHeader {
        sn_base: 0,
        length_recovery: 0,
        ts_recovery: 0,
        orientation,
        fec_type: 0,
        offset,
        number_associated,
    }
}

#[test]
fn a_column_packet_gives_the_geometry() {
    let column = header(Orientation::Column, 20, 5);
    let geometry = FecGeometry { l: 20, d: 5, fec_type: 0 };
    assert_eq!(FecGeometry::from_header(&column), Ok(geometry));
    assert!(geometry.matches(&column));
}

#[test]
fn a_row_packet_does_not_give_the_geometry() {
    assert_eq!(
        FecGeometry::from_header(&header(Orientation::Row, 1, 20)),
        Err(FecGeometryError::ColumnPacketRequired)
    );
}

#[test]
fn the_number_of_columns_is_limited() {
    for offset in [3, 21] {
        assert_eq!(
            FecGeometry::from_header(&header(Orientation::Column, offset, 4)),
            Err(FecGeometryError::BadNumberOfColumns(offset))
        );
    }
}

#[test]
fn the_number_of_rows_is_limited() {
    for number_associated in [3, 21] {
        assert_eq!(
            FecGeometry::from_header(&header(Orientation::Column, 4, number_associated)),
            Err(FecGeometryError::BadNumberOfRows(number_associated))
        );
    }
}

#[test]
fn the_size_of_the_matrix_is_limited() {
    assert_eq!(
        FecGeometry::from_header(&header(Orientation::Column, 10, 11)),
        Err(FecGeometryError::BadMatrixSize(110))
    );
    assert!(FecGeometry::from_header(&header(Orientation::Column, 10, 10)).is_ok());
}

#[test]
fn the_size_does_not_overflow() {
    assert_eq!(FecGeometry::size_of(&header(Orientation::Column, 255, 255)), 65025);
}

#[test]
fn headers_match_by_orientation() {
    let geometry = FecGeometry { l: 4, d: 5, fec_type: 0 };
    assert!(geometry.matches(&header(Orientation::Column, 4, 5)));
    assert!(!geometry.matches(&header(Orientation::Column, 5, 5)));
    assert!(!geometry.matches(&header(Orientation::Column, 4, 4)));
    assert!(geometry.matches(&header(Orientation::Row, 1, 4)));
    assert!(geometry.matches(&header(Orientation::Row, 7, 4)));
    assert!(!geometry.matches(&header(Orientation::Row, 1, 5)));
    let other_type = FecHeader { fec_type: 1, ..header(Orientation::Column, 4, 5) };
    assert!(!geometry.matches(&other_type));
}

#[test]
fn associated_packets_are_an_offset_apart() {
    let column = FecHeader { sn_base: 0x01_fffe, ..header(Orientation::Column, 4, 3) };
    assert_eq!(column.associated_seqs(), vec![0xfffe, 2, 6]);
    let row = FecHeader { sn_base: 7, ..header(Orientation::Row, 1, 4) };
    assert_eq!(row.associated_seqs(), vec![7, 8, 9, 10]);
}

#[test]
fn packets_spread_over_more_than_half_a_turn_are_not_associated() {
    let wide = header(Orientation::Row, 129, 254);
    assert_eq!(FecGeometry::size_of(&wide), 32766);
    assert_eq!(wide.associated_seqs().len(), 254);
    let too_wide = header(Orientation::Row, 129, 255);
    assert!(too_wide.associated_seqs().is_empty());
}

#[test]
fn truncated_headers_are_told_apart() {
    let mut data = vec![0u8; 14];
    // without the extended flag there is nothing more to look at
    assert!(is_readable(&data));
    data[4] = 0x80;
    // an offset of zero is noticed
    assert!(is_readable(&data));
    data[13] = 1;
    assert!(!is_readable(&data));
    assert!(!is_readable(&data[..13]));
    assert!(!is_readable(&data[..12]));
    assert!(is_readable(&data[..11]));
    data.push(1);
    assert!(is_readable(&data));
}
