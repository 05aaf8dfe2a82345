use astrors::blocks::pad_write;
use astrors::blocks::skip_read;
use astrors::blocks::pad_buffer_to_fits_block;
use astrors::blocks::FITS_BLOCK_SIZE;
use astrors::cell::ColumnData;
use astrors::column::TypedColumn;
use astrors::derive::derive_layout_from_table;
use astrors::derive::derive_header_cards;
use astrors::format::TableKind;
use astrors::layout::ColumnDescriptor;
use astrors::layout::plan;
use astrors::transcode::FitsTable;
use astrors::transcode::partition_ranges;
use astrors::transcode::split_buffer;
use astrors::FitsError;

fn bin_col(name: &str, token: &str) -> ColumnDescriptor {
    ColumnDescriptor {
        name: name.to_string(),
        format_token: token.to_string(),
        unit: None,
        display: None,
        ascii_start_column: None,
    }
}

#[test]
fn binary_offsets_accumulate_tightly() {
    let cols = vec![bin_col("A", "1J"), bin_col("B", "10E"), bin_col("C", "3A")];
    let layout = plan(TableKind::Binary, &cols).unwrap();
    assert_eq!(layout.cols[0].start_offset, 0);
    assert_eq!(layout.cols[1].start_offset, 4);
    assert_eq!(layout.cols[2].start_offset, 44);
    assert_eq!(layout.bytes_per_row, 47);
    // no two cell ranges overlap and the widths fit the row
    let widths: usize = layout.cols.iter().map(|c| c.fspec.cell_width).sum();
    assert!(widths <= layout.bytes_per_row);
    for w in layout.cols.windows(2) {
        assert!(w[0].start_offset + w[0].fspec.cell_width <= w[1].start_offset);
    }
}

#[test]
fn ascii_offsets_come_from_tbcol() {
    let cols = vec![
        ColumnDescriptor {
            name: "N".to_string(),
            format_token: "I4".to_string(),
            unit: None,
            display: None,
            ascii_start_column: Some(3),
        },
    ];
    let layout = plan(TableKind::Ascii, &cols).unwrap();
    assert_eq!(layout.cols[0].start_offset, 2);
    assert_eq!(layout.bytes_per_row, 7);
}

#[test]
fn plan_rejects_bad_columns() {
    assert_eq!(
        plan(TableKind::Binary, &vec![bin_col("A", "Z9")]).err(),
        Some(FitsError::InvalidFormat)
    );
    // an ASCII column without a TBCOL cannot be placed
    assert_eq!(
        plan(TableKind::Ascii, &vec![bin_col("A", "I4")]).err(),
        Some(FitsError::InvalidFormat)
    );
}

#[test]
fn padding_to_block_boundary() {
    assert_eq!(FITS_BLOCK_SIZE, 2880);
    assert_eq!(pad_write(0), 0);
    assert_eq!(pad_write(80), 2800);
    assert_eq!(pad_write(2880), 0);
    assert_eq!(pad_write(2881), 2879);
    assert_eq!(skip_read(5760), 0);
    assert_eq!(skip_read(5761), 2879);

    let mut buf = vec![1u8; 100];
    pad_buffer_to_fits_block(&mut buf, b' ');
    assert_eq!(buf.len(), 2880);
    assert!(buf[100..].iter().all(|b| *b == b' '));
}

#[test]
fn buffer_splits_align_to_rows() {
    let limits = split_buffer(160, 4, 16);
    assert_eq!(limits.len(), 4);
    assert_eq!(limits[0].0, 0);
    assert_eq!(limits[3].1, 160);
    for w in limits.windows(2) {
        assert_eq!(w[0].1, w[1].0);
    }
    for (_, end) in &limits {
        assert!(end % 16 == 0 || *end == 160);
    }
    // uneven splits snap up to the next row boundary
    let limits = partition_ranges(100, 3, 10);
    assert_eq!(limits[0], (0, 40));
    assert_eq!(limits[1], (40, 80));
    assert_eq!(limits[2], (80, 100));
}

#[test]
fn derive_binary_layout_from_data() {
    let table = FitsTable {
        cols: vec![
            TypedColumn { name: "N".to_string(), data: ColumnData::Int(vec![1, 2]) },
            TypedColumn {
                name: "SPEC".to_string(),
                data: ColumnData::FloatArr(vec![vec![0; 10], vec![0; 10]]),
            },
            TypedColumn {
                name: "TAG".to_string(),
                data: ColumnData::Text(vec![b"abc".to_vec(), b"z".to_vec()]),
            },
        ],
    };
    let (descs, layout) = derive_layout_from_table(TableKind::Binary, &table).unwrap();
    assert_eq!(descs[0].format_token, "1J");
    assert_eq!(descs[1].format_token, "10E");
    // the longest text is three bytes; the width rounds up to four
    assert_eq!(descs[2].format_token, "4A");
    assert_eq!(layout.bytes_per_row, 4 + 40 + 4);
    // replanning the derived columns reproduces the same offsets
    let again = plan(TableKind::Binary, &descs).unwrap();
    assert_eq!(again.bytes_per_row, layout.bytes_per_row);
    for c in 0..3 {
        assert_eq!(again.cols[c].start_offset, layout.cols[c].start_offset);
    }
}

#[test]
fn derive_ascii_layout_from_data() {
    let table = FitsTable {
        cols: vec![
            TypedColumn { name: "N".to_string(), data: ColumnData::Int(vec![5]) },
            TypedColumn {
                name: "TAG".to_string(),
                data: ColumnData::Text(vec![b"abcde".to_vec()]),
            },
        ],
    };
    let (descs, layout) = derive_layout_from_table(TableKind::Ascii, &table).unwrap();
    assert_eq!(descs[0].format_token, "I12");
    assert_eq!(descs[0].ascii_start_column, Some(1));
    assert_eq!(descs[1].format_token, "A6");
    assert_eq!(descs[1].ascii_start_column, Some(14));
    assert_eq!(layout.bytes_per_row, 20);
}

#[test]
fn header_cards_pin_mandatory_order() {
    let cols = vec![bin_col("RA", "1D"), bin_col("DEC", "1D")];
    let layout = plan(TableKind::Binary, &cols).unwrap();
    let cards = derive_header_cards(&layout, 5, 0);
    let expect = [
        ("XTENSION", "BINTABLE"),
        ("BITPIX", "8"),
        ("NAXIS", "2"),
        ("NAXIS1", "16"),
        ("NAXIS2", "5"),
        ("PCOUNT", "0"),
        ("GCOUNT", "1"),
        ("TFIELDS", "2"),
    ];
    for (i, (k, v)) in expect.iter().enumerate() {
        assert_eq!(cards[i].keyword, *k);
        assert_eq!(cards[i].value, *v);
    }
    assert_eq!(cards[8].keyword, "TTYPE1");
    assert_eq!(cards[8].value, "RA");
    assert_eq!(cards[9].keyword, "TFORM1");
    assert_eq!(cards[9].value, "1D");
    assert_eq!(cards[10].keyword, "TTYPE2");
    assert_eq!(cards[11].keyword, "TFORM2");
}

#[test]
fn ascii_header_cards_carry_tbcol() {
    let cols = vec![
        ColumnDescriptor {
            name: "N".to_string(),
            format_token: "I4".to_string(),
            unit: None,
            display: None,
            ascii_start_column: Some(3),
        },
    ];
    let layout = plan(TableKind::Ascii, &cols).unwrap();
    let cards = derive_header_cards(&layout, 1, 0);
    assert_eq!(cards[0].value, "TABLE");
    assert_eq!(cards[10].keyword, "TBCOL1");
    assert_eq!(cards[10].value, "3");
}

#[test]
fn derive_refuses_descriptor_columns() {
    // descriptor data no longer names its element type, so no layout
    // can be derived from it
    let table = FitsTable {
        cols: vec![TypedColumn {
            name: "ARR".to_string(),
            data: ColumnData::Desc(vec![(3, 0)]),
        }],
    };
    assert_eq!(
        derive_layout_from_table(TableKind::Binary, &table).err(),
        Some(FitsError::UnsupportedType)
    );
}

#[test]
fn derive_refuses_empty_rows() {
    // a table whose only column is zero bytes wide has no row to plan
    let table = FitsTable {
        cols: vec![TypedColumn {
            name: "E".to_string(),
            data: ColumnData::FloatArr(vec![vec![]]),
        }],
    };
    assert_eq!(
        derive_layout_from_table(TableKind::Binary, &table).err(),
        Some(FitsError::InvalidFormat)
    );
}

#[test]
fn snap_rule_is_exact() {
    // the naive split point 40 snaps up to the row boundary 48
    let limits = split_buffer(80, 2, 16);
    assert_eq!(limits[0], (0, 48));
    assert_eq!(limits[1], (48, 80));
}
