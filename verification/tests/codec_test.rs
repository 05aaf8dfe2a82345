use astrors::cell::CellValue;
use astrors::cell::ColumnData;
use astrors::column::ColumnBuffer;
use astrors::column::TypedColumn;
use astrors::format::TableKind;
use astrors::layout::ColumnDescriptor;
use astrors::layout::plan;
use astrors::transcode::FitsTable;
use astrors::transcode::decode_table;
use astrors::transcode::decode_table_with_chunks;
use astrors::transcode::encode_table;
use astrors::transcode::encode_table_with_chunks;
use astrors::FitsError;

fn bin_col(name: &str, token: &str) -> ColumnDescriptor {
    ColumnDescriptor {
        name: name.to_string(),
        format_token: token.to_string(),
        unit: None,
        display: None,
        ascii_start_column: None,
    }
}

fn ascii_col(name: &str, token: &str, tbcol: u32) -> ColumnDescriptor {
    ColumnDescriptor {
        name: name.to_string(),
        format_token: token.to_string(),
        unit: None,
        display: None,
        ascii_start_column: Some(tbcol),
    }
}

/// Binary table, two double columns, five known rows: the body is
/// exactly 80 bytes, the block padding carries it to 2880, and decoding
/// returns the doubles bit for bit.
#[test]
fn five_rows_of_doubles_round_trip() {
    let ra: Vec<f64> = vec![10.5, 11.25, -3.0, 0.0, 359.875];
    let dec: Vec<f64> = vec![-45.5, 0.125, 88.0, -0.25, 12.0];
    let ra_bits: Vec<u64> = ra.iter().map(|x| x.to_bits()).collect();
    let dec_bits: Vec<u64> = dec.iter().map(|x| x.to_bits()).collect();

    let cols = vec![bin_col("RA", "1D"), bin_col("DEC", "1D")];
    let layout = plan(TableKind::Binary, &cols).unwrap();
    assert_eq!(layout.bytes_per_row, 16);

    let table = FitsTable {
        cols: vec![
            TypedColumn { name: "RA".to_string(), data: ColumnData::Double(ra_bits.clone()) },
            TypedColumn { name: "DEC".to_string(), data: ColumnData::Double(dec_bits.clone()) },
        ],
    };
    let out = encode_table(&layout, &table, 5, &[]).unwrap();
    assert_eq!(out.len(), 2880);
    // body: row-major big-endian doubles
    assert_eq!(&out[0..8], &10.5f64.to_be_bytes());
    assert_eq!(&out[8..16], &(-45.5f64).to_be_bytes());
    // everything after the 80-byte body is zero fill
    assert!(out[80..].iter().all(|b| *b == 0));

    let back = decode_table(&layout, &out, 5, &[]).unwrap();
    assert_eq!(back.cols.len(), 2);
    assert_eq!(back.cols[0].name, "RA");
    assert_eq!(back.cols[0].data, ColumnData::Double(ra_bits));
    assert_eq!(back.cols[1].data, ColumnData::Double(dec_bits));
}

/// ASCII table, one eight-character text column at TBCOL 1: encoded rows
/// are space-padded to width eight and decoding trims them back.
#[test]
fn ascii_names_pad_and_trim() {
    let cols = vec![ascii_col("NAME", "A8", 1)];
    let layout = plan(TableKind::Ascii, &cols).unwrap();
    assert_eq!(layout.bytes_per_row, 9);

    let table = FitsTable {
        cols: vec![TypedColumn {
            name: "NAME".to_string(),
            data: ColumnData::Text(vec![b"ALPHA".to_vec(), b"BETA".to_vec()]),
        }],
    };
    let out = encode_table(&layout, &table, 2, &[]).unwrap();
    assert_eq!(&out[0..8], b"ALPHA   ");
    assert_eq!(&out[9..17], b"BETA    ");
    assert_eq!(out.len(), 2880);

    let back = decode_table(&layout, &out, 2, &[]).unwrap();
    assert_eq!(
        back.cols[0].data,
        ColumnData::Text(vec![b"ALPHA".to_vec(), b"BETA".to_vec()])
    );
}

/// Fixed-array column of ten floats: the cell is forty bytes, and the
/// cell read back is a ten-element vector.
#[test]
fn ten_float_array_cell() {
    let fs = astrors::format::parse_binary_format("10E").unwrap();
    assert_eq!(fs.cell_width, 40);
    let values: Vec<f32> = vec![1.0, 2.5, -3.25, 0.0, 4.125, 5.0, -6.5, 7.75, 8.0, 9.5];
    let mut bytes: Vec<u8> = Vec::new();
    for v in &values {
        bytes.extend_from_slice(&v.to_be_bytes());
    }
    let mut buf = ColumnBuffer::new(TableKind::Binary, fs, 0, 1).unwrap();
    buf.write_at(0, &bytes).unwrap();
    match buf.read_at(0) {
        CellValue::FloatArr(bits) => {
            let got: Vec<f32> = bits.iter().map(|b| f32::from_bits(*b)).collect();
            assert_eq!(got, values);
        },
        other => panic!("unexpected cell shape: {:?}", other),
    }
}

/// Variable-length column: a descriptor (count 3, offset 0) pointing
/// into a heap of three big-endian 32-bit integers resolves to those
/// three integers.
#[test]
fn descriptor_resolves_from_heap() {
    let fs = astrors::format::parse_binary_format("1PJ(100)").unwrap();
    let mut buf = ColumnBuffer::new(TableKind::Binary, fs, 0, 1).unwrap();
    let mut cell = Vec::new();
    cell.extend_from_slice(&3u32.to_be_bytes());
    cell.extend_from_slice(&0u32.to_be_bytes());
    buf.write_at(0, &cell).unwrap();

    let mut heap = Vec::new();
    for v in [7i32, -8, 900000] {
        heap.extend_from_slice(&v.to_be_bytes());
    }
    buf.resolve_heap(&heap).unwrap();
    match buf.read_at(0) {
        CellValue::IntArr(v) => assert_eq!(v, vec![7, -8, 900000]),
        other => panic!("unexpected cell shape: {:?}", other),
    }
}

/// A buffer one byte shorter than the table body is refused with the
/// exact shortfall, and no partial table comes back.
#[test]
fn truncated_buffer_names_missing_byte() {
    let cols = vec![bin_col("RA", "1D"), bin_col("DEC", "1D")];
    let layout = plan(TableKind::Binary, &cols).unwrap();
    let short = vec![0u8; 79];
    let r = decode_table(&layout, &short, 5, &[]);
    assert_eq!(r.err(), Some(FitsError::TruncatedBuffer { expected: 80, got: 79 }));
}

/// Decoding with one worker and with several yields identical columns in
/// identical row order.
#[test]
fn worker_count_does_not_change_rows() {
    let cols = vec![bin_col("N", "1J"), bin_col("FLAG", "1L")];
    let layout = plan(TableKind::Binary, &cols).unwrap();
    let nrows = 100usize;
    let mut body = Vec::new();
    for i in 0..nrows {
        body.extend_from_slice(&(i as i32 * 3 - 50).to_be_bytes());
        body.push((i % 2) as u8);
    }
    let reference = decode_table_with_chunks(&layout, &body, nrows, &[], 1).unwrap();
    for n in [2usize, 4, 8] {
        let t = decode_table_with_chunks(&layout, &body, nrows, &[], n).unwrap();
        assert_eq!(t.cols.len(), reference.cols.len());
        for c in 0..t.cols.len() {
            assert_eq!(t.cols[c].name, reference.cols[c].name);
            assert_eq!(t.cols[c].data, reference.cols[c].data);
        }
    }
}

/// Encoding with one partition and with several writes identical bytes.
#[test]
fn partition_count_does_not_change_bytes() {
    let cols = vec![bin_col("N", "1I")];
    let layout = plan(TableKind::Binary, &cols).unwrap();
    let data: Vec<i16> = (0..64).map(|i| (i * 7 - 100) as i16).collect();
    let table = FitsTable {
        cols: vec![TypedColumn { name: "N".to_string(), data: ColumnData::Short(data) }],
    };
    let reference = encode_table_with_chunks(&layout, &table, 64, &[], 1).unwrap();
    for n in [2usize, 4, 8] {
        let out = encode_table_with_chunks(&layout, &table, 64, &[], n).unwrap();
        assert_eq!(out, reference);
    }
}

/// The total bytes written for a table body are always a whole number of
/// 2880-byte blocks.
#[test]
fn body_is_block_aligned() {
    for nrows in [1usize, 5, 179, 180, 181, 360] {
        let cols = vec![bin_col("V", "1D"), bin_col("W", "1D")];
        let layout = plan(TableKind::Binary, &cols).unwrap();
        let bits: Vec<u64> = (0..nrows as u64).map(|i| i * 997).collect();
        let table = FitsTable {
            cols: vec![
                TypedColumn { name: "V".to_string(), data: ColumnData::Double(bits.clone()) },
                TypedColumn { name: "W".to_string(), data: ColumnData::Double(bits) },
            ],
        };
        let out = encode_table(&layout, &table, nrows, &[]).unwrap();
        assert_eq!(out.len() % 2880, 0);
        assert!(out.len() >= nrows * 16);
    }
}

/// Every scalar binary type code round-trips bit for bit.
#[test]
fn all_scalar_types_round_trip() {
    let cols = vec![
        bin_col("L", "1L"),
        bin_col("X", "1X"),
        bin_col("B", "1B"),
        bin_col("I", "1I"),
        bin_col("J", "1J"),
        bin_col("K", "1K"),
        bin_col("A", "6A"),
        bin_col("E", "1E"),
        bin_col("D", "1D"),
        bin_col("C", "1C"),
        bin_col("M", "1M"),
    ];
    let layout = plan(TableKind::Binary, &cols).unwrap();
    let table = FitsTable {
        cols: vec![
            TypedColumn { name: "L".to_string(), data: ColumnData::Logical(vec![true, false]) },
            TypedColumn { name: "X".to_string(), data: ColumnData::Bit(vec![0xa5, 0x00]) },
            TypedColumn { name: "B".to_string(), data: ColumnData::Byte(vec![-1, 127]) },
            TypedColumn { name: "I".to_string(), data: ColumnData::Short(vec![-32768, 32767]) },
            TypedColumn { name: "J".to_string(), data: ColumnData::Int(vec![i32::MIN, i32::MAX]) },
            TypedColumn { name: "K".to_string(), data: ColumnData::Long(vec![i64::MIN, i64::MAX]) },
            TypedColumn {
                name: "A".to_string(),
                data: ColumnData::Text(vec![b"abc".to_vec(), b"xyzzy!".to_vec()]),
            },
            TypedColumn {
                name: "E".to_string(),
                data: ColumnData::Float(vec![1.5f32.to_bits(), f32::NAN.to_bits()]),
            },
            TypedColumn {
                name: "D".to_string(),
                data: ColumnData::Double(vec![(-2.25f64).to_bits(), f64::INFINITY.to_bits()]),
            },
            TypedColumn {
                name: "C".to_string(),
                data: ColumnData::Complex(vec![
                    (1.0f32.to_bits(), 2.0f32.to_bits()),
                    (0, 0x7f800000),
                ]),
            },
            TypedColumn {
                name: "M".to_string(),
                data: ColumnData::DComplex(vec![
                    (3.5f64.to_bits(), (-4.5f64).to_bits()),
                    (0, 1),
                ]),
            },
        ],
    };
    let out = encode_table(&layout, &table, 2, &[]).unwrap();
    let back = decode_table(&layout, &out, 2, &[]).unwrap();
    for c in 0..table.cols.len() {
        assert_eq!(back.cols[c].name, table.cols[c].name);
        assert_eq!(back.cols[c].data, table.cols[c].data);
    }
}

/// Fixed arrays of every element type round-trip as well.
#[test]
fn array_columns_round_trip() {
    let cols = vec![
        bin_col("LS", "3L"),
        bin_col("XS", "2X"),
        bin_col("BS", "2B"),
        bin_col("IS", "2I"),
        bin_col("JS", "3J"),
        bin_col("KS", "2K"),
        bin_col("ES", "2E"),
        bin_col("DS", "2D"),
    ];
    let layout = plan(TableKind::Binary, &cols).unwrap();
    let table = FitsTable {
        cols: vec![
            TypedColumn {
                name: "LS".to_string(),
                data: ColumnData::LogicalArr(vec![vec![true, false, true]]),
            },
            TypedColumn { name: "XS".to_string(), data: ColumnData::BitArr(vec![vec![1, 2]]) },
            TypedColumn { name: "BS".to_string(), data: ColumnData::ByteArr(vec![vec![-5, 5]]) },
            TypedColumn { name: "IS".to_string(), data: ColumnData::ShortArr(vec![vec![-7, 7]]) },
            TypedColumn {
                name: "JS".to_string(),
                data: ColumnData::IntArr(vec![vec![1, -2, 3]]),
            },
            TypedColumn {
                name: "KS".to_string(),
                data: ColumnData::LongArr(vec![vec![-9e15 as i64, 9e15 as i64]]),
            },
            TypedColumn {
                name: "ES".to_string(),
                data: ColumnData::FloatArr(vec![vec![1.0f32.to_bits(), 2.0f32.to_bits()]]),
            },
            TypedColumn {
                name: "DS".to_string(),
                data: ColumnData::DoubleArr(vec![vec![3.0f64.to_bits(), 4.0f64.to_bits()]]),
            },
        ],
    };
    let out = encode_table(&layout, &table, 1, &[]).unwrap();
    let back = decode_table(&layout, &out, 1, &[]).unwrap();
    for c in 0..table.cols.len() {
        assert_eq!(back.cols[c].data, table.cols[c].data);
    }
}

/// An ASCII table of integers and text round-trips through its
/// fixed-width fields.
#[test]
fn ascii_table_round_trip() {
    let cols = vec![ascii_col("N", "I12", 1), ascii_col("TAG", "A6", 14)];
    let layout = plan(TableKind::Ascii, &cols).unwrap();
    assert_eq!(layout.bytes_per_row, 20);
    let table = FitsTable {
        cols: vec![
            TypedColumn {
                name: "N".to_string(),
                data: ColumnData::Int(vec![42, -17, i32::MAX]),
            },
            TypedColumn {
                name: "TAG".to_string(),
                data: ColumnData::Text(vec![b"a".to_vec(), b"bc".to_vec(), b"def".to_vec()]),
            },
        ],
    };
    let out = encode_table(&layout, &table, 3, &[]).unwrap();
    // integers right-justified, text left-justified
    assert_eq!(&out[0..12], b"          42");
    assert_eq!(&out[13..19], b"a     ");
    let back = decode_table(&layout, &out, 3, &[]).unwrap();
    assert_eq!(back.cols[0].data, table.cols[0].data);
    assert_eq!(back.cols[1].data, table.cols[1].data);
}

/// An ASCII integer field that holds no integer aborts the decode with
/// one error naming the cell's column and row.
#[test]
fn garbled_ascii_integer_is_one_error() {
    let cols = vec![ascii_col("N", "I4", 1)];
    let layout = plan(TableKind::Ascii, &cols).unwrap();
    let body = b"  12 12q3 ".to_vec();
    let r = decode_table(&layout, &body, 2, &[]);
    assert_eq!(r.err(), Some(FitsError::DecodeFailed { column: 0, row: 1 }));
}

/// A repeated complex column is a recognized shape this codec does not
/// implement: decoding surfaces the explicit error instead of guessing.
#[test]
fn repeated_complex_is_unsupported() {
    let cols = vec![bin_col("CC", "2C")];
    let layout = plan(TableKind::Binary, &cols).unwrap();
    let body = vec![0u8; 16];
    let r = decode_table(&layout, &body, 1, &[]);
    assert_eq!(r.err(), Some(FitsError::UnsupportedType));
}

/// Writing a byte slice whose length disagrees with the planned cell
/// width is a layout mismatch carrying both numbers.
#[test]
fn wrong_slice_length_is_layout_mismatch() {
    let fs = astrors::format::parse_binary_format("1J").unwrap();
    let mut buf = ColumnBuffer::new(TableKind::Binary, fs, 0, 1).unwrap();
    let r = buf.write_at(0, &[1, 2, 3]);
    assert_eq!(r.err(), Some(FitsError::LayoutMismatch { expected: 4, got: 3 }));
}

/// Text longer than its field is never silently truncated.
#[test]
fn overlong_text_is_layout_mismatch() {
    let cols = vec![bin_col("T", "4A")];
    let layout = plan(TableKind::Binary, &cols).unwrap();
    let table = FitsTable {
        cols: vec![TypedColumn {
            name: "T".to_string(),
            data: ColumnData::Text(vec![b"toolong".to_vec()]),
        }],
    };
    let r = encode_table(&layout, &table, 1, &[]);
    assert_eq!(r.err(), Some(FitsError::LayoutMismatch { expected: 4, got: 7 }));
}
