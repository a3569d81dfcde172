use rowbinary_client::cursor::{decode_all, RowCursor, Step};
use rowbinary_client::error::Error;
use rowbinary_client::rowbinary::{FieldDef, FieldKind, Record, Schema, Value};

fn pair_schema() -> Schema {
    Schema {
        fields: vec![
            FieldDef { name: b"id".to_vec(), kind: FieldKind::UInt16 },
            FieldDef { name: b"name".to_vec(), kind: FieldKind::VarStr },
        ],
    }
}

fn two_row_stream() -> Vec<u8> {
    // row 1: id = 258 (little endian), name = "ab" (varint length 2)
    // row 2: id = 65535, name = "" (varint length 0)
    vec![2, 1, 2, 97, 98, 255, 255, 0]
}

fn expected_rows() -> Vec<Record> {
    vec![
        Record { values: vec![Value::UInt(258), Value::Bytes(b"ab".to_vec())] },
        Record { values: vec![Value::UInt(65535), Value::Bytes(Vec::new())] },
    ]
}

#[test]
fn whole_stream_decodes() {
    let rows = decode_all(pair_schema(), vec![two_row_stream()]).unwrap();
    assert_eq!(rows, expected_rows());
}

#[test]
fn one_byte_chunks_decode_identically() {
    let chunks: Vec<Vec<u8>> = two_row_stream().into_iter().map(|b| vec![b]).collect();
    let rows = decode_all(pair_schema(), chunks).unwrap();
    assert_eq!(rows, expected_rows());
}

#[test]
fn uneven_chunks_decode_identically() {
    let bytes = two_row_stream();
    let chunks = vec![bytes[..3].to_vec(), bytes[3..4].to_vec(), bytes[4..].to_vec()];
    let rows = decode_all(pair_schema(), chunks).unwrap();
    assert_eq!(rows, expected_rows());
}

#[test]
fn empty_stream_ends_cleanly() {
    let rows = decode_all(pair_schema(), Vec::new()).unwrap();
    assert!(rows.is_empty());
}

#[test]
fn truncated_stream_is_an_error() {
    // the second row is cut mid-field: its name prefix never arrives
    let mut bytes = two_row_stream();
    bytes.truncate(7);
    let r = decode_all(pair_schema(), vec![bytes]);
    assert_eq!(r.unwrap_err(), Error::NotEnoughData);
}

#[test]
fn exact_row_boundary_ends_cleanly() {
    let bytes = two_row_stream();
    let r = decode_all(pair_schema(), vec![bytes]).unwrap();
    assert_eq!(r.len(), 2);
}

#[test]
fn numeric_widths_decode_little_endian() {
    let schema = Schema {
        fields: vec![
            FieldDef { name: b"a".to_vec(), kind: FieldKind::UInt8 },
            FieldDef { name: b"b".to_vec(), kind: FieldKind::UInt32 },
            FieldDef { name: b"c".to_vec(), kind: FieldKind::UInt64 },
        ],
    };
    let mut bytes = vec![7u8, 0x78, 0x56, 0x34, 0x12];
    bytes.extend_from_slice(&[1, 0, 0, 0, 0, 0, 0, 0x80]);
    let rows = decode_all(schema, vec![bytes]).unwrap();
    assert_eq!(
        rows,
        vec![Record {
            values: vec![
                Value::UInt(7),
                Value::UInt(0x12345678),
                Value::UInt(0x8000_0000_0000_0001),
            ],
        }]
    );
}

#[test]
fn fixed_width_consumes_exactly_its_width() {
    // five declared bytes, a NUL and a quote among them: no prefix is read
    let schema = Schema {
        fields: vec![FieldDef { name: b"f".to_vec(), kind: FieldKind::FixedStr(5) }],
    };
    let bytes = vec![104, 0, 39, 108, 111];
    let rows = decode_all(schema, vec![bytes.clone()]).unwrap();
    assert_eq!(rows, vec![Record { values: vec![Value::Bytes(bytes)] }]);
}

#[test]
fn var_str_reads_a_length_prefix_where_fixed_does_not() {
    // the same five bytes under the variable-length rule: 104 is a length
    // prefix asking for 104 more bytes, so the stream is truncated
    let schema = Schema {
        fields: vec![FieldDef { name: b"f".to_vec(), kind: FieldKind::VarStr }],
    };
    let r = decode_all(schema, vec![vec![104, 0, 39, 108, 111]]);
    assert_eq!(r.unwrap_err(), Error::NotEnoughData);
}

#[test]
fn large_field_across_chunks_grows_scratch() {
    // a 3000-byte string split over three chunks crosses boundaries and
    // exceeds the initial scratch capacity; growth resolves it internally
    let schema = Schema {
        fields: vec![FieldDef { name: b"f".to_vec(), kind: FieldKind::VarStr }],
    };
    let payload = vec![0xAAu8; 3000];
    let mut bytes = vec![184, 23]; // varint 3000 = 56 + 128 * 23
    bytes.extend_from_slice(&payload);
    let chunks = vec![bytes[..1000].to_vec(), bytes[1000..2000].to_vec(), bytes[2000..].to_vec()];
    let rows = decode_all(schema, chunks).unwrap();
    assert_eq!(rows, vec![Record { values: vec![Value::Bytes(payload.clone())] }]);

    // and the same bytes in one chunk decode to the same record
    let rows_single = decode_all(
        Schema { fields: vec![FieldDef { name: b"f".to_vec(), kind: FieldKind::VarStr }] },
        vec![bytes],
    )
    .unwrap();
    assert_eq!(rows_single, vec![Record { values: vec![Value::Bytes(payload)] }]);
}

#[test]
fn multi_byte_varint_length() {
    // varint 200 = 72 + 128 * 1 -> bytes [200, 1]
    let schema = Schema {
        fields: vec![FieldDef { name: b"f".to_vec(), kind: FieldKind::VarStr }],
    };
    let payload = vec![7u8; 200];
    let mut bytes = vec![200, 1];
    bytes.extend_from_slice(&payload);
    let rows = decode_all(schema, vec![bytes]).unwrap();
    assert_eq!(rows, vec![Record { values: vec![Value::Bytes(payload)] }]);
}

#[test]
fn cursor_retries_are_idempotent_under_missing_data() {
    let mut cur = RowCursor::new(pair_schema());
    assert!(matches!(cur.try_next(), Step::NeedInput));
    cur.push_chunk(vec![2]);
    // unchanged input: the verdict stays the same, pull after pull
    assert!(matches!(cur.try_next(), Step::NeedInput));
    assert!(matches!(cur.try_next(), Step::NeedInput));
    cur.push_chunk(vec![1, 2, 97, 98]);
    match cur.try_next() {
        Step::Row(rec) => {
            assert_eq!(
                rec,
                Record { values: vec![Value::UInt(258), Value::Bytes(b"ab".to_vec())] }
            );
        }
        Step::NeedInput => panic!("a full row was buffered"),
    }
    assert!(matches!(cur.try_next(), Step::NeedInput));
    assert!(cur.finish().is_ok());
}

#[test]
fn cursor_reports_truncation_at_stream_end() {
    let mut cur = RowCursor::new(pair_schema());
    cur.push_chunk(vec![2, 1, 2]);
    assert!(matches!(cur.try_next(), Step::NeedInput));
    assert_eq!(cur.finish().unwrap_err(), Error::NotEnoughData);
}
