use scouting_data_compression::data_packer::{encode, pack_columnar_bitplanes, read_csv};
use scouting_data_compression::errors::EncodeError;
use scouting_data_compression::schema::{
    get_default_schema, validate_schema, ColumnKind, ColumnSchema,
};

fn int_col(name: &str, bits: u32, int_max: u64) -> ColumnSchema {
    ColumnSchema::Int { name: name.to_string(), bits, int_max }
}

fn enum_col(name: &str, bits: u32, values: &[&str]) -> ColumnSchema {
    ColumnSchema::Enum {
        name: name.to_string(),
        bits,
        values: values.iter().map(|v| v.to_string()).collect(),
    }
}

#[test]
fn schema_accessors() {
    let c = int_col("A", 3, 7);
    assert_eq!(c.name(), "A");
    assert_eq!(c.kind(), ColumnKind::Int);
    assert_eq!(c.bits(), 3);
    assert_eq!(c.int_max(), Some(7));
    assert!(c.values().is_none());
    let e = enum_col("B", 1, &["x", "y"]);
    assert_eq!(e.name(), "B");
    assert_eq!(e.kind(), ColumnKind::Enum);
    assert_eq!(e.bits(), 1);
    assert_eq!(e.int_max(), None);
    assert_eq!(e.values().unwrap().len(), 2);
}

#[test]
fn validate_rejects_duplicate_names() {
    let schema = vec![int_col("X", 1, 1), int_col("X", 2, 3)];
    assert_eq!(validate_schema(&schema), Err(EncodeError::SchemaError));
}

#[test]
fn validate_rejects_overflowing_int_max() {
    // Two bits can represent at most 3.
    let schema = vec![int_col("A", 2, 5)];
    assert_eq!(validate_schema(&schema), Err(EncodeError::SchemaError));
    assert_eq!(validate_schema(&[int_col("A", 2, 3)]), Ok(()));
}

#[test]
fn validate_rejects_narrow_enum() {
    let schema = vec![enum_col("E", 1, &["a", "b", "c"])];
    assert_eq!(validate_schema(&schema), Err(EncodeError::SchemaError));
    assert_eq!(validate_schema(&[enum_col("E", 2, &["a", "b", "c"])]), Ok(()));
}

#[test]
fn validate_rejects_empty_schema() {
    assert_eq!(validate_schema(&[]), Err(EncodeError::SchemaError));
}

#[test]
fn validate_skips_checks_for_zero_width_columns() {
    // A zero-width Int column is never range-checked, and an Enum with
    // one value needs no bits at all.
    assert_eq!(validate_schema(&[int_col("A", 0, 99)]), Ok(()));
    assert_eq!(validate_schema(&[enum_col("E", 0, &["only"])]), Ok(()));
}

#[test]
fn default_schema_is_valid() {
    let schema = get_default_schema();
    assert_eq!(schema.len(), 35);
    assert_eq!(validate_schema(&schema), Ok(()));
    assert_eq!(schema[0].name(), "ScoutName");
    assert_eq!(schema[34].name(), "Notes");
}

#[test]
fn bitplanes_are_packed_plane_major_msb_first() {
    // One column, two bits, rows [1, 0, 1]: the high plane is 000, the
    // low plane 101; each plane is flushed left-justified.
    let packed = pack_columnar_bitplanes(&[vec![1, 0, 1]], &[2]);
    assert_eq!(packed, vec![0x00, 0xA0]);
}

#[test]
fn bitplanes_skip_zero_width_columns() {
    let packed = pack_columnar_bitplanes(&[vec![1, 1, 1]], &[0]);
    assert_eq!(packed, Vec::<u8>::new());
}

#[test]
fn bitplanes_split_nine_rows_across_bytes() {
    // Nine rows of a one-bit column: eight bits fill one byte, the
    // ninth starts a new byte, left-justified.
    let packed = pack_columnar_bitplanes(&[vec![1, 1, 1, 1, 1, 1, 1, 1, 1]], &[1]);
    assert_eq!(packed, vec![0xFF, 0x80]);
}

#[test]
fn bitplanes_keep_column_order() {
    let packed = pack_columnar_bitplanes(&[vec![1], vec![0]], &[1, 1]);
    assert_eq!(packed, vec![0x80, 0x00]);
}

#[test]
fn whitespace_table_matches_std() {
    // Cell trimming classifies characters by an explicit White_Space
    // table; it must agree with the standard library on every scalar.
    for u in 0..=0x10FFFFu32 {
        if let Some(c) = char::from_u32(u) {
            assert_eq!(
                scouting_data_compression::cells::char_is_whitespace(c),
                c.is_whitespace(),
                "mismatch at U+{:04X}",
                u
            );
        }
    }
}

#[test]
fn read_csv_parses_headers_and_rows() {
    let (headers, rows) = read_csv(b"A,B\n1,2\n3,4\n").unwrap();
    assert_eq!(headers, vec!["A".to_string(), "B".to_string()]);
    assert_eq!(rows, vec![vec!["1".to_string(), "2".to_string()], vec![
        "3".to_string(),
        "4".to_string(),
    ]]);
}

#[test]
fn read_csv_rejects_empty_table() {
    assert_eq!(read_csv(b"A,B\n"), Err(EncodeError::InputError));
    assert_eq!(read_csv(b""), Err(EncodeError::InputError));
}

#[test]
fn encode_builds_versioned_container() {
    let schema = vec![int_col("A", 2, 3)];
    let headers = vec!["A".to_string()];
    let rows = vec![vec!["2".to_string()]];
    let packed = encode(&headers, &rows, Some(&schema)).unwrap();
    assert_eq!(&packed[..8], b"SCOUTPK5");
    assert_eq!(&packed[8..12], &[0, 0, 0, 1]);
    // The payload is the zstd-compressed bit-plane stream: value 2 over
    // two planes is 0x80, 0x00.
    let payload = zstd::decode_all(&packed[12..]).unwrap();
    assert_eq!(payload, vec![0x80, 0x00]);
}

#[test]
fn encode_trims_and_range_checks_int_cells() {
    let schema = vec![int_col("A", 4, 12)];
    let headers = vec!["A".to_string()];
    let ok = encode(&headers, &vec![vec![" 7 ".to_string()]], Some(&schema));
    assert!(ok.is_ok());
    let over = encode(&headers, &vec![vec!["13".to_string()]], Some(&schema));
    assert_eq!(over, Err(EncodeError::InputError));
    let junk = encode(&headers, &vec![vec!["x7".to_string()]], Some(&schema));
    assert_eq!(junk, Err(EncodeError::InputError));
}

#[test]
fn encode_accepts_plus_sign_and_rejects_bad_integers() {
    let schema = vec![int_col("A", 4, 12)];
    let headers = vec!["A".to_string()];
    assert!(encode(&headers, &vec![vec!["+7".to_string()]], Some(&schema)).is_ok());
    let empty = encode(&headers, &vec![vec!["".to_string()]], Some(&schema));
    assert_eq!(empty, Err(EncodeError::InputError));
    let huge = encode(
        &headers,
        &vec![vec!["99999999999999999999999".to_string()]],
        Some(&schema),
    );
    assert_eq!(huge, Err(EncodeError::InputError));
    let negative = encode(&headers, &vec![vec!["-1".to_string()]], Some(&schema));
    assert_eq!(negative, Err(EncodeError::InputError));
}

#[test]
fn encode_matches_enum_cells_exactly() {
    let schema = vec![enum_col("E", 2, &["red", "green", "blue"])];
    let headers = vec!["E".to_string()];
    let packed = encode(&headers, &vec![vec!["blue".to_string()]], Some(&schema)).unwrap();
    let payload = zstd::decode_all(&packed[12..]).unwrap();
    // Index 2 over two planes: high plane 1, low plane 0.
    assert_eq!(payload, vec![0x80, 0x00]);
    let miss = encode(&headers, &vec![vec!["BLUE".to_string()]], Some(&schema));
    assert_eq!(miss, Err(EncodeError::InputError));
}

#[test]
fn encode_later_duplicate_enum_value_wins() {
    // The lookup is built by inserting values in order, so a duplicated
    // value resolves to its last position.
    let schema = vec![enum_col("E", 2, &["a", "b", "a"])];
    let headers = vec!["E".to_string()];
    let packed = encode(&headers, &vec![vec!["a".to_string()]], Some(&schema)).unwrap();
    let payload = zstd::decode_all(&packed[12..]).unwrap();
    assert_eq!(payload, vec![0x80, 0x00]);
}

#[test]
fn encode_requires_every_schema_column_header() {
    let schema = vec![int_col("A", 1, 1), int_col("B", 0, 0)];
    // Even the zero-width column's header must exist.
    let r = encode(&["A".to_string()], &vec![vec!["1".to_string()]], Some(&schema));
    assert_eq!(r, Err(EncodeError::InputError));
}

#[test]
fn encode_rejects_short_rows() {
    let schema = vec![int_col("A", 1, 1), int_col("B", 1, 1)];
    let headers = vec!["A".to_string(), "B".to_string()];
    let r = encode(&headers, &vec![vec!["1".to_string()]], Some(&schema));
    assert_eq!(r, Err(EncodeError::InputError));
}

#[test]
fn encode_rejects_invalid_schema() {
    let schema = vec![int_col("A", 2, 5)];
    let r = encode(&["A".to_string()], &vec![vec!["1".to_string()]], Some(&schema));
    assert_eq!(r, Err(EncodeError::SchemaError));
}

#[test]
fn zero_width_cells_are_never_read() {
    // Whatever sits in a zero-width column's cells, the encode succeeds
    // and produces the same container.
    let schema = vec![int_col("A", 2, 3), int_col("Junk", 0, 0)];
    let headers = vec!["A".to_string(), "Junk".to_string()];
    let one = encode(
        &headers,
        &vec![vec!["2".to_string(), "!!!not a number!!!".to_string()]],
        Some(&schema),
    )
    .unwrap();
    let two = encode(
        &headers,
        &vec![vec!["2".to_string(), "99999999".to_string()]],
        Some(&schema),
    )
    .unwrap();
    assert_eq!(one, two);
}

#[test]
fn encode_single_row_against_default_schema() {
    let schema = get_default_schema();
    let headers: Vec<String> = schema.iter().map(|c| c.name().to_string()).collect();
    let row: Vec<String> = schema
        .iter()
        .map(|c| match c {
            ColumnSchema::Int { .. } => "1".to_string(),
            ColumnSchema::Enum { values, .. } => values[values.len() - 1].clone(),
        })
        .collect();
    let packed = encode(&headers, &vec![row], None).unwrap();
    assert_eq!(&packed[..8], b"SCOUTPK5");
    assert_eq!(&packed[8..12], &[0, 0, 0, 1]);
}
