//! The value codec: native values in and out of tagged column values.
use alesia_client::codec::DecodeError;
use alesia_client::codec::int_to_text;
use alesia_client::dto::ColumnData;
use alesia_client::dto::DataType;
use alesia_client::structs::ToColumnDate;

#[test]
fn integer_roundtrip() {
    for v in [0i32, 1, -1, 7, 42, 65536, -65536, i32::MAX, i32::MIN] {
        let col = v.to_sql();
        assert_eq!(col.data_type, DataType::INTEGER);
        assert_eq!(col.decode_integer(), Ok(v));
    }
}

#[test]
fn integer_encoding_exact() {
    assert_eq!(int_to_text(0), "0");
    assert_eq!(int_to_text(-7), "-7");
    assert_eq!(int_to_text(2147483647), "2147483647");
    assert_eq!(int_to_text(-2147483648), "-2147483648");
}

#[test]
fn text_roundtrip() {
    for s in ["", "hello", "with space", "funky;=:chars"] {
        let col = s.to_string().to_sql();
        assert_eq!(col.data_type, DataType::TEXT);
        assert_eq!(col.decode_text(), s);
    }
}

#[test]
fn blob_decode_is_raw_bytes() {
    let col = ColumnData { data: "abc".to_string(), data_type: DataType::BLOB };
    assert_eq!(col.decode_blob(), b"abc".to_vec());
}

#[test]
fn null_decode_paths() {
    assert!(ColumnData::null().decode_null().is_ok());
    let text = ColumnData { data: "x".to_string(), data_type: DataType::TEXT };
    assert_eq!(text.decode_null(), Err(DecodeError::KindMismatch));
}

#[test]
fn integer_decode_rejects_malformed() {
    for bad in ["", "abc", "12.5", "1e3", "-", "+", "4 2", " 42", "42 "] {
        let col = ColumnData { data: bad.to_string(), data_type: DataType::INTEGER };
        assert_eq!(col.decode_integer(), Err(DecodeError::Malformed));
    }
}

#[test]
fn integer_decode_rejects_out_of_range() {
    for big in ["2147483648", "-2147483649", "99999999999999999999"] {
        let col = ColumnData { data: big.to_string(), data_type: DataType::INTEGER };
        assert_eq!(col.decode_integer(), Err(DecodeError::OutOfRange));
    }
}

#[test]
fn integer_decode_accepts_redundant_forms() {
    let plus = ColumnData { data: "+7".to_string(), data_type: DataType::INTEGER };
    assert_eq!(plus.decode_integer(), Ok(7));
    let zeros = ColumnData { data: "007".to_string(), data_type: DataType::INTEGER };
    assert_eq!(zeros.decode_integer(), Ok(7));
    let negzero = ColumnData { data: "-0".to_string(), data_type: DataType::INTEGER };
    assert_eq!(negzero.decode_integer(), Ok(0));
}

#[test]
fn column_well_formedness() {
    let ok = [
        ("", DataType::NULL),
        ("42", DataType::INTEGER),
        ("-42", DataType::INTEGER),
        ("1.5", DataType::FLOAT),
        ("-1.5e-3", DataType::FLOAT),
        ("2E10", DataType::FLOAT),
        ("3", DataType::FLOAT),
        ("anything at all", DataType::TEXT),
        ("anything at all", DataType::BLOB),
    ];
    for (data, data_type) in ok {
        let col = ColumnData { data: data.to_string(), data_type };
        assert!(col.is_well_formed(), "expected well-formed: {:?}", data);
    }
    let bad = [
        ("x", DataType::NULL),
        ("", DataType::INTEGER),
        ("1.5", DataType::INTEGER),
        ("", DataType::FLOAT),
        ("1.", DataType::FLOAT),
        (".5", DataType::FLOAT),
        ("1e", DataType::FLOAT),
        ("e5", DataType::FLOAT),
        ("1.5e", DataType::FLOAT),
        ("nan", DataType::FLOAT),
    ];
    for (data, data_type) in bad {
        let col = ColumnData { data: data.to_string(), data_type };
        assert!(!col.is_well_formed(), "expected ill-formed: {:?}", data);
    }
}
