//! Round trips of whole request and response frames, and decoding of error
//! frames, over an in-memory byte buffer standing for the transport.
use alesia_client::dto::ColumnData;
use alesia_client::dto::DataType;
use alesia_client::dto::QueryDTO;
use alesia_client::dto::QueryType;
use alesia_client::dto::ResponseDTO;
use alesia_client::dto::TableRowDTO;
use alesia_client::errors::AlesiaError;
use alesia_client::errors::BackendError;
use alesia_client::errors::Error;
use alesia_client::frame::read_frame;
use alesia_client::frame::write_frame;
use alesia_client::session::encode_request;
use alesia_client::session::interpret_response;

#[test]
fn test_request_roundtrip() {
    let request = QueryDTO {
        query: "SELECT * FROM test_table".to_string(),
        query_type: QueryType::QUERY,
        params: vec![],
    };

    let buffer = encode_request(&request).unwrap();

    let (message_code, payload, end) = read_frame(&buffer, 0).unwrap();

    println!("Code: {}", &message_code);
    println!("Length: {}", payload.len());
    assert_eq!(end, buffer.len());

    let deserialized_request = QueryDTO::deserialize(&payload).unwrap();

    assert_eq!(request.query, deserialized_request.query);
    assert_eq!(request.query_type, deserialized_request.query_type);
    assert_eq!(request.params, deserialized_request.params);
}

#[test]
fn test_response_roundtrip() {
    let response = ResponseDTO {
        status: "OK".to_string(),
        rows_affected: 1,
        rows: vec![],
        column_count: 0,
        column_names: vec![],
    };

    let payload = response.serialize();
    let mut buffer: Vec<u8> = Vec::new();
    write_frame(&mut buffer, 4, &payload);

    let (code, body, _) = read_frame(&buffer, 0).unwrap();
    let deserialized_response = interpret_response(code, &body).unwrap();

    assert_eq!(response.status, deserialized_response.status);
    assert_eq!(response.rows_affected, deserialized_response.rows_affected);
    assert_eq!(response.rows, deserialized_response.rows);
    assert_eq!(response.column_count, deserialized_response.column_count);
    assert_eq!(response.column_names, deserialized_response.column_names);
}

#[test]
fn test_deserialize_io_error_response() {
    let io_error = Error::io(AlesiaError("Error message".to_string()));
    let (code, payload) = io_error.serialize();
    let mut buffer: Vec<u8> = Vec::new();
    write_frame(&mut buffer, code, &payload);

    let (read_code, body, _) = read_frame(&buffer, 0).unwrap();
    let response_error = interpret_response(read_code, &body);
    assert!(response_error.is_err());
}

#[test]
fn test_deserialize_config_error() {
    let config_error = Error::ConfigError(AlesiaError("Config error message".to_string()));
    let (code, payload) = config_error.serialize();
    let mut buffer: Vec<u8> = Vec::new();
    write_frame(&mut buffer, code, &payload);

    let (read_code, body, _) = read_frame(&buffer, 0).unwrap();
    let response_error = interpret_response(read_code, &body);

    assert!(response_error.is_err());
    assert_eq!(response_error.err().unwrap().message(), "Config error message");
}

#[test]
fn test_deserialize_invalid_query_error() {
    let invalid_query_error = Error::InvalidQuery(AlesiaError(
        "Invalid query error message".to_string(),
    ));
    let (code, payload) = invalid_query_error.serialize();
    let mut buffer: Vec<u8> = Vec::new();
    write_frame(&mut buffer, code, &payload);

    let (read_code, body, _) = read_frame(&buffer, 0).unwrap();
    let response_error = interpret_response(read_code, &body);

    assert!(response_error.is_err());
    assert_eq!(response_error.err().unwrap().message(), "Invalid query error message");
}

#[test]
fn test_deserialize_rusqlite_error() {
    // The remote storage engine's "query is not read-only" failure arrives
    // as a generic storage-layer error carrying its message.
    let rusqlite_error = Error::Backend(BackendError::Other(AlesiaError(
        "Query is not read-only".to_string(),
    )));
    let (code, payload) = rusqlite_error.serialize();
    let mut buffer: Vec<u8> = Vec::new();
    write_frame(&mut buffer, code, &payload);

    let (read_code, body, _) = read_frame(&buffer, 0).unwrap();
    let response_error = interpret_response(read_code, &body);

    assert!(response_error.is_err());
    assert_eq!(response_error.err().unwrap().message(), "Query is not read-only");
}

#[test]
fn request_roundtrip_with_params() {
    let request = QueryDTO {
        query: "INSERT INTO t (a, b, c) VALUES (?1, ?2, ?3)".to_string(),
        query_type: QueryType::INSERT,
        params: vec![
            ColumnData { data: "-42".to_string(), data_type: DataType::INTEGER },
            ColumnData { data: "sp;ici:al=chars\u{e9}\u{4e16}".to_string(), data_type: DataType::TEXT },
            ColumnData { data: String::new(), data_type: DataType::NULL },
        ],
    };
    let bytes = request.serialize();
    let back = QueryDTO::deserialize(&bytes).unwrap();
    assert_eq!(request, back);
}

#[test]
fn response_roundtrip_with_rows() {
    let response = ResponseDTO {
        status: "OK".to_string(),
        rows_affected: 0,
        rows: vec![
            TableRowDTO {
                columns: vec![
                    ColumnData { data: "1".to_string(), data_type: DataType::INTEGER },
                    ColumnData { data: "alice".to_string(), data_type: DataType::TEXT },
                ],
            },
            TableRowDTO {
                columns: vec![
                    ColumnData { data: "2".to_string(), data_type: DataType::INTEGER },
                    ColumnData { data: "bob".to_string(), data_type: DataType::TEXT },
                ],
            },
        ],
        column_count: 2,
        column_names: vec!["id".to_string(), "name".to_string()],
    };
    let bytes = response.serialize();
    let back = ResponseDTO::deserialize(&bytes).unwrap();
    assert_eq!(response, back);
}

#[test]
fn deserialize_rejects_garbage() {
    assert!(QueryDTO::deserialize(&b"not a request".to_vec()).is_err());
    assert!(ResponseDTO::deserialize(&b"status=2:OK".to_vec()).is_err());
    assert!(QueryDTO::deserialize(&vec![0xff, 0xfe, 0x00]).is_err());
    assert!(QueryDTO::deserialize(&Vec::new()).is_err());
}

#[test]
fn deserialize_rejects_non_canonical_length() {
    // A length prefix with a redundant leading zero is not something the
    // serializer emits, so the strict parser refuses it.
    let canonical = b"query=1:q;query_type=QUERY;params=0:;".to_vec();
    assert!(QueryDTO::deserialize(&canonical).is_ok());
    let padded = b"query=01:q;query_type=QUERY;params=0:;".to_vec();
    assert!(QueryDTO::deserialize(&padded).is_err());
    let trailing = b"query=1:q;query_type=QUERY;params=0:;x".to_vec();
    assert!(QueryDTO::deserialize(&trailing).is_err());
}

#[test]
fn response_roundtrip_boundary_counts() {
    let response = ResponseDTO {
        status: String::new(),
        rows_affected: usize::MAX,
        rows: vec![],
        column_count: 0,
        column_names: vec![],
    };
    let bytes = response.serialize();
    let back = ResponseDTO::deserialize(&bytes).unwrap();
    assert_eq!(response, back);
}

#[test]
fn deserialize_rejects_truncated_payload() {
    let response = ResponseDTO {
        status: "OK".to_string(),
        rows_affected: 2,
        rows: vec![],
        column_count: 0,
        column_names: vec![],
    };
    let bytes = response.serialize();
    for cut in 0..bytes.len() {
        assert!(ResponseDTO::deserialize(&bytes[..cut].to_vec()).is_err());
    }
}

#[test]
fn deserialize_rejects_wrong_field_order() {
    let shuffled = b"query_type=QUERY;query=1:q;params=0:;".to_vec();
    assert!(QueryDTO::deserialize(&shuffled).is_err());
}

#[test]
fn deserialize_rejects_wrong_list_count() {
    // claims two parameters but carries only one
    let short = b"query=1:q;query_type=QUERY;params=2:data=1:5;data_type=INTEGER;;".to_vec();
    assert!(QueryDTO::deserialize(&short).is_err());
}
