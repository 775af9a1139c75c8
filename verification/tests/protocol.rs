//! Framing, the error-code taxonomy, the pool-manager handle, and the three
//! call scenarios a session drives.
use alesia_client::dto::ColumnData;
use alesia_client::dto::DataType;
use alesia_client::dto::QueryDTO;
use alesia_client::dto::QueryType;
use alesia_client::dto::ResponseDTO;
use alesia_client::dto::TableRowDTO;
use alesia_client::errors::AlesiaError;
use alesia_client::errors::BackendError;
use alesia_client::errors::Error;
use alesia_client::frame::MessageCode;
use alesia_client::frame::read_frame;
use alesia_client::frame::write_frame;
use alesia_client::manager::AlesiaConnectionManager;
use alesia_client::num::parse_num;
use alesia_client::session::SessionHealth;
use alesia_client::session::build_request;
use alesia_client::session::check_response;
use alesia_client::session::encode_request;
use alesia_client::session::exec_result;
use alesia_client::session::interpret_response;
use alesia_client::session::query_rows;
use alesia_client::structs::TableRow;

fn frame_roundtrip(code: u8, payload: Vec<u8>) {
    let mut buffer: Vec<u8> = Vec::new();
    write_frame(&mut buffer, code, &payload);
    assert_eq!(buffer.len(), 5 + payload.len());
    let (read_code, read_payload, end) = read_frame(&buffer, 0).unwrap();
    assert_eq!(read_code, code);
    assert_eq!(read_payload, payload);
    assert_eq!(end, buffer.len());
}

#[test]
fn frame_roundtrip_payload_sizes() {
    frame_roundtrip(1, Vec::new());
    frame_roundtrip(4, vec![0xab]);
    // larger than 64 KiB, since the length field is 32 bits wide
    let big: Vec<u8> = (0..70_000u32).map(|i| (i % 251) as u8).collect();
    frame_roundtrip(53, big);
}

#[test]
fn frame_layout_is_code_then_length_then_payload() {
    let mut buffer: Vec<u8> = Vec::new();
    write_frame(&mut buffer, 2, &vec![9, 8, 7]);
    assert_eq!(buffer, vec![2, 0, 0, 0, 3, 9, 8, 7]);
}

#[test]
fn read_frame_rejects_truncation() {
    let mut buffer: Vec<u8> = Vec::new();
    write_frame(&mut buffer, 4, &vec![1, 2, 3, 4, 5]);
    for cut in 0..buffer.len() {
        assert!(read_frame(&buffer[..cut].to_vec(), 0).is_none());
    }
    assert!(read_frame(&buffer, 0).is_some());
}

#[test]
fn consecutive_frames_read_back_to_back() {
    let mut buffer: Vec<u8> = Vec::new();
    write_frame(&mut buffer, 1, &vec![10]);
    write_frame(&mut buffer, 2, &vec![20, 21]);
    let (c1, p1, mid) = read_frame(&buffer, 0).unwrap();
    let (c2, p2, end) = read_frame(&buffer, mid).unwrap();
    assert_eq!((c1, p1), (1, vec![10]));
    assert_eq!((c2, p2), (2, vec![20, 21]));
    assert_eq!(end, buffer.len());
}

#[test]
fn message_code_roundtrip() {
    let codes = [
        MessageCode::RequestQuery,
        MessageCode::RequestExec,
        MessageCode::RequestInsert,
        MessageCode::SuccessResponse,
        MessageCode::Error(51),
        MessageCode::Error(99),
    ];
    for code in codes {
        assert_eq!(MessageCode::from_u8(code.to_u8()), code);
    }
    for byte in [1u8, 2, 3, 4, 51, 52, 56, 57, 255] {
        assert_eq!(MessageCode::from_u8(byte).to_u8(), byte);
    }
}

#[test]
fn error_codes_roundtrip() {
    let cases: Vec<(Error, u8)> = vec![
        (Error::io(AlesiaError("io".to_string())), 51),
        (Error::config(AlesiaError("cfg".to_string())), 52),
        (Error::invalid_query(AlesiaError("iq".to_string())), 53),
        (Error::Backend(BackendError::QueryReturnedNoRows), 54),
        (Error::Backend(BackendError::ExecuteReturnedResults), 55),
        (Error::Backend(BackendError::Other(AlesiaError("boom".to_string()))), 56),
    ];
    for (error, expected_code) in cases {
        let (code, payload) = error.serialize();
        assert_eq!(code, expected_code);
        let text = String::from_utf8(payload).unwrap();
        let decoded = Error::decode(code, text);
        assert_eq!(decoded, error);
    }
}

#[test]
fn unmapped_error_codes_decode_to_io() {
    for code in [51u8, 57, 60, 100, 255] {
        let decoded = Error::decode(code, "kept text".to_string());
        assert_eq!(decoded, Error::IoError(AlesiaError("kept text".to_string())));
    }
}

#[test]
fn error_frame_with_bad_utf8_is_io_error() {
    let result = interpret_response(53, &vec![0xff, 0xfe]);
    let error = result.err().unwrap();
    assert!(matches!(error, Error::IoError(_)));
    assert_eq!(error.message(), "invalid UTF-8 in error payload");
}

#[test]
fn query_empty_result_scenario() {
    // The client sends a QUERY request...
    let request = build_request("SELECT * FROM t", &Vec::new(), QueryType::QUERY);
    let mut wire: Vec<u8> = Vec::new();
    wire.extend(encode_request(&request).unwrap());

    // ... the peer reads it back intact ...
    let (code, payload, _) = read_frame(&wire, 0).unwrap();
    assert_eq!(code, 1);
    let seen = QueryDTO::deserialize(&payload).unwrap();
    assert_eq!(seen.query, "SELECT * FROM t");
    assert_eq!(seen.query_type, QueryType::QUERY);
    assert!(seen.params.is_empty());

    // ... and replies with an empty success response ...
    let response = ResponseDTO {
        status: "OK".to_string(),
        rows_affected: 0,
        rows: vec![],
        column_count: 0,
        column_names: vec![],
    };
    let mut reply: Vec<u8> = Vec::new();
    write_frame(&mut reply, 4, &response.serialize());

    // ... so the call returns an empty sequence of rows.
    let (reply_code, reply_payload, _) = read_frame(&reply, 0).unwrap();
    let decoded = interpret_response(reply_code, &reply_payload).unwrap();
    let rows = query_rows(&decoded);
    assert_eq!(rows.len(), 0);
}

#[test]
fn exec_scenario_reports_affected_rows() {
    let request = build_request("UPDATE t SET a = 1", &Vec::new(), QueryType::EXEC);
    let frame = encode_request(&request).unwrap();
    let (code, _, _) = read_frame(&frame, 0).unwrap();
    assert_eq!(code, 2);

    let response = ResponseDTO {
        status: "OK".to_string(),
        rows_affected: 3,
        rows: vec![],
        column_count: 0,
        column_names: vec![],
    };
    let decoded = interpret_response(4, &response.serialize()).unwrap();
    assert_eq!(exec_result(&decoded), 3);
}

#[test]
fn insert_request_uses_code_three() {
    let request = build_request("INSERT INTO t VALUES (1)", &Vec::new(), QueryType::INSERT);
    let frame = encode_request(&request).unwrap();
    let (code, _, _) = read_frame(&frame, 0).unwrap();
    assert_eq!(code, 3);
}

#[test]
fn syntax_error_scenario() {
    // The peer replies with an error frame, code 53, payload "syntax error".
    let mut reply: Vec<u8> = Vec::new();
    write_frame(&mut reply, 53, &b"syntax error".to_vec());

    let (code, payload, _) = read_frame(&reply, 0).unwrap();
    let result = interpret_response(code, &payload);
    let error = result.err().unwrap();
    assert!(matches!(error, Error::InvalidQuery(_)));
    assert_eq!(error.message(), "syntax error");
}

#[test]
fn truncated_reply_poisons_session() {
    // The transport closes before a full frame is read.
    let mut reply: Vec<u8> = Vec::new();
    write_frame(&mut reply, 4, &vec![1, 2, 3]);
    reply.truncate(6);

    let mut health = SessionHealth::new();
    assert!(!health.is_broken());

    let outcome: Result<ResponseDTO, Error> = match read_frame(&reply, 0) {
        Some((code, payload, _)) => interpret_response(code, &payload),
        None => Err(Error::io(AlesiaError("connection closed mid-frame".to_string()))),
    };
    assert!(outcome.is_err());
    health.record(&outcome);
    assert!(health.is_broken());
}

#[test]
fn remote_errors_leave_session_usable() {
    let mut health = SessionHealth::new();
    let rejected: Result<ResponseDTO, Error> = Err(Error::invalid_query(AlesiaError(
        "no such table".to_string(),
    )));
    health.record(&rejected);
    assert!(!health.is_broken());

    let backend: Result<ResponseDTO, Error> = Err(Error::Backend(
        BackendError::QueryReturnedNoRows,
    ));
    health.record(&backend);
    assert!(!health.is_broken());

    let fine: Result<(), Error> = Ok(());
    health.record(&fine);
    assert!(!health.is_broken());
}

#[test]
fn table_rows_are_name_addressable() {
    let response = ResponseDTO {
        status: "OK".to_string(),
        rows_affected: 0,
        rows: vec![TableRowDTO {
            columns: vec![
                ColumnData { data: "7".to_string(), data_type: DataType::INTEGER },
                ColumnData { data: "carol".to_string(), data_type: DataType::TEXT },
            ],
        }],
        column_count: 2,
        column_names: vec!["id".to_string(), "name".to_string()],
    };
    let rows = query_rows(&response);
    assert_eq!(rows.len(), 1);
    assert_eq!(rows[0].get(0).decode_integer(), Ok(7));
    assert_eq!(rows[0].get_by_name("name").decode_text(), "carol");
    assert_eq!(rows[0].get_by_name("id").data, "7");

    let row = TableRow::from(&response, &response.rows[0]);
    assert_eq!(row.get(1).data_type, DataType::TEXT);
}

#[test]
fn manager_accepts_host_port_targets() {
    let manager = AlesiaConnectionManager::new_from_url("127.0.0.1:8080").unwrap();
    assert_eq!(manager.path().as_str(), "127.0.0.1:8080");
    assert!(AlesiaConnectionManager::new_from_url("localhost:8000").is_ok());
    assert!(AlesiaConnectionManager::new_from_url("www.example.com:80").is_ok());
    assert!(AlesiaConnectionManager::new_from_url("[::1]:8000").is_ok());
}

#[test]
fn manager_rejects_malformed_targets() {
    for bad in ["invalid_url", "", ":80", "host:", "host:port", "host:70000", "host:80x"] {
        let result = AlesiaConnectionManager::new_from_url(bad);
        assert!(result.is_err(), "expected rejection: {:?}", bad);
        assert_eq!(result.err().unwrap().message(), "Invalid URL");
    }
}

#[test]
fn number_parser_is_strict() {
    assert_eq!(parse_num("12:", 0), Some((12, 3)));
    assert_eq!(parse_num("0:", 0), Some((0, 2)));
    assert_eq!(parse_num("x7:rest", 1), Some((7, 3)));
    assert_eq!(parse_num("012:", 0), None);
    assert_eq!(parse_num("12", 0), None);
    assert_eq!(parse_num(":", 0), None);
    assert_eq!(parse_num("99999999999999999999999:", 0), None);
}

#[test]
fn response_invariant_check() {
    let good = ResponseDTO {
        status: "OK".to_string(),
        rows_affected: 0,
        rows: vec![TableRowDTO {
            columns: vec![
                ColumnData { data: "1".to_string(), data_type: DataType::INTEGER },
                ColumnData { data: "x".to_string(), data_type: DataType::TEXT },
            ],
        }],
        column_count: 2,
        column_names: vec!["id".to_string(), "name".to_string()],
    };
    assert!(check_response(&good));

    let mut wrong_names = good.clone();
    wrong_names.column_names.pop();
    assert!(!check_response(&wrong_names));

    let mut short_row = good.clone();
    short_row.rows[0].columns.pop();
    assert!(!check_response(&short_row));

    let empty = ResponseDTO {
        status: "OK".to_string(),
        rows_affected: 0,
        rows: vec![],
        column_count: 0,
        column_names: vec![],
    };
    assert!(check_response(&empty));
}
