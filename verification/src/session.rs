//! The per-call pipeline of a client session, in its transport-free parts.
//!
//! A session owns one live transport and drives one request/response
//! exchange per call. Everything around the two blocking I/O steps is here
//! and verified: building the request record, encoding it into one complete
//! frame, interpreting the reply frame (success payload, error frame, or
//! garbage), and shaping the result rows. The unverified binary only moves
//! bytes and tracks its socket.
//!
//! A transport-level failure poisons the session: [`SessionHealth`] is the
//! state machine that records this, and a poisoned session must be replaced,
//! never reused.
use vstd::prelude::*;
use vstd::string::StringExecFns;

use crate::dto::ColumnData;
use crate::dto::QueryDTO;
use crate::dto::QueryType;
use crate::dto::ResponseDTO;
use crate::dto::cols_view;
use crate::dto::wf_response;
use crate::errors::AlesiaError;
use crate::errors::Error;
use crate::errors::ErrorKind;
use crate::errors::bad_utf8_text;
use crate::errors::spec_decode_error;
use crate::frame::spec_frame;
use crate::frame::write_frame;
use crate::structs::TableRow;
use crate::wire::bytes_to_string;
use crate::wire::response_fits;
use crate::wire::wire_request;
use crate::wire::wire_response;

verus! {

/// The frame code a request is sent under, decided by its statement kind
/// alone.
pub open spec fn spec_request_code(qt: QueryType) -> u8 {
    match qt {
        QueryType::QUERY => 1,
        QueryType::EXEC => 2,
        QueryType::INSERT => 3,
    }
}

/// Builds the request record for one call.
pub fn build_request(query: &str, params: &Vec<ColumnData>, query_type: QueryType) -> (r: QueryDTO)
    ensures
        r@.query == query@,
        r@.query_type == query_type,
        r@.params == cols_view(params@),
{
    QueryDTO { query: query.to_owned(), query_type, params: crate::structs::copy_columns(params) }
}

/// Encodes one request as a complete frame: its code byte picked from the
/// statement kind, the payload length, and the serialized payload. Fails
/// only when the payload cannot be carried by the 32-bit length field.
pub fn encode_request(req: &QueryDTO) -> (r: Result<Vec<u8>, Error>)
    ensures
        r matches Ok(b) ==> wire_request(req@).len() <= u32::MAX && b@ == spec_frame(
            spec_request_code(req@.query_type),
            wire_request(req@),
        ),
        r matches Err(e) ==> wire_request(req@).len() > u32::MAX && e@.kind == ErrorKind::Io,
{
    let payload = req.serialize();
    if payload.len() as u64 > 0xFFFF_FFFFu64 {
        return Err(Error::io(AlesiaError(String::from_str("request payload too large"))));
    }
    let code: u8 = match req.query_type {
        QueryType::QUERY => 1,
        QueryType::EXEC => 2,
        QueryType::INSERT => 3,
    };
    let mut out: Vec<u8> = Vec::new();
    write_frame(&mut out, code, &payload);
    proof {
        assert(out@ =~= spec_frame(spec_request_code(req@.query_type), wire_request(req@)));
    }
    Ok(out)
}

/// Interprets one reply frame. A success frame (code 4) must carry a
/// well-formed response payload; any other code is an error frame whose
/// payload is UTF-8 error text, mapped onto the local error taxonomy, with
/// malformed UTF-8 itself a transport error.
pub fn interpret_response(code: u8, payload: &Vec<u8>) -> (r: Result<ResponseDTO, Error>)
    ensures
        code == 4 ==> (r matches Ok(d) ==> response_fits(d@) && payload@ == wire_response(d@)),
        code == 4 ==> (forall|x: crate::dto::ResponseDTOV|
            response_fits(x) && payload@ == #[trigger] wire_response(x) ==> (r matches Ok(d) && d@
                == x)),
        code == 4 ==> (r matches Err(e) ==> e@.kind == ErrorKind::Io),
        code != 4 && vstd::utf8::valid_utf8(payload@) ==> (r matches Err(e) && e@
            == spec_decode_error(code, vstd::utf8::decode_utf8(payload@))),
        code != 4 && !vstd::utf8::valid_utf8(payload@) ==> (r matches Err(e) && e@.kind
            == ErrorKind::Io && e@.message == bad_utf8_text()),
{
    if code == 4 {
        ResponseDTO::deserialize(payload)
    } else {
        match bytes_to_string(payload) {
            Some(text) => Err(Error::decode(code, text)),
            None => Err(
                Error::io(AlesiaError(String::from_str("invalid UTF-8 in error payload"))),
            ),
        }
    }
}

/// Shapes a response's rows into name-addressable rows, each carrying the
/// response's column names.
pub fn query_rows(response: &ResponseDTO) -> (r: Vec<TableRow>)
    ensures
        r@.len() == response@.rows.len(),
        forall|i: int|
            0 <= i < r@.len() ==> (#[trigger] r@[i])@.column_names == response@.column_names
                && r@[i]@.columns == response@.rows[i].columns,
{
    let mut out: Vec<TableRow> = Vec::new();
    let mut i: usize = 0;
    while i < response.rows.len()
        invariant
            i <= response@.rows.len(),
            out@.len() == i,
            forall|j: int|
                0 <= j < i ==> (#[trigger] out@[j])@.column_names == response@.column_names
                    && out@[j]@.columns == response@.rows[j].columns,
        decreases response@.rows.len() - i,
    {
        out.push(TableRow::from(response, &response.rows[i]));
        i = i + 1;
    }
    out
}

/// Whether a response satisfies its structural invariant: the column-name
/// list and every row agree with the declared column count.
pub fn check_response(response: &ResponseDTO) -> (r: bool)
    ensures
        r == wf_response(response@),
{
    if response.column_names.len() != response.column_count {
        return false;
    }
    let mut i: usize = 0;
    while i < response.rows.len()
        invariant
            i <= response@.rows.len(),
            response@.column_names.len() == response@.column_count,
            forall|j: int|
                0 <= j < i ==> (#[trigger] response@.rows[j]).columns.len()
                    == response@.column_count,
        decreases response@.rows.len() - i,
    {
        if response.rows[i].columns.len() != response.column_count {
            proof {
                assert(response@.rows[i as int] == response.rows@[i as int]@);
                assert(response@.rows[i as int].columns.len() == response.rows@[i as int].columns@.len());
            }
            return false;
        }
        i = i + 1;
    }
    true
}

/// The affected-row count a write-style call reports.
pub fn exec_result(response: &ResponseDTO) -> (r: usize)
    ensures
        r == response@.rows_affected,
{
    response.rows_affected
}

/// The health of one session: a transport-level failure poisons it, and a
/// poisoned session is never usable again; any other outcome leaves it as
/// it was.
pub struct SessionHealth {
    poisoned: bool,
}

impl SessionHealth {
    /// Whether the session has seen a transport-level failure.
    pub closed spec fn is_poisoned(&self) -> bool {
        self.poisoned
    }

    /// A fresh session is healthy.
    pub fn new() -> (r: SessionHealth)
        ensures
            !r.is_poisoned(),
    {
        SessionHealth { poisoned: false }
    }

    /// Records the outcome of one exchange: a transport-level error poisons
    /// the session; success or a remote-side error leaves it unchanged.
    pub fn record<T>(&mut self, outcome: &Result<T, Error>)
        ensures
            final(self).is_poisoned() == (old(self).is_poisoned() || (outcome matches Err(e)
                && e@.kind == ErrorKind::Io)),
    {
        match outcome {
            Err(Error::IoError(_)) => {
                self.poisoned = true;
            },
            _ => {
            },
        }
    }

    /// Whether this session must be replaced before the next call.
    pub fn is_broken(&self) -> (r: bool)
        ensures
            r == self.is_poisoned(),
    {
        self.poisoned
    }
}

} // verus!
