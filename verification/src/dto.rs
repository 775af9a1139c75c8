//! The data-transfer records exchanged with the remote query engine, together
//! with their mathematical views: a request (statement, statement kind,
//! positional parameters) and a response (status, affected-row count, rows,
//! and column naming metadata).
use vstd::prelude::*;

verus! {

/// The declared kind of one column value; `data` of a [`ColumnData`] is the
/// textual payload interpreted under this kind.
#[derive(Clone, Copy, Debug, PartialEq, Eq, Structural)]
#[allow(non_camel_case_types)]
pub enum DataType {
    NULL,
    INTEGER,
    FLOAT,
    TEXT,
    BLOB,
}

/// The kind of statement a request carries; it selects the request's frame
/// code on the wire.
#[derive(Clone, Copy, Debug, PartialEq, Eq, Structural)]
#[allow(non_camel_case_types)]
pub enum QueryType {
    EXEC,
    QUERY,
    INSERT,
}

/// One cell of data in transit: a text-encoded payload and its declared kind.
#[derive(Clone, Debug, PartialEq)]
pub struct ColumnData {
    pub data: String,
    pub data_type: DataType,
}

/// Mathematical view of a [`ColumnData`].
#[verifier::ext_equal]
pub struct ColumnDataV {
    pub data: Seq<char>,
    pub data_type: DataType,
}

impl View for ColumnData {
    type V = ColumnDataV;

    open spec fn view(&self) -> ColumnDataV {
        ColumnDataV { data: self.data@, data_type: self.data_type }
    }
}

/// View of a sequence of columns, element by element.
pub open spec fn cols_view(cs: Seq<ColumnData>) -> Seq<ColumnDataV> {
    cs.map_values(|c: ColumnData| c@)
}

/// One row of a response: its cells, positionally aligned with the parent
/// response's column names.
#[derive(Clone, Debug, PartialEq)]
pub struct TableRowDTO {
    pub columns: Vec<ColumnData>,
}

/// Mathematical view of a [`TableRowDTO`].
#[verifier::ext_equal]
pub struct TableRowDTOV {
    pub columns: Seq<ColumnDataV>,
}

impl View for TableRowDTO {
    type V = TableRowDTOV;

    open spec fn view(&self) -> TableRowDTOV {
        TableRowDTOV { columns: cols_view(self.columns@) }
    }
}

/// View of a sequence of rows, element by element.
pub open spec fn rows_view(rs: Seq<TableRowDTO>) -> Seq<TableRowDTOV> {
    rs.map_values(|r: TableRowDTO| r@)
}

/// View of a sequence of column names, element by element.
pub open spec fn names_view(ns: Seq<String>) -> Seq<Seq<char>> {
    ns.map_values(|n: String| n@)
}

/// A statement to run remotely: the text, its kind, and its parameters.
#[derive(Clone, Debug, PartialEq)]
pub struct QueryDTO {
    pub query: String,
    pub query_type: QueryType,
    pub params: Vec<ColumnData>,
}

/// Mathematical view of a [`QueryDTO`].
#[verifier::ext_equal]
pub struct QueryDTOV {
    pub query: Seq<char>,
    pub query_type: QueryType,
    pub params: Seq<ColumnDataV>,
}

impl View for QueryDTO {
    type V = QueryDTOV;

    open spec fn view(&self) -> QueryDTOV {
        QueryDTOV {
            query: self.query@,
            query_type: self.query_type,
            params: cols_view(self.params@),
        }
    }
}

/// The remote engine's answer to one request.
#[derive(Clone, Debug, PartialEq)]
pub struct ResponseDTO {
    pub status: String,
    pub rows_affected: usize,
    pub rows: Vec<TableRowDTO>,
    pub column_count: usize,
    pub column_names: Vec<String>,
}

/// Mathematical view of a [`ResponseDTO`].
#[verifier::ext_equal]
pub struct ResponseDTOV {
    pub status: Seq<char>,
    pub rows_affected: usize,
    pub rows: Seq<TableRowDTOV>,
    pub column_count: usize,
    pub column_names: Seq<Seq<char>>,
}

impl View for ResponseDTO {
    type V = ResponseDTOV;

    open spec fn view(&self) -> ResponseDTOV {
        ResponseDTOV {
            status: self.status@,
            rows_affected: self.rows_affected,
            rows: rows_view(self.rows@),
            column_count: self.column_count,
            column_names: names_view(self.column_names@),
        }
    }
}

/// Structural invariant of a response: the column-name list and every row
/// agree with the declared column count.
pub open spec fn wf_response(r: ResponseDTOV) -> bool {
    &&& r.column_names.len() == r.column_count
    &&& forall|i: int|
        0 <= i < r.rows.len() ==> (#[trigger] r.rows[i]).columns.len() == r.column_count
}

} // verus!
