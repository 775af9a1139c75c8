//! The textual payload encoding of requests and responses.
//!
//! A record is laid out as a fixed sequence of named fields. Every number is
//! written as minimal decimal digits terminated by `:` ([`crate::num`]);
//! every string and every list is length-prefixed by such a number, so the
//! encoding is self-delimiting and needs no escaping. The parser accepts
//! exactly the strings the serializer produces: `serialize` relates the bytes
//! to the spec-level encoding, and `deserialize` states both soundness (an
//! accepted input is the encoding of the result) and completeness (the
//! encoding of any value is accepted and yields that value back).
use vstd::prelude::*;
use vstd::string::StrSliceExecFns;
use vstd::string::StringExecFns;

use crate::dto::ColumnData;
use crate::dto::ColumnDataV;
use crate::dto::DataType;
use crate::dto::QueryDTO;
use crate::dto::QueryDTOV;
use crate::dto::QueryType;
use crate::dto::ResponseDTO;
use crate::dto::ResponseDTOV;
use crate::dto::TableRowDTO;
use crate::dto::TableRowDTOV;
use crate::dto::cols_view;
use crate::dto::names_view;
use crate::dto::rows_view;
use crate::errors::AlesiaError;
use crate::errors::Error;
use crate::errors::ErrorKind;
use crate::num::emit_num;
use crate::num::parse_num;
use crate::num::spec_num;

verus! {

/// Relies on `String::from_utf8`: it succeeds exactly on input that is valid
/// UTF-8 and returns the string those bytes encode.
#[verifier::external_body]
pub fn bytes_to_string(bytes: &Vec<u8>) -> (r: Option<String>)
    ensures
        r matches Some(s) ==> vstd::utf8::valid_utf8(bytes@) && s@ == vstd::utf8::decode_utf8(
            bytes@,
        ),
        r is Some <== vstd::utf8::valid_utf8(bytes@),
{
    String::from_utf8(bytes.clone()).ok()
}

/// A string on the wire: its character count, then its characters verbatim.
pub open spec fn spec_str_field(s: Seq<char>) -> Seq<char> {
    spec_num(s.len()) + s
}

/// Keyword for a statement kind.
pub open spec fn spec_query_type(q: QueryType) -> Seq<char> {
    match q {
        QueryType::QUERY => "QUERY"@,
        QueryType::EXEC => "EXEC"@,
        QueryType::INSERT => "INSERT"@,
    }
}

/// Keyword for a column kind.
pub open spec fn spec_data_type(d: DataType) -> Seq<char> {
    match d {
        DataType::NULL => "NULL"@,
        DataType::INTEGER => "INTEGER"@,
        DataType::FLOAT => "FLOAT"@,
        DataType::TEXT => "TEXT"@,
        DataType::BLOB => "BLOB"@,
    }
}

/// One column value on the wire. (Grouped to the right, so that a parser
/// peels one piece at a time off the front.)
pub open spec fn spec_col(c: ColumnDataV) -> Seq<char> {
    "data="@ + (spec_str_field(c.data) + (";data_type="@ + (spec_data_type(c.data_type) + ";"@)))
}

/// A run of column values, one after the other.
pub open spec fn spec_cols(cs: Seq<ColumnDataV>) -> Seq<char>
    decreases cs.len(),
{
    if cs.len() == 0 {
        Seq::empty()
    } else {
        spec_col(cs[0]) + spec_cols(cs.drop_first())
    }
}

/// A list of column values: the element count, then the elements.
pub open spec fn spec_col_list(cs: Seq<ColumnDataV>) -> Seq<char> {
    spec_num(cs.len()) + spec_cols(cs)
}

/// A whole request: its three fields, in order, each introduced by name.
/// (Grouped to the right, so that a parser peels one piece at a time off the
/// front.)
pub open spec fn spec_request(q: QueryDTOV) -> Seq<char> {
    "query="@ + (spec_str_field(q.query) + (";query_type="@ + (spec_query_type(q.query_type) + (
    ";params="@ + (spec_col_list(q.params) + ";"@)))))
}

/// The request payload as bytes: the UTF-8 encoding of its text.
pub open spec fn wire_request(q: QueryDTOV) -> Seq<u8> {
    vstd::utf8::encode_utf8(spec_request(q))
}

/// The column's text is short enough to carry a machine-sized length prefix.
pub open spec fn col_fits(c: ColumnDataV) -> bool {
    c.data.len() <= usize::MAX
}

pub open spec fn cols_fit(cs: Seq<ColumnDataV>) -> bool {
    &&& cs.len() <= usize::MAX
    &&& forall|i: int| 0 <= i < cs.len() ==> col_fits(#[trigger] cs[i])
}

/// Every sequence in the request is machine-sized; true of the view of any
/// request value that exists at run time.
pub open spec fn request_fits(q: QueryDTOV) -> bool {
    &&& q.query.len() <= usize::MAX
    &&& cols_fit(q.params)
}

/// Splitting a concatenation that prefixes `t`: the head prefixes `t`, and
/// the tail prefixes what remains of `t` past the head.
proof fn lemma_prefix_parts(a: Seq<char>, b: Seq<char>, t: Seq<char>)
    requires
        (a + b).is_prefix_of(t),
    ensures
        a.is_prefix_of(t),
        b.is_prefix_of(t.skip(a.len() as int)),
{
    let l = (a + b).len() as int;
    assert((a + b) =~= t.subrange(0, l));
    assert(a =~= t.subrange(0, a.len() as int));
    assert forall|k: int| 0 <= k < b.len() implies b[k] == t.skip(a.len() as int)[k] by {
        assert(b[k] == (a + b)[a.len() + k]);
        assert((a + b)[a.len() + k] == t.subrange(0, l)[a.len() + k]);
        assert(t.subrange(0, l)[a.len() + k] == t[a.len() + k]);
        assert(t.skip(a.len() as int)[k] == t[a.len() + k]);
    }
    assert(b =~= t.skip(a.len() as int).subrange(0, b.len() as int));
}

/// The column run of a sequence splits at any index.
proof fn lemma_spec_cols_split(cs: Seq<ColumnDataV>, k: int)
    requires
        0 <= k <= cs.len(),
    ensures
        spec_cols(cs) == spec_cols(cs.take(k)) + spec_cols(cs.skip(k)),
    decreases k,
{
    if k == 0 {
        assert(cs.take(0) =~= Seq::<ColumnDataV>::empty());
        assert(cs.skip(0) =~= cs);
        assert(spec_cols(cs.take(0)) =~= Seq::<char>::empty());
        assert(spec_cols(cs) =~= spec_cols(cs.take(0)) + spec_cols(cs.skip(0)));
    } else {
        let rest = cs.drop_first();
        lemma_spec_cols_split(rest, k - 1);
        assert(rest.take(k - 1) =~= cs.take(k).drop_first());
        assert(rest.skip(k - 1) =~= cs.skip(k));
        assert(cs.take(k)[0] == cs[0]);
        assert(spec_cols(cs.take(k)) == spec_col(cs[0]) + spec_cols(rest.take(k - 1)));
        assert(spec_cols(cs) =~= spec_cols(cs.take(k)) + spec_cols(cs.skip(k)));
    }
}

/// Appending one column to a run appends its encoding.
proof fn lemma_spec_cols_push(cs: Seq<ColumnDataV>, c: ColumnDataV)
    ensures
        spec_cols(cs.push(c)) == spec_cols(cs) + spec_col(c),
{
    let all = cs.push(c);
    lemma_spec_cols_split(all, cs.len() as int);
    assert(all.take(cs.len() as int) =~= cs);
    let tail = all.skip(cs.len() as int);
    assert(tail =~= seq![c]);
    assert(tail.drop_first() =~= Seq::<ColumnDataV>::empty());
    assert(spec_cols(tail.drop_first()) == Seq::<char>::empty());
    assert(spec_cols(tail) =~= spec_col(c));
    assert(spec_cols(cs.push(c)) =~= spec_cols(cs) + spec_col(c));
}

/// Appends a length-prefixed string to `out`.
fn emit_str_field(out: &mut String, s: &str)
    ensures
        final(out)@ == old(out)@ + spec_str_field(s@),
{
    let n = s.unicode_len();
    emit_num(out, n);
    out.append(s);
    assert(out@ =~= old(out)@ + spec_str_field(s@));
}

/// The keyword of a statement kind.
fn query_type_str(q: QueryType) -> (r: &'static str)
    ensures
        r@ == spec_query_type(q),
{
    match q {
        QueryType::QUERY => "QUERY",
        QueryType::EXEC => "EXEC",
        QueryType::INSERT => "INSERT",
    }
}

/// The keyword of a column kind.
fn data_type_str(d: DataType) -> (r: &'static str)
    ensures
        r@ == spec_data_type(d),
{
    match d {
        DataType::NULL => "NULL",
        DataType::INTEGER => "INTEGER",
        DataType::FLOAT => "FLOAT",
        DataType::TEXT => "TEXT",
        DataType::BLOB => "BLOB",
    }
}

/// Appends one column value to `out`.
fn emit_col(out: &mut String, c: &ColumnData)
    ensures
        final(out)@ == old(out)@ + spec_col(c@),
{
    out.append("data=");
    emit_str_field(out, c.data.as_str());
    out.append(";data_type=");
    out.append(data_type_str(c.data_type));
    out.append(";");
    assert(out@ =~= old(out)@ + spec_col(c@));
}

/// Appends a whole column list (count, then elements) to `out`.
fn emit_col_list(out: &mut String, cs: &Vec<ColumnData>)
    ensures
        final(out)@ == old(out)@ + spec_col_list(cols_view(cs@)),
{
    emit_num(out, cs.len());
    let ghost view = cols_view(cs@);
    let ghost base = out@;
    let mut k: usize = 0;
    while k < cs.len()
        invariant
            k <= cs.len(),
            view == cols_view(cs@),
            view.len() == cs@.len(),
            out@ == base + spec_cols(view.take(k as int)),
        decreases cs.len() - k,
    {
        emit_col(out, &cs[k]);
        proof {
            assert(view.take(k as int).push(view[k as int]) =~= view.take(k + 1));
            lemma_spec_cols_push(view.take(k as int), view[k as int]);
            assert(view[k as int] == cs@[k as int]@);
        }
        k = k + 1;
    }
    proof {
        assert(view.take(cs@.len() as int) =~= view);
        assert(out@ =~= old(out)@ + spec_col_list(cols_view(cs@)));
    }
}

impl QueryDTO {
    /// The request payload: the UTF-8 bytes of its textual encoding.
    pub fn serialize(&self) -> (r: Vec<u8>)
        ensures
            r@ == wire_request(self@),
    {
        let mut out = String::new();
        out.append("query=");
        emit_str_field(&mut out, self.query.as_str());
        out.append(";query_type=");
        out.append(query_type_str(self.query_type));
        out.append(";params=");
        emit_col_list(&mut out, &self.params);
        out.append(";");
        proof {
            assert(out@ =~= spec_request(self@));
        }
        out.as_str().as_bytes_vec()
    }
}

/// Checks that `lit` occurs verbatim in `s` at `pos`.
fn expect_lit(s: &str, pos: usize, lit: &str) -> (r: Option<usize>)
    requires
        pos <= s@.len(),
    ensures
        r matches Some(p) ==> p == pos + lit@.len() && p <= s@.len() && s@.subrange(
            pos as int,
            p as int,
        ) == lit@,
        r is None ==> !lit@.is_prefix_of(s@.skip(pos as int)),
{
    let ll = lit.unicode_len();
    let sl = s.unicode_len();
    if ll > sl - pos {
        return None;
    }
    let mut i: usize = 0;
    while i < ll
        invariant
            i <= ll,
            ll == lit@.len(),
            pos + ll <= s@.len(),
            s@.len() <= usize::MAX,
            forall|k: int| 0 <= k < i ==> s@[pos + k] == lit@[k],
        decreases ll - i,
    {
        let a = s.get_char(pos + i);
        let b = lit.get_char(i);
        if a != b {
            proof {
                if lit@.is_prefix_of(s@.skip(pos as int)) {
                    assert(lit@[i as int] == s@.skip(pos as int)[i as int]);
                    assert(s@.skip(pos as int)[i as int] == s@[pos + i]);
                }
            }
            return None;
        }
        i = i + 1;
    }
    proof {
        assert(s@.subrange(pos as int, (pos + ll) as int) =~= lit@);
    }
    Some(pos + ll)
}

/// Parses a length-prefixed string at `pos`.
fn parse_str_field(s: &str, pos: usize) -> (r: Option<(String, usize)>)
    requires
        pos <= s@.len(),
    ensures
        r matches Some(t) ==> pos < t.1 <= s@.len() && t.0@.len() <= usize::MAX && s@.subrange(
            pos as int,
            t.1 as int,
        ) == spec_str_field(t.0@),
        forall|v: Seq<char>|
            v.len() <= usize::MAX && (#[trigger] spec_str_field(v)).is_prefix_of(
                s@.skip(pos as int),
            ) ==> (r matches Some(t) && t.0@ == v && t.1 == pos + spec_str_field(v).len()),
{
    let sl = s.unicode_len();
    match parse_num(s, pos) {
        None => {
            proof {
                assert forall|v: Seq<char>|
                    v.len() <= usize::MAX && (#[trigger] spec_str_field(v)).is_prefix_of(
                        s@.skip(pos as int),
                    ) implies false by {
                    lemma_prefix_parts(spec_num(v.len()), v, s@.skip(pos as int));
                }
            }
            None
        },
        Some((l, p)) => {
            if l > sl - p {
                proof {
                    assert forall|v: Seq<char>|
                        v.len() <= usize::MAX && (#[trigger] spec_str_field(v)).is_prefix_of(
                            s@.skip(pos as int),
                        ) implies false by {
                        lemma_prefix_parts(spec_num(v.len()), v, s@.skip(pos as int));
                        assert(v.len() == l && p == pos + spec_num(v.len()).len());
                        assert(pos + spec_str_field(v).len() <= s@.len());
                    }
                }
                None
            } else {
                let content = s.substring_char(p, p + l);
                let owned = content.to_owned();
                proof {
                    assert(s@.subrange(pos as int, (p + l) as int) =~= spec_num(l as nat)
                        + s@.subrange(p as int, (p + l) as int));
                    assert forall|v: Seq<char>|
                        v.len() <= usize::MAX && (#[trigger] spec_str_field(v)).is_prefix_of(
                            s@.skip(pos as int),
                        ) implies owned@ == v && p + l == pos + spec_str_field(v).len() by {
                        lemma_prefix_parts(spec_num(v.len()), v, s@.skip(pos as int));
                        assert(v.len() == l && p == pos + spec_num(v.len()).len());
                        assert(v =~= s@.subrange(p as int, (p + l) as int)) by {
                            assert(forall|k: int|
                                0 <= k < v.len() ==> v[k] == s@.skip(p as int)[k]);
                            assert(forall|k: int|
                                0 <= k < v.len() ==> s@.skip(p as int)[k] == s@[p + k]);
                        }
                    }
                }
                Some((owned, p + l))
            }
        },
    }
}

/// Parses a statement-kind keyword at `pos`.
fn parse_query_type(s: &str, pos: usize) -> (r: Option<(QueryType, usize)>)
    requires
        pos <= s@.len(),
    ensures
        r matches Some(t) ==> pos <= t.1 <= s@.len() && s@.subrange(pos as int, t.1 as int)
            == spec_query_type(t.0),
        forall|q: QueryType|
            (#[trigger] spec_query_type(q)).is_prefix_of(s@.skip(pos as int)) ==> (r matches Some(
                t,
            ) && t.0 == q && t.1 == pos + spec_query_type(q).len()),
{
    if let Some(p) = expect_lit(s, pos, "QUERY") {
        proof {
            lemma_query_type_keyword(s@, pos as int, p as int, QueryType::QUERY);
        }
        return Some((QueryType::QUERY, p));
    }
    if let Some(p) = expect_lit(s, pos, "EXEC") {
        proof {
            lemma_query_type_keyword(s@, pos as int, p as int, QueryType::EXEC);
        }
        return Some((QueryType::EXEC, p));
    }
    if let Some(p) = expect_lit(s, pos, "INSERT") {
        proof {
            lemma_query_type_keyword(s@, pos as int, p as int, QueryType::INSERT);
        }
        return Some((QueryType::INSERT, p));
    }
    None
}

/// If the characters at `[pos, p)` are the keyword of `expected`, then the
/// only statement-kind keyword that can prefix the input at `pos` is that
/// one: the three keywords begin with three different letters.
proof fn lemma_query_type_keyword(t: Seq<char>, pos: int, p: int, expected: QueryType)
    requires
        0 <= pos <= p <= t.len(),
        t.subrange(pos, p) == spec_query_type(expected),
    ensures
        forall|q: QueryType|
            (#[trigger] spec_query_type(q)).is_prefix_of(t.skip(pos)) ==> q == expected && pos
                + spec_query_type(q).len() == p,
{
    reveal_strlit("QUERY");
    reveal_strlit("EXEC");
    reveal_strlit("INSERT");
    assert forall|q: QueryType|
        (#[trigger] spec_query_type(q)).is_prefix_of(t.skip(pos)) implies q == expected && pos
        + spec_query_type(q).len() == p by {
        assert(spec_query_type(q).len() > 0);
        assert(spec_query_type(expected).len() > 0);
        assert(spec_query_type(q)[0] == t.skip(pos)[0]);
        assert(t.skip(pos)[0] == t[pos]);
        assert(t[pos] == t.subrange(pos, p)[0]);
        assert(t[pos] == spec_query_type(expected)[0]);
        assert(q == expected);
        assert(p - pos == spec_query_type(expected).len());
    }
}

/// Parses a column-kind keyword at `pos`.
fn parse_data_type(s: &str, pos: usize) -> (r: Option<(DataType, usize)>)
    requires
        pos <= s@.len(),
    ensures
        r matches Some(t) ==> pos <= t.1 <= s@.len() && s@.subrange(pos as int, t.1 as int)
            == spec_data_type(t.0),
        forall|d: DataType|
            (#[trigger] spec_data_type(d)).is_prefix_of(s@.skip(pos as int)) ==> (r matches Some(
                t,
            ) && t.0 == d && t.1 == pos + spec_data_type(d).len()),
{
    if let Some(p) = expect_lit(s, pos, "NULL") {
        proof {
            lemma_data_type_keyword(s@, pos as int, p as int, DataType::NULL);
        }
        return Some((DataType::NULL, p));
    }
    if let Some(p) = expect_lit(s, pos, "INTEGER") {
        proof {
            lemma_data_type_keyword(s@, pos as int, p as int, DataType::INTEGER);
        }
        return Some((DataType::INTEGER, p));
    }
    if let Some(p) = expect_lit(s, pos, "FLOAT") {
        proof {
            lemma_data_type_keyword(s@, pos as int, p as int, DataType::FLOAT);
        }
        return Some((DataType::FLOAT, p));
    }
    if let Some(p) = expect_lit(s, pos, "TEXT") {
        proof {
            lemma_data_type_keyword(s@, pos as int, p as int, DataType::TEXT);
        }
        return Some((DataType::TEXT, p));
    }
    if let Some(p) = expect_lit(s, pos, "BLOB") {
        proof {
            lemma_data_type_keyword(s@, pos as int, p as int, DataType::BLOB);
        }
        return Some((DataType::BLOB, p));
    }
    None
}

/// If the characters at `[pos, p)` are the keyword of `expected`, then the
/// only column-kind keyword that can prefix the input at `pos` is that one:
/// the five keywords begin with five different letters.
proof fn lemma_data_type_keyword(t: Seq<char>, pos: int, p: int, expected: DataType)
    requires
        0 <= pos <= p <= t.len(),
        t.subrange(pos, p) == spec_data_type(expected),
    ensures
        forall|d: DataType|
            (#[trigger] spec_data_type(d)).is_prefix_of(t.skip(pos)) ==> d == expected && pos
                + spec_data_type(d).len() == p,
{
    reveal_strlit("NULL");
    reveal_strlit("INTEGER");
    reveal_strlit("FLOAT");
    reveal_strlit("TEXT");
    reveal_strlit("BLOB");
    assert forall|d: DataType|
        (#[trigger] spec_data_type(d)).is_prefix_of(t.skip(pos)) implies d == expected && pos
        + spec_data_type(d).len() == p by {
        assert(spec_data_type(d).len() > 0);
        assert(spec_data_type(expected).len() > 0);
        assert(spec_data_type(d)[0] == t.skip(pos)[0]);
        assert(t.skip(pos)[0] == t[pos]);
        assert(t[pos] == t.subrange(pos, p)[0]);
        assert(t[pos] == spec_data_type(expected)[0]);
        assert(d == expected);
        assert(p - pos == spec_data_type(expected).len());
    }
}

/// Parses one column value at `pos`.
#[verifier::rlimit(80)]
fn parse_col(s: &str, pos: usize) -> (r: Option<(ColumnData, usize)>)
    requires
        pos <= s@.len(),
    ensures
        r matches Some(t) ==> pos <= t.1 <= s@.len() && col_fits(t.0@) && s@.subrange(
            pos as int,
            t.1 as int,
        ) == spec_col(t.0@),
        forall|c: ColumnDataV|
            col_fits(c) && (#[trigger] spec_col(c)).is_prefix_of(s@.skip(pos as int)) ==> (
            r matches Some(t) && t.0@ == c && t.1 == pos + spec_col(c).len()),
{
    let ghost tail0 = s@.skip(pos as int);
    let p1 = match expect_lit(s, pos, "data=") {
        Some(p) => p,
        None => {
            proof {
                assert forall|c: ColumnDataV|
                    col_fits(c) && (#[trigger] spec_col(c)).is_prefix_of(tail0) implies false by {
                    lemma_prefix_parts(
                        "data="@,
                        spec_str_field(c.data) + (";data_type="@ + (spec_data_type(c.data_type)
                            + ";"@)),
                        tail0,
                    );
                }
            }
            return None;
        },
    };
    let ghost tail1 = s@.skip(p1 as int);
    proof {
        assert forall|c: ColumnDataV|
            col_fits(c) && (#[trigger] spec_col(c)).is_prefix_of(tail0) implies (spec_str_field(
            c.data,
        ) + (";data_type="@ + (spec_data_type(c.data_type) + ";"@))).is_prefix_of(tail1) by {
            lemma_prefix_parts(
                "data="@,
                spec_str_field(c.data) + (";data_type="@ + (spec_data_type(c.data_type) + ";"@)),
                tail0,
            );
            assert(tail0.skip("data="@.len() as int) =~= tail1);
        }
    }
    let (data, p2) = match parse_str_field(s, p1) {
        Some(t) => t,
        None => {
            proof {
                assert forall|c: ColumnDataV|
                    col_fits(c) && (#[trigger] spec_col(c)).is_prefix_of(tail0) implies false by {
                    lemma_prefix_parts(
                        spec_str_field(c.data),
                        ";data_type="@ + (spec_data_type(c.data_type) + ";"@),
                        tail1,
                    );
                }
            }
            return None;
        },
    };
    let ghost tail2 = s@.skip(p2 as int);
    proof {
        assert forall|c: ColumnDataV|
            col_fits(c) && (#[trigger] spec_col(c)).is_prefix_of(tail0) implies (";data_type="@ + (
        spec_data_type(c.data_type) + ";"@)).is_prefix_of(tail2) && c.data == data@ by {
            lemma_prefix_parts(
                spec_str_field(c.data),
                ";data_type="@ + (spec_data_type(c.data_type) + ";"@),
                tail1,
            );
            assert(c.data == data@ && p2 == p1 + spec_str_field(c.data).len());
            assert(tail1.skip(spec_str_field(c.data).len() as int) =~= tail2);
        }
    }
    let p3 = match expect_lit(s, p2, ";data_type=") {
        Some(p) => p,
        None => {
            proof {
                assert forall|c: ColumnDataV|
                    col_fits(c) && (#[trigger] spec_col(c)).is_prefix_of(tail0) implies false by {
                    lemma_prefix_parts(
                        ";data_type="@,
                        spec_data_type(c.data_type) + ";"@,
                        tail2,
                    );
                }
            }
            return None;
        },
    };
    let ghost tail3 = s@.skip(p3 as int);
    proof {
        assert forall|c: ColumnDataV|
            col_fits(c) && (#[trigger] spec_col(c)).is_prefix_of(tail0) implies (spec_data_type(
            c.data_type,
        ) + ";"@).is_prefix_of(tail3) by {
            lemma_prefix_parts(";data_type="@, spec_data_type(c.data_type) + ";"@, tail2);
            assert(tail2.skip(";data_type="@.len() as int) =~= tail3);
        }
    }
    let (dt, p4) = match parse_data_type(s, p3) {
        Some(t) => t,
        None => {
            proof {
                assert forall|c: ColumnDataV|
                    col_fits(c) && (#[trigger] spec_col(c)).is_prefix_of(tail0) implies false by {
                    lemma_prefix_parts(spec_data_type(c.data_type), ";"@, tail3);
                }
            }
            return None;
        },
    };
    let ghost tail4 = s@.skip(p4 as int);
    proof {
        assert forall|c: ColumnDataV|
            col_fits(c) && (#[trigger] spec_col(c)).is_prefix_of(tail0) implies ";"@.is_prefix_of(
            tail4,
        ) && c.data_type == dt by {
            lemma_prefix_parts(spec_data_type(c.data_type), ";"@, tail3);
            assert(c.data_type == dt && p4 == p3 + spec_data_type(c.data_type).len());
            assert(tail3.skip(spec_data_type(c.data_type).len() as int) =~= tail4);
        }
    }
    let p5 = match expect_lit(s, p4, ";") {
        Some(p) => p,
        None => {
            proof {
                assert forall|c: ColumnDataV|
                    col_fits(c) && (#[trigger] spec_col(c)).is_prefix_of(tail0) implies false by {
                    assert(";"@.is_prefix_of(tail4));
                }
            }
            return None;
        },
    };
    let col = ColumnData { data, data_type: dt };
    proof {
        assert(s@.subrange(p3 as int, p5 as int) =~= s@.subrange(p3 as int, p4 as int)
            + s@.subrange(p4 as int, p5 as int));
        assert(s@.subrange(p2 as int, p5 as int) =~= s@.subrange(p2 as int, p3 as int)
            + s@.subrange(p3 as int, p5 as int));
        assert(s@.subrange(p1 as int, p5 as int) =~= s@.subrange(p1 as int, p2 as int)
            + s@.subrange(p2 as int, p5 as int));
        assert(s@.subrange(pos as int, p5 as int) =~= s@.subrange(pos as int, p1 as int)
            + s@.subrange(p1 as int, p5 as int));
        assert(s@.subrange(pos as int, p5 as int) =~= spec_col(col@));
        assert forall|c: ColumnDataV|
            col_fits(c) && (#[trigger] spec_col(c)).is_prefix_of(tail0) implies col@ == c && p5
            == pos + spec_col(c).len() by {
            assert(c.data == col@.data && c.data_type == col@.data_type);
            assert(c =~= col@);
        }
    }
    Some((col, p5))
}

/// Parses a column list (count, then that many columns) at `pos`.
#[verifier::rlimit(80)]
fn parse_col_list(s: &str, pos: usize) -> (r: Option<(Vec<ColumnData>, usize)>)
    requires
        pos <= s@.len(),
    ensures
        r matches Some(t) ==> pos < t.1 <= s@.len() && cols_fit(cols_view(t.0@)) && s@.subrange(
            pos as int,
            t.1 as int,
        ) == spec_col_list(cols_view(t.0@)),
        forall|cs: Seq<ColumnDataV>|
            cols_fit(cs) && (#[trigger] spec_col_list(cs)).is_prefix_of(s@.skip(pos as int)) ==> (
            r matches Some(t) && cols_view(t.0@) == cs && t.1 == pos + spec_col_list(cs).len()),
{
    let ghost tail0 = s@.skip(pos as int);
    let (n, p0) = match parse_num(s, pos) {
        Some(t) => t,
        None => {
            proof {
                assert forall|cs: Seq<ColumnDataV>|
                    cols_fit(cs) && (#[trigger] spec_col_list(cs)).is_prefix_of(
                        tail0,
                    ) implies false by {
                    lemma_prefix_parts(spec_num(cs.len()), spec_cols(cs), tail0);
                }
            }
            return None;
        },
    };
    proof {
        assert forall|cs: Seq<ColumnDataV>|
            cols_fit(cs) && (#[trigger] spec_col_list(cs)).is_prefix_of(tail0) implies cs.len()
            == n && spec_cols(cs).is_prefix_of(s@.skip(p0 as int)) by {
            lemma_prefix_parts(spec_num(cs.len()), spec_cols(cs), tail0);
            assert(tail0.skip(spec_num(cs.len()).len() as int) =~= s@.skip(p0 as int));
        }
    }
    let mut out: Vec<ColumnData> = Vec::new();
    let mut p = p0;
    let mut k: usize = 0;
    while k < n
        invariant
            k <= n,
            p0 <= p <= s@.len(),
            pos < p0 <= s@.len(),
            out@.len() == k,
            cols_fit(cols_view(out@)),
            tail0 == s@.skip(pos as int),
            s@.subrange(p0 as int, p as int) == spec_cols(cols_view(out@)),
            s@.subrange(pos as int, p0 as int) == spec_num(n as nat),
            forall|cs: Seq<ColumnDataV>|
                cols_fit(cs) && (#[trigger] spec_col_list(cs)).is_prefix_of(tail0) ==> cs.len()
                    == n && spec_cols(cs).is_prefix_of(s@.skip(p0 as int)),
            forall|cs: Seq<ColumnDataV>|
                cols_fit(cs) && cs.len() == n && (#[trigger] spec_cols(cs)).is_prefix_of(
                    s@.skip(p0 as int),
                ) ==> cols_view(out@) == cs.take(k as int) && p == p0 + spec_cols(
                    cs.take(k as int),
                ).len(),
        decreases n - k,
    {
        let ghost old_out = out@;
        let ghost old_p = p;
        let (c, np) = match parse_col(s, p) {
            Some(t) => t,
            None => {
                proof {
                    assert forall|cs: Seq<ColumnDataV>|
                        cols_fit(cs) && cs.len() == n && (#[trigger] spec_cols(cs)).is_prefix_of(
                            s@.skip(p0 as int),
                        ) implies false by {
                        lemma_spec_cols_split(cs, k as int);
                        lemma_prefix_parts(
                            spec_cols(cs.take(k as int)),
                            spec_cols(cs.skip(k as int)),
                            s@.skip(p0 as int),
                        );
                        assert(s@.skip(p0 as int).skip(spec_cols(cs.take(k as int)).len() as int)
                            =~= s@.skip(p as int));
                        let rest = cs.skip(k as int);
                        assert(rest.len() == n - k >= 1);
                        assert(spec_cols(rest) == spec_col(rest[0]) + spec_cols(rest.drop_first()));
                        lemma_prefix_parts(
                            spec_col(rest[0]),
                            spec_cols(rest.drop_first()),
                            s@.skip(p as int),
                        );
                        assert(col_fits(rest[0]));
                    }
                }
                return None;
            },
        };
        out.push(c);
        p = np;
        k = k + 1;
        proof {
            assert(cols_view(out@) =~= cols_view(old_out).push(c@));
            lemma_spec_cols_push(cols_view(old_out), c@);
            assert(s@.subrange(p0 as int, p as int) =~= s@.subrange(p0 as int, old_p as int)
                + s@.subrange(old_p as int, p as int));
            assert forall|cs: Seq<ColumnDataV>|
                cols_fit(cs) && cs.len() == n && (#[trigger] spec_cols(cs)).is_prefix_of(
                    s@.skip(p0 as int),
                ) implies cols_view(out@) == cs.take(k as int) && p == p0 + spec_cols(
                cs.take(k as int),
            ).len() by {
                lemma_spec_cols_split(cs, k - 1);
                lemma_prefix_parts(
                    spec_cols(cs.take(k - 1)),
                    spec_cols(cs.skip(k - 1)),
                    s@.skip(p0 as int),
                );
                assert(s@.skip(p0 as int).skip(spec_cols(cs.take(k - 1)).len() as int) =~= s@.skip(
                    old_p as int,
                ));
                let rest = cs.skip(k - 1);
                assert(rest.len() >= 1);
                assert(spec_cols(rest) == spec_col(rest[0]) + spec_cols(rest.drop_first()));
                lemma_prefix_parts(
                    spec_col(rest[0]),
                    spec_cols(rest.drop_first()),
                    s@.skip(old_p as int),
                );
                assert(col_fits(rest[0]));
                assert(c@ == rest[0] && np == old_p + spec_col(rest[0]).len());
                assert(cs.take(k as int) =~= cs.take(k - 1).push(rest[0]));
                lemma_spec_cols_push(cs.take(k - 1), rest[0]);
                assert(cols_view(out@) =~= cs.take(k as int));
            }
        }
    }
    proof {
        assert(s@.subrange(pos as int, p as int) =~= s@.subrange(pos as int, p0 as int)
            + s@.subrange(p0 as int, p as int));
        assert forall|cs: Seq<ColumnDataV>|
            cols_fit(cs) && (#[trigger] spec_col_list(cs)).is_prefix_of(
                tail0,
            ) implies cols_view(out@) == cs && p == pos + spec_col_list(cs).len() by {
            assert(cs.len() == n);
            assert(cs.take(n as int) =~= cs);
            assert(s@.subrange(pos as int, p0 as int).len() == spec_num(n as nat).len());
        }
    }
    Some((out, p))
}

impl QueryDTO {
    /// Reconstructs a request from its payload bytes. Accepts exactly the
    /// outputs of [`QueryDTO::serialize`]; everything else is a transport
    /// error.
    pub fn deserialize(bytes: &Vec<u8>) -> (r: Result<QueryDTO, Error>)
        ensures
            r matches Ok(d) ==> request_fits(d@) && bytes@ == wire_request(d@),
            forall|x: QueryDTOV|
                request_fits(x) && bytes@ == #[trigger] wire_request(x) ==> (r matches Ok(d)
                    && d@ == x),
            r matches Err(e) ==> e@.kind == ErrorKind::Io,
    {
        broadcast use vstd::utf8::encode_utf8_valid_utf8;
        broadcast use vstd::utf8::encode_utf8_decode_utf8;
        broadcast use vstd::utf8::decode_utf8_encode_utf8;

        let text = match bytes_to_string(bytes) {
            Some(t) => t,
            None => {
                return Err(Error::io(AlesiaError(String::from_str("invalid request payload"))));
            },
        };
        let s = text.as_str();
        match parse_request_text(s) {
            Some(d) => {
                proof {
                    assert(bytes@ == vstd::utf8::encode_utf8(s@));
                    assert forall|x: QueryDTOV|
                        request_fits(x) && bytes@ == #[trigger] wire_request(x) implies d@
                        == x by {
                        assert(vstd::utf8::decode_utf8(wire_request(x)) == spec_request(x));
                        assert(s@ == spec_request(x));
                    }
                }
                Ok(d)
            },
            None => {
                proof {
                    assert forall|x: QueryDTOV|
                        request_fits(x) && bytes@ == #[trigger] wire_request(x) implies false by {
                        assert(vstd::utf8::decode_utf8(wire_request(x)) == spec_request(x));
                        assert(s@ == spec_request(x));
                    }
                }
                Err(Error::io(AlesiaError(String::from_str("malformed request payload"))))
            },
        }
    }
}

/// Parses a whole request text; the input must be consumed exactly.
#[verifier::rlimit(100)]
#[verifier::spinoff_prover]
fn parse_request_text(s: &str) -> (r: Option<QueryDTO>)
    ensures
        r matches Some(d) ==> request_fits(d@) && s@ == spec_request(d@),
        forall|x: QueryDTOV|
            request_fits(x) && s@ == spec_request(x) ==> (r matches Some(d) && d@ == x),
{
    let ghost whole = s@;
    proof {
        assert(whole.skip(0) =~= whole);
        assert forall|x: QueryDTOV| s@ == spec_request(x) implies spec_request(x).is_prefix_of(
            whole.skip(0),
        ) by {
            assert(spec_request(x).is_prefix_of(spec_request(x)));
        }
    }
    let p1 = match expect_lit(s, 0, "query=") {
        Some(p) => p,
        None => {
            proof {
                assert forall|x: QueryDTOV|
                    request_fits(x) && s@ == spec_request(x) implies false by {
                    lemma_prefix_parts(
                        "query="@,
                        spec_str_field(x.query) + (";query_type="@ + (spec_query_type(x.query_type)
                            + (";params="@ + (spec_col_list(x.params) + ";"@)))),
                        whole.skip(0),
                    );
                }
            }
            return None;
        },
    };
    proof {
        assert forall|x: QueryDTOV|
            request_fits(x) && s@ == spec_request(x) implies (spec_str_field(x.query) + (
        ";query_type="@ + (spec_query_type(x.query_type) + (";params="@ + (spec_col_list(x.params)
            + ";"@))))).is_prefix_of(s@.skip(p1 as int)) by {
            lemma_prefix_parts(
                "query="@,
                spec_str_field(x.query) + (";query_type="@ + (spec_query_type(x.query_type) + (
                ";params="@ + (spec_col_list(x.params) + ";"@)))),
                whole.skip(0),
            );
            assert(whole.skip(0).skip("query="@.len() as int) =~= s@.skip(p1 as int));
        }
    }
    let (query, p2) = match parse_str_field(s, p1) {
        Some(t) => t,
        None => {
            proof {
                assert forall|x: QueryDTOV|
                    request_fits(x) && s@ == spec_request(x) implies false by {
                    lemma_prefix_parts(
                        spec_str_field(x.query),
                        ";query_type="@ + (spec_query_type(x.query_type) + (";params="@ + (
                        spec_col_list(x.params) + ";"@))),
                        s@.skip(p1 as int),
                    );
                }
            }
            return None;
        },
    };
    proof {
        assert forall|x: QueryDTOV|
            request_fits(x) && s@ == spec_request(x) implies x.query == query@ && (";query_type="@
            + (spec_query_type(x.query_type) + (";params="@ + (spec_col_list(x.params)
            + ";"@)))).is_prefix_of(s@.skip(p2 as int)) by {
            lemma_prefix_parts(
                spec_str_field(x.query),
                ";query_type="@ + (spec_query_type(x.query_type) + (";params="@ + (spec_col_list(
                    x.params,
                ) + ";"@))),
                s@.skip(p1 as int),
            );
            assert(x.query == query@ && p2 == p1 + spec_str_field(x.query).len());
            assert(s@.skip(p1 as int).skip(spec_str_field(x.query).len() as int) =~= s@.skip(
                p2 as int,
            ));
        }
    }
    let p3 = match expect_lit(s, p2, ";query_type=") {
        Some(p) => p,
        None => {
            proof {
                assert forall|x: QueryDTOV|
                    request_fits(x) && s@ == spec_request(x) implies false by {
                    lemma_prefix_parts(
                        ";query_type="@,
                        spec_query_type(x.query_type) + (";params="@ + (spec_col_list(x.params)
                            + ";"@)),
                        s@.skip(p2 as int),
                    );
                }
            }
            return None;
        },
    };
    proof {
        assert forall|x: QueryDTOV|
            request_fits(x) && s@ == spec_request(x) implies (spec_query_type(x.query_type) + (
        ";params="@ + (spec_col_list(x.params) + ";"@))).is_prefix_of(s@.skip(p3 as int)) by {
            lemma_prefix_parts(
                ";query_type="@,
                spec_query_type(x.query_type) + (";params="@ + (spec_col_list(x.params) + ";"@)),
                s@.skip(p2 as int),
            );
            assert(s@.skip(p2 as int).skip(";query_type="@.len() as int) =~= s@.skip(p3 as int));
        }
    }
    let (qt, p4) = match parse_query_type(s, p3) {
        Some(t) => t,
        None => {
            proof {
                assert forall|x: QueryDTOV|
                    request_fits(x) && s@ == spec_request(x) implies false by {
                    lemma_prefix_parts(
                        spec_query_type(x.query_type),
                        ";params="@ + (spec_col_list(x.params) + ";"@),
                        s@.skip(p3 as int),
                    );
                }
            }
            return None;
        },
    };
    proof {
        assert forall|x: QueryDTOV|
            request_fits(x) && s@ == spec_request(x) implies x.query_type == qt && (";params="@ + (
        spec_col_list(x.params) + ";"@)).is_prefix_of(s@.skip(p4 as int)) by {
            lemma_prefix_parts(
                spec_query_type(x.query_type),
                ";params="@ + (spec_col_list(x.params) + ";"@),
                s@.skip(p3 as int),
            );
            assert(x.query_type == qt && p4 == p3 + spec_query_type(x.query_type).len());
            assert(s@.skip(p3 as int).skip(spec_query_type(x.query_type).len() as int) =~= s@.skip(
                p4 as int,
            ));
        }
    }
    let p5 = match expect_lit(s, p4, ";params=") {
        Some(p) => p,
        None => {
            proof {
                assert forall|x: QueryDTOV|
                    request_fits(x) && s@ == spec_request(x) implies false by {
                    lemma_prefix_parts(
                        ";params="@,
                        spec_col_list(x.params) + ";"@,
                        s@.skip(p4 as int),
                    );
                }
            }
            return None;
        },
    };
    proof {
        assert forall|x: QueryDTOV|
            request_fits(x) && s@ == spec_request(x) implies (spec_col_list(x.params)
            + ";"@).is_prefix_of(s@.skip(p5 as int)) by {
            lemma_prefix_parts(";params="@, spec_col_list(x.params) + ";"@, s@.skip(p4 as int));
            assert(s@.skip(p4 as int).skip(";params="@.len() as int) =~= s@.skip(p5 as int));
        }
    }
    let (params, p6) = match parse_col_list(s, p5) {
        Some(t) => t,
        None => {
            proof {
                assert forall|x: QueryDTOV|
                    request_fits(x) && s@ == spec_request(x) implies false by {
                    lemma_prefix_parts(spec_col_list(x.params), ";"@, s@.skip(p5 as int));
                }
            }
            return None;
        },
    };
    proof {
        assert forall|x: QueryDTOV|
            request_fits(x) && s@ == spec_request(x) implies cols_view(params@) == x.params
            && ";"@.is_prefix_of(s@.skip(p6 as int)) by {
            lemma_prefix_parts(spec_col_list(x.params), ";"@, s@.skip(p5 as int));
            assert(cols_view(params@) == x.params && p6 == p5 + spec_col_list(x.params).len());
            assert(s@.skip(p5 as int).skip(spec_col_list(x.params).len() as int) =~= s@.skip(
                p6 as int,
            ));
        }
    }
    let p7 = match expect_lit(s, p6, ";") {
        Some(p) => p,
        None => {
            proof {
                assert forall|x: QueryDTOV|
                    request_fits(x) && s@ == spec_request(x) implies false by {
                    assert(";"@.is_prefix_of(s@.skip(p6 as int)));
                }
            }
            return None;
        },
    };
    let ghost assembled = s@.subrange(0, p7 as int);
    proof {
        assert(s@.subrange(p5 as int, p7 as int) =~= s@.subrange(p5 as int, p6 as int)
            + s@.subrange(p6 as int, p7 as int));
        assert(s@.subrange(p4 as int, p7 as int) =~= s@.subrange(p4 as int, p5 as int)
            + s@.subrange(p5 as int, p7 as int));
        assert(s@.subrange(p3 as int, p7 as int) =~= s@.subrange(p3 as int, p4 as int)
            + s@.subrange(p4 as int, p7 as int));
        assert(s@.subrange(p2 as int, p7 as int) =~= s@.subrange(p2 as int, p3 as int)
            + s@.subrange(p3 as int, p7 as int));
        assert(s@.subrange(p1 as int, p7 as int) =~= s@.subrange(p1 as int, p2 as int)
            + s@.subrange(p2 as int, p7 as int));
        assert(assembled =~= s@.subrange(0, p1 as int) + s@.subrange(p1 as int, p7 as int));
        assert(assembled =~= "query="@ + (spec_str_field(query@) + (";query_type="@ + (
        spec_query_type(qt) + (";params="@ + (spec_col_list(cols_view(params@)) + ";"@))))));
    }
    let sl = s.unicode_len();
    if p7 != sl {
        proof {
            assert forall|x: QueryDTOV| request_fits(x) && s@ == spec_request(x) implies false by {
                assert(x.query == query@ && x.query_type == qt && x.params == cols_view(params@));
                assert(spec_request(x) == assembled);
                assert(s@.len() == assembled.len());
                assert(assembled.len() == p7);
            }
        }
        return None;
    }
    let d = QueryDTO { query, query_type: qt, params };
    proof {
        assert(s@ =~= assembled);
        assert(spec_request(d@) == assembled);
        assert forall|x: QueryDTOV| request_fits(x) && s@ == spec_request(x) implies d@ == x by {
            assert(d@.query == x.query && d@.query_type == x.query_type && d@.params == x.params);
            assert(d@ =~= x);
        }
    }
    Some(d)
}

/// One row on the wire: its column list, introduced by name.
pub open spec fn spec_row(rw: TableRowDTOV) -> Seq<char> {
    "columns="@ + (spec_col_list(rw.columns) + ";"@)
}

/// A run of rows, one after the other.
pub open spec fn spec_rows(rs: Seq<TableRowDTOV>) -> Seq<char>
    decreases rs.len(),
{
    if rs.len() == 0 {
        Seq::empty()
    } else {
        spec_row(rs[0]) + spec_rows(rs.drop_first())
    }
}

/// A list of rows: the element count, then the elements.
pub open spec fn spec_row_list(rs: Seq<TableRowDTOV>) -> Seq<char> {
    spec_num(rs.len()) + spec_rows(rs)
}

/// A run of column names, each a length-prefixed string.
pub open spec fn spec_names(ns: Seq<Seq<char>>) -> Seq<char>
    decreases ns.len(),
{
    if ns.len() == 0 {
        Seq::empty()
    } else {
        spec_str_field(ns[0]) + spec_names(ns.drop_first())
    }
}

/// A list of column names: the element count, then the elements.
pub open spec fn spec_name_list(ns: Seq<Seq<char>>) -> Seq<char> {
    spec_num(ns.len()) + spec_names(ns)
}

/// The back half of a response, from the row list on.
pub open spec fn spec_resp_tail(x: ResponseDTOV) -> Seq<char> {
    spec_row_list(x.rows) + (";column_count="@ + (spec_num(x.column_count as nat) + (
    ";column_names="@ + (spec_name_list(x.column_names) + ";"@))))
}

/// A whole response: its five fields, in order, each introduced by name.
/// (Grouped to the right, so that a parser peels one piece at a time off the
/// front.)
pub open spec fn spec_response(x: ResponseDTOV) -> Seq<char> {
    "status="@ + (spec_str_field(x.status) + (";rows_affected="@ + (spec_num(
        x.rows_affected as nat,
    ) + (";rows="@ + spec_resp_tail(x)))))
}

/// The response payload as bytes: the UTF-8 encoding of its text.
pub open spec fn wire_response(x: ResponseDTOV) -> Seq<u8> {
    vstd::utf8::encode_utf8(spec_response(x))
}

pub open spec fn row_fits(rw: TableRowDTOV) -> bool {
    cols_fit(rw.columns)
}

pub open spec fn rows_fit(rs: Seq<TableRowDTOV>) -> bool {
    &&& rs.len() <= usize::MAX
    &&& forall|i: int| 0 <= i < rs.len() ==> row_fits(#[trigger] rs[i])
}

pub open spec fn names_fit(ns: Seq<Seq<char>>) -> bool {
    &&& ns.len() <= usize::MAX
    &&& forall|i: int| 0 <= i < ns.len() ==> (#[trigger] ns[i]).len() <= usize::MAX
}

/// Every sequence in the response is machine-sized; true of the view of any
/// response value that exists at run time.
pub open spec fn response_fits(x: ResponseDTOV) -> bool {
    &&& x.status.len() <= usize::MAX
    &&& rows_fit(x.rows)
    &&& names_fit(x.column_names)
}

/// The row run of a sequence splits at any index.
proof fn lemma_spec_rows_split(rs: Seq<TableRowDTOV>, k: int)
    requires
        0 <= k <= rs.len(),
    ensures
        spec_rows(rs) == spec_rows(rs.take(k)) + spec_rows(rs.skip(k)),
    decreases k,
{
    if k == 0 {
        assert(rs.take(0) =~= Seq::<TableRowDTOV>::empty());
        assert(rs.skip(0) =~= rs);
        assert(spec_rows(rs.take(0)) =~= Seq::<char>::empty());
        assert(spec_rows(rs) =~= spec_rows(rs.take(0)) + spec_rows(rs.skip(0)));
    } else {
        let rest = rs.drop_first();
        lemma_spec_rows_split(rest, k - 1);
        assert(rest.take(k - 1) =~= rs.take(k).drop_first());
        assert(rest.skip(k - 1) =~= rs.skip(k));
        assert(rs.take(k)[0] == rs[0]);
        assert(spec_rows(rs.take(k)) == spec_row(rs[0]) + spec_rows(rest.take(k - 1)));
        assert(spec_rows(rs) =~= spec_rows(rs.take(k)) + spec_rows(rs.skip(k)));
    }
}

/// Appending one row to a run appends its encoding.
proof fn lemma_spec_rows_push(rs: Seq<TableRowDTOV>, rw: TableRowDTOV)
    ensures
        spec_rows(rs.push(rw)) == spec_rows(rs) + spec_row(rw),
{
    let all = rs.push(rw);
    lemma_spec_rows_split(all, rs.len() as int);
    assert(all.take(rs.len() as int) =~= rs);
    let tail = all.skip(rs.len() as int);
    assert(tail =~= seq![rw]);
    assert(tail.drop_first() =~= Seq::<TableRowDTOV>::empty());
    assert(spec_rows(tail.drop_first()) == Seq::<char>::empty());
    assert(spec_rows(tail) =~= spec_row(rw));
    assert(spec_rows(rs.push(rw)) =~= spec_rows(rs) + spec_row(rw));
}

/// The name run of a sequence splits at any index.
proof fn lemma_spec_names_split(ns: Seq<Seq<char>>, k: int)
    requires
        0 <= k <= ns.len(),
    ensures
        spec_names(ns) == spec_names(ns.take(k)) + spec_names(ns.skip(k)),
    decreases k,
{
    if k == 0 {
        assert(ns.take(0) =~= Seq::<Seq<char>>::empty());
        assert(ns.skip(0) =~= ns);
        assert(spec_names(ns.take(0)) =~= Seq::<char>::empty());
        assert(spec_names(ns) =~= spec_names(ns.take(0)) + spec_names(ns.skip(0)));
    } else {
        let rest = ns.drop_first();
        lemma_spec_names_split(rest, k - 1);
        assert(rest.take(k - 1) =~= ns.take(k).drop_first());
        assert(rest.skip(k - 1) =~= ns.skip(k));
        assert(ns.take(k)[0] == ns[0]);
        assert(spec_names(ns.take(k)) == spec_str_field(ns[0]) + spec_names(rest.take(k - 1)));
        assert(spec_names(ns) =~= spec_names(ns.take(k)) + spec_names(ns.skip(k)));
    }
}

/// Appending one name to a run appends its encoding.
proof fn lemma_spec_names_push(ns: Seq<Seq<char>>, n: Seq<char>)
    ensures
        spec_names(ns.push(n)) == spec_names(ns) + spec_str_field(n),
{
    let all = ns.push(n);
    lemma_spec_names_split(all, ns.len() as int);
    assert(all.take(ns.len() as int) =~= ns);
    let tail = all.skip(ns.len() as int);
    assert(tail =~= seq![n]);
    assert(tail.drop_first() =~= Seq::<Seq<char>>::empty());
    assert(spec_names(tail.drop_first()) == Seq::<char>::empty());
    assert(spec_names(tail) =~= spec_str_field(n));
    assert(spec_names(ns.push(n)) =~= spec_names(ns) + spec_str_field(n));
}

/// Appends one row to `out`.
fn emit_row(out: &mut String, rw: &TableRowDTO)
    ensures
        final(out)@ == old(out)@ + spec_row(rw@),
{
    out.append("columns=");
    emit_col_list(out, &rw.columns);
    out.append(";");
    assert(out@ =~= old(out)@ + spec_row(rw@));
}

/// Appends a whole row list (count, then elements) to `out`.
fn emit_row_list(out: &mut String, rs: &Vec<TableRowDTO>)
    ensures
        final(out)@ == old(out)@ + spec_row_list(rows_view(rs@)),
{
    emit_num(out, rs.len());
    let ghost view = rows_view(rs@);
    let ghost base = out@;
    let mut k: usize = 0;
    while k < rs.len()
        invariant
            k <= rs.len(),
            view == rows_view(rs@),
            view.len() == rs@.len(),
            out@ == base + spec_rows(view.take(k as int)),
        decreases rs.len() - k,
    {
        emit_row(out, &rs[k]);
        proof {
            assert(view.take(k as int).push(view[k as int]) =~= view.take(k + 1));
            lemma_spec_rows_push(view.take(k as int), view[k as int]);
            assert(view[k as int] == rs@[k as int]@);
        }
        k = k + 1;
    }
    proof {
        assert(view.take(rs@.len() as int) =~= view);
        assert(out@ =~= old(out)@ + spec_row_list(rows_view(rs@)));
    }
}

/// Appends a whole column-name list (count, then elements) to `out`.
fn emit_name_list(out: &mut String, ns: &Vec<String>)
    ensures
        final(out)@ == old(out)@ + spec_name_list(names_view(ns@)),
{
    emit_num(out, ns.len());
    let ghost view = names_view(ns@);
    let ghost base = out@;
    let mut k: usize = 0;
    while k < ns.len()
        invariant
            k <= ns.len(),
            view == names_view(ns@),
            view.len() == ns@.len(),
            out@ == base + spec_names(view.take(k as int)),
        decreases ns.len() - k,
    {
        emit_str_field(out, ns[k].as_str());
        proof {
            assert(view.take(k as int).push(view[k as int]) =~= view.take(k + 1));
            lemma_spec_names_push(view.take(k as int), view[k as int]);
            assert(view[k as int] == ns@[k as int]@);
        }
        k = k + 1;
    }
    proof {
        assert(view.take(ns@.len() as int) =~= view);
        assert(out@ =~= old(out)@ + spec_name_list(names_view(ns@)));
    }
}

impl ResponseDTO {
    /// The response payload: the UTF-8 bytes of its textual encoding.
    #[verifier::rlimit(100)]
    #[verifier::spinoff_prover]
    pub fn serialize(&self) -> (r: Vec<u8>)
        ensures
            r@ == wire_response(self@),
    {
        let mut out = String::new();
        out.append("status=");
        emit_str_field(&mut out, self.status.as_str());
        out.append(";rows_affected=");
        emit_num(&mut out, self.rows_affected);
        out.append(";rows=");
        emit_row_list(&mut out, &self.rows);
        out.append(";column_count=");
        emit_num(&mut out, self.column_count);
        out.append(";column_names=");
        emit_name_list(&mut out, &self.column_names);
        out.append(";");
        proof {
            assert(out@ =~= spec_response(self@));
        }
        out.as_str().as_bytes_vec()
    }
}

/// Parses one row at `pos`.
#[verifier::rlimit(80)]
fn parse_row(s: &str, pos: usize) -> (r: Option<(TableRowDTO, usize)>)
    requires
        pos <= s@.len(),
    ensures
        r matches Some(t) ==> pos <= t.1 <= s@.len() && row_fits(t.0@) && s@.subrange(
            pos as int,
            t.1 as int,
        ) == spec_row(t.0@),
        forall|rw: TableRowDTOV|
            row_fits(rw) && (#[trigger] spec_row(rw)).is_prefix_of(s@.skip(pos as int)) ==> (
            r matches Some(t) && t.0@ == rw && t.1 == pos + spec_row(rw).len()),
{
    let ghost tail0 = s@.skip(pos as int);
    let p1 = match expect_lit(s, pos, "columns=") {
        Some(p) => p,
        None => {
            proof {
                assert forall|rw: TableRowDTOV|
                    row_fits(rw) && (#[trigger] spec_row(rw)).is_prefix_of(tail0) implies false by {
                    lemma_prefix_parts("columns="@, spec_col_list(rw.columns) + ";"@, tail0);
                }
            }
            return None;
        },
    };
    let ghost tail1 = s@.skip(p1 as int);
    proof {
        assert forall|rw: TableRowDTOV|
            row_fits(rw) && (#[trigger] spec_row(rw)).is_prefix_of(tail0) implies (spec_col_list(
            rw.columns,
        ) + ";"@).is_prefix_of(tail1) by {
            lemma_prefix_parts("columns="@, spec_col_list(rw.columns) + ";"@, tail0);
            assert(tail0.skip("columns="@.len() as int) =~= tail1);
        }
    }
    let (columns, p2) = match parse_col_list(s, p1) {
        Some(t) => t,
        None => {
            proof {
                assert forall|rw: TableRowDTOV|
                    row_fits(rw) && (#[trigger] spec_row(rw)).is_prefix_of(tail0) implies false by {
                    lemma_prefix_parts(spec_col_list(rw.columns), ";"@, tail1);
                }
            }
            return None;
        },
    };
    let ghost tail2 = s@.skip(p2 as int);
    proof {
        assert forall|rw: TableRowDTOV|
            row_fits(rw) && (#[trigger] spec_row(rw)).is_prefix_of(tail0) implies ";"@.is_prefix_of(
            tail2,
        ) && rw.columns == cols_view(columns@) by {
            lemma_prefix_parts(spec_col_list(rw.columns), ";"@, tail1);
            assert(rw.columns == cols_view(columns@) && p2 == p1 + spec_col_list(
                rw.columns,
            ).len());
            assert(tail1.skip(spec_col_list(rw.columns).len() as int) =~= tail2);
        }
    }
    let p3 = match expect_lit(s, p2, ";") {
        Some(p) => p,
        None => {
            proof {
                assert forall|rw: TableRowDTOV|
                    row_fits(rw) && (#[trigger] spec_row(rw)).is_prefix_of(tail0) implies false by {
                    assert(";"@.is_prefix_of(tail2));
                }
            }
            return None;
        },
    };
    let row = TableRowDTO { columns };
    proof {
        assert(s@.subrange(p1 as int, p3 as int) =~= s@.subrange(p1 as int, p2 as int)
            + s@.subrange(p2 as int, p3 as int));
        assert(s@.subrange(pos as int, p3 as int) =~= s@.subrange(pos as int, p1 as int)
            + s@.subrange(p1 as int, p3 as int));
        assert(s@.subrange(pos as int, p3 as int) =~= spec_row(row@));
        assert forall|rw: TableRowDTOV|
            row_fits(rw) && (#[trigger] spec_row(rw)).is_prefix_of(tail0) implies row@ == rw && p3
            == pos + spec_row(rw).len() by {
            assert(rw.columns == row@.columns);
            assert(rw =~= row@);
        }
    }
    Some((row, p3))
}

/// Parses a row list (count, then that many rows) at `pos`.
#[verifier::rlimit(80)]
fn parse_row_list(s: &str, pos: usize) -> (r: Option<(Vec<TableRowDTO>, usize)>)
    requires
        pos <= s@.len(),
    ensures
        r matches Some(t) ==> pos < t.1 <= s@.len() && rows_fit(rows_view(t.0@)) && s@.subrange(
            pos as int,
            t.1 as int,
        ) == spec_row_list(rows_view(t.0@)),
        forall|rs: Seq<TableRowDTOV>|
            rows_fit(rs) && (#[trigger] spec_row_list(rs)).is_prefix_of(s@.skip(pos as int)) ==> (
            r matches Some(t) && rows_view(t.0@) == rs && t.1 == pos + spec_row_list(rs).len()),
{
    let ghost tail0 = s@.skip(pos as int);
    let (n, p0) = match parse_num(s, pos) {
        Some(t) => t,
        None => {
            proof {
                assert forall|rs: Seq<TableRowDTOV>|
                    rows_fit(rs) && (#[trigger] spec_row_list(rs)).is_prefix_of(
                        tail0,
                    ) implies false by {
                    lemma_prefix_parts(spec_num(rs.len()), spec_rows(rs), tail0);
                }
            }
            return None;
        },
    };
    proof {
        assert forall|rs: Seq<TableRowDTOV>|
            rows_fit(rs) && (#[trigger] spec_row_list(rs)).is_prefix_of(tail0) implies rs.len()
            == n && spec_rows(rs).is_prefix_of(s@.skip(p0 as int)) by {
            lemma_prefix_parts(spec_num(rs.len()), spec_rows(rs), tail0);
            assert(tail0.skip(spec_num(rs.len()).len() as int) =~= s@.skip(p0 as int));
        }
    }
    let mut out: Vec<TableRowDTO> = Vec::new();
    let mut p = p0;
    let mut k: usize = 0;
    while k < n
        invariant
            k <= n,
            p0 <= p <= s@.len(),
            pos < p0 <= s@.len(),
            out@.len() == k,
            rows_fit(rows_view(out@)),
            tail0 == s@.skip(pos as int),
            s@.subrange(p0 as int, p as int) == spec_rows(rows_view(out@)),
            s@.subrange(pos as int, p0 as int) == spec_num(n as nat),
            forall|rs: Seq<TableRowDTOV>|
                rows_fit(rs) && (#[trigger] spec_row_list(rs)).is_prefix_of(tail0) ==> rs.len()
                    == n && spec_rows(rs).is_prefix_of(s@.skip(p0 as int)),
            forall|rs: Seq<TableRowDTOV>|
                rows_fit(rs) && rs.len() == n && (#[trigger] spec_rows(rs)).is_prefix_of(
                    s@.skip(p0 as int),
                ) ==> rows_view(out@) == rs.take(k as int) && p == p0 + spec_rows(
                    rs.take(k as int),
                ).len(),
        decreases n - k,
    {
        let ghost old_out = out@;
        let ghost old_p = p;
        let (rw, np) = match parse_row(s, p) {
            Some(t) => t,
            None => {
                proof {
                    assert forall|rs: Seq<TableRowDTOV>|
                        rows_fit(rs) && rs.len() == n && (#[trigger] spec_rows(rs)).is_prefix_of(
                            s@.skip(p0 as int),
                        ) implies false by {
                        lemma_spec_rows_split(rs, k as int);
                        lemma_prefix_parts(
                            spec_rows(rs.take(k as int)),
                            spec_rows(rs.skip(k as int)),
                            s@.skip(p0 as int),
                        );
                        assert(s@.skip(p0 as int).skip(spec_rows(rs.take(k as int)).len() as int)
                            =~= s@.skip(p as int));
                        let rest = rs.skip(k as int);
                        assert(rest.len() == n - k >= 1);
                        assert(spec_rows(rest) == spec_row(rest[0]) + spec_rows(rest.drop_first()));
                        lemma_prefix_parts(
                            spec_row(rest[0]),
                            spec_rows(rest.drop_first()),
                            s@.skip(p as int),
                        );
                        assert(row_fits(rest[0]));
                    }
                }
                return None;
            },
        };
        out.push(rw);
        p = np;
        k = k + 1;
        proof {
            assert(rows_view(out@) =~= rows_view(old_out).push(rw@));
            lemma_spec_rows_push(rows_view(old_out), rw@);
            assert(s@.subrange(p0 as int, p as int) =~= s@.subrange(p0 as int, old_p as int)
                + s@.subrange(old_p as int, p as int));
            assert forall|rs: Seq<TableRowDTOV>|
                rows_fit(rs) && rs.len() == n && (#[trigger] spec_rows(rs)).is_prefix_of(
                    s@.skip(p0 as int),
                ) implies rows_view(out@) == rs.take(k as int) && p == p0 + spec_rows(
                rs.take(k as int),
            ).len() by {
                lemma_spec_rows_split(rs, k - 1);
                lemma_prefix_parts(
                    spec_rows(rs.take(k - 1)),
                    spec_rows(rs.skip(k - 1)),
                    s@.skip(p0 as int),
                );
                assert(s@.skip(p0 as int).skip(spec_rows(rs.take(k - 1)).len() as int) =~= s@.skip(
                    old_p as int,
                ));
                let rest = rs.skip(k - 1);
                assert(rest.len() >= 1);
                assert(spec_rows(rest) == spec_row(rest[0]) + spec_rows(rest.drop_first()));
                lemma_prefix_parts(
                    spec_row(rest[0]),
                    spec_rows(rest.drop_first()),
                    s@.skip(old_p as int),
                );
                assert(row_fits(rest[0]));
                assert(rw@ == rest[0] && np == old_p + spec_row(rest[0]).len());
                assert(rs.take(k as int) =~= rs.take(k - 1).push(rest[0]));
                lemma_spec_rows_push(rs.take(k - 1), rest[0]);
                assert(rows_view(out@) =~= rs.take(k as int));
            }
        }
    }
    proof {
        assert(s@.subrange(pos as int, p as int) =~= s@.subrange(pos as int, p0 as int)
            + s@.subrange(p0 as int, p as int));
        assert forall|rs: Seq<TableRowDTOV>|
            rows_fit(rs) && (#[trigger] spec_row_list(rs)).is_prefix_of(
                tail0,
            ) implies rows_view(out@) == rs && p == pos + spec_row_list(rs).len() by {
            assert(rs.len() == n);
            assert(rs.take(n as int) =~= rs);
            assert(s@.subrange(pos as int, p0 as int).len() == spec_num(n as nat).len());
        }
    }
    Some((out, p))
}

/// Parses a column-name list (count, then that many names) at `pos`.
#[verifier::rlimit(80)]
fn parse_name_list(s: &str, pos: usize) -> (r: Option<(Vec<String>, usize)>)
    requires
        pos <= s@.len(),
    ensures
        r matches Some(t) ==> pos < t.1 <= s@.len() && names_fit(names_view(t.0@)) && s@.subrange(
            pos as int,
            t.1 as int,
        ) == spec_name_list(names_view(t.0@)),
        forall|ns: Seq<Seq<char>>|
            names_fit(ns) && (#[trigger] spec_name_list(ns)).is_prefix_of(s@.skip(pos as int))
                ==> (r matches Some(t) && names_view(t.0@) == ns && t.1 == pos + spec_name_list(
                ns,
            ).len()),
{
    let ghost tail0 = s@.skip(pos as int);
    let (n, p0) = match parse_num(s, pos) {
        Some(t) => t,
        None => {
            proof {
                assert forall|ns: Seq<Seq<char>>|
                    names_fit(ns) && (#[trigger] spec_name_list(ns)).is_prefix_of(
                        tail0,
                    ) implies false by {
                    lemma_prefix_parts(spec_num(ns.len()), spec_names(ns), tail0);
                }
            }
            return None;
        },
    };
    proof {
        assert forall|ns: Seq<Seq<char>>|
            names_fit(ns) && (#[trigger] spec_name_list(ns)).is_prefix_of(tail0) implies ns.len()
            == n && spec_names(ns).is_prefix_of(s@.skip(p0 as int)) by {
            lemma_prefix_parts(spec_num(ns.len()), spec_names(ns), tail0);
            assert(tail0.skip(spec_num(ns.len()).len() as int) =~= s@.skip(p0 as int));
        }
    }
    let mut out: Vec<String> = Vec::new();
    let mut p = p0;
    let mut k: usize = 0;
    while k < n
        invariant
            k <= n,
            p0 <= p <= s@.len(),
            pos < p0 <= s@.len(),
            out@.len() == k,
            names_fit(names_view(out@)),
            tail0 == s@.skip(pos as int),
            s@.subrange(p0 as int, p as int) == spec_names(names_view(out@)),
            s@.subrange(pos as int, p0 as int) == spec_num(n as nat),
            forall|ns: Seq<Seq<char>>|
                names_fit(ns) && (#[trigger] spec_name_list(ns)).is_prefix_of(tail0) ==> ns.len()
                    == n && spec_names(ns).is_prefix_of(s@.skip(p0 as int)),
            forall|ns: Seq<Seq<char>>|
                names_fit(ns) && ns.len() == n && (#[trigger] spec_names(ns)).is_prefix_of(
                    s@.skip(p0 as int),
                ) ==> names_view(out@) == ns.take(k as int) && p == p0 + spec_names(
                    ns.take(k as int),
                ).len(),
        decreases n - k,
    {
        let ghost old_out = out@;
        let ghost old_p = p;
        let (nm, np) = match parse_str_field(s, p) {
            Some(t) => t,
            None => {
                proof {
                    assert forall|ns: Seq<Seq<char>>|
                        names_fit(ns) && ns.len() == n && (#[trigger] spec_names(ns)).is_prefix_of(
                            s@.skip(p0 as int),
                        ) implies false by {
                        lemma_spec_names_split(ns, k as int);
                        lemma_prefix_parts(
                            spec_names(ns.take(k as int)),
                            spec_names(ns.skip(k as int)),
                            s@.skip(p0 as int),
                        );
                        assert(s@.skip(p0 as int).skip(spec_names(ns.take(k as int)).len() as int)
                            =~= s@.skip(p as int));
                        let rest = ns.skip(k as int);
                        assert(rest.len() == n - k >= 1);
                        assert(spec_names(rest) == spec_str_field(rest[0]) + spec_names(
                            rest.drop_first(),
                        ));
                        lemma_prefix_parts(
                            spec_str_field(rest[0]),
                            spec_names(rest.drop_first()),
                            s@.skip(p as int),
                        );
                        assert(rest[0].len() <= usize::MAX);
                    }
                }
                return None;
            },
        };
        out.push(nm);
        p = np;
        k = k + 1;
        proof {
            assert(names_view(out@) =~= names_view(old_out).push(out@[k - 1]@));
            lemma_spec_names_push(names_view(old_out), out@[k - 1]@);
            assert(s@.subrange(p0 as int, p as int) =~= s@.subrange(p0 as int, old_p as int)
                + s@.subrange(old_p as int, p as int));
            assert forall|ns: Seq<Seq<char>>|
                names_fit(ns) && ns.len() == n && (#[trigger] spec_names(ns)).is_prefix_of(
                    s@.skip(p0 as int),
                ) implies names_view(out@) == ns.take(k as int) && p == p0 + spec_names(
                ns.take(k as int),
            ).len() by {
                lemma_spec_names_split(ns, k - 1);
                lemma_prefix_parts(
                    spec_names(ns.take(k - 1)),
                    spec_names(ns.skip(k - 1)),
                    s@.skip(p0 as int),
                );
                assert(s@.skip(p0 as int).skip(spec_names(ns.take(k - 1)).len() as int) =~= s@.skip(
                    old_p as int,
                ));
                let rest = ns.skip(k - 1);
                assert(rest.len() >= 1);
                assert(spec_names(rest) == spec_str_field(rest[0]) + spec_names(rest.drop_first()));
                lemma_prefix_parts(
                    spec_str_field(rest[0]),
                    spec_names(rest.drop_first()),
                    s@.skip(old_p as int),
                );
                assert(rest[0].len() <= usize::MAX);
                assert(out@[k - 1]@ == rest[0] && np == old_p + spec_str_field(rest[0]).len());
                assert(ns.take(k as int) =~= ns.take(k - 1).push(rest[0]));
                lemma_spec_names_push(ns.take(k - 1), rest[0]);
                assert(names_view(out@) =~= ns.take(k as int));
            }
        }
    }
    proof {
        assert(s@.subrange(pos as int, p as int) =~= s@.subrange(pos as int, p0 as int)
            + s@.subrange(p0 as int, p as int));
        assert forall|ns: Seq<Seq<char>>|
            names_fit(ns) && (#[trigger] spec_name_list(ns)).is_prefix_of(
                tail0,
            ) implies names_view(out@) == ns && p == pos + spec_name_list(ns).len() by {
            assert(ns.len() == n);
            assert(ns.take(n as int) =~= ns);
            assert(s@.subrange(pos as int, p0 as int).len() == spec_num(n as nat).len());
        }
    }
    Some((out, p))
}

/// Parses the opening of a response: the `status` and `rows_affected`
/// fields, up to and including the `;rows=` introducer.
#[verifier::rlimit(100)]
#[verifier::spinoff_prover]
fn parse_response_head(s: &str) -> (r: Option<(String, usize, usize)>)
    ensures
        r matches Some(t) ==> t.2 <= s@.len() && t.0@.len() <= usize::MAX && s@.subrange(
            0,
            t.2 as int,
        ) == "status="@ + (spec_str_field(t.0@) + (";rows_affected="@ + (spec_num(t.1 as nat)
            + ";rows="@))),
        forall|x: ResponseDTOV|
            response_fits(x) && s@ == #[trigger] spec_response(x) ==> (r matches Some(t) && t.0@
                == x.status && t.1 == x.rows_affected && spec_resp_tail(x).is_prefix_of(
                s@.skip(t.2 as int),
            )),
{
    let ghost whole = s@;
    proof {
        assert(whole.skip(0) =~= whole);
        assert forall|x: ResponseDTOV| s@ == spec_response(x) implies spec_response(
            x,
        ).is_prefix_of(whole.skip(0)) by {
            assert(spec_response(x).is_prefix_of(spec_response(x)));
        }
    }
    let p1 = match expect_lit(s, 0, "status=") {
        Some(p) => p,
        None => {
            proof {
                assert forall|x: ResponseDTOV|
                    response_fits(x) && s@ == spec_response(x) implies false by {
                    lemma_prefix_parts(
                        "status="@,
                        spec_str_field(x.status) + (";rows_affected="@ + (spec_num(
                            x.rows_affected as nat,
                        ) + (";rows="@ + spec_resp_tail(x)))),
                        whole.skip(0),
                    );
                }
            }
            return None;
        },
    };
    proof {
        assert forall|x: ResponseDTOV|
            response_fits(x) && s@ == spec_response(x) implies (spec_str_field(x.status) + (
        ";rows_affected="@ + (spec_num(x.rows_affected as nat) + (";rows="@ + spec_resp_tail(
            x,
        ))))).is_prefix_of(s@.skip(p1 as int)) by {
            lemma_prefix_parts(
                "status="@,
                spec_str_field(x.status) + (";rows_affected="@ + (spec_num(x.rows_affected as nat)
                    + (";rows="@ + spec_resp_tail(x)))),
                whole.skip(0),
            );
            assert(whole.skip(0).skip("status="@.len() as int) =~= s@.skip(p1 as int));
        }
    }
    let (status, p2) = match parse_str_field(s, p1) {
        Some(t) => t,
        None => {
            proof {
                assert forall|x: ResponseDTOV|
                    response_fits(x) && s@ == spec_response(x) implies false by {
                    lemma_prefix_parts(
                        spec_str_field(x.status),
                        ";rows_affected="@ + (spec_num(x.rows_affected as nat) + (";rows="@
                            + spec_resp_tail(x))),
                        s@.skip(p1 as int),
                    );
                }
            }
            return None;
        },
    };
    proof {
        assert forall|x: ResponseDTOV|
            response_fits(x) && s@ == spec_response(x) implies x.status == status@ && (
        ";rows_affected="@ + (spec_num(x.rows_affected as nat) + (";rows="@ + spec_resp_tail(
            x,
        )))).is_prefix_of(s@.skip(p2 as int)) by {
            lemma_prefix_parts(
                spec_str_field(x.status),
                ";rows_affected="@ + (spec_num(x.rows_affected as nat) + (";rows="@
                    + spec_resp_tail(x))),
                s@.skip(p1 as int),
            );
            assert(x.status == status@ && p2 == p1 + spec_str_field(x.status).len());
            assert(s@.skip(p1 as int).skip(spec_str_field(x.status).len() as int) =~= s@.skip(
                p2 as int,
            ));
        }
    }
    let p3 = match expect_lit(s, p2, ";rows_affected=") {
        Some(p) => p,
        None => {
            proof {
                assert forall|x: ResponseDTOV|
                    response_fits(x) && s@ == spec_response(x) implies false by {
                    lemma_prefix_parts(
                        ";rows_affected="@,
                        spec_num(x.rows_affected as nat) + (";rows="@ + spec_resp_tail(x)),
                        s@.skip(p2 as int),
                    );
                }
            }
            return None;
        },
    };
    proof {
        assert forall|x: ResponseDTOV|
            response_fits(x) && s@ == spec_response(x) implies (spec_num(x.rows_affected as nat)
            + (";rows="@ + spec_resp_tail(x))).is_prefix_of(s@.skip(p3 as int)) by {
            lemma_prefix_parts(
                ";rows_affected="@,
                spec_num(x.rows_affected as nat) + (";rows="@ + spec_resp_tail(x)),
                s@.skip(p2 as int),
            );
            assert(s@.skip(p2 as int).skip(";rows_affected="@.len() as int) =~= s@.skip(
                p3 as int,
            ));
        }
    }
    let (ra, p4) = match parse_num(s, p3) {
        Some(t) => t,
        None => {
            proof {
                assert forall|x: ResponseDTOV|
                    response_fits(x) && s@ == spec_response(x) implies false by {
                    lemma_prefix_parts(
                        spec_num(x.rows_affected as nat),
                        ";rows="@ + spec_resp_tail(x),
                        s@.skip(p3 as int),
                    );
                }
            }
            return None;
        },
    };
    proof {
        assert forall|x: ResponseDTOV|
            response_fits(x) && s@ == spec_response(x) implies x.rows_affected == ra && (";rows="@
            + spec_resp_tail(x)).is_prefix_of(s@.skip(p4 as int)) by {
            lemma_prefix_parts(
                spec_num(x.rows_affected as nat),
                ";rows="@ + spec_resp_tail(x),
                s@.skip(p3 as int),
            );
            assert(x.rows_affected == ra && p4 == p3 + spec_num(x.rows_affected as nat).len());
            assert(s@.skip(p3 as int).skip(spec_num(x.rows_affected as nat).len() as int)
                =~= s@.skip(p4 as int));
        }
    }
    let p5 = match expect_lit(s, p4, ";rows=") {
        Some(p) => p,
        None => {
            proof {
                assert forall|x: ResponseDTOV|
                    response_fits(x) && s@ == spec_response(x) implies false by {
                    lemma_prefix_parts(";rows="@, spec_resp_tail(x), s@.skip(p4 as int));
                }
            }
            return None;
        },
    };
    proof {
        assert forall|x: ResponseDTOV|
            response_fits(x) && s@ == spec_response(x) implies spec_resp_tail(x).is_prefix_of(
            s@.skip(p5 as int),
        ) by {
            lemma_prefix_parts(";rows="@, spec_resp_tail(x), s@.skip(p4 as int));
            assert(s@.skip(p4 as int).skip(";rows="@.len() as int) =~= s@.skip(p5 as int));
        }
    }
    proof {
        assert(s@.subrange(p3 as int, p5 as int) =~= s@.subrange(p3 as int, p4 as int)
            + s@.subrange(p4 as int, p5 as int));
        assert(s@.subrange(p2 as int, p5 as int) =~= s@.subrange(p2 as int, p3 as int)
            + s@.subrange(p3 as int, p5 as int));
        assert(s@.subrange(p1 as int, p5 as int) =~= s@.subrange(p1 as int, p2 as int)
            + s@.subrange(p2 as int, p5 as int));
        assert(s@.subrange(0, p5 as int) =~= s@.subrange(0, p1 as int) + s@.subrange(
            p1 as int,
            p5 as int,
        ));
        assert(s@.subrange(0, p5 as int) =~= "status="@ + (spec_str_field(status@) + (
        ";rows_affected="@ + (spec_num(ra as nat) + ";rows="@))));
    }
    Some((status, ra, p5))
}

/// Parses the back half of a response (the row list through the final
/// terminator) at `pos`; the input must be consumed exactly.
#[verifier::rlimit(100)]
#[verifier::spinoff_prover]
fn parse_response_tail(s: &str, pos: usize) -> (r: Option<(Vec<TableRowDTO>, usize, Vec<String>)>)
    requires
        pos <= s@.len(),
    ensures
        r matches Some(t) ==> rows_fit(rows_view(t.0@)) && names_fit(names_view(t.2@))
            && s@.skip(pos as int) == spec_row_list(rows_view(t.0@)) + (";column_count="@ + (
        spec_num(t.1 as nat) + (";column_names="@ + (spec_name_list(names_view(t.2@)) + ";"@)))),
        forall|x: ResponseDTOV|
            response_fits(x) && s@.skip(pos as int) == #[trigger] spec_resp_tail(x) ==> (
            r matches Some(t) && rows_view(t.0@) == x.rows && t.1 == x.column_count && names_view(
                t.2@,
            ) == x.column_names),
{
    let ghost tail = s@.skip(pos as int);
    proof {
        assert forall|x: ResponseDTOV| s@.skip(pos as int) == spec_resp_tail(
            x,
        ) implies spec_resp_tail(x).is_prefix_of(tail) by {
            assert(spec_resp_tail(x).is_prefix_of(spec_resp_tail(x)));
        }
    }
    let (rows, p6) = match parse_row_list(s, pos) {
        Some(t) => t,
        None => {
            proof {
                assert forall|x: ResponseDTOV|
                    response_fits(x) && s@.skip(pos as int) == spec_resp_tail(
                        x,
                    ) implies false by {
                    lemma_prefix_parts(
                        spec_row_list(x.rows),
                        ";column_count="@ + (spec_num(x.column_count as nat) + (";column_names="@
                            + (spec_name_list(x.column_names) + ";"@))),
                        tail,
                    );
                }
            }
            return None;
        },
    };
    proof {
        assert forall|x: ResponseDTOV|
            response_fits(x) && s@.skip(pos as int) == spec_resp_tail(x) implies x.rows
            == rows_view(rows@) && (";column_count="@ + (spec_num(x.column_count as nat) + (
        ";column_names="@ + (spec_name_list(x.column_names) + ";"@)))).is_prefix_of(
            s@.skip(p6 as int),
        ) by {
            lemma_prefix_parts(
                spec_row_list(x.rows),
                ";column_count="@ + (spec_num(x.column_count as nat) + (";column_names="@ + (
                spec_name_list(x.column_names) + ";"@))),
                tail,
            );
            assert(x.rows == rows_view(rows@) && p6 == pos + spec_row_list(x.rows).len());
            assert(tail.skip(spec_row_list(x.rows).len() as int) =~= s@.skip(p6 as int));
        }
    }
    let p7 = match expect_lit(s, p6, ";column_count=") {
        Some(p) => p,
        None => {
            proof {
                assert forall|x: ResponseDTOV|
                    response_fits(x) && s@.skip(pos as int) == spec_resp_tail(
                        x,
                    ) implies false by {
                    lemma_prefix_parts(
                        ";column_count="@,
                        spec_num(x.column_count as nat) + (";column_names="@ + (spec_name_list(
                            x.column_names,
                        ) + ";"@)),
                        s@.skip(p6 as int),
                    );
                }
            }
            return None;
        },
    };
    proof {
        assert forall|x: ResponseDTOV|
            response_fits(x) && s@.skip(pos as int) == spec_resp_tail(x) implies (spec_num(
            x.column_count as nat,
        ) + (";column_names="@ + (spec_name_list(x.column_names) + ";"@))).is_prefix_of(
            s@.skip(p7 as int),
        ) by {
            lemma_prefix_parts(
                ";column_count="@,
                spec_num(x.column_count as nat) + (";column_names="@ + (spec_name_list(
                    x.column_names,
                ) + ";"@)),
                s@.skip(p6 as int),
            );
            assert(s@.skip(p6 as int).skip(";column_count="@.len() as int) =~= s@.skip(
                p7 as int,
            ));
        }
    }
    let (cc, p8) = match parse_num(s, p7) {
        Some(t) => t,
        None => {
            proof {
                assert forall|x: ResponseDTOV|
                    response_fits(x) && s@.skip(pos as int) == spec_resp_tail(
                        x,
                    ) implies false by {
                    lemma_prefix_parts(
                        spec_num(x.column_count as nat),
                        ";column_names="@ + (spec_name_list(x.column_names) + ";"@),
                        s@.skip(p7 as int),
                    );
                }
            }
            return None;
        },
    };
    proof {
        assert forall|x: ResponseDTOV|
            response_fits(x) && s@.skip(pos as int) == spec_resp_tail(x) implies x.column_count
            == cc && (";column_names="@ + (spec_name_list(x.column_names) + ";"@)).is_prefix_of(
            s@.skip(p8 as int),
        ) by {
            lemma_prefix_parts(
                spec_num(x.column_count as nat),
                ";column_names="@ + (spec_name_list(x.column_names) + ";"@),
                s@.skip(p7 as int),
            );
            assert(x.column_count == cc && p8 == p7 + spec_num(x.column_count as nat).len());
            assert(s@.skip(p7 as int).skip(spec_num(x.column_count as nat).len() as int)
                =~= s@.skip(p8 as int));
        }
    }
    let p9 = match expect_lit(s, p8, ";column_names=") {
        Some(p) => p,
        None => {
            proof {
                assert forall|x: ResponseDTOV|
                    response_fits(x) && s@.skip(pos as int) == spec_resp_tail(
                        x,
                    ) implies false by {
                    lemma_prefix_parts(
                        ";column_names="@,
                        spec_name_list(x.column_names) + ";"@,
                        s@.skip(p8 as int),
                    );
                }
            }
            return None;
        },
    };
    proof {
        assert forall|x: ResponseDTOV|
            response_fits(x) && s@.skip(pos as int) == spec_resp_tail(x) implies (spec_name_list(
            x.column_names,
        ) + ";"@).is_prefix_of(s@.skip(p9 as int)) by {
            lemma_prefix_parts(
                ";column_names="@,
                spec_name_list(x.column_names) + ";"@,
                s@.skip(p8 as int),
            );
            assert(s@.skip(p8 as int).skip(";column_names="@.len() as int) =~= s@.skip(
                p9 as int,
            ));
        }
    }
    let (names, p10) = match parse_name_list(s, p9) {
        Some(t) => t,
        None => {
            proof {
                assert forall|x: ResponseDTOV|
                    response_fits(x) && s@.skip(pos as int) == spec_resp_tail(
                        x,
                    ) implies false by {
                    lemma_prefix_parts(spec_name_list(x.column_names), ";"@, s@.skip(p9 as int));
                }
            }
            return None;
        },
    };
    proof {
        assert forall|x: ResponseDTOV|
            response_fits(x) && s@.skip(pos as int) == spec_resp_tail(x) implies x.column_names
            == names_view(names@) && ";"@.is_prefix_of(s@.skip(p10 as int)) by {
            lemma_prefix_parts(spec_name_list(x.column_names), ";"@, s@.skip(p9 as int));
            assert(x.column_names == names_view(names@) && p10 == p9 + spec_name_list(
                x.column_names,
            ).len());
            assert(s@.skip(p9 as int).skip(spec_name_list(x.column_names).len() as int) =~= s@.skip(
                p10 as int,
            ));
        }
    }
    let p11 = match expect_lit(s, p10, ";") {
        Some(p) => p,
        None => {
            proof {
                assert forall|x: ResponseDTOV|
                    response_fits(x) && s@.skip(pos as int) == spec_resp_tail(
                        x,
                    ) implies false by {
                    assert(";"@.is_prefix_of(s@.skip(p10 as int)));
                }
            }
            return None;
        },
    };
    let ghost assembled = s@.subrange(pos as int, p11 as int);
    proof {
        assert(s@.subrange(p9 as int, p11 as int) =~= s@.subrange(p9 as int, p10 as int)
            + s@.subrange(p10 as int, p11 as int));
        assert(s@.subrange(p8 as int, p11 as int) =~= s@.subrange(p8 as int, p9 as int)
            + s@.subrange(p9 as int, p11 as int));
        assert(s@.subrange(p7 as int, p11 as int) =~= s@.subrange(p7 as int, p8 as int)
            + s@.subrange(p8 as int, p11 as int));
        assert(s@.subrange(p6 as int, p11 as int) =~= s@.subrange(p6 as int, p7 as int)
            + s@.subrange(p7 as int, p11 as int));
        assert(assembled =~= s@.subrange(pos as int, p6 as int) + s@.subrange(
            p6 as int,
            p11 as int,
        ));
        assert(assembled =~= spec_row_list(rows_view(rows@)) + (";column_count="@ + (spec_num(
            cc as nat,
        ) + (";column_names="@ + (spec_name_list(names_view(names@)) + ";"@)))));
    }
    let sl = s.unicode_len();
    if p11 != sl {
        proof {
            assert forall|x: ResponseDTOV|
                response_fits(x) && s@.skip(pos as int) == spec_resp_tail(x) implies false by {
                assert(x.rows == rows_view(rows@) && x.column_count == cc && x.column_names
                    == names_view(names@));
                assert(spec_resp_tail(x) == assembled);
                assert(s@.skip(pos as int).len() == assembled.len());
                assert(assembled.len() == p11 - pos);
            }
        }
        return None;
    }
    proof {
        assert(s@.skip(pos as int) =~= assembled);
    }
    Some((rows, cc, names))
}

/// Parses a whole response text; the input must be consumed exactly.
#[verifier::rlimit(100)]
#[verifier::spinoff_prover]
fn parse_response_text(s: &str) -> (r: Option<ResponseDTO>)
    ensures
        r matches Some(d) ==> response_fits(d@) && s@ == spec_response(d@),
        forall|x: ResponseDTOV|
            response_fits(x) && s@ == spec_response(x) ==> (r matches Some(d) && d@ == x),
{
    let (status, ra, p5) = match parse_response_head(s) {
        Some(t) => t,
        None => {
            return None;
        },
    };
    proof {
        assert forall|x: ResponseDTOV|
            response_fits(x) && s@ == spec_response(x) implies s@.skip(p5 as int)
            == spec_resp_tail(x) by {
            assert(spec_resp_tail(x).is_prefix_of(s@.skip(p5 as int)));
            assert(s@.len() == spec_response(x).len());
            assert(x.status == status@ && x.rows_affected == ra);
            assert(spec_response(x) == "status="@ + (spec_str_field(status@) + (
            ";rows_affected="@ + (spec_num(ra as nat) + (";rows="@ + spec_resp_tail(x))))));
            assert(s@.subrange(0, p5 as int).len() == "status="@.len() + spec_str_field(
                status@,
            ).len() + ";rows_affected="@.len() + spec_num(ra as nat).len() + ";rows="@.len());
            assert(spec_response(x).len() == p5 + spec_resp_tail(x).len());
            assert(s@.skip(p5 as int) =~= spec_resp_tail(x));
        }
    }
    let (rows, cc, names) = match parse_response_tail(s, p5) {
        Some(t) => t,
        None => {
            return None;
        },
    };
    let d = ResponseDTO {
        status,
        rows_affected: ra,
        rows,
        column_count: cc,
        column_names: names,
    };
    proof {
        assert(s@ =~= s@.subrange(0, p5 as int) + s@.skip(p5 as int));
        assert(s@ =~= spec_response(d@));
        assert forall|x: ResponseDTOV| response_fits(x) && s@ == spec_response(x) implies d@
            == x by {
            assert(d@.status == x.status && d@.rows_affected == x.rows_affected && d@.rows
                == x.rows && d@.column_count == x.column_count && d@.column_names
                == x.column_names);
            assert(d@ =~= x);
        }
    }
    Some(d)
}

impl ResponseDTO {
    /// Reconstructs a response from its payload bytes. Accepts exactly the
    /// outputs of [`ResponseDTO::serialize`]; everything else is a transport
    /// error.
    pub fn deserialize(bytes: &Vec<u8>) -> (r: Result<ResponseDTO, Error>)
        ensures
            r matches Ok(d) ==> response_fits(d@) && bytes@ == wire_response(d@),
            forall|x: ResponseDTOV|
                response_fits(x) && bytes@ == #[trigger] wire_response(x) ==> (r matches Ok(d)
                    && d@ == x),
            r matches Err(e) ==> e@.kind == ErrorKind::Io,
    {
        broadcast use vstd::utf8::encode_utf8_valid_utf8;
        broadcast use vstd::utf8::encode_utf8_decode_utf8;
        broadcast use vstd::utf8::decode_utf8_encode_utf8;

        let text = match bytes_to_string(bytes) {
            Some(t) => t,
            None => {
                return Err(Error::io(AlesiaError(String::from_str("invalid response payload"))));
            },
        };
        let s = text.as_str();
        match parse_response_text(s) {
            Some(d) => {
                proof {
                    assert(bytes@ == vstd::utf8::encode_utf8(s@));
                    assert forall|x: ResponseDTOV|
                        response_fits(x) && bytes@ == #[trigger] wire_response(x) implies d@
                        == x by {
                        assert(vstd::utf8::decode_utf8(wire_response(x)) == spec_response(x));
                        assert(s@ == spec_response(x));
                    }
                }
                Ok(d)
            },
            None => {
                proof {
                    assert forall|x: ResponseDTOV|
                        response_fits(x) && bytes@ == #[trigger] wire_response(x) implies false by {
                        assert(vstd::utf8::decode_utf8(wire_response(x)) == spec_response(x));
                        assert(s@ == spec_response(x));
                    }
                }
                Err(Error::io(AlesiaError(String::from_str("malformed response payload"))))
            },
        }
    }
}

} // verus!
