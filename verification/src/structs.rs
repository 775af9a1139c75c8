//! Native-value conversions and name-addressable result rows.
//!
//! [`ToColumnDate`] is the capability a statement parameter needs: becoming
//! one tagged column value. [`TableRow`] pairs one response row with its
//! parent response's column names, so that cells can be fetched by position
//! or by column name.
use vstd::prelude::*;
use vstd::string::StrSliceExecFns;

use crate::codec::spec_int_str;
use crate::codec::int_to_text;
use crate::codec::wf_column;
use crate::codec::lemma_int_text_roundtrip;
use crate::dto::ColumnData;
use crate::dto::ColumnDataV;
use crate::dto::DataType;
use crate::dto::ResponseDTO;
use crate::dto::TableRowDTO;
use crate::dto::cols_view;
use crate::dto::names_view;

verus! {

/// A native value that can stand as one statement parameter.
pub trait ToColumnDate {
    /// The column value this native value encodes to.
    spec fn spec_sql(&self) -> ColumnDataV;

    /// Encodes this value as a tagged column value; the result always
    /// satisfies the column invariant of its kind.
    fn to_sql(&self) -> (r: ColumnData)
        ensures
            r@ == self.spec_sql(),
            wf_column(r@),
    ;
}

impl ToColumnDate for i32 {
    open spec fn spec_sql(&self) -> ColumnDataV {
        ColumnDataV { data: spec_int_str(*self as int), data_type: DataType::INTEGER }
    }

    fn to_sql(&self) -> (r: ColumnData)
        ensures
            r@ == self.spec_sql(),
            wf_column(r@),
    {
        proof {
            lemma_int_text_roundtrip(*self as int);
        }
        ColumnData { data: int_to_text(*self), data_type: DataType::INTEGER }
    }
}

impl ToColumnDate for String {
    open spec fn spec_sql(&self) -> ColumnDataV {
        ColumnDataV { data: self@, data_type: DataType::TEXT }
    }

    fn to_sql(&self) -> (r: ColumnData)
        ensures
            r@ == self.spec_sql(),
            wf_column(r@),
    {
        ColumnData { data: self.clone(), data_type: DataType::TEXT }
    }
}

/// A value-preserving copy of one column.
pub fn copy_column(c: &ColumnData) -> (r: ColumnData)
    ensures
        r == *c,
{
    ColumnData { data: c.data.clone(), data_type: c.data_type }
}

/// A value-preserving copy of a column vector.
pub fn copy_columns(cs: &Vec<ColumnData>) -> (r: Vec<ColumnData>)
    ensures
        r@ == cs@,
{
    let mut out: Vec<ColumnData> = Vec::new();
    let mut i: usize = 0;
    while i < cs.len()
        invariant
            i <= cs@.len(),
            out@ == cs@.take(i as int),
        decreases cs@.len() - i,
    {
        out.push(copy_column(&cs[i]));
        proof {
            assert(cs@.take(i + 1) =~= cs@.take(i as int).push(cs@[i as int]));
        }
        i = i + 1;
    }
    proof {
        assert(cs@.take(cs@.len() as int) =~= cs@);
    }
    out
}

/// A value-preserving copy of a string vector.
pub fn copy_strings(ns: &Vec<String>) -> (r: Vec<String>)
    ensures
        r@ == ns@,
{
    let mut out: Vec<String> = Vec::new();
    let mut i: usize = 0;
    while i < ns.len()
        invariant
            i <= ns@.len(),
            out@ == ns@.take(i as int),
        decreases ns@.len() - i,
    {
        out.push(ns[i].clone());
        proof {
            assert(ns@.take(i + 1) =~= ns@.take(i as int).push(ns@[i as int]));
        }
        i = i + 1;
    }
    proof {
        assert(ns@.take(ns@.len() as int) =~= ns@);
    }
    out
}

/// Character-wise string equality.
pub fn str_eq(a: &str, b: &str) -> (r: bool)
    ensures
        r == (a@ == b@),
{
    let la = a.unicode_len();
    let lb = b.unicode_len();
    if la != lb {
        return false;
    }
    let mut i: usize = 0;
    while i < la
        invariant
            i <= la,
            la == a@.len(),
            la == b@.len(),
            forall|k: int| 0 <= k < i ==> a@[k] == b@[k],
        decreases la - i,
    {
        let ca = a.get_char(i);
        let cb = b.get_char(i);
        if ca != cb {
            return false;
        }
        i = i + 1;
    }
    proof {
        assert(a@ =~= b@);
    }
    true
}

/// One result row together with its response's column names, so cells can
/// be addressed by name as well as by position.
pub struct TableRow {
    column_name: Vec<String>,
    pub columns: Vec<ColumnData>,
}

/// Mathematical view of a [`TableRow`].
#[verifier::ext_equal]
pub struct TableRowV {
    pub column_names: Seq<Seq<char>>,
    pub columns: Seq<ColumnDataV>,
}

impl View for TableRow {
    type V = TableRowV;

    closed spec fn view(&self) -> TableRowV {
        TableRowV {
            column_names: names_view(self.column_name@),
            columns: cols_view(self.columns@),
        }
    }
}

/// The first position of `name` among `names`.
pub open spec fn first_name_index(names: Seq<Seq<char>>, name: Seq<char>) -> int
    decreases names.len(),
{
    if names.len() == 0 {
        0
    } else if names[0] == name {
        0
    } else {
        1 + first_name_index(names.drop_first(), name)
    }
}

/// `names` holds `name` somewhere.
pub open spec fn has_name(names: Seq<Seq<char>>, name: Seq<char>) -> bool {
    exists|i: int| 0 <= i < names.len() && names[i] == name
}

/// When the name occurs, `first_name_index` is its first occurrence.
pub proof fn lemma_first_name_index(names: Seq<Seq<char>>, name: Seq<char>)
    requires
        has_name(names, name),
    ensures
        0 <= first_name_index(names, name) < names.len(),
        names[first_name_index(names, name)] == name,
        forall|j: int| 0 <= j < first_name_index(names, name) ==> names[j] != name,
    decreases names.len(),
{
    if names[0] == name {
    } else {
        let rest = names.drop_first();
        assert(has_name(rest, name)) by {
            let w = choose|i: int| 0 <= i < names.len() && names[i] == name;
            assert(rest[w - 1] == names[w]);
        }
        lemma_first_name_index(rest, name);
        assert(forall|j: int| 1 <= j < names.len() ==> names[j] == rest[j - 1]);
    }
}

impl TableRow {
    /// Builds a name-addressable row out of one response row and its parent
    /// response's column names.
    pub fn from(response: &ResponseDTO, row: &TableRowDTO) -> (r: TableRow)
        ensures
            r@.column_names == response@.column_names,
            r@.columns == row@.columns,
    {
        TableRow {
            column_name: copy_strings(&response.column_names),
            columns: copy_columns(&row.columns),
        }
    }

    /// The cell at `index`.
    pub fn get(&self, index: usize) -> (r: ColumnData)
        requires
            index < self@.columns.len(),
        ensures
            r@ == self@.columns[index as int],
    {
        copy_column(&self.columns[index])
    }

    /// The cell under the first column named `name`.
    pub fn get_by_name(&self, name: &str) -> (r: ColumnData)
        requires
            has_name(self@.column_names, name@),
            first_name_index(self@.column_names, name@) < self@.columns.len(),
        ensures
            r@ == self@.columns[first_name_index(self@.column_names, name@)],
    {
        proof {
            lemma_first_name_index(self@.column_names, name@);
        }
        let ghost fni = first_name_index(self@.column_names, name@);
        let n = self.column_name.len();
        let mut i: usize = 0;
        while i < n
            invariant
                i <= n,
                n == self@.column_names.len(),
                n == self.column_name@.len(),
                0 <= fni < n,
                fni == first_name_index(self@.column_names, name@),
                self@.column_names[fni] == name@,
                forall|j: int| 0 <= j < fni ==> self@.column_names[j] != name@,
                i <= fni,
                fni < self@.columns.len(),
                self@.columns.len() == self.columns@.len(),
            decreases n - i,
        {
            if str_eq(self.column_name[i].as_str(), name) {
                proof {
                    assert(self@.column_names[i as int] == self.column_name@[i as int]@);
                    assert(i as int == fni) by {
                        if (i as int) < fni {
                            assert(self@.column_names[i as int] != name@);
                        }
                    }
                }
                return copy_column(&self.columns[i]);
            }
            proof {
                assert(self@.column_names[i as int] == self.column_name@[i as int]@);
                assert(i as int != fni);
            }
            i = i + 1;
        }
        proof {
            assert(false);
        }
        vstd::pervasive::unreached()
    }
}

} // verus!
