//! The table model and the execution engine: typed cells validated at
//! load time, and the filter / order / paginate pipeline over row
//! indices. All comparisons between cell text and predicate arguments
//! are lexicographic over characters, consistently for the relational
//! operators, `BETWEEN` and ordering.

use crate::error::{CIndexError, CIndexResult, ErrKind};
use crate::models::OrdV;
use crate::pattern::{regex_match, regex_ok};
use crate::query::{preds_view, Operator, PredV, Predicate, Query, QueryV};
use crate::strutil::{is_number, lex_le, lex_lt, str_compare, str_eq, CmpRes};
use vstd::prelude::*;

verus! {

broadcast use crate::strutil::lemma_dv_len, crate::strutil::lemma_dv_index;

/// The declared type of a column: what its cells' text must satisfy
/// when the table is loaded.
#[derive(Debug, PartialEq, Eq, Structural, Clone, Copy)]
pub enum DataType {
    Null,
    Text,
    Integer,
    Float,
    Blob,
}

/// Whether a sequence reads as a signed whole number: an optional sign
/// and one or more digits.
pub open spec fn integer_shape(s: Seq<char>) -> bool {
    if s.len() > 0 && (s[0] == '-' || s[0] == '+') {
        is_number(s.drop_first())
    } else {
        is_number(s)
    }
}

/// The body of a decimal number from position `i` on: digits with at
/// most one point between them, and at least one digit overall.
pub open spec fn decimal_body(s: Seq<char>, i: int, seen_dot: bool, seen_digit: bool) -> bool
    decreases s.len() - i,
{
    if i >= s.len() {
        seen_digit
    } else if crate::strutil::is_digit(s[i]) {
        decimal_body(s, i + 1, seen_dot, true)
    } else if s[i] == '.' {
        if seen_dot {
            false
        } else {
            decimal_body(s, i + 1, true, seen_digit)
        }
    } else {
        false
    }
}

/// Whether a sequence reads as a decimal number: an optional sign, then
/// digits with at most one point.
pub open spec fn float_shape(s: Seq<char>) -> bool {
    if s.len() > 0 && (s[0] == '-' || s[0] == '+') {
        decimal_body(s, 1, false, false)
    } else {
        decimal_body(s, 0, false, false)
    }
}

/// Whether a payload satisfies a declared type: a `Null` cell is empty,
/// `Integer` and `Float` cells must read as numbers, `Text` and `Blob`
/// cells are unchecked.
pub open spec fn data_ok(t: DataType, v: Seq<char>) -> bool {
    match t {
        DataType::Null => v.len() == 0,
        DataType::Text => true,
        DataType::Integer => integer_shape(v),
        DataType::Float => float_shape(v),
        DataType::Blob => true,
    }
}

/// The mathematical shape of a [`Data`] cell.
#[verifier::ext_equal]
pub struct DataV {
    pub dtype: DataType,
    pub value: Seq<char>,
}

/// One cell: a declared type tag and the raw text payload, which
/// satisfies the tag from construction on.
#[derive(Debug)]
pub struct Data {
    pub dtype: DataType,
    pub value: String,
}

impl View for Data {
    type V = DataV;

    open spec fn view(&self) -> DataV {
        DataV { dtype: self.dtype, value: self.value@ }
    }
}

impl DeepView for Data {
    type V = DataV;

    open spec fn deep_view(&self) -> DataV {
        self@
    }
}

fn decimal_body_check(s: &str, start: usize) -> (r: bool)
    requires
        start <= s@.len(),
    ensures
        r == decimal_body(s@, start as int, false, false),
{
    let len: usize = s.unicode_len();
    let mut i: usize = start;
    let mut seen_dot: bool = false;
    let mut seen_digit: bool = false;
    while i < len
        invariant
            start <= i <= len,
            len == s@.len(),
            decimal_body(s@, start as int, false, false) == decimal_body(
                s@,
                i as int,
                seen_dot,
                seen_digit,
            ),
        decreases len - i,
    {
        let c = s.get_char(i);
        let u = c as u32;
        if 48 <= u && u <= 57 {
            seen_digit = true;
        } else if c == '.' {
            if seen_dot {
                return false;
            }
            seen_dot = true;
        } else {
            return false;
        }
        i = i + 1;
    }
    seen_digit
}

fn integer_shape_check(s: &str) -> (r: bool)
    ensures
        r == integer_shape(s@),
{
    let len: usize = s.unicode_len();
    if len > 0 {
        let c = s.get_char(0);
        if c == '-' || c == '+' {
            let rest = s.substring_char(1, len);
            proof {
                assert(rest@ =~= s@.drop_first());
            }
            return match crate::strutil::parse_usize(rest) {
                Some(_) => true,
                None => {
                    if rest.unicode_len() == 0 {
                        false
                    } else {
                        is_digits_check(rest)
                    }
                },
            };
        }
    }
    if len == 0 {
        false
    } else {
        is_digits_check(s)
    }
}

fn is_digits_check(s: &str) -> (r: bool)
    ensures
        r == is_number(s@),
{
    let len: usize = s.unicode_len();
    if len == 0 {
        return false;
    }
    let mut i: usize = 0;
    while i < len
        invariant
            i <= len,
            len == s@.len(),
            forall|k: int| 0 <= k < i ==> crate::strutil::is_digit(s@[k]),
        decreases len - i,
    {
        let u = s.get_char(i) as u32;
        if u < 48 || u > 57 {
            return false;
        }
        i = i + 1;
    }
    true
}

fn float_shape_check(s: &str) -> (r: bool)
    ensures
        r == float_shape(s@),
{
    let len: usize = s.unicode_len();
    if len > 0 {
        let c = s.get_char(0);
        if c == '-' || c == '+' {
            return decimal_body_check(s, 1);
        }
    }
    decimal_body_check(s, 0)
}

impl Data {
    /// A cell with a checked payload: a payload that violates the
    /// declared type is a data-type error.
    pub fn new(dtype: DataType, value: String) -> (r: CIndexResult<Data>)
        ensures
            r is Ok <==> data_ok(dtype, value@),
            r matches Ok(d) ==> d@ == (DataV { dtype, value: value@ }),
            r matches Err(e) ==> e.kind() == ErrKind::DataType,
    {
        let ok = match dtype {
            DataType::Null => value.as_str().unicode_len() == 0,
            DataType::Text => true,
            DataType::Integer => integer_shape_check(value.as_str()),
            DataType::Float => float_shape_check(value.as_str()),
            DataType::Blob => true,
        };
        if ok {
            Ok(Data { dtype, value })
        } else {
            Err(
                CIndexError::InvalidDataType(
                    String::from_str("Cell text violates its declared column type"),
                ),
            )
        }
    }
}

/// The mathematical shape of a [`Table`].
#[verifier::ext_equal]
pub struct TableV {
    pub headers: Seq<Seq<char>>,
    pub types: Seq<DataType>,
    pub rows: Seq<Seq<DataV>>,
}

impl TableV {
    /// Well-formedness: unique headers, one declared type per column,
    /// rectangular rows, and every cell satisfying its column's type.
    pub open spec fn wf(self) -> bool {
        &&& self.types.len() == self.headers.len()
        &&& forall|i: int, j: int|
            0 <= i < j < self.headers.len() ==> self.headers[i] != self.headers[j]
        &&& forall|r: int| 0 <= r < self.rows.len() ==> (#[trigger] self.rows[r]).len()
            == self.headers.len()
        &&& forall|r: int, c: int|
            0 <= r < self.rows.len() && 0 <= c < self.headers.len() ==> (#[trigger] self.rows[r][c]).dtype
                == self.types[c] && data_ok(self.types[c], self.rows[r][c].value)
    }
}

/// The position of a column name among the headers, or `-1` when it is
/// absent; the first match counts.
pub open spec fn find_col(headers: Seq<Seq<char>>, name: Seq<char>) -> int
    decreases headers.len(),
{
    if headers.len() == 0 {
        -1
    } else if headers[0] == name {
        0
    } else {
        let r = find_col(headers.drop_first(), name);
        if r == -1 {
            -1
        } else {
            r + 1
        }
    }
}

/// Whether a column name is among the headers.
pub open spec fn has_col(headers: Seq<Seq<char>>, name: Seq<char>) -> bool {
    find_col(headers, name) >= 0
}

pub proof fn lemma_find_col_found(headers: Seq<Seq<char>>, name: Seq<char>, i: int)
    requires
        0 <= i < headers.len(),
        headers[i] == name,
        forall|k: int| 0 <= k < i ==> headers[k] != name,
    ensures
        find_col(headers, name) == i,
    decreases i,
{
    if i > 0 {
        assert forall|k: int| 0 <= k < i - 1 implies headers.drop_first()[k] != name by {
            assert(headers[k + 1] != name);
        }
        assert(headers.drop_first()[i - 1] == headers[i]);
        lemma_find_col_found(headers.drop_first(), name, i - 1);
    }
}

pub proof fn lemma_find_col_missing(headers: Seq<Seq<char>>, name: Seq<char>)
    requires
        forall|k: int| 0 <= k < headers.len() ==> headers[k] != name,
    ensures
        find_col(headers, name) == -1,
    decreases headers.len(),
{
    if headers.len() > 0 {
        assert forall|k: int| 0 <= k < headers.len() - 1 implies headers.drop_first()[k]
            != name by {
            assert(headers[k + 1] != name);
        }
        lemma_find_col_missing(headers.drop_first(), name);
    }
}

pub proof fn lemma_find_col_bounds(headers: Seq<Seq<char>>, name: Seq<char>)
    ensures
        -1 <= find_col(headers, name) < headers.len(),
        find_col(headers, name) >= 0 ==> headers[find_col(headers, name)] == name,
    decreases headers.len(),
{
    if headers.len() > 0 && headers[0] != name {
        lemma_find_col_bounds(headers.drop_first(), name);
    }
}

/// The text of the cell a predicate's column names, in a given row.
pub open spec fn cell_at(t: TableV, r: int, col: Seq<char>) -> Seq<char> {
    t.rows[r][find_col(t.headers, col)].value
}

/// Whether a predicate can be evaluated at all: it has an argument,
/// `BETWEEN` has two, and `LIKE` carries a pattern that compiles.
pub open spec fn pred_runnable(p: PredV) -> bool {
    &&& p.arguments.len() > 0
    &&& p.operation == Operator::Between ==> p.arguments.len() >= 2
    &&& p.operation == Operator::Like ==> (p.matcher matches Some(m) && regex_ok(m))
}

/// What one predicate says of one cell text: lexicographic comparison
/// against the first argument for the relational operators, membership
/// of the argument list for `IN`, an inclusive lexicographic range for
/// `BETWEEN`, and a pattern match for `LIKE`.
pub open spec fn pred_eval(p: PredV, cell: Seq<char>) -> bool {
    match p.operation {
        Operator::Like => regex_match(p.matcher.unwrap(), cell),
        Operator::Bigger => lex_lt(p.arguments[0], cell),
        Operator::BiggerOrEqual => lex_le(p.arguments[0], cell),
        Operator::Smaller => lex_lt(cell, p.arguments[0]),
        Operator::SmallerOrEqual => lex_le(cell, p.arguments[0]),
        Operator::Equal => cell == p.arguments[0],
        Operator::NotEqual => cell != p.arguments[0],
        Operator::In => p.arguments.contains(cell),
        Operator::Between => lex_le(p.arguments[0], cell) && lex_le(cell, p.arguments[1]),
    }
}

/// Whether a row passes every predicate: always a conjunction, whatever
/// separator tags the predicates carry.
pub open spec fn row_matches_all(t: TableV, preds: Seq<PredV>, r: int) -> bool {
    forall|k: int| 0 <= k < preds.len() ==> pred_eval(
        #[trigger] preds[k],
        cell_at(t, r, preds[k].column),
    )
}

/// The indices below `n` of the rows that pass every predicate, in row
/// order.
pub open spec fn filtered_upto(t: TableV, preds: Seq<PredV>, n: int) -> Seq<usize>
    decreases n,
{
    if n <= 0 {
        Seq::empty()
    } else {
        let pre = filtered_upto(t, preds, n - 1);
        if row_matches_all(t, preds, n - 1) {
            pre.push((n - 1) as usize)
        } else {
            pre
        }
    }
}

/// Whether row `a`'s cell in the order column comes no later than row
/// `b`'s, in the requested direction.
pub open spec fn key_le(t: TableV, col: int, desc: bool, a: usize, b: usize) -> bool {
    if desc {
        lex_le(t.rows[b as int][col].value, t.rows[a as int][col].value)
    } else {
        lex_le(t.rows[a as int][col].value, t.rows[b as int][col].value)
    }
}

/// Stable insertion of one row index into an ordered run: it lands
/// after every index whose key comes no later than its own.
pub open spec fn insert_sorted(
    t: TableV,
    col: int,
    desc: bool,
    r: Seq<usize>,
    x: usize,
) -> Seq<usize>
    decreases r.len(),
{
    if r.len() == 0 {
        seq![x]
    } else if key_le(t, col, desc, r.last(), x) {
        r.push(x)
    } else {
        insert_sorted(t, col, desc, r.drop_last(), x).push(r.last())
    }
}

/// Stable insertion sort of row indices by the order column: indices
/// are inserted in their original order, each after its equals.
pub open spec fn sort_idx(t: TableV, col: int, desc: bool, s: Seq<usize>) -> Seq<usize>
    decreases s.len(),
{
    if s.len() == 0 {
        Seq::empty()
    } else {
        insert_sorted(t, col, desc, sort_idx(t, col, desc, s.drop_last()), s.last())
    }
}

/// The offset/limit slice of the engine's output: nothing is cut when
/// both bounds are zero; otherwise the offset is clamped to the length,
/// and a zero limit means unbounded.
pub open spec fn paginate(range: (usize, usize), s: Seq<usize>) -> Seq<usize> {
    if range.0 == 0 && range.1 == 0 {
        s
    } else {
        let len = s.len() as int;
        let off = if range.0 as int <= len {
            range.0 as int
        } else {
            len
        };
        let end = if range.1 == 0 {
            len
        } else if off + range.1 as int <= len {
            off + range.1 as int
        } else {
            len
        };
        s.subrange(off, end)
    }
}

/// What the engine returns for a query against a table: the indices of
/// the rows that pass every predicate, ordered by the order column and
/// sliced by the range. A predicate column absent from the headers is a
/// column error before any row is read; a predicate that cannot be
/// evaluated, or an order column absent from the headers, is a
/// statement error.
pub open spec fn query_spec(t: TableV, q: QueryV) -> Result<Seq<usize>, ErrKind> {
    query_spec_with(
        t,
        q,
        match q.predicates {
            Some(p) => p,
            None => Seq::empty(),
        },
    )
}

/// A loaded table: unique headers, a declared type per column, and rows
/// of checked cells. Immutable once constructed.
#[derive(Debug)]
pub struct Table {
    pub headers: Vec<String>,
    pub types: Vec<DataType>,
    pub rows: Vec<Vec<Data>>,
}

impl View for Table {
    type V = TableV;

    open spec fn view(&self) -> TableV {
        TableV {
            headers: self.headers.deep_view(),
            types: self.types@,
            rows: self.rows.deep_view(),
        }
    }
}

/// The declared types padded with `Text` to the column count.
pub open spec fn pad_types(types: Seq<DataType>, n: int) -> Seq<DataType> {
    Seq::new(n as nat, |i: int| if i < types.len() { types[i] } else { DataType::Text })
}

/// The first `n` cells of one built row: each value tagged with its
/// column's declared type.
pub open spec fn build_row(padded: Seq<DataType>, vals: Seq<Seq<char>>, n: int) -> Seq<DataV> {
    Seq::new(n as nat, |b: int| DataV { dtype: padded[b], value: vals[b] })
}

/// All built rows, each `ncols` cells wide.
pub open spec fn build_rows(padded: Seq<DataType>, vals: Seq<Seq<Seq<char>>>, ncols: int) -> Seq<
    Seq<DataV>,
> {
    Seq::new(vals.len(), |a: int| build_row(padded, vals[a], ncols))
}

/// Whether one source row fails, and how: a width other than the column
/// count is a table-input error; otherwise any cell violating its
/// column's type is a data-type error.
pub open spec fn row_err(types: Seq<DataType>, row: Seq<Seq<char>>) -> Option<ErrKind> {
    if row.len() != types.len() {
        Some(ErrKind::TableInput)
    } else if exists|c: int| 0 <= c < row.len() && !data_ok(types[c], #[trigger] row[c]) {
        Some(ErrKind::DataType)
    } else {
        None
    }
}

/// The first failure among the source rows, in row order.
pub open spec fn rows_err(types: Seq<DataType>, rows: Seq<Seq<Seq<char>>>) -> Option<ErrKind>
    decreases rows.len(),
{
    if rows.len() == 0 {
        None
    } else {
        match rows_err(types, rows.drop_last()) {
            Some(e) => Some(e),
            None => row_err(types, rows.last()),
        }
    }
}

/// Whether any header name repeats.
pub open spec fn has_dup(headers: Seq<Seq<char>>) -> bool {
    exists|i: int, j: int| 0 <= i < j < headers.len() && headers[i] == headers[j]
}

impl Table {
    /// Loads a table from headers, declared column types and raw rows.
    /// Types default to `Text` and are padded for any overflow. A
    /// duplicate header or a row of the wrong width is a table-input
    /// error; a cell violating its column's type is a data-type error;
    /// either aborts the whole load.
    pub fn new(headers: Vec<String>, types: Vec<DataType>, rows: Vec<Vec<String>>) -> (r:
        CIndexResult<Table>)
        ensures
            r is Ok <==> !has_dup(headers.deep_view()) && rows_err(
                pad_types(types@, headers@.len() as int),
                rows.deep_view(),
            ) is None,
            r matches Ok(t) ==> t@ == (TableV {
                headers: headers.deep_view(),
                types: pad_types(types@, headers@.len() as int),
                rows: build_rows(
                    pad_types(types@, headers@.len() as int),
                    rows.deep_view(),
                    headers@.len() as int,
                ),
            }),
            r matches Ok(t) ==> t@.wf(),
            r matches Err(e) ==> e.kind() == (if has_dup(headers.deep_view()) {
                ErrKind::TableInput
            } else {
                rows_err(pad_types(types@, headers@.len() as int), rows.deep_view()).unwrap()
            }),
    {
        let ncols = headers.len();
        // duplicate header check
        let mut i: usize = 0;
        while i < ncols
            invariant
                i <= ncols,
                ncols == headers@.len(),
                forall|a: int, b: int| 0 <= a < b < i ==> headers.deep_view()[a]
                    != headers.deep_view()[b],
            decreases ncols - i,
        {
            let mut j: usize = 0;
            while j < i
                invariant
                    j <= i < ncols,
                    ncols == headers@.len(),
                    forall|b: int| 0 <= b < j ==> headers.deep_view()[b] != headers.deep_view()[
                        i as int
                    ],
                decreases i - j,
            {
                if str_eq(headers[j].as_str(), headers[i].as_str()) {
                    proof {
                        assert(headers.deep_view()[j as int] == headers@[j as int]@);
                        assert(headers.deep_view()[i as int] == headers@[i as int]@);
                        assert(has_dup(headers.deep_view()));
                    }
                    return Err(
                        CIndexError::InvalidTableInput(String::from_str("Duplicate column name")),
                    );
                }
                j = j + 1;
            }
            i = i + 1;
        }
        proof {
            assert(!has_dup(headers.deep_view()));
        }

        // pad the declared types with Text
        let ghost padded = pad_types(types@, headers@.len() as int);
        let mut coltypes: Vec<DataType> = Vec::new();
        let mut c: usize = 0;
        while c < ncols
            invariant
                c <= ncols,
                ncols == headers@.len(),
                padded == pad_types(types@, headers@.len() as int),
                coltypes@ == padded.subrange(0, c as int),
            decreases ncols - c,
        {
            if c < types.len() {
                coltypes.push(types[c]);
            } else {
                coltypes.push(DataType::Text);
            }
            proof {
                assert(coltypes@ =~= padded.subrange(0, c as int + 1));
            }
            c = c + 1;
        }
        proof {
            assert(coltypes@ =~= padded);
        }

        // build the rows, checking widths and cells
        let ghost target_rows = build_rows(padded, rows.deep_view(), ncols as int);
        let nrows = rows.len();
        let mut built: Vec<Vec<Data>> = Vec::new();
        let mut ri: usize = 0;
        while ri < nrows
            invariant
                ri <= nrows,
                nrows == rows@.len(),
                ncols == headers@.len(),
                !has_dup(headers.deep_view()),
                coltypes@ == padded,
                padded == pad_types(types@, headers@.len() as int),
                target_rows == build_rows(padded, rows.deep_view(), ncols as int),
                rows_err(padded, rows.deep_view().subrange(0, ri as int)) is None,
                built.deep_view() == target_rows.subrange(0, ri as int),
            decreases nrows - ri,
        {
            proof {
                assert(rows.deep_view().subrange(0, ri as int + 1).drop_last()
                    =~= rows.deep_view().subrange(0, ri as int));
                assert(rows.deep_view().subrange(0, ri as int + 1).last() == rows.deep_view()[
                    ri as int
                ]);
            }
            let row = &rows[ri];
            if row.len() != ncols {
                proof {
                    assert(row_err(padded, rows.deep_view()[ri as int]) == Some(
                        ErrKind::TableInput,
                    ));
                    lemma_rows_err_first(padded, rows.deep_view(), ri as int, ErrKind::TableInput);
                }
                return Err(
                    CIndexError::InvalidTableInput(
                        String::from_str("Row width differs from column count"),
                    ),
                );
            }
            let mut cells: Vec<Data> = Vec::new();
            let mut ci: usize = 0;
            while ci < ncols
                invariant
                    ci <= ncols,
                    ncols == headers@.len(),
                    ri < nrows,
                    nrows == rows@.len(),
                    !has_dup(headers.deep_view()),
                    coltypes@ == padded,
                    padded == pad_types(types@, headers@.len() as int),
                    row == &rows[ri as int],
                    row@.len() == ncols,
                    rows_err(padded, rows.deep_view().subrange(0, ri as int)) is None,
                    forall|b: int| 0 <= b < ci ==> data_ok(padded[b], rows.deep_view()[ri as int][b]),
                    cells.deep_view() == build_row(padded, rows.deep_view()[ri as int], ci as int),
                decreases ncols - ci,
            {
                proof {
                    assert(rows.deep_view()[ri as int][ci as int] == row@[ci as int]@);
                }
                let cell = row[ci].clone();
                match Data::new(coltypes[ci], cell) {
                    Ok(d) => {
                        let ghost cells_before = cells.deep_view();
                        let ghost dv = d@;
                        cells.push(d);
                        proof {
                            let vals = rows.deep_view()[ri as int];
                            assert(dv == (DataV { dtype: padded[ci as int], value: vals[ci as int] }));
                            assert forall|k: int| 0 <= k < ci + 1 implies cells.deep_view()[k]
                                == build_row(padded, vals, ci as int + 1)[k] by {
                                if k < ci {
                                    assert(cells.deep_view()[k] == cells@[k].deep_view());
                                    assert(cells@[k].deep_view() == cells_before[k]);
                                    assert(cells_before[k] == build_row(padded, vals, ci as int)[k]);
                                } else {
                                    assert(cells.deep_view()[k] == dv);
                                }
                            }
                            assert(cells.deep_view() =~= build_row(padded, vals, ci as int + 1));
                        }
                    },
                    Err(e) => {
                        proof {
                            assert(!data_ok(padded[ci as int], rows.deep_view()[ri as int][
                                ci as int
                            ]));
                            assert(row_err(padded, rows.deep_view()[ri as int]) == Some(
                                ErrKind::DataType,
                            ));
                            lemma_rows_err_first(
                                padded,
                                rows.deep_view(),
                                ri as int,
                                ErrKind::DataType,
                            );
                        }
                        return Err(e);
                    },
                }
                ci = ci + 1;
            }
            proof {
                assert(rows.deep_view()[ri as int].len() == ncols);
                assert(row_err(padded, rows.deep_view()[ri as int]) is None);
            }
            built.push(cells);
            proof {
                assert(built.deep_view() =~= target_rows.subrange(0, ri as int + 1));
            }
            ri = ri + 1;
        }
        proof {
            assert(rows.deep_view().subrange(0, nrows as int) =~= rows.deep_view());
            assert(built.deep_view() =~= target_rows);
        }
        proof {
            lemma_rows_err_none_all(padded, rows.deep_view());
        }
        let t = Table { headers, types: coltypes, rows: built };
        proof {
            assert(t@ =~~= (TableV {
                headers: t.headers.deep_view(),
                types: padded,
                rows: target_rows,
            }));
            assert(t@.wf()) by {
                assert forall|r: int| 0 <= r < t@.rows.len() implies (#[trigger] t@.rows[r]).len()
                    == t@.headers.len() by {
                    assert(t@.rows[r] == build_row(padded, rows.deep_view()[r], ncols as int));
                }
                assert forall|r: int, c: int|
                    0 <= r < t@.rows.len() && 0 <= c < t@.headers.len() implies (
                #[trigger] t@.rows[r][c]).dtype == t@.types[c] && data_ok(
                    t@.types[c],
                    t@.rows[r][c].value,
                ) by {
                    assert(t@.rows[r] == build_row(padded, rows.deep_view()[r], ncols as int));
                    assert(t@.rows[r][c] == (DataV {
                        dtype: padded[c],
                        value: rows.deep_view()[r][c],
                    }));
                }
            }
        }
        Ok(t)
    }
}

impl Table {
    /// The position of a column among the headers, if it is there.
    pub fn find_header(&self, name: &str) -> (r: Option<usize>)
        ensures
            r matches Some(i) ==> find_col(self@.headers, name@) == i as int,
            r is None ==> find_col(self@.headers, name@) == -1,
    {
        let n = self.headers.len();
        let mut i: usize = 0;
        while i < n
            invariant
                i <= n,
                n == self.headers@.len(),
                forall|k: int| 0 <= k < i ==> self@.headers[k] != name@,
            decreases n - i,
        {
            if str_eq(self.headers[i].as_str(), name) {
                proof {
                    assert(self@.headers[i as int] == name@);
                    lemma_find_col_found(self@.headers, name@, i as int);
                }
                return Some(i);
            }
            i = i + 1;
        }
        proof {
            lemma_find_col_missing(self@.headers, name@);
        }
        None
    }

    /// Whether row `a`'s cell in the order column comes no later than
    /// row `b`'s, in the requested direction.
    fn cell_le(&self, col: usize, desc: bool, a: usize, b: usize) -> (r: bool)
        requires
            self@.wf(),
            col < self@.headers.len(),
            a < self@.rows.len(),
            b < self@.rows.len(),
        ensures
            r == key_le(self@, col as int, desc, a, b),
    {
        proof {
            assert(self@.rows[a as int] == self.rows@[a as int].deep_view());
            assert(self@.rows[b as int] == self.rows@[b as int].deep_view());
            assert(self@.rows[a as int][col as int] == self.rows@[a as int]@[col as int]@);
            assert(self@.rows[b as int][col as int] == self.rows@[b as int]@[col as int]@);
        }
        let ka = self.rows[a][col].value.as_str();
        let kb = self.rows[b][col].value.as_str();
        let cmp = str_compare(ka, kb);
        if desc {
            !matches!(cmp, CmpRes::Less)
        } else {
            !matches!(cmp, CmpRes::Greater)
        }
    }

    /// Whether one row passes every predicate.
    fn filter(&self, row: usize, predicates: &Vec<Predicate>) -> (r: bool)
        requires
            self@.wf(),
            row < self@.rows.len(),
            forall|k: int| 0 <= k < predicates@.len() ==> has_col(
                self@.headers,
                (#[trigger] preds_view(predicates@)[k]).column,
            ) && pred_runnable(preds_view(predicates@)[k]),
        ensures
            r == row_matches_all(self@, preds_view(predicates@), row as int),
    {
        let ghost pv = preds_view(predicates@);
        let n = predicates.len();
        let mut k: usize = 0;
        while k < n
            invariant
                k <= n,
                n == predicates@.len(),
                pv == preds_view(predicates@),
                self@.wf(),
                row < self@.rows.len(),
                forall|m: int| 0 <= m < n ==> has_col(self@.headers, (#[trigger] pv[m]).column)
                    && pred_runnable(pv[m]),
                forall|m: int| 0 <= m < k ==> pred_eval(
                    #[trigger] pv[m],
                    cell_at(self@, row as int, pv[m].column),
                ),
            decreases n - k,
        {
            let pre = &predicates[k];
            proof {
                assert(pv[k as int] == pre@);
            }
            let ci = match self.find_header(pre.column.as_str()) {
                Some(ci) => ci,
                None => {
                    proof {
                        assert(false);
                    }
                    return false;
                },
            };
            proof {
                lemma_find_col_bounds(self@.headers, pre@.column);
                assert(self@.rows[row as int] == self.rows@[row as int].deep_view());
                assert(self@.rows[row as int][ci as int] == self.rows@[row as int]@[ci as int]@);
            }
            let cell = self.rows[row][ci].value.as_str();
            if !operate_value(cell, &pre.arguments, pre) {
                proof {
                    assert(!pred_eval(pv[k as int], cell_at(self@, row as int, pv[k as int].column)));
                }
                return false;
            }
            k = k + 1;
        }
        true
    }

    /// Runs a query against this table: validates the predicate columns,
    /// then that every predicate can be evaluated, filters the rows,
    /// orders them by the order column, and slices by the range. The
    /// result is the ordered sequence of surviving row indices.
    pub fn query(&self, query: &Query) -> (r: CIndexResult<Vec<usize>>)
        requires
            self@.wf(),
        ensures
            query_spec(self@, query@) matches Ok(s) ==> (r matches Ok(v) && v@ == s),
            query_spec(self@, query@) matches Err(k) ==> (r matches Err(e) && e.kind() == k),
    {
        let empty_preds: Vec<Predicate> = Vec::new();
        let predicates: &Vec<Predicate> = match &query.predicates {
            Some(p) => p,
            None => &empty_preds,
        };
        let ghost pv = preds_view(predicates@);
        proof {
            if query@.predicates is None {
                assert(pv =~= Seq::<PredV>::empty());
            }
            assert(query_spec(self@, query@) == query_spec_with(self@, query@, pv));
        }
        let n = predicates.len();

        // every predicate's column must exist
        let mut k: usize = 0;
        while k < n
            invariant
                k <= n,
                n == predicates@.len(),
                pv == preds_view(predicates@),
                self@.wf(),
                query_spec(self@, query@) == query_spec_with(self@, query@, pv),
                forall|m: int| 0 <= m < k ==> has_col(self@.headers, (#[trigger] pv[m]).column),
            decreases n - k,
        {
            let pre = &predicates[k];
            proof {
                assert(pv[k as int] == pre@);
            }
            if self.find_header(pre.column.as_str()).is_none() {
                proof {
                    assert(!has_col(self@.headers, pv[k as int].column));
                }
                return Err(
                    CIndexError::InvalidColumn(
                        String::from_str("Failed to get column from header"),
                    ),
                );
            }
            k = k + 1;
        }

        // every predicate must be evaluable
        let mut k2: usize = 0;
        while k2 < n
            invariant
                k2 <= n,
                n == predicates@.len(),
                pv == preds_view(predicates@),
                self@.wf(),
                query_spec(self@, query@) == query_spec_with(self@, query@, pv),
                forall|m: int| 0 <= m < n ==> has_col(self@.headers, (#[trigger] pv[m]).column),
                forall|m: int| 0 <= m < k2 ==> pred_runnable(#[trigger] pv[m]),
            decreases n - k2,
        {
            let pre = &predicates[k2];
            proof {
                assert(pv[k2 as int] == pre@);
            }
            let mut runnable = pre.arguments.len() > 0;
            if runnable && pre.operation == Operator::Between && pre.arguments.len() < 2 {
                runnable = false;
            }
            if runnable && pre.operation == Operator::Like {
                match &pre.matcher {
                    Some(m) => {
                        if !crate::pattern::regex_compiles(m.as_str()) {
                            runnable = false;
                        }
                    },
                    None => {
                        runnable = false;
                    },
                }
            }
            if !runnable {
                proof {
                    assert(!pred_runnable(pv[k2 as int]));
                }
                return Err(
                    CIndexError::InvalidQueryStatement(
                        String::from_str("Predicate cannot be evaluated"),
                    ),
                );
            }
            k2 = k2 + 1;
        }

        // filter
        let nrows = self.rows.len();
        let mut queried: Vec<usize> = Vec::new();
        proof {
            assert(queried@ =~= filtered_upto(self@, pv, 0));
        }
        let mut ri: usize = 0;
        while ri < nrows
            invariant
                ri <= nrows,
                nrows == self@.rows.len(),
                pv == preds_view(predicates@),
                n == predicates@.len(),
                self@.wf(),
                forall|m: int| 0 <= m < n ==> has_col(self@.headers, (#[trigger] pv[m]).column)
                    && pred_runnable(pv[m]),
                queried@ == filtered_upto(self@, pv, ri as int),
                forall|m: int| 0 <= m < queried@.len() ==> (#[trigger] queried@[m]) < nrows,
            decreases nrows - ri,
        {
            if self.filter(ri, predicates) {
                queried.push(ri);
            }
            ri = ri + 1;
        }

        // order
        let mut base = queried;
        match &query.order_type {
            crate::models::OrderType::NoOrder => {},
            crate::models::OrderType::Asec(col) => {
                match self.find_header(col.as_str()) {
                    Some(ci) => {
                        proof {
                            lemma_find_col_bounds(self@.headers, col@);
                        }
                        base = self.sort_rows(base, ci, false);
                    },
                    None => {
                        return Err(
                            CIndexError::InvalidQueryStatement(
                                String::from_str("Order column doesn't exist"),
                            ),
                        );
                    },
                }
            },
            crate::models::OrderType::Desc(col) => {
                match self.find_header(col.as_str()) {
                    Some(ci) => {
                        proof {
                            lemma_find_col_bounds(self@.headers, col@);
                        }
                        base = self.sort_rows(base, ci, true);
                    },
                    None => {
                        return Err(
                            CIndexError::InvalidQueryStatement(
                                String::from_str("Order column doesn't exist"),
                            ),
                        );
                    },
                }
            },
        }

        // paginate
        if query.range.0 != 0 || query.range.1 != 0 {
            let blen = base.len();
            let offset = if query.range.0 < blen {
                query.range.0
            } else {
                blen
            };
            let end = if query.range.1 == 0 {
                blen
            } else if query.range.1 < blen - offset {
                offset + query.range.1
            } else {
                blen
            };
            let mut out: Vec<usize> = Vec::new();
            let mut k3: usize = offset;
            proof {
                assert(out@ =~= base@.subrange(offset as int, offset as int));
            }
            while k3 < end
                invariant
                    offset <= k3 <= end,
                    end <= blen,
                    blen == base@.len(),
                    out@ == base@.subrange(offset as int, k3 as int),
                decreases end - k3,
            {
                out.push(base[k3]);
                proof {
                    assert(out@ =~= base@.subrange(offset as int, k3 as int + 1));
                }
                k3 = k3 + 1;
            }
            Ok(out)
        } else {
            Ok(base)
        }
    }

    /// Stable insertion sort of the filtered row indices by the order
    /// column, as [`sort_idx`] says.
    fn sort_rows(&self, input: Vec<usize>, col: usize, desc: bool) -> (r: Vec<usize>)
        requires
            self@.wf(),
            col < self@.headers.len(),
            forall|m: int| 0 <= m < input@.len() ==> (#[trigger] input@[m]) < self@.rows.len(),
        ensures
            r@ == sort_idx(self@, col as int, desc, input@),
            forall|m: int| 0 <= m < r@.len() ==> (#[trigger] r@[m]) < self@.rows.len(),
    {
        let n = input.len();
        let mut sorted_v: Vec<usize> = Vec::new();
        proof {
            assert(input@.subrange(0, 0) =~= Seq::<usize>::empty());
        }
        let mut i: usize = 0;
        while i < n
            invariant
                i <= n,
                n == input@.len(),
                self@.wf(),
                col < self@.headers.len(),
                forall|m: int| 0 <= m < input@.len() ==> (#[trigger] input@[m]) < self@.rows.len(),
                sorted_v@ == sort_idx(self@, col as int, desc, input@.subrange(0, i as int)),
                forall|m: int| 0 <= m < sorted_v@.len() ==> (#[trigger] sorted_v@[m])
                    < self@.rows.len(),
            decreases n - i,
        {
            let x = input[i];
            let mut j: usize = sorted_v.len();
            while j > 0 && !self.cell_le(col, desc, sorted_v[j - 1], x)
                invariant
                    j <= sorted_v@.len(),
                    self@.wf(),
                    col < self@.headers.len(),
                    x < self@.rows.len(),
                    forall|m: int| 0 <= m < sorted_v@.len() ==> (#[trigger] sorted_v@[m])
                        < self@.rows.len(),
                    forall|m: int| j <= m < sorted_v@.len() ==> !key_le(
                        self@,
                        col as int,
                        desc,
                        #[trigger] sorted_v@[m],
                        x,
                    ),
                decreases j,
            {
                j = j - 1;
            }
            let ghost before = sorted_v@;
            sorted_v.insert(j, x);
            proof {
                lemma_insert_sorted_at(self@, col as int, desc, before, x, j as int);
                assert(sorted_v@ =~= before.subrange(0, j as int) + seq![x] + before.subrange(
                    j as int,
                    before.len() as int,
                ));
                assert(input@.subrange(0, i as int + 1).drop_last() =~= input@.subrange(
                    0,
                    i as int,
                ));
                assert(input@.subrange(0, i as int + 1).last() == input@[i as int]);
                assert(sorted_v@ == sort_idx(self@, col as int, desc, input@.subrange(
                    0,
                    i as int + 1,
                )));
            }
            i = i + 1;
        }
        proof {
            assert(input@.subrange(0, n as int) =~= input@);
        }
        sorted_v
    }
}

/// The engine's outcome with the predicate list already resolved: the
/// body of [`query_spec`] after its `match`.
pub open spec fn query_spec_with(t: TableV, q: QueryV, preds: Seq<PredV>) -> Result<
    Seq<usize>,
    ErrKind,
> {
    if exists|k: int| 0 <= k < preds.len() && !has_col(t.headers, (#[trigger] preds[k]).column) {
        Err(ErrKind::Column)
    } else if exists|k: int| 0 <= k < preds.len() && !pred_runnable(#[trigger] preds[k]) {
        Err(ErrKind::QueryStatement)
    } else {
        let picked = filtered_upto(t, preds, t.rows.len() as int);
        match q.order_type {
            OrdV::NoOrd => Ok(paginate(q.range, picked)),
            OrdV::Asc(c) => if has_col(t.headers, c) {
                Ok(paginate(q.range, sort_idx(t, find_col(t.headers, c), false, picked)))
            } else {
                Err(ErrKind::QueryStatement)
            },
            OrdV::Dsc(c) => if has_col(t.headers, c) {
                Ok(paginate(q.range, sort_idx(t, find_col(t.headers, c), true, picked)))
            } else {
                Err(ErrKind::QueryStatement)
            },
        }
    }
}

/// What one predicate decides for one cell, executed.
fn operate_value(comparator: &str, values: &Vec<String>, pre: &Predicate) -> (r: bool)
    requires
        values.deep_view() == pre@.arguments,
        pred_runnable(pre@),
    ensures
        r == pred_eval(pre@, comparator@),
{
    match pre.operation {
        Operator::Like => {
            match &pre.matcher {
                Some(m) => crate::pattern::regex_find(m.as_str(), comparator),
                None => {
                    proof {
                        assert(false);
                    }
                    false
                },
            }
        },
        Operator::Bigger => matches!(
            str_compare(comparator, values[0].as_str()),
            CmpRes::Greater
        ),
        Operator::BiggerOrEqual => !matches!(str_compare(comparator, values[0].as_str()), CmpRes::Less),
        Operator::Smaller => matches!(str_compare(comparator, values[0].as_str()), CmpRes::Less),
        Operator::SmallerOrEqual => !matches!(
            str_compare(comparator, values[0].as_str()),
            CmpRes::Greater
        ),
        Operator::Equal => str_eq(comparator, values[0].as_str()),
        Operator::NotEqual => !str_eq(comparator, values[0].as_str()),
        Operator::In => {
            let n = values.len();
            let mut k: usize = 0;
            while k < n
                invariant
                    k <= n,
                    n == values@.len(),
                    values.deep_view() == pre@.arguments,
                    pre@.operation == Operator::In,
                    forall|m: int| 0 <= m < k ==> pre@.arguments[m] != comparator@,
                decreases n - k,
            {
                if str_eq(values[k].as_str(), comparator) {
                    proof {
                        assert(pre@.arguments[k as int] == comparator@);
                        assert(pre@.arguments.contains(comparator@));
                    }
                    return true;
                }
                k = k + 1;
            }
            proof {
                assert(!pre@.arguments.contains(comparator@));
            }
            false
        },
        Operator::Between => {
            let lo = !matches!(str_compare(comparator, values[0].as_str()), CmpRes::Less);
            let hi = !matches!(str_compare(comparator, values[1].as_str()), CmpRes::Greater);
            lo && hi
        },
    }
}

/// Stable insertion lands exactly where the scan from the right stops:
/// after every element whose key comes no later, before the rest.
proof fn lemma_insert_sorted_at(
    t: TableV,
    col: int,
    desc: bool,
    r: Seq<usize>,
    x: usize,
    j: int,
)
    requires
        0 <= j <= r.len(),
        j == 0 || key_le(t, col, desc, r[j - 1], x),
        forall|m: int| j <= m < r.len() ==> !key_le(t, col, desc, #[trigger] r[m], x),
    ensures
        insert_sorted(t, col, desc, r, x) == r.subrange(0, j) + seq![x] + r.subrange(
            j,
            r.len() as int,
        ),
    decreases r.len(),
{
    if j == r.len() {
        if r.len() == 0 {
            assert(insert_sorted(t, col, desc, r, x) =~= r.subrange(0, j) + seq![x] + r.subrange(
                j,
                r.len() as int,
            ));
        } else {
            assert(key_le(t, col, desc, r.last(), x));
            assert(insert_sorted(t, col, desc, r, x) == r.push(x));
            assert(r.push(x) =~= r.subrange(0, j) + seq![x] + r.subrange(j, r.len() as int));
        }
    } else {
        assert(!key_le(t, col, desc, r[r.len() - 1], x));
        assert forall|m: int| j <= m < r.drop_last().len() implies !key_le(
            t,
            col,
            desc,
            #[trigger] r.drop_last()[m],
            x,
        ) by {
            assert(r.drop_last()[m] == r[m]);
        }
        if j > 0 {
            assert(r.drop_last()[j - 1] == r[j - 1]);
        }
        lemma_insert_sorted_at(t, col, desc, r.drop_last(), x, j);
        assert(insert_sorted(t, col, desc, r, x) == insert_sorted(
            t,
            col,
            desc,
            r.drop_last(),
            x,
        ).push(r.last()));
        assert((r.drop_last().subrange(0, j) + seq![x] + r.drop_last().subrange(
            j,
            r.drop_last().len() as int,
        )).push(r.last()) =~= r.subrange(0, j) + seq![x] + r.subrange(j, r.len() as int));
    }
}

/// Whether a run of row indices is ordered by the order column: each
/// index's key comes no later than the next one's.
pub open spec fn sorted_by_key(t: TableV, col: int, desc: bool, s: Seq<usize>) -> bool {
    forall|a: int| 0 <= a < s.len() - 1 ==> key_le(t, col, desc, #[trigger] s[a], s[a + 1])
}

/// Any two rows are comparable under the order key, in either
/// direction.
pub proof fn lemma_key_le_total(t: TableV, col: int, desc: bool, a: usize, b: usize)
    ensures
        key_le(t, col, desc, a, b) || key_le(t, col, desc, b, a),
{
    crate::strutil::lemma_lex_total(
        t.rows[a as int][col].value,
        t.rows[b as int][col].value,
    );
}

/// Insertion grows the run by exactly one.
proof fn lemma_insert_sorted_len(t: TableV, col: int, desc: bool, r: Seq<usize>, x: usize)
    ensures
        insert_sorted(t, col, desc, r, x).len() == r.len() + 1,
    decreases r.len(),
{
    if r.len() > 0 && !key_le(t, col, desc, r.last(), x) {
        lemma_insert_sorted_len(t, col, desc, r.drop_last(), x);
    }
}

/// The last index of an insertion is the new one or the old last.
proof fn lemma_insert_sorted_last(t: TableV, col: int, desc: bool, r: Seq<usize>, x: usize)
    ensures
        insert_sorted(t, col, desc, r, x).last() == x || (r.len() > 0 && insert_sorted(
            t,
            col,
            desc,
            r,
            x,
        ).last() == r.last()),
{
    lemma_insert_sorted_len(t, col, desc, r, x);
}

/// Inserting into an ordered run keeps it ordered.
pub proof fn lemma_insert_sorted_sorted(t: TableV, col: int, desc: bool, r: Seq<usize>, x: usize)
    requires
        sorted_by_key(t, col, desc, r),
    ensures
        sorted_by_key(t, col, desc, insert_sorted(t, col, desc, r, x)),
    decreases r.len(),
{
    let cur = insert_sorted(t, col, desc, r, x);
    if r.len() == 0 {
        assert(cur == seq![x]);
    } else if key_le(t, col, desc, r.last(), x) {
        assert(cur == r.push(x));
        assert forall|a: int| 0 <= a < cur.len() - 1 implies key_le(
            t,
            col,
            desc,
            #[trigger] cur[a],
            cur[a + 1],
        ) by {
            if a < r.len() - 1 {
                assert(cur[a] == r[a] && cur[a + 1] == r[a + 1]);
            } else {
                assert(cur[a] == r.last() && cur[a + 1] == x);
            }
        }
    } else {
        let rp = r.drop_last();
        assert forall|a: int| 0 <= a < rp.len() - 1 implies key_le(
            t,
            col,
            desc,
            #[trigger] rp[a],
            rp[a + 1],
        ) by {
            assert(rp[a] == r[a] && rp[a + 1] == r[a + 1]);
        }
        lemma_insert_sorted_sorted(t, col, desc, rp, x);
        let rec = insert_sorted(t, col, desc, rp, x);
        lemma_insert_sorted_len(t, col, desc, rp, x);
        lemma_insert_sorted_last(t, col, desc, rp, x);
        lemma_key_le_total(t, col, desc, x, r.last());
        assert(key_le(t, col, desc, x, r.last()));
        if rp.len() > 0 {
            assert(key_le(t, col, desc, rp.last(), r.last()));
        }
        assert(key_le(t, col, desc, rec.last(), r.last()));
        assert(cur == rec.push(r.last()));
        assert forall|a: int| 0 <= a < cur.len() - 1 implies key_le(
            t,
            col,
            desc,
            #[trigger] cur[a],
            cur[a + 1],
        ) by {
            if a < rec.len() - 1 {
                assert(cur[a] == rec[a] && cur[a + 1] == rec[a + 1]);
            } else {
                assert(cur[a] == rec.last() && cur[a + 1] == r.last());
            }
        }
    }
}

/// The engine's sort leaves the run ordered by the order column.
pub proof fn lemma_sort_sorted(t: TableV, col: int, desc: bool, s: Seq<usize>)
    ensures
        sorted_by_key(t, col, desc, sort_idx(t, col, desc, s)),
    decreases s.len(),
{
    if s.len() > 0 {
        lemma_sort_sorted(t, col, desc, s.drop_last());
        lemma_insert_sorted_sorted(t, col, desc, sort_idx(t, col, desc, s.drop_last()), s.last());
    }
}

/// Insertion adds the new index to the run's multiset and nothing
/// else.
proof fn lemma_insert_sorted_multiset(t: TableV, col: int, desc: bool, r: Seq<usize>, x: usize)
    ensures
        insert_sorted(t, col, desc, r, x).to_multiset() == r.to_multiset().insert(x),
    decreases r.len(),
{
    broadcast use vstd::seq_lib::group_to_multiset_ensures;

    let cur = insert_sorted(t, col, desc, r, x);
    if r.len() == 0 {
        assert(cur == Seq::<usize>::empty().push(x));
        assert(r =~= Seq::<usize>::empty());
        assert(cur.to_multiset() =~= r.to_multiset().insert(x));
    } else if key_le(t, col, desc, r.last(), x) {
        assert(cur == r.push(x));
        assert(cur.to_multiset() =~= r.to_multiset().insert(x));
    } else {
        let rp = r.drop_last();
        lemma_insert_sorted_multiset(t, col, desc, rp, x);
        let rec = insert_sorted(t, col, desc, rp, x);
        assert(cur == rec.push(r.last()));
        assert(r =~= rp.push(r.last()));
        assert(cur.to_multiset() =~= rec.to_multiset().insert(r.last()));
        assert(r.to_multiset() =~= rp.to_multiset().insert(r.last()));
        assert(cur.to_multiset() =~= r.to_multiset().insert(x));
    }
}

/// The engine's sort is a permutation: it keeps exactly the filtered
/// row indices, each as often as it occurred.
pub proof fn lemma_sort_permutes(t: TableV, col: int, desc: bool, s: Seq<usize>)
    ensures
        sort_idx(t, col, desc, s).to_multiset() == s.to_multiset(),
    decreases s.len(),
{
    broadcast use vstd::seq_lib::group_to_multiset_ensures;

    if s.len() > 0 {
        lemma_sort_permutes(t, col, desc, s.drop_last());
        lemma_insert_sorted_multiset(t, col, desc, sort_idx(t, col, desc, s.drop_last()), s.last());
        assert(s =~= s.drop_last().push(s.last()));
        assert(s.to_multiset() =~= s.drop_last().to_multiset().insert(s.last()));
        assert(sort_idx(t, col, desc, s).to_multiset() =~= s.to_multiset());
    } else {
        assert(sort_idx(t, col, desc, s).to_multiset() =~= s.to_multiset());
    }
}

/// The position where insertion puts a new index: after every element
/// of the maximal suffix whose keys come later.
pub open spec fn insert_point(t: TableV, col: int, desc: bool, r: Seq<usize>, x: usize) -> int
    decreases r.len(),
{
    if r.len() == 0 {
        0
    } else if key_le(t, col, desc, r.last(), x) {
        r.len() as int
    } else {
        insert_point(t, col, desc, r.drop_last(), x)
    }
}

/// Insertion splits the run at the insertion point.
proof fn lemma_insert_at_point(t: TableV, col: int, desc: bool, r: Seq<usize>, x: usize)
    ensures
        0 <= insert_point(t, col, desc, r, x) <= r.len(),
        insert_sorted(t, col, desc, r, x) == r.subrange(0, insert_point(t, col, desc, r, x))
            + seq![x] + r.subrange(insert_point(t, col, desc, r, x), r.len() as int),
    decreases r.len(),
{
    let ip = insert_point(t, col, desc, r, x);
    if r.len() == 0 {
        assert(insert_sorted(t, col, desc, r, x) =~= r.subrange(0, ip) + seq![x] + r.subrange(
            ip,
            r.len() as int,
        ));
    } else if key_le(t, col, desc, r.last(), x) {
        assert(insert_sorted(t, col, desc, r, x) =~= r.subrange(0, ip) + seq![x] + r.subrange(
            ip,
            r.len() as int,
        ));
    } else {
        lemma_insert_at_point(t, col, desc, r.drop_last(), x);
        assert(insert_sorted(t, col, desc, r, x) == insert_sorted(
            t,
            col,
            desc,
            r.drop_last(),
            x,
        ).push(r.last()));
        assert(r.drop_last().subrange(0, ip) =~= r.subrange(0, ip));
        assert((r.drop_last().subrange(0, ip) + seq![x] + r.drop_last().subrange(
            ip,
            r.drop_last().len() as int,
        )).push(r.last()) =~= r.subrange(0, ip) + seq![x] + r.subrange(ip, r.len() as int));
    }
}

/// Every element at or past the insertion point has a key that comes
/// strictly later than the new index's.
proof fn lemma_insert_point_suffix(t: TableV, col: int, desc: bool, r: Seq<usize>, x: usize)
    ensures
        forall|m: int| insert_point(t, col, desc, r, x) <= m < r.len() ==> !key_le(
            t,
            col,
            desc,
            #[trigger] r[m],
            x,
        ),
    decreases r.len(),
{
    if r.len() > 0 && !key_le(t, col, desc, r.last(), x) {
        lemma_insert_at_point(t, col, desc, r.drop_last(), x);
        lemma_insert_point_suffix(t, col, desc, r.drop_last(), x);
        let ip = insert_point(t, col, desc, r, x);
        assert(0 <= ip);
        assert forall|m: int| ip <= m < r.len() implies !key_le(t, col, desc, #[trigger] r[m], x) by {
            if m < r.len() - 1 {
                assert(r.drop_last()[m] == r[m]);
                assert(!key_le(t, col, desc, r.drop_last()[m], x));
            } else {
                assert(r[m] == r.last());
            }
        }
    }
}

/// Whether some occurrence of one index comes before some occurrence
/// of another in a run.
pub open spec fn precedes(out: Seq<usize>, x: usize, y: usize) -> bool {
    exists|p: int, q: int| 0 <= p < q < out.len() && out[p] == x && out[q] == y
}

/// Insertion never reorders the indices already in the run.
proof fn lemma_insert_preserves_precedes(
    t: TableV,
    col: int,
    desc: bool,
    r: Seq<usize>,
    z: usize,
    x: usize,
    y: usize,
)
    requires
        precedes(r, x, y),
    ensures
        precedes(insert_sorted(t, col, desc, r, z), x, y),
{
    lemma_insert_at_point(t, col, desc, r, z);
    let ip = insert_point(t, col, desc, r, z);
    let out = insert_sorted(t, col, desc, r, z);
    let (p, q): (int, int) = choose|p: int, q: int|
        0 <= p < q < r.len() && r[p] == x && r[q] == y;
    let pp: int = if p < ip {
        p
    } else {
        p + 1
    };
    let qq: int = if q < ip {
        q
    } else {
        q + 1
    };
    assert(out[pp] == r[p]);
    assert(out[qq] == r[q]);
    assert(0 <= pp < qq < out.len());
}

/// A new index lands after every index whose key comes no later: for
/// equal keys, what was in the run keeps its place before the newcomer.
proof fn lemma_insert_after_no_later(
    t: TableV,
    col: int,
    desc: bool,
    r: Seq<usize>,
    x: usize,
    p: int,
)
    requires
        0 <= p < r.len(),
        key_le(t, col, desc, r[p], x),
    ensures
        precedes(insert_sorted(t, col, desc, r, x), r[p], x),
{
    lemma_insert_at_point(t, col, desc, r, x);
    lemma_insert_point_suffix(t, col, desc, r, x);
    let ip = insert_point(t, col, desc, r, x);
    let out = insert_sorted(t, col, desc, r, x);
    assert(p < ip);
    assert(out[p] == r[p]);
    assert(out[ip] == x);
}

/// The engine's sort is stable: two filtered row indices whose order
/// keys are equal keep their original relative order in the output.
pub proof fn lemma_sort_stable(t: TableV, col: int, desc: bool, s: Seq<usize>, i: int, j: int)
    requires
        0 <= i < j < s.len(),
        t.rows[s[i] as int][col].value == t.rows[s[j] as int][col].value,
    ensures
        precedes(sort_idx(t, col, desc, s), s[i], s[j]),
    decreases s.len(),
{
    broadcast use vstd::seq_lib::group_to_multiset_ensures;

    let sp = s.drop_last();
    let outp = sort_idx(t, col, desc, sp);
    let out = sort_idx(t, col, desc, s);
    if j < s.len() - 1 {
        assert(sp[i] == s[i] && sp[j] == s[j]);
        lemma_sort_stable(t, col, desc, sp, i, j);
        lemma_insert_preserves_precedes(t, col, desc, outp, s.last(), s[i], s[j]);
    } else {
        let x = s.last();
        assert(sp[i] == s[i]);
        assert(sp.contains(s[i]));
        lemma_sort_permutes(t, col, desc, sp);
        assert(outp.to_multiset().count(s[i]) == sp.to_multiset().count(s[i]));
        assert(outp.contains(s[i]));
        let p = choose|p: int| 0 <= p < outp.len() && outp[p] == s[i];
        assert(key_le(t, col, desc, outp[p], x)) by {
            assert(t.rows[outp[p] as int][col].value == t.rows[x as int][col].value);
        }
        lemma_insert_after_no_later(t, col, desc, outp, x, p);
    }
}

/// Every index the filter keeps is a row index.
pub proof fn lemma_filtered_bounds(t: TableV, preds: Seq<PredV>, n: int)
    ensures
        forall|m: int| 0 <= m < filtered_upto(t, preds, n).len() ==> (#[trigger] filtered_upto(
            t,
            preds,
            n,
        )[m]) < n,
    decreases n,
{
    if n > 0 {
        lemma_filtered_bounds(t, preds, n - 1);
        let pre = filtered_upto(t, preds, n - 1);
        let cur = filtered_upto(t, preds, n);
        assert forall|m: int| 0 <= m < cur.len() implies (#[trigger] cur[m]) < n by {
            if row_matches_all(t, preds, n - 1) {
                assert(cur == pre.push((n - 1) as usize));
                if m < pre.len() {
                    assert(cur[m] == pre[m]);
                } else {
                    assert(cur[m] == (n - 1) as usize);
                }
            } else {
                assert(cur[m] == pre[m]);
            }
        }
    }
}

/// Insertion keeps every element below any bound that held before.
pub proof fn lemma_insert_sorted_bounds(
    t: TableV,
    col: int,
    desc: bool,
    r: Seq<usize>,
    x: usize,
    bound: int,
)
    requires
        x < bound,
        forall|m: int| 0 <= m < r.len() ==> (#[trigger] r[m]) < bound,
    ensures
        forall|m: int| 0 <= m < insert_sorted(t, col, desc, r, x).len() ==> (
        #[trigger] insert_sorted(t, col, desc, r, x)[m]) < bound,
    decreases r.len(),
{
    let cur = insert_sorted(t, col, desc, r, x);
    if r.len() == 0 {
        assert(cur == seq![x]);
        assert(forall|m: int| 0 <= m < cur.len() ==> (#[trigger] cur[m]) < bound);
    } else if key_le(t, col, desc, r.last(), x) {
        assert(cur == r.push(x));
        assert forall|m: int| 0 <= m < cur.len() implies (#[trigger] cur[m]) < bound by {
            if m < r.len() {
                assert(cur[m] == r[m]);
            } else {
                assert(cur[m] == x);
            }
        }
    } else {
        assert(forall|m: int| 0 <= m < r.drop_last().len() ==> (#[trigger] r.drop_last()[m])
            < bound);
        lemma_insert_sorted_bounds(t, col, desc, r.drop_last(), x, bound);
        let rec = insert_sorted(t, col, desc, r.drop_last(), x);
        assert(cur == rec.push(r.last()));
        assert forall|m: int| 0 <= m < cur.len() implies (#[trigger] cur[m]) < bound by {
            if m < rec.len() {
                assert(cur[m] == rec[m]);
            } else {
                assert(cur[m] == r.last());
            }
        }
    }
}

/// Sorting keeps every element below any bound that held before.
pub proof fn lemma_sort_bounds(t: TableV, col: int, desc: bool, s: Seq<usize>, bound: int)
    requires
        forall|m: int| 0 <= m < s.len() ==> (#[trigger] s[m]) < bound,
    ensures
        forall|m: int| 0 <= m < sort_idx(t, col, desc, s).len() ==> (#[trigger] sort_idx(
            t,
            col,
            desc,
            s,
        )[m]) < bound,
    decreases s.len(),
{
    if s.len() > 0 {
        assert(forall|m: int| 0 <= m < s.drop_last().len() ==> (#[trigger] s.drop_last()[m])
            < bound);
        lemma_sort_bounds(t, col, desc, s.drop_last(), bound);
        lemma_insert_sorted_bounds(
            t,
            col,
            desc,
            sort_idx(t, col, desc, s.drop_last()),
            s.last(),
            bound,
        );
    }
}

/// Every index the engine returns is a row index of the table.
pub proof fn lemma_query_bounds(t: TableV, q: QueryV, s: Seq<usize>)
    requires
        query_spec(t, q) == Ok::<Seq<usize>, ErrKind>(s),
    ensures
        forall|m: int| 0 <= m < s.len() ==> (#[trigger] s[m]) < t.rows.len(),
{
    let preds = match q.predicates {
        Some(p) => p,
        None => Seq::<PredV>::empty(),
    };
    lemma_filtered_bounds(t, preds, t.rows.len() as int);
    let picked = filtered_upto(t, preds, t.rows.len() as int);
    match q.order_type {
        OrdV::NoOrd => {},
        OrdV::Asc(c) => {
            lemma_sort_bounds(t, find_col(t.headers, c), false, picked, t.rows.len() as int);
        },
        OrdV::Dsc(c) => {
            lemma_sort_bounds(t, find_col(t.headers, c), true, picked, t.rows.len() as int);
        },
    }
}

/// Once an earlier source row fails, the first failure over any longer
/// prefix is that one.
proof fn lemma_rows_err_first(types: Seq<DataType>, rows: Seq<Seq<Seq<char>>>, i: int, k: ErrKind)
    requires
        0 <= i < rows.len(),
        rows_err(types, rows.subrange(0, i)) is None,
        row_err(types, rows[i]) == Some(k),
    ensures
        rows_err(types, rows) == Some(k),
    decreases rows.len() - i,
{
    assert(rows.subrange(0, i + 1).drop_last() =~= rows.subrange(0, i));
    assert(rows.subrange(0, i + 1).last() == rows[i]);
    assert(rows_err(types, rows.subrange(0, i + 1)) == Some(k));
    lemma_rows_err_extend(types, rows, i + 1, k);
}

/// When no source row fails, every row has the right width and every
/// cell satisfies its column's type.
proof fn lemma_rows_err_none_all(types: Seq<DataType>, rows: Seq<Seq<Seq<char>>>)
    requires
        rows_err(types, rows) is None,
    ensures
        forall|r: int| 0 <= r < rows.len() ==> (#[trigger] rows[r]).len() == types.len(),
        forall|r: int, c: int| 0 <= r < rows.len() && 0 <= c < types.len() ==> data_ok(
            types[c],
            #[trigger] rows[r][c],
        ),
    decreases rows.len(),
{
    if rows.len() > 0 {
        lemma_rows_err_none_all(types, rows.drop_last());
        assert forall|r: int| 0 <= r < rows.len() implies (#[trigger] rows[r]).len()
            == types.len() by {
            if r < rows.len() - 1 {
                assert(rows.drop_last()[r] == rows[r]);
            } else {
                assert(rows[r] == rows.last());
            }
        }
        assert forall|r: int, c: int|
            0 <= r < rows.len() && 0 <= c < types.len() implies data_ok(
            types[c],
            #[trigger] rows[r][c],
        ) by {
            if r < rows.len() - 1 {
                assert(rows.drop_last()[r] == rows[r]);
            } else {
                assert(rows[r] == rows.last());
                assert(row_err(types, rows.last()) is None);
                assert(!(exists|cc: int| 0 <= cc < rows.last().len() && !data_ok(
                    types[cc],
                    #[trigger] rows.last()[cc],
                )));
            }
        }
    }
}

/// A failed prefix decides the whole sequence.
proof fn lemma_rows_err_extend(types: Seq<DataType>, rows: Seq<Seq<Seq<char>>>, j: int, k: ErrKind)
    requires
        0 <= j <= rows.len(),
        rows_err(types, rows.subrange(0, j)) == Some(k),
    ensures
        rows_err(types, rows) == Some(k),
    decreases rows.len() - j,
{
    if j == rows.len() {
        assert(rows.subrange(0, j) =~= rows);
    } else {
        assert(rows.subrange(0, j + 1).drop_last() =~= rows.subrange(0, j));
        lemma_rows_err_extend(types, rows, j + 1, k);
    }
}

} // verus!
