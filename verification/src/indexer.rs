//! The entry point: a store of named tables, and the projection and
//! formatting of query results into a matrix of cell strings.

use crate::error::{CIndexError, CIndexResult, ErrKind};
use crate::models::{ColVarV, ColumnVariant};
use crate::query::{Query, QueryFlagType, QueryV};
use crate::strutil::{join_commas_spec, str_eq};
use crate::table::{find_col, has_col, query_spec, Table, TableV};
use vstd::pervasive::VecAdditionalExecFns;
use vstd::prelude::*;

verus! {

broadcast use crate::strutil::lemma_dv_len, crate::strutil::lemma_dv_index;

impl DeepView for ColumnVariant {
    type V = ColVarV;

    open spec fn deep_view(&self) -> ColVarV {
        self@
    }
}

/// The mathematical shape of the table store: names paired with table
/// views, in insertion order.
pub open spec fn tabs_view(tabs: Seq<(String, Table)>) -> Seq<(Seq<char>, TableV)> {
    Seq::new(tabs.len(), |i: int| (tabs[i].0@, tabs[i].1@))
}

/// The position of a table name in the store, or `-1` when it is
/// absent; the first match counts.
pub open spec fn lookup_table(tabs: Seq<(Seq<char>, TableV)>, name: Seq<char>) -> int
    decreases tabs.len(),
{
    if tabs.len() == 0 {
        -1
    } else if tabs[0].0 == name {
        0
    } else {
        let r = lookup_table(tabs.drop_first(), name);
        if r == -1 {
            -1
        } else {
            r + 1
        }
    }
}

pub proof fn lemma_lookup_found(tabs: Seq<(Seq<char>, TableV)>, name: Seq<char>, i: int)
    requires
        0 <= i < tabs.len(),
        tabs[i].0 == name,
        forall|k: int| 0 <= k < i ==> (#[trigger] tabs[k]).0 != name,
    ensures
        lookup_table(tabs, name) == i,
    decreases i,
{
    if i > 0 {
        assert forall|k: int| 0 <= k < i - 1 implies (#[trigger] tabs.drop_first()[k]).0
            != name by {
            assert(tabs.drop_first()[k] == tabs[k + 1]);
        }
        assert(tabs.drop_first()[i - 1] == tabs[i]);
        lemma_lookup_found(tabs.drop_first(), name, i - 1);
    }
}

pub proof fn lemma_lookup_missing(tabs: Seq<(Seq<char>, TableV)>, name: Seq<char>)
    requires
        forall|k: int| 0 <= k < tabs.len() ==> (#[trigger] tabs[k]).0 != name,
    ensures
        lookup_table(tabs, name) == -1,
    decreases tabs.len(),
{
    if tabs.len() > 0 {
        assert forall|k: int| 0 <= k < tabs.len() - 1 implies (#[trigger] tabs.drop_first()[k]).0
            != name by {
            assert(tabs.drop_first()[k] == tabs[k + 1]);
        }
        lemma_lookup_missing(tabs.drop_first(), name);
    }
}

pub proof fn lemma_lookup_bounds(tabs: Seq<(Seq<char>, TableV)>, name: Seq<char>)
    ensures
        -1 <= lookup_table(tabs, name) < tabs.len(),
        lookup_table(tabs, name) >= 0 ==> tabs[lookup_table(tabs, name)].0 == name,
    decreases tabs.len(),
{
    if tabs.len() > 0 && tabs[0].0 != name {
        lemma_lookup_bounds(tabs.drop_first(), name);
    }
}

/// The entry struct: the loaded tables by name, and the newline toggle
/// honored when results are rendered to text.
pub struct Indexer {
    pub tables: Vec<(String, Table)>,
    pub use_unix_newline: bool,
}

impl Default for Indexer {
    /// An empty indexer.
    fn default() -> (r: Self)
        ensures
            r.tables@.len() == 0,
            r.use_unix_newline == false,
            r.inv(),
    {
        Indexer::new()
    }
}

impl Indexer {
    /// The store's invariant: table names are unique and every stored
    /// table is well-formed.
    pub open spec fn inv(&self) -> bool {
        &&& forall|i: int, j: int| 0 <= i < j < self.tables@.len() ==> (#[trigger] self.tables@[i]).0@
            != (#[trigger] self.tables@[j]).0@
        &&& forall|i: int| 0 <= i < self.tables@.len() ==> (#[trigger] self.tables@[i]).1@.wf()
    }

    /// An empty indexer.
    pub fn new() -> (r: Self)
        ensures
            r.tables@.len() == 0,
            r.use_unix_newline == false,
            r.inv(),
    {
        Indexer { tables: Vec::new(), use_unix_newline: false }
    }

    /// Let rendered output always end its lines with the plain newline,
    /// whatever the platform default is.
    pub fn always_use_unix_newline(&mut self, tv: bool)
        ensures
            final(self).use_unix_newline == tv,
            final(self).tables == old(self).tables,
    {
        self.use_unix_newline = tv;
    }

    /// The position of a table name in the store, if it is there.
    fn find_table(&self, name: &str) -> (r: Option<usize>)
        ensures
            r matches Some(i) ==> lookup_table(tabs_view(self.tables@), name@) == i as int,
            r is None ==> lookup_table(tabs_view(self.tables@), name@) == -1,
    {
        let n = self.tables.len();
        let mut i: usize = 0;
        while i < n
            invariant
                i <= n,
                n == self.tables@.len(),
                forall|k: int| 0 <= k < i ==> (#[trigger] tabs_view(self.tables@)[k]).0 != name@,
            decreases n - i,
        {
            if str_eq(self.tables[i].0.as_str(), name) {
                proof {
                    assert(tabs_view(self.tables@)[i as int].0 == name@);
                    lemma_lookup_found(tabs_view(self.tables@), name@, i as int);
                }
                return Some(i);
            }
            proof {
                assert(tabs_view(self.tables@)[i as int].0 == self.tables@[i as int].0@);
            }
            i = i + 1;
        }
        proof {
            lemma_lookup_missing(tabs_view(self.tables@), name@);
        }
        None
    }

    /// Whether a table of this name is loaded.
    pub fn contains_table(&self, table_name: &str) -> (r: bool)
        ensures
            r == (lookup_table(tabs_view(self.tables@), table_name@) >= 0),
    {
        self.find_table(table_name).is_some()
    }

    /// Removes a table by name; absent names are ignored.
    pub fn drop_table(&mut self, table_name: &str)
        requires
            old(self).inv(),
        ensures
            final(self).inv(),
            final(self).use_unix_newline == old(self).use_unix_newline,
            lookup_table(tabs_view(old(self).tables@), table_name@) < 0 ==> final(self).tables
                == old(self).tables,
            lookup_table(tabs_view(old(self).tables@), table_name@) >= 0 ==> final(self).tables@
                == old(self).tables@.remove(
                lookup_table(tabs_view(old(self).tables@), table_name@),
            ),
    {
        match self.find_table(table_name) {
            Some(i) => {
                proof {
                    lemma_lookup_bounds(tabs_view(self.tables@), table_name@);
                    assert(tabs_view(self.tables@).len() == self.tables@.len());
                }
                self.tables.remove(i);
                proof {
                    assert forall|a: int, b: int|
                        0 <= a < b < self.tables@.len() implies (#[trigger] self.tables@[a]).0@
                        != (#[trigger] self.tables@[b]).0@ by {
                        let olds = old(self).tables@;
                        let oa: int = if a < i { a } else { a + 1 };
                        let ob: int = if b < i { b } else { b + 1 };
                        assert(self.tables@[a] == olds[oa]);
                        assert(self.tables@[b] == olds[ob]);
                    }
                    assert forall|a: int| 0 <= a < self.tables@.len() implies (
                    #[trigger] self.tables@[a]).1@.wf() by {
                        let olds = old(self).tables@;
                        let oa: int = if a < i { a } else { a + 1 };
                        assert(self.tables@[a] == olds[oa]);
                    }
                }
            },
            None => {},
        }
    }

    /// Adds a table under a name, replacing any table of that name.
    pub fn add_table(&mut self, table_name: &str, table: Table)
        requires
            old(self).inv(),
            table@.wf(),
        ensures
            final(self).inv(),
            final(self).use_unix_newline == old(self).use_unix_newline,
            lookup_table(tabs_view(old(self).tables@), table_name@) < 0 ==> tabs_view(
                final(self).tables@,
            ) == tabs_view(old(self).tables@).push((table_name@, table@)),
            lookup_table(tabs_view(old(self).tables@), table_name@) >= 0 ==> tabs_view(
                final(self).tables@,
            ) == tabs_view(old(self).tables@).update(
                lookup_table(tabs_view(old(self).tables@), table_name@),
                (table_name@, table@),
            ),
    {
        let ghost oldtabs = tabs_view(self.tables@);
        match self.find_table(table_name) {
            Some(i) => {
                proof {
                    lemma_lookup_bounds(oldtabs, table_name@);
                    assert(oldtabs.len() == self.tables@.len());
                }
                self.tables.set(i, (String::from_str(table_name), table));
                proof {
                    assert(tabs_view(self.tables@) =~= oldtabs.update(i as int, (
                        table_name@,
                        table@,
                    )));
                    assert forall|a: int, b: int|
                        0 <= a < b < self.tables@.len() implies (#[trigger] self.tables@[a]).0@
                        != (#[trigger] self.tables@[b]).0@ by {
                        assert(tabs_view(self.tables@)[a].0 == self.tables@[a].0@);
                        assert(tabs_view(self.tables@)[b].0 == self.tables@[b].0@);
                        assert(oldtabs[a].0 == old(self).tables@[a].0@);
                        assert(oldtabs[b].0 == old(self).tables@[b].0@);
                    }
                }
            },
            None => {
                proof {
                    lemma_lookup_neg(oldtabs, table_name@);
                }
                self.tables.push((String::from_str(table_name), table));
                proof {
                    assert(tabs_view(self.tables@) =~= oldtabs.push((table_name@, table@)));
                    assert forall|a: int, b: int|
                        0 <= a < b < self.tables@.len() implies (#[trigger] self.tables@[a]).0@
                        != (#[trigger] self.tables@[b]).0@ by {
                        assert(tabs_view(self.tables@)[a].0 == self.tables@[a].0@);
                        assert(tabs_view(self.tables@)[b].0 == self.tables@[b].0@);
                        if b < self.tables@.len() - 1 {
                            assert(oldtabs[a].0 == old(self).tables@[a].0@);
                            assert(oldtabs[b].0 == old(self).tables@[b].0@);
                        } else {
                            assert(oldtabs[a].0 == old(self).tables@[a].0@);
                        }
                    }
                }
            },
        }
    }
}

/// One output row of the transposed matrix: the former column `c`.
pub open spec fn transpose_row(m: Seq<Seq<Seq<char>>>, c: int) -> Seq<Seq<char>> {
    Seq::new(m.len(), |r: int| m[r][c])
}

/// The transposed matrix: output columns become output rows. An empty
/// matrix transposes to an empty matrix.
pub open spec fn transpose_spec(m: Seq<Seq<Seq<char>>>) -> Seq<Seq<Seq<char>>> {
    if m.len() == 0 {
        Seq::empty()
    } else {
        Seq::new(m[0].len(), |c: int| transpose_row(m, c))
    }
}

/// The cells one result row contributes, one per resolved output
/// column: the cell text for a real column, the empty string for a
/// supplement column.
pub open spec fn row_cells(t: TableV, row: int, targets: Seq<ColVarV>) -> Seq<Seq<char>> {
    Seq::new(
        targets.len(),
        |i: int| match targets[i] {
            ColVarV::Real(name) => t.rows[row][find_col(t.headers, name)].value,
            ColVarV::Supplement(_) => Seq::empty(),
        },
    )
}

/// The data rows of the output matrix, in engine order.
pub open spec fn body_rows(t: TableV, picked: Seq<usize>, targets: Seq<ColVarV>) -> Seq<
    Seq<Seq<char>>,
> {
    Seq::new(picked.len(), |i: int| row_cells(t, picked[i] as int, targets))
}

/// The header labels of the resolved output columns.
pub open spec fn labels_of(targets: Seq<ColVarV>) -> Seq<Seq<char>> {
    Seq::new(targets.len(), |i: int| targets[i].label())
}

/// Every real table column bound as a resolved output column, in table
/// order.
pub open spec fn headers_as_real(headers: Seq<Seq<char>>) -> Seq<ColVarV> {
    Seq::new(headers.len(), |i: int| ColVarV::Real(headers[i]))
}

/// The running state of column resolution: whether a wildcard was
/// seen, the real columns bound so far, and the supplement columns
/// collected so far.
#[verifier::ext_equal]
pub struct RSt {
    pub all_column: bool,
    pub targets: Seq<ColVarV>,
    pub supplement: Seq<ColVarV>,
}

/// What one requested column name does during resolution: a wildcard
/// requests every real column; a name matching a header binds a real
/// column unless a wildcard was seen; any other name is a supplement
/// column under the supplement flag, and a column error without it.
pub open spec fn resolve_step(t: TableV, sup: bool, st: RSt, c: Seq<char>) -> Result<
    RSt,
    ErrKind,
> {
    if c == "*"@ {
        Ok(RSt { all_column: true, ..st })
    } else if has_col(t.headers, c) {
        if !st.all_column {
            Ok(RSt { targets: st.targets.push(ColVarV::Real(c)), ..st })
        } else {
            Ok(st)
        }
    } else if sup {
        Ok(RSt { supplement: st.supplement.push(ColVarV::Supplement(c)), ..st })
    } else {
        Err(ErrKind::Column)
    }
}

/// Column resolution run over the requested names.
pub open spec fn resolve_run(t: TableV, sup: bool, cols: Seq<Seq<char>>) -> Result<RSt, ErrKind>
    decreases cols.len(),
{
    if cols.len() == 0 {
        Ok(RSt { all_column: false, targets: Seq::empty(), supplement: Seq::empty() })
    } else {
        match resolve_run(t, sup, cols.drop_last()) {
            Ok(st) => resolve_step(t, sup, st, cols.last()),
            Err(e) => Err(e),
        }
    }
}

/// The resolved output columns of a query: the bound real columns (or
/// every real column after a wildcard), then the supplement columns.
pub open spec fn resolve_cols(t: TableV, q: QueryV) -> Result<Seq<ColVarV>, ErrKind> {
    match resolve_run(t, q.flags.sup, q.column_names) {
        Ok(st) => Ok(
            (if st.all_column {
                headers_as_real(t.headers)
            } else {
                st.targets
            }) + st.supplement,
        ),
        Err(e) => Err(e),
    }
}

/// The matrix, transposed when the flag asks for it.
pub open spec fn finish(m: Seq<Seq<Seq<char>>>, tp: bool) -> Seq<Seq<Seq<char>>> {
    if tp {
        transpose_spec(m)
    } else {
        m
    }
}

/// What indexing yields for a query against a table store: an unknown
/// table name is a table-name error; the engine then picks the rows;
/// the requested columns are resolved; under the print-header flag a
/// rename map of the wrong length is a statement error, else the header
/// row comes first; and the whole matrix is transposed under the
/// transpose flag.
pub open spec fn index_table_spec(tabs: Seq<(Seq<char>, TableV)>, q: QueryV) -> Result<
    Seq<Seq<Seq<char>>>,
    ErrKind,
> {
    let ti = lookup_table(tabs, q.table_name);
    if ti < 0 {
        Err(ErrKind::TableName)
    } else {
        let t = tabs[ti].1;
        match query_spec(t, q) {
            Err(e) => Err(e),
            Ok(picked) => match resolve_cols(t, q) {
                Err(e) => Err(e),
                Ok(targets) => if q.flags.phd {
                    match q.column_map {
                        Some(m) => if m.len() != targets.len() {
                            Err(ErrKind::QueryStatement)
                        } else {
                            Ok(finish(seq![m] + body_rows(t, picked, targets), q.flags.tp))
                        },
                        None => Ok(
                            finish(
                                seq![labels_of(targets)] + body_rows(t, picked, targets),
                                q.flags.tp,
                            ),
                        ),
                    }
                } else {
                    Ok(finish(body_rows(t, picked, targets), q.flags.tp))
                },
            },
        }
    }
}

/// Once column resolution fails on a name, the whole run fails the
/// same way.
proof fn lemma_resolve_extend_err(t: TableV, sup: bool, cols: Seq<Seq<char>>, j: int, k: ErrKind)
    requires
        0 <= j <= cols.len(),
        resolve_run(t, sup, cols.subrange(0, j)) == Err::<RSt, ErrKind>(k),
    ensures
        resolve_run(t, sup, cols) == Err::<RSt, ErrKind>(k),
    decreases cols.len() - j,
{
    if j == cols.len() {
        assert(cols.subrange(0, j) =~= cols);
    } else {
        assert(cols.subrange(0, j + 1).drop_last() =~= cols.subrange(0, j));
        lemma_resolve_extend_err(t, sup, cols, j + 1, k);
    }
}

impl Indexer {
    /// Transposes the output matrix: output columns become output
    /// rows. All rows must already have equal width.
    pub fn tranpose_records(&self, v: Vec<Vec<String>>) -> (r: Vec<Vec<String>>)
        requires
            forall|a: int| 0 <= a < v.deep_view().len() ==> (#[trigger] v.deep_view()[a]).len()
                == v.deep_view()[0].len(),
        ensures
            r.deep_view() == transpose_spec(v.deep_view()),
    {
        let nr = v.len();
        let mut out: Vec<Vec<String>> = Vec::new();
        if nr == 0 {
            proof {
                assert(out.deep_view() =~= transpose_spec(v.deep_view()));
            }
            return out;
        }
        let nc = v[0].len();
        let mut c: usize = 0;
        while c < nc
            invariant
                c <= nc,
                nr == v@.len(),
                nr > 0,
                nc == v.deep_view()[0].len(),
                forall|a: int| 0 <= a < v.deep_view().len() ==> (#[trigger] v.deep_view()[a]).len()
                    == v.deep_view()[0].len(),
                out.deep_view() == transpose_spec(v.deep_view()).subrange(0, c as int),
            decreases nc - c,
        {
            let mut line: Vec<String> = Vec::new();
            let mut rr: usize = 0;
            while rr < nr
                invariant
                    rr <= nr,
                    c < nc,
                    nr == v@.len(),
                    nr > 0,
                    nc == v.deep_view()[0].len(),
                    forall|a: int| 0 <= a < v.deep_view().len() ==> (#[trigger] v.deep_view()[a]).len()
                        == v.deep_view()[0].len(),
                    line.deep_view() == transpose_row(v.deep_view(), c as int).subrange(
                        0,
                        rr as int,
                    ),
                decreases nr - rr,
            {
                proof {
                    assert(v.deep_view()[rr as int].len() == nc);
                    assert(v.deep_view()[rr as int] == v@[rr as int].deep_view());
                }
                let cell = v[rr][c].clone();
                line.push(cell);
                proof {
                    assert(line.deep_view() =~= transpose_row(v.deep_view(), c as int).subrange(
                        0,
                        rr as int + 1,
                    ));
                }
                rr = rr + 1;
            }
            proof {
                assert(line.deep_view() =~= transpose_row(v.deep_view(), c as int));
            }
            out.push(line);
            proof {
                assert(out.deep_view() =~= transpose_spec(v.deep_view()).subrange(
                    0,
                    c as int + 1,
                ));
            }
            c = c + 1;
        }
        proof {
            assert(out.deep_view() =~= transpose_spec(v.deep_view()));
        }
        out
    }

    /// The cells one selected row contributes, per resolved output
    /// column.
    fn row_with_columns(table: &Table, row: usize, columns: &Vec<ColumnVariant>) -> (r:
        CIndexResult<Vec<String>>)
        requires
            table@.wf(),
            row < table@.rows.len(),
            forall|i: int| 0 <= i < columns.deep_view().len() ==> ((#[trigger] columns.deep_view()[i])
                matches ColVarV::Real(nm) ==> has_col(table@.headers, nm)),
        ensures
            r matches Ok(v) && v.deep_view() == row_cells(table@, row as int, columns.deep_view()),
    {
        let n = columns.len();
        let mut out: Vec<String> = Vec::new();
        let mut j: usize = 0;
        while j < n
            invariant
                j <= n,
                n == columns@.len(),
                table@.wf(),
                row < table@.rows.len(),
                forall|i: int| 0 <= i < columns.deep_view().len() ==> ((
                #[trigger] columns.deep_view()[i]) matches ColVarV::Real(nm) ==> has_col(
                    table@.headers,
                    nm,
                )),
                out.deep_view() == row_cells(table@, row as int, columns.deep_view()).subrange(
                    0,
                    j as int,
                ),
            decreases n - j,
        {
            proof {
                assert(columns.deep_view()[j as int] == columns@[j as int]@);
            }
            match &columns[j] {
                ColumnVariant::Real(key) => {
                    let ci = match table.find_header(key.as_str()) {
                        Some(ci) => ci,
                        None => {
                            proof {
                                assert(false);
                            }
                            return Err(
                                CIndexError::InvalidColumn(
                                    String::from_str("Failed to read row value from column"),
                                ),
                            );
                        },
                    };
                    proof {
                        crate::table::lemma_find_col_bounds(table@.headers, key@);
                        assert(table@.rows[row as int] == table.rows@[row as int].deep_view());
                        assert(table@.rows[row as int][ci as int] == table.rows@[row as int]@[
                            ci as int
                        ]@);
                    }
                    let cell = table.rows[row][ci].value.clone();
                    out.push(cell);
                },
                ColumnVariant::Supplement(_) => {
                    out.push(String::new());
                },
            }
            proof {
                assert(out.deep_view() =~= row_cells(
                    table@,
                    row as int,
                    columns.deep_view(),
                ).subrange(0, j as int + 1));
            }
            j = j + 1;
        }
        proof {
            assert(out.deep_view() =~= row_cells(table@, row as int, columns.deep_view()));
        }
        Ok(out)
    }

    /// Rows filtered, ordered, paginated and projected for a query, as
    /// [`index_table_spec`] says.
    pub fn index_get_records(&self, query: Query) -> (r: CIndexResult<Vec<Vec<String>>>)
        requires
            self.inv(),
        ensures
            index_table_spec(tabs_view(self.tables@), query@) matches Ok(m) ==> (r matches Ok(v)
                && v.deep_view() == m),
            index_table_spec(tabs_view(self.tables@), query@) matches Err(k) ==> (r matches Err(e)
                && e.kind() == k),
    {
        self.index_table(query)
    }

    /// The whole pipeline for one query: look the table up, run the
    /// engine, resolve the output columns, emit the header row under
    /// the print-header flag, extract the selected rows' cells, and
    /// transpose under the transpose flag.
    fn index_table(&self, query: Query) -> (r: CIndexResult<Vec<Vec<String>>>)
        requires
            self.inv(),
        ensures
            index_table_spec(tabs_view(self.tables@), query@) matches Ok(m) ==> (r matches Ok(v)
                && v.deep_view() == m),
            index_table_spec(tabs_view(self.tables@), query@) matches Err(k) ==> (r matches Err(e)
                && e.kind() == k),
    {
        let ghost tv = tabs_view(self.tables@);
        let ti = match self.find_table(query.table_name.as_str()) {
            Some(i) => i,
            None => {
                return Err(
                    CIndexError::InvalidTableName(String::from_str("Table doesn't exist")),
                );
            },
        };
        proof {
            lemma_lookup_bounds(tv, query@.table_name);
            assert(tv.len() == self.tables@.len());
        }
        let table: &Table = &self.tables[ti].1;
        proof {
            assert(tv[ti as int].1 == table@);
            assert(table@.wf());
        }

        let queried: Vec<usize> = match table.query(&query) {
            Ok(v) => v,
            Err(e) => {
                return Err(e);
            },
        };
        proof {
            crate::table::lemma_query_bounds(table@, query@, queried@);
        }

        // resolve the requested columns
        let ghost cols = query@.column_names;
        let ghost supf = query@.flags.sup;
        let mut all_column = false;
        let mut targets: Vec<ColumnVariant> = Vec::new();
        let mut supplement: Vec<ColumnVariant> = Vec::new();
        proof {
            assert(cols.subrange(0, 0) =~= Seq::<Seq<char>>::empty());
            assert(targets.deep_view() =~= Seq::<ColVarV>::empty());
            assert(supplement.deep_view() =~= Seq::<ColVarV>::empty());
        }
        let nreq = query.column_names.len();
        let mut i: usize = 0;
        while i < nreq
            invariant
                i <= nreq,
                nreq == query.column_names@.len(),
                cols == query@.column_names,
                supf == query@.flags.sup,
                table@.wf(),
                resolve_run(table@, supf, cols.subrange(0, i as int)) == Ok::<RSt, ErrKind>(
                    RSt {
                        all_column,
                        targets: targets.deep_view(),
                        supplement: supplement.deep_view(),
                    },
                ),
                forall|m: int| 0 <= m < targets.deep_view().len() ==> ((
                #[trigger] targets.deep_view()[m]) matches ColVarV::Real(nm) && has_col(
                    table@.headers,
                    nm,
                )),
                forall|m: int| 0 <= m < supplement.deep_view().len() ==> (
                #[trigger] supplement.deep_view()[m]) matches ColVarV::Supplement(_),
                tv == tabs_view(self.tables@),
                ti < tv.len(),
                tv[ti as int].1 == table@,
                lookup_table(tv, query@.table_name) == ti as int,
                query_spec(table@, query@) == Ok::<Seq<usize>, ErrKind>(queried@),
                index_table_spec(tv, query@) == index_table_spec(tabs_view(self.tables@), query@),
            decreases nreq - i,
        {
            proof {
                assert(cols.subrange(0, i as int + 1).drop_last() =~= cols.subrange(0, i as int));
                assert(cols.subrange(0, i as int + 1).last() == cols[i as int]);
                assert(cols[i as int] == query.column_names@[i as int]@);
            }
            let ghost pre_st = RSt {
                all_column,
                targets: targets.deep_view(),
                supplement: supplement.deep_view(),
            };
            let c = &query.column_names[i];
            if crate::strutil::str_eq(c.as_str(), "*") {
                all_column = true;
            } else if table.find_header(c.as_str()).is_some() {
                if !all_column {
                    let ghost before = targets.deep_view();
                    targets.push(ColumnVariant::Real(c.clone()));
                    proof {
                        assert(targets.deep_view() =~= before.push(ColVarV::Real(c@)));
                    }
                }
            } else if query.flags.contains(QueryFlagType::Sup) {
                let ghost before = supplement.deep_view();
                supplement.push(ColumnVariant::Supplement(c.clone()));
                proof {
                    assert(supplement.deep_view() =~= before.push(ColVarV::Supplement(c@)));
                }
            } else {
                proof {
                    assert(resolve_step(table@, supf, pre_st, cols[i as int]) == Err::<
                        RSt,
                        ErrKind,
                    >(ErrKind::Column));
                    assert(resolve_run(table@, supf, cols.subrange(0, i as int + 1)) == Err::<
                        RSt,
                        ErrKind,
                    >(ErrKind::Column));
                    lemma_resolve_extend_err(table@, supf, cols, i as int + 1, ErrKind::Column);
                }
                return Err(
                    CIndexError::InvalidColumn(String::from_str("Column doesn't exist")),
                );
            }
            proof {
                assert(resolve_step(table@, supf, pre_st, cols[i as int]) == Ok::<RSt, ErrKind>(
                    RSt {
                        all_column,
                        targets: targets.deep_view(),
                        supplement: supplement.deep_view(),
                    },
                ));
            }
            i = i + 1;
        }
        proof {
            assert(cols.subrange(0, nreq as int) =~= cols);
        }

        // wildcard overrides the bound columns
        let mut final_targets: Vec<ColumnVariant>;
        if all_column {
            final_targets = Vec::new();
            proof {
                assert(final_targets.deep_view() =~= headers_as_real(table@.headers).subrange(
                    0,
                    0,
                ));
            }
            let nh = table.headers.len();
            let mut h: usize = 0;
            while h < nh
                invariant
                    h <= nh,
                    nh == table.headers@.len(),
                    table@.wf(),
                    final_targets.deep_view() == headers_as_real(table@.headers).subrange(
                        0,
                        h as int,
                    ),
                    forall|m: int| 0 <= m < final_targets.deep_view().len() ==> ((
                    #[trigger] final_targets.deep_view()[m]) matches ColVarV::Real(nm) && has_col(
                        table@.headers,
                        nm,
                    )),
                decreases nh - h,
            {
                let ghost before = final_targets.deep_view();
                final_targets.push(ColumnVariant::Real(table.headers[h].clone()));
                proof {
                    assert(table@.headers[h as int] == table.headers@[h as int]@);
                    assert forall|k: int| 0 <= k < h implies table@.headers[k] != table@.headers[
                        h as int
                    ] by {}
                    crate::table::lemma_find_col_found(table@.headers, table@.headers[h as int], h as int);
                    assert(final_targets.deep_view() =~= before.push(
                        ColVarV::Real(table@.headers[h as int]),
                    ));
                    assert(final_targets.deep_view() =~= headers_as_real(
                        table@.headers,
                    ).subrange(0, h as int + 1));
                }
                h = h + 1;
            }
            proof {
                assert(final_targets.deep_view() =~= headers_as_real(table@.headers));
            }
        } else {
            final_targets = targets;
        }

        // append the supplement columns
        let ghost base_dv = final_targets.deep_view();
        let ghost sup0 = supplement.deep_view();
        let ghost base_vec = final_targets;
        let ghost sup_vec = supplement;
        final_targets.append(&mut supplement);
        proof {
            assert(final_targets@ =~= base_vec@ + sup_vec@);
            assert forall|a: int| 0 <= a < final_targets.deep_view().len() implies (
            #[trigger] final_targets.deep_view()[a]) == (base_dv + sup0)[a] by {
                crate::strutil::lemma_dv_index(final_targets, a);
                if a < base_vec@.len() {
                    crate::strutil::lemma_dv_index(base_vec, a);
                } else {
                    crate::strutil::lemma_dv_index(sup_vec, a - base_vec@.len());
                }
            }
            assert(final_targets.deep_view() =~= base_dv + sup0);
        }
        let ghost tgts = final_targets.deep_view();
        proof {
            assert(resolve_cols(table@, query@) == Ok::<Seq<ColVarV>, ErrKind>(tgts));
            assert forall|m: int| 0 <= m < tgts.len() implies ((#[trigger] tgts[m])
                matches ColVarV::Real(nm) ==> has_col(table@.headers, nm)) by {
                if m < base_dv.len() {
                    assert(tgts[m] == base_dv[m]);
                } else {
                    assert(tgts[m] == sup0[m - base_dv.len()]);
                }
            }
        }

        // header row
        let tlen = final_targets.len();
        let mut records: Vec<Vec<String>> = Vec::new();
        if query.flags.contains(QueryFlagType::Phd) {
            match &query.column_map {
                Some(map) => {
                    if map.len() != tlen {
                        return Err(
                            CIndexError::InvalidQueryStatement(
                                String::from_str(
                                    "Headermap should have a same length with target columns",
                                ),
                            ),
                        );
                    }
                    let cloned_map = map.clone();
                    records.push(cloned_map);
                    proof {
                        broadcast use vstd::std_specs::vec::vec_clone_deep_view_proof;

                        assert(records.deep_view() =~= seq![map.deep_view()]);
                    }
                },
                None => {
                    let mut hdr: Vec<String> = Vec::new();
                    proof {
                        assert(hdr.deep_view() =~= labels_of(tgts).subrange(0, 0));
                    }
                    let mut j: usize = 0;
                    while j < tlen
                        invariant
                            j <= tlen,
                            tlen == final_targets@.len(),
                            tgts == final_targets.deep_view(),
                            hdr.deep_view() == labels_of(tgts).subrange(0, j as int),
                        decreases tlen - j,
                    {
                        let lab = final_targets[j].label();
                        hdr.push(lab);
                        proof {
                            assert(final_targets.deep_view()[j as int] == final_targets@[
                                j as int
                            ]@);
                            assert(hdr.deep_view() =~= labels_of(tgts).subrange(0, j as int + 1));
                        }
                        j = j + 1;
                    }
                    proof {
                        assert(hdr.deep_view() =~= labels_of(tgts));
                    }
                    records.push(hdr);
                    proof {
                        assert(records.deep_view() =~= seq![labels_of(tgts)]);
                    }
                },
            }
        } else {
            proof {
                assert(records.deep_view() =~= Seq::<Seq<Seq<char>>>::empty());
            }
        }
        let ghost head_part = records.deep_view();
        proof {
            assert(records.deep_view() =~= head_part + body_rows(
                table@,
                queried@.subrange(0, 0),
                tgts,
            ));
        }

        // data rows
        let nq = queried.len();
        let mut qi: usize = 0;
        while qi < nq
            invariant
                qi <= nq,
                nq == queried@.len(),
                table@.wf(),
                tgts == final_targets.deep_view(),
                tlen == final_targets@.len(),
                forall|m: int| 0 <= m < queried@.len() ==> (#[trigger] queried@[m])
                    < table@.rows.len(),
                forall|m: int| 0 <= m < tgts.len() ==> ((#[trigger] tgts[m]) matches ColVarV::Real(
                    nm,
                ) ==> has_col(table@.headers, nm)),
                records.deep_view() == head_part + body_rows(
                    table@,
                    queried@.subrange(0, qi as int),
                    tgts,
                ),
            decreases nq - qi,
        {
            let row_idx = queried[qi];
            let cells = match Self::row_with_columns(table, row_idx, &final_targets) {
                Ok(v) => v,
                Err(e) => {
                    proof {
                        assert(false);
                    }
                    return Err(e);
                },
            };
            let ghost cells_dv = cells.deep_view();
            let ghost recs_before = records.deep_view();
            records.push(cells);
            proof {
                assert(cells_dv == row_cells(table@, queried@[qi as int] as int, tgts));
                assert(records@.len() == recs_before.len() + 1);
                assert(records.deep_view()[recs_before.len() as int] == cells_dv);
                assert forall|a: int| 0 <= a < recs_before.len() implies records.deep_view()[a]
                    == recs_before[a] by {
                    assert(records.deep_view()[a] == records@[a].deep_view());
                }
                assert(records.deep_view() =~= recs_before.push(cells_dv));
                assert(body_rows(table@, queried@.subrange(0, qi as int + 1), tgts) =~= body_rows(
                    table@,
                    queried@.subrange(0, qi as int),
                    tgts,
                ).push(row_cells(table@, queried@[qi as int] as int, tgts)));
                assert(records.deep_view() =~= head_part + body_rows(
                    table@,
                    queried@.subrange(0, qi as int + 1),
                    tgts,
                ));
            }
            qi = qi + 1;
        }
        proof {
            assert(queried@.subrange(0, nq as int) =~= queried@);
        }
        let ghost flat = head_part + body_rows(table@, queried@, tgts);
        proof {
            assert(records.deep_view() == flat);
        }

        proof {
            if query@.flags.phd {
                match &query.column_map {
                    Some(map2) => {
                        assert(head_part == seq![map2.deep_view()]);
                        assert(index_table_spec(tv, query@) == Ok::<Seq<Seq<Seq<char>>>, ErrKind>(
                            finish(flat, query@.flags.tp),
                        ));
                    },
                    None => {
                        assert(head_part == seq![labels_of(tgts)]);
                        assert(index_table_spec(tv, query@) == Ok::<Seq<Seq<Seq<char>>>, ErrKind>(
                            finish(flat, query@.flags.tp),
                        ));
                    },
                }
            } else {
                assert(index_table_spec(tv, query@) == Ok::<Seq<Seq<Seq<char>>>, ErrKind>(
                    finish(flat, query@.flags.tp),
                ));
            }
        }

        // transpose
        if query.flags.contains(QueryFlagType::TP) {
            proof {
                assert forall|a: int| 0 <= a < records.deep_view().len() implies (
                #[trigger] records.deep_view()[a]).len() == records.deep_view()[0].len() by {
                    assert(forall|b: int| 0 <= b < flat.len() ==> (#[trigger] flat[b]).len()
                        == tgts.len());
                }
            }
            let transposed = self.tranpose_records(records);
            proof {
                assert(transposed.deep_view() == finish(flat, query@.flags.tp));
            }
            return Ok(transposed);
        }
        Ok(records)
    }
}

/// A record matrix rendered to text: each row's cells joined with
/// commas, each line closed with the line terminator.
pub open spec fn render_spec(m: Seq<Seq<Seq<char>>>, nl: Seq<char>) -> Seq<char>
    decreases m.len(),
{
    if m.len() == 0 {
        Seq::empty()
    } else {
        render_spec(m.drop_last(), nl) + join_commas_spec(m.last()) + nl
    }
}

/// Renders a record matrix to one text block, comma-separating cells
/// and closing every line with the given terminator.
pub fn format_records(records: &Vec<Vec<String>>, newline: &str) -> (r: String)
    ensures
        r@ == render_spec(records.deep_view(), newline@),
{
    let n = records.len();
    let mut out = String::new();
    let mut i: usize = 0;
    while i < n
        invariant
            i <= n,
            n == records@.len(),
            out@ == render_spec(records.deep_view().subrange(0, i as int), newline@),
        decreases n - i,
    {
        let line = crate::strutil::join_commas(&records[i]);
        out.append(line.as_str());
        out.append(newline);
        proof {
            let dv = records.deep_view();
            assert(dv.subrange(0, i as int + 1).drop_last() =~= dv.subrange(0, i as int));
            assert(dv.subrange(0, i as int + 1).last() == dv[i as int]);
            assert(records[i as int].deep_view() == dv[i as int]);
            assert(out@ =~= render_spec(dv.subrange(0, i as int + 1), newline@));
        }
        i = i + 1;
    }
    proof {
        assert(records.deep_view().subrange(0, n as int) =~= records.deep_view());
    }
    out
}

impl Indexer {
    /// The line terminator rendered output uses: the plain newline when
    /// the unix-newline toggle is set, else the platform default the
    /// caller supplies.
    pub fn get_newline<'a>(&self, platform_default: &'a str) -> (r: &'a str)
        ensures
            self.use_unix_newline ==> r@ == "\n"@,
            !self.use_unix_newline ==> r@ == platform_default@,
    {
        if self.use_unix_newline {
            "\n"
        } else {
            platform_default
        }
    }
}

/// A name the lookup does not find matches no stored name.
pub proof fn lemma_lookup_neg(tabs: Seq<(Seq<char>, TableV)>, name: Seq<char>)
    requires
        lookup_table(tabs, name) == -1,
    ensures
        forall|k: int| 0 <= k < tabs.len() ==> (#[trigger] tabs[k]).0 != name,
    decreases tabs.len(),
{
    if tabs.len() > 0 {
        lemma_lookup_bounds(tabs.drop_first(), name);
        lemma_lookup_neg(tabs.drop_first(), name);
        assert forall|k: int| 0 <= k < tabs.len() implies (#[trigger] tabs[k]).0 != name by {
            if k > 0 {
                assert(tabs.drop_first()[k - 1] == tabs[k]);
            }
        }
    }
}

} // verus!
