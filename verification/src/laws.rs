//! General properties of the engine and the formatter, stated once and
//! proved for every input: a predicate-free query keeps every row in
//! order, filtering is idempotent, and transposition swaps the axes and
//! undoes itself.

use crate::indexer::{
    body_rows, index_table_spec, lookup_table, resolve_cols, row_cells, transpose_row,
    transpose_spec,
};
use crate::models::OrdV;
use crate::query::{Operator, PredV, QueryV};
use crate::table::{filtered_upto, query_spec, row_matches_all, TableV};
use vstd::prelude::*;

verus! {

/// The row indices `0` to `n - 1`, in order.
pub open spec fn all_indices(n: int) -> Seq<usize> {
    Seq::new(n as nat, |i: int| i as usize)
}

/// Whether a row index passes every predicate of a list, as the
/// engine's filter decides it.
pub open spec fn keeps(t: TableV, preds: Seq<PredV>) -> spec_fn(usize) -> bool {
    |i: usize| row_matches_all(t, preds, i as int)
}

/// A sequence of row indices filtered by a predicate list.
pub open spec fn filter_indices(t: TableV, preds: Seq<PredV>, s: Seq<usize>) -> Seq<usize> {
    s.filter(keeps(t, preds))
}

/// With no predicate, the engine's filter keeps every row.
proof fn lemma_filtered_all(t: TableV, preds: Seq<PredV>, n: int)
    requires
        preds.len() == 0,
        0 <= n,
    ensures
        filtered_upto(t, preds, n) == all_indices(n),
    decreases n,
{
    if n > 0 {
        lemma_filtered_all(t, preds, n - 1);
        assert(filtered_upto(t, preds, n) =~= all_indices(n));
    } else {
        assert(filtered_upto(t, preds, n) =~= all_indices(n));
    }
}

/// A predicate-free, unordered, unsliced query returns every row of
/// the table, in original row order.
pub proof fn lemma_predicate_free_rows(t: TableV, q: QueryV)
    requires
        match q.predicates {
            Some(p) => p.len() == 0,
            None => true,
        },
        q.order_type == OrdV::NoOrd,
        q.range == (0usize, 0usize),
    ensures
        query_spec(t, q) == Ok::<Seq<usize>, crate::error::ErrKind>(
            all_indices(t.rows.len() as int),
        ),
{
    let preds = match q.predicates {
        Some(p) => p,
        None => Seq::<PredV>::empty(),
    };
    lemma_filtered_all(t, preds, t.rows.len() as int);
}

/// A predicate-free, unordered, unsliced query without header or
/// transposition yields exactly the rows of the table projected onto
/// the resolved output columns, in original row order.
pub proof fn lemma_predicate_free_projection(
    tabs: Seq<(Seq<char>, TableV)>,
    q: QueryV,
    t: TableV,
    ti: int,
    targets: Seq<crate::models::ColVarV>,
)
    requires
        match q.predicates {
            Some(p) => p.len() == 0,
            None => true,
        },
        q.order_type == OrdV::NoOrd,
        q.range == (0usize, 0usize),
        !q.flags.phd,
        !q.flags.tp,
        t.rows.len() <= usize::MAX,
        0 <= ti < tabs.len(),
        lookup_table(tabs, q.table_name) == ti,
        tabs[ti].1 == t,
        resolve_cols(t, q) == Ok::<Seq<crate::models::ColVarV>, crate::error::ErrKind>(targets),
    ensures
        index_table_spec(tabs, q) == Ok::<Seq<Seq<Seq<char>>>, crate::error::ErrKind>(
            Seq::new(t.rows.len(), |r: int| row_cells(t, r, targets)),
        ),
{
    lemma_predicate_free_rows(t, q);
    let all = all_indices(t.rows.len() as int);
    let goal = Seq::new(t.rows.len(), |r: int| row_cells(t, r, targets));
    assert forall|r: int| 0 <= r < t.rows.len() implies #[trigger] body_rows(t, all, targets)[r]
        == goal[r] by {
        assert(all[r] == r as usize);
        assert((r as usize) as int == r);
    }
    assert(body_rows(t, all, targets) =~= goal);
}

/// The engine's filter is exactly a filter of the row indices: what
/// [`filtered_upto`] keeps of the first `n` rows is the sequence of all
/// indices below `n` filtered by the predicates.
pub proof fn lemma_engine_filter_is_filter(t: TableV, preds: Seq<PredV>, n: int)
    requires
        0 <= n <= usize::MAX,
    ensures
        filtered_upto(t, preds, n) == filter_indices(t, preds, all_indices(n)),
    decreases n,
{
    reveal(Seq::filter);
    let pr = keeps(t, preds);
    if n == 0 {
        assert(all_indices(0) =~= Seq::<usize>::empty());
        assert(filtered_upto(t, preds, 0) =~= all_indices(0).filter(pr));
    } else {
        lemma_engine_filter_is_filter(t, preds, n - 1);
        assert(all_indices(n).drop_last() =~= all_indices(n - 1));
        assert(all_indices(n).last() == (n - 1) as usize);
        assert(((n - 1) as usize) as int == n - 1);
        if row_matches_all(t, preds, n - 1) {
            assert(filtered_upto(t, preds, n) == filtered_upto(t, preds, n - 1).push(
                (n - 1) as usize,
            ));
        }
    }
}

/// Filtering keeps only indices that pass, so a second pass with the
/// same predicate changes nothing.
proof fn lemma_filter_identity(s: Seq<usize>, pred: spec_fn(usize) -> bool)
    requires
        forall|i: int| 0 <= i < s.len() ==> pred(#[trigger] s[i]),
    ensures
        s.filter(pred) == s,
    decreases s.len(),
{
    reveal(Seq::filter);
    if s.len() > 0 {
        assert(forall|i: int| 0 <= i < s.drop_last().len() ==> pred(#[trigger] s.drop_last()[i]));
        lemma_filter_identity(s.drop_last(), pred);
        assert(s.filter(pred) =~= s);
    }
}

/// Filtering by an equality predicate is idempotent: filtering an
/// already-filtered sequence of row indices by the same predicate
/// returns it unchanged.
pub proof fn lemma_filter_idempotent(t: TableV, p: PredV, s: Seq<usize>)
    requires
        p.operation == Operator::Equal,
    ensures
        filter_indices(t, seq![p], filter_indices(t, seq![p], s)) == filter_indices(
            t,
            seq![p],
            s,
        ),
{
    let pr = keeps(t, seq![p]);
    let once = s.filter(pr);
    assert forall|i: int| 0 <= i < once.len() implies pr(#[trigger] once[i]) by {
        s.lemma_filter_pred(pr, i);
    }
    lemma_filter_identity(once, pr);
}

/// Transposing a rectangular matrix swaps its dimensions: the rows
/// become as many as the columns were, each as long as the rows were
/// many.
pub proof fn lemma_transpose_dims(m: Seq<Seq<Seq<char>>>)
    requires
        forall|r: int| 0 <= r < m.len() ==> (#[trigger] m[r]).len() == m[0].len(),
    ensures
        m.len() == 0 ==> transpose_spec(m).len() == 0,
        m.len() > 0 ==> transpose_spec(m).len() == m[0].len(),
        forall|c: int| 0 <= c < transpose_spec(m).len() ==> (#[trigger] transpose_spec(m)[c]).len()
            == m.len(),
{
}

/// Transposing twice returns the original matrix, for a rectangular
/// matrix whose rows are not empty.
pub proof fn lemma_transpose_involutive(m: Seq<Seq<Seq<char>>>)
    requires
        forall|r: int| 0 <= r < m.len() ==> (#[trigger] m[r]).len() == m[0].len(),
        m.len() > 0 ==> m[0].len() > 0,
    ensures
        transpose_spec(transpose_spec(m)) == m,
{
    if m.len() == 0 {
        assert(transpose_spec(transpose_spec(m)) =~= m);
    } else {
        let t = transpose_spec(m);
        assert(t.len() == m[0].len());
        assert(t.len() > 0);
        assert(t[0].len() == m.len());
        let tt = transpose_spec(t);
        assert forall|r: int| 0 <= r < tt.len() implies #[trigger] tt[r] == m[r] by {
            assert(tt[r] == transpose_row(t, r));
            assert forall|c: int| 0 <= c < m[0].len() implies #[trigger] transpose_row(t, r)[c]
                == m[r][c] by {
                assert(t[c] == transpose_row(m, c));
            }
            assert(transpose_row(t, r) =~= m[r]);
        }
        assert(tt =~= m);
    }
}

} // verus!
