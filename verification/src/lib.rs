//! An in-memory relational query evaluator over tabular data.
//!
//! A restricted SQL-like statement is tokenized, parsed into a query value,
//! and executed against a named table; the result is a filtered, ordered,
//! projected, optionally paginated and transposed matrix of cell strings.

mod error;
mod indexer;
mod laws;
mod models;
mod parser;
mod pattern;
mod query;
mod strutil;
mod table;

pub use error::{CIndexError, CIndexResult, ErrKind};
pub use indexer::{
    body_rows, format_records, index_table_spec, labels_of, lookup_table, render_spec,
    resolve_cols, row_cells, tabs_view, transpose_row, transpose_spec, Indexer, RSt,
};
pub use laws::{
    all_indices, filter_indices, keeps, lemma_engine_filter_is_filter, lemma_filter_idempotent,
    lemma_predicate_free_projection,
    lemma_predicate_free_rows, lemma_transpose_dims, lemma_transpose_involutive,
};
pub use models::{ColVarV, ColumnVariant, OrdV, OrderType};
pub use parser::{
    tokenize_spec, tokens_with_quote, ParseCursor, ParseState, Parser, StateV, WhereCursor,
};
pub use query::{Operator, PredV, Predicate, Query, QueryFlagType, QueryFlags, QueryV, Separator};
pub use strutil::{lex_le, lex_lt, str_compare, str_eq, CmpRes};
pub use table::{
    cell_at, filtered_upto, lemma_key_le_total, lemma_sort_permutes, lemma_sort_sorted,
    lemma_sort_stable, paginate, precedes, pred_eval, query_spec, row_matches_all, sort_idx,
    sorted_by_key, Data, DataType, DataV, Table, TableV,
};
