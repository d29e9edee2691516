//! The tokenizer and the statement parser. The tokenizer is a
//! character-by-character automaton honoring quoted substrings and escape
//! characters; the parser drives a keyword-triggered cursor state machine
//! over the tokens and assembles a [`Query`].

use crate::error::{CIndexError, CIndexResult, ErrKind};
use crate::models::{OrdV, OrderType};
use crate::query::{
    flag_of_token, op_of_token, preds_view, Operator, PredV, Predicate, Query, QueryFlags, QueryV,
    Separator,
};
use crate::strutil::{
    chars_to_string, digits_val, eq_nocase, is_number, split_commas_spec, strip_dq_spec,
    trim_spec,
};
use vstd::prelude::*;

verus! {

broadcast use crate::strutil::lemma_dv_len, crate::strutil::lemma_dv_index;

/// The running state of the tokenizer automaton: quote mode, the
/// previously seen character, the token under construction, and the
/// finished tokens.
pub struct TokSt {
    pub on_quote: bool,
    pub previous: char,
    pub chunk: Seq<char>,
    pub tokens: Seq<Seq<char>>,
}

/// The tokenizer's starting state: unquoted, with a blank as the
/// previous character.
pub open spec fn tok_init() -> TokSt {
    TokSt { on_quote: false, previous: ' ', chunk: Seq::empty(), tokens: Seq::empty() }
}

/// One step of the tokenizer automaton. A backslash or a single quote
/// toggles quote mode unless escaped by a preceding backslash; an
/// unquoted blank closes the token under construction, and consecutive
/// unquoted blanks collapse; everything else extends the token.
pub open spec fn tok_step(st: TokSt, ch: char) -> TokSt {
    if ch == '\\' || ch == '\'' {
        if st.previous == '\\' {
            TokSt { previous: ' ', chunk: st.chunk.push(ch), ..st }
        } else {
            TokSt { on_quote: !st.on_quote, previous: ch, ..st }
        }
    } else if ch == ' ' {
        if !st.on_quote {
            if st.previous == ' ' {
                st
            } else {
                TokSt {
                    tokens: st.tokens.push(st.chunk),
                    chunk: Seq::empty(),
                    previous: ch,
                    ..st
                }
            }
        } else {
            TokSt { chunk: st.chunk.push(ch), ..st }
        }
    } else {
        TokSt { previous: ch, chunk: st.chunk.push(ch), ..st }
    }
}

/// The tokenizer automaton run over a whole sequence.
pub open spec fn tok_run(s: Seq<char>) -> TokSt
    decreases s.len(),
{
    if s.len() == 0 {
        tok_init()
    } else {
        tok_step(tok_run(s.drop_last()), s.last())
    }
}

/// The tokens of a statement string: the automaton's finished tokens,
/// with a trailing partial token still emitted.
pub open spec fn tokenize_spec(s: Seq<char>) -> Seq<Seq<char>> {
    let st = tok_run(s);
    if st.chunk.len() > 0 {
        st.tokens.push(st.chunk)
    } else {
        st.tokens
    }
}

/// Splits a statement into tokens, honoring single quotes and escape
/// characters; quoted blanks are kept, unquoted runs of blanks separate
/// tokens.
pub fn tokens_with_quote(source: &str) -> (r: Vec<String>)
    ensures
        r.deep_view() == tokenize_spec(source@),
{
    let len: usize = source.unicode_len();
    let mut tokens: Vec<String> = Vec::new();
    let mut on_quote: bool = false;
    let mut previous: char = ' ';
    let mut chunk: Vec<char> = Vec::new();
    let mut i: usize = 0;
    while i < len
        invariant
            i <= len,
            len == source@.len(),
            on_quote == tok_run(source@.subrange(0, i as int)).on_quote,
            previous == tok_run(source@.subrange(0, i as int)).previous,
            chunk@ == tok_run(source@.subrange(0, i as int)).chunk,
            tokens.deep_view() == tok_run(source@.subrange(0, i as int)).tokens,
        decreases len - i,
    {
        let ch = source.get_char(i);
        proof {
            assert(source@.subrange(0, i as int + 1).drop_last() =~= source@.subrange(
                0,
                i as int,
            ));
            assert(source@.subrange(0, i as int + 1).last() == ch);
        }
        if ch == '\\' || ch == '\'' {
            if previous == '\\' {
                previous = ' ';
                chunk.push(ch);
            } else {
                on_quote = !on_quote;
                previous = ch;
            }
        } else if ch == ' ' {
            if !on_quote {
                if previous != ' ' {
                    let flushed = chars_to_string(&chunk);
                    tokens.push(flushed);
                    chunk = Vec::new();
                    previous = ch;
                    proof {
                        let st = tok_run(source@.subrange(0, i as int));
                        assert(tokens.deep_view() =~= st.tokens.push(st.chunk));
                    }
                }
            } else {
                chunk.push(ch);
            }
        } else {
            previous = ch;
            chunk.push(ch);
        }
        i = i + 1;
    }
    proof {
        assert(source@.subrange(0, len as int) =~= source@);
    }
    if chunk.len() > 0 {
        let tail = chars_to_string(&chunk);
        tokens.push(tail);
        proof {
            let st = tok_run(source@);
            assert(tokens.deep_view() =~= st.tokens.push(st.chunk));
        }
    }
    tokens
}

/// Where the cursor state machine stands: which clause of the statement
/// the next content token belongs to. `OrderBy(false)` has seen `ORDER`
/// and awaits `BY`.
#[derive(Debug, PartialEq, Eq, Structural, Clone, Copy)]
pub enum ParseCursor {
    Idle,
    From,
    Select,
    Where,
    Join,
    OrderBy(bool),
    Limit,
    Offset,
    Hmap,
    Flag,
}

/// The three phases of reading one predicate: column name, operator,
/// argument tokens.
#[derive(Debug, PartialEq, Eq, Structural, Clone, Copy)]
pub enum WhereCursor {
    Left,
    Operator,
    Right,
}

/// The accumulator the parser fills while scanning tokens, mirroring the
/// query fields in raw string form.
#[derive(Debug)]
pub struct ParseState {
    pub table_name: String,
    pub raw_column_names: String,
    pub raw_column_map: Option<String>,
    pub where_args: Vec<String>,
    pub joined: Option<Vec<String>>,
    pub order_by: Vec<String>,
    pub flags: QueryFlags,
    pub range: (usize, usize),
}

/// The mathematical shape of a [`ParseState`].
#[verifier::ext_equal]
pub struct StateV {
    pub table_name: Seq<char>,
    pub raw_column_names: Seq<char>,
    pub raw_column_map: Option<Seq<char>>,
    pub where_args: Seq<Seq<char>>,
    pub joined: Option<Seq<Seq<char>>>,
    pub order_by: Seq<Seq<char>>,
    pub flags: QueryFlags,
    pub range: (usize, usize),
}

impl View for ParseState {
    type V = StateV;

    open spec fn view(&self) -> StateV {
        StateV {
            table_name: self.table_name@,
            raw_column_names: self.raw_column_names@,
            raw_column_map: match &self.raw_column_map {
                Some(m) => Some(m@),
                None => None,
            },
            where_args: self.where_args.deep_view(),
            joined: match &self.joined {
                Some(j) => Some(j.deep_view()),
                None => None,
            },
            order_by: self.order_by.deep_view(),
            flags: self.flags,
            range: self.range,
        }
    }
}

/// The empty accumulator.
pub open spec fn init_state() -> StateV {
    StateV {
        table_name: Seq::empty(),
        raw_column_names: Seq::empty(),
        raw_column_map: None,
        where_args: Seq::empty(),
        joined: None,
        order_by: Seq::empty(),
        flags: QueryFlags { phd: false, sup: false, tp: false },
        range: (0usize, 0usize),
    }
}

impl Default for ParseState {
    /// The empty accumulator.
    fn default() -> (r: Self)
        ensures
            r@ == init_state(),
    {
        let r = ParseState {
            table_name: String::new(),
            raw_column_names: String::new(),
            raw_column_map: None,
            where_args: Vec::new(),
            joined: None,
            order_by: Vec::new(),
            flags: QueryFlags::new(),
            range: (0, 0),
        };
        proof {
            assert(r.where_args.deep_view() =~= Seq::<Seq<char>>::empty());
            assert(r.order_by.deep_view() =~= Seq::<Seq<char>>::empty());
        }
        r
    }
}

/// The cursor a keyword token switches to, given the current cursor:
/// `BY` only advances an `ORDER` cursor, and a non-keyword gives `Idle`.
pub open spec fn cursor_candidate(cur: ParseCursor, w: Seq<char>) -> ParseCursor {
    if eq_nocase(w, "select"@) {
        ParseCursor::Select
    } else if eq_nocase(w, "where"@) {
        ParseCursor::Where
    } else if eq_nocase(w, "from"@) {
        ParseCursor::From
    } else if eq_nocase(w, "join"@) {
        ParseCursor::Join
    } else if eq_nocase(w, "hmap"@) {
        ParseCursor::Hmap
    } else if eq_nocase(w, "order"@) {
        ParseCursor::OrderBy(false)
    } else if eq_nocase(w, "by"@) {
        if cur == ParseCursor::OrderBy(false) {
            ParseCursor::OrderBy(true)
        } else {
            ParseCursor::Idle
        }
    } else if eq_nocase(w, "limit"@) {
        ParseCursor::Limit
    } else if eq_nocase(w, "offset"@) {
        ParseCursor::Offset
    } else if eq_nocase(w, "flag"@) {
        ParseCursor::Flag
    } else {
        ParseCursor::Idle
    }
}

/// What one content token does to the accumulator, after its surrounding
/// double quotes are stripped: routed by the current cursor, it replaces
/// the table name, extends the raw column spec blank-joined, joins the
/// predicate token buffer, the join list, the order-by list or the raw
/// rename-map buffer, raises a flag, or sets one bound of the range.
/// Unknown flag text and a non-numeric bound are statement errors.
pub open spec fn update_state_spec(cursor: ParseCursor, st: StateV, arg: Seq<char>) -> Result<
    (ParseCursor, StateV),
    ErrKind,
> {
    match cursor {
        ParseCursor::From => Ok((cursor, StateV { table_name: arg, ..st })),
        ParseCursor::Select => Ok(
            (
                cursor,
                StateV {
                    raw_column_names: if st.raw_column_names.len() == 0 {
                        arg
                    } else {
                        st.raw_column_names + seq![' '] + arg
                    },
                    ..st
                },
            ),
        ),
        ParseCursor::Where => Ok((cursor, StateV { where_args: st.where_args.push(arg), ..st })),
        ParseCursor::Join => Ok(
            (
                ParseCursor::Idle,
                StateV {
                    joined: match st.joined {
                        Some(j) => Some(j.push(arg)),
                        None => Some(seq![arg]),
                    },
                    ..st
                },
            ),
        ),
        ParseCursor::OrderBy(active) => if active {
            Ok((cursor, StateV { order_by: st.order_by.push(arg), ..st }))
        } else {
            Ok((cursor, st))
        },
        ParseCursor::Hmap => Ok(
            (
                cursor,
                StateV {
                    raw_column_map: match st.raw_column_map {
                        Some(m) => Some(m + arg),
                        None => Some(arg),
                    },
                    ..st
                },
            ),
        ),
        ParseCursor::Flag => match flag_of_token(arg) {
            Some(f) => Ok((cursor, StateV { flags: st.flags.spec_with(f), ..st })),
            None => Err(ErrKind::QueryStatement),
        },
        ParseCursor::Offset => if is_number(arg) && digits_val(arg) <= usize::MAX {
            Ok((cursor, StateV { range: (digits_val(arg) as usize, st.range.1), ..st }))
        } else {
            Err(ErrKind::QueryStatement)
        },
        ParseCursor::Limit => if is_number(arg) && digits_val(arg) <= usize::MAX {
            Ok((cursor, StateV { range: (st.range.0, digits_val(arg) as usize), ..st }))
        } else {
            Err(ErrKind::QueryStatement)
        },
        ParseCursor::Idle => Ok((cursor, st)),
    }
}

/// What one raw token does to cursor and accumulator: it is trimmed, an
/// empty remainder is skipped, a keyword switches the cursor, and any
/// other token is content for the current cursor.
pub open spec fn parse_step(cursor: ParseCursor, st: StateV, raw: Seq<char>) -> Result<
    (ParseCursor, StateV),
    ErrKind,
> {
    let w = trim_spec(raw);
    if w.len() == 0 {
        Ok((cursor, st))
    } else {
        let cand = cursor_candidate(cursor, w);
        if cand != cursor && cand != ParseCursor::Idle {
            Ok((cand, st))
        } else {
            update_state_spec(cursor, st, strip_dq_spec(w))
        }
    }
}

/// The cursor machine run over a token sequence from a given start.
pub open spec fn parse_run(
    cursor: ParseCursor,
    st: StateV,
    tokens: Seq<Seq<char>>,
) -> Result<(ParseCursor, StateV), ErrKind>
    decreases tokens.len(),
{
    if tokens.len() == 0 {
        Ok((cursor, st))
    } else {
        match parse_run(cursor, st, tokens.drop_last()) {
            Ok((c, s)) => parse_step(c, s, tokens.last()),
            Err(e) => Err(e),
        }
    }
}

/// The separator a token names: the literal tokens `AND` and `OR`,
/// matched exactly.
pub open spec fn sep_of(token: Seq<char>) -> Option<Separator> {
    if token == "AND"@ {
        Some(Separator::And)
    } else if token == "OR"@ {
        Some(Separator::Or)
    } else {
        None
    }
}

/// An empty predicate under construction.
pub open spec fn empty_pred() -> PredV {
    PredV {
        separator: Separator::And,
        column: Seq::empty(),
        operation: Operator::Equal,
        arguments: Seq::empty(),
        matcher: None,
    }
}

/// Finalization of one predicate: a `LIKE` predicate gets its last
/// argument installed as pattern matcher, a pattern the
/// regular-expression engine rejects being a statement error; a
/// predicate with no arguments is a statement error.
pub open spec fn chore_spec(p: PredV) -> Result<PredV, ErrKind> {
    if p.operation == Operator::Like {
        if p.arguments.len() == 0 {
            Err(ErrKind::QueryStatement)
        } else if !crate::pattern::regex_ok(p.arguments.last()) {
            Err(ErrKind::QueryStatement)
        } else {
            Ok(PredV { matcher: Some(p.arguments.last()), ..p })
        }
    } else {
        if p.arguments.len() == 0 {
            Err(ErrKind::QueryStatement)
        } else {
            Ok(p)
        }
    }
}

/// The running state of the predicate sub-parser: finished predicates,
/// the predicate under construction, and the phase cursor.
#[verifier::ext_equal]
pub struct WSt {
    pub preds: Seq<PredV>,
    pub cur: PredV,
    pub wcursor: WhereCursor,
}

/// One step of the predicate sub-parser. A separator token finalizes the
/// predicate under construction, pushes it if its column is non-empty,
/// and starts a new one tagged with that separator; any other token is
/// the column name, the operator or one argument, by phase. An
/// unsupported operator token is a statement error.
pub open spec fn wstep(st: WSt, token: Seq<char>) -> Result<WSt, ErrKind> {
    match sep_of(token) {
        Some(sep) => match chore_spec(st.cur) {
            Ok(done) => Ok(
                WSt {
                    preds: if done.column.len() > 0 {
                        st.preds.push(done)
                    } else {
                        st.preds
                    },
                    cur: PredV { separator: sep, ..empty_pred() },
                    wcursor: WhereCursor::Left,
                },
            ),
            Err(e) => Err(e),
        },
        None => match st.wcursor {
            WhereCursor::Left => Ok(
                WSt {
                    cur: PredV { column: token, ..st.cur },
                    wcursor: WhereCursor::Operator,
                    ..st
                },
            ),
            WhereCursor::Operator => match op_of_token(token) {
                Some(op) => Ok(
                    WSt {
                        cur: PredV { operation: op, ..st.cur },
                        wcursor: WhereCursor::Right,
                        ..st
                    },
                ),
                None => Err(ErrKind::QueryStatement),
            },
            WhereCursor::Right => Ok(
                WSt { cur: PredV { arguments: st.cur.arguments.push(token), ..st.cur }, ..st },
            ),
        },
    }
}

/// The predicate sub-parser run over the buffered predicate tokens.
pub open spec fn wrun(tokens: Seq<Seq<char>>) -> Result<WSt, ErrKind>
    decreases tokens.len(),
{
    if tokens.len() == 0 {
        Ok(WSt { preds: Seq::empty(), cur: empty_pred(), wcursor: WhereCursor::Left })
    } else {
        match wrun(tokens.drop_last()) {
            Ok(st) => wstep(st, tokens.last()),
            Err(e) => Err(e),
        }
    }
}

/// The predicates of the buffered predicate tokens: the sub-parser's
/// finished predicates, with a last in-progress predicate finalized and
/// pushed when its column is non-empty.
pub open spec fn preds_spec(tokens: Seq<Seq<char>>) -> Result<Seq<PredV>, ErrKind> {
    match wrun(tokens) {
        Ok(st) => if st.cur.column.len() > 0 {
            match chore_spec(st.cur) {
                Ok(done) => Ok(st.preds.push(done)),
                Err(e) => Err(e),
            }
        } else {
            Ok(st.preds)
        },
        Err(e) => Err(e),
    }
}

/// The order specification of the buffered order-by tokens: none for no
/// token, a lone column orders ascending, a column and a direction word
/// order as the word says, and extra tokens are ignored. A direction
/// word other than `ASEC` or `DESC` is a statement error.
pub open spec fn order_spec_of(order_by: Seq<Seq<char>>) -> Result<OrdV, ErrKind> {
    if order_by.len() == 0 {
        Ok(OrdV::NoOrd)
    } else if order_by.len() == 1 {
        Ok(OrdV::Asc(order_by[0]))
    } else {
        match crate::models::parse_order_spec(order_by[1], order_by[0]) {
            Some(o) => Ok(o),
            None => Err(ErrKind::QueryStatement),
        }
    }
}

/// Each piece trimmed of surrounding whitespace.
pub open spec fn trim_all(s: Seq<Seq<char>>) -> Seq<Seq<char>> {
    s.map_values(|c: Seq<char>| trim_spec(c))
}

/// The query a finished accumulator describes: predicates built from the
/// predicate buffer, order from the order-by buffer, the raw column spec
/// split on commas and trimmed, the rename-map buffer split on commas.
pub open spec fn finalize_spec(st: StateV) -> Result<QueryV, ErrKind> {
    match preds_spec(st.where_args) {
        Ok(preds) => match order_spec_of(st.order_by) {
            Ok(ord) => Ok(
                QueryV {
                    table_name: st.table_name,
                    column_names: trim_all(split_commas_spec(st.raw_column_names)),
                    column_map: match st.raw_column_map {
                        Some(m) => Some(split_commas_spec(m)),
                        None => None,
                    },
                    predicates: Some(preds),
                    order_type: ord,
                    flags: st.flags,
                    range: st.range,
                    joined_tables: st.joined,
                },
            ),
            Err(e) => Err(e),
        },
        Err(e) => Err(e),
    }
}

/// What parsing a token sequence from a given start yields: the cursor
/// machine's accumulator, finalized.
pub open spec fn parse_spec(
    cursor: ParseCursor,
    st: StateV,
    tokens: Seq<Seq<char>>,
) -> Result<QueryV, ErrKind> {
    match parse_run(cursor, st, tokens) {
        Ok((_, s)) => finalize_spec(s),
        Err(e) => Err(e),
    }
}

/// The statement parser: a cursor state machine over the statement's
/// tokens.
pub struct Parser {
    pub cursor: ParseCursor,
    pub state: ParseState,
}

impl Parser {
    /// A fresh parser: idle cursor, empty accumulator.
    pub fn new() -> (r: Self)
        ensures
            r.cursor == ParseCursor::Idle,
            r.state@ == init_state(),
    {
        Parser { cursor: ParseCursor::Idle, state: ParseState::default() }
    }

    /// Switches the cursor when the token is a keyword other than the
    /// current cursor; reports whether it switched.
    pub fn set_cursor(&mut self, arg: &str) -> (r: bool)
        ensures
            r == (cursor_candidate(old(self).cursor, arg@) != old(self).cursor
                && cursor_candidate(old(self).cursor, arg@) != ParseCursor::Idle),
            r ==> final(self).cursor == cursor_candidate(old(self).cursor, arg@),
            !r ==> final(self).cursor == old(self).cursor,
            final(self).state == old(self).state,
    {
        let candidate = if crate::strutil::ascii_eq_nocase(arg, "select") {
            ParseCursor::Select
        } else if crate::strutil::ascii_eq_nocase(arg, "where") {
            ParseCursor::Where
        } else if crate::strutil::ascii_eq_nocase(arg, "from") {
            ParseCursor::From
        } else if crate::strutil::ascii_eq_nocase(arg, "join") {
            ParseCursor::Join
        } else if crate::strutil::ascii_eq_nocase(arg, "hmap") {
            ParseCursor::Hmap
        } else if crate::strutil::ascii_eq_nocase(arg, "order") {
            ParseCursor::OrderBy(false)
        } else if crate::strutil::ascii_eq_nocase(arg, "by") {
            if self.cursor == ParseCursor::OrderBy(false) {
                ParseCursor::OrderBy(true)
            } else {
                ParseCursor::Idle
            }
        } else if crate::strutil::ascii_eq_nocase(arg, "limit") {
            ParseCursor::Limit
        } else if crate::strutil::ascii_eq_nocase(arg, "offset") {
            ParseCursor::Offset
        } else if crate::strutil::ascii_eq_nocase(arg, "flag") {
            ParseCursor::Flag
        } else {
            ParseCursor::Idle
        };

        if candidate != self.cursor && candidate != ParseCursor::Idle {
            self.cursor = candidate;
            true
        } else {
            false
        }
    }

    /// Routes one content token to the accumulator of the current
    /// cursor, stripping its surrounding double quotes first.
    pub fn update_state(&mut self, arg: &str) -> (r: CIndexResult<()>)
        ensures
            update_state_spec(old(self).cursor, old(self).state@, strip_dq_spec(arg@)) matches Ok(
                (c, s),
            ) ==> r is Ok && final(self).cursor == c && final(self).state@ == s,
            update_state_spec(old(self).cursor, old(self).state@, strip_dq_spec(arg@)) matches Err(
                k,
            ) ==> r is Err && (r matches Err(e) && e.kind() == k) && *final(self) == *old(self),
    {
        let a = crate::strutil::strip_dquotes(arg);
        match self.cursor {
            ParseCursor::From => {
                self.state.table_name = a;
            },
            ParseCursor::Select => {
                if self.state.raw_column_names.as_str().is_empty() {
                    self.state.raw_column_names = a;
                } else {
                    self.state.raw_column_names.append(" ");
                    self.state.raw_column_names.append(a.as_str());
                    proof {
                        reveal_strlit(" ");
                        assert(self.state.raw_column_names@ =~= old(self).state.raw_column_names@
                            + seq![' '] + a@);
                    }
                }
            },
            ParseCursor::Where => {
                self.state.where_args.push(a);
                proof {
                    assert(self.state.where_args.deep_view() =~= old(
                        self,
                    ).state.where_args.deep_view().push(a@));
                }
            },
            ParseCursor::Join => {
                match &mut self.state.joined {
                    Some(v) => {
                        let ghost oldv = v.deep_view();
                        v.push(a);
                        proof {
                            assert(v.deep_view() =~= oldv.push(a@));
                        }
                    },
                    None => {
                        let mut v: Vec<String> = Vec::new();
                        v.push(a);
                        proof {
                            assert(v.deep_view() =~= seq![a@]);
                        }
                        self.state.joined = Some(v);
                    },
                }
                self.cursor = ParseCursor::Idle;
            },
            ParseCursor::OrderBy(active) => {
                if active {
                    self.state.order_by.push(a);
                    proof {
                        assert(self.state.order_by.deep_view() =~= old(
                            self,
                        ).state.order_by.deep_view().push(a@));
                    }
                }
            },
            ParseCursor::Hmap => {
                match &mut self.state.raw_column_map {
                    Some(m) => {
                        m.append(a.as_str());
                    },
                    None => {
                        self.state.raw_column_map = Some(a);
                    },
                }
            },
            ParseCursor::Flag => {
                match self.state.flags.set(a.as_str()) {
                    Ok(()) => {},
                    Err(e) => {
                        return Err(e);
                    },
                }
            },
            ParseCursor::Offset => {
                match crate::strutil::parse_usize(a.as_str()) {
                    Some(v) => {
                        self.state.range.0 = v;
                    },
                    None => {
                        return Err(
                            CIndexError::InvalidQueryStatement(
                                String::from_str("Offset's argument should be a usize value"),
                            ),
                        );
                    },
                }
            },
            ParseCursor::Limit => {
                match crate::strutil::parse_usize(a.as_str()) {
                    Some(v) => {
                        self.state.range.1 = v;
                    },
                    None => {
                        return Err(
                            CIndexError::InvalidQueryStatement(
                                String::from_str("Limit's argument should be a usize value"),
                            ),
                        );
                    },
                }
            },
            ParseCursor::Idle => {},
        }
        Ok(())
    }

    /// The separator a token names, if any.
    pub fn find_separator(&self, token: &str) -> (r: Option<Separator>)
        ensures
            r == sep_of(token@),
    {
        if crate::strutil::str_eq(token, "AND") {
            Some(Separator::And)
        } else if crate::strutil::str_eq(token, "OR") {
            Some(Separator::Or)
        } else {
            None
        }
    }

    /// Finalizes one predicate, as [`chore_spec`] says.
    fn predicate_chore(predicate: &mut Predicate) -> (r: CIndexResult<()>)
        ensures
            chore_spec(old(predicate)@) matches Ok(p) ==> r is Ok && final(predicate)@ == p,
            chore_spec(old(predicate)@) matches Err(k) ==> r is Err && (r matches Err(e)
                && e.kind() == k) && *final(predicate) == *old(predicate),
    {
        if predicate.operation == Operator::Like {
            let n = predicate.arguments.len();
            if n == 0 {
                return Err(
                    CIndexError::InvalidQueryStatement(
                        String::from_str("Like requires argument to be a valid query"),
                    ),
                );
            }
            let pat = predicate.arguments[n - 1].clone();
            proof {
                assert(pat@ == old(predicate)@.arguments.last());
            }
            match predicate.set_matcher(pat.as_str()) {
                Ok(()) => {},
                Err(e) => {
                    return Err(e);
                },
            }
        }
        if predicate.arguments.len() == 0 {
            return Err(
                CIndexError::InvalidQueryStatement(
                    String::from_str("Query has insufficient arguments"),
                ),
            );
        }
        Ok(())
    }

    /// Builds the predicate list from the buffered predicate tokens, as
    /// [`preds_spec`] says.
    fn get_predicates(&self) -> (r: CIndexResult<Option<Vec<Predicate>>>)
        ensures
            preds_spec(self.state@.where_args) matches Ok(ps) ==> (r matches Ok(o) && o matches Some(
                v,
            ) && preds_view(v@) == ps),
            preds_spec(self.state@.where_args) matches Err(k) ==> (r matches Err(e) && e.kind()
                == k),
    {
        let ghost toks = self.state@.where_args;
        let n = self.state.where_args.len();
        let mut predicates: Vec<Predicate> = Vec::new();
        let mut p = Predicate::build();
        let mut w_cursor = WhereCursor::Left;
        proof {
            assert(preds_view(predicates@) =~= Seq::<PredV>::empty());
            assert(toks.subrange(0, 0) =~= Seq::<Seq<char>>::empty());
        }
        let mut i: usize = 0;
        while i < n
            invariant
                i <= n,
                n == toks.len(),
                toks == self.state@.where_args,
                wrun(toks.subrange(0, i as int)) == Ok::<WSt, ErrKind>(
                    WSt { preds: preds_view(predicates@), cur: p@, wcursor: w_cursor },
                ),
            decreases n - i,
        {
            proof {
                assert(toks.subrange(0, i as int + 1).drop_last() =~= toks.subrange(0, i as int));
                assert(toks.subrange(0, i as int + 1).last() == toks[i as int]);
            }
            let token = &self.state.where_args[i];
            proof {
                assert(token@ == toks[i as int]);
            }
            let ghost pre_wst = WSt { preds: preds_view(predicates@), cur: p@, wcursor: w_cursor };
            match self.find_separator(token.as_str()) {
                Some(sep) => {
                    match Self::predicate_chore(&mut p) {
                        Ok(()) => {},
                        Err(e) => {
                            proof {
                                assert(wstep(pre_wst, toks[i as int]) == Err::<WSt, ErrKind>(
                                    e.kind(),
                                ));
                                assert(wrun(toks.subrange(0, i as int + 1)) == Err::<
                                    WSt,
                                    ErrKind,
                                >(e.kind()));
                                lemma_wrun_extend_err(toks, i as int + 1, e.kind());
                            }
                            return Err(e);
                        },
                    }
                    if !p.column.as_str().is_empty() {
                        let ghost done = p@;
                        predicates.push(p);
                        proof {
                            assert(preds_view(predicates@) =~= pre_wst.preds.push(done));
                        }
                    }
                    p = Predicate::build();
                    p.set_separator(sep);
                    w_cursor = WhereCursor::Left;
                    proof {
                        assert(p@ =~~= (PredV { separator: sep, ..empty_pred() }));
                        assert(wstep(pre_wst, toks[i as int]) == Ok::<WSt, ErrKind>(
                            WSt { preds: preds_view(predicates@), cur: p@, wcursor: w_cursor },
                        ));
                    }
                },
                None => {
                    match w_cursor {
                        WhereCursor::Left => {
                            p.set_column(token.as_str());
                            w_cursor = WhereCursor::Operator;
                        },
                        WhereCursor::Operator => {
                            match Operator::from_token(token.as_str()) {
                                Ok(op) => {
                                    p.set_operator(op);
                                    w_cursor = WhereCursor::Right;
                                },
                                Err(e) => {
                                    proof {
                                        assert(wstep(pre_wst, toks[i as int]) == Err::<
                                            WSt,
                                            ErrKind,
                                        >(e.kind()));
                                        assert(wrun(toks.subrange(0, i as int + 1)) == Err::<
                                            WSt,
                                            ErrKind,
                                        >(e.kind()));
                                        lemma_wrun_extend_err(toks, i as int + 1, e.kind());
                                    }
                                    return Err(e);
                                },
                            }
                        },
                        WhereCursor::Right => {
                            p.add_arg(token.as_str());
                        },
                    }
                    proof {
                        assert(wstep(pre_wst, toks[i as int]) == Ok::<WSt, ErrKind>(
                            WSt { preds: preds_view(predicates@), cur: p@, wcursor: w_cursor },
                        ));
                    }
                },
            }
            i = i + 1;
        }
        proof {
            assert(toks.subrange(0, n as int) =~= toks);
        }
        if !p.column.as_str().is_empty() {
            match Self::predicate_chore(&mut p) {
                Ok(()) => {},
                Err(e) => {
                    return Err(e);
                },
            }
            let ghost done = p@;
            let ghost before = preds_view(predicates@);
            predicates.push(p);
            proof {
                assert(preds_view(predicates@) =~= before.push(done));
            }
        }
        Ok(Some(predicates))
    }
}

/// Once the predicate sub-parser fails on a token, the whole run fails
/// the same way.
proof fn lemma_wrun_extend_err(tokens: Seq<Seq<char>>, j: int, k: ErrKind)
    requires
        0 <= j <= tokens.len(),
        wrun(tokens.subrange(0, j)) == Err::<WSt, ErrKind>(k),
    ensures
        wrun(tokens) == Err::<WSt, ErrKind>(k),
    decreases tokens.len() - j,
{
    if j == tokens.len() {
        assert(tokens.subrange(0, j) =~= tokens);
    } else {
        assert(tokens.subrange(0, j + 1).drop_last() =~= tokens.subrange(0, j));
        lemma_wrun_extend_err(tokens, j + 1, k);
    }
}

/// Once the cursor machine fails on a token, the whole run fails the
/// same way.
proof fn lemma_parse_run_extend_err(
    cursor: ParseCursor,
    st: StateV,
    tokens: Seq<Seq<char>>,
    j: int,
    k: ErrKind,
)
    requires
        0 <= j <= tokens.len(),
        parse_run(cursor, st, tokens.subrange(0, j)) == Err::<(ParseCursor, StateV), ErrKind>(k),
    ensures
        parse_run(cursor, st, tokens) == Err::<(ParseCursor, StateV), ErrKind>(k),
    decreases tokens.len() - j,
{
    if j == tokens.len() {
        assert(tokens.subrange(0, j) =~= tokens);
    } else {
        assert(tokens.subrange(0, j + 1).drop_last() =~= tokens.subrange(0, j));
        lemma_parse_run_extend_err(cursor, st, tokens, j + 1, k);
    }
}

impl Parser {
    /// Parses a whole statement: tokenizes it, runs the cursor machine
    /// over the tokens from this parser's current state, and finalizes
    /// the accumulator into a query, as [`parse_spec`] says.
    pub fn parse(&mut self, query: &str) -> (r: CIndexResult<Query>)
        ensures
            parse_spec(old(self).cursor, old(self).state@, tokenize_spec(query@)) matches Ok(qv)
                ==> (r matches Ok(q) && q@ == qv),
            parse_spec(old(self).cursor, old(self).state@, tokenize_spec(query@)) matches Err(k)
                ==> (r matches Err(e) && e.kind() == k),
    {
        let ghost c0 = old(self).cursor;
        let ghost s0 = old(self).state@;
        let split = tokens_with_quote(query);
        let ghost toks = tokenize_spec(query@);
        let n = split.len();
        proof {
            assert(toks.subrange(0, 0) =~= Seq::<Seq<char>>::empty());
        }
        let mut i: usize = 0;
        while i < n
            invariant
                i <= n,
                n == toks.len(),
                split.deep_view() == toks,
                c0 == old(self).cursor,
                s0 == old(self).state@,
                toks == tokenize_spec(query@),
                parse_run(c0, s0, toks.subrange(0, i as int)) == Ok::<(ParseCursor, StateV), ErrKind>(
                    (self.cursor, self.state@),
                ),
            decreases n - i,
        {
            proof {
                assert(toks.subrange(0, i as int + 1).drop_last() =~= toks.subrange(0, i as int));
                assert(toks.subrange(0, i as int + 1).last() == toks[i as int]);
                assert(split.deep_view()[i as int] == split@[i as int]@);
            }
            let ghost cur0 = self.cursor;
            let ghost st0 = self.state@;
            let word = crate::strutil::trim_str(split[i].as_str());
            proof {
                assert(word@ == trim_spec(toks[i as int]));
            }
            if !word.as_str().is_empty() {
                if !self.set_cursor(word.as_str()) {
                    match self.update_state(word.as_str()) {
                        Ok(()) => {},
                        Err(e) => {
                            proof {
                                assert(update_state_spec(cur0, st0, strip_dq_spec(word@))
                                    matches Err(k) && e.kind() == k);
                                assert(parse_step(cur0, st0, toks[i as int]) == Err::<
                                    (ParseCursor, StateV),
                                    ErrKind,
                                >(e.kind()));
                                assert(parse_run(c0, s0, toks.subrange(0, i as int + 1)) == Err::<
                                    (ParseCursor, StateV),
                                    ErrKind,
                                >(e.kind()));
                                lemma_parse_run_extend_err(c0, s0, toks, i as int + 1, e.kind());
                            }
                            return Err(e);
                        },
                    }
                }
            }
            proof {
                assert(parse_step(cur0, st0, toks[i as int]) == Ok::<
                    (ParseCursor, StateV),
                    ErrKind,
                >((self.cursor, self.state@)));
            }
            i = i + 1;
        }
        proof {
            assert(toks.subrange(0, n as int) =~= toks);
        }
        let preds_opt = match self.get_predicates() {
            Ok(o) => o,
            Err(e) => {
                return Err(e);
            },
        };
        let mut finished = ParseState::default();
        core::mem::swap(&mut self.state, &mut finished);
        let ghost fin = finished@;

        let order_type: OrderType = if finished.order_by.len() == 0 {
            OrderType::NoOrder
        } else if finished.order_by.len() == 1 {
            proof {
                reveal_strlit("ASEC");
                reveal_strlit("asec");
                assert(eq_nocase("ASEC"@, "asec"@));
            }
            match OrderType::from_str("ASEC", finished.order_by[0].as_str()) {
                Ok(o) => o,
                Err(e) => {
                    return Err(e);
                },
            }
        } else {
            proof {
                assert(fin.order_by[1] == finished.order_by@[1]@);
            }
            match OrderType::from_str(
                finished.order_by[1].as_str(),
                finished.order_by[0].as_str(),
            ) {
                Ok(o) => o,
                Err(e) => {
                    return Err(e);
                },
            }
        };

        let column_map: Option<Vec<String>> = match &finished.raw_column_map {
            Some(m) => Some(crate::strutil::split_commas(m.as_str())),
            None => None,
        };

        let pieces = crate::strutil::split_commas(finished.raw_column_names.as_str());
        let ghost target = trim_all(split_commas_spec(fin.raw_column_names));
        let mut columns: Vec<String> = Vec::new();
        proof {
            assert(columns.deep_view() =~= target.subrange(0, 0));
        }
        let m = pieces.len();
        let mut j: usize = 0;
        while j < m
            invariant
                j <= m,
                m == pieces@.len(),
                pieces.deep_view() == split_commas_spec(fin.raw_column_names),
                target == trim_all(split_commas_spec(fin.raw_column_names)),
                columns.deep_view() == target.subrange(0, j as int),
            decreases m - j,
        {
            let piece = crate::strutil::trim_str(pieces[j].as_str());
            let ghost piece_v = piece@;
            columns.push(piece);
            proof {
                assert(pieces.deep_view()[j as int] == pieces@[j as int]@);
                assert(target[j as int] == trim_spec(pieces@[j as int]@));
                assert(columns@[j as int]@ == piece_v);
                assert(columns.deep_view()[j as int] == piece_v);
                assert(columns.deep_view() =~= target.subrange(0, j as int + 1));
            }
            j = j + 1;
        }
        proof {
            assert(columns.deep_view() =~= target);
        }

        let q = Query::new(
            finished.table_name,
            columns,
            preds_opt,
            finished.joined,
            order_type,
            column_map,
            finished.flags,
            finished.range,
        );
        proof {
            let qv = parse_spec(c0, s0, toks).unwrap();
            assert(q@ =~~= qv);
        }
        Ok(q)
    }
}

} // verus!
