//! The statement model: operators, logical separators, flags, predicates
//! and the query value that the parser assembles and the engine consumes.

use crate::error::{CIndexError, CIndexResult, ErrKind};
use crate::models::{OrdV, OrderType};
use crate::pattern::regex_ok;
use crate::strutil::{eq_nocase, split_char_spec};
use vstd::prelude::*;

verus! {

/// Comparison operator of a predicate.
#[derive(Debug, PartialEq, Eq, Structural, Clone, Copy)]
pub enum Operator {
    Bigger,
    BiggerOrEqual,
    Smaller,
    SmallerOrEqual,
    Equal,
    NotEqual,
    Like,
    Between,
    In,
}

/// The operator a token names, case-insensitively; `None` for an
/// unsupported operator token.
pub open spec fn op_of_token(t: Seq<char>) -> Option<Operator> {
    if eq_nocase(t, ">"@) {
        Some(Operator::Bigger)
    } else if eq_nocase(t, ">="@) {
        Some(Operator::BiggerOrEqual)
    } else if eq_nocase(t, "<"@) {
        Some(Operator::Smaller)
    } else if eq_nocase(t, "<="@) {
        Some(Operator::SmallerOrEqual)
    } else if eq_nocase(t, "="@) {
        Some(Operator::Equal)
    } else if eq_nocase(t, "!="@) {
        Some(Operator::NotEqual)
    } else if eq_nocase(t, "between"@) {
        Some(Operator::Between)
    } else if eq_nocase(t, "in"@) {
        Some(Operator::In)
    } else if eq_nocase(t, "like"@) {
        Some(Operator::Like)
    } else {
        None
    }
}

impl Operator {
    /// Resolves an operator token; unsupported text is a statement error.
    pub fn from_token(token: &str) -> (r: CIndexResult<Self>)
        ensures
            r is Ok <==> op_of_token(token@) is Some,
            r matches Ok(op) ==> op_of_token(token@) == Some(op),
            r matches Err(e) ==> e.kind() == ErrKind::QueryStatement,
    {
        if crate::strutil::ascii_eq_nocase(token, ">") {
            Ok(Self::Bigger)
        } else if crate::strutil::ascii_eq_nocase(token, ">=") {
            Ok(Self::BiggerOrEqual)
        } else if crate::strutil::ascii_eq_nocase(token, "<") {
            Ok(Self::Smaller)
        } else if crate::strutil::ascii_eq_nocase(token, "<=") {
            Ok(Self::SmallerOrEqual)
        } else if crate::strutil::ascii_eq_nocase(token, "=") {
            Ok(Self::Equal)
        } else if crate::strutil::ascii_eq_nocase(token, "!=") {
            Ok(Self::NotEqual)
        } else if crate::strutil::ascii_eq_nocase(token, "between") {
            Ok(Self::Between)
        } else if crate::strutil::ascii_eq_nocase(token, "in") {
            Ok(Self::In)
        } else if crate::strutil::ascii_eq_nocase(token, "like") {
            Ok(Self::Like)
        } else {
            Err(CIndexError::InvalidQueryStatement(String::from_str("Unsupported operator")))
        }
    }
}

/// Logical separator recorded per predicate. It is carried through
/// parsing but filtering always requires every predicate to hold.
#[derive(Debug, PartialEq, Eq, Structural, Clone, Copy)]
pub enum Separator {
    And,
    Or,
}

/// A named boolean query modifier.
#[derive(Debug, PartialEq, Eq, Structural, Clone, Copy, Hash)]
pub enum QueryFlagType {
    Phd,
    Sup,
    TP,
}

/// The flag set of a query: print-header, supplement, transpose.
#[derive(Debug, PartialEq, Eq, Structural, Clone, Copy)]
pub struct QueryFlags {
    pub phd: bool,
    pub sup: bool,
    pub tp: bool,
}

/// The flag a token names, case-insensitively; `None` for unknown text.
pub open spec fn flag_of_token(t: Seq<char>) -> Option<QueryFlagType> {
    if eq_nocase(t, "phd"@) || eq_nocase(t, "print-header"@) {
        Some(QueryFlagType::Phd)
    } else if eq_nocase(t, "sup"@) || eq_nocase(t, "supplment"@) {
        Some(QueryFlagType::Sup)
    } else if eq_nocase(t, "tp"@) || eq_nocase(t, "tranpose"@) {
        Some(QueryFlagType::TP)
    } else {
        None
    }
}

impl QueryFlags {
    /// Whether a flag is set.
    pub open spec fn spec_has(self, flag: QueryFlagType) -> bool {
        match flag {
            QueryFlagType::Phd => self.phd,
            QueryFlagType::Sup => self.sup,
            QueryFlagType::TP => self.tp,
        }
    }

    /// The flag set with one more flag raised.
    pub open spec fn spec_with(self, flag: QueryFlagType) -> QueryFlags {
        match flag {
            QueryFlagType::Phd => QueryFlags { phd: true, ..self },
            QueryFlagType::Sup => QueryFlags { sup: true, ..self },
            QueryFlagType::TP => QueryFlags { tp: true, ..self },
        }
    }

    /// The empty flag set.
    pub fn new() -> (r: Self)
        ensures
            r == (QueryFlags { phd: false, sup: false, tp: false }),
    {
        QueryFlags { phd: false, sup: false, tp: false }
    }

    /// Clear all flags.
    pub fn clear(&mut self)
        ensures
            *final(self) == (QueryFlags { phd: false, sup: false, tp: false }),
    {
        self.phd = false;
        self.sup = false;
        self.tp = false;
    }

    /// Whether a flag is set.
    pub fn contains(&self, flag: QueryFlagType) -> (r: bool)
        ensures
            r == self.spec_has(flag),
    {
        match flag {
            QueryFlagType::Phd => self.phd,
            QueryFlagType::Sup => self.sup,
            QueryFlagType::TP => self.tp,
        }
    }

    /// Raises the flag a token names; unknown flag text is a statement
    /// error and leaves the set unchanged.
    pub fn set(&mut self, flag: &str) -> (r: CIndexResult<()>)
        ensures
            r is Ok <==> flag_of_token(flag@) is Some,
            flag_of_token(flag@) matches Some(f) ==> *final(self) == old(self).spec_with(f),
            r is Err ==> *final(self) == *old(self),
            r matches Err(e) ==> e.kind() == ErrKind::QueryStatement,
    {
        if crate::strutil::ascii_eq_nocase(flag, "phd") || crate::strutil::ascii_eq_nocase(
            flag,
            "print-header",
        ) {
            self.phd = true;
            Ok(())
        } else if crate::strutil::ascii_eq_nocase(flag, "sup") || crate::strutil::ascii_eq_nocase(
            flag,
            "supplment",
        ) {
            self.sup = true;
            Ok(())
        } else if crate::strutil::ascii_eq_nocase(flag, "tp") || crate::strutil::ascii_eq_nocase(
            flag,
            "tranpose",
        ) {
            self.tp = true;
            Ok(())
        } else {
            Err(CIndexError::InvalidQueryStatement(String::from_str("Invalid query flag")))
        }
    }
}

impl Default for QueryFlags {
    /// The empty flag set.
    fn default() -> (r: Self)
        ensures
            r == (QueryFlags { phd: false, sup: false, tp: false }),
    {
        QueryFlags::new()
    }
}

impl core::str::FromStr for Query {
    type Err = CIndexError;

    /// Parses a statement with a fresh parser.
    fn from_str(s: &str) -> Result<Self, Self::Err> {
        crate::parser::Parser::new().parse(s)
    }
}

/// The mathematical shape of a [`Predicate`].
#[verifier::ext_equal]
pub struct PredV {
    pub separator: Separator,
    pub column: Seq<char>,
    pub operation: Operator,
    pub arguments: Seq<Seq<char>>,
    pub matcher: Option<Seq<char>>,
}

/// A single column test used to filter rows: column name, operator,
/// argument list, and, for `LIKE`, a pattern validated against the
/// regular-expression engine when it was installed.
#[derive(Debug)]
pub struct Predicate {
    pub separator: Separator,
    pub column: String,
    pub operation: Operator,
    pub arguments: Vec<String>,
    pub matcher: Option<String>,
}

impl View for Predicate {
    type V = PredV;

    open spec fn view(&self) -> PredV {
        PredV {
            separator: self.separator,
            column: self.column@,
            operation: self.operation,
            arguments: self.arguments.deep_view(),
            matcher: match &self.matcher {
                Some(p) => Some(p@),
                None => None,
            },
        }
    }
}

impl Predicate {
    /// An empty predicate: `AND`, empty column, `=`, no arguments.
    pub fn build() -> (r: Self)
        ensures
            r@ == (PredV {
                separator: Separator::And,
                column: Seq::<char>::empty(),
                operation: Operator::Equal,
                arguments: Seq::<Seq<char>>::empty(),
                matcher: None,
            }),
    {
        let r = Predicate {
            separator: Separator::And,
            column: String::new(),
            operation: Operator::Equal,
            arguments: Vec::new(),
            matcher: None,
        };
        proof {
            assert(r.arguments.deep_view() =~= Seq::<Seq<char>>::empty());
        }
        r
    }

    /// A predicate for a column and an operator, with no arguments yet.
    pub fn new(column: &str, operation: Operator) -> (r: Self)
        ensures
            r@ == (PredV {
                separator: Separator::And,
                column: column@,
                operation: operation,
                arguments: Seq::<Seq<char>>::empty(),
                matcher: None,
            }),
    {
        let r = Predicate {
            separator: Separator::And,
            column: String::from_str(column),
            operation,
            arguments: Vec::new(),
            matcher: None,
        };
        proof {
            assert(r.arguments.deep_view() =~= Seq::<Seq<char>>::empty());
        }
        r
    }

    /// The same predicate with another separator tag.
    pub fn separator(self, separator: Separator) -> (r: Self)
        ensures
            r@ == (PredV { separator, ..self@ }),
    {
        Predicate { separator, ..self }
    }

    /// The same predicate with another column name.
    pub fn column(self, column: &str) -> (r: Self)
        ensures
            r@ == (PredV { column: column@, ..self@ }),
    {
        Predicate { column: String::from_str(column), ..self }
    }

    /// The same predicate with another operator.
    pub fn operator(self, op: Operator) -> (r: Self)
        ensures
            r@ == (PredV { operation: op, ..self@ }),
    {
        Predicate { operation: op, ..self }
    }

    /// The same predicate with a pattern matcher installed; a pattern the
    /// regular-expression engine rejects is a statement error.
    pub fn matcher(self, pattern: &str) -> (r: CIndexResult<Self>)
        ensures
            r is Ok <==> regex_ok(pattern@),
            r matches Ok(p) ==> p@ == (PredV { matcher: Some(pattern@), ..self@ }),
            r matches Err(e) ==> e.kind() == ErrKind::QueryStatement,
    {
        if crate::pattern::regex_compiles(pattern) {
            Ok(Predicate { matcher: Some(String::from_str(pattern)), ..self })
        } else {
            Err(CIndexError::InvalidQueryStatement(String::from_str("Invalid regex pattern")))
        }
    }

    /// The same predicate with arguments read from one string, split on
    /// every blank.
    pub fn raw_args(self, args: &str) -> (r: Self)
        ensures
            r@ == (PredV { arguments: split_char_spec(args@, ' '), ..self@ }),
    {
        let pieces = crate::strutil::split_char(args, ' ');
        Predicate { arguments: pieces, ..self }
    }

    /// The same predicate with the given argument list.
    pub fn args(self, args: Vec<String>) -> (r: Self)
        ensures
            r@ == (PredV { arguments: args.deep_view(), ..self@ }),
    {
        Predicate { arguments: args, ..self }
    }

    /// Installs a pattern matcher; a pattern the regular-expression engine
    /// rejects is a statement error and leaves the predicate unchanged.
    pub fn set_matcher(&mut self, pattern: &str) -> (r: CIndexResult<()>)
        ensures
            r is Ok <==> regex_ok(pattern@),
            r is Ok ==> (*final(self))@ == (PredV { matcher: Some(pattern@), ..old(self)@ }),
            r is Err ==> *final(self) == *old(self),
            r matches Err(e) ==> e.kind() == ErrKind::QueryStatement,
    {
        if crate::pattern::regex_compiles(pattern) {
            self.matcher = Some(String::from_str(pattern));
            Ok(())
        } else {
            Err(CIndexError::InvalidQueryStatement(String::from_str("Invalid regex pattern")))
        }
    }

    /// Replaces the separator tag.
    pub fn set_separator(&mut self, separator: Separator)
        ensures
            (*final(self))@ == (PredV { separator, ..old(self)@ }),
    {
        self.separator = separator;
    }

    /// Replaces the column name.
    pub fn set_column(&mut self, column: &str)
        ensures
            (*final(self))@ == (PredV { column: column@, ..old(self)@ }),
    {
        self.column = String::from_str(column);
    }

    /// Replaces the operator.
    pub fn set_operator(&mut self, op: Operator)
        ensures
            (*final(self))@ == (PredV { operation: op, ..old(self)@ }),
    {
        self.operation = op;
    }

    /// Replaces the argument list.
    pub fn set_args(&mut self, args: Vec<String>)
        ensures
            (*final(self))@ == (PredV { arguments: args.deep_view(), ..old(self)@ }),
    {
        self.arguments = args;
    }

    /// Appends one argument.
    pub fn add_arg(&mut self, arg: &str)
        ensures
            (*final(self))@ == (PredV {
                arguments: old(self)@.arguments.push(arg@),
                ..old(self)@
            }),
    {
        self.arguments.push(String::from_str(arg));
        proof {
            assert(self.arguments.deep_view() =~= old(self)@.arguments.push(arg@));
        }
    }
}

/// The mathematical shape of a [`Query`].
#[verifier::ext_equal]
pub struct QueryV {
    pub table_name: Seq<char>,
    pub column_names: Seq<Seq<char>>,
    pub column_map: Option<Seq<Seq<char>>>,
    pub predicates: Option<Seq<PredV>>,
    pub order_type: OrdV,
    pub flags: QueryFlags,
    pub range: (usize, usize),
    pub joined_tables: Option<Seq<Seq<char>>>,
}

/// A complete statement: target table, requested columns, rename map,
/// predicates, order, flags and offset/limit range. Built by the parser
/// or through the builder methods; consumed by the engine.
#[derive(Debug)]
pub struct Query {
    pub table_name: String,
    pub column_names: Vec<String>,
    pub column_map: Option<Vec<String>>,
    pub predicates: Option<Vec<Predicate>>,
    pub order_type: OrderType,
    pub flags: QueryFlags,
    pub range: (usize, usize),
    pub joined_tables: Option<Vec<String>>,
}

/// The views of a sequence of predicates.
pub open spec fn preds_view(v: Seq<Predicate>) -> Seq<PredV> {
    v.map_values(|p: Predicate| p@)
}

impl View for Query {
    type V = QueryV;

    open spec fn view(&self) -> QueryV {
        QueryV {
            table_name: self.table_name@,
            column_names: self.column_names.deep_view(),
            column_map: match &self.column_map {
                Some(m) => Some(m.deep_view()),
                None => None,
            },
            predicates: match &self.predicates {
                Some(p) => Some(preds_view(p@)),
                None => None,
            },
            order_type: self.order_type@,
            flags: self.flags,
            range: self.range,
            joined_tables: match &self.joined_tables {
                Some(j) => Some(j.deep_view()),
                None => None,
            },
        }
    }
}

impl Query {
    /// An empty query: no table, no columns, no predicates, no order, no
    /// flags, unset range.
    pub fn build() -> (r: Self)
        ensures
            r@ == (QueryV {
                table_name: Seq::<char>::empty(),
                column_names: Seq::<Seq<char>>::empty(),
                column_map: None,
                predicates: None,
                order_type: OrdV::NoOrd,
                flags: QueryFlags { phd: false, sup: false, tp: false },
                range: (0usize, 0usize),
                joined_tables: None,
            }),
    {
        let r = Query {
            table_name: String::new(),
            column_names: Vec::new(),
            column_map: None,
            predicates: None,
            order_type: OrderType::NoOrder,
            flags: QueryFlags::new(),
            range: (0, 0),
            joined_tables: None,
        };
        proof {
            assert(r.column_names.deep_view() =~= Seq::<Seq<char>>::empty());
        }
        r
    }

    /// The same query aimed at another table.
    pub fn table(self, name: &str) -> (r: Self)
        ensures
            r@ == (QueryV { table_name: name@, ..self@ }),
    {
        Query { table_name: String::from_str(name), ..self }
    }

    /// The same query with the given requested columns.
    pub fn columns(self, column_names: Vec<String>) -> (r: Self)
        ensures
            r@ == (QueryV { column_names: column_names.deep_view(), ..self@ }),
    {
        Query { column_names, ..self }
    }

    /// The same query with one more predicate appended.
    pub fn predicate(self, predicate: Predicate) -> (r: Self)
        ensures
            self@.predicates is None ==> r@ == (QueryV {
                predicates: Some(seq![predicate@]),
                ..self@
            }),
            self@.predicates matches Some(ps) ==> r@ == (QueryV {
                predicates: Some(ps.push(predicate@)),
                ..self@
            }),
    {
        let mut q = self;
        match &mut q.predicates {
            Some(ps) => {
                let ghost old_ps = ps@;
                ps.push(predicate);
                proof {
                    assert(preds_view(ps@) =~= preds_view(old_ps).push(predicate@));
                }
            },
            None => {
                let mut v: Vec<Predicate> = Vec::new();
                v.push(predicate);
                proof {
                    assert(preds_view(v@) =~= seq![predicate@]);
                }
                q.predicates = Some(v);
            },
        }
        q
    }

    /// A query assembled from every finished field; the parser ends here.
    pub(crate) fn new(
        table_name: String,
        column_names: Vec<String>,
        predicates: Option<Vec<Predicate>>,
        joined_tables: Option<Vec<String>>,
        order_type: OrderType,
        column_map: Option<Vec<String>>,
        flags: QueryFlags,
        range: (usize, usize),
    ) -> (r: Self)
        ensures
            r.table_name == table_name,
            r.column_names == column_names,
            r.predicates == predicates,
            r.joined_tables == joined_tables,
            r.order_type == order_type,
            r.column_map == column_map,
            r.flags == flags,
            r.range == range,
    {
        Query {
            table_name,
            column_names,
            predicates,
            joined_tables,
            order_type,
            column_map,
            flags,
            range,
        }
    }
}

} // verus!
