//! Small model types: the order specification of a statement and the
//! resolved output columns of a projection.

use crate::error::{CIndexError, CIndexResult, ErrKind};
use crate::strutil::eq_nocase;
use vstd::prelude::*;

verus! {

/// How the filtered rows are ordered before pagination.
#[derive(Debug)]
pub enum OrderType {
    NoOrder,
    Asec(String),
    Desc(String),
}

/// The mathematical shape of an [`OrderType`].
pub enum OrdV {
    NoOrd,
    Asc(Seq<char>),
    Dsc(Seq<char>),
}

impl View for OrderType {
    type V = OrdV;

    open spec fn view(&self) -> OrdV {
        match self {
            OrderType::NoOrder => OrdV::NoOrd,
            OrderType::Asec(c) => OrdV::Asc(c@),
            OrderType::Desc(c) => OrdV::Dsc(c@),
        }
    }
}

/// The order that a direction word and a column name describe: `ASEC`
/// names an ascending order, `DESC` a descending one, case-insensitively;
/// any other word names none.
pub open spec fn parse_order_spec(text: Seq<char>, column: Seq<char>) -> Option<OrdV> {
    if eq_nocase(text, "asec"@) {
        Some(OrdV::Asc(column))
    } else if eq_nocase(text, "desc"@) {
        Some(OrdV::Dsc(column))
    } else {
        None
    }
}

impl OrderType {
    /// Reads a direction word and a column name into an order
    /// specification; an unknown direction is a statement error.
    pub fn from_str(text: &str, column: &str) -> (r: CIndexResult<Self>)
        ensures
            r is Ok <==> parse_order_spec(text@, column@) is Some,
            r matches Ok(o) ==> parse_order_spec(text@, column@) == Some(o@),
            r matches Err(e) ==> e.kind() == ErrKind::QueryStatement,
    {
        if crate::strutil::ascii_eq_nocase(text, "asec") {
            Ok(OrderType::Asec(String::from_str(column)))
        } else if crate::strutil::ascii_eq_nocase(text, "desc") {
            Ok(OrderType::Desc(String::from_str(column)))
        } else {
            Err(
                CIndexError::InvalidQueryStatement(
                    String::from_str("Ordertype can only be ASEC OR DESC"),
                ),
            )
        }
    }
}

/// A resolved output column: either bound to a real table column, or a
/// supplement column that yields an empty cell in every row.
#[derive(Debug)]
pub enum ColumnVariant {
    Real(String),
    Supplement(String),
}

/// The mathematical shape of a [`ColumnVariant`].
pub enum ColVarV {
    Real(Seq<char>),
    Supplement(Seq<char>),
}

impl View for ColumnVariant {
    type V = ColVarV;

    open spec fn view(&self) -> ColVarV {
        match self {
            ColumnVariant::Real(c) => ColVarV::Real(c@),
            ColumnVariant::Supplement(c) => ColVarV::Supplement(c@),
        }
    }
}

impl ColVarV {
    /// The text that names this column in a header row.
    pub open spec fn label(&self) -> Seq<char> {
        match self {
            ColVarV::Real(c) => *c,
            ColVarV::Supplement(c) => *c,
        }
    }
}

impl ColumnVariant {
    /// The text that names this column in a header row.
    pub fn label(&self) -> (r: String)
        ensures
            r@ == self@.label(),
    {
        match self {
            ColumnVariant::Real(c) => c.clone(),
            ColumnVariant::Supplement(c) => c.clone(),
        }
    }
}

} // verus!
