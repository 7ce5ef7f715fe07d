use vstd::prelude::*;

use crate::model::{Expr, ExprLiteralKind};

verus! {

/// Why a literal's type cannot be inferred without an annotation: `nil`,
/// an empty array or an empty map; nothing for any other expression.
pub open spec fn uninferrable_text(e: Expr) -> Option<Seq<char>> {
    match e {
        Expr::Literal(lit) => match lit.kind {
            ExprLiteralKind::Nil => Some("cannot infer type of 'nil', add a type annotation (e.g. ': int?')"@),
            ExprLiteralKind::Array(items) => if items@.len() == 0 {
                Some("cannot infer element type of empty array, add a type annotation (e.g. ': array[t = int]')"@)
            } else {
                None
            },
            ExprLiteralKind::MapLiteral(entries) => if entries@.len() == 0 {
                Some("cannot infer key/value types of empty map, add a type annotation (e.g. ': map[k = str, v = int]')"@)
            } else {
                None
            },
            _ => None,
        },
        _ => None,
    }
}

/// The message for a literal whose type cannot be inferred (see `uninferrable_text`).
pub fn uninferrable_literal_message(expr: &Expr) -> (r: Option<&'static str>)
    ensures
        match r {
            Some(m) => uninferrable_text(*expr) == Some(m@),
            None => uninferrable_text(*expr) is None,
        },
{
    match expr {
        Expr::Literal(lit) => match &lit.kind {
            ExprLiteralKind::Nil => Some("cannot infer type of 'nil', add a type annotation (e.g. ': int?')"),
            ExprLiteralKind::Array(items) => if items.len() == 0 {
                Some("cannot infer element type of empty array, add a type annotation (e.g. ': array[t = int]')")
            } else {
                None
            },
            ExprLiteralKind::MapLiteral(entries) => if entries.len() == 0 {
                Some("cannot infer key/value types of empty map, add a type annotation (e.g. ': map[k = str, v = int]')")
            } else {
                None
            },
            _ => None,
        },
        _ => None,
    }
}

} // verus!
