pub mod assoc;
pub mod basic;
pub mod construct;
pub mod expr;
pub mod source;
pub mod stmt;
pub mod symbol;
pub mod symbol_set;
pub mod types;

pub use basic::{Comment, CommentLine, Ident};
pub use construct::{Construct, ConstructKind, Field, FieldKind, FieldIntype, FieldVar, FieldVarModifier, TypeAlias, Data, Entity, EntityInit, EntityRun, Func, Extern, Native};
pub use expr::{Expr, ExprParen, ExprAccess, ExprAccessOp, ExprModuleAccess, ExprOuter, ExprUnary, ExprUnaryOp, ExprBinary, ExprBinaryOp, binary_op_text, ExprNarrowing, ExprNarrowingKind, ExprNarrowingNil, ExprNarrowingAs, ExprInvocation, ExprInvocationArg, ExprLiteral, ExprLiteralKind, ExprLiteralMapEntry, ExprWait, ExprSpawn};
pub use source::{SourceMap, count_le, strictly_sorted, spec_line_of, Import, Annotation, SourceFile, Module};
pub use stmt::{Stmt, StmtBlock, StmtVar, StmtVarDecl, StmtAssign, StmtAssignOp, StmtIf, StmtIfElseIf, StmtIfCondition, StmtIfConditionBool, StmtIfNarrowingAs, StmtIfNarrowingAsBinding, StmtIfNarrowingNil, StmtIfNarrowingNilBinding, StmtFor, StmtForClause, StmtForCondition, StmtForIn, StmtForBreak, StmtForContinue, StmtDefer, StmtReturn, StmtReturnEarly, StmtImplicitly, StmtPatch, StmtPatchKind, StmtPatchChain, StmtPatchBranch, StmtPatchComplete};
pub use symbol::{Symbol, Order3, seq_lt, seq_compare, str_chars, copy_chars, push_chars, push_str, chars_eq, chars_compare};
pub use types::{Type, TypeNamed, TypeArgument, TypeNilable, TypeEntityRef, TypeIntrospection, TypeIntrospectionOp, TypeAnon, TypeAnonConstruct, TypeAnonField, TypeAnonFieldModifier};

use vstd::prelude::*;

verus! {

/// Identity of an AST node; allocated sequentially by the parser.
#[derive(Debug, Clone, Copy, PartialEq, Eq, Structural)]
pub struct NodeId(pub u32);

/// Placeholder for a syntax node that failed to parse.
#[derive(Debug, Clone, Copy, PartialEq, Eq, Structural)]
pub struct InvalidNode {
    pub node_id: NodeId,
}

} // verus!
pub mod number;
