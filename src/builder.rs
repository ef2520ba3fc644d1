//! The lowered form of a rulebook that the emitter reads: functions with
//! their strict positions, rules as condition vectors, and right-hand sides
//! whose variables are positions in a binding stack.
use vstd::prelude::*;

verus! {

/// Numeric operators of the runtime.
pub const ADD: u64 = 0;
pub const SUB: u64 = 1;
pub const MUL: u64 = 2;
pub const DIV: u64 = 3;
pub const MOD: u64 = 4;
pub const AND: u64 = 5;
pub const OR: u64 = 6;
pub const XOR: u64 = 7;
pub const SHL: u64 = 8;
pub const SHR: u64 = 9;
pub const LTN: u64 = 10;
pub const LTE: u64 = 11;
pub const EQL: u64 = 12;
pub const GTE: u64 = 13;
pub const GTN: u64 = 14;
pub const NEQ: u64 = 15;

/// A right-hand side with resolved names: `Var` indexes the binding stack
/// (the rule's pattern variables first, then the binders met on the way in).
pub enum DynTerm {
    Var { bidx: u64 },
    Dup { eras: (bool, bool), expr: Box<DynTerm>, body: Box<DynTerm> },
    Let { expr: Box<DynTerm>, body: Box<DynTerm> },
    Lam { eras: bool, body: Box<DynTerm> },
    App { func: Box<DynTerm>, argm: Box<DynTerm> },
    Ctr { func: u64, args: Vec<DynTerm> },
    Cal { func: u64, args: Vec<DynTerm> },
    U32 { numb: u32 },
    Op2 { oper: u64, val0: Box<DynTerm>, val1: Box<DynTerm> },
}

/// Where a pattern variable sits in the matched term: argument `param`, or
/// field `field` of the constructor there; `erase` when the right-hand side
/// does not use it.
#[derive(Clone, Copy, Debug, PartialEq, Eq)]
pub struct DynVar {
    pub param: u64,
    pub field: Option<u64>,
    pub erase: bool,
}

/// What a rule demands of one argument.
#[derive(Clone, Copy, Debug, PartialEq, Eq)]
pub enum Cond {
    AnyVar,
    ExpectNum(u32),
    ExpectCtr(u64),
}

/// A lowered rule.
pub struct DynRule {
    pub cond: Vec<Cond>,
    pub vars: Vec<DynVar>,
    pub free: Vec<(u64, u64)>,
    pub term: DynTerm,
}

/// A lowered function: which arguments are strict, and its rules in order.
pub struct DynFun {
    pub redex: Vec<bool>,
    pub rules: Vec<DynRule>,
}

/// Number of nodes of a term.
pub open spec fn term_size(t: DynTerm) -> nat
    decreases t,
{
    match t {
        DynTerm::Var { .. } => 1,
        DynTerm::Dup { expr, body, .. } => 1 + term_size(*expr) + term_size(*body),
        DynTerm::Let { expr, body } => 1 + term_size(*expr) + term_size(*body),
        DynTerm::Lam { body, .. } => 1 + term_size(*body),
        DynTerm::App { func, argm } => 1 + term_size(*func) + term_size(*argm),
        DynTerm::Ctr { args, .. } => 1 + args_size(args@),
        DynTerm::Cal { args, .. } => 1 + args_size(args@),
        DynTerm::U32 { .. } => 1,
        DynTerm::Op2 { val0, val1, .. } => 1 + term_size(*val0) + term_size(*val1),
    }
}

/// Number of nodes of a list of terms.
pub open spec fn args_size(args: Seq<DynTerm>) -> nat
    decreases args,
{
    if args.len() == 0 {
        0
    } else {
        args_size(args.drop_last()) + term_size(args.last())
    }
}

/// Number of duplications in a term.
pub open spec fn count_dups(t: DynTerm) -> nat
    decreases t,
{
    match t {
        DynTerm::Var { .. } => 0,
        DynTerm::Dup { expr, body, .. } => 1 + count_dups(*expr) + count_dups(*body),
        DynTerm::Let { expr, body } => count_dups(*expr) + count_dups(*body),
        DynTerm::Lam { body, .. } => count_dups(*body),
        DynTerm::App { func, argm } => count_dups(*func) + count_dups(*argm),
        DynTerm::Ctr { args, .. } => args_dups(args@),
        DynTerm::Cal { args, .. } => args_dups(args@),
        DynTerm::U32 { .. } => 0,
        DynTerm::Op2 { val0, val1, .. } => count_dups(*val0) + count_dups(*val1),
    }
}

/// Number of duplications in a list of terms.
pub open spec fn args_dups(args: Seq<DynTerm>) -> nat
    decreases args,
{
    if args.len() == 0 {
        0
    } else {
        args_dups(args.drop_last()) + count_dups(args.last())
    }
}

/// Every variable of the term refers into a binding stack of `depth`
/// entries, counting the binders it passes on the way in.
pub open spec fn scoped(t: DynTerm, depth: nat) -> bool
    decreases t,
{
    match t {
        DynTerm::Var { bidx } => bidx < depth,
        DynTerm::Dup { expr, body, .. } => scoped(*expr, depth) && scoped(*body, depth + 2),
        DynTerm::Let { expr, body } => scoped(*expr, depth) && scoped(*body, depth + 1),
        DynTerm::Lam { body, .. } => scoped(*body, depth + 1),
        DynTerm::App { func, argm } => scoped(*func, depth) && scoped(*argm, depth),
        DynTerm::Ctr { args, .. } => args_scoped(args@, depth),
        DynTerm::Cal { args, .. } => args_scoped(args@, depth),
        DynTerm::U32 { .. } => true,
        DynTerm::Op2 { val0, val1, .. } => scoped(*val0, depth) && scoped(*val1, depth),
    }
}

/// Every term of the list is scoped in `depth`.
pub open spec fn args_scoped(args: Seq<DynTerm>, depth: nat) -> bool
    decreases args,
{
    if args.len() == 0 {
        true
    } else {
        args_scoped(args.drop_last(), depth) && scoped(args.last(), depth)
    }
}

} // verus!
