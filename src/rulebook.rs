//! From parsed rules to the lowered rulebook: every constructor and
//! function name gets an id, and each function's rules become condition
//! vectors, pattern-variable locations and right-hand sides whose variables
//! are positions in a binding stack.
use vstd::prelude::*;

use crate::builder::{args_scoped, args_size, scoped, term_size, Cond, DynFun, DynRule, DynTerm, DynVar};
use crate::compiler::{
    book_ok, compile_book, funcs_size, rules_ok, rules_size, views, FuncEntry, RuleBook,
};
use crate::template::{c_runtime_template, splice_spec, slot_matches, RuntimeParts, TemplateError};
use crate::template::same_text;

verus! {

/// A term of the source language.
pub enum Term {
    Var { name: String },
    Dup { nam0: String, nam1: String, expr: Box<Term>, body: Box<Term> },
    Let { name: String, expr: Box<Term>, body: Box<Term> },
    Lam { name: String, body: Box<Term> },
    App { func: Box<Term>, argm: Box<Term> },
    Ctr { name: String, args: Vec<Term> },
    U32 { numb: u32 },
    Op2 { oper: u64, val0: Box<Term>, val1: Box<Term> },
}

/// A rewrite rule `lhs = rhs`; the left side applies a function to patterns.
pub struct Rule {
    pub lhs: Term,
    pub rhs: Term,
}

/// Why a set of rules cannot be compiled.
#[derive(Clone, Copy, Debug, PartialEq, Eq, Structural)]
pub enum BookError {
    /// A left-hand side is not a function applied to patterns.
    BadHead,
    /// A name is used with two different arities.
    ArityMismatch,
    /// A right-hand side uses a variable that nothing binds.
    UnboundVariable,
    /// A constructor pattern holds something other than variables.
    NestedPattern,
    /// A pattern is neither a variable, a number nor a constructor.
    BadPattern,
}

/// A registered name: its id, its arity and whether rules define it.
pub struct NameEntry {
    pub name: String,
    pub id: u64,
    pub arity: u64,
    pub is_fun: bool,
}

/// Index of the first entry named `x`, or -1.
pub open spec fn find_name(entries: Seq<NameEntry>, x: Seq<char>) -> int
    decreases entries.len(),
{
    if entries.len() == 0 {
        -1
    } else {
        let k = find_name(entries.drop_last(), x);
        if k >= 0 {
            k
        } else if entries.last().name@ == x {
            entries.len() - 1
        } else {
            -1
        }
    }
}

/// Ids are assigned densely from 1 in order of registration, and no name is
/// registered twice.
pub open spec fn names_ok(entries: Seq<NameEntry>) -> bool {
    &&& forall|k: int| 0 <= k < entries.len() ==> (#[trigger] entries[k]).id == k + 1
    &&& forall|j: int, k: int|
        0 <= j < k < entries.len() ==> (#[trigger] entries[j]).name@ != (#[trigger] entries[k]).name@
}

proof fn lemma_find_name(entries: Seq<NameEntry>, x: Seq<char>)
    ensures
        -1 <= find_name(entries, x) < entries.len(),
        find_name(entries, x) >= 0 ==> entries[find_name(entries, x)].name@ == x,
        find_name(entries, x) >= 0 ==> forall|j: int|
            0 <= j < find_name(entries, x) ==> entries[j].name@ != x,
        find_name(entries, x) < 0 ==> forall|j: int| 0 <= j < entries.len() ==> entries[j].name@ != x,
    decreases entries.len(),
{
    if entries.len() > 0 {
        lemma_find_name(entries.drop_last(), x);
        assert forall|j: int| 0 <= j < entries.len() - 1 implies entries.drop_last()[j] == entries[j] by {}
    }
}

/// Every registered name is found at its own entry, and the id of that
/// entry leads back to the name: names and ids correspond one to one.
pub proof fn lemma_ids_round_trip(entries: Seq<NameEntry>, k: int)
    requires
        names_ok(entries),
        0 <= k < entries.len(),
    ensures
        find_name(entries, entries[k].name@) == k,
        entries[(entries[k].id - 1) as int].name@ == entries[k].name@,
{
    lemma_find_name(entries, entries[k].name@);
    let f = find_name(entries, entries[k].name@);
    if f != k {
        if f < k {
            assert(entries[f].name@ != entries[k].name@);
        } else {
            assert(entries[k].name@ != entries[k].name@);
        }
    }
}

/// Finds the entry of a name.
pub fn find_entry(entries: &Vec<NameEntry>, x: &str) -> (r: Option<usize>)
    ensures
        match r {
            Some(k) => find_name(entries@, x@) == k && k < entries@.len(),
            None => find_name(entries@, x@) < 0,
        },
{
    proof {
        lemma_find_name(entries@, x@);
    }
    let mut k: usize = 0;
    while k < entries.len()
        invariant
            k <= entries@.len(),
            find_name(entries@.subrange(0, k as int), x@) < 0,
        decreases entries@.len() - k,
    {
        proof {
            assert(entries@.subrange(0, k + 1).drop_last() =~= entries@.subrange(0, k as int));
        }
        if same_text(entries[k].name.as_str(), x) {
            proof {
                lemma_find_prefix(entries@, k as int + 1, x@);
            }
            return Some(k);
        }
        k += 1;
    }
    assert(entries@.subrange(0, entries@.len() as int) =~= entries@);
    None
}

proof fn lemma_find_prefix(entries: Seq<NameEntry>, n: int, x: Seq<char>)
    requires
        0 <= n <= entries.len(),
        find_name(entries.subrange(0, n), x) >= 0,
    ensures
        find_name(entries, x) == find_name(entries.subrange(0, n), x),
    decreases entries.len() - n,
{
    if n < entries.len() {
        assert(entries.subrange(0, n + 1).drop_last() =~= entries.subrange(0, n));
        lemma_find_prefix(entries, n + 1, x);
    } else {
        assert(entries.subrange(0, n) =~= entries);
    }
}


/// `x` occurs free in `t`.
pub open spec fn occurs(t: Term, x: Seq<char>) -> bool
    decreases t,
{
    match t {
        Term::Var { name } => name@ == x,
        Term::Dup { nam0, nam1, expr, body } => occurs(*expr, x) || (nam0@ != x && nam1@ != x
            && occurs(*body, x)),
        Term::Let { name, expr, body } => occurs(*expr, x) || (name@ != x && occurs(*body, x)),
        Term::Lam { name, body } => name@ != x && occurs(*body, x),
        Term::App { func, argm } => occurs(*func, x) || occurs(*argm, x),
        Term::Ctr { args, .. } => args_occur(args@, x),
        Term::U32 { .. } => false,
        Term::Op2 { val0, val1, .. } => occurs(*val0, x) || occurs(*val1, x),
    }
}

/// `x` occurs free in one of the terms.
pub open spec fn args_occur(args: Seq<Term>, x: Seq<char>) -> bool
    decreases args,
{
    if args.len() == 0 {
        false
    } else {
        args_occur(args.drop_last(), x) || occurs(args.last(), x)
    }
}

/// Position of the innermost binding of `x` in the stack, or -1.
pub open spec fn last_index(stack: Seq<Seq<char>>, x: Seq<char>) -> int
    decreases stack.len(),
{
    if stack.len() == 0 {
        -1
    } else if stack.last() == x {
        stack.len() - 1
    } else {
        last_index(stack.drop_last(), x)
    }
}

/// Every name applied in `t` is registered in `entries`.
pub open spec fn names_found(t: Term, entries: Seq<NameEntry>) -> bool
    decreases t,
{
    match t {
        Term::Var { .. } => true,
        Term::Dup { expr, body, .. } => names_found(*expr, entries) && names_found(*body, entries),
        Term::Let { expr, body, .. } => names_found(*expr, entries) && names_found(*body, entries),
        Term::Lam { body, .. } => names_found(*body, entries),
        Term::App { func, argm } => names_found(*func, entries) && names_found(*argm, entries),
        Term::Ctr { name, args } => find_name(entries, name@) >= 0 && args_found(args@, entries),
        Term::U32 { .. } => true,
        Term::Op2 { val0, val1, .. } => names_found(*val0, entries) && names_found(*val1, entries),
    }
}

/// Every name applied in the terms is registered in `entries`.
pub open spec fn args_found(args: Seq<Term>, entries: Seq<NameEntry>) -> bool
    decreases args,
{
    if args.len() == 0 {
        true
    } else {
        args_found(args.drop_last(), entries) && names_found(args.last(), entries)
    }
}

proof fn lemma_args_found_at(args: Seq<Term>, entries: Seq<NameEntry>, i: int)
    requires
        args_found(args, entries),
        0 <= i < args.len(),
    ensures
        names_found(args[i], entries),
    decreases args.len(),
{
    if i < args.len() - 1 {
        lemma_args_found_at(args.drop_last(), entries, i);
    }
}

/// The first problem met when lowering `t` left to right under the binding
/// stack `stack`, if any.
pub open spec fn rhs_error(t: Term, stack: Seq<Seq<char>>) -> Option<BookError>
    decreases t,
{
    match t {
        Term::Var { name } => if last_index(stack, name@) < 0 {
            Some(BookError::UnboundVariable)
        } else {
            None
        },
        Term::Dup { nam0, nam1, expr, body } => match rhs_error(*expr, stack) {
            Some(e) => Some(e),
            None => rhs_error(*body, stack.push(nam0@).push(nam1@)),
        },
        Term::Let { name, expr, body } => match rhs_error(*expr, stack) {
            Some(e) => Some(e),
            None => rhs_error(*body, stack.push(name@)),
        },
        Term::Lam { name, body } => rhs_error(*body, stack.push(name@)),
        Term::App { func, argm } => match rhs_error(*func, stack) {
            Some(e) => Some(e),
            None => rhs_error(*argm, stack),
        },
        Term::Ctr { args, .. } => args_error(args@, stack),
        Term::U32 { .. } => None,
        Term::Op2 { val0, val1, .. } => match rhs_error(*val0, stack) {
            Some(e) => Some(e),
            None => rhs_error(*val1, stack),
        },
    }
}

/// The first problem met when lowering the terms in order, if any.
pub open spec fn args_error(args: Seq<Term>, stack: Seq<Seq<char>>) -> Option<BookError>
    decreases args,
{
    if args.len() == 0 {
        None
    } else {
        match args_error(args.drop_last(), stack) {
            Some(e) => Some(e),
            None => rhs_error(args.last(), stack),
        }
    }
}

/// `d` is `t` lowered under `stack`: each variable becomes the position of
/// its innermost binding, each binder records whether its variables go
/// unused, and each name becomes its id, as a call when rules define it.
pub open spec fn lowered(t: Term, stack: Seq<Seq<char>>, entries: Seq<NameEntry>, d: DynTerm) -> bool
    decreases t,
{
    match t {
        Term::Var { name } => d == (DynTerm::Var { bidx: last_index(stack, name@) as u64 }),
        Term::Dup { nam0, nam1, expr, body } => match d {
            DynTerm::Dup { eras, expr: de, body: db } => eras == (!occurs(*body, nam0@), !occurs(
                *body,
                nam1@,
            )) && lowered(*expr, stack, entries, *de) && lowered(
                *body,
                stack.push(nam0@).push(nam1@),
                entries,
                *db,
            ),
            _ => false,
        },
        Term::Let { name, expr, body } => match d {
            DynTerm::Let { expr: de, body: db } => lowered(*expr, stack, entries, *de) && lowered(
                *body,
                stack.push(name@),
                entries,
                *db,
            ),
            _ => false,
        },
        Term::Lam { name, body } => match d {
            DynTerm::Lam { eras, body: db } => eras == !occurs(*body, name@) && lowered(
                *body,
                stack.push(name@),
                entries,
                *db,
            ),
            _ => false,
        },
        Term::App { func, argm } => match d {
            DynTerm::App { func: df, argm: da } => lowered(*func, stack, entries, *df) && lowered(
                *argm,
                stack,
                entries,
                *da,
            ),
            _ => false,
        },
        Term::Ctr { name, args } => {
            let k = find_name(entries, name@);
            match d {
                DynTerm::Ctr { func, args: ds } => !entries[k].is_fun && func == entries[k].id
                    && args_lowered(args@, stack, entries, ds@),
                DynTerm::Cal { func, args: ds } => entries[k].is_fun && func == entries[k].id
                    && args_lowered(args@, stack, entries, ds@),
                _ => false,
            }
        },
        Term::U32 { numb } => d == (DynTerm::U32 { numb }),
        Term::Op2 { oper, val0, val1 } => match d {
            DynTerm::Op2 { oper: o, val0: d0, val1: d1 } => o == oper && lowered(
                *val0,
                stack,
                entries,
                *d0,
            ) && lowered(*val1, stack, entries, *d1),
            _ => false,
        },
    }
}

/// Each of `ds` is the corresponding term lowered.
pub open spec fn args_lowered(
    args: Seq<Term>,
    stack: Seq<Seq<char>>,
    entries: Seq<NameEntry>,
    ds: Seq<DynTerm>,
) -> bool
    decreases args,
{
    &&& ds.len() == args.len()
    &&& (args.len() == 0 || (args_lowered(args.drop_last(), stack, entries, ds.drop_last()) && lowered(
        args.last(),
        stack,
        entries,
        ds.last(),
    )))
}

/// Does `x` occur free in `t`?
pub fn occurs_in(t: &Term, x: &str) -> (r: bool)
    ensures
        r == occurs(*t, x@),
    decreases t,
{
    match t {
        Term::Var { name } => same_text(name.as_str(), x),
        Term::Dup { nam0, nam1, expr, body } => occurs_in(expr, x) || (!same_text(nam0.as_str(), x)
            && !same_text(nam1.as_str(), x) && occurs_in(body, x)),
        Term::Let { name, expr, body } => occurs_in(expr, x) || (!same_text(name.as_str(), x)
            && occurs_in(body, x)),
        Term::Lam { name, body } => !same_text(name.as_str(), x) && occurs_in(body, x),
        Term::App { func, argm } => occurs_in(func, x) || occurs_in(argm, x),
        Term::Ctr { args, .. } => args_occur_in(args, x),
        Term::U32 { .. } => false,
        Term::Op2 { val0, val1, .. } => occurs_in(val0, x) || occurs_in(val1, x),
    }
}

fn args_occur_in(args: &Vec<Term>, x: &str) -> (r: bool)
    ensures
        r == args_occur(args@, x@),
    decreases args,
{
    let mut i: usize = 0;
    let mut found = false;
    while i < args.len()
        invariant
            i <= args@.len(),
            found == args_occur(args@.subrange(0, i as int), x@),
        decreases args@.len() - i,
    {
        assert(args@.subrange(0, i + 1).drop_last() =~= args@.subrange(0, i as int));
        proof {
            vstd::std_specs::vec::axiom_vec_index_decreases(*args, i as int);
        }
        let o = occurs_in(&args[i], x);
        found = found || o;
        i += 1;
    }
    assert(args@.subrange(0, args@.len() as int) =~= args@);
    found
}

fn lookup_var(stack: &Vec<String>, x: &str) -> (r: Option<usize>)
    ensures
        match r {
            Some(k) => last_index(views(stack@), x@) == k,
            None => last_index(views(stack@), x@) < 0,
        },
{
    let mut k: usize = stack.len();
    assert(stack@.subrange(0, k as int) =~= stack@);
    while k > 0
        invariant
            k <= stack@.len(),
            last_index(views(stack@), x@) == last_index(views(stack@.subrange(0, k as int)), x@),
        decreases k,
    {
        let ghost pre = views(stack@.subrange(0, k as int));
        assert(pre.last() == stack@[k - 1]@);
        assert(pre.drop_last() =~= views(stack@.subrange(0, k - 1)));
        if same_text(stack[k - 1].as_str(), x) {
            return Some(k - 1);
        }
        k -= 1;
    }
    None
}


/// Lowers a right-hand side under the binding stack `stack` (which is
/// restored on return); fails with the first problem met, left to right.
#[verifier::rlimit(40)]
pub fn lower_term(t: &Term, stack: &mut Vec<String>, entries: &Vec<NameEntry>) -> (r: Result<
    DynTerm,
    BookError,
>)
    requires
        names_found(*t, entries@),
    ensures
        final(stack)@ == old(stack)@,
        match r {
            Ok(d) => rhs_error(*t, views(old(stack)@)) is None && lowered(
                *t,
                views(old(stack)@),
                entries@,
                d,
            ),
            Err(e) => rhs_error(*t, views(old(stack)@)) == Some(e),
        },
    decreases t,
{
    let ghost s0 = views(stack@);
    match t {
        Term::Var { name } => match lookup_var(stack, name.as_str()) {
            Some(k) => Ok(DynTerm::Var { bidx: k as u64 }),
            None => Err(BookError::UnboundVariable),
        },
        Term::Dup { nam0, nam1, expr, body } => {
            let e = lower_term(expr, stack, entries)?;
            stack.push(nam0.clone());
            stack.push(nam1.clone());
            assert(views(stack@) =~= s0.push(nam0@).push(nam1@));
            let b = lower_term(body, stack, entries);
            stack.pop();
            stack.pop();
            assert(stack@ =~= old(stack)@);
            let b = b?;
            let e0 = !occurs_in(body, nam0.as_str());
            let e1 = !occurs_in(body, nam1.as_str());
            Ok(DynTerm::Dup { eras: (e0, e1), expr: Box::new(e), body: Box::new(b) })
        },
        Term::Let { name, expr, body } => {
            let e = lower_term(expr, stack, entries)?;
            stack.push(name.clone());
            assert(views(stack@) =~= s0.push(name@));
            let b = lower_term(body, stack, entries);
            stack.pop();
            assert(stack@ =~= old(stack)@);
            let b = b?;
            Ok(DynTerm::Let { expr: Box::new(e), body: Box::new(b) })
        },
        Term::Lam { name, body } => {
            stack.push(name.clone());
            assert(views(stack@) =~= s0.push(name@));
            let b = lower_term(body, stack, entries);
            stack.pop();
            assert(stack@ =~= old(stack)@);
            let b = b?;
            let eras = !occurs_in(body, name.as_str());
            Ok(DynTerm::Lam { eras, body: Box::new(b) })
        },
        Term::App { func, argm } => {
            let f = lower_term(func, stack, entries)?;
            let a = lower_term(argm, stack, entries)?;
            Ok(DynTerm::App { func: Box::new(f), argm: Box::new(a) })
        },
        Term::Ctr { name, args } => {
            let ds = lower_args(args, stack, entries)?;
            match find_entry(entries, name.as_str()) {
                None => {
                    assert(false);
                    Err(BookError::BadPattern)
                },
                Some(k) => {
                    let id = entries[k].id;
                    if entries[k].is_fun {
                        Ok(DynTerm::Cal { func: id, args: ds })
                    } else {
                        Ok(DynTerm::Ctr { func: id, args: ds })
                    }
                },
            }
        },
        Term::U32 { numb } => Ok(DynTerm::U32 { numb: *numb }),
        Term::Op2 { oper, val0, val1 } => {
            let a = lower_term(val0, stack, entries)?;
            let b = lower_term(val1, stack, entries)?;
            Ok(DynTerm::Op2 { oper: *oper, val0: Box::new(a), val1: Box::new(b) })
        },
    }
}

#[verifier::rlimit(40)]
fn lower_args(args: &Vec<Term>, stack: &mut Vec<String>, entries: &Vec<NameEntry>) -> (r: Result<
    Vec<DynTerm>,
    BookError,
>)
    requires
        args_found(args@, entries@),
    ensures
        final(stack)@ == old(stack)@,
        match r {
            Ok(ds) => args_error(args@, views(old(stack)@)) is None && args_lowered(
                args@,
                views(old(stack)@),
                entries@,
                ds@,
            ),
            Err(e) => args_error(args@, views(old(stack)@)) == Some(e),
        },
    decreases args,
{
    let ghost s0 = views(stack@);
    let mut ds: Vec<DynTerm> = Vec::new();
    let mut i: usize = 0;
    while i < args.len()
        invariant
            i <= args@.len(),
            stack@ == old(stack)@,
            s0 == views(stack@),
            args_error(args@.subrange(0, i as int), s0) is None,
            args_found(args@, entries@),
            args_lowered(args@.subrange(0, i as int), s0, entries@, ds@),
        decreases args@.len() - i,
    {
        let ghost pre = args@.subrange(0, i as int);
        assert(args@.subrange(0, i + 1).drop_last() =~= pre);
        assert(args@.subrange(0, i + 1).last() == args@[i as int]);
        proof {
            vstd::std_specs::vec::axiom_vec_index_decreases(*args, i as int);
            lemma_args_found_at(args@, entries@, i as int);
        }
        let ghost before = ds@;
        match lower_term(&args[i], stack, entries) {
            Ok(d) => {
                ds.push(d);
                assert(ds@.drop_last() =~= before);
            },
            Err(e) => {
                proof {
                    lemma_args_error_prefix(args@, i as int + 1, s0, entries@);
                }
                return Err(e);
            },
        }
        i += 1;
    }
    assert(args@.subrange(0, args@.len() as int) =~= args@);
    Ok(ds)
}

proof fn lemma_args_error_prefix(args: Seq<Term>, n: int, stack: Seq<Seq<char>>, entries: Seq<NameEntry>)
    requires
        0 <= n <= args.len(),
        args_error(args.subrange(0, n), stack) is Some,
    ensures
        args_error(args, stack) == args_error(args.subrange(0, n), stack),
    decreases args.len() - n,
{
    if n < args.len() {
        assert(args.subrange(0, n + 1).drop_last() =~= args.subrange(0, n));
        lemma_args_error_prefix(args, n + 1, stack, entries);
    } else {
        assert(args.subrange(0, n) =~= args);
    }
}


/// The name of a variable term (empty for any other term).
pub open spec fn var_name(t: Term) -> Seq<char> {
    match t {
        Term::Var { name } => name@,
        _ => seq![],
    }
}

/// The condition that a pattern puts on its argument.
pub open spec fn pattern_cond(p: Term, entries: Seq<NameEntry>) -> Cond {
    match p {
        Term::U32 { numb } => Cond::ExpectNum(numb),
        Term::Ctr { name, .. } => Cond::ExpectCtr(entries[find_name(entries, name@)].id),
        _ => Cond::AnyVar,
    }
}

/// What is wrong with a pattern, if anything.
pub open spec fn pattern_error(p: Term) -> Option<BookError> {
    match p {
        Term::Var { .. } => None,
        Term::U32 { .. } => None,
        Term::Ctr { args, .. } => if exists|j: int| 0 <= j < args@.len() && !(#[trigger] args@[j] is Var) {
            Some(BookError::NestedPattern)
        } else {
            None
        },
        _ => Some(BookError::BadPattern),
    }
}

/// The variables that the pattern at argument `i` binds, with where they
/// sit and whether `rhs` leaves them unused.
pub open spec fn pattern_vars(p: Term, i: nat, rhs: Term) -> Seq<(DynVar, Seq<char>)> {
    match p {
        Term::Var { name } => seq![
            (DynVar { param: i as u64, field: None, erase: !occurs(rhs, name@) }, name@),
        ],
        Term::Ctr { args, .. } => Seq::new(
            args@.len(),
            |j: int|
                (
                    DynVar {
                        param: i as u64,
                        field: Some(j as u64),
                        erase: !occurs(rhs, var_name(args@[j])),
                    },
                    var_name(args@[j]),
                ),
        ),
        _ => seq![],
    }
}

/// The constructor node that the pattern at argument `i` frees, with its
/// arity.
pub open spec fn pattern_free(p: Term, i: nat, entries: Seq<NameEntry>) -> Seq<(u64, u64)> {
    match p {
        Term::Ctr { name, .. } => seq![(i as u64, entries[find_name(entries, name@)].arity)],
        _ => seq![],
    }
}

/// The first problem among the patterns, left to right.
pub open spec fn lhs_error(args: Seq<Term>) -> Option<BookError>
    decreases args.len(),
{
    if args.len() == 0 {
        None
    } else {
        match lhs_error(args.drop_last()) {
            Some(e) => Some(e),
            None => pattern_error(args.last()),
        }
    }
}

/// The variables of all patterns, left to right.
pub open spec fn lhs_vars(args: Seq<Term>, rhs: Term) -> Seq<(DynVar, Seq<char>)>
    decreases args.len(),
{
    if args.len() == 0 {
        seq![]
    } else {
        lhs_vars(args.drop_last(), rhs) + pattern_vars(args.last(), (args.len() - 1) as nat, rhs)
    }
}

/// The nodes that all patterns free, left to right.
pub open spec fn lhs_free(args: Seq<Term>, entries: Seq<NameEntry>) -> Seq<(u64, u64)>
    decreases args.len(),
{
    if args.len() == 0 {
        seq![]
    } else {
        lhs_free(args.drop_last(), entries) + pattern_free(
            args.last(),
            (args.len() - 1) as nat,
            entries,
        )
    }
}

/// The binding stack a right-hand side starts from: the pattern variables'
/// names.
pub open spec fn var_names(vs: Seq<(DynVar, Seq<char>)>) -> Seq<Seq<char>> {
    vs.map_values(|v: (DynVar, Seq<char>)| v.1)
}

/// The patterns of a rule, if its left side is a function application.
pub open spec fn rule_args(rule: Rule) -> Seq<Term> {
    match rule.lhs {
        Term::Ctr { args, .. } => args@,
        _ => seq![],
    }
}

/// What is wrong with a rule of a function of `arity` arguments, if
/// anything: its head, then its patterns, then its right-hand side.
pub open spec fn rule_error(rule: Rule, arity: nat) -> Option<BookError> {
    if !(rule.lhs is Ctr) {
        Some(BookError::BadHead)
    } else if rule_args(rule).len() != arity {
        Some(BookError::ArityMismatch)
    } else {
        match lhs_error(rule_args(rule)) {
            Some(e) => Some(e),
            None => rhs_error(rule.rhs, var_names(lhs_vars(rule_args(rule), rule.rhs))),
        }
    }
}

/// Every name applied in the rule's patterns and right-hand side is
/// registered in `entries`.
pub open spec fn rule_found(rule: Rule, entries: Seq<NameEntry>) -> bool {
    args_found(rule_args(rule), entries) && names_found(rule.rhs, entries)
}

/// `d` is `rule` lowered: its conditions, variables and freed nodes come
/// from its patterns, and its term is its right-hand side lowered under the
/// pattern variables.
pub open spec fn rule_lowered(rule: Rule, entries: Seq<NameEntry>, d: DynRule) -> bool {
    let args = rule_args(rule);
    let vs = lhs_vars(args, rule.rhs);
    &&& d.cond@.len() == args.len()
    &&& forall|i: int| 0 <= i < args.len() ==> d.cond@[i] == pattern_cond(#[trigger] args[i], entries)
    &&& d.vars@ == vs.map_values(|v: (DynVar, Seq<char>)| v.0)
    &&& d.free@ == lhs_free(args, entries)
    &&& lowered(rule.rhs, var_names(vs), entries, d.term)
}


proof fn lemma_nested_pattern(p: Term, entries: Seq<NameEntry>, j: int)
    requires
        p is Ctr,
        0 <= j < p->Ctr_args@.len(),
        !(p->Ctr_args@[j] is Var),
    ensures
        pattern_error(p) == Some(BookError::NestedPattern),
{
    let args = p->Ctr_args;
    assert(0 <= j < args@.len() && !(args@[j] is Var));
}

proof fn lemma_lhs_error_prefix(args: Seq<Term>, n: int, entries: Seq<NameEntry>)
    requires
        0 <= n <= args.len(),
        lhs_error(args.subrange(0, n)) is Some,
    ensures
        lhs_error(args) == lhs_error(args.subrange(0, n)),
    decreases args.len() - n,
{
    if n < args.len() {
        assert(args.subrange(0, n + 1).drop_last() =~= args.subrange(0, n));
        lemma_lhs_error_prefix(args, n + 1, entries);
    } else {
        assert(args.subrange(0, n) =~= args);
    }
}

/// Lowers one rule of a function of `arity` arguments.
#[verifier::rlimit(40)]
pub fn build_rule(rule: &Rule, arity: usize, entries: &Vec<NameEntry>) -> (r: Result<DynRule, BookError>)
    requires
        rule_found(*rule, entries@),
    ensures
        match r {
            Ok(d) => rule_error(*rule, arity as nat) is None && rule_lowered(*rule, entries@, d),
            Err(e) => rule_error(*rule, arity as nat) == Some(e),
        },
{
    let args = match &rule.lhs {
        Term::Ctr { args, .. } => args,
        _ => {
            return Err(BookError::BadHead);
        },
    };
    assert(args@ == rule_args(*rule));
    if args.len() != arity {
        return Err(BookError::ArityMismatch);
    }
    let ghost rhs = rule.rhs;
    let mut cond: Vec<Cond> = Vec::new();
    let mut vars: Vec<DynVar> = Vec::new();
    let mut names: Vec<String> = Vec::new();
    let mut free: Vec<(u64, u64)> = Vec::new();
    let mut i: usize = 0;
    while i < args.len()
        invariant
            args@ == rule_args(*rule),
            rule_found(*rule, entries@),
            rule.lhs is Ctr,
            args@.len() == arity,
            rhs == rule.rhs,
            i <= args@.len(),
            lhs_error(args@.subrange(0, i as int)) is None,
            cond@.len() == i,
            forall|k: int| 0 <= k < i ==> cond@[k] == pattern_cond(#[trigger] args@[k], entries@),
            vars@ == lhs_vars(args@.subrange(0, i as int), rhs).map_values(|v: (DynVar, Seq<char>)| v.0),
            views(names@) == var_names(lhs_vars(args@.subrange(0, i as int), rhs)),
            free@ == lhs_free(args@.subrange(0, i as int), entries@),
        decreases args@.len() - i,
    {
        let ghost pre = args@.subrange(0, i as int);
        let ghost lv = lhs_vars(pre, rhs);
        assert(args@.subrange(0, i + 1).drop_last() =~= pre);
        assert(args@.subrange(0, i + 1).last() == args@[i as int]);
        match &args[i] {
            Term::Var { name } => {
                cond.push(Cond::AnyVar);
                let erase = !occurs_in(&rule.rhs, name.as_str());
                vars.push(DynVar { param: i as u64, field: None, erase });
                let ghost nv = views(names@);
                names.push(name.clone());
                assert(views(names@) =~= nv.push(name@));
                let ghost pv = pattern_vars(args@[i as int], i as nat, rhs);
                assert(vars@ =~= (lv + pv).map_values(|v: (DynVar, Seq<char>)| v.0));
                assert(views(names@) =~= var_names(lv + pv));
                assert(free@ =~= lhs_free(args@.subrange(0, i + 1), entries@));
            },
            Term::U32 { numb } => {
                cond.push(Cond::ExpectNum(*numb));
                let ghost pv = pattern_vars(args@[i as int], i as nat, rhs);
                assert(pv =~= seq![]);
                assert(lv + pv =~= lv);
                assert(free@ =~= lhs_free(args@.subrange(0, i + 1), entries@));
            },
            Term::Ctr { name, args: fields } => {
                let mut j: usize = 0;
                while j < fields.len()
                    invariant
                        i < args@.len(),
                        args@ == rule_args(*rule),
                        rule_found(*rule, entries@),
                        rule.lhs is Ctr,
                        args@.len() == arity,
                        args@[i as int] == (Term::Ctr { name: *name, args: *fields }),
                        lhs_error(args@.subrange(0, i as int)) is None,
                        args@.subrange(0, i + 1).drop_last() == args@.subrange(0, i as int),
                        args@.subrange(0, i + 1).last() == args@[i as int],
                        j <= fields@.len(),
                        forall|q: int| 0 <= q < j ==> (#[trigger] fields@[q]) is Var,
                    decreases fields@.len() - j,
                {
                    if let Term::Var { .. } = &fields[j] {
                    } else {
                        proof {
                            lemma_nested_pattern(args@[i as int], entries@, j as int);
                            lemma_lhs_error_prefix(args@, i + 1, entries@);
                        }
                        let r: Result<DynRule, BookError> = Err(BookError::NestedPattern);
                assert(rule_error(*rule, arity as nat) == lhs_error(args@));
                assert(rule_error(*rule, arity as nat) == Some(r->Err_0));
                return r;
                    }
                    j += 1;
                }
                proof {
                    lemma_args_found_at(args@, entries@, i as int);
                }
                let k = match find_entry(entries, name.as_str()) {
                    None => {
                        assert(false);
                        return Err(BookError::BadPattern);
                    },
                    Some(k) => k,
                };
                cond.push(Cond::ExpectCtr(entries[k].id));
                free.push((i as u64, entries[k].arity));
                let ghost pv = pattern_vars(args@[i as int], i as nat, rhs);
                let ghost v0 = vars@;
                let ghost n0 = views(names@);
                let mut j: usize = 0;
                while j < fields.len()
                    invariant
                        j <= fields@.len(),
                        forall|q: int| 0 <= q < fields@.len() ==> (#[trigger] fields@[q]) is Var,
                        pv.len() == fields@.len(),
                        forall|q: int| 0 <= q < fields@.len() ==> #[trigger] pv[q] == (
                            DynVar {
                                param: i as u64,
                                field: Some(q as u64),
                                erase: !occurs(rhs, var_name(fields@[q])),
                            },
                            var_name(fields@[q]),
                        ),
                        rhs == rule.rhs,
                        vars@ == v0 + pv.subrange(0, j as int).map_values(|v: (DynVar, Seq<char>)| v.0),
                        views(names@) == n0 + var_names(pv.subrange(0, j as int)),
                    decreases fields@.len() - j,
                {
                    if let Term::Var { name: fname } = &fields[j] {
                        let erase = !occurs_in(&rule.rhs, fname.as_str());
                        vars.push(DynVar { param: i as u64, field: Some(j as u64), erase });
                        let ghost nv = views(names@);
                        names.push(fname.clone());
                        assert(views(names@) =~= nv.push(fname@));
                        assert(pv.subrange(0, j + 1) =~= pv.subrange(0, j as int).push(pv[j as int]));
                        assert(pv[j as int].1 == fname@);
                        assert(vars@ =~= v0 + pv.subrange(0, j + 1).map_values(|v: (DynVar, Seq<char>)| v.0));
                        assert(views(names@) =~= n0 + var_names(pv.subrange(0, j + 1)));
                    }
                    j += 1;
                }
                assert(pv.subrange(0, pv.len() as int) =~= pv);
                assert(vars@ =~= (lv + pv).map_values(|v: (DynVar, Seq<char>)| v.0));
                assert(views(names@) =~= var_names(lv + pv));
                assert(free@ =~= lhs_free(args@.subrange(0, i + 1), entries@));
            },
            _ => {
                proof {
                    assert(pattern_error(args@[i as int]) == Some(BookError::BadPattern));
                    assert(lhs_error(args@.subrange(0, i + 1)) == Some(BookError::BadPattern));
                    lemma_lhs_error_prefix(args@, i + 1, entries@);
                }
                let r: Result<DynRule, BookError> = Err(BookError::BadPattern);
                assert(rule_error(*rule, arity as nat) == lhs_error(args@));
                assert(rule_error(*rule, arity as nat) == Some(r->Err_0));
                return r;
            },
        }
        i += 1;
    }
    assert(args@.subrange(0, args@.len() as int) =~= args@);
    let term = lower_term(&rule.rhs, &mut names, entries)?;
    Ok(DynRule { cond, vars, free, term })
}


/// Argument `i` is strict: some rule demands something of it.
pub open spec fn is_strict(rules: Seq<DynRule>, i: int) -> bool {
    exists|r: int| 0 <= r < rules.len() && !((#[trigger] rules[r]).cond@[i] is AnyVar)
}

/// The strictness vector of a function: position `i` is true iff some rule
/// demands a number or a constructor there.
pub fn derive_redex(rules: &Vec<DynRule>, arity: usize) -> (r: Vec<bool>)
    requires
        forall|k: int| 0 <= k < rules@.len() ==> (#[trigger] rules@[k]).cond@.len() == arity,
    ensures
        r@.len() == arity,
        forall|i: int| 0 <= i < arity ==> r@[i] == is_strict(rules@, i),
{
    let mut redex: Vec<bool> = Vec::new();
    let mut i: usize = 0;
    while i < arity
        invariant
            i <= arity,
            forall|k: int| 0 <= k < rules@.len() ==> (#[trigger] rules@[k]).cond@.len() == arity,
            redex@.len() == i,
            forall|q: int| 0 <= q < i ==> redex@[q] == is_strict(rules@, q),
        decreases arity - i,
    {
        let mut strict = false;
        let mut k: usize = 0;
        while k < rules.len()
            invariant
                i < arity,
                k <= rules@.len(),
                forall|k: int| 0 <= k < rules@.len() ==> (#[trigger] rules@[k]).cond@.len() == arity,
                strict == exists|r: int| 0 <= r < k && !((#[trigger] rules@[r]).cond@[i as int] is AnyVar),
            decreases rules@.len() - k,
        {
            let demands = match rules[k].cond[i] {
                Cond::AnyVar => false,
                _ => true,
            };
            strict = strict || demands;
            k += 1;
        }
        redex.push(strict);
        i += 1;
    }
    redex
}

/// The arity of a function: the number of patterns of its first rule.
pub open spec fn fun_arity(rules: Seq<Rule>) -> nat {
    if rules.len() == 0 {
        0
    } else {
        rule_args(rules[0]).len()
    }
}

/// Lowers the rules of one function (all with the same head): each rule in
/// order, then the strictness vector.
#[verifier::rlimit(40)]
pub fn build_dynfun(rules: &Vec<Rule>, entries: &Vec<NameEntry>) -> (r: Result<DynFun, BookError>)
    requires
        forall|k: int| 0 <= k < rules@.len() ==> #[trigger] rule_found(rules@[k], entries@),
    ensures
        match r {
            Ok(f) => {
                &&& f.rules@.len() == rules@.len()
                &&& forall|k: int| 0 <= k < rules@.len() ==> rule_error(#[trigger] rules@[k], fun_arity(rules@)) is None
                &&& forall|k: int| 0 <= k < rules@.len() ==> rule_lowered(#[trigger] rules@[k], entries@, f.rules@[k])
                &&& f.redex@.len() == fun_arity(rules@)
                &&& forall|i: int| 0 <= i < fun_arity(rules@) ==> f.redex@[i] == is_strict(f.rules@, i)
            },
            Err(e) => exists|k: int| 0 <= k < rules@.len() && rule_error(#[trigger] rules@[k], fun_arity(rules@)) == Some(e),
        },
{
    let arity: usize = if rules.len() == 0 {
        0
    } else {
        match &rules[0].lhs {
            Term::Ctr { args, .. } => args.len(),
            _ => {
                let r: Result<DynFun, BookError> = Err(BookError::BadHead);
                assert(rule_error(rules@[0], fun_arity(rules@)) == Some(r->Err_0));
                return r;
            },
        }
    };
    assert(arity == fun_arity(rules@));
    let mut drules: Vec<DynRule> = Vec::new();
    let mut k: usize = 0;
    while k < rules.len()
        invariant
            arity == fun_arity(rules@),
            k <= rules@.len(),
            drules@.len() == k,
            forall|q: int| 0 <= q < k ==> rule_error(#[trigger] rules@[q], arity as nat) is None,
            forall|q: int| 0 <= q < k ==> rule_lowered(#[trigger] rules@[q], entries@, drules@[q]),
            forall|q: int| 0 <= q < k ==> (#[trigger] drules@[q]).cond@.len() == arity,
            forall|k: int| 0 <= k < rules@.len() ==> #[trigger] rule_found(rules@[k], entries@),
        decreases rules@.len() - k,
    {
        match build_rule(&rules[k], arity, entries) {
            Ok(d) => {
                drules.push(d);
                assert(rule_lowered(rules@[k as int], entries@, drules@[k as int]));
                assert(rule_args(rules@[k as int]).len() == arity);
            },
            Err(e) => {
                let r: Result<DynFun, BookError> = Err(e);
                assert(rule_error(rules@[k as int], fun_arity(rules@)) == Some(r->Err_0));
                return r;
            },
        }
        k += 1;
    }
    let redex = derive_redex(&drules, arity);
    Ok(DynFun { redex, rules: drules })
}

/// Every variable of the patterns is marked erased exactly when it does not
/// occur in the right-hand side.
pub proof fn lemma_erase_iff_unused(args: Seq<Term>, rhs: Term)
    ensures
        forall|k: int| 0 <= k < lhs_vars(args, rhs).len() ==> (#[trigger] lhs_vars(args, rhs)[k]).0.erase
            == !occurs(rhs, lhs_vars(args, rhs)[k].1),
    decreases args.len(),
{
    if args.len() > 0 {
        lemma_erase_iff_unused(args.drop_last(), rhs);
        let p = lhs_vars(args.drop_last(), rhs);
        let q = pattern_vars(args.last(), (args.len() - 1) as nat, rhs);
        assert forall|k: int| 0 <= k < (p + q).len() implies (#[trigger] (p + q)[k]).0.erase == !occurs(rhs, (p + q)[k].1) by {
            if k < p.len() {
                assert((p + q)[k] == p[k]);
            } else {
                assert((p + q)[k] == q[k - p.len()]);
            }
        }
    }
}

/// In a lowered rule, the variable at position `k` is erased exactly when
/// the right-hand side does not use it.
pub proof fn lemma_lowered_erase(rule: Rule, entries: Seq<NameEntry>, d: DynRule, k: int)
    requires
        rule_lowered(rule, entries, d),
        0 <= k < d.vars@.len(),
    ensures
        d.vars@[k].erase == !occurs(rule.rhs, var_names(lhs_vars(rule_args(rule), rule.rhs))[k]),
{
    lemma_erase_iff_unused(rule_args(rule), rule.rhs);
    let vs = lhs_vars(rule_args(rule), rule.rhs);
    assert(d.vars@[k] == vs[k].0);
    assert(var_names(vs)[k] == vs[k].1);
}

/// Strictness: once a function's rules are lowered, argument `i` is strict
/// exactly when some rule's pattern there is a number or a constructor.
pub proof fn lemma_strict_iff_pattern(rules: Seq<Rule>, entries: Seq<NameEntry>, drules: Seq<DynRule>, i: int)
    requires
        drules.len() == rules.len(),
        0 <= i < fun_arity(rules),
        forall|k: int| 0 <= k < rules.len() ==> rule_error(#[trigger] rules[k], fun_arity(rules)) is None,
        forall|k: int| 0 <= k < rules.len() ==> rule_lowered(#[trigger] rules[k], entries, drules[k]),
    ensures
        is_strict(drules, i) <==> exists|r: int|
            0 <= r < rules.len() && !(#[trigger] rule_args(rules[r])[i] is Var),
{
    assert forall|r: int| 0 <= r < rules.len() implies (!(drules[r].cond@[i] is AnyVar) <==> !(
    #[trigger] rule_args(rules[r])[i] is Var)) by {
        let args = rule_args(rules[r]);
        assert(rule_error(rules[r], fun_arity(rules)) is None);
        assert(rule_lowered(rules[r], entries, drules[r]));
        assert(drules[r].cond@[i] == pattern_cond(args[i], entries));
        lemma_lhs_no_error_at(args, entries, i);
    }
    if is_strict(drules, i) {
        let r = choose|r: int| 0 <= r < drules.len() && !((#[trigger] drules[r]).cond@[i] is AnyVar);
        assert(!(rule_args(rules[r])[i] is Var));
    }
    if exists|r: int| 0 <= r < rules.len() && !(#[trigger] rule_args(rules[r])[i] is Var) {
        let r = choose|r: int| 0 <= r < rules.len() && !(#[trigger] rule_args(rules[r])[i] is Var);
        assert(!(drules[r].cond@[i] is AnyVar));
    }
}

/// Patterns without problems are variables, numbers or constructors.
proof fn lemma_lhs_no_error_at(args: Seq<Term>, entries: Seq<NameEntry>, i: int)
    requires
        lhs_error(args) is None,
        0 <= i < args.len(),
    ensures
        pattern_error(args[i]) is None,
        args[i] is Var || args[i] is U32 || args[i] is Ctr,
    decreases args.len(),
{
    if i < args.len() - 1 {
        lemma_lhs_no_error_at(args.drop_last(), entries, i);
        assert(args.drop_last()[i] == args[i]);
    }
}


/// `later` extends `earlier`: the same entries first, then new ones.
pub open spec fn extends(earlier: Seq<NameEntry>, later: Seq<NameEntry>) -> bool {
    &&& earlier.len() <= later.len()
    &&& forall|k: int| 0 <= k < earlier.len() ==> #[trigger] later[k] == earlier[k]
}

proof fn lemma_extends_find(earlier: Seq<NameEntry>, later: Seq<NameEntry>, x: Seq<char>)
    requires
        extends(earlier, later),
        find_name(earlier, x) >= 0,
    ensures
        find_name(later, x) == find_name(earlier, x),
{
    lemma_find_name(earlier, x);
    lemma_find_name(later, x);
    let f = find_name(earlier, x);
    assert(later[f] == earlier[f]);
    if find_name(later, x) < 0 {
        assert(later[f].name@ != x);
    } else if find_name(later, x) < f {
        let g = find_name(later, x);
        assert(later[g] == earlier[g]);
    }
}

fn clone_name(s: &String) -> (r: String)
    ensures
        r@ == s@,
{
    s.clone()
}

/// Every entry is marked a function exactly when its name is among `heads`.
pub open spec fn flags_ok(entries: Seq<NameEntry>, heads: Seq<Seq<char>>) -> bool {
    forall|j: int| 0 <= j < entries.len() ==> (#[trigger] entries[j]).is_fun == heads.contains(entries[j].name@)
}

fn contains_name(names: &Vec<String>, x: &String) -> (r: bool)
    ensures
        r == views(names@).contains(x@),
{
    let mut i: usize = 0;
    while i < names.len()
        invariant
            i <= names@.len(),
            forall|j: int| 0 <= j < i ==> names@[j]@ != x@,
        decreases names@.len() - i,
    {
        if same_text(names[i].as_str(), x.as_str()) {
            assert(views(names@)[i as int] == x@);
            return true;
        }
        i += 1;
    }
    assert forall|j: int| 0 <= j < views(names@).len() implies views(names@)[j] != x@ by {
        assert(views(names@)[j] == names@[j]@);
    }
    false
}

proof fn lemma_intern_flags(before: Seq<NameEntry>, after: Seq<NameEntry>, heads: Seq<Seq<char>>, x: Seq<char>, is_fun: bool)
    requires
        flags_ok(before, heads),
        extends(before, after),
        is_fun == heads.contains(x),
        after.len() == before.len() || (after.len() == before.len() + 1 && after.last().is_fun == is_fun
            && after.last().name@ == x),
    ensures
        flags_ok(after, heads),
{
    assert forall|j: int| 0 <= j < after.len() implies (#[trigger] after[j]).is_fun == heads.contains(after[j].name@) by {
        if j < before.len() {
            assert(after[j] == before[j]);
        }
    }
}

proof fn lemma_extends_trans(a: Seq<NameEntry>, b: Seq<NameEntry>, c: Seq<NameEntry>)
    requires
        extends(a, b),
        extends(b, c),
    ensures
        extends(a, c),
{
    assert forall|k: int| 0 <= k < a.len() implies #[trigger] c[k] == a[k] by {
        assert(c[k] == b[k]);
    }
}

/// The names applied in a term, each with its number of arguments, in
/// order of appearance (a name before its arguments).
pub open spec fn term_occ(t: Term) -> Seq<(Seq<char>, nat)>
    decreases t,
{
    match t {
        Term::Var { .. } => seq![],
        Term::Dup { expr, body, .. } => term_occ(*expr) + term_occ(*body),
        Term::Let { expr, body, .. } => term_occ(*expr) + term_occ(*body),
        Term::Lam { body, .. } => term_occ(*body),
        Term::App { func, argm } => term_occ(*func) + term_occ(*argm),
        Term::Ctr { name, args } => seq![(name@, args@.len())] + args_occ(args@),
        Term::U32 { .. } => seq![],
        Term::Op2 { val0, val1, .. } => term_occ(*val0) + term_occ(*val1),
    }
}

/// The names applied in the terms, in order.
pub open spec fn args_occ(args: Seq<Term>) -> Seq<(Seq<char>, nat)>
    decreases args,
{
    if args.len() == 0 {
        seq![]
    } else {
        args_occ(args.drop_last()) + term_occ(args.last())
    }
}

/// The names applied in a program, rule by rule, left side then right side.
pub open spec fn occ_list(rules: Seq<Rule>) -> Seq<(Seq<char>, nat)>
    decreases rules.len(),
{
    if rules.len() == 0 {
        seq![]
    } else {
        occ_list(rules.drop_last()) + term_occ(rules.last().lhs) + term_occ(rules.last().rhs)
    }
}

/// Some name is applied with two different numbers of arguments.
pub open spec fn arity_conflict(occ: Seq<(Seq<char>, nat)>) -> bool {
    exists|i: int, j: int|
        0 <= i < occ.len() && 0 <= j < occ.len() && (#[trigger] occ[i]).0 == (#[trigger] occ[j]).0
            && occ[i].1 != occ[j].1
}

/// Some rule's left side is not a function application.
pub open spec fn bad_head(rules: Seq<Rule>) -> bool {
    exists|k: int| 0 <= k < rules.len() && !((#[trigger] rules[k]).lhs is Ctr)
}

/// The first problem met when lowering the rules in order, each with its
/// own number of patterns.
pub open spec fn first_rule_error(rules: Seq<Rule>) -> Option<BookError>
    decreases rules.len(),
{
    if rules.len() == 0 {
        None
    } else {
        match first_rule_error(rules.drop_last()) {
            Some(e) => Some(e),
            None => rule_error(rules.last(), rule_args(rules.last()).len()),
        }
    }
}

/// Why a program has no rulebook: a left side that is not a function
/// application, else a name used with two arities, else the first rule that
/// cannot be lowered.
pub open spec fn book_error(rules: Seq<Rule>) -> Option<BookError> {
    if bad_head(rules) {
        Some(BookError::BadHead)
    } else if arity_conflict(occ_list(rules)) {
        Some(BookError::ArityMismatch)
    } else {
        first_rule_error(rules)
    }
}

/// The plain values of an occurrence list.
pub open spec fn occ_view(v: Seq<(String, u64)>) -> Seq<(Seq<char>, nat)> {
    v.map_values(|p: (String, u64)| (p.0@, p.1 as nat))
}

fn collect_occ(t: &Term, out: &mut Vec<(String, u64)>)
    ensures
        occ_view(final(out)@) == occ_view(old(out)@) + term_occ(*t),
    decreases t,
{
    let ghost o0 = occ_view(out@);
    match t {
        Term::Var { .. } => {
            assert(occ_view(out@) =~= o0 + term_occ(*t));
        },
        Term::Dup { expr, body, .. } => {
            collect_occ(expr, out);
            collect_occ(body, out);
            assert(occ_view(out@) =~= o0 + term_occ(*t));
        },
        Term::Let { expr, body, .. } => {
            collect_occ(expr, out);
            collect_occ(body, out);
            assert(occ_view(out@) =~= o0 + term_occ(*t));
        },
        Term::Lam { body, .. } => {
            collect_occ(body, out);
        },
        Term::App { func, argm } => {
            collect_occ(func, out);
            collect_occ(argm, out);
            assert(occ_view(out@) =~= o0 + term_occ(*t));
        },
        Term::Ctr { name, args } => {
            out.push((clone_name(name), args.len() as u64));
            assert(occ_view(out@) =~= o0 + seq![(name@, args@.len())]);
            collect_args_occ(args, out);
            assert(occ_view(out@) =~= o0 + term_occ(*t));
        },
        Term::U32 { .. } => {
            assert(occ_view(out@) =~= o0 + term_occ(*t));
        },
        Term::Op2 { val0, val1, .. } => {
            collect_occ(val0, out);
            collect_occ(val1, out);
            assert(occ_view(out@) =~= o0 + term_occ(*t));
        },
    }
}

fn collect_args_occ(args: &Vec<Term>, out: &mut Vec<(String, u64)>)
    ensures
        occ_view(final(out)@) == occ_view(old(out)@) + args_occ(args@),
    decreases args,
{
    let ghost o0 = occ_view(out@);
    let mut i: usize = 0;
    while i < args.len()
        invariant
            i <= args@.len(),
            occ_view(out@) == o0 + args_occ(args@.subrange(0, i as int)),
        decreases args@.len() - i,
    {
        assert(args@.subrange(0, i + 1).drop_last() =~= args@.subrange(0, i as int));
        proof {
            vstd::std_specs::vec::axiom_vec_index_decreases(*args, i as int);
        }
        collect_occ(&args[i], out);
        i += 1;
        assert(occ_view(out@) =~= o0 + args_occ(args@.subrange(0, i as int)));
    }
    assert(args@.subrange(0, args@.len() as int) =~= args@);
}

/// Is some name applied with two different numbers of arguments?
fn has_conflict(occ: &Vec<(String, u64)>) -> (r: bool)
    ensures
        r == arity_conflict(occ_view(occ@)),
{
    let ghost v = occ_view(occ@);
    let mut i: usize = 0;
    while i < occ.len()
        invariant
            v == occ_view(occ@),
            i <= occ@.len(),
            forall|a: int, b: int|
                0 <= a < i && 0 <= b < v.len() ==> !(v[a].0 == v[b].0 && v[a].1 != v[b].1),
        decreases occ@.len() - i,
    {
        let mut j: usize = 0;
        while j < occ.len()
            invariant
                v == occ_view(occ@),
                i < occ@.len(),
                j <= occ@.len(),
                forall|a: int, b: int|
                    0 <= a < i && 0 <= b < v.len() ==> !(v[a].0 == v[b].0 && v[a].1 != v[b].1),
                forall|b: int| 0 <= b < j ==> !(v[i as int].0 == v[b].0 && v[i as int].1 != v[b].1),
            decreases occ@.len() - j,
        {
            assert(v[i as int] == (occ@[i as int].0@, occ@[i as int].1 as nat));
            assert(v[j as int] == (occ@[j as int].0@, occ@[j as int].1 as nat));
            if same_text(occ[i].0.as_str(), occ[j].0.as_str()) && occ[i].1 != occ[j].1 {
                assert(v[i as int].0 == v[j as int].0 && v[i as int].1 != v[j as int].1);
                return true;
            }
            j += 1;
        }
        i += 1;
    }
    assert(!arity_conflict(v)) by {
        if arity_conflict(v) {
            let (a, b) = choose|a: int, b: int|
                0 <= a < v.len() && 0 <= b < v.len() && (#[trigger] v[a]).0 == (#[trigger] v[b]).0
                    && v[a].1 != v[b].1;
            assert(!(v[a].0 == v[b].0 && v[a].1 != v[b].1));
        }
    }
    false
}

/// Registers `name` when it is new, as a function when `is_fun`.
fn intern(entries: &mut Vec<NameEntry>, name: &String, arity: u64, is_fun: bool)
    requires
        names_ok(old(entries)@),
        old(entries)@.len() < u64::MAX,
    ensures
        names_ok(final(entries)@),
        extends(old(entries)@, final(entries)@),
        find_name(final(entries)@, name@) >= 0,
        final(entries)@.len() == old(entries)@.len() || (final(entries)@.len() == old(entries)@.len()
            + 1 && final(entries)@.last().is_fun == is_fun && final(entries)@.last().name@ == name@),
{
    proof {
        lemma_find_name(entries@, name@);
    }
    match find_entry(entries, name.as_str()) {
        Some(_) => {},
        None => {
            let n = entries.len();
            let ghost old_entries = entries@;
            entries.push(NameEntry { name: clone_name(name), id: n as u64 + 1, arity, is_fun });
            proof {
                assert forall|j: int, k: int|
                    0 <= j < k < entries@.len() implies (#[trigger] entries@[j]).name@ != (
                #[trigger] entries@[k]).name@ by {
                    if k == n {
                        assert(old_entries[j].name@ != name@);
                    } else {
                        assert(old_entries[j] == entries@[j]);
                        assert(old_entries[k] == entries@[k]);
                    }
                }
                assert(entries@.drop_last() =~= old_entries);
                assert(find_name(entries@, name@) == n);
            }
        },
    }
}

proof fn lemma_found_extends(t: Term, e1: Seq<NameEntry>, e2: Seq<NameEntry>)
    requires
        names_found(t, e1),
        extends(e1, e2),
    ensures
        names_found(t, e2),
    decreases t,
{
    match t {
        Term::Var { .. } => {},
        Term::Dup { expr, body, .. } => {
            lemma_found_extends(*expr, e1, e2);
            lemma_found_extends(*body, e1, e2);
        },
        Term::Let { expr, body, .. } => {
            lemma_found_extends(*expr, e1, e2);
            lemma_found_extends(*body, e1, e2);
        },
        Term::Lam { body, .. } => {
            lemma_found_extends(*body, e1, e2);
        },
        Term::App { func, argm } => {
            lemma_found_extends(*func, e1, e2);
            lemma_found_extends(*argm, e1, e2);
        },
        Term::Ctr { name, args } => {
            lemma_extends_find(e1, e2, name@);
            lemma_args_found_extends(args@, e1, e2);
        },
        Term::U32 { .. } => {},
        Term::Op2 { val0, val1, .. } => {
            lemma_found_extends(*val0, e1, e2);
            lemma_found_extends(*val1, e1, e2);
        },
    }
}

proof fn lemma_args_found_extends(args: Seq<Term>, e1: Seq<NameEntry>, e2: Seq<NameEntry>)
    requires
        args_found(args, e1),
        extends(e1, e2),
    ensures
        args_found(args, e2),
    decreases args,
{
    if args.len() > 0 {
        lemma_args_found_extends(args.drop_last(), e1, e2);
        lemma_found_extends(args.last(), e1, e2);
    }
}

proof fn lemma_args_occ_prefix(args: Seq<Term>, n: int)
    requires
        0 <= n <= args.len(),
    ensures
        args_occ(args.subrange(0, n)).len() <= args_occ(args).len(),
    decreases args.len() - n,
{
    if n < args.len() {
        assert(args.subrange(0, n + 1).drop_last() =~= args.subrange(0, n));
        lemma_args_occ_prefix(args, n + 1);
    } else {
        assert(args.subrange(0, n) =~= args);
    }
}

/// Registers every name applied in `t`; a name is a function when it is
/// among `heads`.
fn intern_term(entries: &mut Vec<NameEntry>, t: &Term, heads: &Vec<String>)
    requires
        names_ok(old(entries)@),
        flags_ok(old(entries)@, views(heads@)),
        old(entries)@.len() + term_occ(*t).len() <= u64::MAX,
    ensures
        names_ok(final(entries)@),
        flags_ok(final(entries)@, views(heads@)),
        extends(old(entries)@, final(entries)@),
        names_found(*t, final(entries)@),
        final(entries)@.len() <= old(entries)@.len() + term_occ(*t).len(),
    decreases t,
{
    let ghost e0 = entries@;
    match t {
        Term::Var { .. } => {},
        Term::Dup { expr, body, .. } => {
            intern_term(entries, expr, heads);
            let ghost e1 = entries@;
            intern_term(entries, body, heads);
            proof {
                lemma_extends_trans(e0, e1, entries@);
                lemma_found_extends(**expr, e1, entries@);
            }
        },
        Term::Let { expr, body, .. } => {
            intern_term(entries, expr, heads);
            let ghost e1 = entries@;
            intern_term(entries, body, heads);
            proof {
                lemma_extends_trans(e0, e1, entries@);
                lemma_found_extends(**expr, e1, entries@);
            }
        },
        Term::Lam { body, .. } => {
            intern_term(entries, body, heads);
        },
        Term::App { func, argm } => {
            intern_term(entries, func, heads);
            let ghost e1 = entries@;
            intern_term(entries, argm, heads);
            proof {
                lemma_extends_trans(e0, e1, entries@);
                lemma_found_extends(**func, e1, entries@);
            }
        },
        Term::Ctr { name, args } => {
            let is_fun = contains_name(heads, name);
            intern(entries, name, args.len() as u64, is_fun);
            proof {
                lemma_intern_flags(e0, entries@, views(heads@), name@, is_fun);
            }
            let ghost e1 = entries@;
            intern_args(entries, args, heads);
            proof {
                lemma_extends_trans(e0, e1, entries@);
                lemma_extends_find(e1, entries@, name@);
            }
        },
        Term::U32 { .. } => {},
        Term::Op2 { val0, val1, .. } => {
            intern_term(entries, val0, heads);
            let ghost e1 = entries@;
            intern_term(entries, val1, heads);
            proof {
                lemma_extends_trans(e0, e1, entries@);
                lemma_found_extends(**val0, e1, entries@);
            }
        },
    }
}

fn intern_args(entries: &mut Vec<NameEntry>, args: &Vec<Term>, heads: &Vec<String>)
    requires
        names_ok(old(entries)@),
        flags_ok(old(entries)@, views(heads@)),
        old(entries)@.len() + args_occ(args@).len() <= u64::MAX,
    ensures
        names_ok(final(entries)@),
        flags_ok(final(entries)@, views(heads@)),
        extends(old(entries)@, final(entries)@),
        args_found(args@, final(entries)@),
        final(entries)@.len() <= old(entries)@.len() + args_occ(args@).len(),
    decreases args,
{
    let ghost e0 = entries@;
    let mut i: usize = 0;
    while i < args.len()
        invariant
            e0 == old(entries)@,
            i <= args@.len(),
            e0.len() + args_occ(args@).len() <= u64::MAX,
            names_ok(entries@),
            flags_ok(entries@, views(heads@)),
            extends(e0, entries@),
            args_found(args@.subrange(0, i as int), entries@),
            entries@.len() <= e0.len() + args_occ(args@.subrange(0, i as int)).len(),
        decreases args@.len() - i,
    {
        proof {
            vstd::std_specs::vec::axiom_vec_index_decreases(*args, i as int);
            assert(args@.subrange(0, i + 1).drop_last() =~= args@.subrange(0, i as int));
            assert(args@.subrange(0, i + 1).last() == args@[i as int]);
            lemma_args_occ_prefix(args@, i + 1);
        }
        let ghost before = entries@;
        intern_term(entries, &args[i], heads);
        proof {
            lemma_extends_trans(e0, before, entries@);
            lemma_args_found_extends(args@.subrange(0, i as int), before, entries@);
        }
        i += 1;
    }
    assert(args@.subrange(0, args@.len() as int) =~= args@);
}

proof fn lemma_occ_prefix(rules: Seq<Rule>, n: int)
    requires
        0 <= n <= rules.len(),
    ensures
        occ_list(rules.subrange(0, n)).len() <= occ_list(rules).len(),
    decreases rules.len() - n,
{
    if n < rules.len() {
        assert(rules.subrange(0, n + 1).drop_last() =~= rules.subrange(0, n));
        lemma_occ_prefix(rules, n + 1);
    } else {
        assert(rules.subrange(0, n) =~= rules);
    }
}

/// Registers the names of a program in one pass over the rules, each rule's
/// left side then its right side, giving every name not seen before the
/// next id (from 1) and the arity it is used with; a name is a function
/// when some rule defines it. Fails when a left side is not a function
/// application, or else when a name is used with two arities.
pub fn register_names(rules: &Vec<Rule>) -> (r: Result<Vec<NameEntry>, BookError>)
    ensures
        match r {
            Ok(entries) => {
                &&& !bad_head(rules@)
                &&& !arity_conflict(occ_list(rules@))
                &&& names_ok(entries@)
                &&& forall|k: int| 0 <= k < rules@.len() ==> #[trigger] head_registered(rules@[k], entries@)
                &&& forall|k: int| 0 <= k < rules@.len() ==> #[trigger] rule_found(rules@[k], entries@)
            },
            Err(e) => if bad_head(rules@) {
                e == BookError::BadHead
            } else {
                arity_conflict(occ_list(rules@)) && e == BookError::ArityMismatch
            },
        },
{
    let mut heads: Vec<String> = Vec::new();
    let mut k: usize = 0;
    while k < rules.len()
        invariant
            k <= rules@.len(),
            heads@.len() == k,
            forall|q: int| 0 <= q < k ==> (#[trigger] rules@[q]).lhs is Ctr && heads@[q]@ == head_of(rules@[q]),
        decreases rules@.len() - k,
    {
        match &rules[k].lhs {
            Term::Ctr { name, .. } => {
                heads.push(clone_name(name));
            },
            _ => {
                assert(!(rules@[k as int].lhs is Ctr));
                return Err(BookError::BadHead);
            },
        }
        k += 1;
    }
    let mut occ: Vec<(String, u64)> = Vec::new();
    let mut k: usize = 0;
    while k < rules.len()
        invariant
            k <= rules@.len(),
            occ_view(occ@) == occ_list(rules@.subrange(0, k as int)),
        decreases rules@.len() - k,
    {
        assert(rules@.subrange(0, k + 1).drop_last() =~= rules@.subrange(0, k as int));
        let ghost o0 = occ_view(occ@);
        collect_occ(&rules[k].lhs, &mut occ);
        collect_occ(&rules[k].rhs, &mut occ);
        k += 1;
        assert(occ_view(occ@) =~= occ_list(rules@.subrange(0, k as int)));
    }
    assert(rules@.subrange(0, rules@.len() as int) =~= rules@);
    if has_conflict(&occ) {
        assert(!bad_head(rules@));
        return Err(BookError::ArityMismatch);
    }
    let total = occ.len();
    let ghost hv = views(heads@);
    let mut entries: Vec<NameEntry> = Vec::new();
    let mut k: usize = 0;
    while k < rules.len()
        invariant
            k <= rules@.len(),
            hv == views(heads@),
            heads@.len() == rules@.len(),
            forall|q: int| 0 <= q < rules@.len() ==> (#[trigger] rules@[q]).lhs is Ctr && heads@[q]@ == head_of(rules@[q]),
            total == occ_list(rules@).len(),
            names_ok(entries@),
            flags_ok(entries@, hv),
            entries@.len() <= occ_list(rules@.subrange(0, k as int)).len(),
            forall|q: int| 0 <= q < k ==> #[trigger] head_registered(rules@[q], entries@),
            forall|q: int| 0 <= q < k ==> #[trigger] rule_found(rules@[q], entries@),
        decreases rules@.len() - k,
    {
        let ghost before = entries@;
        proof {
            assert(rules@.subrange(0, k + 1).drop_last() =~= rules@.subrange(0, k as int));
            assert(rules@.subrange(0, k + 1).last() == rules@[k as int]);
            lemma_occ_prefix(rules@, k + 1);
        }
        intern_term(&mut entries, &rules[k].lhs, &heads);
        let ghost e1 = entries@;
        intern_term(&mut entries, &rules[k].rhs, &heads);
        proof {
            lemma_extends_trans(before, e1, entries@);
            lemma_found_extends(rules@[k as int].lhs, e1, entries@);
            let h = rules@[k as int].lhs;
            assert(hv[k as int] == head_of(rules@[k as int]));
            assert(hv.contains(head_of(rules@[k as int])));
            assert forall|q: int| 0 <= q <= k implies #[trigger] head_registered(rules@[q], entries@)
                && rule_found(rules@[q], entries@) by {
                if q < k {
                    assert(head_registered(rules@[q], before));
                    assert(rule_found(rules@[q], before));
                    lemma_find_name(before, rules@[q].lhs->Ctr_name@);
                    lemma_extends_find(before, entries@, rules@[q].lhs->Ctr_name@);
                    let f = find_name(before, rules@[q].lhs->Ctr_name@);
                    assert(entries@[f] == before[f]);
                    lemma_args_found_extends(rule_args(rules@[q]), before, entries@);
                    lemma_found_extends(rules@[q].rhs, before, entries@);
                } else {
                    lemma_find_name(entries@, h->Ctr_name@);
                    let f = find_name(entries@, h->Ctr_name@);
                    assert(entries@[f].is_fun == hv.contains(entries@[f].name@));
                    assert(names_found(h, entries@));
                    assert(args_found(h->Ctr_args@, entries@));
                    assert(rule_args(rules@[q]) == h->Ctr_args@);
                }
            }
            assert forall|q: int| 0 <= q <= k implies #[trigger] rule_found(rules@[q], entries@) by {
                assert(head_registered(rules@[q], entries@));
            }
        }
        k += 1;
    }
    Ok(entries)
}

/// The rule's head is registered as a function.
pub open spec fn head_registered(rule: Rule, entries: Seq<NameEntry>) -> bool {
    let f = find_name(entries, rule.lhs->Ctr_name@);
    &&& rule.lhs is Ctr
    &&& f >= 0
    &&& entries[f].is_fun
}

/// An id table as the runtime receives it: entry `k` holds id `k + 1`, and
/// no name appears twice.
pub open spec fn id_table_ok(t: Seq<(u64, String)>) -> bool {
    &&& forall|k: int| 0 <= k < t.len() ==> (#[trigger] t[k]).0 == k + 1
    &&& forall|j: int, k: int| 0 <= j < k < t.len() ==> (#[trigger] t[j]).1@ != (#[trigger] t[k]).1@
}

/// Names and ids correspond one to one: the entry of every id holds that
/// id, and the name at an entry is found nowhere else in the table.
pub proof fn lemma_id_table_round_trip(t: Seq<(u64, String)>, k: int, j: int)
    requires
        id_table_ok(t),
        0 <= k < t.len(),
        0 <= j < t.len(),
        t[j].1@ == t[k].1@,
    ensures
        j == k,
        t[(t[k].0 - 1) as int].1@ == t[k].1@,
{
    if j < k {
        assert(t[j].1@ != t[k].1@);
    } else if k < j {
        assert(t[k].1@ != t[j].1@);
    }
}

fn head_name(rule: &Rule) -> (r: String)
    requires
        rule.lhs is Ctr,
    ensures
        r@ == head_of(*rule),
{
    match &rule.lhs {
        Term::Ctr { name, .. } => clone_name(name),
        _ => String::new(),
    }
}

/// The name a rule defines.
pub open spec fn head_of(rule: Rule) -> Seq<char> {
    rule.lhs->Ctr_name@
}

/// The rules that define `h`, in order.
pub open spec fn rules_of(rules: Seq<Rule>, h: Seq<char>) -> Seq<Rule>
    decreases rules.len(),
{
    if rules.len() == 0 {
        seq![]
    } else {
        let p = rules_of(rules.drop_last(), h);
        if head_of(rules.last()) == h {
            p.push(rules.last())
        } else {
            p
        }
    }
}

/// The rules that define none of `hs`, in order.
pub open spec fn rules_not_of(rules: Seq<Rule>, hs: Seq<Seq<char>>) -> Seq<Rule>
    decreases rules.len(),
{
    if rules.len() == 0 {
        seq![]
    } else {
        let p = rules_not_of(rules.drop_last(), hs);
        if hs.contains(head_of(rules.last())) {
            p
        } else {
            p.push(rules.last())
        }
    }
}

proof fn lemma_rules_of_rest(rules: Seq<Rule>, hs: Seq<Seq<char>>, h: Seq<char>)
    requires
        !hs.contains(h),
    ensures
        rules_of(rules_not_of(rules, hs), h) == rules_of(rules, h),
        rules_not_of(rules_not_of(rules, hs), seq![h]) == rules_not_of(rules, hs.push(h)),
    decreases rules.len(),
{
    if rules.len() > 0 {
        lemma_rules_of_rest(rules.drop_last(), hs, h);
        let x = rules.last();
        let p = rules_not_of(rules.drop_last(), hs);
        if !hs.contains(head_of(x)) {
            assert(p.push(x).drop_last() =~= p);
        }
        assert(hs.push(h).contains(head_of(x)) <==> (hs.contains(head_of(x)) || head_of(x) == h)) by {
            if hs.push(h).contains(head_of(x)) {
                let i = choose|i: int| 0 <= i < hs.push(h).len() && hs.push(h)[i] == head_of(x);
                if i < hs.len() {
                    assert(hs[i] == head_of(x));
                }
            }
            if hs.contains(head_of(x)) {
                let i = choose|i: int| 0 <= i < hs.len() && hs[i] == head_of(x);
                assert(hs.push(h)[i] == head_of(x));
            }
            if head_of(x) == h {
                assert(hs.push(h)[hs.len() as int] == h);
            }
        }
        assert(seq![h].contains(head_of(x)) <==> head_of(x) == h) by {
            if head_of(x) == h {
                assert(seq![h][0] == h);
            }
        }
    }
}

proof fn lemma_rules_not_of_empty(rules: Seq<Rule>)
    ensures
        rules_not_of(rules, seq![]) == rules,
    decreases rules.len(),
{
    if rules.len() > 0 {
        lemma_rules_not_of_empty(rules.drop_last());
        assert(rules.drop_last().push(rules.last()) =~= rules);
    }
}

/// Builds the rulebook of a program: registers every name (see
/// [`register_names`]), groups the rules by the function they define, in
/// order of first appearance, and lowers each function's rules in order.
#[verifier::rlimit(40)]
pub fn gen_rulebook(rules: Vec<Rule>) -> (r: Result<RuleBook, BookError>)
    ensures
        r is Ok ==> book_error(rules@) is None && book_of(rules@, r->Ok_0),
        r is Err ==> book_error(rules@) == Some(r->Err_0),
{
    let entries = match register_names(&rules) {
        Ok(e) => e,
        Err(e) => {
            return Err(e);
        },
    };
    let ghost all = rules@;
    let mut k: usize = 0;
    while k < rules.len()
        invariant
            rules@ == all,
            !bad_head(all),
            !arity_conflict(occ_list(all)),
            k <= all.len(),
            first_rule_error(all.subrange(0, k as int)) is None,
            forall|q: int| 0 <= q < all.len() ==> #[trigger] rule_found(all[q], entries@),
        decreases all.len() - k,
    {
        proof {
            assert(all.subrange(0, k + 1).drop_last() =~= all.subrange(0, k as int));
            assert(all.subrange(0, k + 1).last() == all[k as int]);
            assert(rule_found(all[k as int], entries@));
        }
        let n = match &rules[k].lhs {
            Term::Ctr { args, .. } => args.len(),
            _ => {
                assert(!(all[k as int].lhs is Ctr));
                0
            },
        };
        match build_rule(&rules[k], n, &entries) {
            Ok(_) => {},
            Err(e) => {
                proof {
                    lemma_first_rule_error_prefix(all, k + 1);
                }
                return Err(e);
            },
        }
        k += 1;
    }
    proof {
        assert(all.subrange(0, all.len() as int) =~= all);
        lemma_first_rule_error_none(all);
    }
    let mut id_to_name: Vec<(u64, String)> = Vec::new();
    let mut k: usize = 0;
    while k < entries.len()
        invariant
            names_ok(entries@),
            k <= entries@.len(),
            id_to_name@.len() == k,
            forall|q: int| 0 <= q < k ==> (#[trigger] id_to_name@[q]).0 == entries@[q].id
                && id_to_name@[q].1@ == entries@[q].name@,
        decreases entries@.len() - k,
    {
        id_to_name.push((entries[k].id, clone_name(&entries[k].name)));
        k += 1;
    }
    assert(id_table_ok(id_to_name@)) by {
        assert forall|j: int, q: int| 0 <= j < q < id_to_name@.len() implies (#[trigger] id_to_name@[j]).1@
            != (#[trigger] id_to_name@[q]).1@ by {
            assert(entries@[j].name@ != entries@[q].name@);
        }
    }
    let ghost mut done: Seq<Seq<char>> = seq![];
    proof {
        lemma_rules_not_of_empty(all);
    }
    let mut rest = rules;
    let mut funcs: Vec<FuncEntry> = Vec::new();
    while rest.len() > 0
        invariant
            names_ok(entries@),
            id_to_name@.len() == entries@.len(),
            forall|q: int| 0 <= q < entries@.len() ==> (#[trigger] id_to_name@[q]).0 == entries@[q].id
                && id_to_name@[q].1@ == entries@[q].name@,
            forall|q: int| 0 <= q < all.len() ==> #[trigger] head_registered(all[q], entries@),
            forall|q: int| 0 <= q < all.len() ==> #[trigger] rule_found(all[q], entries@),
            forall|q: int| 0 <= q < all.len() ==> rule_error(#[trigger] all[q], rule_args(all[q]).len()) is None,
            !arity_conflict(occ_list(all)),
            book_error(all) is None,
            rest@ == rules_not_of(all, done),
            done.len() == funcs@.len(),
            forall|q: int| 0 <= q < funcs@.len() ==> (#[trigger] funcs@[q]).name@ == done[q],
            forall|q: int| 0 <= q < funcs@.len() ==> {
                let f = #[trigger] funcs@[q];
                1 <= f.id <= id_to_name@.len() && id_to_name@[f.id - 1].1@ == f.name@
            },
            forall|q: int| 0 <= q < funcs@.len() ==> #[trigger] fun_built(all, entries@, funcs@[q]),
            forall|q: int|
                0 <= q < all.len() ==> done.contains(head_of(#[trigger] all[q])) || rest@.contains(
                    all[q],
                ),
        decreases rest@.len(),
    {
        proof {
            lemma_rules_not_of_registered(all, done, entries@);
        }
        let head = head_name(&rest[0]);
        let ghost rest0 = rest@;
        let n0 = rest.len();
        let ghost h = head@;
        proof {
            lemma_rules_not_of_heads(all, done);
            assert(rest0.contains(rest0[0]));
        }
        let mut group: Vec<Rule> = Vec::new();
        let mut others: Vec<Rule> = Vec::new();
        let mut moved: usize = 0;
        while rest.len() > 0
            invariant
                rest0.len() > 0,
                n0 == rest0.len(),
                head_of(rest0[0]) == h,
                moved + rest@.len() == rest0.len(),
                rest@ == rest0.subrange(moved as int, rest0.len() as int),
                group@ == rules_of(rest0.subrange(0, moved as int), h),
                others@ == rules_not_of(rest0.subrange(0, moved as int), seq![h]),
                forall|q: int| 0 <= q < rest0.len() ==> (#[trigger] rest0[q]).lhs is Ctr,
                head@ == h,
            decreases rest@.len(),
        {
            let ghost before = rest@;
            let r = rest.remove(0);
            assert(r == rest0[moved as int]);
            assert(rest0.subrange(0, moved + 1).drop_last() =~= rest0.subrange(0, moved as int));
            assert(rest0.subrange(0, moved + 1).last() == r);
            assert(rest@ =~= rest0.subrange(moved + 1, rest0.len() as int));
            let hn = head_name(&r);
            assert(seq![h].contains(head_of(r)) <==> head_of(r) == h) by {
                if head_of(r) == h {
                    assert(seq![h][0] == h);
                }
            }
            if crate::template::same_text(hn.as_str(), head.as_str()) {
                group.push(r);
            } else {
                others.push(r);
            }
            moved += 1;
        }
        assert(rest0.subrange(0, rest0.len() as int) =~= rest0);
        proof {
            lemma_rules_of_rest(all, done, h);
            lemma_rules_of_nonempty(rest0, h);
        }
        rest = others;
        proof {
            lemma_group_ok(all, h, entries@);
        }
        let fun = match build_dynfun(&group, &entries) {
            Ok(f) => f,
            Err(e) => {
                proof {
                    let q = choose|q: int| 0 <= q < group@.len() && rule_error(#[trigger] group@[q], fun_arity(group@)) == Some(e);
                    lemma_group_arity(all, h, q);
                }
                assert(false);
                return Err(e);
            },
        };
        let k = match find_entry(&entries, head.as_str()) {
            Some(k) => k,
            None => {
                proof {
                    lemma_rules_of_member(all, h, 0);
                    let k0 = choose|k: int| 0 <= k < all.len() && all[k] == rules_of(all, h)[0];
                    assert(head_registered(all[k0], entries@));
                    assert(head_of(all[k0]) == h);
                }
                assert(false);
                return Err(BookError::BadHead);
            },
        };
        proof {
            lemma_find_name(entries@, head@);
        }
        let id = entries[k].id;
        let ghost old_funcs = funcs@;
        let ghost old_done = done;
        funcs.push(FuncEntry { name: head, id, fun });
        proof {
            done = done.push(h);
            assert forall|q: int| 0 <= q < funcs@.len() implies #[trigger] fun_built(all, entries@, funcs@[q]) by {
                if q < old_funcs.len() {
                    assert(funcs@[q] == old_funcs[q]);
                }
            }
            assert forall|q: int|
                0 <= q < all.len() implies done.contains(head_of(#[trigger] all[q])) || rest@.contains(all[q]) by {
                lemma_rules_not_of_members(all, done, q);
                if old_done.contains(head_of(all[q])) {
                    let i = choose|i: int| 0 <= i < old_done.len() && old_done[i] == head_of(all[q]);
                    assert(done[i] == head_of(all[q]));
                } else if head_of(all[q]) == h {
                    assert(done[old_done.len() as int] == h);
                }
            }
        }
    }
    let book = RuleBook { id_to_name, funcs };
    proof {
        assert forall|q: int| 0 <= q < all.len() implies defines(book.funcs@, head_of(#[trigger] all[q])) by {
            if done.contains(head_of(all[q])) {
                let i = choose|i: int| 0 <= i < done.len() && done[i] == head_of(all[q]);
                assert(book.funcs@[i].name@ == head_of(all[q]));
            } else {
                assert(rest@.contains(all[q]));
            }
        }
        assert(names_ok(entries@) && entries@.len() == book.id_to_name@.len() && forall|k: int|
            0 <= k < book.funcs@.len() ==> #[trigger] fun_built(all, entries@, book.funcs@[k]));
        assert(book_of(all, book));
    }
    Ok(book)
}

/// `book` is a rulebook of `rules`: its id table runs from 1 without
/// repeated names, each function carries its name's id and is built from
/// exactly the rules that define it, and every rule's function is there.
pub open spec fn book_of(rules: Seq<Rule>, book: RuleBook) -> bool {
    &&& id_table_ok(book.id_to_name@)
    &&& forall|k: int| 0 <= k < book.funcs@.len() ==> {
        let f = #[trigger] book.funcs@[k];
        1 <= f.id <= book.id_to_name@.len() && book.id_to_name@[f.id - 1].1@ == f.name@
    }
    &&& exists|entries: Seq<NameEntry>|
        {
            &&& names_ok(entries)
            &&& entries.len() == book.id_to_name@.len()
            &&& forall|q: int| 0 <= q < entries.len() ==> (#[trigger] entries[q]).name@
                == book.id_to_name@[q].1@
            &&& forall|k: int| 0 <= k < book.funcs@.len() ==> #[trigger] fun_built(
                rules,
                entries,
                book.funcs@[k],
            )
        }
    &&& forall|q: int| 0 <= q < rules.len() ==> defines(book.funcs@, head_of(#[trigger] rules[q]))
}

/// `s` holds the sections generated for `book`.
pub open spec fn sections_of(book: RuleBook, s: crate::compiler::Sections) -> bool {
    &&& s.id2nm@ == crate::compiler::id2nm_text(book.id_to_name@)
    &&& s.c_ids@ == crate::compiler::funcs_text(book.funcs@, 0).0
    &&& s.inits@ == crate::compiler::funcs_text(book.funcs@, 0).1
    &&& s.codes@ == crate::compiler::funcs_text(book.funcs@, 0).2
    &&& s.names_count == book.id_to_name@.len()
}

proof fn lemma_first_rule_error_prefix(rules: Seq<Rule>, n: int)
    requires
        0 <= n <= rules.len(),
        first_rule_error(rules.subrange(0, n)) is Some,
    ensures
        first_rule_error(rules) == first_rule_error(rules.subrange(0, n)),
    decreases rules.len() - n,
{
    if n < rules.len() {
        assert(rules.subrange(0, n + 1).drop_last() =~= rules.subrange(0, n));
        lemma_first_rule_error_prefix(rules, n + 1);
    } else {
        assert(rules.subrange(0, n) =~= rules);
    }
}

proof fn lemma_first_rule_error_none(rules: Seq<Rule>)
    requires
        first_rule_error(rules) is None,
    ensures
        forall|q: int| 0 <= q < rules.len() ==> rule_error(#[trigger] rules[q], rule_args(rules[q]).len()) is None,
    decreases rules.len(),
{
    if rules.len() > 0 {
        lemma_first_rule_error_none(rules.drop_last());
        assert forall|q: int| 0 <= q < rules.len() implies rule_error(#[trigger] rules[q], rule_args(rules[q]).len()) is None by {
            if q < rules.len() - 1 {
                assert(rules.drop_last()[q] == rules[q]);
            }
        }
    }
}

/// Each rule of `rules_of(rules, h)` is a rule of `rules` that defines `h`.
proof fn lemma_rules_of_member(rules: Seq<Rule>, h: Seq<char>, q: int)
    requires
        0 <= q < rules_of(rules, h).len(),
    ensures
        exists|k: int| 0 <= k < rules.len() && rules[k] == rules_of(rules, h)[q],
        head_of(rules_of(rules, h)[q]) == h,
    decreases rules.len(),
{
    let p = rules_of(rules.drop_last(), h);
    if q < p.len() {
        lemma_rules_of_member(rules.drop_last(), h, q);
        let k = choose|k: int| 0 <= k < rules.drop_last().len() && rules.drop_last()[k] == p[q];
        assert(rules[k] == rules.drop_last()[k]);
        if head_of(rules.last()) == h {
            assert(p.push(rules.last())[q] == p[q]);
        }
    } else {
        assert(rules[rules.len() - 1] == rules.last());
    }
}

/// Every rule's head and arity are among the program's name uses.
proof fn lemma_occ_has_head(rules: Seq<Rule>, k: int)
    requires
        0 <= k < rules.len(),
        rules[k].lhs is Ctr,
    ensures
        exists|i: int| 0 <= i < occ_list(rules).len() && occ_list(rules)[i] == (head_of(rules[k]), rule_args(rules[k]).len()),
    decreases rules.len(),
{
    let p = occ_list(rules.drop_last());
    if k < rules.len() - 1 {
        lemma_occ_has_head(rules.drop_last(), k);
        assert(rules.drop_last()[k] == rules[k]);
        let i = choose|i: int| 0 <= i < p.len() && p[i] == (head_of(rules[k]), rule_args(rules[k]).len());
        assert(occ_list(rules)[i] == p[i]);
    } else {
        let l = rules.last().lhs;
        assert(term_occ(l)[0] == (head_of(rules[k]), rule_args(rules[k]).len()));
        assert(occ_list(rules)[p.len() as int] == term_occ(l)[0]);
    }
}

/// The rules of one function can all be lowered with its arity.
proof fn lemma_group_arity(rules: Seq<Rule>, h: Seq<char>, q: int)
    requires
        !bad_head(rules),
        !arity_conflict(occ_list(rules)),
        forall|k: int| 0 <= k < rules.len() ==> rule_error(#[trigger] rules[k], rule_args(rules[k]).len()) is None,
        0 <= q < rules_of(rules, h).len(),
    ensures
        fun_arity(rules_of(rules, h)) == rule_args(rules_of(rules, h)[q]).len(),
        rule_error(rules_of(rules, h)[q], fun_arity(rules_of(rules, h))) is None,
        exists|k: int| 0 <= k < rules.len() && rules[k] == rules_of(rules, h)[q],
{
    let g = rules_of(rules, h);
    lemma_rules_of_member(rules, h, q);
    lemma_rules_of_member(rules, h, 0);
    let kq = choose|k: int| 0 <= k < rules.len() && rules[k] == g[q];
    let k0 = choose|k: int| 0 <= k < rules.len() && rules[k] == g[0];
    assert(rules[kq].lhs is Ctr);
    assert(rules[k0].lhs is Ctr);
    lemma_occ_has_head(rules, kq);
    lemma_occ_has_head(rules, k0);
    let o = occ_list(rules);
    let iq = choose|i: int| 0 <= i < o.len() && o[i] == (head_of(rules[kq]), rule_args(rules[kq]).len());
    let i0 = choose|i: int| 0 <= i < o.len() && o[i] == (head_of(rules[k0]), rule_args(rules[k0]).len());
    assert(o[iq].0 == o[i0].0);
    assert(rule_error(rules[kq], rule_args(rules[kq]).len()) is None);
}

/// The rules of one function are registered and can be lowered.
proof fn lemma_group_ok(rules: Seq<Rule>, h: Seq<char>, entries: Seq<NameEntry>)
    requires
        forall|k: int| 0 <= k < rules.len() ==> #[trigger] rule_found(rules[k], entries),
    ensures
        forall|q: int| 0 <= q < rules_of(rules, h).len() ==> #[trigger] rule_found(rules_of(rules, h)[q], entries),
{
    assert forall|q: int| 0 <= q < rules_of(rules, h).len() implies #[trigger] rule_found(rules_of(rules, h)[q], entries) by {
        lemma_rules_of_member(rules, h, q);
        let k = choose|k: int| 0 <= k < rules.len() && rules[k] == rules_of(rules, h)[q];
        assert(rule_found(rules[k], entries));
    }
}

/// One of the functions is named `h`.
pub open spec fn defines(funcs: Seq<FuncEntry>, h: Seq<char>) -> bool {
    exists|k: int| 0 <= k < funcs.len() && (#[trigger] funcs[k]).name@ == h
}

/// `f` is the function its name defines: its rules are those of `rules`
/// that define it, in order, each lowered, with the strictness they imply.
pub open spec fn fun_built(rules: Seq<Rule>, entries: Seq<NameEntry>, f: FuncEntry) -> bool {
    let group = rules_of(rules, f.name@);
    &&& f.fun.rules@.len() == group.len()
    &&& forall|q: int| 0 <= q < group.len() ==> rule_error(#[trigger] group[q], fun_arity(group)) is None
    &&& forall|q: int| 0 <= q < group.len() ==> rule_lowered(#[trigger] group[q], entries, f.fun.rules@[q])
    &&& f.fun.redex@.len() == fun_arity(group)
    &&& forall|i: int| 0 <= i < fun_arity(group) ==> f.fun.redex@[i] == is_strict(f.fun.rules@, i)
}

proof fn lemma_rules_of_nonempty(rules: Seq<Rule>, h: Seq<char>)
    requires
        rules.len() > 0,
        head_of(rules[0]) == h,
    ensures
        rules_of(rules, h).len() > 0,
        rules_not_of(rules, seq![h]).len() < rules.len(),
    decreases rules.len(),
{
    lemma_rules_of_len(rules, h);
    if rules.len() > 1 {
        assert(rules.drop_last()[0] == rules[0]);
        lemma_rules_of_nonempty(rules.drop_last(), h);
    } else {
        assert(seq![h].contains(h)) by {
            assert(seq![h][0] == h);
        }
    }
}

proof fn lemma_rules_of_len(rules: Seq<Rule>, h: Seq<char>)
    ensures
        rules_of(rules, h).len() + rules_not_of(rules, seq![h]).len() == rules.len(),
    decreases rules.len(),
{
    if rules.len() > 0 {
        lemma_rules_of_len(rules.drop_last(), h);
        let x = rules.last();
        assert(seq![h].contains(head_of(x)) <==> head_of(x) == h) by {
            if head_of(x) == h {
                assert(seq![h][0] == h);
            }
        }
    }
}

proof fn lemma_rules_not_of_registered(rules: Seq<Rule>, hs: Seq<Seq<char>>, entries: Seq<NameEntry>)
    requires
        forall|q: int| 0 <= q < rules.len() ==> #[trigger] head_registered(rules[q], entries),
    ensures
        forall|q: int| 0 <= q < rules_not_of(rules, hs).len() ==> (#[trigger] rules_not_of(rules, hs)[q]).lhs is Ctr,
    decreases rules.len(),
{
    if rules.len() > 0 {
        assert forall|q: int| 0 <= q < rules.len() - 1 implies #[trigger] head_registered(rules.drop_last()[q], entries) by {
            assert(rules.drop_last()[q] == rules[q]);
        }
        lemma_rules_not_of_registered(rules.drop_last(), hs, entries);
        assert(head_registered(rules[rules.len() - 1], entries));
    }
}

proof fn lemma_rules_not_of_heads(rules: Seq<Rule>, hs: Seq<Seq<char>>)
    ensures
        forall|q: int| 0 <= q < rules_not_of(rules, hs).len() ==> !hs.contains(head_of(#[trigger] rules_not_of(rules, hs)[q])),
    decreases rules.len(),
{
    if rules.len() > 0 {
        lemma_rules_not_of_heads(rules.drop_last(), hs);
        let p = rules_not_of(rules.drop_last(), hs);
        let x = rules.last();
        if !hs.contains(head_of(x)) {
            assert forall|q: int| 0 <= q < p.len() + 1 implies !hs.contains(head_of(#[trigger] p.push(x)[q])) by {
                if q < p.len() {
                    assert(p.push(x)[q] == p[q]);
                }
            }
        }
    }
}

proof fn lemma_rules_not_of_members(rules: Seq<Rule>, hs: Seq<Seq<char>>, q: int)
    requires
        0 <= q < rules.len(),
    ensures
        hs.contains(head_of(rules[q])) || rules_not_of(rules, hs).contains(rules[q]),
    decreases rules.len(),
{
    if q < rules.len() - 1 {
        lemma_rules_not_of_members(rules.drop_last(), hs, q);
        assert(rules.drop_last()[q] == rules[q]);
        let p = rules_not_of(rules.drop_last(), hs);
        if p.contains(rules[q]) {
            let i = choose|i: int| 0 <= i < p.len() && p[i] == rules[q];
            if !hs.contains(head_of(rules.last())) {
                assert(p.push(rules.last())[i] == rules[q]);
            }
        }
    } else {
        let p = rules_not_of(rules.drop_last(), hs);
        if !hs.contains(head_of(rules[q])) {
            assert(p.push(rules.last())[p.len() as int] == rules[q]);
        }
    }
}

/// Largest node count the emitter accepts for one right-hand side: five
/// temporary names per node must stay countable.
pub const MAX_TERM_SIZE: u64 = 3689348814741910323;

/// Deepest binding stack that is checked.
pub const MAX_DEPTH: u64 = 9223372036854775807;

/// How many bindings a term pushes at most, on its deepest path.
pub open spec fn binder_depth(t: DynTerm) -> nat
    decreases t,
{
    match t {
        DynTerm::Var { .. } => 0,
        DynTerm::Dup { expr, body, .. } => vstd::math::max(
            binder_depth(*expr) as int,
            (2 + binder_depth(*body)) as int,
        ) as nat,
        DynTerm::Let { expr, body } => vstd::math::max(
            binder_depth(*expr) as int,
            (1 + binder_depth(*body)) as int,
        ) as nat,
        DynTerm::Lam { body, .. } => 1 + binder_depth(*body),
        DynTerm::App { func, argm } => vstd::math::max(
            binder_depth(*func) as int,
            binder_depth(*argm) as int,
        ) as nat,
        DynTerm::Ctr { args, .. } => args_binder_depth(args@),
        DynTerm::Cal { args, .. } => args_binder_depth(args@),
        DynTerm::U32 { .. } => 0,
        DynTerm::Op2 { val0, val1, .. } => vstd::math::max(
            binder_depth(*val0) as int,
            binder_depth(*val1) as int,
        ) as nat,
    }
}

/// The deepest binder depth among the terms.
pub open spec fn args_binder_depth(args: Seq<DynTerm>) -> nat
    decreases args,
{
    if args.len() == 0 {
        0
    } else {
        vstd::math::max(
            args_binder_depth(args.drop_last()) as int,
            binder_depth(args.last()) as int,
        ) as nat
    }
}

/// A term can be emitted under a stack of `depth` bindings: it refers only
/// to bound variables, and its size and binding depth stay in range.
pub open spec fn fits(t: DynTerm, depth: nat) -> bool {
    scoped(t, depth) && term_size(t) <= MAX_TERM_SIZE && depth + binder_depth(t) <= MAX_DEPTH
}

/// The terms can all be emitted under a stack of `depth` bindings.
pub open spec fn args_fit(args: Seq<DynTerm>, depth: nat) -> bool {
    args_scoped(args, depth) && args_size(args) <= MAX_TERM_SIZE && depth + args_binder_depth(args)
        <= MAX_DEPTH
}

/// The size of a term when it fits under `depth` bindings.
#[verifier::rlimit(40)]
pub fn checked_size(t: &DynTerm, depth: u64) -> (r: Option<u64>)
    requires
        depth <= MAX_DEPTH,
    ensures
        match r {
            Some(n) => fits(*t, depth as nat) && n == term_size(*t),
            None => !fits(*t, depth as nat),
        },
    decreases t,
{
    match t {
        DynTerm::Var { bidx } => if *bidx < depth {
            Some(1)
        } else {
            None
        },
        DynTerm::Dup { expr, body, .. } => {
            if depth > MAX_DEPTH - 2 {
                return None;
            }
            let a = checked_size(expr, depth)?;
            let b = checked_size(body, depth + 2)?;
            if a >= MAX_TERM_SIZE || b > MAX_TERM_SIZE - 1 - a { None } else { Some(1 + a + b) }
        },
        DynTerm::Let { expr, body } => {
            if depth > MAX_DEPTH - 1 {
                return None;
            }
            let a = checked_size(expr, depth)?;
            let b = checked_size(body, depth + 1)?;
            if a >= MAX_TERM_SIZE || b > MAX_TERM_SIZE - 1 - a { None } else { Some(1 + a + b) }
        },
        DynTerm::Lam { body, .. } => {
            if depth > MAX_DEPTH - 1 {
                return None;
            }
            let b = checked_size(body, depth + 1)?;
            if b >= MAX_TERM_SIZE { None } else { Some(1 + b) }
        },
        DynTerm::App { func, argm } => {
            let a = checked_size(func, depth)?;
            let b = checked_size(argm, depth)?;
            if a >= MAX_TERM_SIZE || b > MAX_TERM_SIZE - 1 - a { None } else { Some(1 + a + b) }
        },
        DynTerm::Ctr { args, .. } => {
            let a = checked_args_size(args, depth)?;
            if a >= MAX_TERM_SIZE { None } else { Some(1 + a) }
        },
        DynTerm::Cal { args, .. } => {
            let a = checked_args_size(args, depth)?;
            if a >= MAX_TERM_SIZE { None } else { Some(1 + a) }
        },
        DynTerm::U32 { .. } => Some(1),
        DynTerm::Op2 { val0, val1, .. } => {
            let a = checked_size(val0, depth)?;
            let b = checked_size(val1, depth)?;
            if a >= MAX_TERM_SIZE || b > MAX_TERM_SIZE - 1 - a { None } else { Some(1 + a + b) }
        },
    }
}

fn checked_args_size(args: &Vec<DynTerm>, depth: u64) -> (r: Option<u64>)
    requires
        depth <= MAX_DEPTH,
    ensures
        match r {
            Some(n) => args_fit(args@, depth as nat) && n == args_size(args@),
            None => !args_fit(args@, depth as nat),
        },
    decreases args,
{
    let mut total: u64 = 0;
    let mut i: usize = 0;
    while i < args.len()
        invariant
            depth <= MAX_DEPTH,
            i <= args@.len(),
            args_fit(args@.subrange(0, i as int), depth as nat),
            total == args_size(args@.subrange(0, i as int)),
        decreases args@.len() - i,
    {
        assert(args@.subrange(0, i + 1).drop_last() =~= args@.subrange(0, i as int));
        proof {
            vstd::std_specs::vec::axiom_vec_index_decreases(*args, i as int);
        }
        let n = match checked_size(&args[i], depth) {
            Some(n) => n,
            None => {
                proof {
                    lemma_args_prefix_mono(args@, i as int + 1, depth as nat);
                }
                return None;
            },
        };
        if n > MAX_TERM_SIZE - total {
            proof {
                lemma_args_prefix_mono(args@, i as int + 1, depth as nat);
            }
            return None;
        }
        total = total + n;
        i += 1;
    }
    assert(args@.subrange(0, args@.len() as int) =~= args@);
    Some(total)
}

proof fn lemma_args_prefix_mono(args: Seq<DynTerm>, n: int, depth: nat)
    requires
        0 <= n <= args.len(),
    ensures
        args_scoped(args, depth) ==> args_scoped(args.subrange(0, n), depth),
        args_size(args.subrange(0, n)) <= args_size(args),
        args_binder_depth(args.subrange(0, n)) <= args_binder_depth(args),
    decreases args.len() - n,
{
    if n < args.len() {
        assert(args.subrange(0, n + 1).drop_last() =~= args.subrange(0, n));
        lemma_args_prefix_mono(args, n + 1, depth);
    } else {
        assert(args.subrange(0, n) =~= args);
    }
}


/// Every function's rules can be emitted, and all right-hand sides together
/// have fewer nodes than labels can count.
pub open spec fn book_fits(book: RuleBook) -> bool {
    &&& forall|k: int, q: int|
        0 <= k < book.funcs@.len() && 0 <= q < book.funcs@[k].fun.rules@.len() ==> fits(
            (#[trigger] book.funcs@[k].fun.rules@[q]).term,
            book.funcs@[k].fun.rules@[q].vars@.len(),
        )
    &&& funcs_size(book.funcs@) <= u64::MAX
    &&& book.id_to_name@.len() < u64::MAX
}

/// A book that fits can be emitted.
pub proof fn lemma_fits_ok(book: RuleBook)
    requires
        book_fits(book),
    ensures
        book_ok(book),
{
    assert forall|k: int| 0 <= k < book.funcs@.len() implies rules_ok(#[trigger] book.funcs@[k].fun.rules@) by {
        assert forall|q: int| 0 <= q < book.funcs@[k].fun.rules@.len() implies scoped(
            #[trigger] book.funcs@[k].fun.rules@[q].term,
            book.funcs@[k].fun.rules@[q].vars@.len(),
        ) && 5 * term_size(book.funcs@[k].fun.rules@[q].term) <= u64::MAX by {
            assert(fits(book.funcs@[k].fun.rules@[q].term, book.funcs@[k].fun.rules@[q].vars@.len()));
        }
    }
}

fn rules_total(rules: &Vec<DynRule>) -> (r: Option<u64>)
    ensures
        match r {
            Some(n) => n == rules_size(rules@) && forall|q: int|
                0 <= q < rules@.len() ==> fits((#[trigger] rules@[q]).term, rules@[q].vars@.len()),
            None => !(rules_size(rules@) <= u64::MAX && forall|q: int|
                0 <= q < rules@.len() ==> fits((#[trigger] rules@[q]).term, rules@[q].vars@.len())),
        },
{
    let mut total: u64 = 0;
    let mut q: usize = 0;
    while q < rules.len()
        invariant
            q <= rules@.len(),
            total == rules_size(rules@.subrange(0, q as int)),
            forall|j: int| 0 <= j < q ==> fits((#[trigger] rules@[j]).term, rules@[j].vars@.len()),
        decreases rules@.len() - q,
    {
        assert(rules@.subrange(0, q + 1).drop_last() =~= rules@.subrange(0, q as int));
        let n = rules[q].vars.len();
        if n as u64 > MAX_DEPTH {
            return None;
        }
        let size = match checked_size(&rules[q].term, n as u64) {
            Some(x) => x,
            None => {
                return None;
            },
        };
        if size > u64::MAX - total {
            proof {
                lemma_rules_size_mono(rules@, q as int + 1);
            }
            return None;
        }
        total = total + size;
        q += 1;
    }
    assert(rules@.subrange(0, rules@.len() as int) =~= rules@);
    Some(total)
}

proof fn lemma_rules_size_mono(rules: Seq<DynRule>, n: int)
    requires
        0 <= n <= rules.len(),
    ensures
        rules_size(rules.subrange(0, n)) <= rules_size(rules),
    decreases rules.len() - n,
{
    if n < rules.len() {
        assert(rules.subrange(0, n + 1).drop_last() =~= rules.subrange(0, n));
        lemma_rules_size_mono(rules, n + 1);
    } else {
        assert(rules.subrange(0, n) =~= rules);
    }
}

/// Whether a rulebook can be emitted: see [`book_fits`].
pub fn check_book(book: &RuleBook) -> (r: bool)
    ensures
        r == book_fits(*book),
{
    if book.id_to_name.len() as u64 == u64::MAX {
        return false;
    }
    let mut total: u64 = 0;
    let mut k: usize = 0;
    while k < book.funcs.len()
        invariant
            k <= book.funcs@.len(),
            total == funcs_size(book.funcs@.subrange(0, k as int)),
            forall|j: int, q: int|
                0 <= j < k && 0 <= q < book.funcs@[j].fun.rules@.len() ==> fits(
                    (#[trigger] book.funcs@[j].fun.rules@[q]).term,
                    book.funcs@[j].fun.rules@[q].vars@.len(),
                ),
        decreases book.funcs@.len() - k,
    {
        assert(book.funcs@.subrange(0, k + 1).drop_last() =~= book.funcs@.subrange(0, k as int));
        proof {
            crate::compiler::lemma_funcs_size_prefix(book.funcs@, k as int);
        }
        let n = match rules_total(&book.funcs[k].fun.rules) {
            Some(n) => n,
            None => {
                assert(!book_fits(*book)) by {
                    if book_fits(*book) {
                        assert forall|q: int| 0 <= q < book.funcs@[k as int].fun.rules@.len() implies fits(
                            (#[trigger] book.funcs@[k as int].fun.rules@[q]).term,
                            book.funcs@[k as int].fun.rules@[q].vars@.len(),
                        ) by {
                            assert(fits(book.funcs@[k as int].fun.rules@[q].term, book.funcs@[k as int].fun.rules@[q].vars@.len()));
                        }
                    }
                }
                return false;
            },
        };
        if n > u64::MAX - total {
            return false;
        }
        total = total + n;
        k += 1;
    }
    assert(book.funcs@.subrange(0, book.funcs@.len() as int) =~= book.funcs@);
    true
}

/// Why a program could not be compiled.
#[derive(Clone, Debug, PartialEq, Eq)]
pub enum CompileError {
    /// The rules are not a well-formed program.
    Book(BookError),
    /// The program is too large to number its temporaries.
    TooLarge,
    /// The runtime template could not be filled.
    Template(TemplateError),
}

/// Compiles a program into the C text of its runtime: builds the rulebook,
/// generates its sections and fills the template with them.
pub fn compile_code(rules: Vec<Rule>, template: &str, parts: &RuntimeParts) -> (r: Result<
    String,
    CompileError,
>)
    ensures
        match r {
            Ok(t) => book_error(rules@) is None && exists|book: RuleBook, s: crate::compiler::Sections|
                book_of(rules@, book) && book_fits(book) && sections_of(book, s) && splice_spec(
                    template,
                    slot_matches(template@),
                    s,
                    *parts,
                ) == Ok::<Seq<char>, TemplateError>(t@),
            Err(CompileError::Book(e)) => book_error(rules@) == Some(e),
            Err(CompileError::TooLarge) => book_error(rules@) is None && exists|book: RuleBook|
                book_of(rules@, book) && !book_fits(book),
            Err(CompileError::Template(e)) => book_error(rules@) is None && exists|
                book: RuleBook,
                s: crate::compiler::Sections,
            |
                book_of(rules@, book) && book_fits(book) && sections_of(book, s) && splice_spec(
                    template,
                    slot_matches(template@),
                    s,
                    *parts,
                ) == Err::<Seq<char>, TemplateError>(e),
        },
{
    let ghost all = rules@;
    let book = match gen_rulebook(rules) {
        Ok(b) => b,
        Err(e) => {
            return Err(CompileError::Book(e));
        },
    };
    if !check_book(&book) {
        return Err(CompileError::TooLarge);
    }
    proof {
        lemma_fits_ok(book);
    }
    let sections = compile_book(&book);
    assert(sections_of(book, sections));
    match c_runtime_template(template, &sections, parts) {
        Ok(t) => Ok(t),
        Err(e) => Err(CompileError::Template(e)),
    }
}

} // verus!
