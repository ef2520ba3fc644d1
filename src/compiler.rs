//! Emission of the C text that drives the runtime for a lowered rulebook:
//! for each function, the block that schedules its strict arguments and the
//! block that matches its rules and builds their right-hand sides.
use vstd::prelude::*;

use crate::builder::{
    args_dups, args_scoped, args_size, count_dups, scoped, term_size, Cond, DynFun, DynRule,
    DynTerm, DynVar, ADD, AND, DIV, EQL, GTE, GTN, LTE, LTN, MOD, MUL, NEQ, OR, SHL, SHR, SUB, XOR,
};
use crate::strings::{decimal, push_char, push_decimal};

verus! {

/// `tab` levels of two-space indentation.
pub open spec fn indent(tab: nat) -> Seq<char>
    decreases tab,
{
    if tab == 0 {
        seq![]
    } else {
        indent((tab - 1) as nat) + "  "@
    }
}

/// One line of output: indentation, the text, a newline.
pub open spec fn line_text(tab: nat, text: Seq<char>) -> Seq<char> {
    indent(tab) + text + "\n"@
}

/// Appends `text` as one line, indented by `tab` levels.
pub fn line(code: &mut String, tab: u64, text: &str)
    ensures
        final(code)@ == old(code)@ + line_text(tab as nat, text@),
{
    let ghost c0 = code@;
    let mut i: u64 = 0;
    while i < tab
        invariant
            i <= tab,
            code@ == c0 + indent(i as nat),
        decreases tab - i,
    {
        code.append("  ");
        i += 1;
    }
    code.append(text);
    push_char(code, '\n');
    proof {
        reveal_strlit("\n");
    }
    assert(code@ =~= c0 + line_text(tab as nat, text@));
}

/// A temporary identifier: the prefix, `_`, and the counter.
pub open spec fn fresh_name(prefix: Seq<char>, n: nat) -> Seq<char> {
    prefix + "_"@ + decimal(n)
}

fn fresh(nams: &mut u64, prefix: &str) -> (r: String)
    requires
        *old(nams) < u64::MAX,
    ensures
        r@ == fresh_name(prefix@, *old(nams) as nat),
        *final(nams) == *old(nams) + 1,
{
    let mut r = String::new();
    r.append(prefix);
    r.append("_");
    push_decimal(&mut r, *nams);
    *nams += 1;
    assert(r@ =~= fresh_name(prefix@, *old(nams) as nat));
    r
}

/// The C operator text of a numeric operator, spaced as emitted.
pub open spec fn op_symbol(oper: u64) -> Seq<char> {
    if oper == ADD {
        " + "@
    } else if oper == SUB {
        " - "@
    } else if oper == MUL {
        " * "@
    } else if oper == DIV {
        " / "@
    } else if oper == MOD {
        " % "@
    } else if oper == AND {
        " & "@
    } else if oper == OR {
        " | "@
    } else if oper == XOR {
        " ^ "@
    } else if oper == SHL {
        " << "@
    } else if oper == SHR {
        " >> "@
    } else if oper == LTN {
        " <  "@
    } else if oper == LTE {
        " <= "@
    } else if oper == EQL {
        " == "@
    } else if oper == GTE {
        " >= "@
    } else if oper == GTN {
        " >  "@
    } else {
        " != "@
    }
}

/// The runtime's name of a numeric operator (`?` for an unknown one).
pub open spec fn op_name(oper: u64) -> Seq<char> {
    if oper == ADD {
        "ADD"@
    } else if oper == SUB {
        "SUB"@
    } else if oper == MUL {
        "MUL"@
    } else if oper == DIV {
        "DIV"@
    } else if oper == MOD {
        "MOD"@
    } else if oper == AND {
        "AND"@
    } else if oper == OR {
        "OR"@
    } else if oper == XOR {
        "XOR"@
    } else if oper == SHL {
        "SHL"@
    } else if oper == SHR {
        "SHR"@
    } else if oper == LTN {
        "LTN"@
    } else if oper == LTE {
        "LTE"@
    } else if oper == EQL {
        "EQL"@
    } else if oper == GTE {
        "GTE"@
    } else if oper == GTN {
        "GTN"@
    } else if oper == NEQ {
        "NEQ"@
    } else {
        "?"@
    }
}

/// The statement that computes a numeric operation inline on two unboxed
/// values `a` and `b` into `retx`; comparisons yield 0 or 1.
pub open spec fn op_inline(oper: u64, retx: Seq<char>, a: Seq<char>, b: Seq<char>) -> Seq<char> {
    if oper <= SHR {
        retx + " = U_32("@ + a + op_symbol(oper) + b + ");"@
    } else if oper <= NEQ {
        retx + " = U_32("@ + a + op_symbol(oper) + b + " ? 1 : 0);"@
    } else {
        retx + " = ?;"@
    }
}

fn op_symbol_str(oper: u64) -> (r: &'static str)
    requires
        oper <= NEQ,
    ensures
        r@ == op_symbol(oper),
{
    if oper == ADD {
        " + "
    } else if oper == SUB {
        " - "
    } else if oper == MUL {
        " * "
    } else if oper == DIV {
        " / "
    } else if oper == MOD {
        " % "
    } else if oper == AND {
        " & "
    } else if oper == OR {
        " | "
    } else if oper == XOR {
        " ^ "
    } else if oper == SHL {
        " << "
    } else if oper == SHR {
        " >> "
    } else if oper == LTN {
        " <  "
    } else if oper == LTE {
        " <= "
    } else if oper == EQL {
        " == "
    } else if oper == GTE {
        " >= "
    } else if oper == GTN {
        " >  "
    } else {
        " != "
    }
}

fn op_name_str(oper: u64) -> (r: &'static str)
    ensures
        r@ == op_name(oper),
{
    if oper == ADD {
        "ADD"
    } else if oper == SUB {
        "SUB"
    } else if oper == MUL {
        "MUL"
    } else if oper == DIV {
        "DIV"
    } else if oper == MOD {
        "MOD"
    } else if oper == AND {
        "AND"
    } else if oper == OR {
        "OR"
    } else if oper == XOR {
        "XOR"
    } else if oper == SHL {
        "SHL"
    } else if oper == SHR {
        "SHR"
    } else if oper == LTN {
        "LTN"
    } else if oper == LTE {
        "LTE"
    } else if oper == EQL {
        "EQL"
    } else if oper == GTE {
        "GTE"
    } else if oper == GTN {
        "GTN"
    } else if oper == NEQ {
        "NEQ"
    } else {
        "?"
    }
}

fn emit_op_inline(code: &mut String, tab: u64, oper: u64, retx: &String, a: &String, b: &String)
    ensures
        final(code)@ == old(code)@ + line_text(tab as nat, op_inline(oper, retx@, a@, b@)),
{
    let mut s = String::new();
    s.append(retx.as_str());
    if oper <= SHR {
        s.append(" = U_32(");
        s.append(a.as_str());
        s.append(op_symbol_str(oper));
        s.append(b.as_str());
        s.append(");");
    } else if oper <= NEQ {
        s.append(" = U_32(");
        s.append(a.as_str());
        s.append(op_symbol_str(oper));
        s.append(b.as_str());
        s.append(" ? 1 : 0);");
    } else {
        s.append(" = ?;");
    }
    assert(s@ =~= op_inline(oper, retx@, a@, b@));
    line(code, tab, s.as_str());
}

fn wrap(prefix: &str, inner: &String, suffix: &str) -> (r: String)
    ensures
        r@ == prefix@ + inner@ + suffix@,
{
    let mut r = String::new();
    r.append(prefix);
    r.append(inner.as_str());
    r.append(suffix);
    assert(r@ =~= prefix@ + inner@ + suffix@);
    r
}

/// Declares the copy and the two duplicate bindings, with the fast path for numbers.
#[verifier::opaque]
pub open spec fn dup_open(tab: nat, copy: Seq<char>, ev: Seq<char>, dp0: Seq<char>, dp1: Seq<char>) -> Seq<char> {
    line_text(tab, "u64 "@ + copy + " = "@ + ev + ";"@)
        + line_text(tab, "u64 "@ + dp0 + ";"@)
        + line_text(tab, "u64 "@ + dp1 + ";"@)
        + line_text(tab, "if (get_tag("@ + copy + ") == U32) {"@)
        + line_text(tab + 1, "inc_cost(mem);"@)
        + line_text(tab + 1, dp0 + " = "@ + copy + ";"@)
        + line_text(tab + 1, dp1 + " = "@ + copy + ";"@)
        + line_text(tab, "} else {"@)
}

/// Allocates a duplicator node and names its label.
#[verifier::opaque]
pub open spec fn dup_alloc(tab: nat, name: Seq<char>, coln: Seq<char>, colx: nat) -> Seq<char> {
    line_text(tab + 1, "u64 "@ + name + " = alloc(mem, 3);"@)
        + line_text(tab + 1, "u64 "@ + coln + " = "@ + decimal(colx) + ";"@)
}

/// Erases the first duplicate.
#[verifier::opaque]
pub open spec fn dup_era0(tab: nat, name: Seq<char>) -> Seq<char> {
    line_text(tab + 1, "link(mem, "@ + name + " + 0, Era());"@)
}

/// Erases the second duplicate.
#[verifier::opaque]
pub open spec fn dup_era1(tab: nat, name: Seq<char>) -> Seq<char> {
    line_text(tab + 1, "link(mem, "@ + name + " + 1, Era());"@)
}

/// Links the duplicated term and binds both duplicates.
#[verifier::opaque]
pub open spec fn dup_close(tab: nat, name: Seq<char>, copy: Seq<char>, dp0: Seq<char>, dp1: Seq<char>, colx: nat) -> Seq<char> {
    line_text(tab + 1, "link(mem, "@ + name + " + 2, "@ + copy + ");"@)
        + line_text(tab + 1, dp0 + " = Dp0("@ + decimal(colx) + ", "@ + name + ");"@)
        + line_text(tab + 1, dp1 + " = Dp1("@ + decimal(colx) + ", "@ + name + ");"@)
        + line_text(tab, "}"@)
}

/// Allocates a two-cell node.
#[verifier::opaque]
pub open spec fn alloc2(tab: nat, name: Seq<char>) -> Seq<char> {
    line_text(tab, "u64 "@ + name + " = alloc(mem, 2);"@)
}

/// Links the first cell of a node.
#[verifier::opaque]
pub open spec fn link0(tab: nat, name: Seq<char>, v: Seq<char>) -> Seq<char> {
    line_text(tab, "link(mem, "@ + name + " + 0, "@ + v + ");"@)
}

/// Links the second cell of a node.
#[verifier::opaque]
pub open spec fn link1(tab: nat, name: Seq<char>, v: Seq<char>) -> Seq<char> {
    line_text(tab, "link(mem, "@ + name + " + 1, "@ + v + ");"@)
}

/// Links the first cell of a node to the erasure constant.
#[verifier::opaque]
pub open spec fn era0(tab: nat, name: Seq<char>) -> Seq<char> {
    line_text(tab, "link(mem, "@ + name + " + 0, Era());"@)
}

/// Allocates an `n`-cell node.
#[verifier::opaque]
pub open spec fn allocn(tab: nat, name: Seq<char>, n: nat) -> Seq<char> {
    line_text(tab, "u64 "@ + name + " = alloc(mem, "@ + decimal(n) + ");"@)
}

/// Links cell `i` of a node.
#[verifier::opaque]
pub open spec fn linki(tab: nat, name: Seq<char>, v: Seq<char>, i: nat) -> Seq<char> {
    line_text(tab, "link(mem, "@ + name + " + "@ + decimal(i) + ", "@ + v + ");"@)
}

/// Declares the result of a numeric operation and tests for two numbers.
#[verifier::opaque]
pub open spec fn op_open(tab: nat, retx: Seq<char>, a: Seq<char>, b: Seq<char>) -> Seq<char> {
    line_text(tab, "u64 "@ + retx + ";"@)
        + line_text(tab, "if (get_tag("@ + a + ") == U32 && get_tag("@ + b + ") == U32) {"@)
}

/// Counts the inline operation; else allocates an operation node.
#[verifier::opaque]
pub open spec fn op_close(tab: nat, retx: Seq<char>, name: Seq<char>, a: Seq<char>, b: Seq<char>, opname: Seq<char>) -> Seq<char> {
    line_text(tab + 1, "inc_cost(mem);"@)
        + line_text(tab, "} else {"@)
        + line_text(tab + 1, "u64 "@ + name + " = alloc(mem, 2);"@)
        + line_text(tab + 1, "link(mem, "@ + name + " + 0, "@ + a + ");"@)
        + line_text(tab + 1, "link(mem, "@ + name + " + 1, "@ + b + ");"@)
        + line_text(tab + 1, retx + " = Op2("@ + opname + ", "@ + name + ");"@)
        + line_text(tab, "}"@)
}

fn emit_dup_open(code: &mut String, tab: u64, copy: &String, ev: &String, dp0: &String, dp1: &String)
    requires
        tab < u64::MAX,
    ensures
        final(code)@ == old(code)@ + dup_open(tab as nat, copy@, ev@, dp0@, dp1@),
{
    let ghost c0 = code@;
    reveal(dup_open);
    {
        let mut s = String::new();
        s.append("u64 ");
        s.append(copy.as_str());
        s.append(" = ");
        s.append(ev.as_str());
        s.append(";");
        assert(s@ =~= "u64 "@ + copy@ + " = "@ + ev@ + ";"@);
        line(code, tab, s.as_str());
    }
    {
        let mut s = String::new();
        s.append("u64 ");
        s.append(dp0.as_str());
        s.append(";");
        assert(s@ =~= "u64 "@ + dp0@ + ";"@);
        line(code, tab, s.as_str());
    }
    {
        let mut s = String::new();
        s.append("u64 ");
        s.append(dp1.as_str());
        s.append(";");
        assert(s@ =~= "u64 "@ + dp1@ + ";"@);
        line(code, tab, s.as_str());
    }
    {
        let mut s = String::new();
        s.append("if (get_tag(");
        s.append(copy.as_str());
        s.append(") == U32) {");
        assert(s@ =~= "if (get_tag("@ + copy@ + ") == U32) {"@);
        line(code, tab, s.as_str());
    }
    {
        let mut s = String::new();
        s.append("inc_cost(mem);");
        assert(s@ =~= "inc_cost(mem);"@);
        line(code, tab + 1, s.as_str());
    }
    {
        let mut s = String::new();
        s.append(dp0.as_str());
        s.append(" = ");
        s.append(copy.as_str());
        s.append(";");
        assert(s@ =~= dp0@ + " = "@ + copy@ + ";"@);
        line(code, tab + 1, s.as_str());
    }
    {
        let mut s = String::new();
        s.append(dp1.as_str());
        s.append(" = ");
        s.append(copy.as_str());
        s.append(";");
        assert(s@ =~= dp1@ + " = "@ + copy@ + ";"@);
        line(code, tab + 1, s.as_str());
    }
    {
        let mut s = String::new();
        s.append("} else {");
        assert(s@ =~= "} else {"@);
        line(code, tab, s.as_str());
    }
    assert(code@ =~= c0 + dup_open(tab as nat, copy@, ev@, dp0@, dp1@));
}

fn emit_dup_alloc(code: &mut String, tab: u64, name: &String, coln: &String, colx: u64)
    requires
        tab < u64::MAX,
    ensures
        final(code)@ == old(code)@ + dup_alloc(tab as nat, name@, coln@, colx as nat),
{
    let ghost c0 = code@;
    reveal(dup_alloc);
    {
        let mut s = String::new();
        s.append("u64 ");
        s.append(name.as_str());
        s.append(" = alloc(mem, 3);");
        assert(s@ =~= "u64 "@ + name@ + " = alloc(mem, 3);"@);
        line(code, tab + 1, s.as_str());
    }
    {
        let mut s = String::new();
        s.append("u64 ");
        s.append(coln.as_str());
        s.append(" = ");
        push_decimal(&mut s, colx);
        s.append(";");
        assert(s@ =~= "u64 "@ + coln@ + " = "@ + decimal(colx as nat) + ";"@);
        line(code, tab + 1, s.as_str());
    }
    assert(code@ =~= c0 + dup_alloc(tab as nat, name@, coln@, colx as nat));
}

fn emit_dup_era0(code: &mut String, tab: u64, name: &String)
    requires
        tab < u64::MAX,
    ensures
        final(code)@ == old(code)@ + dup_era0(tab as nat, name@),
{
    let ghost c0 = code@;
    reveal(dup_era0);
    {
        let mut s = String::new();
        s.append("link(mem, ");
        s.append(name.as_str());
        s.append(" + 0, Era());");
        assert(s@ =~= "link(mem, "@ + name@ + " + 0, Era());"@);
        line(code, tab + 1, s.as_str());
    }
    assert(code@ =~= c0 + dup_era0(tab as nat, name@));
}

fn emit_dup_era1(code: &mut String, tab: u64, name: &String)
    requires
        tab < u64::MAX,
    ensures
        final(code)@ == old(code)@ + dup_era1(tab as nat, name@),
{
    let ghost c0 = code@;
    reveal(dup_era1);
    {
        let mut s = String::new();
        s.append("link(mem, ");
        s.append(name.as_str());
        s.append(" + 1, Era());");
        assert(s@ =~= "link(mem, "@ + name@ + " + 1, Era());"@);
        line(code, tab + 1, s.as_str());
    }
    assert(code@ =~= c0 + dup_era1(tab as nat, name@));
}

fn emit_dup_close(code: &mut String, tab: u64, name: &String, copy: &String, dp0: &String, dp1: &String, colx: u64)
    requires
        tab < u64::MAX,
    ensures
        final(code)@ == old(code)@ + dup_close(tab as nat, name@, copy@, dp0@, dp1@, colx as nat),
{
    let ghost c0 = code@;
    reveal(dup_close);
    {
        let mut s = String::new();
        s.append("link(mem, ");
        s.append(name.as_str());
        s.append(" + 2, ");
        s.append(copy.as_str());
        s.append(");");
        assert(s@ =~= "link(mem, "@ + name@ + " + 2, "@ + copy@ + ");"@);
        line(code, tab + 1, s.as_str());
    }
    {
        let mut s = String::new();
        s.append(dp0.as_str());
        s.append(" = Dp0(");
        push_decimal(&mut s, colx);
        s.append(", ");
        s.append(name.as_str());
        s.append(");");
        assert(s@ =~= dp0@ + " = Dp0("@ + decimal(colx as nat) + ", "@ + name@ + ");"@);
        line(code, tab + 1, s.as_str());
    }
    {
        let mut s = String::new();
        s.append(dp1.as_str());
        s.append(" = Dp1(");
        push_decimal(&mut s, colx);
        s.append(", ");
        s.append(name.as_str());
        s.append(");");
        assert(s@ =~= dp1@ + " = Dp1("@ + decimal(colx as nat) + ", "@ + name@ + ");"@);
        line(code, tab + 1, s.as_str());
    }
    {
        let mut s = String::new();
        s.append("}");
        assert(s@ =~= "}"@);
        line(code, tab, s.as_str());
    }
    assert(code@ =~= c0 + dup_close(tab as nat, name@, copy@, dp0@, dp1@, colx as nat));
}

fn emit_alloc2(code: &mut String, tab: u64, name: &String)
    requires
        tab < u64::MAX,
    ensures
        final(code)@ == old(code)@ + alloc2(tab as nat, name@),
{
    let ghost c0 = code@;
    reveal(alloc2);
    {
        let mut s = String::new();
        s.append("u64 ");
        s.append(name.as_str());
        s.append(" = alloc(mem, 2);");
        assert(s@ =~= "u64 "@ + name@ + " = alloc(mem, 2);"@);
        line(code, tab, s.as_str());
    }
    assert(code@ =~= c0 + alloc2(tab as nat, name@));
}

fn emit_link0(code: &mut String, tab: u64, name: &String, v: &String)
    requires
        tab < u64::MAX,
    ensures
        final(code)@ == old(code)@ + link0(tab as nat, name@, v@),
{
    let ghost c0 = code@;
    reveal(link0);
    {
        let mut s = String::new();
        s.append("link(mem, ");
        s.append(name.as_str());
        s.append(" + 0, ");
        s.append(v.as_str());
        s.append(");");
        assert(s@ =~= "link(mem, "@ + name@ + " + 0, "@ + v@ + ");"@);
        line(code, tab, s.as_str());
    }
    assert(code@ =~= c0 + link0(tab as nat, name@, v@));
}

fn emit_link1(code: &mut String, tab: u64, name: &String, v: &String)
    requires
        tab < u64::MAX,
    ensures
        final(code)@ == old(code)@ + link1(tab as nat, name@, v@),
{
    let ghost c0 = code@;
    reveal(link1);
    {
        let mut s = String::new();
        s.append("link(mem, ");
        s.append(name.as_str());
        s.append(" + 1, ");
        s.append(v.as_str());
        s.append(");");
        assert(s@ =~= "link(mem, "@ + name@ + " + 1, "@ + v@ + ");"@);
        line(code, tab, s.as_str());
    }
    assert(code@ =~= c0 + link1(tab as nat, name@, v@));
}

fn emit_era0(code: &mut String, tab: u64, name: &String)
    requires
        tab < u64::MAX,
    ensures
        final(code)@ == old(code)@ + era0(tab as nat, name@),
{
    let ghost c0 = code@;
    reveal(era0);
    {
        let mut s = String::new();
        s.append("link(mem, ");
        s.append(name.as_str());
        s.append(" + 0, Era());");
        assert(s@ =~= "link(mem, "@ + name@ + " + 0, Era());"@);
        line(code, tab, s.as_str());
    }
    assert(code@ =~= c0 + era0(tab as nat, name@));
}

fn emit_allocn(code: &mut String, tab: u64, name: &String, n: u64)
    requires
        tab < u64::MAX,
    ensures
        final(code)@ == old(code)@ + allocn(tab as nat, name@, n as nat),
{
    let ghost c0 = code@;
    reveal(allocn);
    {
        let mut s = String::new();
        s.append("u64 ");
        s.append(name.as_str());
        s.append(" = alloc(mem, ");
        push_decimal(&mut s, n);
        s.append(");");
        assert(s@ =~= "u64 "@ + name@ + " = alloc(mem, "@ + decimal(n as nat) + ");"@);
        line(code, tab, s.as_str());
    }
    assert(code@ =~= c0 + allocn(tab as nat, name@, n as nat));
}

fn emit_linki(code: &mut String, tab: u64, name: &String, v: &String, i: u64)
    requires
        tab < u64::MAX,
    ensures
        final(code)@ == old(code)@ + linki(tab as nat, name@, v@, i as nat),
{
    let ghost c0 = code@;
    reveal(linki);
    {
        let mut s = String::new();
        s.append("link(mem, ");
        s.append(name.as_str());
        s.append(" + ");
        push_decimal(&mut s, i);
        s.append(", ");
        s.append(v.as_str());
        s.append(");");
        assert(s@ =~= "link(mem, "@ + name@ + " + "@ + decimal(i as nat) + ", "@ + v@ + ");"@);
        line(code, tab, s.as_str());
    }
    assert(code@ =~= c0 + linki(tab as nat, name@, v@, i as nat));
}

fn emit_op_open(code: &mut String, tab: u64, retx: &String, a: &String, b: &String)
    requires
        tab < u64::MAX,
    ensures
        final(code)@ == old(code)@ + op_open(tab as nat, retx@, a@, b@),
{
    let ghost c0 = code@;
    reveal(op_open);
    {
        let mut s = String::new();
        s.append("u64 ");
        s.append(retx.as_str());
        s.append(";");
        assert(s@ =~= "u64 "@ + retx@ + ";"@);
        line(code, tab, s.as_str());
    }
    {
        let mut s = String::new();
        s.append("if (get_tag(");
        s.append(a.as_str());
        s.append(") == U32 && get_tag(");
        s.append(b.as_str());
        s.append(") == U32) {");
        assert(s@ =~= "if (get_tag("@ + a@ + ") == U32 && get_tag("@ + b@ + ") == U32) {"@);
        line(code, tab, s.as_str());
    }
    assert(code@ =~= c0 + op_open(tab as nat, retx@, a@, b@));
}

fn emit_op_close(code: &mut String, tab: u64, retx: &String, name: &String, a: &String, b: &String, opname: &String)
    requires
        tab < u64::MAX,
    ensures
        final(code)@ == old(code)@ + op_close(tab as nat, retx@, name@, a@, b@, opname@),
{
    let ghost c0 = code@;
    reveal(op_close);
    {
        let mut s = String::new();
        s.append("inc_cost(mem);");
        assert(s@ =~= "inc_cost(mem);"@);
        line(code, tab + 1, s.as_str());
    }
    {
        let mut s = String::new();
        s.append("} else {");
        assert(s@ =~= "} else {"@);
        line(code, tab, s.as_str());
    }
    {
        let mut s = String::new();
        s.append("u64 ");
        s.append(name.as_str());
        s.append(" = alloc(mem, 2);");
        assert(s@ =~= "u64 "@ + name@ + " = alloc(mem, 2);"@);
        line(code, tab + 1, s.as_str());
    }
    {
        let mut s = String::new();
        s.append("link(mem, ");
        s.append(name.as_str());
        s.append(" + 0, ");
        s.append(a.as_str());
        s.append(");");
        assert(s@ =~= "link(mem, "@ + name@ + " + 0, "@ + a@ + ");"@);
        line(code, tab + 1, s.as_str());
    }
    {
        let mut s = String::new();
        s.append("link(mem, ");
        s.append(name.as_str());
        s.append(" + 1, ");
        s.append(b.as_str());
        s.append(");");
        assert(s@ =~= "link(mem, "@ + name@ + " + 1, "@ + b@ + ");"@);
        line(code, tab + 1, s.as_str());
    }
    {
        let mut s = String::new();
        s.append(retx.as_str());
        s.append(" = Op2(");
        s.append(opname.as_str());
        s.append(", ");
        s.append(name.as_str());
        s.append(");");
        assert(s@ =~= retx@ + " = Op2("@ + opname@ + ", "@ + name@ + ");"@);
        line(code, tab + 1, s.as_str());
    }
    {
        let mut s = String::new();
        s.append("}");
        assert(s@ =~= "}"@);
        line(code, tab, s.as_str());
    }
    assert(code@ =~= c0 + op_close(tab as nat, retx@, name@, a@, b@, opname@));
}

/// The texts of a list of strings.
pub open spec fn views(v: Seq<String>) -> Seq<Seq<char>> {
    v.map_values(|s: String| s@)
}

/// The code of a duplication once the duplicated term is built: the
/// numbers' fast path, else a duplicator node with label `colx`.
pub open spec fn dup_block(
    tab: nat,
    eras: (bool, bool),
    copy: Seq<char>,
    ev: Seq<char>,
    dp0: Seq<char>,
    dp1: Seq<char>,
    name: Seq<char>,
    coln: Seq<char>,
    colx: nat,
) -> Seq<char> {
    dup_open(tab, copy, ev, dp0, dp1) + dup_alloc(tab, name, coln, colx) + (if eras.0 {
        dup_era0(tab, name)
    } else {
        seq![]
    }) + (if eras.1 {
        dup_era1(tab, name)
    } else {
        seq![]
    }) + dup_close(tab, name, copy, dp0, dp1, colx)
}

fn emit_dup_block(
    code: &mut String,
    tab: u64,
    eras: (bool, bool),
    copy: &String,
    ev: &String,
    dp0: &String,
    dp1: &String,
    name: &String,
    coln: &String,
    colx: u64,
)
    requires
        tab < u64::MAX,
    ensures
        final(code)@ == old(code)@ + dup_block(
            tab as nat,
            eras,
            copy@,
            ev@,
            dp0@,
            dp1@,
            name@,
            coln@,
            colx as nat,
        ),
{
    let ghost c0 = code@;
    emit_dup_open(code, tab, copy, ev, dp0, dp1);
    emit_dup_alloc(code, tab, name, coln, colx);
    if eras.0 {
        emit_dup_era0(code, tab, name);
    }
    if eras.1 {
        emit_dup_era1(code, tab, name);
    }
    emit_dup_close(code, tab, name, copy, dp0, dp1, colx);
    assert(code@ =~= c0 + dup_block(
        tab as nat,
        eras,
        copy@,
        ev@,
        dp0@,
        dp1@,
        name@,
        coln@,
        colx as nat,
    ));
}

/// Links cells `0..vals.len()` of node `name` to the values, in order.
pub open spec fn link_all(tab: nat, name: Seq<char>, vals: Seq<Seq<char>>) -> Seq<char>
    decreases vals.len(),
{
    if vals.len() == 0 {
        seq![]
    } else {
        link_all(tab, name, vals.drop_last()) + linki(
            tab,
            name,
            vals.last(),
            (vals.len() - 1) as nat,
        )
    }
}

/// What building a right-hand side emits, given the binding stack `vars`
/// and the name and label counters: the code, the expression of the term's
/// value, and both counters after it.
pub open spec fn emit(t: DynTerm, vars: Seq<Seq<char>>, nams: nat, dups: nat, tab: nat) -> (
    Seq<char>,
    Seq<char>,
    nat,
    nat,
)
    decreases t,
{
    match t {
        DynTerm::Var { bidx } => (seq![], vars[bidx as int], nams, dups),
        DynTerm::Dup { eras, expr, body } => {
            let copy = fresh_name("cpy"@, nams);
            let dp0 = fresh_name("dp0"@, nams + 1);
            let dp1 = fresh_name("dp1"@, nams + 2);
            let e = emit(*expr, vars, nams + 3, dups, tab);
            let name = fresh_name("dup"@, e.2);
            let coln = fresh_name("col"@, e.2 + 1);
            let head = e.0 + dup_block(tab, eras, copy, e.1, dp0, dp1, name, coln, e.3);
            let b = emit(*body, vars.push(dp0).push(dp1), e.2 + 2, e.3 + 1, tab);
            (head + b.0, b.1, b.2, b.3)
        },
        DynTerm::Let { expr, body } => {
            let e = emit(*expr, vars, nams, dups, tab);
            let b = emit(*body, vars.push(e.1), e.2, e.3, tab);
            (e.0 + b.0, b.1, b.2, b.3)
        },
        DynTerm::Lam { eras, body } => {
            let name = fresh_name("lam"@, nams);
            let b = emit(*body, vars.push("Var("@ + name + ")"@), nams + 1, dups, tab);
            (
                alloc2(tab, name) + b.0 + (if eras {
                    era0(tab, name)
                } else {
                    seq![]
                }) + link1(tab, name, b.1),
                "Lam("@ + name + ")"@,
                b.2,
                b.3,
            )
        },
        DynTerm::App { func, argm } => {
            let name = fresh_name("app"@, nams);
            let f = emit(*func, vars, nams + 1, dups, tab);
            let a = emit(*argm, vars, f.2, f.3, tab);
            (
                f.0 + a.0 + alloc2(tab, name) + link0(tab, name, f.1) + link1(tab, name, a.1),
                "App("@ + name + ")"@,
                a.2,
                a.3,
            )
        },
        DynTerm::Ctr { func, args } => {
            let r = emit_args(args@, vars, nams, dups, tab);
            let name = fresh_name("ctr"@, r.2);
            (
                r.0 + allocn(tab, name, args@.len()) + link_all(tab, name, r.1),
                "Ctr("@ + decimal(args@.len()) + ", "@ + decimal(func as nat) + ", "@ + name + ")"@,
                r.2 + 1,
                r.3,
            )
        },
        DynTerm::Cal { func, args } => {
            let r = emit_args(args@, vars, nams, dups, tab);
            let name = fresh_name("cal"@, r.2);
            (
                r.0 + allocn(tab, name, args@.len()) + link_all(tab, name, r.1),
                "Cal("@ + decimal(args@.len()) + ", "@ + decimal(func as nat) + ", "@ + name + ")"@,
                r.2 + 1,
                r.3,
            )
        },
        DynTerm::U32 { numb } => (seq![], "U_32("@ + decimal(numb as nat) + ")"@, nams, dups),
        DynTerm::Op2 { oper, val0, val1 } => {
            let retx = fresh_name("ret"@, nams);
            let name = fresh_name("op2"@, nams + 1);
            let a = emit(*val0, vars, nams + 2, dups, tab);
            let b = emit(*val1, vars, a.2, a.3, tab);
            (
                a.0 + b.0 + op_open(tab, retx, a.1, b.1) + line_text(
                    tab + 1,
                    op_inline(oper, retx, "get_val("@ + a.1 + ")"@, "get_val("@ + b.1 + ")"@),
                ) + op_close(tab, retx, name, a.1, b.1, op_name(oper)),
                retx,
                b.2,
                b.3,
            )
        },
    }
}

/// What building the terms of a list left to right emits: the code, their
/// value expressions, and both counters after them.
pub open spec fn emit_args(args: Seq<DynTerm>, vars: Seq<Seq<char>>, nams: nat, dups: nat, tab: nat) -> (
    Seq<char>,
    Seq<Seq<char>>,
    nat,
    nat,
)
    decreases args,
{
    if args.len() == 0 {
        (seq![], seq![], nams, dups)
    } else {
        let p = emit_args(args.drop_last(), vars, nams, dups, tab);
        let e = emit(args.last(), vars, p.2, p.3, tab);
        (p.0 + e.0, p.1.push(e.1), e.2, e.3)
    }
}

/// Building a term takes one label per duplication, and at most five names
/// per node.
pub proof fn lemma_emit_counts(t: DynTerm, vars: Seq<Seq<char>>, nams: nat, dups: nat, tab: nat)
    ensures
        emit(t, vars, nams, dups, tab).3 == dups + count_dups(t),
        nams <= emit(t, vars, nams, dups, tab).2 <= nams + 5 * term_size(t),
        count_dups(t) <= term_size(t),
    decreases t,
{
    match t {
        DynTerm::Var { .. } => {},
        DynTerm::Dup { eras, expr, body } => {
            lemma_emit_counts(*expr, vars, nams + 3, dups, tab);
            let e = emit(*expr, vars, nams + 3, dups, tab);
            let dp0 = fresh_name("dp0"@, nams + 1);
            let dp1 = fresh_name("dp1"@, nams + 2);
            lemma_emit_counts(*body, vars.push(dp0).push(dp1), e.2 + 2, e.3 + 1, tab);
        },
        DynTerm::Let { expr, body } => {
            lemma_emit_counts(*expr, vars, nams, dups, tab);
            let e = emit(*expr, vars, nams, dups, tab);
            lemma_emit_counts(*body, vars.push(e.1), e.2, e.3, tab);
        },
        DynTerm::Lam { eras, body } => {
            let name = fresh_name("lam"@, nams);
            lemma_emit_counts(*body, vars.push("Var("@ + name + ")"@), nams + 1, dups, tab);
        },
        DynTerm::App { func, argm } => {
            lemma_emit_counts(*func, vars, nams + 1, dups, tab);
            let f = emit(*func, vars, nams + 1, dups, tab);
            lemma_emit_counts(*argm, vars, f.2, f.3, tab);
        },
        DynTerm::Ctr { func, args } => {
            lemma_emit_args_counts(args@, vars, nams, dups, tab);
        },
        DynTerm::Cal { func, args } => {
            lemma_emit_args_counts(args@, vars, nams, dups, tab);
        },
        DynTerm::U32 { .. } => {},
        DynTerm::Op2 { oper, val0, val1 } => {
            lemma_emit_counts(*val0, vars, nams + 2, dups, tab);
            let a = emit(*val0, vars, nams + 2, dups, tab);
            lemma_emit_counts(*val1, vars, a.2, a.3, tab);
        },
    }
}

/// Building a list of terms takes one label per duplication, at most five
/// names per node, and yields one value per term.
pub proof fn lemma_emit_args_counts(args: Seq<DynTerm>, vars: Seq<Seq<char>>, nams: nat, dups: nat, tab: nat)
    ensures
        emit_args(args, vars, nams, dups, tab).3 == dups + args_dups(args),
        nams <= emit_args(args, vars, nams, dups, tab).2 <= nams + 5 * args_size(args),
        emit_args(args, vars, nams, dups, tab).1.len() == args.len(),
        args_dups(args) <= args_size(args),
    decreases args,
{
    if args.len() > 0 {
        lemma_emit_args_counts(args.drop_last(), vars, nams, dups, tab);
        let p = emit_args(args.drop_last(), vars, nams, dups, tab);
        lemma_emit_counts(args.last(), vars, p.2, p.3, tab);
    }
}

/// Emits the code that builds `term` on the heap, and answers the C
/// expression of its value. `vars` is the binding stack (restored on
/// return); `nams` numbers temporary identifiers; `dups` hands out a fresh
/// label to every duplicator.
#[verifier::rlimit(40)]
fn emit_term(code: &mut String, tab: u64, term: &DynTerm, vars: &mut Vec<String>, nams: &mut u64, dups: &mut u64) -> (r: String)
    requires
        tab < u64::MAX,
        scoped(*term, old(vars)@.len()),
        *old(nams) + 5 * term_size(*term) <= u64::MAX,
        *old(dups) + term_size(*term) <= u64::MAX,
    ensures
        final(code)@ == old(code)@ + emit(*term, views(old(vars)@), *old(nams) as nat, *old(dups) as nat, tab as nat).0,
        r@ == emit(*term, views(old(vars)@), *old(nams) as nat, *old(dups) as nat, tab as nat).1,
        *final(nams) == emit(*term, views(old(vars)@), *old(nams) as nat, *old(dups) as nat, tab as nat).2,
        *final(dups) == emit(*term, views(old(vars)@), *old(nams) as nat, *old(dups) as nat, tab as nat).3,
        final(vars)@ == old(vars)@,
        *final(nams) <= *old(nams) + 5 * term_size(*term),
        *final(dups) == *old(dups) + count_dups(*term),
        count_dups(*term) <= term_size(*term),
    decreases term, 1nat,
{
    let ghost c0 = code@;
    let ghost v0 = views(vars@);
    let ghost n0 = *nams as nat;
    let ghost d0 = *dups as nat;
    proof {
        lemma_emit_counts(*term, v0, n0, d0, tab as nat);
    }
    match term {
        DynTerm::Var { bidx } => {
            let n = vars.len();
            assert(*bidx < n);
            let k = *bidx as usize;
            assert(k as int == *bidx as int);
            let r = vars[k].clone();
            assert(vars@[k as int] == r);
            assert(views(vars@)[k as int] == vars@[k as int]@);
            assert(v0[*bidx as int] == r@);
            r
        },
        DynTerm::Dup { .. } => emit_dup(code, tab, term, vars, nams, dups),
        DynTerm::Let { expr, body } => {
            let ev = emit_term(code, tab, expr, vars, nams, dups);
            let ghost e = emit(**expr, v0, n0, d0, tab as nat);
            vars.push(ev);
            assert(views(vars@) =~= v0.push(e.1));
            let bv = emit_term(code, tab, body, vars, nams, dups);
            vars.pop();
            assert(vars@ =~= old(vars)@);
            assert(code@ =~= c0 + emit(*term, v0, n0, d0, tab as nat).0);
            bv
        },
        DynTerm::Lam { .. } => emit_lam(code, tab, term, vars, nams, dups),
        DynTerm::App { .. } => emit_app(code, tab, term, vars, nams, dups),
        DynTerm::Ctr { func, args } => emit_node(code, tab, term, true, *func, args, vars, nams, dups),
        DynTerm::Cal { func, args } => emit_node(code, tab, term, false, *func, args, vars, nams, dups),
        DynTerm::U32 { numb } => {
            let mut r = String::new();
            r.append("U_32(");
            push_decimal(&mut r, *numb as u64);
            r.append(")");
            assert(r@ =~= "U_32("@ + decimal(*numb as nat) + ")"@);
            r
        },
        DynTerm::Op2 { .. } => emit_op2(code, tab, term, vars, nams, dups),
    }
}

#[verifier::rlimit(100)]
fn emit_dup(code: &mut String, tab: u64, term: &DynTerm, vars: &mut Vec<String>, nams: &mut u64, dups: &mut u64) -> (r: String)
    requires
        tab < u64::MAX,
        scoped(*term, old(vars)@.len()),
        *old(nams) + 5 * term_size(*term) <= u64::MAX,
        *old(dups) + term_size(*term) <= u64::MAX,
        term is Dup,
    ensures
        final(code)@ == old(code)@ + emit(*term, views(old(vars)@), *old(nams) as nat, *old(dups) as nat, tab as nat).0,
        r@ == emit(*term, views(old(vars)@), *old(nams) as nat, *old(dups) as nat, tab as nat).1,
        *final(nams) == emit(*term, views(old(vars)@), *old(nams) as nat, *old(dups) as nat, tab as nat).2,
        *final(dups) == emit(*term, views(old(vars)@), *old(nams) as nat, *old(dups) as nat, tab as nat).3,
        final(vars)@ == old(vars)@,
        *final(nams) <= *old(nams) + 5 * term_size(*term),
        *final(dups) == *old(dups) + count_dups(*term),
        count_dups(*term) <= term_size(*term),
    decreases term, 0nat,
{
    let ghost c0 = code@;
    let ghost v0 = views(vars@);
    let ghost n0 = *nams as nat;
    let ghost d0 = *dups as nat;
    proof {
        lemma_emit_counts(*term, v0, n0, d0, tab as nat);
    }
    match term {
        DynTerm::Dup { eras, expr, body } => {
            let copy = fresh(nams, "cpy");
            let dup0 = fresh(nams, "dp0");
            let dup1 = fresh(nams, "dp1");
            let ev = emit_term(code, tab, expr, vars, nams, dups);
            let name = fresh(nams, "dup");
            let coln = fresh(nams, "col");
            let colx = *dups;
            *dups += 1;
            emit_dup_block(code, tab, *eras, &copy, &ev, &dup0, &dup1, &name, &coln, colx);
            let ghost mid = code@;
            let ghost d0v = dup0@;
            let ghost d1v = dup1@;
            vars.push(dup0);
            vars.push(dup1);
            assert(views(vars@) =~= v0.push(d0v).push(d1v));
            let bv = emit_term(code, tab, body, vars, nams, dups);
            vars.pop();
            vars.pop();
            assert(vars@ =~= old(vars)@);
            assert(code@ =~= c0 + emit(*term, v0, n0, d0, tab as nat).0);
            bv
        },
        _ => {
            assert(false);
            String::new()
        },
    }
}

#[verifier::rlimit(40)]
fn emit_lam(code: &mut String, tab: u64, term: &DynTerm, vars: &mut Vec<String>, nams: &mut u64, dups: &mut u64) -> (r: String)
    requires
        tab < u64::MAX,
        scoped(*term, old(vars)@.len()),
        *old(nams) + 5 * term_size(*term) <= u64::MAX,
        *old(dups) + term_size(*term) <= u64::MAX,
        term is Lam,
    ensures
        final(code)@ == old(code)@ + emit(*term, views(old(vars)@), *old(nams) as nat, *old(dups) as nat, tab as nat).0,
        r@ == emit(*term, views(old(vars)@), *old(nams) as nat, *old(dups) as nat, tab as nat).1,
        *final(nams) == emit(*term, views(old(vars)@), *old(nams) as nat, *old(dups) as nat, tab as nat).2,
        *final(dups) == emit(*term, views(old(vars)@), *old(nams) as nat, *old(dups) as nat, tab as nat).3,
        final(vars)@ == old(vars)@,
        *final(nams) <= *old(nams) + 5 * term_size(*term),
        *final(dups) == *old(dups) + count_dups(*term),
        count_dups(*term) <= term_size(*term),
    decreases term, 0nat,
{
    let ghost c0 = code@;
    let ghost v0 = views(vars@);
    let ghost n0 = *nams as nat;
    let ghost d0 = *dups as nat;
    proof {
        lemma_emit_counts(*term, v0, n0, d0, tab as nat);
    }
    match term {
        DynTerm::Lam { eras, body } => {
            let name = fresh(nams, "lam");
            emit_alloc2(code, tab, &name);
            let var = wrap("Var(", &name, ")");
            vars.push(var);
            assert(views(vars@) =~= v0.push("Var("@ + name@ + ")"@));
            let bv = emit_term(code, tab, body, vars, nams, dups);
            vars.pop();
            assert(vars@ =~= old(vars)@);
            if *eras {
                emit_era0(code, tab, &name);
            }
            emit_link1(code, tab, &name, &bv);
            assert(code@ =~= c0 + emit(*term, v0, n0, d0, tab as nat).0);
            wrap("Lam(", &name, ")")
        },
        _ => {
            assert(false);
            String::new()
        },
    }
}

#[verifier::rlimit(40)]
fn emit_app(code: &mut String, tab: u64, term: &DynTerm, vars: &mut Vec<String>, nams: &mut u64, dups: &mut u64) -> (r: String)
    requires
        tab < u64::MAX,
        scoped(*term, old(vars)@.len()),
        *old(nams) + 5 * term_size(*term) <= u64::MAX,
        *old(dups) + term_size(*term) <= u64::MAX,
        term is App,
    ensures
        final(code)@ == old(code)@ + emit(*term, views(old(vars)@), *old(nams) as nat, *old(dups) as nat, tab as nat).0,
        r@ == emit(*term, views(old(vars)@), *old(nams) as nat, *old(dups) as nat, tab as nat).1,
        *final(nams) == emit(*term, views(old(vars)@), *old(nams) as nat, *old(dups) as nat, tab as nat).2,
        *final(dups) == emit(*term, views(old(vars)@), *old(nams) as nat, *old(dups) as nat, tab as nat).3,
        final(vars)@ == old(vars)@,
        *final(nams) <= *old(nams) + 5 * term_size(*term),
        *final(dups) == *old(dups) + count_dups(*term),
        count_dups(*term) <= term_size(*term),
    decreases term, 0nat,
{
    let ghost c0 = code@;
    let ghost v0 = views(vars@);
    let ghost n0 = *nams as nat;
    let ghost d0 = *dups as nat;
    proof {
        lemma_emit_counts(*term, v0, n0, d0, tab as nat);
    }
    match term {
        DynTerm::App { func, argm } => {
            let name = fresh(nams, "app");
            let fv = emit_term(code, tab, func, vars, nams, dups);
            let av = emit_term(code, tab, argm, vars, nams, dups);
            emit_alloc2(code, tab, &name);
            emit_link0(code, tab, &name, &fv);
            emit_link1(code, tab, &name, &av);
            assert(code@ =~= c0 + emit(*term, v0, n0, d0, tab as nat).0);
            wrap("App(", &name, ")")
        },
        _ => {
            assert(false);
            String::new()
        },
    }
}

#[verifier::rlimit(60)]
fn emit_op2(code: &mut String, tab: u64, term: &DynTerm, vars: &mut Vec<String>, nams: &mut u64, dups: &mut u64) -> (r: String)
    requires
        tab < u64::MAX,
        scoped(*term, old(vars)@.len()),
        *old(nams) + 5 * term_size(*term) <= u64::MAX,
        *old(dups) + term_size(*term) <= u64::MAX,
        term is Op2,
    ensures
        final(code)@ == old(code)@ + emit(*term, views(old(vars)@), *old(nams) as nat, *old(dups) as nat, tab as nat).0,
        r@ == emit(*term, views(old(vars)@), *old(nams) as nat, *old(dups) as nat, tab as nat).1,
        *final(nams) == emit(*term, views(old(vars)@), *old(nams) as nat, *old(dups) as nat, tab as nat).2,
        *final(dups) == emit(*term, views(old(vars)@), *old(nams) as nat, *old(dups) as nat, tab as nat).3,
        final(vars)@ == old(vars)@,
        *final(nams) <= *old(nams) + 5 * term_size(*term),
        *final(dups) == *old(dups) + count_dups(*term),
        count_dups(*term) <= term_size(*term),
    decreases term, 0nat,
{
    let ghost c0 = code@;
    let ghost v0 = views(vars@);
    let ghost n0 = *nams as nat;
    let ghost d0 = *dups as nat;
    proof {
        lemma_emit_counts(*term, v0, n0, d0, tab as nat);
    }
    match term {
        DynTerm::Op2 { oper, val0, val1 } => {
            let retx = fresh(nams, "ret");
            let name = fresh(nams, "op2");
            let v0s = emit_term(code, tab, val0, vars, nams, dups);
            let v1s = emit_term(code, tab, val1, vars, nams, dups);
            emit_op_open(code, tab, &retx, &v0s, &v1s);
            let a = wrap("get_val(", &v0s, ")");
            let b = wrap("get_val(", &v1s, ")");
            emit_op_inline(code, tab + 1, *oper, &retx, &a, &b);
            let opname = op_name_str(*oper).to_string();
            emit_op_close(code, tab, &retx, &name, &v0s, &v1s, &opname);
            assert(code@ =~= c0 + emit(*term, v0, n0, d0, tab as nat).0);
            retx
        },
        _ => {
            assert(false);
            String::new()
        },
    }
}

#[verifier::rlimit(40)]
fn emit_node(code: &mut String, tab: u64, term: &DynTerm, is_ctr: bool, func: u64, args: &Vec<DynTerm>, vars: &mut Vec<String>, nams: &mut u64, dups: &mut u64) -> (r: String)
    requires
        tab < u64::MAX,
        scoped(*term, old(vars)@.len()),
        *old(nams) + 5 * term_size(*term) <= u64::MAX,
        *old(dups) + term_size(*term) <= u64::MAX,
        *term == (if is_ctr {
            DynTerm::Ctr { func, args: *args }
        } else {
            DynTerm::Cal { func, args: *args }
        }),
    ensures
        final(code)@ == old(code)@ + emit(*term, views(old(vars)@), *old(nams) as nat, *old(dups) as nat, tab as nat).0,
        r@ == emit(*term, views(old(vars)@), *old(nams) as nat, *old(dups) as nat, tab as nat).1,
        *final(nams) == emit(*term, views(old(vars)@), *old(nams) as nat, *old(dups) as nat, tab as nat).2,
        *final(dups) == emit(*term, views(old(vars)@), *old(nams) as nat, *old(dups) as nat, tab as nat).3,
        final(vars)@ == old(vars)@,
        *final(nams) <= *old(nams) + 5 * term_size(*term),
        *final(dups) == *old(dups) + count_dups(*term),
        count_dups(*term) <= term_size(*term),
    decreases args, 0nat,
{
    let ghost c0 = code@;
    let ghost v0 = views(vars@);
    let ghost n0 = *nams as nat;
    let ghost d0 = *dups as nat;
    proof {
        lemma_emit_counts(*term, v0, n0, d0, tab as nat);
    }
    proof {
        lemma_emit_args_counts(args@, v0, n0, d0, tab as nat);
    }
    let mut vals: Vec<String> = Vec::new();
    let mut i: usize = 0;
    while i < args.len()
        invariant
            tab < u64::MAX,
            i <= args@.len(),
            args_scoped(args@, v0.len()),
            vars@ == old(vars)@,
            v0 == views(vars@),
            n0 + 5 * args_size(args@) <= u64::MAX,
            d0 + args_size(args@) <= u64::MAX,
            code@ == c0 + emit_args(args@.subrange(0, i as int), v0, n0, d0, tab as nat).0,
            views(vals@) == emit_args(args@.subrange(0, i as int), v0, n0, d0, tab as nat).1,
            *nams == emit_args(args@.subrange(0, i as int), v0, n0, d0, tab as nat).2,
            *dups == emit_args(args@.subrange(0, i as int), v0, n0, d0, tab as nat).3,
        decreases args@.len() - i,
    {
        let ghost pre = args@.subrange(0, i as int);
        proof {
            lemma_args_size_prefix(args@, i as int);
            lemma_args_scoped_at(args@, v0.len(), i as int);
            lemma_emit_args_counts(pre, v0, n0, d0, tab as nat);
            assert(args@.subrange(0, i + 1).drop_last() =~= pre);
            assert(args@.subrange(0, i + 1).last() == args@[i as int]);
        }
        proof {
            vstd::std_specs::vec::axiom_vec_index_decreases(*args, i as int);
        }
        let v = emit_term(code, tab, &args[i], vars, nams, dups);
        let ghost vals_before = views(vals@);
        vals.push(v);
        i += 1;
        assert(views(vals@) =~= vals_before.push(v@));
    }
    assert(args@.subrange(0, args@.len() as int) =~= args@);
    let ghost r = emit_args(args@, v0, n0, d0, tab as nat);
    let name = if is_ctr {
        fresh(nams, "ctr")
    } else {
        fresh(nams, "cal")
    };
    let n = args.len() as u64;
    emit_allocn(code, tab, &name, n);
    let ghost c1 = code@;
    let mut k: usize = 0;
    while k < vals.len()
        invariant
            tab < u64::MAX,
            k <= vals@.len(),
            vals@.len() == args@.len(),
            views(vals@) == r.1,
            code@ == c1 + link_all(tab as nat, name@, r.1.subrange(0, k as int)),
        decreases vals@.len() - k,
    {
        proof {
            assert(r.1.subrange(0, k + 1).drop_last() =~= r.1.subrange(0, k as int));
            assert(r.1.subrange(0, k + 1).last() == vals@[k as int]@);
        }
        emit_linki(code, tab, &name, &vals[k], k as u64);
        k += 1;
    }
    assert(r.1.subrange(0, r.1.len() as int) =~= r.1);
    let mut value = String::new();
    if is_ctr {
        value.append("Ctr(");
    } else {
        value.append("Cal(");
    }
    push_decimal(&mut value, n);
    value.append(", ");
    push_decimal(&mut value, func);
    value.append(", ");
    value.append(name.as_str());
    value.append(")");
    assert(code@ =~= c0 + emit(*term, v0, n0, d0, tab as nat).0);
    assert(value@ =~= emit(*term, v0, n0, d0, tab as nat).1);
    value
}


proof fn lemma_args_size_prefix(args: Seq<DynTerm>, i: int)
    requires
        0 <= i < args.len(),
    ensures
        args_size(args.subrange(0, i)) + term_size(args[i]) <= args_size(args),
        args_size(args.subrange(0, i + 1)) == args_size(args.subrange(0, i)) + term_size(args[i]),
    decreases args.len(),
{
    assert(args.subrange(0, i + 1).drop_last() =~= args.subrange(0, i));
    if i == args.len() - 1 {
        assert(args.subrange(0, i + 1) =~= args);
    } else {
        lemma_args_size_prefix(args.drop_last(), i);
        assert(args.drop_last().subrange(0, i) =~= args.subrange(0, i));
        assert(args.drop_last().subrange(0, i + 1) =~= args.subrange(0, i + 1));
        assert(args.drop_last()[i] == args[i]);
    }
}

proof fn lemma_args_scoped_at(args: Seq<DynTerm>, depth: nat, i: int)
    requires
        args_scoped(args, depth),
        0 <= i < args.len(),
    ensures
        scoped(args[i], depth),
    decreases args.len(),
{
    if i < args.len() - 1 {
        lemma_args_scoped_at(args.drop_last(), depth, i);
    }
}


/// Opens the arity test of the init block.
pub open spec fn init_open(tab: nat, arity: nat) -> Seq<char> {
    line_text(tab, "if (get_ari(term) == "@ + decimal(arity) + ") {"@)
}

/// Schedules strict argument `i` for reduction before resuming.
pub open spec fn strict_push(tab: nat, i: nat) -> Seq<char> {
    line_text(tab, "stk_push(&stack, get_loc(term, "@ + decimal(i) + ") | 0x80000000);"@)
}

/// Reduces strict argument `i` next, in place.
pub open spec fn strict_host(tab: nat, i: nat) -> Seq<char> {
    line_text(tab, "host = get_loc(term, "@ + decimal(i) + ");"@)
}

/// Tests argument `i` for a superposition.
pub open spec fn par_test(tab: nat, i: nat) -> Seq<char> {
    line_text(tab, "if (get_tag(ask_arg(mem,term,"@ + decimal(i) + ")) == PAR) {"@)
}

/// Commutes the call with the superposition at argument `i`.
pub open spec fn par_call(tab: nat, i: nat) -> Seq<char> {
    line_text(tab, "cal_par(mem, host, term, ask_arg(mem, term, "@ + decimal(i) + "), "@ + decimal(i) + ");"@)
}

/// Opens the test of a rule's conditions.
pub open spec fn rule_open(tab: nat, conds: Seq<char>) -> Seq<char> {
    line_text(tab, "if ("@ + conds + ") {"@)
}

/// Names the root of the built right-hand side.
pub open spec fn done_decl(tab: nat, done: Seq<char>) -> Seq<char> {
    line_text(tab, "u64 done = "@ + done + ";"@)
}

/// Frees the function node.
pub open spec fn clear_fun(tab: nat, arity: nat) -> Seq<char> {
    line_text(tab, "clear(mem, get_loc(term, 0), "@ + decimal(arity) + ");"@)
}

/// Frees the constructor node matched at argument `i`.
pub open spec fn clear_ctr(tab: nat, i: nat, arity: nat) -> Seq<char> {
    line_text(tab, "clear(mem, get_loc(ask_arg(mem, term, "@ + decimal(i) + "), 0), "@ + decimal(arity) + ");"@)
}

/// Collects an unused variable.
pub open spec fn collect_var(tab: nat, var: Seq<char>) -> Seq<char> {
    line_text(tab, "collect(mem, "@ + var + ");"@)
}

fn emit_init_open(code: &mut String, tab: u64, arity: u64)
    ensures
        final(code)@ == old(code)@ + init_open(tab as nat, arity as nat),
{
    {
        let mut s = String::new();
        s.append("if (get_ari(term) == ");
        push_decimal(&mut s, arity);
        s.append(") {");
        assert(s@ =~= "if (get_ari(term) == "@ + decimal(arity as nat) + ") {"@);
        line(code, tab, s.as_str());
    }
}

fn emit_strict_push(code: &mut String, tab: u64, i: u64)
    ensures
        final(code)@ == old(code)@ + strict_push(tab as nat, i as nat),
{
    {
        let mut s = String::new();
        s.append("stk_push(&stack, get_loc(term, ");
        push_decimal(&mut s, i);
        s.append(") | 0x80000000);");
        assert(s@ =~= "stk_push(&stack, get_loc(term, "@ + decimal(i as nat) + ") | 0x80000000);"@);
        line(code, tab, s.as_str());
    }
}

fn emit_strict_host(code: &mut String, tab: u64, i: u64)
    ensures
        final(code)@ == old(code)@ + strict_host(tab as nat, i as nat),
{
    {
        let mut s = String::new();
        s.append("host = get_loc(term, ");
        push_decimal(&mut s, i);
        s.append(");");
        assert(s@ =~= "host = get_loc(term, "@ + decimal(i as nat) + ");"@);
        line(code, tab, s.as_str());
    }
}

fn emit_par_test(code: &mut String, tab: u64, i: u64)
    ensures
        final(code)@ == old(code)@ + par_test(tab as nat, i as nat),
{
    {
        let mut s = String::new();
        s.append("if (get_tag(ask_arg(mem,term,");
        push_decimal(&mut s, i);
        s.append(")) == PAR) {");
        assert(s@ =~= "if (get_tag(ask_arg(mem,term,"@ + decimal(i as nat) + ")) == PAR) {"@);
        line(code, tab, s.as_str());
    }
}

fn emit_par_call(code: &mut String, tab: u64, i: u64)
    ensures
        final(code)@ == old(code)@ + par_call(tab as nat, i as nat),
{
    {
        let mut s = String::new();
        s.append("cal_par(mem, host, term, ask_arg(mem, term, ");
        push_decimal(&mut s, i);
        s.append("), ");
        push_decimal(&mut s, i);
        s.append(");");
        assert(s@ =~= "cal_par(mem, host, term, ask_arg(mem, term, "@ + decimal(i as nat) + "), "@ + decimal(i as nat) + ");"@);
        line(code, tab, s.as_str());
    }
}

fn emit_rule_open(code: &mut String, tab: u64, conds: &String)
    ensures
        final(code)@ == old(code)@ + rule_open(tab as nat, conds@),
{
    {
        let mut s = String::new();
        s.append("if (");
        s.append(conds.as_str());
        s.append(") {");
        assert(s@ =~= "if ("@ + conds@ + ") {"@);
        line(code, tab, s.as_str());
    }
}

fn emit_done_decl(code: &mut String, tab: u64, done: &String)
    ensures
        final(code)@ == old(code)@ + done_decl(tab as nat, done@),
{
    {
        let mut s = String::new();
        s.append("u64 done = ");
        s.append(done.as_str());
        s.append(";");
        assert(s@ =~= "u64 done = "@ + done@ + ";"@);
        line(code, tab, s.as_str());
    }
}

fn emit_clear_fun(code: &mut String, tab: u64, arity: u64)
    ensures
        final(code)@ == old(code)@ + clear_fun(tab as nat, arity as nat),
{
    {
        let mut s = String::new();
        s.append("clear(mem, get_loc(term, 0), ");
        push_decimal(&mut s, arity);
        s.append(");");
        assert(s@ =~= "clear(mem, get_loc(term, 0), "@ + decimal(arity as nat) + ");"@);
        line(code, tab, s.as_str());
    }
}

fn emit_clear_ctr(code: &mut String, tab: u64, i: u64, arity: u64)
    ensures
        final(code)@ == old(code)@ + clear_ctr(tab as nat, i as nat, arity as nat),
{
    {
        let mut s = String::new();
        s.append("clear(mem, get_loc(ask_arg(mem, term, ");
        push_decimal(&mut s, i);
        s.append("), 0), ");
        push_decimal(&mut s, arity);
        s.append(");");
        assert(s@ =~= "clear(mem, get_loc(ask_arg(mem, term, "@ + decimal(i as nat) + "), 0), "@ + decimal(arity as nat) + ");"@);
        line(code, tab, s.as_str());
    }
}

fn emit_collect_var(code: &mut String, tab: u64, var: &String)
    ensures
        final(code)@ == old(code)@ + collect_var(tab as nat, var@),
{
    {
        let mut s = String::new();
        s.append("collect(mem, ");
        s.append(var.as_str());
        s.append(");");
        assert(s@ =~= "collect(mem, "@ + var@ + ");"@);
        line(code, tab, s.as_str());
    }
}


/// How a pattern variable is read from the matched term.
pub open spec fn var_text(v: DynVar) -> Seq<char> {
    match v.field {
        Some(f) => "ask_arg(mem, ask_arg(mem, term, "@ + decimal(v.param as nat) + "), "@ + decimal(
            f as nat,
        ) + ")"@,
        None => "ask_arg(mem, term, "@ + decimal(v.param as nat) + ")"@,
    }
}

/// The binding stack a rule's right-hand side starts from: its pattern
/// variables, in order.
pub open spec fn seed_vars(vs: Seq<DynVar>) -> Seq<Seq<char>> {
    vs.map_values(|v: DynVar| var_text(v))
}

/// The expression that reads a pattern variable from the matched term.
fn get_var(var: &DynVar) -> (r: String)
    ensures
        r@ == var_text(*var),
{
    let mut r = String::new();
    match var.field {
        Some(i) => {
            r.append("ask_arg(mem, ask_arg(mem, term, ");
            push_decimal(&mut r, var.param);
            r.append("), ");
            push_decimal(&mut r, i);
            r.append(")");
        },
        None => {
            r.append("ask_arg(mem, term, ");
            push_decimal(&mut r, var.param);
            r.append(")");
        },
    }
    assert(r@ =~= var_text(*var));
    r
}

/// Emits the right-hand side of a rule whose pattern variables are `vars`,
/// and answers the expression of its root. Temporary names start afresh;
/// duplicator labels continue from `dups`.
#[verifier::rlimit(40)]
pub fn compile_func_rule_term(
    code: &mut String,
    tab: u64,
    term: &DynTerm,
    vars: &Vec<DynVar>,
    dups: &mut u64,
) -> (r: String)
    requires
        tab < u64::MAX,
        scoped(*term, vars@.len()),
        5 * term_size(*term) <= u64::MAX,
        *old(dups) + term_size(*term) <= u64::MAX,
    ensures
        final(code)@ == old(code)@ + emit(*term, seed_vars(vars@), 0, *old(dups) as nat, tab as nat).0,
        r@ == emit(*term, seed_vars(vars@), 0, *old(dups) as nat, tab as nat).1,
        *final(dups) == emit(*term, seed_vars(vars@), 0, *old(dups) as nat, tab as nat).3,
        *final(dups) == *old(dups) + count_dups(*term),
{
    let mut nams: u64 = 0;
    let mut stack: Vec<String> = Vec::new();
    let mut i: usize = 0;
    while i < vars.len()
        invariant
            i <= vars@.len(),
            views(stack@) == seed_vars(vars@.subrange(0, i as int)),
        decreases vars@.len() - i,
    {
        let ghost before = views(stack@);
        let v = get_var(&vars[i]);
        stack.push(v);
        assert(views(stack@) =~= before.push(var_text(vars@[i as int])));
        assert(vars@.subrange(0, i + 1) =~= vars@.subrange(0, i as int).push(vars@[i as int]));
        i += 1;
        assert(views(stack@) =~= seed_vars(vars@.subrange(0, i as int)));
    }
    assert(vars@.subrange(0, vars@.len() as int) =~= vars@);
    proof {
        lemma_emit_counts(*term, seed_vars(vars@), 0, *dups as nat, tab as nat);
    }
    emit_term(code, tab, term, &mut stack, &mut nams, dups)
}

/// Positions at which `redex` is true, in order.
pub open spec fn strict_positions(redex: Seq<bool>) -> Seq<nat>
    decreases redex.len(),
{
    if redex.len() == 0 {
        seq![]
    } else {
        let p = strict_positions(redex.drop_last());
        if redex.last() {
            p.push((redex.len() - 1) as nat)
        } else {
            p
        }
    }
}

proof fn lemma_no_strict_positions(redex: Seq<bool>, tab: nat)
    requires
        forall|i: int| 0 <= i < redex.len() ==> !redex[i],
    ensures
        strict_positions(redex).len() == 0,
        par_block(redex, tab) == Seq::<char>::empty(),
    decreases redex.len(),
{
    if redex.len() > 0 {
        lemma_no_strict_positions(redex.drop_last(), tab);
        assert(!redex[redex.len() - 1]);
        assert(par_block(redex.drop_last(), tab) + Seq::<char>::empty() =~= Seq::<char>::empty());
    }
}

/// A function none of whose arguments is strict only checks its arity and
/// marks that nothing needs reducing, and has no superposition tests.
pub proof fn lemma_lazy_function(redex: Seq<bool>, tab: nat)
    requires
        forall|i: int| 0 <= i < redex.len() ==> !redex[i],
    ensures
        init_block(redex, tab) == init_open(tab, redex.len()) + line_text(tab + 1, "init = 0;"@)
            + line_text(tab + 1, "continue;"@) + line_text(tab, "}"@),
        par_block(redex, tab) == Seq::<char>::empty(),
{
    lemma_no_strict_positions(redex, tab);
}

/// Scheduling lines for the strict positions `st`.
pub open spec fn push_lines(st: Seq<nat>, tab: nat) -> Seq<char>
    decreases st.len(),
{
    if st.len() == 0 {
        seq![]
    } else {
        push_lines(st.drop_last(), tab) + strict_push(tab, st.last())
    }
}

/// The init block of a function: when the term has the function's arity,
/// push the host and every strict argument but the last, reduce the last
/// strict argument in place (or mark that nothing needs reducing).
pub open spec fn init_block(redex: Seq<bool>, tab: nat) -> Seq<char> {
    let st = strict_positions(redex);
    init_open(tab, redex.len()) + (if st.len() == 0 {
        line_text(tab + 1, "init = 0;"@)
    } else {
        line_text(tab + 1, "stk_push(&stack, host);"@) + push_lines(st.drop_last(), tab + 1)
            + strict_host(tab + 1, st.last())
    }) + line_text(tab + 1, "continue;"@) + line_text(tab, "}"@)
}

/// The superposition tests for the strict positions of `redex`.
pub open spec fn par_block(redex: Seq<bool>, tab: nat) -> Seq<char>
    decreases redex.len(),
{
    if redex.len() == 0 {
        seq![]
    } else {
        let i = (redex.len() - 1) as nat;
        par_block(redex.drop_last(), tab) + if redex.last() {
            par_test(tab, i) + par_call(tab + 1, i) + line_text(tab + 1, "continue;"@) + line_text(
                tab,
                "}"@,
            )
        } else {
            seq![]
        }
    }
}

/// The test a condition puts on argument `i` (none for a variable).
pub open spec fn cond_test(c: Cond, i: nat) -> Seq<Seq<char>> {
    match c {
        Cond::AnyVar => seq![],
        Cond::ExpectNum(n) => seq![
            "(get_tag(ask_arg(mem, term, "@ + decimal(i) + ")) == U32 && get_val(ask_arg(mem, term, "@
                + decimal(i) + ")) == "@ + decimal(n as nat) + "u)"@,
        ],
        Cond::ExpectCtr(id) => seq![
            "(get_tag(ask_arg(mem, term, "@ + decimal(i) + ")) == CTR && get_ext(ask_arg(mem, term, "@
                + decimal(i) + ")) == "@ + decimal(id as nat) + "u)"@,
        ],
    }
}

/// The tests of a condition vector, left to right.
pub open spec fn cond_tests(conds: Seq<Cond>) -> Seq<Seq<char>>
    decreases conds.len(),
{
    if conds.len() == 0 {
        seq![]
    } else {
        cond_tests(conds.drop_last()) + cond_test(conds.last(), (conds.len() - 1) as nat)
    }
}

/// The pieces joined with ` && `.
pub open spec fn join_and(ps: Seq<Seq<char>>) -> Seq<char>
    decreases ps.len(),
{
    if ps.len() == 0 {
        seq![]
    } else if ps.len() == 1 {
        ps[0]
    } else {
        join_and(ps.drop_last()) + " && "@ + ps.last()
    }
}

/// The C condition of a rule: the conjunction of its tests, `1` when empty.
pub open spec fn conds_text(conds: Seq<Cond>) -> Seq<char> {
    if cond_tests(conds).len() == 0 {
        "1"@
    } else {
        join_and(cond_tests(conds))
    }
}

/// Frees the constructors matched at the listed positions.
pub open spec fn free_lines(free: Seq<(u64, u64)>, tab: nat) -> Seq<char>
    decreases free.len(),
{
    if free.len() == 0 {
        seq![]
    } else {
        free_lines(free.drop_last(), tab) + clear_ctr(tab, free.last().0 as nat, free.last().1 as nat)
    }
}

/// Collects the pattern variables that the right-hand side does not use.
pub open spec fn collect_lines(vs: Seq<DynVar>, tab: nat) -> Seq<char>
    decreases vs.len(),
{
    if vs.len() == 0 {
        seq![]
    } else {
        collect_lines(vs.drop_last(), tab) + if vs.last().erase {
            collect_var(tab, var_text(vs.last()))
        } else {
            seq![]
        }
    }
}

/// The code of one rule: test its conditions; on a match count the rewrite,
/// build the right-hand side, link the host to it, free the matched nodes,
/// collect unused variables and restart. Also the label counter after it.
pub open spec fn rule_block(rule: DynRule, arity: nat, tab: nat, dups: nat) -> (Seq<char>, nat) {
    let e = emit(rule.term, seed_vars(rule.vars@), 0, dups, tab + 1);
    (
        rule_open(tab, conds_text(rule.cond@)) + line_text(tab + 1, "inc_cost(mem);"@) + e.0
            + done_decl(tab + 1, e.1) + line_text(tab + 1, "link(mem, host, done);"@) + clear_fun(
            tab + 1,
            arity,
        ) + free_lines(rule.free@, tab + 1) + collect_lines(rule.vars@, tab + 1) + line_text(
            tab + 1,
            "init = 1;"@,
        ) + line_text(tab + 1, "continue;"@) + line_text(tab, "}"@),
        e.3,
    )
}

/// The code of the rules in order, threading the label counter.
pub open spec fn rules_block(rules: Seq<DynRule>, arity: nat, tab: nat, dups: nat) -> (Seq<char>, nat)
    decreases rules.len(),
{
    if rules.len() == 0 {
        (seq![], dups)
    } else {
        let p = rules_block(rules.drop_last(), arity, tab, dups);
        let r = rule_block(rules.last(), arity, tab, p.1);
        (p.0 + r.0, r.1)
    }
}

/// The rewrite block of a function: superposition tests, then its rules;
/// also the label counter after it.
pub open spec fn func_code(fun: DynFun, tab: nat, dups: nat) -> (Seq<char>, nat) {
    let r = rules_block(fun.rules@, fun.redex@.len(), tab, dups);
    (par_block(fun.redex@, tab) + r.0, r.1)
}

/// Number of nodes in the right-hand sides of the rules.
pub open spec fn rules_size(rules: Seq<DynRule>) -> nat
    decreases rules.len(),
{
    if rules.len() == 0 {
        0
    } else {
        rules_size(rules.drop_last()) + term_size(rules.last().term)
    }
}

/// Number of duplications in the right-hand sides of the rules.
pub open spec fn rules_dups(rules: Seq<DynRule>) -> nat
    decreases rules.len(),
{
    if rules.len() == 0 {
        0
    } else {
        rules_dups(rules.drop_last()) + count_dups(rules.last().term)
    }
}

/// Every right-hand side refers only to its rule's pattern variables and
/// binders, and is small enough to number its temporaries.
pub open spec fn rules_ok(rules: Seq<DynRule>) -> bool {
    forall|k: int|
        0 <= k < rules.len() ==> scoped(#[trigger] rules[k].term, rules[k].vars@.len()) && 5
            * term_size(rules[k].term) <= u64::MAX
}

/// Emitting a function's rules takes one duplicator label per duplication
/// in their right-hand sides.
pub proof fn lemma_rules_counts(rules: Seq<DynRule>, arity: nat, tab: nat, dups: nat)
    ensures
        rules_block(rules, arity, tab, dups).1 == dups + rules_dups(rules),
        rules_dups(rules) <= rules_size(rules),
    decreases rules.len(),
{
    if rules.len() > 0 {
        lemma_rules_counts(rules.drop_last(), arity, tab, dups);
        let p = rules_block(rules.drop_last(), arity, tab, dups);
        let r = rules.last();
        lemma_emit_counts(r.term, seed_vars(r.vars@), 0, p.1, tab + 1);
    }
}

proof fn lemma_rules_size_prefix(rules: Seq<DynRule>, k: int)
    requires
        0 <= k < rules.len(),
    ensures
        rules_size(rules.subrange(0, k)) + term_size(rules[k].term) <= rules_size(rules),
    decreases rules.len(),
{
    assert(rules.subrange(0, k + 1).drop_last() =~= rules.subrange(0, k));
    if k == rules.len() - 1 {
        assert(rules.subrange(0, k + 1) =~= rules);
    } else {
        lemma_rules_size_prefix(rules.drop_last(), k);
        assert(rules.drop_last().subrange(0, k) =~= rules.subrange(0, k));
        assert(rules.drop_last()[k] == rules[k]);
    }
}

#[verifier::rlimit(40)]
fn emit_conds(cond: &Vec<Cond>) -> (r: String)
    ensures
        r@ == conds_text(cond@),
{
    let mut s = String::new();
    let mut any = false;
    let mut i: usize = 0;
    while i < cond.len()
        invariant
            i <= cond@.len(),
            any == (cond_tests(cond@.subrange(0, i as int)).len() > 0),
            s@ == join_and(cond_tests(cond@.subrange(0, i as int))),
        decreases cond@.len() - i,
    {
        let ghost ps = cond_tests(cond@.subrange(0, i as int));
        assert(cond@.subrange(0, i + 1).drop_last() =~= cond@.subrange(0, i as int));
        match cond[i] {
            Cond::AnyVar => {
                assert(cond_tests(cond@.subrange(0, i + 1)) =~= ps);
            },
            Cond::ExpectNum(n) => {
                let ghost before = s@;
                if any {
                    s.append(" && ");
                }
                s.append("(get_tag(ask_arg(mem, term, ");
                push_decimal(&mut s, i as u64);
                s.append(")) == U32 && get_val(ask_arg(mem, term, ");
                push_decimal(&mut s, i as u64);
                s.append(")) == ");
                push_decimal(&mut s, n as u64);
                s.append("u)");
                let ghost piece = cond_test(cond@[i as int], i as nat)[0];
                assert(cond_tests(cond@.subrange(0, i + 1)) =~= ps.push(piece));
                assert(ps.push(piece).drop_last() =~= ps);
                if any {
                    assert(s@ =~= before + " && "@ + piece);
                } else {
                    assert(s@ =~= piece);
                }
                any = true;
            },
            Cond::ExpectCtr(id) => {
                let ghost before = s@;
                if any {
                    s.append(" && ");
                }
                s.append("(get_tag(ask_arg(mem, term, ");
                push_decimal(&mut s, i as u64);
                s.append(")) == CTR && get_ext(ask_arg(mem, term, ");
                push_decimal(&mut s, i as u64);
                s.append(")) == ");
                push_decimal(&mut s, id);
                s.append("u)");
                let ghost piece = cond_test(cond@[i as int], i as nat)[0];
                assert(cond_tests(cond@.subrange(0, i + 1)) =~= ps.push(piece));
                assert(ps.push(piece).drop_last() =~= ps);
                if any {
                    assert(s@ =~= before + " && "@ + piece);
                } else {
                    assert(s@ =~= piece);
                }
                any = true;
            },
        }
        i += 1;
    }
    assert(cond@.subrange(0, cond@.len() as int) =~= cond@);
    if !any {
        s = String::new();
        s.append("1");
    }
    s
}

#[verifier::rlimit(60)]
fn compile_rule(code: &mut String, tab: u64, rule: &DynRule, arity: u64, dups: &mut u64)
    requires
        tab + 2 <= u64::MAX,
        scoped(rule.term, rule.vars@.len()),
        5 * term_size(rule.term) <= u64::MAX,
        *old(dups) + term_size(rule.term) <= u64::MAX,
    ensures
        final(code)@ == old(code)@ + rule_block(*rule, arity as nat, tab as nat, *old(dups) as nat).0,
        *final(dups) == rule_block(*rule, arity as nat, tab as nat, *old(dups) as nat).1,
{
    let ghost c0 = code@;
    let ghost d0 = *dups as nat;
    let conds = emit_conds(&rule.cond);
    emit_rule_open(code, tab, &conds);
    line(code, tab + 1, "inc_cost(mem);");
    let done = compile_func_rule_term(code, tab + 1, &rule.term, &rule.vars, dups);
    emit_done_decl(code, tab + 1, &done);
    line(code, tab + 1, "link(mem, host, done);");
    emit_clear_fun(code, tab + 1, arity);
    let ghost c1 = code@;
    let mut k: usize = 0;
    while k < rule.free.len()
        invariant
            tab + 2 <= u64::MAX,
            k <= rule.free@.len(),
            code@ == c1 + free_lines(rule.free@.subrange(0, k as int), (tab + 1) as nat),
        decreases rule.free@.len() - k,
    {
        assert(rule.free@.subrange(0, k + 1).drop_last() =~= rule.free@.subrange(0, k as int));
        let (i, ar) = rule.free[k];
        emit_clear_ctr(code, tab + 1, i, ar);
        k += 1;
    }
    assert(rule.free@.subrange(0, rule.free@.len() as int) =~= rule.free@);
    let ghost c2 = code@;
    let mut k: usize = 0;
    while k < rule.vars.len()
        invariant
            tab + 2 <= u64::MAX,
            k <= rule.vars@.len(),
            code@ == c2 + collect_lines(rule.vars@.subrange(0, k as int), (tab + 1) as nat),
        decreases rule.vars@.len() - k,
    {
        assert(rule.vars@.subrange(0, k + 1).drop_last() =~= rule.vars@.subrange(0, k as int));
        if rule.vars[k].erase {
            let v = get_var(&rule.vars[k]);
            emit_collect_var(code, tab + 1, &v);
        }
        k += 1;
    }
    assert(rule.vars@.subrange(0, rule.vars@.len() as int) =~= rule.vars@);
    line(code, tab + 1, "init = 1;");
    line(code, tab + 1, "continue;");
    line(code, tab, "}");
    assert(code@ =~= c0 + rule_block(*rule, arity as nat, tab as nat, d0).0);
}

/// Emits a function's two blocks: the init block, which schedules its
/// strict arguments, and the rewrite block, which handles superpositions and
/// tries its rules in order. Duplicator labels continue from `dups`.
#[verifier::rlimit(40)]
pub fn compile_func(fun: &DynFun, tab: u64, dups: &mut u64) -> (r: (String, String))
    requires
        tab + 2 <= u64::MAX,
        rules_ok(fun.rules@),
        *old(dups) + rules_size(fun.rules@) <= u64::MAX,
    ensures
        r.0@ == init_block(fun.redex@, tab as nat),
        r.1@ == func_code(*fun, tab as nat, *old(dups) as nat).0,
        *final(dups) == func_code(*fun, tab as nat, *old(dups) as nat).1,
        *final(dups) == *old(dups) + rules_dups(fun.rules@),
{
    let ghost d0 = *dups as nat;
    let mut init = String::new();
    let mut code = String::new();
    let mut stricts: Vec<u64> = Vec::new();
    let mut i: usize = 0;
    while i < fun.redex.len()
        invariant
            i <= fun.redex@.len(),
            stricts@.map_values(|x: u64| x as nat) == strict_positions(fun.redex@.subrange(0, i as int)),
        decreases fun.redex@.len() - i,
    {
        assert(fun.redex@.subrange(0, i + 1).drop_last() =~= fun.redex@.subrange(0, i as int));
        let ghost before = stricts@.map_values(|x: u64| x as nat);
        if fun.redex[i] {
            stricts.push(i as u64);
            assert(stricts@.map_values(|x: u64| x as nat) =~= before.push(i as nat));
        }
        i += 1;
    }
    assert(fun.redex@.subrange(0, fun.redex@.len() as int) =~= fun.redex@);
    let ghost st = strict_positions(fun.redex@);
    emit_init_open(&mut init, tab, fun.redex.len() as u64);
    if stricts.len() == 0 {
        line(&mut init, tab + 1, "init = 0;");
    } else {
        line(&mut init, tab + 1, "stk_push(&stack, host);");
        let ghost c1 = init@;
        let mut k: usize = 0;
        while k < stricts.len() - 1
            invariant
                tab + 2 <= u64::MAX,
                k < stricts@.len(),
                stricts@.map_values(|x: u64| x as nat) == st,
                init@ == c1 + push_lines(st.subrange(0, k as int), (tab + 1) as nat),
            decreases stricts@.len() - k,
        {
            assert(st.subrange(0, k + 1).drop_last() =~= st.subrange(0, k as int));
            emit_strict_push(&mut init, tab + 1, stricts[k]);
            k += 1;
        }
        assert(st.subrange(0, k as int) =~= st.drop_last());
        emit_strict_host(&mut init, tab + 1, stricts[k]);
    }
    line(&mut init, tab + 1, "continue;");
    line(&mut init, tab, "}");
    assert(init@ =~= init_block(fun.redex@, tab as nat));
    let mut i: usize = 0;
    while i < fun.redex.len()
        invariant
            tab + 2 <= u64::MAX,
            i <= fun.redex@.len(),
            code@ == par_block(fun.redex@.subrange(0, i as int), tab as nat),
        decreases fun.redex@.len() - i,
    {
        assert(fun.redex@.subrange(0, i + 1).drop_last() =~= fun.redex@.subrange(0, i as int));
        let ghost before = code@;
        if fun.redex[i] {
            emit_par_test(&mut code, tab, i as u64);
            emit_par_call(&mut code, tab + 1, i as u64);
            line(&mut code, tab + 1, "continue;");
            line(&mut code, tab, "}");
        }
        i += 1;
        assert(code@ =~= par_block(fun.redex@.subrange(0, i as int), tab as nat));
    }
    let ghost c2 = code@;
    let arity = fun.redex.len() as u64;
    proof {
        lemma_rules_counts(fun.rules@, arity as nat, tab as nat, d0);
    }
    let mut k: usize = 0;
    while k < fun.rules.len()
        invariant
            tab + 2 <= u64::MAX,
            k <= fun.rules@.len(),
            arity == fun.redex@.len(),
            rules_ok(fun.rules@),
            d0 + rules_size(fun.rules@) <= u64::MAX,
            code@ == c2 + rules_block(fun.rules@.subrange(0, k as int), arity as nat, tab as nat, d0).0,
            *dups == rules_block(fun.rules@.subrange(0, k as int), arity as nat, tab as nat, d0).1,
        decreases fun.rules@.len() - k,
    {
        let ghost pre = fun.rules@.subrange(0, k as int);
        proof {
            assert(fun.rules@.subrange(0, k + 1).drop_last() =~= pre);
            lemma_rules_counts(pre, arity as nat, tab as nat, d0);
            lemma_rules_size_prefix(fun.rules@, k as int);
            assert(scoped(fun.rules@[k as int].term, fun.rules@[k as int].vars@.len()));
        }
        compile_rule(&mut code, tab, &fun.rules[k], arity, dups);
        k += 1;
    }
    assert(fun.rules@.subrange(0, fun.rules@.len() as int) =~= fun.rules@);
    assert(code@ =~= func_code(*fun, tab as nat, d0).0);
    (init, code)
}


/// A name with `_` doubled and `.` turned into `_`.
pub open spec fn escape_char(c: char) -> Seq<char> {
    if c == '_' {
        seq!['_', '_']
    } else if c == '.' {
        seq!['_']
    } else {
        seq![c]
    }
}

/// The escaped characters of `cs`, in order.
pub open spec fn escape_chars(cs: Seq<char>) -> Seq<char>
    decreases cs.len(),
{
    if cs.len() == 0 {
        seq![]
    } else {
        escape_chars(cs.drop_last()) + escape_char(cs.last())
    }
}

/// The upper-case form of a text.
pub uninterp spec fn upper_of(s: Seq<char>) -> Seq<char>;

/// Relies on `str::to_uppercase`: the upper-case form of the text, which
/// depends on its characters alone.
#[verifier::external_body]
fn to_upper(s: &str) -> (r: String)
    ensures
        r@ == upper_of(s@),
{
    s.to_uppercase()
}

/// The C identifier of a name: escaped, upper-cased and wrapped in `_`.
pub open spec fn mangled(name: Seq<char>) -> Seq<char> {
    seq!['_'] + upper_of(escape_chars(name)) + seq!['_']
}

/// The C identifier of a constructor or function name.
pub fn compile_name(name: &str) -> (r: String)
    ensures
        r@ == mangled(name@),
{
    let cs = crate::strings::chars_of(name);
    let mut escaped = String::new();
    let mut i: usize = 0;
    while i < cs.len()
        invariant
            i <= cs@.len(),
            escaped@ == escape_chars(cs@.subrange(0, i as int)),
        decreases cs@.len() - i,
    {
        assert(cs@.subrange(0, i + 1).drop_last() =~= cs@.subrange(0, i as int));
        let c = cs[i];
        let ghost before = escaped@;
        if c == '_' {
            push_char(&mut escaped, '_');
            push_char(&mut escaped, '_');
        } else if c == '.' {
            push_char(&mut escaped, '_');
        } else {
            push_char(&mut escaped, c);
        }
        assert(escaped@ =~= before + escape_char(c));
        i += 1;
    }
    assert(cs@.subrange(0, cs@.len() as int) =~= cs@);
    let upper = to_upper(escaped.as_str());
    let mut r = String::new();
    push_char(&mut r, '_');
    r.append(upper.as_str());
    push_char(&mut r, '_');
    assert(r@ =~= mangled(name@));
    r
}

/// A function of the rulebook: its name, its id and its lowered form.
pub struct FuncEntry {
    pub name: String,
    pub id: u64,
    pub fun: DynFun,
}

/// The compiled catalog: every name with its id (in id order), and the
/// functions with their lowered rules (in order).
pub struct RuleBook {
    pub id_to_name: Vec<(u64, String)>,
    pub funcs: Vec<FuncEntry>,
}

/// The generated sections that fill the runtime template's slots.
pub struct Sections {
    pub c_ids: String,
    pub inits: String,
    pub codes: String,
    pub id2nm: String,
    pub names_count: u64,
}

/// The line that records a name for the runtime's id-to-name table.
pub open spec fn id2nm_line(id: nat, name: Seq<char>) -> Seq<char> {
    line_text(1, "id_to_name_data["@ + decimal(id) + "] = \""@ + name + "\";"@)
}

/// The id-to-name table lines of the first entries.
pub open spec fn id2nm_text(entries: Seq<(u64, String)>) -> Seq<char>
    decreases entries.len(),
{
    if entries.len() == 0 {
        seq![]
    } else {
        id2nm_text(entries.drop_last()) + id2nm_line(entries.last().0 as nat, entries.last().1@)
    }
}

/// The `#define` of a function's id.
pub open spec fn c_id_line(name: Seq<char>, id: nat) -> Seq<char> {
    line_text(0, "#define "@ + mangled(name) + " ("@ + decimal(id) + ")"@)
}

/// The `case` that opens a function's block.
pub open spec fn case_line(name: Seq<char>) -> Seq<char> {
    line_text(6, "case "@ + mangled(name) + ": {"@)
}

/// The three sections of the first functions, and the label counter after
/// them (labels run on from one function to the next).
pub open spec fn funcs_text(funcs: Seq<FuncEntry>, dups: nat) -> (Seq<char>, Seq<char>, Seq<char>, nat)
    decreases funcs.len(),
{
    if funcs.len() == 0 {
        (seq![], seq![], seq![], dups)
    } else {
        let p = funcs_text(funcs.drop_last(), dups);
        let f = funcs.last();
        let c = func_code(f.fun, 7, p.3);
        (
            p.0 + c_id_line(f.name@, f.id as nat),
            p.1 + case_line(f.name@) + init_block(f.fun.redex@, 7) + line_text(6, "};"@),
            p.2 + case_line(f.name@) + c.0 + line_text(7, "break;"@) + line_text(6, "};"@),
            c.1,
        )
    }
}

/// Number of nodes in all right-hand sides of the functions.
pub open spec fn funcs_size(funcs: Seq<FuncEntry>) -> nat
    decreases funcs.len(),
{
    if funcs.len() == 0 {
        0
    } else {
        funcs_size(funcs.drop_last()) + rules_size(funcs.last().fun.rules@)
    }
}

/// Number of duplications in all right-hand sides of the functions.
pub open spec fn funcs_dups(funcs: Seq<FuncEntry>) -> nat
    decreases funcs.len(),
{
    if funcs.len() == 0 {
        0
    } else {
        funcs_dups(funcs.drop_last()) + rules_dups(funcs.last().fun.rules@)
    }
}

/// Every function's rules are well scoped and small enough, and all of
/// them together have fewer nodes than labels can count.
pub open spec fn book_ok(book: RuleBook) -> bool {
    &&& forall|k: int| 0 <= k < book.funcs@.len() ==> rules_ok(#[trigger] book.funcs@[k].fun.rules@)
    &&& funcs_size(book.funcs@) <= u64::MAX
    &&& book.id_to_name@.len() <= u64::MAX
}

/// Duplicator labels across a whole book: emitting the functions in order
/// from label `dups` hands out exactly one label per duplication, each the
/// counter's value at that point, so the labels are `dups`,
/// `dups + 1`, ... and all distinct.
pub proof fn lemma_funcs_counts(funcs: Seq<FuncEntry>, dups: nat)
    ensures
        funcs_text(funcs, dups).3 == dups + funcs_dups(funcs),
        funcs_dups(funcs) <= funcs_size(funcs),
    decreases funcs.len(),
{
    if funcs.len() > 0 {
        lemma_funcs_counts(funcs.drop_last(), dups);
        let p = funcs_text(funcs.drop_last(), dups);
        let f = funcs.last();
        lemma_rules_counts(f.fun.rules@, f.fun.redex@.len(), 7, p.3);
    }
}

pub(crate) proof fn lemma_funcs_size_prefix(funcs: Seq<FuncEntry>, k: int)
    requires
        0 <= k < funcs.len(),
    ensures
        funcs_size(funcs.subrange(0, k)) + rules_size(funcs[k].fun.rules@) <= funcs_size(funcs),
    decreases funcs.len(),
{
    assert(funcs.subrange(0, k + 1).drop_last() =~= funcs.subrange(0, k));
    if k == funcs.len() - 1 {
        assert(funcs.subrange(0, k + 1) =~= funcs);
    } else {
        lemma_funcs_size_prefix(funcs.drop_last(), k);
        assert(funcs.drop_last().subrange(0, k) =~= funcs.subrange(0, k));
        assert(funcs.drop_last()[k] == funcs[k]);
    }
}

fn emit_id2nm(out: &mut String, id: u64, name: &String)
    ensures
        final(out)@ == old(out)@ + id2nm_line(id as nat, name@),
{
    let mut s = String::new();
    s.append("id_to_name_data[");
    push_decimal(&mut s, id);
    s.append("] = \"");
    s.append(name.as_str());
    s.append("\";");
    assert(s@ =~= "id_to_name_data["@ + decimal(id as nat) + "] = \""@ + name@ + "\";"@);
    line(out, 1, s.as_str());
}

#[verifier::rlimit(40)]
fn emit_func_entry(
    c_ids: &mut String,
    inits: &mut String,
    codes: &mut String,
    entry: &FuncEntry,
    dups: &mut u64,
)
    requires
        rules_ok(entry.fun.rules@),
        *old(dups) + rules_size(entry.fun.rules@) <= u64::MAX,
    ensures
        final(c_ids)@ == old(c_ids)@ + c_id_line(entry.name@, entry.id as nat),
        final(inits)@ == old(inits)@ + case_line(entry.name@) + init_block(entry.fun.redex@, 7) + line_text(6, "};"@),
        final(codes)@ == old(codes)@ + case_line(entry.name@) + func_code(entry.fun, 7, *old(dups) as nat).0
            + line_text(7, "break;"@) + line_text(6, "};"@),
        *final(dups) == func_code(entry.fun, 7, *old(dups) as nat).1,
{
    let (init, code) = compile_func(&entry.fun, 7, dups);
    let cname = compile_name(entry.name.as_str());
    let mut s = String::new();
    s.append("#define ");
    s.append(cname.as_str());
    s.append(" (");
    push_decimal(&mut s, entry.id);
    s.append(")");
    assert(s@ =~= "#define "@ + mangled(entry.name@) + " ("@ + decimal(entry.id as nat) + ")"@);
    line(c_ids, 0, s.as_str());
    let mut case = String::new();
    case.append("case ");
    case.append(cname.as_str());
    case.append(": {");
    assert(case@ =~= "case "@ + mangled(entry.name@) + ": {"@);
    let ghost i0 = inits@;
    line(inits, 6, case.as_str());
    inits.append(init.as_str());
    line(inits, 6, "};");
    assert(inits@ =~= i0 + case_line(entry.name@) + init_block(entry.fun.redex@, 7) + line_text(6, "};"@));
    let ghost k0 = codes@;
    line(codes, 6, case.as_str());
    codes.append(code.as_str());
    line(codes, 7, "break;");
    line(codes, 6, "};");
    assert(codes@ =~= k0 + case_line(entry.name@) + func_code(entry.fun, 7, *old(dups) as nat).0
        + line_text(7, "break;"@) + line_text(6, "};"@));
}

/// Generates the template sections of a rulebook: the id-to-name table,
/// and for each function its `#define`, its init case and its rewrite case.
/// Duplicator labels are numbered from 0 across the whole book.
#[verifier::rlimit(40)]
pub fn compile_book(book: &RuleBook) -> (r: Sections)
    requires
        book_ok(*book),
    ensures
        r.id2nm@ == id2nm_text(book.id_to_name@),
        r.c_ids@ == funcs_text(book.funcs@, 0).0,
        r.inits@ == funcs_text(book.funcs@, 0).1,
        r.codes@ == funcs_text(book.funcs@, 0).2,
        r.names_count == book.id_to_name@.len(),
{
    let mut id2nm = String::new();
    let mut i: usize = 0;
    while i < book.id_to_name.len()
        invariant
            i <= book.id_to_name@.len(),
            id2nm@ == id2nm_text(book.id_to_name@.subrange(0, i as int)),
        decreases book.id_to_name@.len() - i,
    {
        assert(book.id_to_name@.subrange(0, i + 1).drop_last() =~= book.id_to_name@.subrange(0, i as int));
        let (id, name) = &book.id_to_name[i];
        emit_id2nm(&mut id2nm, *id, name);
        i += 1;
    }
    assert(book.id_to_name@.subrange(0, book.id_to_name@.len() as int) =~= book.id_to_name@);
    let mut c_ids = String::new();
    let mut inits = String::new();
    let mut codes = String::new();
    let mut dups: u64 = 0;
    let mut k: usize = 0;
    proof {
        lemma_funcs_counts(book.funcs@, 0);
    }
    while k < book.funcs.len()
        invariant
            book_ok(*book),
            k <= book.funcs@.len(),
            c_ids@ == funcs_text(book.funcs@.subrange(0, k as int), 0).0,
            inits@ == funcs_text(book.funcs@.subrange(0, k as int), 0).1,
            codes@ == funcs_text(book.funcs@.subrange(0, k as int), 0).2,
            dups == funcs_text(book.funcs@.subrange(0, k as int), 0).3,
        decreases book.funcs@.len() - k,
    {
        let ghost pre = book.funcs@.subrange(0, k as int);
        proof {
            assert(book.funcs@.subrange(0, k + 1).drop_last() =~= pre);
            lemma_funcs_counts(pre, 0);
            lemma_funcs_size_prefix(book.funcs@, k as int);
            assert(rules_ok(book.funcs@[k as int].fun.rules@));
        }
        emit_func_entry(&mut c_ids, &mut inits, &mut codes, &book.funcs[k], &mut dups);
        k += 1;
    }
    assert(book.funcs@.subrange(0, book.funcs@.len() as int) =~= book.funcs@);
    Sections { c_ids, inits, codes, id2nm, names_count: book.id_to_name.len() as u64 }
}


} // verus!
