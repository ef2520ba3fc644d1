use hvm_compiler::builder::{Cond, DynFun, DynRule, DynTerm, DynVar, ADD};
use hvm_compiler::compiler::{compile_book, compile_func, compile_name, RuleBook, Sections};
use hvm_compiler::rulebook::{
    build_dynfun, compile_code, derive_redex, gen_rulebook, register_names, BookError,
    CompileError, Rule, Term,
};
use hvm_compiler::template::{
    c_runtime_template, runtime_parts, slot_replacement, splice_template, RuntimeParts, SlotMatch,
    TemplateError,
};

fn var(n: &str) -> Term {
    Term::Var { name: n.to_string() }
}

fn ctr(n: &str, args: Vec<Term>) -> Term {
    Term::Ctr { name: n.to_string(), args }
}

fn lam(n: &str, body: Term) -> Term {
    Term::Lam { name: n.to_string(), body: Box::new(body) }
}

fn app(f: Term, a: Term) -> Term {
    Term::App { func: Box::new(f), argm: Box::new(a) }
}

fn rule(lhs: Term, rhs: Term) -> Rule {
    Rule { lhs, rhs }
}

fn sections_of(rules: Vec<Rule>) -> Sections {
    let book = gen_rulebook(rules).unwrap();
    compile_book(&book)
}

fn parts(parallel: bool) -> RuntimeParts {
    RuntimeParts {
        parallel,
        threads: 4,
        dep_basic: "BASIC".to_string(),
        dep_atomic: "ATOMIC".to_string(),
        dep_thread: "THREAD".to_string(),
        dep_time: "TIME".to_string(),
    }
}

#[test]
fn compile_name_mangles() {
    assert_eq!(compile_name("foo.bar"), "_FOO_BAR_");
    assert_eq!(compile_name("foo_bar"), "_FOO__BAR_");
    assert_eq!(compile_name("Succ"), "_SUCC_");
}

#[test]
fn identity_function() {
    let s = sections_of(vec![rule(ctr("I", vec![var("x")]), var("x"))]);
    assert!(s.c_ids.contains("#define _I_ (1)"));
    assert!(s.codes.contains("case _I_: {"));
    assert!(s.codes.contains("u64 done = ask_arg(mem, term, 0);"));
    assert!(s.codes.contains("link(mem, host, done);"));
    assert!(!s.codes.contains("alloc("));
    assert!(s.inits.contains("init = 0;"));
    assert_eq!(s.names_count, 1);
    assert_eq!(s.id2nm, "  id_to_name_data[1] = \"I\";\n");
}

#[test]
fn church_successor() {
    let body = lam("f", lam("x", app(var("f"), app(app(var("n"), var("f")), var("x")))));
    let s = sections_of(vec![rule(ctr("Succ", vec![var("n")]), body)]);
    assert_eq!(s.codes.matches("= alloc(mem, 2);").count(), 5);
    assert!(s.codes.contains("u64 lam_0 = alloc(mem, 2);"));
    assert!(s.codes.contains("u64 lam_1 = alloc(mem, 2);"));
    assert!(s.codes.contains("link(mem, app_4 + 0, ask_arg(mem, term, 0));"));
    assert!(s.codes.contains("link(mem, app_4 + 1, Var(lam_0));"));
    assert!(s.codes.contains("link(mem, app_3 + 1, Var(lam_1));"));
    assert!(s.codes.contains("link(mem, app_2 + 0, Var(lam_0));"));
    assert!(s.codes.contains("link(mem, lam_1 + 1, App(app_2));"));
    assert!(s.codes.contains("u64 done = Lam(lam_0);"));
}

#[test]
fn duplicating_pair() {
    let body = Term::Dup {
        nam0: "x0".to_string(),
        nam1: "x1".to_string(),
        expr: Box::new(var("x")),
        body: Box::new(ctr("Pair", vec![var("x0"), var("x1")])),
    };
    let s = sections_of(vec![rule(ctr("Dup2", vec![var("x")]), body)]);
    assert!(s.codes.contains("u64 cpy_0 = ask_arg(mem, term, 0);"));
    assert!(s.codes.contains("if (get_tag(cpy_0) == U32) {"));
    assert!(s.codes.contains("dp0_1 = cpy_0;"));
    assert!(s.codes.contains("u64 dup_3 = alloc(mem, 3);"));
    assert!(s.codes.contains("dp0_1 = Dp0(0, dup_3);"));
    assert!(s.codes.contains("dp1_2 = Dp1(0, dup_3);"));
    assert!(s.codes.contains("link(mem, ctr_5 + 0, dp0_1);"));
    assert!(s.codes.contains("link(mem, ctr_5 + 1, dp1_2);"));
    assert!(s.codes.contains("u64 done = Ctr(2, 2, ctr_5);"));
    assert_eq!(s.codes.matches("Dp0(").count(), 1);
}

#[test]
fn numeric_inline_both_branches() {
    let body = Term::Op2 { oper: ADD, val0: Box::new(var("x")), val1: Box::new(var("x")) };
    let s = sections_of(vec![rule(ctr("Double", vec![var("x")]), body)]);
    assert!(s.codes.contains(
        "if (get_tag(ask_arg(mem, term, 0)) == U32 && get_tag(ask_arg(mem, term, 0)) == U32) {"
    ));
    assert!(s.codes.contains(
        "ret_0 = U_32(get_val(ask_arg(mem, term, 0)) + get_val(ask_arg(mem, term, 0)));"
    ));
    assert!(s.codes.contains("} else {"));
    assert!(s.codes.contains("u64 op2_1 = alloc(mem, 2);"));
    assert!(s.codes.contains("ret_0 = Op2(ADD, op2_1);"));
}

#[test]
fn erased_variable_is_collected() {
    let rules = vec![rule(ctr("K", vec![var("x"), var("y")]), var("x"))];
    let entries = register_names(&rules).unwrap();
    let fun = build_dynfun(&rules, &entries).unwrap();
    let vars = &fun.rules[0].vars;
    assert_eq!(vars[0], DynVar { param: 0, field: None, erase: false });
    assert_eq!(vars[1], DynVar { param: 1, field: None, erase: true });
    let s = sections_of(rules);
    let collect = s.codes.find("collect(mem, ask_arg(mem, term, 1));").unwrap();
    let cont = s.codes.find("init = 1;").unwrap();
    assert!(collect < cont);
}

#[test]
fn strictness_from_patterns() {
    let rules = vec![rule(ctr("F", vec![var("x"), var("y")]), var("y"))];
    let entries = register_names(&rules).unwrap();
    assert_eq!(build_dynfun(&rules, &entries).unwrap().redex, vec![false, false]);
    let rules = vec![rule(ctr("F", vec![ctr("S", vec![var("n")]), var("y")]), var("n"))];
    let entries = register_names(&rules).unwrap();
    let fun = build_dynfun(&rules, &entries).unwrap();
    assert_eq!(fun.redex, vec![true, false]);
    assert_eq!(fun.rules[0].free, vec![(0, 1)]);
    assert_eq!(fun.rules[0].vars[0], DynVar { param: 0, field: Some(0), erase: false });
}

#[test]
fn derive_redex_marks_demanded_positions() {
    let r1 = DynRule {
        cond: vec![Cond::AnyVar, Cond::ExpectNum(3)],
        vars: vec![],
        free: vec![],
        term: DynTerm::U32 { numb: 0 },
    };
    let r2 = DynRule {
        cond: vec![Cond::ExpectCtr(5), Cond::AnyVar],
        vars: vec![],
        free: vec![],
        term: DynTerm::U32 { numb: 0 },
    };
    assert_eq!(derive_redex(&vec![r1, r2], 2), vec![true, true]);
}

#[test]
fn duplicator_labels_are_distinct() {
    let dup = |v: &str| Term::Dup {
        nam0: "a".to_string(),
        nam1: "b".to_string(),
        expr: Box::new(var(v)),
        body: Box::new(ctr("P", vec![var("a"), var("b")])),
    };
    let s = sections_of(vec![
        rule(ctr("F", vec![var("x")]), dup("x")),
        rule(ctr("G", vec![var("y")]), dup("y")),
    ]);
    assert_eq!(s.codes.matches("Dp0(").count(), 2);
    assert!(s.codes.contains("Dp0(0, "));
    assert!(s.codes.contains("Dp1(0, "));
    assert!(s.codes.contains("Dp0(1, "));
    assert!(s.codes.contains("Dp1(1, "));
}

#[test]
fn ids_round_trip() {
    let rules = vec![
        rule(ctr("Add", vec![ctr("Succ", vec![var("a")]), var("b")]), ctr("Succ", vec![var("b")])),
        rule(ctr("Main", vec![]), ctr("Zero", vec![])),
    ];
    let book = gen_rulebook(rules).unwrap();
    let names: Vec<&str> = book.id_to_name.iter().map(|(_, n)| n.as_str()).collect();
    assert_eq!(names, vec!["Add", "Succ", "Main", "Zero"]);
    for (k, (id, _)) in book.id_to_name.iter().enumerate() {
        assert_eq!(*id, k as u64 + 1);
    }
    assert_eq!(book.funcs.len(), 2);
    assert_eq!(book.funcs[0].id, 1);
    assert_eq!(book.funcs[1].name, "Main");
    assert_eq!(book.funcs[1].id, 3);
}

#[test]
fn init_block_schedules_strict_arguments() {
    let fun = DynFun {
        redex: vec![true, false, true],
        rules: vec![],
    };
    let mut dups = 0;
    let (init, code) = compile_func(&fun, 0, &mut dups);
    assert_eq!(
        init,
        "if (get_ari(term) == 3) {\n  stk_push(&stack, host);\n  stk_push(&stack, get_loc(term, 0) | 0x80000000);\n  host = get_loc(term, 2);\n  continue;\n}\n"
    );
    assert!(code.contains("if (get_tag(ask_arg(mem,term,0)) == PAR) {"));
    assert!(code.contains("cal_par(mem, host, term, ask_arg(mem, term, 2), 2);"));
    assert!(!code.contains("ask_arg(mem,term,1)"));
}

#[test]
fn rule_conditions_are_conjoined() {
    let rules = vec![rule(
        ctr("F", vec![ctr("S", vec![var("n")]), Term::U32 { numb: 7 }]),
        var("n"),
    )];
    let s = sections_of(rules);
    assert!(s.codes.contains("if ((get_tag(ask_arg(mem, term, 0)) == CTR && get_ext(ask_arg(mem, term, 0)) == 2u) && (get_tag(ask_arg(mem, term, 1)) == U32 && get_val(ask_arg(mem, term, 1)) == 7u)) {"));
    assert!(s.codes.contains("clear(mem, get_loc(ask_arg(mem, term, 0), 0), 1);"));
    assert!(s.codes.contains("clear(mem, get_loc(term, 0), 2);"));
}

#[test]
fn function_called_before_its_rules_is_a_call() {
    let rules = vec![
        rule(ctr("Main", vec![]), ctr("F", vec![Term::U32 { numb: 1 }])),
        rule(ctr("F", vec![var("x")]), var("x")),
    ];
    let book = gen_rulebook(rules).unwrap();
    let s = compile_book(&book);
    assert!(s.codes.contains("Cal(1, 2, cal_0)"));
    assert!(s.c_ids.contains("#define _F_ (2)"));
}

#[test]
fn book_errors() {
    let bad_head = vec![rule(var("x"), var("x"))];
    assert_eq!(gen_rulebook(bad_head).err(), Some(BookError::BadHead));
    let arity = vec![
        rule(ctr("F", vec![var("x")]), var("x")),
        rule(ctr("F", vec![var("x"), var("y")]), var("x")),
    ];
    assert_eq!(gen_rulebook(arity).err(), Some(BookError::ArityMismatch));
    let unbound = vec![rule(ctr("F", vec![var("x")]), var("z"))];
    assert_eq!(gen_rulebook(unbound).err(), Some(BookError::UnboundVariable));
    let nested = vec![rule(ctr("F", vec![ctr("S", vec![ctr("Z", vec![])])]), Term::U32 { numb: 0 })];
    assert_eq!(gen_rulebook(nested).err(), Some(BookError::NestedPattern));
    let bad_pattern = vec![rule(ctr("F", vec![lam("x", var("x"))]), Term::U32 { numb: 0 })];
    assert_eq!(gen_rulebook(bad_pattern).err(), Some(BookError::BadPattern));
}

fn sample_sections() -> Sections {
    Sections {
        c_ids: "IDS".to_string(),
        inits: "INITS".to_string(),
        codes: "CODES".to_string(),
        id2nm: "NAMES".to_string(),
        names_count: 3,
    }
}

#[test]
fn template_slots_are_filled() {
    let template = "a /*! GENERATED_NAME_COUNT !*/ b /*! GENERATED_REWRITE_RULES_STEP_1 */ old text /* GENERATED_REWRITE_RULES_STEP_1 !*/ c /*! GENERATED_PARALLEL_FLAG !*/";
    let out = c_runtime_template(template, &sample_sections(), &parts(true)).unwrap();
    assert_eq!(out, "a 3 b CODES c #define PARALLEL");
    assert!(!out.contains("/*!"));
}

#[test]
fn template_every_tag_once() {
    let tags = [
        ("GENERATED_PARALLEL_FLAG", ""),
        ("GENERATED_NUM_THREADS", "4"),
        ("GENERATED_CONSTRUCTOR_IDS", "IDS"),
        ("GENERATED_REWRITE_RULES_STEP_0", "INITS"),
        ("GENERATED_REWRITE_RULES_STEP_1", "CODES"),
        ("GENERATED_NAME_COUNT", "3"),
        ("GENERATED_ID_TO_NAME_DATA", "NAMES"),
        ("GENERATED_DEPENDENCY_BASIC", "BASIC"),
        ("GENERATED_DEPENDENCY_ATOMIC", "ATOMIC"),
        ("GENERATED_DEPENDENCY_THREAD", "THREAD"),
        ("GENERATED_DEPENDENCY_TIME", "TIME"),
    ];
    let mut template = String::new();
    let mut expected = String::new();
    for (tag, text) in tags.iter() {
        template.push_str(&format!("[/*! {} !*/]", tag));
        expected.push_str(&format!("[{}]", text));
    }
    let out = c_runtime_template(&template, &sample_sections(), &parts(false)).unwrap();
    assert_eq!(out, expected);
}

#[test]
fn template_mismatched_block_tag() {
    let template = "x /*! GENERATED_NAME_COUNT */ y /* GENERATED_CONSTRUCTOR_IDS !*/ z";
    assert_eq!(
        c_runtime_template(template, &sample_sections(), &parts(false)),
        Err(TemplateError::MismatchedTag)
    );
}

#[test]
fn template_unknown_tag() {
    let template = "x /*! SOMETHING_ELSE !*/ z";
    assert_eq!(
        c_runtime_template(template, &sample_sections(), &parts(false)),
        Err(TemplateError::UnknownTag)
    );
}

#[test]
fn splice_rejects_out_of_place_slots() {
    let slots = vec![
        SlotMatch { start: 2, end: 4, tag: "GENERATED_NAME_COUNT".to_string(), close: None },
        SlotMatch { start: 3, end: 5, tag: "GENERATED_NAME_COUNT".to_string(), close: None },
    ];
    assert_eq!(
        splice_template("abcdefg", &slots, &sample_sections(), &parts(false)),
        Err(TemplateError::BadSlot)
    );
    let slots = vec![SlotMatch { start: 2, end: 4, tag: "GENERATED_NAME_COUNT".to_string(), close: None }];
    assert_eq!(
        splice_template("abcdefg", &slots, &sample_sections(), &parts(false)),
        Ok("ab3efg".to_string())
    );
}

#[test]
fn slot_replacement_texts() {
    let p = parts(true);
    let s = sample_sections();
    assert_eq!(slot_replacement(&"GENERATED_NUM_THREADS".to_string(), &s, &p), Some("4".to_string()));
    assert_eq!(slot_replacement(&"GENERATED_DEPENDENCY_TIME".to_string(), &s, &p), Some("TIME".to_string()));
    assert_eq!(slot_replacement(&"NOPE".to_string(), &s, &p), None);
}

#[test]
fn runtime_parts_count_cpus() {
    let p = runtime_parts(true, String::new(), String::new(), String::new(), String::new());
    assert!(p.threads >= 1);
    let out = c_runtime_template("/*! GENERATED_NUM_THREADS !*/", &sample_sections(), &p).unwrap();
    assert_eq!(out, p.threads.to_string());
}

#[test]
fn compile_code_end_to_end() {
    let rules = vec![rule(ctr("I", vec![var("x")]), var("x"))];
    let template = "/*! GENERATED_CONSTRUCTOR_IDS !*/|/*! GENERATED_ID_TO_NAME_DATA !*/";
    let out = compile_code(rules, template, &parts(false)).unwrap();
    assert_eq!(out, "#define _I_ (1)\n|  id_to_name_data[1] = \"I\";\n");
    let bad = vec![rule(var("x"), var("x"))];
    assert_eq!(
        compile_code(bad, template, &parts(false)),
        Err(CompileError::Book(BookError::BadHead))
    );
}

#[test]
fn compile_book_numbers_labels_across_functions() {
    let book = RuleBook { id_to_name: vec![(1, "F".to_string())], funcs: vec![] };
    let s = compile_book(&book);
    assert_eq!(s.c_ids, "");
    assert_eq!(s.names_count, 1);
}


#[test]
fn template_block_with_empty_body() {
    let template = "x/*! GENERATED_NAME_COUNT *//* GENERATED_NAME_COUNT !*/y";
    assert_eq!(c_runtime_template(template, &sample_sections(), &parts(false)), Ok("x3y".to_string()));
}

#[test]
fn arity_conflict_is_reported_first() {
    let rules = vec![
        rule(ctr("F", vec![var("x")]), ctr("S", vec![])),
        rule(ctr("G", vec![var("x")]), ctr("S", vec![var("x")])),
    ];
    assert_eq!(gen_rulebook(rules).err(), Some(BookError::ArityMismatch));
}
