use hvm_compiler::parser::{
    consume_parser, done_parser, dry, equal_at, expected, find, flatten, get_char_parser, guard,
    head, head_default, highlight, is_letter, lines, list, name, name1, name_here,
    skip_comment_parser, skip_parser, skip_spaces_parser, tail, text_here_parser, text_parser,
    until, Answer, State,
};
use hvm_compiler::parser::{leaf_parser, node_parser, testree_parser, testree_show};

fn mocked_state_1<'a>(index: usize) -> State<'a> {
    State { code: "foo bar baz", index }
}

fn mocked_state_2<'a>(index: usize) -> State<'a> {
    State {
        code: "// Compose functions
        // Computes f^(2^n)
        (Comp 0 f x) = (f x)
        (Comp n f x) = (Comp (- n 1) λk(f (f k)) x)
      ",
        index,
    }
}

fn parse_test_ok<'a, A: PartialEq + std::fmt::Debug>(
    parser: impl Fn(State<'a>) -> Answer<'a, A>,
    expected_result: A,
    state_before: State<'a>,
    state_after: State<'a>,
) {
    let parsed = parser(state_before);
    assert!(parsed.is_ok());
    if let Ok((state, result)) = parsed {
        assert_eq!(expected_result, result);
        assert_eq!(state_after, state);
    }
}

fn parse_test_err<'a, A: PartialEq + std::fmt::Debug>(
    parser: impl Fn(State<'a>) -> Answer<'a, A>,
    state_before: State<'a>,
) {
    let parsed = parser(state_before);
    assert!(parsed.is_err());
}

fn mocked_parser_gen<'a>(text: &'static str) -> Box<dyn Fn(State<'a>) -> Answer<'a, bool>> {
    Box::new(move |state: State<'a>| -> Answer<'a, bool> {
        let pos = state.index;
        if &state.code[pos..pos + 3] == text {
            let state = State { code: state.code, index: state.index + 3 };
            Ok((state, true))
        } else {
            Err(format!("not a {}", text))
        }
    })
}

fn mocked_parser_foo<'a>() -> Box<dyn Fn(State<'a>) -> Answer<'a, bool>> {
    mocked_parser_gen("foo")
}

#[test]
fn mocked_parser_gen_test() {
    parse_test_ok(mocked_parser_gen("foo"), true, mocked_state_1(0), mocked_state_1(3));
    parse_test_ok(mocked_parser_gen("bar"), true, mocked_state_1(4), mocked_state_1(7));
}

#[test]
fn mocked_parser_fail() {
    parse_test_err(mocked_parser_gen("foo"), mocked_state_1(1));
    parse_test_err(mocked_parser_gen("foo"), mocked_state_1(2));
}

#[test]
fn equal_at_test() {
    assert!(equal_at("foo bar baz", "foo", 0));
    assert!(equal_at("foo bar baz", "bar", 4));
    assert!(equal_at("foo bar baz", "baz", 8));
    assert!(!equal_at("foo bar baz", "bar", 0));
}

#[test]
fn flatten_test() {
    assert_eq!("foobarbaz", flatten(&["foo", "bar", "baz"]));
}

#[test]
fn lines_test() {
    assert_eq!(vec!["foo", "bar", "baz"], lines("foo\nbar\nbaz"));
    assert_eq!(vec!["foobarbaz"], lines("foobarbaz"));
    let empty: Vec<String> = vec![];
    assert_eq!(empty, lines(""));
}

#[test]
fn find_test() {
    assert_eq!(8, find("foo bar baz", "baz"));
    assert_eq!(4, find("foo bar baz", "bar"));
}

#[test]
fn head_test() {
    assert_eq!(head(mocked_state_1(0)), Some('f'));
    assert_eq!(head(mocked_state_1(4)), Some('b'));
    assert_eq!(head(mocked_state_1(5)), Some('a'));
    assert_eq!(head(mocked_state_1(11)), None);
}

#[test]
fn head_default_test() {
    assert_eq!(head_default(mocked_state_1(0)), 'f');
    assert_eq!(head_default(mocked_state_1(4)), 'b');
    assert_eq!(head_default(mocked_state_1(5)), 'a');
    assert_eq!(head_default(mocked_state_1(11)), '\0');
}

#[test]
fn tail_test() {
    assert_eq!(tail(mocked_state_1(0)), mocked_state_1(1));
    assert_eq!(tail(mocked_state_1(4)), mocked_state_1(5));
    assert_eq!(tail(mocked_state_1(5)), mocked_state_1(6));
    assert_eq!(tail(mocked_state_1(11)), mocked_state_1(11));
}

#[test]
fn get_char_parser_test() {
    parse_test_ok(get_char_parser(), 'b', mocked_state_1(4), mocked_state_1(5));
    parse_test_ok(get_char_parser(), '\0', mocked_state_1(11), mocked_state_1(11));
}

#[test]
fn skip_comment_parser_test() {
    parse_test_ok(skip_comment_parser(), false, mocked_state_1(0), mocked_state_1(0));
    parse_test_ok(skip_comment_parser(), true, mocked_state_2(0), mocked_state_2(20));
}

#[test]
fn skip_spaces_parser_test() {
    parse_test_ok(skip_spaces_parser(), false, mocked_state_1(0), mocked_state_1(0));
    parse_test_ok(skip_spaces_parser(), true, mocked_state_1(3), mocked_state_1(4));
    parse_test_ok(skip_spaces_parser(), true, mocked_state_2(20), mocked_state_2(29));
}

#[test]
fn skip_parser_test() {
    parse_test_ok(skip_parser(), false, mocked_state_1(0), mocked_state_1(0));
    parse_test_ok(skip_parser(), true, mocked_state_1(3), mocked_state_1(4));
    parse_test_ok(skip_parser(), true, mocked_state_2(0), mocked_state_2(57));
}

#[test]
fn text_here_parser_test() {
    parse_test_ok(text_here_parser("foo"), true, mocked_state_1(0), mocked_state_1(3));
    parse_test_ok(text_here_parser("foo"), false, mocked_state_1(4), mocked_state_1(4));
    parse_test_ok(text_here_parser("bar"), true, mocked_state_1(4), mocked_state_1(7));
}

#[test]
fn text_parser_test() {
    parse_test_ok(text_parser("foo"), true, mocked_state_1(0), mocked_state_1(3));
    parse_test_ok(text_parser("foo"), false, mocked_state_1(4), mocked_state_1(4));
    parse_test_ok(text_parser("("), true, mocked_state_2(0), mocked_state_2(58));
    parse_test_ok(text_parser("foo"), false, mocked_state_2(0), mocked_state_2(0));
}

#[test]
fn consume_parser_test_ok() {
    parse_test_ok(consume_parser("foo"), (), mocked_state_1(0), mocked_state_1(3));
    parse_test_ok(consume_parser("("), (), mocked_state_2(0), mocked_state_2(58));
}

#[test]
fn consume_parser_test_err() {
    parse_test_err(consume_parser("foo"), mocked_state_1(4));
    parse_test_err(consume_parser("foo"), mocked_state_2(0));
}

#[test]
fn done_parser_test() {
    parse_test_ok(done_parser(), true, mocked_state_1(11), mocked_state_1(11));
    parse_test_ok(done_parser(), false, mocked_state_1(10), mocked_state_1(10));
    parse_test_ok(done_parser(), true, mocked_state_2(130), mocked_state_2(137));
}

#[test]
fn guard_test() {
    let guard_parser = |first_text: &'static str, second_text: &'static str| {
        move |x| guard(text_parser(first_text), text_parser(second_text), x)
    };
    parse_test_ok(guard_parser("foo", "foo bar"), Some(true), mocked_state_1(0), mocked_state_1(7));
    parse_test_ok(guard_parser("foo", "bar"), Some(false), mocked_state_1(0), mocked_state_1(0));
    parse_test_ok(guard_parser("bar", "bar baz"), None, mocked_state_1(0), mocked_state_1(0));
}

#[test]
fn dry_test() {
    assert_eq!(dry(mocked_parser_foo(), mocked_state_1(0)), Ok((mocked_state_1(0), true)));
    assert_eq!(dry(mocked_parser_foo(), mocked_state_1(4)), Err("not a foo".to_string()));
    assert_eq!(dry(text_parser("bar"), mocked_state_1(7)), Ok((mocked_state_1(7), false)));
}

#[test]
fn until_test() {
    assert_eq!(
        until(skip_spaces_parser(), get_char_parser(), mocked_state_1(0)),
        Ok((mocked_state_1(4), vec!['f', 'o', 'o']))
    );
    assert_eq!(
        until(skip_spaces_parser(), get_char_parser(), mocked_state_1(4)),
        Ok((mocked_state_1(8), vec!['b', 'a', 'r']))
    );
    assert_eq!(
        until(skip_spaces_parser(), get_char_parser(), mocked_state_1(3)),
        Ok((mocked_state_1(4), vec![]))
    );
    assert_eq!(
        until(text_parser("bar"), get_char_parser(), mocked_state_1(0)),
        Ok((mocked_state_1(7), vec!['f', 'o', 'o']))
    );
}

#[test]
fn list_test() {
    let make: Box<dyn Fn(Vec<char>) -> String> = Box::new(|x| x.into_iter().collect());
    let result = list(
        text_parser("foo"),
        skip_spaces_parser(),
        text_parser("baz"),
        get_char_parser(),
        make,
        mocked_state_1(0),
    );
    assert_eq!(result, Ok((mocked_state_1(11), "bar".to_string())))
}

#[test]
fn is_letter_test() {
    assert!(is_letter('C'));
    assert!(is_letter('k'));
    assert!(is_letter('4'));
    assert!(is_letter('_'));
    assert!(is_letter('.'));
    assert!(!is_letter('?'));
    assert!(!is_letter('/'));
    assert!(!is_letter('('));
    assert!(!is_letter('='));
}

#[test]
fn name_here_test() {
    parse_test_ok(name_here, "foo".to_string(), mocked_state_1(0), mocked_state_1(3));
    parse_test_ok(name_here, "bar".to_string(), mocked_state_1(4), mocked_state_1(7));
    parse_test_ok(name_here, "".to_string(), mocked_state_1(3), mocked_state_1(3));
}

#[test]
fn name_test() {
    parse_test_ok(name, "foo".to_string(), mocked_state_1(0), mocked_state_1(3));
    parse_test_ok(name, "bar".to_string(), mocked_state_1(4), mocked_state_1(7));
    parse_test_ok(name, "bar".to_string(), mocked_state_1(3), mocked_state_1(7));
}

#[test]
fn name1_test() {
    parse_test_ok(name1, "foo".to_string(), mocked_state_1(0), mocked_state_1(3));
    parse_test_ok(name1, "bar".to_string(), mocked_state_1(4), mocked_state_1(7));
    parse_test_ok(name1, "bar".to_string(), mocked_state_1(3), mocked_state_1(7));
}

#[test]
fn highlight_test() {
    let open_color = "\x1b[4m\x1b[31m";
    let close_color = "\x1b[0m";
    assert_eq!(
        highlight(3, 8, "foo bar baz"),
        format!("    0 | foo{} bar {}baz\n", open_color, close_color)
    );
    assert_eq!(
        highlight(3, 10, "foo\n bar \n baz"),
        format!(
            "    0 | foo{}\n    1 | {} bar {}\n    2 | {} baz\n",
            open_color, open_color, close_color, close_color
        )
    );
    assert_eq!(
        highlight(3, 6, "foo\n bar \n baz"),
        format!("    0 | foo{}\n    1 |  b{}ar \n    2 |  baz\n", open_color, close_color)
    );
}

#[test]
fn expected_test() {
    let init = 0;
    let size = 3;
    let expected1: Answer<()> = expected("vasco", size, mocked_state_1(init));
    assert_eq!(
        expected1,
        Err(format!("Expected {}:\n{}", "vasco", highlight(init, size, mocked_state_1(0).code)))
    );
}

#[test]
fn list_of_names_in_brackets() {
    let make: Box<dyn Fn(Vec<String>) -> Vec<String>> = Box::new(|x| x);
    let st = State { code: "[ a, b, c ]", index: 0 };
    let result = list(text_parser("["), text_parser(","), text_parser("]"), name1, make, st);
    assert_eq!(
        result,
        Ok((State { code: "[ a, b, c ]", index: 11 }, vec!["a".to_string(), "b".to_string(), "c".to_string()]))
    );
    let make: Box<dyn Fn(Vec<String>) -> Vec<String>> = Box::new(|x| x);
    let st = State { code: "[]", index: 0 };
    let result = list(text_parser("["), text_parser(","), text_parser("]"), name1, make, st);
    assert_eq!(result, Ok((State { code: "[]", index: 2 }, vec![])));
}

#[test]
fn name_with_dots_and_empty_name() {
    let st = State { code: "foo.bar baz", index: 0 };
    assert_eq!(name_here(st), Ok((State { code: "foo.bar baz", index: 7 }, "foo.bar".to_string())));
    assert!(name1(State { code: " )", index: 0 }).is_err());
}

#[test]
fn equal_at_past_the_end() {
    assert!(!equal_at("foo", "foobar", 0));
    assert!(!equal_at("abc", "c", 3));
    assert!(equal_at("abc", "", 3));
    assert!(!equal_at("", "baz", 8));
}

#[test]
fn skip_twice_is_skip_once() {
    let st = mocked_state_2(0);
    let once = skip_parser()(st).unwrap().0;
    let twice = skip_parser()(once).unwrap().0;
    assert_eq!(once, twice);
    assert_eq!(once.index, 57);
}

#[test]
fn text_and_consume_agree() {
    let st = mocked_state_1(3);
    let t = text_parser("bar")(st).unwrap();
    let c = consume_parser("bar")(st).unwrap();
    assert_eq!(t, (mocked_state_1(7), true));
    assert_eq!(c.0, t.0);
    let t = text_parser("baz")(st).unwrap();
    assert_eq!(t, (mocked_state_1(3), false));
    assert!(consume_parser("baz")(st).is_err());
}

#[test]
fn until_stops_without_progress() {
    let r = until(text_parser("x"), get_char_parser(), mocked_state_1(11));
    assert_eq!(r, Err("no progress in a repetition".to_string()));
}

#[test]
fn highlight_clamps_span_past_the_end() {
    let open_color = "\x1b[4m\x1b[31m";
    let close_color = "\x1b[0m";
    assert_eq!(highlight(3, 99, "foo"), format!("    0 | foo{}{}\n", open_color, close_color));
}

#[test]
fn head_of_multibyte_character() {
    let st = State { code: "λx", index: 0 };
    assert_eq!(head(st), Some('λ'));
    assert_eq!(tail(st).index, 2);
}

#[test]
fn testree_round_trip() {
    let st = State { code: "(a (b c))", index: 0 };
    let (after, tree) = testree_parser(st).unwrap();
    assert_eq!(after.index, 9);
    assert_eq!(testree_show(&tree), "(a (b c))");
    let leaf = leaf_parser(State { code: " x", index: 0 }).unwrap();
    assert_eq!(leaf.0.index, 2);
    assert!(node_parser(State { code: "x", index: 0 }).unwrap().1.is_none());
}

type Choice<'a> = Box<dyn Fn(State<'a>) -> Answer<'a, Option<String>>>;

#[test]
fn grammar_takes_first_match() {
    let decline: Choice = Box::new(|s| Ok((s, None)));
    let word: Choice = Box::new(|s| {
        let (s, w) = name(s)?;
        Ok((s, Some(w)))
    });
    let choices = vec![decline, word];
    let r = hvm_compiler::parser::grammar("word", &choices, mocked_state_1(3));
    assert_eq!(r, Ok((mocked_state_1(7), "bar".to_string())));
    let none: Choice = Box::new(|s| Ok((s, None)));
    let r = hvm_compiler::parser::grammar("word", &vec![none], mocked_state_1(0));
    assert_eq!(
        r,
        Err(format!("Expected word:\n{}", highlight(0, 1, "foo bar baz")))
    );
}

#[test]
fn text_miss_keeps_the_given_state() {
    let st = State { code: " a", index: 0 };
    assert_eq!(text_parser("b")(st), Ok((st, false)));
    assert_eq!(text_parser("a")(st), Ok((State { code: " a", index: 2 }, true)));
}
