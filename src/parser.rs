//! A small parser-combinator kit over source text.
//!
//! A parser is a function from a [`State`] (the text and a byte offset into
//! it) to an [`Answer`]: either `Ok((next_state, value))` or `Err(message)`.
//! Recoverable failure is expressed by parsers returning `Option<A>`, which
//! leave the state unchanged and return `None`; an `Err` aborts the parse.
use vstd::prelude::*;
use vstd::string::StringSliceAdditionalSpecFns;
use vstd::utf8::*;

use crate::strings::{chars_of, decimal, push_char, push_decimal};

verus! {

broadcast use vstd::utf8::group_utf8_lib;

/// A parsing position: the whole source text and a byte offset into it.
#[derive(Clone, Copy, Debug, PartialEq)]
pub struct State<'a> {
    pub code: &'a str,
    pub index: usize,
}

/// The outcome of running a parser.
pub type Answer<'a, A> = Result<(State<'a>, A), String>;

impl<'a> State<'a> {
    /// The UTF-8 bytes of the source text.
    pub open spec fn bytes(self) -> Seq<u8> {
        self.code.spec_bytes()
    }

    /// The offset lies inside the text, on the first byte of a character
    /// (or at the very end).
    pub open spec fn wf(self) -> bool {
        &&& self.index <= self.bytes().len()
        &&& self.bytes().len() <= usize::MAX
        &&& is_char_boundary(self.bytes(), self.index as int)
    }

    /// The same text at another offset.
    pub open spec fn at(self, i: int) -> State<'a> {
        State { code: self.code, index: i as usize }
    }

    /// The characters from the cursor to the end of the text.
    pub open spec fn rest_chars(self) -> Seq<char> {
        decode_utf8(self.bytes().subrange(self.index as int, self.bytes().len() as int))
    }

    /// Byte length of the character under the cursor.
    pub open spec fn head_width(self) -> int {
        length_of_first_scalar(
            self.bytes().subrange(self.index as int, self.bytes().len() as int),
        )
    }

    fn rest(&self) -> (r: &'a str)
        requires
            self.wf(),
        ensures
            r@ == self.rest_chars(),
            r.spec_bytes() == self.bytes().subrange(self.index as int, self.bytes().len() as int),
    {
        let (_, r) = self.code.split_at(self.index);
        proof {
            lemma_text_valid(self.code);
            lemma_text_valid(r);
        }
        r
    }
}

/// The bytes of every text are valid UTF-8 and decode back to its characters.
pub proof fn lemma_text_valid(s: &str)
    ensures
        valid_utf8(s.spec_bytes()),
        decode_utf8(s.spec_bytes()) == s@,
{
    encode_utf8_valid_utf8(s@);
    encode_utf8_decode_utf8(s@);
}

/// A position whose suffix is valid UTF-8 is a character boundary.
proof fn lemma_valid_suffix_boundary(b: Seq<u8>, i: int)
    requires
        valid_utf8(b),
        0 <= i <= b.len(),
        valid_utf8(b.subrange(i, b.len() as int)),
    ensures
        is_char_boundary(b, i),
{
    if i < b.len() {
        let s = b.subrange(i, b.len() as int);
        assert(s[0] == b[i]);
        is_char_boundary_iff_not_is_continuation_byte(b, i);
    } else {
        is_char_boundary_start_end_of_seq(b);
    }
}

/// Stepping over the character that starts at a boundary lands on a boundary.
proof fn lemma_step_boundary(b: Seq<u8>, i: int)
    requires
        valid_utf8(b),
        0 <= i < b.len(),
        is_char_boundary(b, i),
    ensures
        1 <= length_of_first_scalar(b.subrange(i, b.len() as int)),
        i + length_of_first_scalar(b.subrange(i, b.len() as int)) <= b.len(),
        is_char_boundary(b, i + length_of_first_scalar(b.subrange(i, b.len() as int))),
        b[i] <= 0x7f ==> length_of_first_scalar(b.subrange(i, b.len() as int)) == 1,
{
    valid_utf8_split(b, i);
    let s = b.subrange(i, b.len() as int);
    let k = length_of_first_scalar(s);
    assert(s[0] == b[i]);
    assert(pop_first_scalar(s) =~= b.subrange(i + k, b.len() as int));
    lemma_valid_suffix_boundary(b, i + k);
}

/// Matching a valid UTF-8 pattern from a valid suffix leaves a valid suffix.
proof fn lemma_match_valid(b: Seq<u8>, p: Seq<u8>, i: int)
    requires
        0 <= i,
        i + p.len() <= b.len(),
        valid_utf8(b.subrange(i, b.len() as int)),
        b.subrange(i, i + p.len()) == p,
        valid_utf8(p),
    ensures
        valid_utf8(b.subrange(i + p.len(), b.len() as int)),
    decreases p.len(),
{
    if p.len() > 0 {
        let s = b.subrange(i, b.len() as int);
        let k = length_of_first_scalar(p);
        assert(s[0] == p[0]);
        assert(k == length_of_first_scalar(s));
        assert(pop_first_scalar(s) =~= b.subrange(i + k, b.len() as int));
        let q = pop_first_scalar(p);
        assert(q =~= b.subrange(i + k, i + p.len()));
        lemma_match_valid(b, q, i + k);
    } else {
        assert(b.subrange(i + p.len(), b.len() as int) == b.subrange(i, b.len() as int));
    }
}

/// Matching a pattern at a boundary ends on a boundary.
proof fn lemma_match_boundary(b: Seq<u8>, p: Seq<u8>, i: int)
    requires
        valid_utf8(b),
        valid_utf8(p),
        0 <= i,
        i + p.len() <= b.len(),
        is_char_boundary(b, i),
        b.subrange(i, i + p.len()) == p,
    ensures
        is_char_boundary(b, i + p.len()),
{
    valid_utf8_split(b, i);
    lemma_match_valid(b, p, i);
    lemma_valid_suffix_boundary(b, i + p.len());
}

// Utils
// =====

/// `test` occurs in `text` at byte offset `i`.
pub open spec fn equal_at_spec(text: Seq<u8>, test: Seq<u8>, i: int) -> bool {
    &&& 0 <= i
    &&& i + test.len() <= text.len()
    &&& text.subrange(i, i + test.len()) == test
}

/// Does `test` occur in `text` at byte offset `i`? False whenever it would
/// reach past the end.
pub fn equal_at(text: &str, test: &str, i: usize) -> (r: bool)
    ensures
        r == equal_at_spec(text.spec_bytes(), test.spec_bytes(), i as int),
{
    let t = text.as_bytes();
    let p = test.as_bytes();
    if i > t.len() || p.len() > t.len() - i {
        return false;
    }
    let mut k: usize = 0;
    while k < p.len()
        invariant
            t@ == text.spec_bytes(),
            p@ == test.spec_bytes(),
            i + p@.len() <= t@.len(),
            p@.len() == p.len(),
            t@.len() == t.len(),
            k <= p@.len(),
            forall|j: int| 0 <= j < k ==> t@[i + j] == p@[j],
        decreases p@.len() - k,
    {
        if t[i + k] != p[k] {
            proof {
                let sub = t@.subrange(i as int, i + p@.len());
                assert(sub[k as int] == t@[i + k]);
                assert(sub[k as int] != p@[k as int]);
                assert(sub != p@);
            }
            return false;
        }
        k += 1;
    }
    assert(t@.subrange(i as int, i + p@.len()) =~= p@);
    true
}

// Elims
// =====

/// The character under the cursor, if any.
pub open spec fn head_spec(state: State) -> Option<char> {
    if state.rest_chars().len() == 0 {
        None
    } else {
        Some(state.rest_chars()[0])
    }
}

/// The position after the character under the cursor (unchanged at the end).
pub open spec fn tail_spec<'a>(state: State<'a>) -> State<'a> {
    if state.index < state.bytes().len() {
        state.at(state.index + state.head_width())
    } else {
        state
    }
}

/// There is a character under the cursor exactly when the cursor is not at
/// the end, and stepping over it keeps the position well formed.
pub proof fn lemma_head_tail(state: State)
    requires
        state.wf(),
    ensures
        (head_spec(state) is None) <==> state.index == state.bytes().len(),
        tail_spec(state).wf(),
        tail_spec(state).code == state.code,
        state.index < state.bytes().len() ==> state.index + state.head_width() <= state.bytes().len(),
        state.index < state.bytes().len() ==> state.index < tail_spec(state).index,
        state.index < state.bytes().len() && state.bytes()[state.index as int] <= 0x7f
            ==> head_spec(state) == Some(state.bytes()[state.index as int] as char)
            && tail_spec(state).index == state.index + 1,
{
    let b = state.bytes();
    let i = state.index as int;
    lemma_text_valid(state.code);
    valid_utf8_split(b, i);
    let s = b.subrange(i, b.len() as int);
    if i < b.len() {
        lemma_step_boundary(b, i);
        assert(s[0] == b[i]);
        assert(state.rest_chars()[0] == decode_first_scalar(s) as char);
        let c = b[i];
        if c <= 0x7f {
            assert(c <= 0x7f ==> (c & 0x7f) == c) by (bit_vector);
        }
    } else {
        assert(s.len() == 0);
    }
}

/// The character under the cursor, if any.
pub fn head(state: State) -> (r: Option<char>)
    requires
        state.wf(),
    ensures
        r == head_spec(state),
{
    let rest = state.rest();
    let mut it = rest.chars();
    it.next()
}

/// The character under the cursor, or `'\0'` at the end of the text.
pub fn head_default(state: State) -> (r: char)
    requires
        state.wf(),
    ensures
        r == match head_spec(state) {
            Some(c) => c,
            None => '\0',
        },
{
    if let Some(got) = head(state) {
        got
    } else {
        '\0'
    }
}

/// Byte length of the character that starts at offset `i`.
fn width_at(code: &str, i: usize) -> (r: usize)
    requires
        i < code.spec_bytes().len(),
    ensures
        r == length_of_first_scalar(
            code.spec_bytes().subrange(i as int, code.spec_bytes().len() as int),
        ),
{
    let b = code.as_bytes()[i];
    let ghost s = code.spec_bytes().subrange(i as int, code.spec_bytes().len() as int);
    assert(s[0] == b);
    if b <= 0x7f {
        1
    } else if 0xc0 <= b && b <= 0xdf {
        2
    } else if 0xe0 <= b && b <= 0xef {
        3
    } else {
        4
    }
}

/// Moves the cursor past the character under it.
pub fn tail<'a>(state: State<'a>) -> (r: State<'a>)
    requires
        state.wf(),
    ensures
        r == tail_spec(state),
        r.wf(),
{
    proof {
        lemma_head_tail(state);
    }
    let add = if state.index < state.code.len() {
        width_at(state.code, state.index)
    } else {
        0
    };
    State { code: state.code, index: state.index + add }
}


/// The character under the cursor after skipping, and the position past it;
/// `'\0'` with the skipped position at the end of the text.
pub open spec fn get_char_spec<'a>(state: State<'a>) -> (State<'a>, char) {
    let s = skip_spec(state);
    match head_spec(s) {
        Some(c) => (tail_spec(s), c),
        None => (s, '\0'),
    }
}

/// Skips blanks and comments, then reads one character.
pub fn get_char<'a>(state: State<'a>) -> (r: Answer<'a, char>)
    requires
        state.wf(),
    ensures
        r == Ok::<(State<'a>, char), String>(get_char_spec(state)),
        get_char_spec(state).0.wf(),
{
    let (state, _skipped) = skip_state(state);
    proof {
        lemma_head_tail(state);
    }
    if let Some(got) = head(state) {
        Ok((tail(state), got))
    } else {
        Ok((state, '\0'))
    }
}

/// [`get_char`] as a parser value.
pub fn get_char_parser<'a>() -> (f: impl Fn(State<'a>) -> Answer<'a, char>)
    ensures
        is_parser(f),
        forall|s: State<'a>, r: Answer<'a, char>|
            s.wf() && #[trigger] f.ensures((s,), r) ==> r == Ok::<(State<'a>, char), String>(
                get_char_spec(s),
            ),
{
    |s: State<'a>| -> (r: Answer<'a, char>)
        requires
            s.wf(),
        ensures
            r == Ok::<(State<'a>, char), String>(get_char_spec(s)),
            get_char_spec(s).0.wf(),
        { get_char(s) }
}

// Parsers as values
// =================

/// `f` may be run on every well-formed state, and every state it answers
/// with is well formed and over the same text.
pub open spec fn is_parser<'a, A, F: Fn(State<'a>) -> Answer<'a, A>>(f: F) -> bool {
    &&& forall|s: State<'a>| s.wf() ==> #[trigger] f.requires((s,))
    &&& forall|s: State<'a>, r: Answer<'a, A>|
        s.wf() && #[trigger] f.ensures((s,), r) ==> match r {
            Ok((t, _)) => t.wf() && t.code == s.code,
            Err(_) => true,
        }
}

// Skippers
// ========

/// ASCII blank: space, newline, tab or carriage return.
pub open spec fn is_space_byte(b: u8) -> bool {
    b == 0x20 || b == 0x0a || b == 0x09 || b == 0x0d
}

/// First offset at or after `j` that holds a newline, or the end.
pub open spec fn line_end(b: Seq<u8>, j: int) -> int
    decreases b.len() - j,
{
    if j < 0 || j >= b.len() || b[j] == 0x0a {
        j
    } else {
        line_end(b, j + 1)
    }
}

/// A `//` comment starts at offset `i`.
pub open spec fn starts_comment(b: Seq<u8>, i: int) -> bool {
    0 <= i && i + 1 < b.len() && b[i] == 0x2f && b[i + 1] == 0x2f
}

/// Offset after the comment that starts at `i` (its newline is kept), or `i`.
pub open spec fn comment_end(b: Seq<u8>, i: int) -> int {
    if starts_comment(b, i) {
        line_end(b, i + 2)
    } else {
        i
    }
}

/// Offset after the run of blanks that starts at `i`.
pub open spec fn spaces_end(b: Seq<u8>, i: int) -> int
    decreases b.len() - i,
{
    if 0 <= i < b.len() && is_space_byte(b[i]) {
        spaces_end(b, i + 1)
    } else {
        i
    }
}

/// One round of skipping: a comment, then blanks.
pub open spec fn skip_step(b: Seq<u8>, i: int) -> int {
    spaces_end(b, comment_end(b, i))
}

/// Offset after all blanks and comments that start at `i`.
pub open spec fn skip_end(b: Seq<u8>, i: int) -> int
    decreases b.len() - i,
{
    if 0 <= i < skip_step(b, i) <= b.len() {
        skip_end(b, skip_step(b, i))
    } else {
        i
    }
}

/// The state after all blanks and comments at the cursor.
pub open spec fn skip_spec<'a>(state: State<'a>) -> State<'a> {
    state.at(skip_end(state.bytes(), state.index as int))
}

proof fn lemma_line_end(b: Seq<u8>, j: int)
    requires
        0 <= j <= b.len(),
    ensures
        j <= line_end(b, j) <= b.len(),
        line_end(b, j) == b.len() || b[line_end(b, j)] == 0x0a,
    decreases b.len() - j,
{
    if j < b.len() && b[j] != 0x0a {
        lemma_line_end(b, j + 1);
    }
}

proof fn lemma_spaces_end(b: Seq<u8>, i: int)
    requires
        0 <= i <= b.len(),
    ensures
        i <= spaces_end(b, i) <= b.len(),
    decreases b.len() - i,
{
    if i < b.len() && is_space_byte(b[i]) {
        lemma_spaces_end(b, i + 1);
    }
}

proof fn lemma_skip_end(b: Seq<u8>, i: int)
    requires
        0 <= i <= b.len(),
    ensures
        i <= skip_end(b, i) <= b.len(),
        skip_step(b, skip_end(b, i)) == skip_end(b, i),
    decreases b.len() - i,
{
    let c = comment_end(b, i);
    if starts_comment(b, i) {
        lemma_line_end(b, i + 2);
    }
    lemma_spaces_end(b, c);
    if i < skip_step(b, i) {
        lemma_skip_end(b, skip_step(b, i));
    }
}

/// Skipping twice consumes exactly what skipping once consumes.
pub proof fn lemma_skip_idempotent(state: State)
    requires
        state.wf(),
    ensures
        skip_spec(skip_spec(state)) == skip_spec(state),
{
    let b = state.bytes();
    let i = state.index as int;
    lemma_skip_end(b, i);
    let j = skip_end(b, i);
    assert(skip_end(b, j) == j);
}

fn comment_end_at(code: &str, i: usize) -> (r: usize)
    requires
        i <= code.spec_bytes().len() <= usize::MAX,
        is_char_boundary(code.spec_bytes(), i as int),
    ensures
        r == comment_end(code.spec_bytes(), i as int),
        is_char_boundary(code.spec_bytes(), r as int),
        i <= r <= code.spec_bytes().len(),
{
    let b = code.as_bytes();
    proof {
        lemma_text_valid(code);
    }
    if i < b.len() && i + 1 < b.len() && b[i] == 0x2f && b[i + 1] == 0x2f {
        let mut j = i + 2;
        while j < b.len() && b[j] != 0x0a
            invariant
                b@ == code.spec_bytes(),
                i + 2 <= j <= b@.len(),
                b@.len() <= usize::MAX,
                line_end(b@, j as int) == line_end(b@, i + 2),
            decreases b@.len() - j,
        {
            j += 1;
        }
        proof {
            lemma_line_end(b@, i + 2);
            lemma_text_valid(code);
            if j < b@.len() {
                is_char_boundary_iff_not_is_continuation_byte(b@, j as int);
            }
        }
        j
    } else {
        i
    }
}

fn spaces_end_at(code: &str, i: usize) -> (r: usize)
    requires
        i <= code.spec_bytes().len() <= usize::MAX,
        is_char_boundary(code.spec_bytes(), i as int),
    ensures
        r == spaces_end(code.spec_bytes(), i as int),
        is_char_boundary(code.spec_bytes(), r as int),
        i <= r <= code.spec_bytes().len(),
{
    let b = code.as_bytes();
    proof {
        lemma_text_valid(code);
    }
    let mut j = i;
    while j < b.len() && (b[j] == 0x20 || b[j] == 0x0a || b[j] == 0x09 || b[j] == 0x0d)
        invariant
            b@ == code.spec_bytes(),
            valid_utf8(b@),
            i <= j <= b@.len(),
            b@.len() <= usize::MAX,
            is_char_boundary(b@, j as int),
            spaces_end(b@, j as int) == spaces_end(b@, i as int),
        decreases b@.len() - j,
    {
        proof {
            lemma_step_boundary(b@, j as int);
        }
        j += 1;
    }
    j
}

fn skip_end_at(code: &str, i: usize) -> (r: usize)
    requires
        i <= code.spec_bytes().len() <= usize::MAX,
        is_char_boundary(code.spec_bytes(), i as int),
    ensures
        r == skip_end(code.spec_bytes(), i as int),
        is_char_boundary(code.spec_bytes(), r as int),
        i <= r <= code.spec_bytes().len(),
{
    let ghost b = code.spec_bytes();
    let mut j = i;
    loop
        invariant
            b == code.spec_bytes(),
            i <= j <= b.len() <= usize::MAX,
            is_char_boundary(b, j as int),
            skip_end(b, j as int) == skip_end(b, i as int),
        decreases b.len() - j,
    {
        let c = comment_end_at(code, j);
        proof {
            if starts_comment(b, j as int) {
                lemma_line_end(b, j + 2);
            }
        }
        let k = spaces_end_at(code, c);
        proof {
            lemma_spaces_end(b, c as int);
        }
        if k == j {
            return j;
        }
        j = k;
    }
}

/// Skips a `//` comment up to (not including) its newline; answers whether
/// there was one.
pub fn skip_comment<'a>(state: State<'a>) -> (r: Answer<'a, bool>)
    requires
        state.wf(),
    ensures
        r == Ok::<(State<'a>, bool), String>(
            (
                state.at(comment_end(state.bytes(), state.index as int)),
                starts_comment(state.bytes(), state.index as int),
            ),
        ),
        state.at(comment_end(state.bytes(), state.index as int)).wf(),
{
    let j = comment_end_at(state.code, state.index);
    proof {
        if starts_comment(state.bytes(), state.index as int) {
            lemma_line_end(state.bytes(), state.index + 2);
        }
    }
    Ok((State { code: state.code, index: j }, j != state.index))
}

/// [`skip_comment`] as a parser value.
pub fn skip_comment_parser<'a>() -> (f: impl Fn(State<'a>) -> Answer<'a, bool>)
    ensures
        is_parser(f),
        forall|s: State<'a>, r: Answer<'a, bool>|
            s.wf() && #[trigger] f.ensures((s,), r) ==> r == Ok::<(State<'a>, bool), String>(
                (
                    s.at(comment_end(s.bytes(), s.index as int)),
                    starts_comment(s.bytes(), s.index as int),
                ),
            ),
{
    |s: State<'a>| -> (r: Answer<'a, bool>)
        requires
            s.wf(),
        ensures
            r == Ok::<(State<'a>, bool), String>(
                (
                    s.at(comment_end(s.bytes(), s.index as int)),
                    starts_comment(s.bytes(), s.index as int),
                ),
            ),
            s.at(comment_end(s.bytes(), s.index as int)).wf(),
        { skip_comment(s) }
}

/// Skips a run of blanks; answers whether there was one.
pub fn skip_spaces<'a>(state: State<'a>) -> (r: Answer<'a, bool>)
    requires
        state.wf(),
    ensures
        r == Ok::<(State<'a>, bool), String>(
            (
                state.at(spaces_end(state.bytes(), state.index as int)),
                spaces_end(state.bytes(), state.index as int) != state.index,
            ),
        ),
        state.at(spaces_end(state.bytes(), state.index as int)).wf(),
{
    let j = spaces_end_at(state.code, state.index);
    proof {
        lemma_spaces_end(state.bytes(), state.index as int);
    }
    Ok((State { code: state.code, index: j }, j != state.index))
}

/// [`skip_spaces`] as a parser value.
pub fn skip_spaces_parser<'a>() -> (f: impl Fn(State<'a>) -> Answer<'a, bool>)
    ensures
        is_parser(f),
        forall|s: State<'a>, r: Answer<'a, bool>|
            s.wf() && #[trigger] f.ensures((s,), r) ==> r == Ok::<(State<'a>, bool), String>(
                (
                    s.at(spaces_end(s.bytes(), s.index as int)),
                    spaces_end(s.bytes(), s.index as int) != s.index,
                ),
            ),
{
    |s: State<'a>| -> (r: Answer<'a, bool>)
        requires
            s.wf(),
        ensures
            r == Ok::<(State<'a>, bool), String>(
                (
                    s.at(spaces_end(s.bytes(), s.index as int)),
                    spaces_end(s.bytes(), s.index as int) != s.index,
                ),
            ),
            s.at(spaces_end(s.bytes(), s.index as int)).wf(),
        { skip_spaces(s) }
}

fn skip_state<'a>(state: State<'a>) -> (r: (State<'a>, bool))
    requires
        state.wf(),
    ensures
        r == (skip_spec(state), skip_spec(state) != state),
        r.0.wf(),
        state.index <= r.0.index,
{
    let j = skip_end_at(state.code, state.index);
    (State { code: state.code, index: j }, j != state.index)
}

/// Skips all blanks and comments; answers whether anything was skipped.
pub fn skip<'a>(state: State<'a>) -> (r: Answer<'a, bool>)
    requires
        state.wf(),
    ensures
        r == Ok::<(State<'a>, bool), String>((skip_spec(state), skip_spec(state) != state)),
        skip_spec(state).wf(),
{
    Ok(skip_state(state))
}

/// [`skip`] as a parser value.
pub fn skip_parser<'a>() -> (f: impl Fn(State<'a>) -> Answer<'a, bool>)
    ensures
        is_parser(f),
        forall|s: State<'a>, r: Answer<'a, bool>|
            s.wf() && #[trigger] f.ensures((s,), r) ==> r == Ok::<(State<'a>, bool), String>(
                (skip_spec(s), skip_spec(s) != s),
            ),
{
    |s: State<'a>| -> (r: Answer<'a, bool>)
        requires
            s.wf(),
        ensures
            r == Ok::<(State<'a>, bool), String>((skip_spec(s), skip_spec(s) != s)),
            skip_spec(s).wf(),
        { skip(s) }
}


// Strings
// =======

/// Matching `pat` right at the cursor: the state after it and whether it was
/// there (the state is unchanged when it was not).
pub open spec fn text_here_spec<'a>(pat: Seq<u8>, state: State<'a>) -> (State<'a>, bool) {
    if equal_at_spec(state.bytes(), pat, state.index as int) {
        (state.at(state.index + pat.len()), true)
    } else {
        (state, false)
    }
}

/// Matching `pat` after blanks and comments.
pub open spec fn text_spec<'a>(pat: Seq<u8>, state: State<'a>) -> (State<'a>, bool) {
    if text_here_spec(pat, skip_spec(state)).1 {
        text_here_spec(pat, skip_spec(state))
    } else {
        (state, false)
    }
}

proof fn lemma_text_here_wf(pat: &str, state: State)
    requires
        state.wf(),
    ensures
        text_here_spec(pat.spec_bytes(), state).0.wf(),
        text_here_spec(pat.spec_bytes(), state).0.code == state.code,
        state.index <= text_here_spec(pat.spec_bytes(), state).0.index,
{
    lemma_text_valid(pat);
    lemma_text_valid(state.code);
    if equal_at_spec(state.bytes(), pat.spec_bytes(), state.index as int) {
        lemma_match_boundary(state.bytes(), pat.spec_bytes(), state.index as int);
    }
}

/// Matches `pat` right at the cursor, consuming it when present.
pub fn text_here<'a>(pat: &str, state: State<'a>) -> (r: Answer<'a, bool>)
    requires
        state.wf(),
    ensures
        r == Ok::<(State<'a>, bool), String>(text_here_spec(pat.spec_bytes(), state)),
        text_here_spec(pat.spec_bytes(), state).0.wf(),
{
    proof {
        lemma_text_here_wf(pat, state);
    }
    if equal_at(state.code, pat, state.index) {
        let state = State { code: state.code, index: state.index + pat.len() };
        Ok((state, true))
    } else {
        Ok((state, false))
    }
}

/// [`text_here`] for a fixed pattern, as a parser value.
pub fn text_here_parser<'a>(pat: &'static str) -> (f: impl Fn(State<'a>) -> Answer<'a, bool>)
    ensures
        is_parser(f),
        forall|s: State<'a>, r: Answer<'a, bool>|
            s.wf() && #[trigger] f.ensures((s,), r) ==> r == Ok::<(State<'a>, bool), String>(
                text_here_spec(pat.spec_bytes(), s),
            ),
{
    move|s: State<'a>| -> (r: Answer<'a, bool>)
        requires
            s.wf(),
        ensures
            r == Ok::<(State<'a>, bool), String>(text_here_spec(pat.spec_bytes(), s)),
            text_here_spec(pat.spec_bytes(), s).0.wf(),
        { text_here(pat, s) }
}

/// Skips blanks and comments, then matches `pat`: on a match the state moves
/// past it; on a miss the state is left as given.
pub fn text<'a>(pat: &str, state: State<'a>) -> (r: Answer<'a, bool>)
    requires
        state.wf(),
    ensures
        r == Ok::<(State<'a>, bool), String>(text_spec(pat.spec_bytes(), state)),
        text_spec(pat.spec_bytes(), state).0.wf(),
        text_spec(pat.spec_bytes(), state).0.code == state.code,
        state.index <= text_spec(pat.spec_bytes(), state).0.index,
{
    let (st, _skipped) = skip_state(state);
    proof {
        lemma_text_here_wf(pat, st);
    }
    let (next, matched) = text_here(pat, st)?;
    if matched {
        Ok((next, true))
    } else {
        Ok((state, false))
    }
}

/// [`text`] for a fixed pattern, as a parser value.
pub fn text_parser<'a>(pat: &'static str) -> (f: impl Fn(State<'a>) -> Answer<'a, bool>)
    ensures
        is_parser(f),
        forall|s: State<'a>, r: Answer<'a, bool>|
            s.wf() && #[trigger] f.ensures((s,), r) ==> r == Ok::<(State<'a>, bool), String>(
                text_spec(pat.spec_bytes(), s),
            ),
{
    move|s: State<'a>| -> (r: Answer<'a, bool>)
        requires
            s.wf(),
        ensures
            r == Ok::<(State<'a>, bool), String>(text_spec(pat.spec_bytes(), s)),
            text_spec(pat.spec_bytes(), s).0.wf(),
        { text(pat, s) }
}

/// Whether only blanks and comments remain, and the state after them.
pub open spec fn done_spec<'a>(state: State<'a>) -> (State<'a>, bool) {
    (skip_spec(state), skip_spec(state).index == state.bytes().len())
}

/// Skips blanks and comments, then answers whether the text is over.
pub fn done<'a>(state: State<'a>) -> (r: Answer<'a, bool>)
    requires
        state.wf(),
    ensures
        r == Ok::<(State<'a>, bool), String>(done_spec(state)),
        done_spec(state).0.wf(),
        done_spec(state).0.code == state.code,
        state.index <= done_spec(state).0.index,
{
    let (state, _skipped) = skip_state(state);
    Ok((state, state.index == state.code.len()))
}

/// [`done`] as a parser value.
pub fn done_parser<'a>() -> (f: impl Fn(State<'a>) -> Answer<'a, bool>)
    ensures
        is_parser(f),
        forall|s: State<'a>, r: Answer<'a, bool>|
            s.wf() && #[trigger] f.ensures((s,), r) ==> r == Ok::<(State<'a>, bool), String>(
                done_spec(s),
            ),
{
    |s: State<'a>| -> (r: Answer<'a, bool>)
        requires
            s.wf(),
        ensures
            r == Ok::<(State<'a>, bool), String>(done_spec(s)),
            done_spec(s).0.wf(),
        { done(s) }
}

// Blocks
// ======

/// `f` may answer `Ok((t, v))` on `s`, for some state `t`.
pub open spec fn may_yield<'a, A, F: Fn(State<'a>) -> Answer<'a, A>>(f: F, s: State<'a>, v: A) -> bool {
    exists|t: State<'a>| #[trigger] f.ensures((s,), Ok::<(State<'a>, A), String>((t, v)))
}

/// After skipping, dry-runs `head`; when it matches, runs `body` there and
/// answers `Some` of its value, else answers `None` at the skipped state.
#[verifier::rlimit(40)]
pub fn guard<'a, A, H, B>(head: H, body: B, state: State<'a>) -> (r: Answer<'a, Option<A>>)
    where
        H: Fn(State<'a>) -> Answer<'a, bool>,
        B: Fn(State<'a>) -> Answer<'a, A>,
    requires
        state.wf(),
        is_parser(head),
        is_parser(body),
    ensures
        match r {
            Ok((t, None)) => t == skip_spec(state) && may_yield(head, skip_spec(state), false),
            Ok((t, Some(v))) => may_yield(head, skip_spec(state), true) && body.ensures(
                (skip_spec(state),),
                Ok::<(State<'a>, A), String>((t, v)),
            ),
            Err(e) => head.ensures((skip_spec(state),), Err::<(State<'a>, bool), String>(e)) || (
            may_yield(head, skip_spec(state), true) && body.ensures(
                (skip_spec(state),),
                Err::<(State<'a>, A), String>(e),
            )),
        },
        r is Ok ==> r->Ok_0.0.wf() && r->Ok_0.0.code == state.code,
{
    let (state, _skipped) = skip_state(state);
    let (_, matched) = head(state)?;
    if matched {
        let (state, got) = body(state)?;
        Ok((state, Some(got)))
    } else {
        Ok((state, None))
    }
}


// Combinators
// ===========

/// Runs `parser` for its value and discards the state it moves to.
pub fn dry<'a, A, P>(parser: P, state: State<'a>) -> (r: Answer<'a, A>)
    where
        P: Fn(State<'a>) -> Answer<'a, A>,
    requires
        state.wf(),
        is_parser(parser),
    ensures
        match r {
            Ok((t, v)) => t == state && may_yield(parser, state, v),
            Err(e) => parser.ensures((state,), Err::<(State<'a>, A), String>(e)),
        },
{
    let (_new_state, result) = parser(state)?;
    Ok((state, result))
}

/// Message of the error that a repetition answers when its element parser
/// did not move the cursor forward (it would repeat forever).
pub open spec fn stalled_message() -> Seq<char> {
    "no progress in a repetition"@
}

/// `parser` answered `v` on `s` at a state past `from`.
pub open spec fn steps_forward<'a, A, P: Fn(State<'a>) -> Answer<'a, A>>(
    parser: P,
    s: State<'a>,
    from: State<'a>,
    t: State<'a>,
    v: A,
) -> bool {
    parser.ensures((s,), Ok::<(State<'a>, A), String>((t, v))) && from.index < t.index
}

/// A run of a repetition: from `states[j]` the delimiter missed, moving to
/// `mids[j]`, where `parser` read `vals[j]` and moved forward to `states[j + 1]`.
pub open spec fn until_path<'a, A, D, P>(
    delim: D,
    parser: P,
    states: Seq<State<'a>>,
    mids: Seq<State<'a>>,
    vals: Seq<A>,
) -> bool
    where
        D: Fn(State<'a>) -> Answer<'a, bool>,
        P: Fn(State<'a>) -> Answer<'a, A>,
{
    &&& states.len() == vals.len() + 1
    &&& mids.len() == vals.len()
    &&& forall|j: int|
        0 <= j < vals.len() ==> #[trigger] delim.ensures(
            (states[j],),
            Ok::<(State<'a>, bool), String>((mids[j], false)),
        ) && steps_forward(parser, mids[j], states[j], states[j + 1], vals[j])
}

/// How a repetition from `m` can fail with error `e`.
pub open spec fn until_fails<'a, A, D, P>(delim: D, parser: P, m: State<'a>, e: String) -> bool
    where
        D: Fn(State<'a>) -> Answer<'a, bool>,
        P: Fn(State<'a>) -> Answer<'a, A>,
{
    ||| delim.ensures((m,), Err::<(State<'a>, bool), String>(e))
    ||| exists|m1: State<'a>|
        #[trigger] delim.ensures((m,), Ok::<(State<'a>, bool), String>((m1, false))) && (
        parser.ensures((m1,), Err::<(State<'a>, A), String>(e)) || (e@ == stalled_message()
            && exists|t: State<'a>, v: A|
            #[trigger] parser.ensures((m1,), Ok::<(State<'a>, A), String>((t, v)))
                && t.index <= m.index))
}

/// Runs `parser` until `delim` matches, collecting its values; the state
/// `delim` moves to (on a match and on a miss alike) is kept. A `parser` that
/// does not move the cursor forward stops the repetition with an error.
#[verifier::rlimit(40)]
pub fn until<'a, A, D, P>(delim: D, parser: P, state: State<'a>) -> (r: Answer<'a, Vec<A>>)
    where
        D: Fn(State<'a>) -> Answer<'a, bool>,
        P: Fn(State<'a>) -> Answer<'a, A>,
    requires
        state.wf(),
        is_parser(delim),
        is_parser(parser),
    ensures
        match r {
            Ok((t, vals)) => exists|states: Seq<State<'a>>, mids: Seq<State<'a>>|
                #[trigger] until_path(delim, parser, states, mids, vals@) && states[0] == state
                    && delim.ensures(
                    (states.last(),),
                    Ok::<(State<'a>, bool), String>((t, true)),
                ),
            Err(e) => exists|states: Seq<State<'a>>, mids: Seq<State<'a>>, vals: Seq<A>|
                #[trigger] until_path(delim, parser, states, mids, vals) && states[0] == state
                    && until_fails(delim, parser, states.last(), e),
        },
        r is Ok ==> r->Ok_0.0.wf() && r->Ok_0.0.code == state.code,
{
    let mut st = state;
    let mut result: Vec<A> = Vec::new();
    let ghost mut states = seq![state];
    let ghost mut mids: Seq<State<'a>> = seq![];
    loop
        invariant
            st.wf(),
            st.code == state.code,
            is_parser(delim),
            is_parser(parser),
            until_path(delim, parser, states, mids, result@),
            states[0] == state,
            states.last() == st,
        decreases st.bytes().len() - st.index,
    {
        let (new_state, delimited) = match delim(st) {
            Ok(x) => x,
            Err(e) => {
                assert(until_fails(delim, parser, st, e));
                return Err(e);
            },
        };
        if delimited {
            let r: Answer<'a, Vec<A>> = Ok((new_state, result));
            assert(until_path(delim, parser, states, mids, r->Ok_0.1@));
            assert(delim.ensures((states.last(),), Ok::<(State<'a>, bool), String>((new_state, true))));
            return r;
        }
        let (next_state, a) = match parser(new_state) {
            Ok(x) => x,
            Err(e) => {
                assert(until_fails(delim, parser, st, e));
                return Err(e);
            },
        };
        if next_state.index <= st.index {
            let e = "no progress in a repetition".to_string();
            proof {
                reveal_strlit("no progress in a repetition");
            }
            assert(until_fails(delim, parser, st, e));
            return Err(e);
        }
        let ghost prev_vals = result@;
        let ghost prev_states = states;
        let ghost prev_mids = mids;
        result.push(a);
        proof {
            states = states.push(next_state);
            mids = mids.push(new_state);
            assert forall|j: int| 0 <= j < result@.len() implies #[trigger] delim.ensures(
                (states[j],),
                Ok::<(State<'a>, bool), String>((mids[j], false)),
            ) && steps_forward(parser, mids[j], states[j], states[j + 1], result@[j]) by {
                if j < prev_vals.len() {
                    assert(result@[j] == prev_vals[j]);
                    assert(states[j] == prev_states[j]);
                    assert(states[j + 1] == prev_states[j + 1]);
                    assert(mids[j] == prev_mids[j]);
                } else {
                    assert(states[j] == st);
                    assert(mids[j] == new_state);
                    assert(states[j + 1] == next_state);
                    assert(result@[j] == a);
                }
            }
        }
        st = next_state;
    }
}

/// `p` may move from `c` to `m`, with either answer.
pub open spec fn moves_to<'a, S: Fn(State<'a>) -> Answer<'a, bool>>(p: S, c: State<'a>, m: State<'a>) -> bool {
    exists|b: bool| #[trigger] p.ensures((c,), Ok::<(State<'a>, bool), String>((m, b)))
}

/// A run of a list body: from `states[j]` the closer missed (moving to
/// `closes[j]`), the separator moved on to `mids[j]`, and the element parser
/// read `vals[j]` there and moved forward to `states[j + 1]`.
pub open spec fn list_path<'a, A, S, C, E>(
    sep: S,
    close: C,
    elem: E,
    states: Seq<State<'a>>,
    closes: Seq<State<'a>>,
    mids: Seq<State<'a>>,
    vals: Seq<A>,
) -> bool
    where
        S: Fn(State<'a>) -> Answer<'a, bool>,
        C: Fn(State<'a>) -> Answer<'a, bool>,
        E: Fn(State<'a>) -> Answer<'a, A>,
{
    &&& states.len() == vals.len() + 1
    &&& closes.len() == vals.len()
    &&& mids.len() == vals.len()
    &&& forall|j: int|
        0 <= j < vals.len() ==> #[trigger] close.ensures(
            (states[j],),
            Ok::<(State<'a>, bool), String>((closes[j], false)),
        ) && moves_to(sep, closes[j], mids[j]) && steps_forward(
            elem,
            mids[j],
            states[j],
            states[j + 1],
            vals[j],
        )
}

/// How a list body from `m` can fail with error `e`.
pub open spec fn list_fails<'a, A, S, C, E>(sep: S, close: C, elem: E, m: State<'a>, e: String) -> bool
    where
        S: Fn(State<'a>) -> Answer<'a, bool>,
        C: Fn(State<'a>) -> Answer<'a, bool>,
        E: Fn(State<'a>) -> Answer<'a, A>,
{
    ||| close.ensures((m,), Err::<(State<'a>, bool), String>(e))
    ||| exists|c: State<'a>, done: bool|
        #[trigger] close.ensures((m,), Ok::<(State<'a>, bool), String>((c, done)))
            && sep.ensures((c,), Err::<(State<'a>, bool), String>(e))
    ||| exists|c: State<'a>, m1: State<'a>, b: bool|
        #[trigger] close.ensures((m,), Ok::<(State<'a>, bool), String>((c, false)))
            && #[trigger] sep.ensures((c,), Ok::<(State<'a>, bool), String>((m1, b))) && (elem.ensures((m1,), Err::<(State<'a>, A), String>(e))
            || (e@ == stalled_message() && exists|t: State<'a>, v: A|
            #[trigger] elem.ensures((m1,), Ok::<(State<'a>, A), String>((t, v)))
                && t.index <= m.index))
}

/// Reads `open`, then elements until `close` matches; before each element,
/// and after the closer, `sep` is read (so a trailing separator is fine).
/// The collected elements are handed to `make`. An element parser that does
/// not move the cursor forward stops the list with an error.
#[verifier::rlimit(40)]
pub fn list<'a, A, B, O, S, C, E, M>(
    parse_open: O,
    parse_sep: S,
    parse_close: C,
    parse_elem: E,
    make: M,
    state: State<'a>,
) -> (r: Answer<'a, B>)
    where
        O: Fn(State<'a>) -> Answer<'a, bool>,
        S: Fn(State<'a>) -> Answer<'a, bool>,
        C: Fn(State<'a>) -> Answer<'a, bool>,
        E: Fn(State<'a>) -> Answer<'a, A>,
        M: Fn(Vec<A>) -> B,
    requires
        state.wf(),
        is_parser(parse_open),
        is_parser(parse_sep),
        is_parser(parse_close),
        is_parser(parse_elem),
        forall|v: Vec<A>| #[trigger] make.requires((v,)),
    ensures
        match r {
            Ok((t, b)) => exists|
                states: Seq<State<'a>>,
                closes: Seq<State<'a>>,
                mids: Seq<State<'a>>,
                vals: Vec<A>,
                c: State<'a>,
            |
                #[trigger] list_path(parse_sep, parse_close, parse_elem, states, closes, mids, vals@)
                    && moves_to(parse_open, state, states[0]) && #[trigger] parse_close.ensures(
                    (states.last(),),
                    Ok::<(State<'a>, bool), String>((c, true)),
                ) && moves_to(parse_sep, c, t) && make.ensures((vals,), b),
            Err(e) => parse_open.ensures((state,), Err::<(State<'a>, bool), String>(e)) || exists|
                states: Seq<State<'a>>,
                closes: Seq<State<'a>>,
                mids: Seq<State<'a>>,
                vals: Seq<A>,
            |
                #[trigger] list_path(parse_sep, parse_close, parse_elem, states, closes, mids, vals)
                    && moves_to(parse_open, state, states[0]) && list_fails(
                    parse_sep,
                    parse_close,
                    parse_elem,
                    states.last(),
                    e,
                ),
        },
        r is Ok ==> r->Ok_0.0.wf() && r->Ok_0.0.code == state.code,
{
    let (st0, opened) = match parse_open(state) {
        Ok(x) => x,
        Err(e) => {
            return Err(e);
        },
    };
    assert(parse_open.ensures((state,), Ok::<(State<'a>, bool), String>((st0, opened))));
    let mut st = st0;
    let mut elems: Vec<A> = Vec::new();
    let ghost mut states = seq![st0];
    let ghost mut closes: Seq<State<'a>> = seq![];
    let ghost mut mids: Seq<State<'a>> = seq![];
    loop
        invariant
            st.wf(),
            st.code == state.code,
            is_parser(parse_sep),
            is_parser(parse_close),
            is_parser(parse_elem),
            forall|v: Vec<A>| #[trigger] make.requires((v,)),
            moves_to(parse_open, state, states[0]),
            list_path(parse_sep, parse_close, parse_elem, states, closes, mids, elems@),
            states.last() == st,
        decreases st.bytes().len() - st.index,
    {
        let (c, done) = match parse_close(st) {
            Ok(x) => x,
            Err(e) => {
                assert(list_fails(parse_sep, parse_close, parse_elem, st, e));
                return Err(e);
            },
        };
        let (m1, separated) = match parse_sep(c) {
            Ok(x) => x,
            Err(e) => {
                assert(list_fails(parse_sep, parse_close, parse_elem, st, e));
                return Err(e);
            },
        };
        if done {
            let ghost vals = elems@;
            let b = make(elems);
            let r: Answer<'a, B> = Ok((m1, b));
            assert(list_path(parse_sep, parse_close, parse_elem, states, closes, mids, vals));
            assert(parse_sep.ensures((c,), Ok::<(State<'a>, bool), String>((m1, separated))));
            return r;
        }
        let (next_state, elem) = match parse_elem(m1) {
            Ok(x) => x,
            Err(e) => {
                assert(parse_sep.ensures((c,), Ok::<(State<'a>, bool), String>((m1, separated))));
                assert(list_fails(parse_sep, parse_close, parse_elem, st, e));
                return Err(e);
            },
        };
        assert(parse_sep.ensures((c,), Ok::<(State<'a>, bool), String>((m1, separated))));
        if next_state.index <= st.index {
            let e = "no progress in a repetition".to_string();
            proof {
                reveal_strlit("no progress in a repetition");
            }
            assert(list_fails(parse_sep, parse_close, parse_elem, st, e));
            return Err(e);
        }
        let ghost prev_vals = elems@;
        let ghost prev_states = states;
        let ghost prev_closes = closes;
        let ghost prev_mids = mids;
        elems.push(elem);
        proof {
            states = states.push(next_state);
            closes = closes.push(c);
            mids = mids.push(m1);
            assert forall|j: int| 0 <= j < elems@.len() implies #[trigger] parse_close.ensures(
                (states[j],),
                Ok::<(State<'a>, bool), String>((closes[j], false)),
            ) && moves_to(parse_sep, closes[j], mids[j]) && steps_forward(
                parse_elem,
                mids[j],
                states[j],
                states[j + 1],
                elems@[j],
            ) by {
                if j < prev_vals.len() {
                    assert(elems@[j] == prev_vals[j]);
                    assert(states[j] == prev_states[j]);
                    assert(states[j + 1] == prev_states[j + 1]);
                    assert(mids[j] == prev_mids[j]);
                    assert(closes[j] == prev_closes[j]);
                } else {
                    assert(states[j] == st);
                    assert(closes[j] == c);
                    assert(mids[j] == m1);
                    assert(states[j + 1] == next_state);
                    assert(elems@[j] == elem);
                }
            }
        }
        st = next_state;
    }
}


// Name
// ====

/// Characters that may appear in a name: ASCII letters, digits, `_` and `.`.
pub open spec fn is_name_char(c: char) -> bool {
    ('A' <= c && c <= 'Z') || ('a' <= c && c <= 'z') || ('0' <= c && c <= '9') || c == '_'
        || c == '.'
}

/// Offset after the run of name characters that starts at `i`.
pub open spec fn name_end(b: Seq<u8>, i: int) -> int
    decreases b.len() - i,
{
    if 0 <= i < b.len() && is_name_char(b[i] as char) {
        name_end(b, i + 1)
    } else {
        i
    }
}

/// The name that starts at the cursor (possibly empty), and the state after it.
pub open spec fn name_here_spec<'a>(state: State<'a>) -> (State<'a>, Seq<char>) {
    let b = state.bytes();
    let j = name_end(b, state.index as int);
    (state.at(j), b.subrange(state.index as int, j).map_values(|x: u8| x as char))
}

/// The name after blanks and comments.
pub open spec fn name_spec<'a>(state: State<'a>) -> (State<'a>, Seq<char>) {
    name_here_spec(skip_spec(state))
}

/// Is this character allowed in a name?
pub fn is_letter(chr: char) -> (r: bool)
    ensures
        r == is_name_char(chr),
{
    ('A' <= chr && chr <= 'Z') || ('a' <= chr && chr <= 'z') || ('0' <= chr && chr <= '9')
        || chr == '_' || chr == '.'
}

proof fn lemma_name_end(b: Seq<u8>, i: int)
    requires
        0 <= i <= b.len(),
    ensures
        i <= name_end(b, i) <= b.len(),
    decreases b.len() - i,
{
    if i < b.len() && is_name_char(b[i] as char) {
        lemma_name_end(b, i + 1);
    }
}

/// Reads the longest name right at the cursor (possibly empty).
#[verifier::rlimit(40)]
pub fn name_here<'a>(state: State<'a>) -> (r: Answer<'a, String>)
    requires
        state.wf(),
    ensures
        r is Ok,
        r->Ok_0.0 == name_here_spec(state).0,
        r->Ok_0.1@ == name_here_spec(state).1,
        name_here_spec(state).0.wf(),
{
    let b = state.code.as_bytes();
    let mut name: String = String::new();
    let mut j = state.index;
    proof {
        lemma_text_valid(state.code);
    }
    while j < b.len() && is_letter(b[j] as char)
        invariant
            b@ == state.bytes(),
            valid_utf8(b@),
            b@.len() <= usize::MAX,
            state.index <= j <= b@.len(),
            is_char_boundary(b@, j as int),
            name_end(b@, j as int) == name_end(b@, state.index as int),
            name@ == b@.subrange(state.index as int, j as int).map_values(|x: u8| x as char),
        decreases b@.len() - j,
    {
        proof {
            assert(b[j as int] <= 0x7f) by {
                let c = b@[j as int];
                assert(is_name_char(c as char));
            }
            lemma_step_boundary(b@, j as int);
        }
        push_char(&mut name, b[j] as char);
        j += 1;
        assert(name@ =~= b@.subrange(state.index as int, j as int).map_values(|x: u8| x as char));
    }
    Ok((State { code: state.code, index: j }, name))
}

/// Skips blanks and comments, then reads the longest name (possibly empty).
pub fn name<'a>(state: State<'a>) -> (r: Answer<'a, String>)
    requires
        state.wf(),
    ensures
        r is Ok,
        r->Ok_0.0 == name_spec(state).0,
        r->Ok_0.1@ == name_spec(state).1,
        name_spec(state).0.wf(),
{
    let (state, _skipped) = skip_state(state);
    name_here(state)
}


// Text utilities
// ==============

/// Concatenation of all the pieces, in order.
pub open spec fn concat_all(pieces: Seq<Seq<char>>) -> Seq<char>
    decreases pieces.len(),
{
    if pieces.len() == 0 {
        seq![]
    } else {
        concat_all(pieces.drop_last()) + pieces.last()
    }
}

/// Joins the texts into one string.
pub fn flatten(texts: &[&str]) -> (r: String)
    ensures
        r@ == concat_all(texts@.map_values(|t: &str| t@)),
{
    let mut r = String::new();
    let mut i: usize = 0;
    while i < texts.len()
        invariant
            i <= texts@.len(),
            r@ == concat_all(texts@.subrange(0, i as int).map_values(|t: &str| t@)),
        decreases texts@.len() - i,
    {
        let ghost before = texts@.subrange(0, i as int).map_values(|t: &str| t@);
        r.append(texts[i]);
        i += 1;
        proof {
            let now = texts@.subrange(0, i as int).map_values(|t: &str| t@);
            assert(now.drop_last() =~= before);
        }
    }
    assert(texts@.subrange(0, texts@.len() as int) =~= texts@);
    r
}

/// Drops one carriage return at the end of a line.
pub open spec fn strip_cr(line: Seq<char>) -> Seq<char> {
    if line.len() > 0 && line.last() == '\r' {
        line.drop_last()
    } else {
        line
    }
}

/// The lines of `cur + rest`, where `cur` is a partial line without newline:
/// lines end at `\n` (a `\r` before it is dropped), and a last line is kept
/// only when it is not empty.
pub open spec fn lines_acc(cur: Seq<char>, rest: Seq<char>) -> Seq<Seq<char>>
    decreases rest.len(),
{
    if rest.len() == 0 {
        if cur.len() == 0 {
            seq![]
        } else {
            seq![cur]
        }
    } else if rest[0] == '\n' {
        seq![strip_cr(cur)] + lines_acc(seq![], rest.drop_first())
    } else {
        lines_acc(cur.push(rest[0]), rest.drop_first())
    }
}

/// The lines of a text.
pub open spec fn lines_spec(text: Seq<char>) -> Seq<Seq<char>> {
    lines_acc(seq![], text)
}

#[verifier::rlimit(40)]
fn lines_chars(cs: &Vec<char>) -> (r: Vec<Vec<char>>)
    ensures
        r@.map_values(|l: Vec<char>| l@) == lines_spec(cs@),
{
    let mut out: Vec<Vec<char>> = Vec::new();
    let mut cur: Vec<char> = Vec::new();
    let mut i: usize = 0;
    assert(cs@.subrange(0, cs@.len() as int) =~= cs@);
    assert(out@.map_values(|l: Vec<char>| l@) =~= seq![]);
    assert(cur@ =~= seq![]);
    assert(seq![] + lines_spec(cs@) =~= lines_spec(cs@));
    while i < cs.len()
        invariant
            i <= cs@.len(),
            out@.map_values(|l: Vec<char>| l@) + lines_acc(cur@, cs@.subrange(i as int, cs@.len() as int))
                == lines_spec(cs@),
        decreases cs@.len() - i,
    {
        let ghost rest = cs@.subrange(i as int, cs@.len() as int);
        assert(rest.drop_first() =~= cs@.subrange(i + 1, cs@.len() as int));
        if cs[i] == '\n' {
            let ghost old_out = out@.map_values(|l: Vec<char>| l@);
            let mut line = cur;
            if line.len() > 0 && line[line.len() - 1] == '\r' {
                line.pop();
                assert(line@ =~= strip_cr(cur@));
            }
            out.push(line);
            cur = Vec::new();
            proof {
                let now = out@.map_values(|l: Vec<char>| l@);
                assert(now =~= old_out + seq![line@]);
            }
        } else {
            cur.push(cs[i]);
        }
        i += 1;
    }
    assert(out@.map_values(|l: Vec<char>| l@) + lines_acc(cur@, seq![]) == lines_spec(cs@));
    if cur.len() > 0 {
        let ghost old_out = out@.map_values(|l: Vec<char>| l@);
        out.push(cur);
        assert(out@.map_values(|l: Vec<char>| l@) =~= old_out + lines_acc(cur@, seq![]));
    } else {
        assert(out@.map_values(|l: Vec<char>| l@) =~= out@.map_values(|l: Vec<char>| l@) + lines_acc(cur@, seq![]));
    }
    out
}


/// The lines of a text; a line ends at `\n`, a `\r` before it is dropped, and
/// an empty last line is not listed.
pub fn lines(text: &str) -> (r: Vec<String>)
    ensures
        r@.map_values(|l: String| l@) == lines_spec(text@),
{
    let cs = chars_of(text);
    let ls = lines_chars(&cs);
    let mut r: Vec<String> = Vec::new();
    let mut i: usize = 0;
    while i < ls.len()
        invariant
            i <= ls@.len(),
            ls@.map_values(|l: Vec<char>| l@) == lines_spec(text@),
            r@.map_values(|l: String| l@) == ls@.subrange(0, i as int).map_values(|l: Vec<char>| l@),
        decreases ls@.len() - i,
    {
        let mut line = String::new();
        crate::strings::push_chars(&mut line, &ls[i]);
        let ghost before = r@.map_values(|l: String| l@);
        assert(line@ =~= ls@[i as int]@);
        r.push(line);
        i += 1;
        assert(r@.map_values(|l: String| l@) =~= before.push(ls@[i - 1]@));
        assert(ls@.subrange(0, i as int).map_values(|l: Vec<char>| l@) =~= ls@.subrange(0, i - 1).map_values(|l: Vec<char>| l@).push(ls@[i - 1]@));
        assert(r@.map_values(|l: String| l@) =~= ls@.subrange(0, i as int).map_values(|l: Vec<char>| l@));
    }
    assert(ls@.subrange(0, ls@.len() as int) =~= ls@);
    r
}

/// `i` is the first offset at which `target` occurs in `text`.
pub open spec fn first_occurrence(text: Seq<u8>, target: Seq<u8>, i: int) -> bool {
    &&& equal_at_spec(text, target, i)
    &&& forall|j: int| 0 <= j < i ==> !equal_at_spec(text, target, j)
}

/// Byte offset of the first occurrence of `target` in `text`, which must occur.
pub fn find(text: &str, target: &str) -> (r: usize)
    requires
        exists|i: int| equal_at_spec(text.spec_bytes(), target.spec_bytes(), i),
        text.spec_bytes().len() <= usize::MAX,
    ensures
        first_occurrence(text.spec_bytes(), target.spec_bytes(), r as int),
{
    let mut i: usize = 0;
    while !equal_at(text, target, i)
        invariant
            i <= text.spec_bytes().len() <= usize::MAX,
            exists|k: int| equal_at_spec(text.spec_bytes(), target.spec_bytes(), k),
            forall|j: int| 0 <= j < i ==> !equal_at_spec(text.spec_bytes(), target.spec_bytes(), j),
        decreases text.spec_bytes().len() - i,
    {
        if i == text.len() {
            assert(false) by {
                let k = choose|k: int| equal_at_spec(text.spec_bytes(), target.spec_bytes(), k);
                assert(k <= i);
                if k < i {
                    assert(!equal_at_spec(text.spec_bytes(), target.spec_bytes(), k));
                }
            }
        }
        i += 1;
    }
    i
}

// Errors
// ======

/// Marker put before the highlighted span while the lines are cut.
pub open spec fn open_mark() -> Seq<char> {
    seq!['«', '«', '«', '«']
}

/// Marker put after the highlighted span while the lines are cut.
pub open spec fn close_mark() -> Seq<char> {
    seq!['»', '»', '»', '»']
}

/// `s[a..b]`, with both ends brought into `0..=s.len()` and `b` not below `a`.
pub open spec fn clip(s: Seq<char>, a: int, b: int) -> Seq<char> {
    let a2 = if a < 0 {
        0
    } else if a > s.len() {
        s.len() as int
    } else {
        a
    };
    let b2 = if b < a2 {
        a2
    } else if b > s.len() {
        s.len() as int
    } else {
        b
    };
    s.subrange(a2, b2)
}

/// First position at or after `i` where `pat` occurs in `s`, or `s.len()`.
pub open spec fn find_from(s: Seq<char>, pat: Seq<char>, i: int) -> int
    decreases s.len() + 1 - i,
{
    if i < 0 || i + pat.len() > s.len() {
        s.len() as int
    } else if s.subrange(i, i + pat.len()) == pat {
        i
    } else {
        find_from(s, pat, i + 1)
    }
}

/// Number of newlines in `cs`.
pub open spec fn count_newlines(cs: Seq<char>) -> int
    decreases cs.len(),
{
    if cs.len() == 0 {
        0
    } else {
        count_newlines(cs.drop_last()) + if cs.last() == '\n' {
            1int
        } else {
            0int
        }
    }
}

/// Number of characters that start in the first `i` bytes of `b`.
pub open spec fn char_count(b: Seq<u8>, i: int) -> int
    decreases i,
{
    if i <= 0 || i > b.len() {
        0
    } else {
        char_count(b, i - 1) + if is_continuation_byte(b[i - 1]) {
            0int
        } else {
            1int
        }
    }
}

/// Line `numb` of the marked text with the highlighted part between the
/// colour codes (`fl` and `tl` are the first and last highlighted lines).
#[verifier::opaque]
pub open spec fn line_body(line: Seq<char>, numb: int, fl: int, tl: int) -> Seq<char> {
    let o = find_from(line, open_mark(), 0);
    let c = find_from(line, close_mark(), 0);
    let n = line.len() as int;
    if numb == fl && numb == tl {
        clip(line, 0, o) + "\x1b[4m\x1b[31m"@ + clip(line, o + 4, c) + "\x1b[0m"@ + clip(line, c + 4, n)
    } else if numb == fl {
        clip(line, 0, o) + "\x1b[4m\x1b[31m"@ + clip(line, o + 4, n)
    } else if fl < numb && numb < tl {
        "\x1b[4m\x1b[31m"@ + line + "\x1b[0m"@
    } else if numb == tl {
        clip(line, 0, c) + "\x1b[0m"@ + clip(line, c + 4, n)
    } else {
        line
    }
}

/// Rendering of line `numb`: its number, then its body.
pub open spec fn render_line(line: Seq<char>, numb: int, fl: int, tl: int) -> Seq<char> {
    "    "@ + decimal(numb as nat) + " | "@ + line_body(line, numb, fl, tl) + "\n"@
}

/// Renderings of lines `lo..hi`, in order.
pub open spec fn render_lines(ls: Seq<Seq<char>>, lo: int, hi: int, fl: int, tl: int) -> Seq<char>
    decreases hi - lo,
{
    if hi <= lo {
        seq![]
    } else {
        render_lines(ls, lo, hi - 1, fl, tl) + render_line(ls[hi - 1], hi - 1, fl, tl)
    }
}

/// The window of lines around characters `f..t` of `cs`: from three lines
/// before the first highlighted line to two after the last one.
pub open spec fn highlight_chars(cs: Seq<char>, f: int, t: int) -> Seq<char> {
    let marked = cs.subrange(0, f) + open_mark() + cs.subrange(f, t) + close_mark() + cs.subrange(
        t,
        cs.len() as int,
    );
    let ls = lines_spec(marked);
    let fl = count_newlines(cs.subrange(0, f));
    let tl = count_newlines(cs.subrange(0, t));
    let lo = if fl >= 3 {
        fl - 3
    } else {
        0
    };
    let hi = if tl + 3 <= ls.len() {
        tl + 3
    } else {
        ls.len() as int
    };
    render_lines(ls, lo, hi, fl, tl)
}

/// What [`highlight`] renders for the byte span `from..to` of `code`; the
/// ends are brought into the text, and counted in characters.
pub open spec fn highlight_spec(from: int, to: int, code: &str) -> Seq<char> {
    let b = code.spec_bytes();
    let tb = if to < b.len() {
        to
    } else {
        b.len() as int
    };
    let fb = if from < tb {
        from
    } else {
        tb
    };
    let t = if char_count(b, tb) < code@.len() {
        char_count(b, tb)
    } else {
        code@.len() as int
    };
    let f = if char_count(b, fb) < t {
        char_count(b, fb)
    } else {
        t
    };
    highlight_chars(code@, f, t)
}

fn char_count_at(b: &[u8], i: usize) -> (r: usize)
    requires
        i <= b@.len(),
    ensures
        r == char_count(b@, i as int),
{
    let mut k: usize = 0;
    let mut n: usize = 0;
    while k < i
        invariant
            k <= i <= b@.len(),
            n == char_count(b@, k as int),
            n <= k,
        decreases i - k,
    {
        if !(0x80 <= b[k] && b[k] <= 0xbf) {
            n += 1;
        }
        k += 1;
    }
    n
}

fn count_newlines_upto(cs: &Vec<char>, k: usize) -> (r: usize)
    requires
        k <= cs@.len(),
    ensures
        r == count_newlines(cs@.subrange(0, k as int)),
{
    let mut i: usize = 0;
    let mut n: usize = 0;
    while i < k
        invariant
            i <= k <= cs@.len(),
            n == count_newlines(cs@.subrange(0, i as int)),
            n <= i,
        decreases k - i,
    {
        assert(cs@.subrange(0, i + 1).drop_last() =~= cs@.subrange(0, i as int));
        if cs[i] == '\n' {
            n += 1;
        }
        i += 1;
    }
    n
}

fn find_chars(s: &Vec<char>, pat: &Vec<char>) -> (r: usize)
    ensures
        r == find_from(s@, pat@, 0),
{
    let mut i: usize = 0;
    let slen = s.len();
    while i <= s.len() && pat.len() <= s.len() - i
        invariant
            slen == s@.len(),
            find_from(s@, pat@, i as int) == find_from(s@, pat@, 0),
        decreases s@.len() - i,
    {
        let mut k: usize = 0;
        let mut same = true;
        while k < pat.len()
            invariant
                slen == s@.len(),
                i + pat@.len() <= s@.len(),
                k <= pat@.len(),
                same == (forall|j: int| 0 <= j < k ==> s@[i + j] == pat@[j]),
            decreases pat@.len() - k,
        {
            if s[i + k] != pat[k] {
                same = false;
            }
            k += 1;
        }
        if same {
            assert(s@.subrange(i as int, i + pat@.len()) =~= pat@);
            return i;
        } else {
            assert(s@.subrange(i as int, i + pat@.len()) != pat@) by {
                let j = choose|j: int| 0 <= j < pat@.len() && s@[i + j] != pat@[j];
                assert(s@.subrange(i as int, i + pat@.len())[j] != pat@[j]);
            }
        }
        i += 1;
    }
    s.len()
}

fn push_clip(out: &mut String, s: &Vec<char>, a: usize, b: usize)
    ensures
        final(out)@ == old(out)@ + clip(s@, a as int, b as int),
{
    let a2 = if a > s.len() {
        s.len()
    } else {
        a
    };
    let b2 = if b < a2 {
        a2
    } else if b > s.len() {
        s.len()
    } else {
        b
    };
    let mut i = a2;
    while i < b2
        invariant
            a2 <= i <= b2 <= s@.len(),
            out@ == old(out)@ + s@.subrange(a2 as int, i as int),
        decreases b2 - i,
    {
        push_char(out, s[i]);
        i += 1;
        assert(out@ =~= old(out)@ + s@.subrange(a2 as int, i as int));
    }
}

#[verifier::rlimit(80)]
fn push_line_body(text: &mut String, line: &Vec<char>, numb: usize, fl: usize, tl: usize)
    ensures
        final(text)@ == old(text)@ + line_body(line@, numb as int, fl as int, tl as int),
{
    let open = vec!['«', '«', '«', '«'];
    let close = vec!['»', '»', '»', '»'];
    assert(open@ =~= open_mark());
    assert(close@ =~= close_mark());
    let o = find_chars(line, &open);
    let c = find_chars(line, &close);
    let n = line.len();
    proof {
        lemma_find_from_bound(line@, open_mark(), 0);
        lemma_find_from_bound(line@, close_mark(), 0);
    }
    let o4 = if n - o >= 4 {
        o + 4
    } else {
        n
    };
    let c4 = if n - c >= 4 {
        c + 4
    } else {
        n
    };
    assert(clip(line@, o4 as int, c as int) == clip(line@, o + 4, c as int));
    assert(clip(line@, o4 as int, n as int) == clip(line@, o + 4, n as int));
    assert(clip(line@, c4 as int, n as int) == clip(line@, c + 4, n as int));
    let ghost t0 = text@;
    reveal(line_body);
    if numb == fl && numb == tl {
        push_clip(text, line, 0, o);
        text.append("\x1b[4m\x1b[31m");
        push_clip(text, line, o4, c);
        text.append("\x1b[0m");
        push_clip(text, line, c4, n);
        assert(text@ =~= t0 + line_body(line@, numb as int, fl as int, tl as int));
    } else if numb == fl {
        push_clip(text, line, 0, o);
        text.append("\x1b[4m\x1b[31m");
        push_clip(text, line, o4, n);
        assert(text@ =~= t0 + line_body(line@, numb as int, fl as int, tl as int));
    } else if fl < numb && numb < tl {
        text.append("\x1b[4m\x1b[31m");
        push_clip(text, line, 0, n);
        text.append("\x1b[0m");
        assert(clip(line@, 0, n as int) =~= line@);
        assert(text@ =~= t0 + line_body(line@, numb as int, fl as int, tl as int));
    } else if numb == tl {
        push_clip(text, line, 0, c);
        text.append("\x1b[0m");
        push_clip(text, line, c4, n);
        assert(text@ =~= t0 + line_body(line@, numb as int, fl as int, tl as int));
    } else {
        push_clip(text, line, 0, n);
        assert(clip(line@, 0, n as int) =~= line@);
        assert(text@ =~= t0 + line_body(line@, numb as int, fl as int, tl as int));
    }
}

fn push_rendered_line(text: &mut String, line: &Vec<char>, numb: usize, fl: usize, tl: usize)
    ensures
        final(text)@ == old(text)@ + render_line(line@, numb as int, fl as int, tl as int),
{
    let ghost t0 = text@;
    text.append("    ");
    push_decimal(text, numb as u64);
    text.append(" | ");
    push_line_body(text, line, numb, fl, tl);
    text.append("\n");
    assert(text@ =~= t0 + render_line(line@, numb as int, fl as int, tl as int));
}

proof fn lemma_find_from_bound(s: Seq<char>, pat: Seq<char>, i: int)
    ensures
        find_from(s, pat, i) <= s.len(),
    decreases s.len() + 1 - i,
{
    if !(i < 0 || i + pat.len() > s.len()) && s.subrange(i, i + pat.len()) != pat {
        lemma_find_from_bound(s, pat, i + 1);
    }
}

/// Renders the lines around the byte span `from_index..to_index` of `code`,
/// each prefixed with its number, the span between ANSI underline-red and
/// reset codes.
#[verifier::rlimit(40)]
pub fn highlight(from_index: usize, to_index: usize, code: &str) -> (r: String)
    requires
        code.spec_bytes().len() <= usize::MAX,
    ensures
        r@ == highlight_spec(from_index as int, to_index as int, code),
{
    let b = code.as_bytes();
    let cs = chars_of(code);
    let tb = if to_index < b.len() {
        to_index
    } else {
        b.len()
    };
    let fb = if from_index < tb {
        from_index
    } else {
        tb
    };
    let tc = char_count_at(b, tb);
    let t = if tc < cs.len() {
        tc
    } else {
        cs.len()
    };
    let fc = char_count_at(b, fb);
    let f = if fc < t {
        fc
    } else {
        t
    };
    let mut marked: Vec<char> = Vec::new();
    let mut i: usize = 0;
    while i < cs.len()
        invariant
            f <= t <= cs@.len(),
            i <= cs@.len(),
            marked@ == if i <= f {
                cs@.subrange(0, i as int)
            } else if i <= t {
                cs@.subrange(0, f as int) + open_mark() + cs@.subrange(f as int, i as int)
            } else {
                cs@.subrange(0, f as int) + open_mark() + cs@.subrange(f as int, t as int) + close_mark()
                    + cs@.subrange(t as int, i as int)
            },
        decreases cs@.len() - i,
    {
        if i == f {
            marked.push('«');
            marked.push('«');
            marked.push('«');
            marked.push('«');
        }
        if i == t {
            marked.push('»');
            marked.push('»');
            marked.push('»');
            marked.push('»');
        }
        marked.push(cs[i]);
        i += 1;
        assert(marked@ =~= if i <= f {
                cs@.subrange(0, i as int)
            } else if i <= t {
                cs@.subrange(0, f as int) + open_mark() + cs@.subrange(f as int, i as int)
            } else {
                cs@.subrange(0, f as int) + open_mark() + cs@.subrange(f as int, t as int) + close_mark()
                    + cs@.subrange(t as int, i as int)
            });
    }
    if f == cs.len() {
        marked.push('«');
        marked.push('«');
        marked.push('«');
        marked.push('«');
    }
    if t == cs.len() {
        marked.push('»');
        marked.push('»');
        marked.push('»');
        marked.push('»');
    }
    assert(marked@ =~= cs@.subrange(0, f as int) + open_mark() + cs@.subrange(f as int, t as int)
        + close_mark() + cs@.subrange(t as int, cs@.len() as int));
    let ls = lines_chars(&marked);
    let fl = count_newlines_upto(&cs, f);
    let tl = count_newlines_upto(&cs, t);
    let lo = if fl >= 3 {
        fl - 3
    } else {
        0
    };
    let hi = if tl <= ls.len() && 3 <= ls.len() - tl {
        tl + 3
    } else {
        ls.len()
    };
    let ghost lsv = ls@.map_values(|l: Vec<char>| l@);
    let mut text = String::new();
    let mut numb = lo;
    while numb < hi
        invariant
            hi <= ls@.len(),
            lo <= numb,
            numb <= hi || numb == lo,
            lsv == ls@.map_values(|l: Vec<char>| l@),
            text@ == render_lines(lsv, lo as int, numb as int, fl as int, tl as int),
        decreases hi - numb,
    {
        push_rendered_line(&mut text, &ls[numb], numb, fl, tl);
        numb += 1;
    }
    proof {
        if hi < lo {
            assert(render_lines(lsv, lo as int, hi as int, fl as int, tl as int) =~= seq![]);
        }
    }
    text
}


/// The message of a failed expectation: what was expected, then the source
/// window with the `size` bytes at the cursor highlighted.
pub open spec fn expected_message(name: Seq<char>, size: int, state: State) -> Seq<char> {
    "Expected "@ + name + ":\n"@ + highlight_spec(
        state.index as int,
        state.index + size,
        state.code,
    )
}

/// Fails with a message that `name` was expected at the cursor.
pub fn expected<'a, A>(name: &str, size: usize, state: State<'a>) -> (r: Answer<'a, A>)
    requires
        state.wf(),
    ensures
        r is Err,
        r->Err_0@ == expected_message(name@, size as int, state),
{
    let len = state.code.len();
    let to = if size <= len - state.index {
        state.index + size
    } else {
        len
    };
    let window = highlight(state.index, to, state.code);
    let mut msg = String::new();
    msg.append("Expected ");
    msg.append(name);
    msg.append(":\n");
    msg.append(window.as_str());
    assert(msg@ =~= expected_message(name@, size as int, state));
    Err(msg)
}

/// Outcome of [`consume`]: the state after `pat` when it is there after
/// blanks and comments, else `None`.
pub open spec fn consume_spec<'a>(pat: Seq<u8>, state: State<'a>) -> Option<State<'a>> {
    if text_spec(pat, state).1 {
        Some(text_spec(pat, state).0)
    } else {
        None
    }
}

/// Like [`text`], but fails when `pat` is not there.
pub fn consume<'a>(pat: &str, state: State<'a>) -> (r: Answer<'a, ()>)
    requires
        state.wf(),
        pat.spec_bytes().len() <= usize::MAX,
    ensures
        match consume_spec(pat.spec_bytes(), state) {
            Some(t) => r == Ok::<(State<'a>, ()), String>((t, ())) && t.wf() && t.code == state.code
                && state.index <= t.index,
            None => r is Err && r->Err_0@ == expected_message(
                pat@,
                pat.spec_bytes().len() as int,
                skip_spec(state),
            ),
        },
{
    let (st, _) = skip_state(state);
    proof {
        lemma_text_here_wf(pat, st);
    }
    let (state, matched) = text_here(pat, st)?;
    if matched {
        Ok((state, ()))
    } else {
        expected(pat, pat.len(), state)
    }
}

/// [`consume`] for a fixed pattern, as a parser value.
pub fn consume_parser<'a>(pat: &'static str) -> (f: impl Fn(State<'a>) -> Answer<'a, ()>)
    requires
        pat.spec_bytes().len() <= usize::MAX,
    ensures
        is_parser(f),
        forall|s: State<'a>, r: Answer<'a, ()>|
            s.wf() && #[trigger] f.ensures((s,), r) ==> match consume_spec(pat.spec_bytes(), s) {
                Some(t) => r == Ok::<(State<'a>, ()), String>((t, ())),
                None => r is Err && r->Err_0@ == expected_message(
                    pat@,
                    pat.spec_bytes().len() as int,
                    skip_spec(s),
                ),
            },
{
    move|s: State<'a>| -> (r: Answer<'a, ()>)
        requires
            s.wf(),
        ensures
            match consume_spec(pat.spec_bytes(), s) {
                Some(t) => r == Ok::<(State<'a>, ()), String>((t, ())) && t.wf(),
                None => r is Err && r->Err_0@ == expected_message(
                    pat@,
                    pat.spec_bytes().len() as int,
                    skip_spec(s),
                ),
            },
        { consume(pat, s) }
}

/// When `pat` is there after blanks and comments, `text` and `consume` both
/// move to the state after it; when it is not, `text` answers `false` with
/// the state unchanged and `consume` fails.
pub proof fn lemma_text_consume_agree(pat: Seq<u8>, state: State)
    requires
        state.wf(),
    ensures
        text_spec(pat, state).1 ==> consume_spec(pat, state) == Some(text_spec(pat, state).0),
        !text_spec(pat, state).1 ==> consume_spec(pat, state) is None && text_spec(pat, state).0
            == state,
{
}

/// Like [`name`], but fails on an empty name.
pub fn name1<'a>(state: State<'a>) -> (r: Answer<'a, String>)
    requires
        state.wf(),
    ensures
        name_spec(state).1.len() > 0 ==> r is Ok && r->Ok_0.0 == name_spec(state).0
            && r->Ok_0.1@ == name_spec(state).1,
        name_spec(state).1.len() == 0 ==> r is Err && r->Err_0@ == expected_message(
            "name"@,
            1,
            name_spec(state).0,
        ),
        r is Ok ==> r->Ok_0.0.wf() && r->Ok_0.0.code == state.code && state.index < r->Ok_0.0.index,
{
    proof {
        lemma_skip_end(state.bytes(), state.index as int);
        lemma_name_end(state.bytes(), skip_spec(state).index as int);
    }
    let (state, name1) = name(state)?;
    if !name1.as_str().is_empty() {
        Ok((state, name1))
    } else {
        expected("name", 1, state)
    }
}

/// `f` answers `None` on `s` (at some state).
pub open spec fn declines<'a, A, F: Fn(State<'a>) -> Answer<'a, Option<A>>>(f: F, s: State<'a>) -> bool {
    exists|t: State<'a>| #[trigger] f.ensures((s,), Ok::<(State<'a>, Option<A>), String>((t, None)))
}

/// Tries each alternative on the same state and answers the first `Some`;
/// fails with an expectation of `name` when all decline. An alternative's
/// error ends the search.
#[verifier::rlimit(40)]
pub fn grammar<'a, A, F>(name: &str, choices: &[F], state: State<'a>) -> (r: Answer<'a, A>)
    where
        F: Fn(State<'a>) -> Answer<'a, Option<A>>,
    requires
        state.wf(),
        forall|i: int| 0 <= i < choices@.len() ==> is_parser(#[trigger] choices@[i]),
    ensures
        match r {
            Ok((t, v)) => exists|k: int|
                0 <= k < choices@.len() && (forall|j: int| 0 <= j < k ==> declines(#[trigger] choices@[j], state))
                    && #[trigger] choices@[k].ensures((state,), Ok::<(State<'a>, Option<A>), String>((t, Some(v)))),
            Err(e) => (exists|k: int|
                0 <= k < choices@.len() && (forall|j: int| 0 <= j < k ==> declines(#[trigger] choices@[j], state))
                    && #[trigger] choices@[k].ensures((state,), Err::<(State<'a>, Option<A>), String>(e)))
                || ((forall|j: int| 0 <= j < choices@.len() ==> declines(#[trigger] choices@[j], state))
                    && e@ == expected_message(name@, 1, state)),
        },
{
    let mut i: usize = 0;
    while i < choices.len()
        invariant
            state.wf(),
            i <= choices@.len(),
            forall|i: int| 0 <= i < choices@.len() ==> is_parser(#[trigger] choices@[i]),
            forall|j: int| 0 <= j < i ==> declines(#[trigger] choices@[j], state),
        decreases choices@.len() - i,
    {
        let choice = &choices[i];
        assert(is_parser(choices@[i as int]));
        let answer = choice(state);
        assert(choices@[i as int].ensures((state,), answer));
        let (next, result) = match answer {
            Ok(x) => x,
            Err(e) => {
                assert(choices@[i as int].ensures((state,), Err::<(State<'a>, Option<A>), String>(e)));
                let r: Answer<'a, A> = Err(e);
                assert(exists|k: int|
                    0 <= k < choices@.len() && (forall|j: int| 0 <= j < k ==> declines(#[trigger] choices@[j], state))
                    && #[trigger] choices@[k].ensures((state,), Err::<(State<'a>, Option<A>), String>(r->Err_0))) by {
                    assert(choices@[i as int].ensures((state,), Err::<(State<'a>, Option<A>), String>(r->Err_0)));
                }
                return r;
            },
        };
        if let Some(value) = result {
            assert(choices@[i as int].ensures((state,), Ok::<(State<'a>, Option<A>), String>((next, Some(value)))));
            let r: Answer<'a, A> = Ok((next, value));
            assert(exists|k: int|
                0 <= k < choices@.len() && (forall|j: int| 0 <= j < k ==> declines(#[trigger] choices@[j], state))
                && #[trigger] choices@[k].ensures((state,), Ok::<(State<'a>, Option<A>), String>((r->Ok_0.0, Some(r->Ok_0.1))))) by {
                assert(choices@[i as int].ensures((state,), Ok::<(State<'a>, Option<A>), String>((r->Ok_0.0, Some(r->Ok_0.1)))));
            }
            return r;
        }
        assert(declines(choices@[i as int], state));
        i += 1;
    }
    expected(name, 1, state)
}


// Example grammar
// ===============

pub proof fn lemma_single_byte_literals()
    ensures
        "(".spec_bytes().len() == 1,
        ")".spec_bytes().len() == 1,
        "=".spec_bytes().len() == 1,
        ";".spec_bytes().len() == 1,
{
    reveal_strlit("(");
    reveal_strlit(")");
    reveal_strlit("=");
    reveal_strlit(";");
    assert("("@ =~= seq!['(']);
    assert(")"@ =~= seq![')']);
    assert("="@ =~= seq!['=']);
    assert(";"@ =~= seq![';']);
    assert(vstd::string::is_ascii("="));
    assert(vstd::string::is_ascii(";"));
    vstd::string::is_ascii_spec_bytes("=");
    vstd::string::is_ascii_spec_bytes(";");
    assert(vstd::string::is_ascii("("));
    assert(vstd::string::is_ascii(")"));
    vstd::string::is_ascii_spec_bytes("(");
    vstd::string::is_ascii_spec_bytes(")");
}

/// Binary trees written `(left right)`, with names at the leaves.
pub enum Testree {
    Node { lft: Box<Testree>, rgt: Box<Testree> },
    Leaf { val: String },
}

/// The text of a tree.
pub open spec fn testree_text(tt: Testree) -> Seq<char>
    decreases tt,
{
    match tt {
        Testree::Node { lft, rgt } => seq!['('] + testree_text(*lft) + seq![' '] + testree_text(
            *rgt,
        ) + seq![')'],
        Testree::Leaf { val } => val@,
    }
}

/// Writes a tree as `(left right)`, leaves as their names.
pub fn testree_show(tt: &Testree) -> (r: String)
    ensures
        r@ == testree_text(*tt),
    decreases tt,
{
    match tt {
        Testree::Node { lft, rgt } => {
            let l = testree_show(lft);
            let g = testree_show(rgt);
            let mut r = String::new();
            push_char(&mut r, '(');
            r.append(l.as_str());
            push_char(&mut r, ' ');
            r.append(g.as_str());
            push_char(&mut r, ')');
            assert(r@ =~= testree_text(*tt));
            r
        },
        Testree::Leaf { val } => {
            let mut r = String::new();
            r.append(val.as_str());
            assert(r@ =~= val@);
            r
        },
    }
}

/// A node: when `(` follows blanks and comments, reads `(`, two trees and
/// `)`; otherwise declines at the skipped state.
#[verifier::rlimit(40)]
pub fn node_parser<'a>(state: State<'a>) -> (r: Answer<'a, Option<Box<Testree>>>)
    requires
        state.wf(),
    ensures
        r is Ok ==> r->Ok_0.0.wf() && r->Ok_0.0.code == state.code && state.index
            <= r->Ok_0.0.index,
        r is Ok && r->Ok_0.1 is None ==> r->Ok_0.0 == skip_spec(state) && !text_spec(
            "(".spec_bytes(),
            state,
        ).1,
        r is Ok && r->Ok_0.1 is Some ==> text_spec("(".spec_bytes(), state).1,
    decreases state.bytes().len() - state.index, 0nat,
{
    let (st, _) = skip_state(state);
    proof {
        lemma_skip_idempotent(state);
        lemma_text_here_wf("(", st);
        lemma_single_byte_literals();
    }
    let (_, matched) = text("(", st)?;
    if matched {
        let (s1, _) = consume("(", st)?;
        let (s2, lft) = testree_parser(s1)?;
        let (s3, rgt) = testree_parser(s2)?;
        let (s4, _) = consume(")", s3)?;
        Ok((s4, Some(Box::new(Testree::Node { lft, rgt }))))
    } else {
        Ok((st, None))
    }
}

/// A leaf: the name after blanks and comments (possibly empty).
pub fn leaf_parser<'a>(state: State<'a>) -> (r: Answer<'a, Option<Box<Testree>>>)
    requires
        state.wf(),
    ensures
        r is Ok,
        r->Ok_0.0 == name_spec(state).0,
        r->Ok_0.1 matches Some(t) && *t matches Testree::Leaf { val } && val@ == name_spec(state).1,
        name_spec(state).0.wf(),
        state.index <= name_spec(state).0.index,
{
    let (skipped, _) = skip_state(state);
    proof {
        lemma_skip_idempotent(state);
        lemma_name_end(skipped.bytes(), skipped.index as int);
    }
    let (state, val) = name(skipped)?;
    Ok((state, Some(Box::new(Testree::Leaf { val }))))
}

/// A tree: a node if one starts here, else a leaf.
#[verifier::rlimit(40)]
pub fn testree_parser<'a>(state: State<'a>) -> (r: Answer<'a, Box<Testree>>)
    requires
        state.wf(),
    ensures
        r is Ok ==> r->Ok_0.0.wf() && r->Ok_0.0.code == state.code && state.index
            <= r->Ok_0.0.index,
        r is Ok && !text_spec("(".spec_bytes(), state).1 ==> r->Ok_0.0 == name_spec(state).0,
    decreases state.bytes().len() - state.index, 1nat,
{
    match node_parser(state)? {
        (next, Some(tree)) => Ok((next, tree)),
        (_, None) => match leaf_parser(state)? {
            (next, Some(tree)) => Ok((next, tree)),
            (next, None) => expected("Testree", 1, state),
        },
    }
}

} // verus!
