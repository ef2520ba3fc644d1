//! Splicing generated sections into the runtime's C template. The template
//! marks its slots either as `/*! TAG !*/` or as a block
//! `/*! TAG */ ... /* TAG !*/`; each slot is replaced by the text its tag
//! names.
use vstd::prelude::*;
use vstd::string::StringSliceAdditionalSpecFns;
use vstd::utf8::*;

use crate::compiler::Sections;
use crate::parser::lemma_text_valid;
use crate::strings::{decimal, push_decimal};

verus! {

broadcast use vstd::utf8::group_utf8_lib;

/// The slot syntax, as a regular expression: group 2 is the tag of a
/// standalone slot; groups 4 and 5 are the opening and closing tags of a
/// block slot.
pub const SLOT_PATTERN: &'static str = r"(?s)(/\*! *(\w+) *!\*/)|(/\*! *(\w+) *\*/.*?/\* *(\w+) *!\*/)";

/// One slot found in a template: its byte span, its tag, and for a block
/// slot the tag that closes it.
pub struct SlotMatch {
    pub start: usize,
    pub end: usize,
    pub tag: String,
    pub close: Option<String>,
}

/// A slot as plain values.
pub open spec fn slot_view(m: SlotMatch) -> (nat, nat, Seq<char>, Option<Seq<char>>) {
    (
        m.start as nat,
        m.end as nat,
        m.tag@,
        match m.close {
            Some(c) => Some(c@),
            None => None,
        },
    )
}

/// The slots that the slot pattern finds in a template, left to right.
pub uninterp spec fn slot_matches(template: Seq<char>) -> Seq<(nat, nat, Seq<char>, Option<Seq<char>>)>;

/// Relies on `regex::Regex::captures_iter` with [`SLOT_PATTERN`]: the
/// successive non-overlapping matches, depending on the template alone.
#[verifier::external_body]
fn find_slots(template: &str) -> (r: Vec<SlotMatch>)
    ensures
        r@.map_values(|m: SlotMatch| slot_view(m)) == slot_matches(template@),
{
    let re = regex::Regex::new(SLOT_PATTERN).unwrap();
    re.captures_iter(template).map(|c| {
        let m = c.get(0).unwrap();
        let text = |i: usize| c.get(i).map(|g| g.as_str().to_string());
        match text(2) {
            Some(tag) => SlotMatch { start: m.start(), end: m.end(), tag, close: None },
            None => SlotMatch { start: m.start(), end: m.end(), tag: text(4).unwrap_or_default(), close: text(5) },
        }
    }).collect()
}

/// Relies on `num_cpus::get`: the number of CPUs this process may use.
#[verifier::external_body]
pub(crate) fn cpu_count() -> (r: usize) {
    num_cpus::get()
}

/// Why a template could not be filled.
#[derive(Clone, Copy, Debug, PartialEq, Eq, Structural)]
pub enum TemplateError {
    /// A block slot closes with another tag than it opened with.
    MismatchedTag,
    /// A slot names no known section.
    UnknownTag,
    /// A slot lies outside the template, overlaps the previous one, or cuts
    /// a character.
    BadSlot,
}

/// What the template needs besides the generated sections: the parallel
/// switch, the thread count and the platform's runtime fragments.
pub struct RuntimeParts {
    pub parallel: bool,
    pub threads: u64,
    pub dep_basic: String,
    pub dep_atomic: String,
    pub dep_thread: String,
    pub dep_time: String,
}

/// The text that replaces the slot tagged `tag`, if the tag is known.
pub open spec fn slot_text(tag: Seq<char>, s: Sections, p: RuntimeParts) -> Option<Seq<char>> {
    if tag == "GENERATED_PARALLEL_FLAG"@ {
        Some(
            if p.parallel {
                "#define PARALLEL"@
            } else {
                seq![]
            },
        )
    } else if tag == "GENERATED_NUM_THREADS"@ {
        Some(decimal(p.threads as nat))
    } else if tag == "GENERATED_CONSTRUCTOR_IDS"@ {
        Some(s.c_ids@)
    } else if tag == "GENERATED_REWRITE_RULES_STEP_0"@ {
        Some(s.inits@)
    } else if tag == "GENERATED_REWRITE_RULES_STEP_1"@ {
        Some(s.codes@)
    } else if tag == "GENERATED_NAME_COUNT"@ {
        Some(decimal(s.names_count as nat))
    } else if tag == "GENERATED_ID_TO_NAME_DATA"@ {
        Some(s.id2nm@)
    } else if tag == "GENERATED_DEPENDENCY_BASIC"@ {
        Some(p.dep_basic@)
    } else if tag == "GENERATED_DEPENDENCY_ATOMIC"@ {
        Some(p.dep_atomic@)
    } else if tag == "GENERATED_DEPENDENCY_THREAD"@ {
        Some(p.dep_thread@)
    } else if tag == "GENERATED_DEPENDENCY_TIME"@ {
        Some(p.dep_time@)
    } else {
        None
    }
}

/// The characters of bytes `a..b` of the template.
pub open spec fn piece(b: Seq<u8>, a: int, e: int) -> Seq<char> {
    decode_utf8(b.subrange(a, e))
}

/// A slot may be cut out after position `pos`: it starts at or after it,
/// ends inside the template, and both ends fall between characters.
pub open spec fn slot_in_place(b: Seq<u8>, m: (nat, nat, Seq<char>, Option<Seq<char>>), pos: int) -> bool {
    &&& pos <= m.0 <= m.1 <= b.len()
    &&& is_char_boundary(b, m.0 as int)
    &&& is_char_boundary(b, m.1 as int)
}

/// The template from byte `pos` on, with slots `k..` replaced.
pub open spec fn splice_from(
    b: Seq<u8>,
    slots: Seq<(nat, nat, Seq<char>, Option<Seq<char>>)>,
    k: int,
    pos: int,
    s: Sections,
    p: RuntimeParts,
) -> Result<Seq<char>, TemplateError>
    decreases slots.len() - k,
{
    if k < 0 || k >= slots.len() {
        Ok(piece(b, pos, b.len() as int))
    } else {
        let m = slots[k];
        if !slot_in_place(b, m, pos) {
            Err(TemplateError::BadSlot)
        } else if m.3 is Some && m.3->0 != m.2 {
            Err(TemplateError::MismatchedTag)
        } else {
            match slot_text(m.2, s, p) {
                None => Err(TemplateError::UnknownTag),
                Some(t) => match splice_from(b, slots, k + 1, m.1 as int, s, p) {
                    Ok(rest) => Ok(piece(b, pos, m.0 as int) + t + rest),
                    Err(e) => Err(e),
                },
            }
        }
    }
}

/// The text of `template` with every slot replaced, or the first slot's
/// error.
pub open spec fn splice_spec(
    template: &str,
    slots: Seq<(nat, nat, Seq<char>, Option<Seq<char>>)>,
    s: Sections,
    p: RuntimeParts,
) -> Result<Seq<char>, TemplateError> {
    splice_from(template.spec_bytes(), slots, 0, 0, s, p)
}

pub fn same_text(a: &str, b: &str) -> (r: bool)
    ensures
        r == (a@ == b@),
{
    proof {
        lemma_text_valid(a);
        lemma_text_valid(b);
    }
    let x = a.as_bytes();
    let y = b.as_bytes();
    if x.len() != y.len() {
        return false;
    }
    let mut i: usize = 0;
    while i < x.len()
        invariant
            x@ == a.spec_bytes(),
            y@ == b.spec_bytes(),
            x@.len() == y@.len(),
            i <= x@.len(),
            forall|j: int| 0 <= j < i ==> x@[j] == y@[j],
        decreases x@.len() - i,
    {
        if x[i] != y[i] {
            assert(x@ != y@);
            return false;
        }
        i += 1;
    }
    assert(x@ =~= y@);
    true
}

fn copy_string(s: &String) -> (r: String)
    ensures
        r@ == s@,
{
    let mut r = String::new();
    r.append(s.as_str());
    assert(r@ =~= s@);
    r
}

fn decimal_string(n: u64) -> (r: String)
    ensures
        r@ == decimal(n as nat),
{
    let mut r = String::new();
    push_decimal(&mut r, n);
    assert(r@ =~= decimal(n as nat));
    r
}

/// The text that replaces a slot with this tag, if the tag is known.
#[verifier::rlimit(40)]
pub fn slot_replacement(tag: &String, s: &Sections, p: &RuntimeParts) -> (r: Option<String>)
    ensures
        match slot_text(tag@, *s, *p) {
            Some(t) => r is Some && r->0@ == t,
            None => r is None,
        },
{
    let t = tag.as_str();
    if same_text(t, "GENERATED_PARALLEL_FLAG") {
        if p.parallel {
            Some("#define PARALLEL".to_string())
        } else {
            Some(String::new())
        }
    } else if same_text(t, "GENERATED_NUM_THREADS") {
        Some(decimal_string(p.threads))
    } else if same_text(t, "GENERATED_CONSTRUCTOR_IDS") {
        Some(copy_string(&s.c_ids))
    } else if same_text(t, "GENERATED_REWRITE_RULES_STEP_0") {
        Some(copy_string(&s.inits))
    } else if same_text(t, "GENERATED_REWRITE_RULES_STEP_1") {
        Some(copy_string(&s.codes))
    } else if same_text(t, "GENERATED_NAME_COUNT") {
        Some(decimal_string(s.names_count))
    } else if same_text(t, "GENERATED_ID_TO_NAME_DATA") {
        Some(copy_string(&s.id2nm))
    } else if same_text(t, "GENERATED_DEPENDENCY_BASIC") {
        Some(copy_string(&p.dep_basic))
    } else if same_text(t, "GENERATED_DEPENDENCY_ATOMIC") {
        Some(copy_string(&p.dep_atomic))
    } else if same_text(t, "GENERATED_DEPENDENCY_THREAD") {
        Some(copy_string(&p.dep_thread))
    } else if same_text(t, "GENERATED_DEPENDENCY_TIME") {
        Some(copy_string(&p.dep_time))
    } else {
        None
    }
}

/// A boundary at or before another boundary is a boundary of the prefix
/// that ends there.
proof fn lemma_prefix_boundary(b: Seq<u8>, pos: int, end: int)
    requires
        valid_utf8(b),
        0 <= pos <= end <= b.len(),
        is_char_boundary(b, pos),
        is_char_boundary(b, end),
    ensures
        is_char_boundary(b.subrange(0, end), pos),
{
    valid_utf8_split(b, end);
    let x = b.subrange(0, end);
    if pos < end {
        is_char_boundary_iff_not_is_continuation_byte(b, pos);
        is_char_boundary_iff_not_is_continuation_byte(x, pos);
        assert(x[pos] == b[pos]);
    } else {
        is_char_boundary_start_end_of_seq(x);
    }
}

/// The characters of bytes `a..e` of `text`.
fn substring<'t>(text: &'t str, a: usize, e: usize) -> (r: &'t str)
    requires
        a <= e <= text.spec_bytes().len(),
        is_char_boundary(text.spec_bytes(), a as int),
        is_char_boundary(text.spec_bytes(), e as int),
    ensures
        r@ == piece(text.spec_bytes(), a as int, e as int),
{
    proof {
        lemma_text_valid(text);
    }
    let (left, _) = text.split_at(e);
    proof {
        lemma_prefix_boundary(text.spec_bytes(), a as int, e as int);
    }
    let (_, mid) = left.split_at(a);
    proof {
        lemma_text_valid(mid);
        assert(mid.spec_bytes() =~= text.spec_bytes().subrange(a as int, e as int));
    }
    mid
}

/// Replaces every slot of `template` (given left to right) by its text.
/// Fails on the first slot that is out of place, closes with another tag,
/// or names no known section.
#[verifier::rlimit(40)]
pub fn splice_template(
    template: &str,
    slots: &Vec<SlotMatch>,
    s: &Sections,
    p: &RuntimeParts,
) -> (r: Result<String, TemplateError>)
    ensures
        match r {
            Ok(t) => splice_spec(template, slots@.map_values(|m: SlotMatch| slot_view(m)), *s, *p)
                == Ok::<Seq<char>, TemplateError>(t@),
            Err(e) => splice_spec(template, slots@.map_values(|m: SlotMatch| slot_view(m)), *s, *p)
                == Err::<Seq<char>, TemplateError>(e),
        },
{
    let ghost b = template.spec_bytes();
    let ghost sv = slots@.map_values(|m: SlotMatch| slot_view(m));
    proof {
        lemma_text_valid(template);
    }
    let len = template.as_bytes().len();
    let mut out = String::new();
    let mut pos: usize = 0;
    let mut k: usize = 0;
    while k < slots.len()
        invariant
            b == template.spec_bytes(),
            valid_utf8(b),
            len == b.len(),
            sv == slots@.map_values(|m: SlotMatch| slot_view(m)),
            k <= slots@.len(),
            pos <= b.len(),
            is_char_boundary(b, pos as int),
            splice_spec(template, sv, *s, *p) == match splice_from(b, sv, k as int, pos as int, *s, *p) {
                Ok(rest) => Ok::<Seq<char>, TemplateError>(out@ + rest),
                Err(e) => Err(e),
            },
        decreases slots@.len() - k,
    {
        let m = &slots[k];
        let ghost mv = sv[k as int];
        assert(mv == slot_view(*m));
        if !(pos <= m.start && m.start <= m.end && m.end <= len) {
            return Err(TemplateError::BadSlot);
        }
        if !template.is_char_boundary(m.start) || !template.is_char_boundary(m.end) {
            return Err(TemplateError::BadSlot);
        }
        if let Some(c) = &m.close {
            if !same_text(c.as_str(), m.tag.as_str()) {
                return Err(TemplateError::MismatchedTag);
            }
        }
        let text = match slot_replacement(&m.tag, s, p) {
            Some(t) => t,
            None => {
                return Err(TemplateError::UnknownTag);
            },
        };
        let before = substring(template, pos, m.start);
        let ghost o0 = out@;
        let ghost pc = piece(b, pos as int, m.start as int);
        assert(splice_from(b, sv, k as int, pos as int, *s, *p) == match splice_from(
            b,
            sv,
            k + 1,
            m.end as int,
            *s,
            *p,
        ) {
            Ok(rest) => Ok::<Seq<char>, TemplateError>(pc + text@ + rest),
            Err(e) => Err(e),
        });
        out.append(before);
        out.append(text.as_str());
        assert(out@ =~= o0 + pc + text@);
        proof {
            match splice_from(b, sv, k + 1, m.end as int, *s, *p) {
                Ok(rest) => {
                    assert(o0 + (pc + text@ + rest) =~= out@ + rest);
                },
                Err(e) => {},
            }
        }
        pos = m.end;
        k += 1;
    }
    proof {
        is_char_boundary_start_end_of_seq(b);
    }
    let tail = substring(template, pos, len);
    let ghost o0 = out@;
    out.append(tail);
    assert(out@ =~= o0 + piece(b, pos as int, b.len() as int));
    Ok(out)
}

/// Fills the runtime template: finds its slots and replaces each by its
/// generated text.
pub fn c_runtime_template(template: &str, s: &Sections, p: &RuntimeParts) -> (r: Result<String, TemplateError>)
    ensures
        match r {
            Ok(t) => splice_spec(template, slot_matches(template@), *s, *p) == Ok::<Seq<char>, TemplateError>(t@),
            Err(e) => splice_spec(template, slot_matches(template@), *s, *p) == Err::<Seq<char>, TemplateError>(e),
        },
{
    let slots = find_slots(template);
    splice_template(template, &slots, s, p)
}


/// Slots `k..` lie left to right from byte `pos`, each in place.
pub open spec fn slots_placed(
    b: Seq<u8>,
    slots: Seq<(nat, nat, Seq<char>, Option<Seq<char>>)>,
    k: int,
    pos: int,
) -> bool
    decreases slots.len() - k,
{
    if k < 0 || k >= slots.len() {
        true
    } else {
        slot_in_place(b, slots[k], pos) && slots_placed(b, slots, k + 1, slots[k].1 as int)
    }
}

/// Every slot names a known section.
pub open spec fn tags_known(slots: Seq<(nat, nat, Seq<char>, Option<Seq<char>>)>, s: Sections, p: RuntimeParts) -> bool {
    forall|k: int| 0 <= k < slots.len() ==> (#[trigger] slot_text(slots[k].2, s, p)) is Some
}

/// Every block slot closes with the tag it opened with.
pub open spec fn tags_closed(slots: Seq<(nat, nat, Seq<char>, Option<Seq<char>>)>) -> bool {
    forall|k: int| 0 <= k < slots.len() && (#[trigger] slots[k]).3 is Some ==> slots[k].3->0 == slots[k].2
}

/// Slots that lie in order, name known sections and close properly are all
/// replaced: splicing succeeds, and the output is the template's text
/// between the slots with each slot's text in its place.
pub proof fn lemma_splice_succeeds(
    b: Seq<u8>,
    slots: Seq<(nat, nat, Seq<char>, Option<Seq<char>>)>,
    k: int,
    pos: int,
    s: Sections,
    p: RuntimeParts,
)
    requires
        0 <= k,
        slots_placed(b, slots, k, pos),
        tags_known(slots, s, p),
        tags_closed(slots),
    ensures
        splice_from(b, slots, k, pos, s, p) is Ok,
        k < slots.len() ==> splice_from(b, slots, k, pos, s, p)->Ok_0 == piece(
            b,
            pos,
            slots[k].0 as int,
        ) + slot_text(slots[k].2, s, p)->0 + splice_from(b, slots, k + 1, slots[k].1 as int, s, p)->Ok_0,
    decreases slots.len() - k,
{
    if k < slots.len() {
        assert(slot_text(slots[k].2, s, p) is Some);
        lemma_splice_succeeds(b, slots, k + 1, slots[k].1 as int, s, p);
    }
}

/// In a template whose slots lie in order and name known sections, a block
/// slot that closes with another tag makes splicing fail with
/// [`TemplateError::MismatchedTag`].
pub proof fn lemma_splice_mismatch(
    b: Seq<u8>,
    slots: Seq<(nat, nat, Seq<char>, Option<Seq<char>>)>,
    k: int,
    pos: int,
    j: int,
    s: Sections,
    p: RuntimeParts,
)
    requires
        0 <= k <= j < slots.len(),
        slots_placed(b, slots, k, pos),
        tags_known(slots, s, p),
        slots[j].3 is Some,
        slots[j].3->0 != slots[j].2,
    ensures
        splice_from(b, slots, k, pos, s, p) == Err::<Seq<char>, TemplateError>(TemplateError::MismatchedTag),
    decreases slots.len() - k,
{
    assert(slot_text(slots[k].2, s, p) is Some);
    if k < j && !(slots[k].3 is Some && slots[k].3->0 != slots[k].2) {
        lemma_splice_mismatch(b, slots, k + 1, slots[k].1 as int, j, s, p);
    }
}

/// The runtime parts for this machine: the given switch and fragments, with
/// the number of CPUs available to this process as the thread count.
pub fn runtime_parts(
    parallel: bool,
    dep_basic: String,
    dep_atomic: String,
    dep_thread: String,
    dep_time: String,
) -> (r: RuntimeParts)
    ensures
        r.parallel == parallel,
        r.dep_basic == dep_basic,
        r.dep_atomic == dep_atomic,
        r.dep_thread == dep_thread,
        r.dep_time == dep_time,
{
    let threads = cpu_count() as u64;
    RuntimeParts { parallel, threads, dep_basic, dep_atomic, dep_thread, dep_time }
}

} // verus!
