//! The metadata grammar parser and renderer. The grammar is
//! whitespace-sensitive: tabs are structural. A document is
//!
//! ```text
//! # BEGIN DMI
//! version = <digits>.<digits>
//! \twidth = <digits>        (optional, default 32)
//! \theight = <digits>       (optional, default 32)
//! state = "<name>"          (zero or more state blocks)
//! \t<prop> = <value>        (properties of the preceding state)
//! # END DMI
//! ```
//!
//! Each state requires `dirs` and `frames` (digit-only values); the
//! recognized optional properties are `delay`, `hotspot`, `loop`,
//! `movement` and `rewind`; any other property name is a hard parse
//! failure. After the terminating tag, leftover input is its own
//! failure, distinct from a grammar mismatch.

use vstd::prelude::*;

use crate::dmi::{
    states_view, DreamMakerIconMetadata, DreamMakerIconMetadataView, IconState, IconStateView,
};
use crate::error::IconError;
use crate::text::{
    chars_to_string, dec_of, push_dec, split_on, split_on_spec, str_eq, str_views, string_push,
};

verus! {

/// The outcome of one grammar production: a value and the remaining
/// input, or a failure.
pub enum PRes<T> {
    Parsed(T, Seq<char>),
    Failed(ParseFailure),
}

/// The ways the metadata text can be rejected.
pub enum ParseFailure {
    /// The text does not match the grammar.
    Grammar,
    /// A state block holds a property outside the recognized set.
    Unknown(Seq<char>),
    /// A state block lacks a required property.
    Missing(Seq<char>, Seq<char>),
    /// The grammar matched a prefix, but input remained.
    Trailing,
}

/// Whether the executable error carries the same failure as the
/// specification-level one.
pub open spec fn err_matches(e: IconError, f: ParseFailure) -> bool {
    match f {
        ParseFailure::Grammar => e is GrammarMismatch,
        ParseFailure::Unknown(n) => e matches IconError::UnknownProperty(en) && en@ == n,
        ParseFailure::Missing(st, fld) => e matches IconError::MissingRequiredField(es, ef)
            && es@ == st && ef@ == fld,
        ParseFailure::Trailing => e is TrailingInput,
    }
}

/// A decimal digit.
pub open spec fn is_digit(c: char) -> bool {
    48 <= c as int <= 57
}

/// The longest digit prefix of the input, and the rest.
pub open spec fn take_digits(s: Seq<char>) -> (Seq<char>, Seq<char>)
    decreases s.len(),
{
    if s.len() > 0 && is_digit(s[0]) {
        let rec = take_digits(s.drop_first());
        (seq![s[0]] + rec.0, rec.1)
    } else {
        (Seq::empty(), s)
    }
}

/// The numeric value of a digit string.
pub open spec fn digits_val(d: Seq<char>) -> int
    decreases d.len(),
{
    if d.len() == 0 {
        0
    } else {
        digits_val(d.drop_last()) * 10 + (d.last() as int - 48)
    }
}

/// A digit-only token that fits the numeric range: what the grammar
/// demands of `dirs`, `frames`, `width`, `height` and the version
/// parts.
pub open spec fn digits_ok(d: Seq<char>) -> bool {
    &&& d.len() >= 1
    &&& (forall|j: int| 0 <= j < d.len() ==> is_digit(d[j]))
    &&& digits_val(d) <= u32::MAX
}

/// A number token: one or more digits whose value fits.
pub open spec fn parse_u32_spec(s: Seq<char>) -> PRes<u32> {
    let d = take_digits(s).0;
    let r = take_digits(s).1;
    if d.len() == 0 {
        PRes::Failed(ParseFailure::Grammar)
    } else if digits_val(d) > u32::MAX {
        PRes::Failed(ParseFailure::Grammar)
    } else {
        PRes::Parsed(digits_val(d) as u32, r)
    }
}

/// A fixed token.
pub open spec fn parse_lit_spec(s: Seq<char>, lit: Seq<char>) -> PRes<()> {
    if s.len() >= lit.len() && s.subrange(0, lit.len() as int) == lit {
        PRes::Parsed((), s.skip(lit.len() as int))
    } else {
        PRes::Failed(ParseFailure::Grammar)
    }
}

/// Whether the input begins with the given token.
pub open spec fn starts_with(s: Seq<char>, lit: Seq<char>) -> bool {
    s.len() >= lit.len() && s.subrange(0, lit.len() as int) == lit
}

/// The body of a quoted string, after its opening quote: everything up
/// to the closing unescaped quote, with `\"` unescaped to `"`.
pub open spec fn scan_quoted(s: Seq<char>) -> PRes<Seq<char>>
    decreases s.len(),
{
    if s.len() == 0 {
        PRes::Failed(ParseFailure::Grammar)
    } else if s[0] == '\\' && s.len() >= 2 && s[1] == '"' {
        match scan_quoted(s.skip(2)) {
            PRes::Parsed(t, r) => PRes::Parsed(seq!['"'] + t, r),
            f => f,
        }
    } else if s[0] == '"' {
        PRes::Parsed(Seq::empty(), s.skip(1))
    } else {
        match scan_quoted(s.drop_first()) {
            PRes::Parsed(t, r) => PRes::Parsed(seq![s[0]] + t, r),
            f => f,
        }
    }
}

/// The longest prefix free of `stop`, and the rest.
pub open spec fn take_until(s: Seq<char>, stop: char) -> (Seq<char>, Seq<char>)
    decreases s.len(),
{
    if s.len() > 0 && s[0] != stop {
        let rec = take_until(s.drop_first(), stop);
        (seq![s[0]] + rec.0, rec.1)
    } else {
        (Seq::empty(), s)
    }
}

/// A state block under construction: the properties seen so far.
pub struct StateDraft {
    pub dirs: Option<u32>,
    pub frames: Option<u32>,
    pub delay: Option<Seq<Seq<char>>>,
    pub hotspot: Option<Seq<Seq<char>>>,
    pub loop_flag: Option<Seq<char>>,
    pub movement_flag: Option<Seq<char>>,
    pub rewind_flag: Option<Seq<char>>,
}

/// The draft with nothing seen yet.
pub open spec fn empty_draft() -> StateDraft {
    StateDraft {
        dirs: None,
        frames: None,
        delay: None,
        hotspot: None,
        loop_flag: None,
        movement_flag: None,
        rewind_flag: None,
    }
}

/// One property applied to the draft; a later occurrence of the same
/// property overwrites an earlier one.
pub open spec fn apply_prop(d: StateDraft, name: Seq<char>, value: Seq<char>) -> PRes<StateDraft> {
    if name == "dirs"@ {
        if digits_ok(value) {
            PRes::Parsed(StateDraft { dirs: Some(digits_val(value) as u32), ..d }, Seq::empty())
        } else {
            PRes::Failed(ParseFailure::Grammar)
        }
    } else if name == "frames"@ {
        if digits_ok(value) {
            PRes::Parsed(StateDraft { frames: Some(digits_val(value) as u32), ..d }, Seq::empty())
        } else {
            PRes::Failed(ParseFailure::Grammar)
        }
    } else if name == "delay"@ {
        PRes::Parsed(StateDraft { delay: Some(split_on_spec(value, ',')), ..d }, Seq::empty())
    } else if name == "hotspot"@ {
        PRes::Parsed(StateDraft { hotspot: Some(split_on_spec(value, ',')), ..d }, Seq::empty())
    } else if name == "loop"@ {
        PRes::Parsed(StateDraft { loop_flag: Some(value), ..d }, Seq::empty())
    } else if name == "movement"@ {
        PRes::Parsed(StateDraft { movement_flag: Some(value), ..d }, Seq::empty())
    } else if name == "rewind"@ {
        PRes::Parsed(StateDraft { rewind_flag: Some(value), ..d }, Seq::empty())
    } else {
        PRes::Failed(ParseFailure::Unknown(name))
    }
}

/// The run of tab-led property lines that follows a state line.
pub open spec fn parse_props(s: Seq<char>, d: StateDraft) -> PRes<StateDraft>
    decreases s.len(),
{
    if !(s.len() >= 1 && s[0] == '\t') {
        PRes::Parsed(d, s)
    } else {
        let body = s.drop_first();
        let name = take_until(body, ' ').0;
        let r1 = take_until(body, ' ').1;
        if name.len() == 0 {
            PRes::Failed(ParseFailure::Grammar)
        } else {
            match parse_lit_spec(r1, " = "@) {
                PRes::Failed(_) => PRes::Failed(ParseFailure::Grammar),
                PRes::Parsed(_, r2) => {
                    let value = take_until(r2, '\n').0;
                    let r3 = take_until(r2, '\n').1;
                    if r3.len() == 0 {
                        PRes::Failed(ParseFailure::Grammar)
                    } else {
                        let rest = r3.drop_first();
                        match apply_prop(d, name, value) {
                            PRes::Failed(f) => PRes::Failed(f),
                            PRes::Parsed(d2, _) => {
                                if rest.len() < s.len() {
                                    parse_props(rest, d2)
                                } else {
                                    PRes::Failed(ParseFailure::Grammar)
                                }
                            },
                        }
                    }
                },
            }
        }
    }
}

/// One whole state block: the `state = "<name>"` line and its
/// properties, of which `dirs` and `frames` are required.
pub open spec fn parse_state(s: Seq<char>) -> PRes<IconStateView> {
    match parse_lit_spec(s, "state = \""@) {
        PRes::Failed(_) => PRes::Failed(ParseFailure::Grammar),
        PRes::Parsed(_, r1) => match scan_quoted(r1) {
            PRes::Failed(f) => PRes::Failed(f),
            PRes::Parsed(name, r2) => match parse_lit_spec(r2, "\n"@) {
                PRes::Failed(_) => PRes::Failed(ParseFailure::Grammar),
                PRes::Parsed(_, r3) => match parse_props(r3, empty_draft()) {
                    PRes::Failed(f) => PRes::Failed(f),
                    PRes::Parsed(d, r4) => {
                        if d.dirs is None {
                            PRes::Failed(ParseFailure::Missing(name, "dirs"@))
                        } else if d.frames is None {
                            PRes::Failed(ParseFailure::Missing(name, "frames"@))
                        } else {
                            PRes::Parsed(
                                IconStateView {
                                    name,
                                    dirs: d.dirs->0,
                                    frames: d.frames->0,
                                    delay: d.delay,
                                    hotspot: d.hotspot,
                                    loop_flag: d.loop_flag,
                                    movement_flag: d.movement_flag,
                                    rewind_flag: d.rewind_flag,
                                },
                                r4,
                            )
                        }
                    },
                },
            },
        },
    }
}

/// Zero or more state blocks, in document order.
pub open spec fn parse_states(s: Seq<char>) -> PRes<Seq<IconStateView>>
    decreases s.len(),
{
    if starts_with(s, "state = \""@) {
        match parse_state(s) {
            PRes::Failed(f) => PRes::Failed(f),
            PRes::Parsed(st, r) => {
                if r.len() < s.len() {
                    match parse_states(r) {
                        PRes::Failed(f) => PRes::Failed(f),
                        PRes::Parsed(sts, r2) => PRes::Parsed(seq![st] + sts, r2),
                    }
                } else {
                    PRes::Failed(ParseFailure::Grammar)
                }
            },
        }
    } else {
        PRes::Parsed(Seq::empty(), s)
    }
}

/// An optional document-level dimension line, such as
/// `\twidth = <digits>`; absent means the default of 32.
pub open spec fn parse_dim(s: Seq<char>, lead: Seq<char>) -> PRes<u32> {
    if starts_with(s, lead) {
        match parse_lit_spec(s, lead) {
            PRes::Failed(_) => PRes::Failed(ParseFailure::Grammar),
            PRes::Parsed(_, r1) => match parse_u32_spec(r1) {
                PRes::Failed(_) => PRes::Failed(ParseFailure::Grammar),
                PRes::Parsed(v, r2) => match parse_lit_spec(r2, "\n"@) {
                    PRes::Failed(_) => PRes::Failed(ParseFailure::Grammar),
                    PRes::Parsed(_, r3) => PRes::Parsed(v, r3),
                },
            },
        }
    } else {
        PRes::Parsed(32u32, s)
    }
}

/// The whole document. Trailing input after the terminating tag is a
/// failure of its own.
pub open spec fn parse_document_spec(s: Seq<char>) -> Result<
    DreamMakerIconMetadataView,
    ParseFailure,
> {
    match parse_lit_spec(s, "# BEGIN DMI\n"@) {
        PRes::Failed(_) => Err(ParseFailure::Grammar),
        PRes::Parsed(_, r0) => match parse_lit_spec(r0, "version = "@) {
            PRes::Failed(_) => Err(ParseFailure::Grammar),
            PRes::Parsed(_, r1) => match parse_u32_spec(r1) {
                PRes::Failed(_) => Err(ParseFailure::Grammar),
                PRes::Parsed(major, r2) => match parse_lit_spec(r2, "."@) {
                    PRes::Failed(_) => Err(ParseFailure::Grammar),
                    PRes::Parsed(_, r3) => match parse_u32_spec(r3) {
                        PRes::Failed(_) => Err(ParseFailure::Grammar),
                        PRes::Parsed(minor, r4) => match parse_lit_spec(r4, "\n"@) {
                            PRes::Failed(_) => Err(ParseFailure::Grammar),
                            PRes::Parsed(_, r5) => match parse_dim(r5, "\twidth = "@) {
                                PRes::Failed(f) => Err(f),
                                PRes::Parsed(width, r6) => match parse_dim(r6, "\theight = "@) {
                                    PRes::Failed(f) => Err(f),
                                    PRes::Parsed(height, r7) => match parse_states(r7) {
                                        PRes::Failed(f) => Err(f),
                                        PRes::Parsed(states, r8) => match parse_lit_spec(
                                            r8,
                                            "# END DMI\n"@,
                                        ) {
                                            PRes::Failed(_) => Err(ParseFailure::Grammar),
                                            PRes::Parsed(_, r9) => {
                                                if r9.len() == 0 {
                                                    Ok(
                                                        DreamMakerIconMetadataView {
                                                            version_major: major,
                                                            version_minor: minor,
                                                            width,
                                                            height,
                                                            states,
                                                        },
                                                    )
                                                } else {
                                                    Err(ParseFailure::Trailing)
                                                }
                                            },
                                        },
                                    },
                                },
                            },
                        },
                    },
                },
            },
        },
    }
}

proof fn lemma_skip_skip(s: Seq<char>, i: int, k: int)
    requires
        0 <= i,
        0 <= k,
        i + k <= s.len(),
    ensures
        s.skip(i).skip(k) == s.skip(i + k),
{
    assert(s.skip(i).skip(k) =~= s.skip(i + k));
}

proof fn lemma_skip_subrange(s: Seq<char>, i: int, k: int)
    requires
        0 <= i,
        0 <= k,
        i + k <= s.len(),
    ensures
        s.skip(i).subrange(0, k) == s.subrange(i, i + k),
{
    assert(s.skip(i).subrange(0, k) =~= s.subrange(i, i + k));
}

/// One fixed token at position `i`: on success the position just past it.
fn p_lit(s: &str, i: usize, lit: &str) -> (r: Option<usize>)
    requires
        i <= s@.len(),
    ensures
        match r {
            Some(j) => {
                &&& i <= j <= s@.len()
                &&& j == i + lit@.len()
                &&& parse_lit_spec(s@.skip(i as int), lit@) == PRes::Parsed(
                    (),
                    s@.skip(j as int),
                )
            },
            None => parse_lit_spec(s@.skip(i as int), lit@) is Failed,
        },
{
    let n = s.unicode_len();
    let m = lit.unicode_len();
    if n - i < m {
        return None;
    }
    let mut k: usize = 0;
    while k < m
        invariant
            0 <= k <= m,
            m == lit@.len(),
            i + m <= n,
            n == s@.len(),
            forall|t: int| 0 <= t < k ==> s@[i + t] == lit@[t],
        decreases m - k,
    {
        if s.get_char(i + k) != lit.get_char(k) {
            proof {
                lemma_skip_subrange(s@, i as int, m as int);
                assert(s@.subrange(i as int, i + m)[k as int] == s@[i + k]);
                assert(s@.skip(i as int).subrange(0, m as int) != lit@);
            }
            return None;
        }
        k = k + 1;
    }
    proof {
        lemma_skip_subrange(s@, i as int, m as int);
        assert(s@.subrange(i as int, i + m) =~= lit@);
        lemma_skip_skip(s@, i as int, m as int);
    }
    Some(i + m)
}

/// Whether the token starts at position `i`, consuming nothing.
fn has_prefix(s: &str, i: usize, lit: &str) -> (b: bool)
    requires
        i <= s@.len(),
    ensures
        b == starts_with(s@.skip(i as int), lit@),
{
    let n = s.unicode_len();
    let m = lit.unicode_len();
    if n - i < m {
        return false;
    }
    let mut k: usize = 0;
    while k < m
        invariant
            0 <= k <= m,
            m == lit@.len(),
            i + m <= n,
            n == s@.len(),
            forall|t: int| 0 <= t < k ==> s@[i + t] == lit@[t],
        decreases m - k,
    {
        if s.get_char(i + k) != lit.get_char(k) {
            proof {
                lemma_skip_subrange(s@, i as int, m as int);
                assert(s@.subrange(i as int, i + m)[k as int] == s@[i + k]);
                assert(s@.skip(i as int).subrange(0, m as int) != lit@);
            }
            return false;
        }
        k = k + 1;
    }
    proof {
        lemma_skip_subrange(s@, i as int, m as int);
        assert(s@.subrange(i as int, i + m) =~= lit@);
    }
    true
}

/// The position just past the digit run that starts at `i`.
fn scan_digits(s: &str, i: usize) -> (e: usize)
    requires
        i <= s@.len(),
    ensures
        i <= e <= s@.len(),
        forall|t: int| i <= t < e ==> is_digit(s@[t]),
        e == s@.len() || !is_digit(s@[e as int]),
{
    let n = s.unicode_len();
    let mut e: usize = i;
    while e < n
        invariant
            i <= e <= n,
            n == s@.len(),
            forall|t: int| i <= t < e ==> is_digit(s@[t]),
        decreases n - e,
    {
        let c = s.get_char(e);
        let cu = c as u32;
        if cu < 48 || cu > 57 {
            return e;
        }
        e = e + 1;
    }
    e
}

/// The position just past the run free of `stop` that starts at `i`.
fn scan_until(s: &str, i: usize, stop: char) -> (e: usize)
    requires
        i <= s@.len(),
    ensures
        i <= e <= s@.len(),
        forall|t: int| i <= t < e ==> s@[t] != stop,
        e == s@.len() || s@[e as int] == stop,
{
    let n = s.unicode_len();
    let mut e: usize = i;
    while e < n
        invariant
            i <= e <= n,
            n == s@.len(),
            forall|t: int| i <= t < e ==> s@[t] != stop,
        decreases n - e,
    {
        let c = s.get_char(e);
        if c == stop {
            return e;
        }
        e = e + 1;
    }
    e
}

proof fn lemma_take_digits_char(t: Seq<char>, k: int)
    requires
        0 <= k <= t.len(),
        forall|j: int| 0 <= j < k ==> is_digit(t[j]),
        k == t.len() || !is_digit(t[k]),
    ensures
        take_digits(t).0 == t.subrange(0, k),
        take_digits(t).1 == t.skip(k),
    decreases k,
{
    if k == 0 {
        assert(t.subrange(0, 0) =~= Seq::<char>::empty());
        assert(t.skip(0) =~= t);
    } else {
        lemma_take_digits_char(t.drop_first(), k - 1);
        assert(t.drop_first().subrange(0, k - 1) =~= t.subrange(1, k));
        assert(seq![t[0]] + t.subrange(1, k) =~= t.subrange(0, k));
        assert(t.drop_first().skip(k - 1) =~= t.skip(k));
    }
}

proof fn lemma_take_until_char(t: Seq<char>, stop: char, k: int)
    requires
        0 <= k <= t.len(),
        forall|j: int| 0 <= j < k ==> t[j] != stop,
        k == t.len() || t[k] == stop,
    ensures
        take_until(t, stop).0 == t.subrange(0, k),
        take_until(t, stop).1 == t.skip(k),
    decreases k,
{
    if k == 0 {
        assert(t.subrange(0, 0) =~= Seq::<char>::empty());
        assert(t.skip(0) =~= t);
    } else {
        lemma_take_until_char(t.drop_first(), stop, k - 1);
        assert(t.drop_first().subrange(0, k - 1) =~= t.subrange(1, k));
        assert(seq![t[0]] + t.subrange(1, k) =~= t.subrange(0, k));
        assert(t.drop_first().skip(k - 1) =~= t.skip(k));
    }
}

pub proof fn lemma_digits_val_nonneg(d: Seq<char>)
    requires
        forall|j: int| 0 <= j < d.len() ==> is_digit(d[j]),
    ensures
        digits_val(d) >= 0,
    decreases d.len(),
{
    if d.len() > 0 {
        lemma_digits_val_nonneg(d.drop_last());
    }
}

proof fn lemma_digits_val_prefix_le(d: Seq<char>, m: int)
    requires
        0 <= m <= d.len(),
        forall|j: int| 0 <= j < d.len() ==> is_digit(d[j]),
    ensures
        digits_val(d.subrange(0, m)) <= digits_val(d),
    decreases d.len() - m,
{
    if m == d.len() {
        assert(d.subrange(0, m) =~= d);
    } else {
        lemma_digits_val_prefix_le(d.subrange(0, d.len() - 1), m);
        assert(d.subrange(0, d.len() - 1) =~= d.drop_last());
        assert(d.subrange(0, d.len() - 1).subrange(0, m) =~= d.subrange(0, m));
        lemma_digits_val_nonneg(d.drop_last());
        assert(digits_val(d.drop_last()) <= digits_val(d));
    }
}

/// The value of the digit run in `[i, e)`, when it fits the range.
fn fold_digits(s: &str, i: usize, e: usize) -> (r: Option<u32>)
    requires
        i <= e <= s@.len(),
        forall|t: int| i <= t < e ==> is_digit(s@[t]),
    ensures
        match r {
            Some(v) => digits_val(s@.subrange(i as int, e as int)) == v,
            None => digits_val(s@.subrange(i as int, e as int)) > u32::MAX,
        },
{
    let ghost d = s@.subrange(i as int, e as int);
    let mut val: u64 = 0;
    let mut t: usize = i;
    proof {
        assert(d.subrange(0, 0) =~= Seq::<char>::empty());
    }
    while t < e
        invariant
            i <= t <= e <= s@.len(),
            d == s@.subrange(i as int, e as int),
            forall|u: int| i <= u < e ==> is_digit(s@[u]),
            val == digits_val(d.subrange(0, t - i)),
            val <= u32::MAX,
        decreases e - t,
    {
        let c = s.get_char(t);
        let dv: u64 = (c as u32 as u64) - 48;
        val = val * 10 + dv;
        proof {
            assert(d.subrange(0, t - i).push(s@[t as int]) =~= d.subrange(0, t - i + 1));
            assert(d.subrange(0, t - i + 1).drop_last() =~= d.subrange(0, t - i));
            assert(d.subrange(0, t - i + 1).last() == s@[t as int]);
            assert(digits_val(d.subrange(0, t - i + 1)) == digits_val(d.subrange(0, t - i)) * 10
                + (s@[t as int] as int - 48));
        }
        t = t + 1;
        if val > 0xffff_ffffu64 {
            proof {
                lemma_digits_val_prefix_le(d, t - i);
            }
            return None;
        }
    }
    proof {
        assert(d.subrange(0, e - i) =~= d);
    }
    Some(val as u32)
}

/// The body of a quoted string starting at position `i` (just past
/// the opening quote): the unescaped text and the position just past
/// the closing quote.
fn p_quoted(s: &str, i: usize) -> (r: Option<(String, usize)>)
    requires
        i <= s@.len(),
    ensures
        match r {
            Some(p) => {
                &&& i < p.1 <= s@.len()
                &&& scan_quoted(s@.skip(i as int)) == PRes::Parsed(p.0@, s@.skip(p.1 as int))
            },
            None => scan_quoted(s@.skip(i as int)) == PRes::<Seq<char>>::Failed(
                ParseFailure::Grammar,
            ),
        },
{
    let n = s.unicode_len();
    let mut acc: Vec<char> = Vec::new();
    let mut cur: usize = i;
    while cur < n
        invariant
            i <= cur <= n,
            n == s@.len(),
            ({
                match scan_quoted(s@.skip(cur as int)) {
                    PRes::Parsed(t, r) => scan_quoted(s@.skip(i as int)) == PRes::<
                        Seq<char>,
                    >::Parsed(acc@ + t, r),
                    PRes::Failed(f) => scan_quoted(s@.skip(i as int)) == PRes::<
                        Seq<char>,
                    >::Failed(f),
                }
            }),
        decreases n - cur,
    {
        let c = s.get_char(cur);
        if c == '\\' && cur + 1 < n && s.get_char(cur + 1) == '"' {
            let ghost old_acc = acc@;
            acc.push('"');
            proof {
                lemma_skip_skip(s@, cur as int, 2);
                assert(acc@ == old_acc.push('"'));
                match scan_quoted(s@.skip(cur + 2)) {
                    PRes::Parsed(t, r) => {
                        assert(scan_quoted(s@.skip(cur as int)) == PRes::Parsed(
                            seq!['"'] + t,
                            r,
                        ));
                        assert(acc@ + t =~= old_acc + (seq!['"'] + t));
                    },
                    PRes::Failed(_) => {},
                }
            }
            cur = cur + 2;
        } else if c == '"' {
            proof {
                assert(scan_quoted(s@.skip(cur as int)) == PRes::Parsed(
                    Seq::<char>::empty(),
                    s@.skip(cur as int).skip(1),
                ));
                lemma_skip_skip(s@, cur as int, 1);
                assert(acc@ + Seq::<char>::empty() =~= acc@);
            }
            let name = chars_to_string(&acc);
            return Some((name, cur + 1));
        } else {
            let ghost old_acc = acc@;
            acc.push(c);
            proof {
                assert(s@.skip(cur as int).drop_first() =~= s@.skip(cur + 1));
                assert(acc@ == old_acc.push(c));
                match scan_quoted(s@.skip(cur + 1)) {
                    PRes::Parsed(t, r) => {
                        assert(scan_quoted(s@.skip(cur as int)) == PRes::Parsed(seq![c] + t, r));
                        assert(acc@ + t =~= old_acc + (seq![c] + t));
                    },
                    PRes::Failed(_) => {},
                }
            }
            cur = cur + 1;
        }
    }
    proof {
        assert(s@.skip(cur as int).len() == 0);
        assert(scan_quoted(s@.skip(cur as int)) is Failed);
    }
    None
}

/// A number token at position `i`.
fn p_u32(s: &str, i: usize) -> (r: Option<(u32, usize)>)
    requires
        i <= s@.len(),
    ensures
        match r {
            Some(p) => {
                &&& i < p.1 <= s@.len()
                &&& parse_u32_spec(s@.skip(i as int)) == PRes::Parsed(p.0, s@.skip(p.1 as int))
            },
            None => parse_u32_spec(s@.skip(i as int)) is Failed,
        },
{
    let e = scan_digits(s, i);
    proof {
        lemma_take_digits_char(s@.skip(i as int), (e - i) as int);
        lemma_skip_subrange(s@, i as int, (e - i) as int);
        lemma_skip_skip(s@, i as int, (e - i) as int);
    }
    if e == i {
        return None;
    }
    match fold_digits(s, i, e) {
        Some(v) => Some((v, e)),
        None => None,
    }
}

/// A state block's properties while they are being collected.
struct DraftExec {
    dirs: Option<u32>,
    frames: Option<u32>,
    delay: Option<Vec<String>>,
    hotspot: Option<Vec<String>>,
    loop_flag: Option<String>,
    movement_flag: Option<String>,
    rewind_flag: Option<String>,
}

spec fn draft_view(d: DraftExec) -> StateDraft {
    StateDraft {
        dirs: d.dirs,
        frames: d.frames,
        delay: match d.delay {
            Some(v) => Some(str_views(v@)),
            None => None,
        },
        hotspot: match d.hotspot {
            Some(v) => Some(str_views(v@)),
            None => None,
        },
        loop_flag: match d.loop_flag {
            Some(x) => Some(x@),
            None => None,
        },
        movement_flag: match d.movement_flag {
            Some(x) => Some(x@),
            None => None,
        },
        rewind_flag: match d.rewind_flag {
            Some(x) => Some(x@),
            None => None,
        },
    }
}

/// The tab-led property lines that start at position `i`.
#[verifier::rlimit(60)]
fn p_props(s: &str, i: usize) -> (r: Result<(DraftExec, usize), IconError>)
    requires
        i <= s@.len(),
    ensures
        match r {
            Ok(p) => {
                &&& i <= p.1 <= s@.len()
                &&& parse_props(s@.skip(i as int), empty_draft()) == PRes::Parsed(
                    draft_view(p.0),
                    s@.skip(p.1 as int),
                )
            },
            Err(e) => parse_props(s@.skip(i as int), empty_draft()) matches PRes::Failed(f)
                && err_matches(e, f),
        },
{
    let n = s.unicode_len();
    let mut d = DraftExec {
        dirs: None,
        frames: None,
        delay: None,
        hotspot: None,
        loop_flag: None,
        movement_flag: None,
        rewind_flag: None,
    };
    let mut cur: usize = i;
    proof {
        assert(draft_view(d) == empty_draft());
    }
    while cur < n && s.get_char(cur) == '\t'
        invariant
            i <= cur <= n,
            n == s@.len(),
            ({
                match parse_props(s@.skip(cur as int), draft_view(d)) {
                    PRes::Parsed(dd, r) => parse_props(s@.skip(i as int), empty_draft())
                        == PRes::<StateDraft>::Parsed(dd, r),
                    PRes::Failed(f) => parse_props(s@.skip(i as int), empty_draft())
                        == PRes::<StateDraft>::Failed(f),
                }
            }),
        decreases n - cur,
    {
        let ghost u = s@.skip(cur as int);
        proof {
            assert(u[0] == s@[cur as int]);
            assert(u.drop_first() =~= s@.skip(cur + 1));
        }
        let e1 = scan_until(s, cur + 1, ' ');
        proof {
            lemma_take_until_char(s@.skip(cur + 1), ' ', e1 - (cur + 1));
            lemma_skip_subrange(s@, cur + 1, e1 - (cur + 1));
            lemma_skip_skip(s@, cur + 1, e1 - (cur + 1));
        }
        let ghost name_v = s@.subrange(cur + 1, e1 as int);
        if e1 == cur + 1 {
            return Err(IconError::GrammarMismatch);
        }
        let j2 = match p_lit(s, e1, " = ") {
            Some(j) => j,
            None => {
                return Err(IconError::GrammarMismatch);
            },
        };
        let e3 = scan_until(s, j2, '\n');
        proof {
            lemma_take_until_char(s@.skip(j2 as int), '\n', e3 - j2);
            lemma_skip_subrange(s@, j2 as int, e3 - j2);
            lemma_skip_skip(s@, j2 as int, e3 - j2);
        }
        let ghost value_v = s@.subrange(j2 as int, e3 as int);
        if e3 == n {
            return Err(IconError::GrammarMismatch);
        }
        proof {
            assert(s@.skip(e3 as int).drop_first() =~= s@.skip(e3 + 1));
            assert(s@.skip(e3 + 1).len() < u.len());
        }
        let name_s = s.substring_char(cur + 1, e1);
        let value_s = s.substring_char(j2, e3);
        let ghost d0 = draft_view(d);
        if str_eq(name_s, "dirs") {
            let de = scan_digits(s, j2);
            if de != e3 || j2 == e3 {
                proof {
                    if j2 != e3 {
                        if de < e3 {
                            assert(!is_digit(value_v[de - j2]));
                        } else {
                            assert(is_digit(s@[e3 as int]));
                            assert(s@[e3 as int] == '\n');
                            assert(!is_digit('\n'));
                        }
                    }
                    assert(!digits_ok(value_v));
                }
                return Err(IconError::GrammarMismatch);
            }
            let v = match fold_digits(s, j2, e3) {
                Some(v) => v,
                None => {
                    proof {
                        assert(!digits_ok(value_v));
                    }
                    return Err(IconError::GrammarMismatch);
                },
            };
            proof {
                assert(digits_ok(value_v));
            }
            d.dirs = Some(v);
            proof {
                assert(apply_prop(d0, name_v, value_v) == PRes::<StateDraft>::Parsed(
                    draft_view(d),
                    Seq::<char>::empty(),
                ));
            }
        } else if str_eq(name_s, "frames") {
            let de = scan_digits(s, j2);
            if de != e3 || j2 == e3 {
                proof {
                    if j2 != e3 {
                        if de < e3 {
                            assert(!is_digit(value_v[de - j2]));
                        } else {
                            assert(is_digit(s@[e3 as int]));
                            assert(s@[e3 as int] == '\n');
                            assert(!is_digit('\n'));
                        }
                    }
                    assert(!digits_ok(value_v));
                }
                return Err(IconError::GrammarMismatch);
            }
            let v = match fold_digits(s, j2, e3) {
                Some(v) => v,
                None => {
                    proof {
                        assert(!digits_ok(value_v));
                    }
                    return Err(IconError::GrammarMismatch);
                },
            };
            proof {
                assert(digits_ok(value_v));
            }
            d.frames = Some(v);
            proof {
                assert(apply_prop(d0, name_v, value_v) == PRes::<StateDraft>::Parsed(
                    draft_view(d),
                    Seq::<char>::empty(),
                ));
            }
        } else if str_eq(name_s, "delay") {
            d.delay = Some(split_on(value_s, ','));
            proof {
                assert(apply_prop(d0, name_v, value_v) == PRes::<StateDraft>::Parsed(
                    draft_view(d),
                    Seq::<char>::empty(),
                ));
            }
        } else if str_eq(name_s, "hotspot") {
            d.hotspot = Some(split_on(value_s, ','));
            proof {
                assert(apply_prop(d0, name_v, value_v) == PRes::<StateDraft>::Parsed(
                    draft_view(d),
                    Seq::<char>::empty(),
                ));
            }
        } else if str_eq(name_s, "loop") {
            d.loop_flag = Some(String::from_str(value_s));
            proof {
                assert(apply_prop(d0, name_v, value_v) == PRes::<StateDraft>::Parsed(
                    draft_view(d),
                    Seq::<char>::empty(),
                ));
            }
        } else if str_eq(name_s, "movement") {
            d.movement_flag = Some(String::from_str(value_s));
            proof {
                assert(apply_prop(d0, name_v, value_v) == PRes::<StateDraft>::Parsed(
                    draft_view(d),
                    Seq::<char>::empty(),
                ));
            }
        } else if str_eq(name_s, "rewind") {
            d.rewind_flag = Some(String::from_str(value_s));
            proof {
                assert(apply_prop(d0, name_v, value_v) == PRes::<StateDraft>::Parsed(
                    draft_view(d),
                    Seq::<char>::empty(),
                ));
            }
        } else {
            proof {
                assert(apply_prop(d0, name_v, value_v) == PRes::<StateDraft>::Failed(
                    ParseFailure::Unknown(name_v),
                ));
            }
            return Err(IconError::UnknownProperty(String::from_str(name_s)));
        }
        cur = e3 + 1;
    }
    proof {
        let u = s@.skip(cur as int);
        if cur < n {
            assert(u[0] == s@[cur as int]);
            assert(u[0] != '\t');
        }
        assert(parse_props(u, draft_view(d)) == PRes::<StateDraft>::Parsed(draft_view(d), u));
    }
    Ok((d, cur))
}

/// One whole state block starting at position `i`.
fn p_state(s: &str, i: usize) -> (r: Result<(IconState, usize), IconError>)
    requires
        i <= s@.len(),
    ensures
        match r {
            Ok(p) => {
                &&& i < p.1 <= s@.len()
                &&& parse_state(s@.skip(i as int)) == PRes::Parsed(p.0@, s@.skip(p.1 as int))
            },
            Err(e) => parse_state(s@.skip(i as int)) matches PRes::Failed(f) && err_matches(
                e,
                f,
            ),
        },
{
    let i1 = match p_lit(s, i, "state = \"") {
        Some(j) => j,
        None => {
            return Err(IconError::GrammarMismatch);
        },
    };
    let (name, i2) = match p_quoted(s, i1) {
        Some(p) => p,
        None => {
            return Err(IconError::GrammarMismatch);
        },
    };
    let i3 = match p_lit(s, i2, "\n") {
        Some(j) => j,
        None => {
            return Err(IconError::GrammarMismatch);
        },
    };
    let (d, i4) = match p_props(s, i3) {
        Ok(p) => p,
        Err(e) => {
            return Err(e);
        },
    };
    let dirs = match d.dirs {
        Some(v) => v,
        None => {
            return Err(
                IconError::MissingRequiredField(name, String::from_str("dirs")),
            );
        },
    };
    let frames = match d.frames {
        Some(v) => v,
        None => {
            return Err(
                IconError::MissingRequiredField(name, String::from_str("frames")),
            );
        },
    };
    let st = IconState {
        name,
        dirs,
        frames,
        delay: d.delay,
        hotspot: d.hotspot,
        loop_flag: d.loop_flag,
        movement_flag: d.movement_flag,
        rewind_flag: d.rewind_flag,
    };
    Ok((st, i4))
}

/// Zero or more state blocks starting at position `i`.
fn p_states(s: &str, i: usize) -> (r: Result<(Vec<IconState>, usize), IconError>)
    requires
        i <= s@.len(),
    ensures
        match r {
            Ok(p) => {
                &&& i <= p.1 <= s@.len()
                &&& parse_states(s@.skip(i as int)) == PRes::Parsed(
                    states_view(p.0@),
                    s@.skip(p.1 as int),
                )
            },
            Err(e) => parse_states(s@.skip(i as int)) matches PRes::Failed(f) && err_matches(
                e,
                f,
            ),
        },
{
    let mut acc: Vec<IconState> = Vec::new();
    let mut cur: usize = i;
    let n = s.unicode_len();
    proof {
        assert(states_view(acc@) =~= Seq::<IconStateView>::empty());
    }
    while has_prefix(s, cur, "state = \"")
        invariant
            i <= cur <= n,
            n == s@.len(),
            ({
                match parse_states(s@.skip(cur as int)) {
                    PRes::Parsed(sts, r) => parse_states(s@.skip(i as int)) == PRes::<
                        Seq<IconStateView>,
                    >::Parsed(states_view(acc@) + sts, r),
                    PRes::Failed(f) => parse_states(s@.skip(i as int)) == PRes::<
                        Seq<IconStateView>,
                    >::Failed(f),
                }
            }),
        decreases n - cur,
    {
        let (st, j) = match p_state(s, cur) {
            Ok(p) => p,
            Err(e) => {
                return Err(e);
            },
        };
        let ghost old_acc = acc@;
        acc.push(st);
        proof {
            assert(s@.skip(j as int).len() < s@.skip(cur as int).len());
            assert(states_view(acc@) =~= states_view(old_acc).push(st@));
            match parse_states(s@.skip(j as int)) {
                PRes::Parsed(sts, r) => {
                    assert(parse_states(s@.skip(cur as int)) == PRes::<
                        Seq<IconStateView>,
                    >::Parsed(seq![st@] + sts, r));
                    assert(states_view(acc@) + sts =~= states_view(old_acc) + (seq![st@]
                        + sts));
                },
                PRes::Failed(_) => {},
            }
        }
        cur = j;
    }
    proof {
        assert(parse_states(s@.skip(cur as int)) == PRes::<Seq<IconStateView>>::Parsed(
            Seq::<IconStateView>::empty(),
            s@.skip(cur as int),
        ));
        assert(states_view(acc@) + Seq::<IconStateView>::empty() =~= states_view(acc@));
    }
    Ok((acc, cur))
}

/// One optional document-level dimension line at position `i`.
fn p_dim(s: &str, i: usize, lead: &str) -> (r: Result<(u32, usize), IconError>)
    requires
        i <= s@.len(),
    ensures
        match r {
            Ok(p) => {
                &&& i <= p.1 <= s@.len()
                &&& parse_dim(s@.skip(i as int), lead@) == PRes::Parsed(
                    p.0,
                    s@.skip(p.1 as int),
                )
            },
            Err(e) => parse_dim(s@.skip(i as int), lead@) matches PRes::Failed(f)
                && err_matches(e, f),
        },
{
    if !has_prefix(s, i, lead) {
        return Ok((32, i));
    }
    let j1 = match p_lit(s, i, lead) {
        Some(j) => j,
        None => {
            return Err(IconError::GrammarMismatch);
        },
    };
    let (v, j2) = match p_u32(s, j1) {
        Some(p) => p,
        None => {
            return Err(IconError::GrammarMismatch);
        },
    };
    let j3 = match p_lit(s, j2, "\n") {
        Some(j) => j,
        None => {
            return Err(IconError::GrammarMismatch);
        },
    };
    Ok((v, j3))
}

/// Parses the whole metadata text into a structured document.
pub fn parse_metadata(text: &str) -> (r: Result<DreamMakerIconMetadata, IconError>)
    ensures
        match r {
            Ok(m) => parse_document_spec(text@) == Ok::<
                DreamMakerIconMetadataView,
                ParseFailure,
            >(m@),
            Err(e) => {
                &&& parse_document_spec(text@) is Err
                &&& err_matches(e, parse_document_spec(text@)->Err_0)
            },
        },
{
    proof {
        assert(text@.skip(0) =~= text@);
    }
    let i0 = match p_lit(text, 0, "# BEGIN DMI\n") {
        Some(j) => j,
        None => {
            return Err(IconError::GrammarMismatch);
        },
    };
    let i1 = match p_lit(text, i0, "version = ") {
        Some(j) => j,
        None => {
            return Err(IconError::GrammarMismatch);
        },
    };
    let (major, i2) = match p_u32(text, i1) {
        Some(p) => p,
        None => {
            return Err(IconError::GrammarMismatch);
        },
    };
    let i3 = match p_lit(text, i2, ".") {
        Some(j) => j,
        None => {
            return Err(IconError::GrammarMismatch);
        },
    };
    let (minor, i4) = match p_u32(text, i3) {
        Some(p) => p,
        None => {
            return Err(IconError::GrammarMismatch);
        },
    };
    let i5 = match p_lit(text, i4, "\n") {
        Some(j) => j,
        None => {
            return Err(IconError::GrammarMismatch);
        },
    };
    let (width, i6) = match p_dim(text, i5, "\twidth = ") {
        Ok(p) => p,
        Err(e) => {
            return Err(e);
        },
    };
    let (height, i7) = match p_dim(text, i6, "\theight = ") {
        Ok(p) => p,
        Err(e) => {
            return Err(e);
        },
    };
    let (states, i8) = match p_states(text, i7) {
        Ok(p) => p,
        Err(e) => {
            return Err(e);
        },
    };
    let i9 = match p_lit(text, i8, "# END DMI\n") {
        Some(j) => j,
        None => {
            return Err(IconError::GrammarMismatch);
        },
    };
    let n = text.unicode_len();
    if i9 != n {
        return Err(IconError::TrailingInput);
    }
    Ok(
        DreamMakerIconMetadata {
            version_major: major,
            version_minor: minor,
            width,
            height,
            states,
        },
    )
}

/// A state name as it stands between the quotes: every plain quote
/// escaped with a backslash.
pub open spec fn escape_spec(name: Seq<char>) -> Seq<char>
    decreases name.len(),
{
    if name.len() == 0 {
        Seq::empty()
    } else if name[0] == '"' {
        seq!['\\', '"'] + escape_spec(name.drop_first())
    } else {
        seq![name[0]] + escape_spec(name.drop_first())
    }
}

/// The textual form of one state block: the fields the grammar
/// controls, nothing else.
pub open spec fn render_state_spec(st: IconStateView) -> Seq<char> {
    "state = \""@ + (escape_spec(st.name) + (seq!['"'] + (seq!['\n'] + render_props_spec(st))))
}

/// The second property line of one rendered state block.
pub open spec fn render_frames_line(st: IconStateView) -> Seq<char> {
    seq!['\t'] + ("frames"@ + (" = "@ + (dec_of(st.frames as nat) + seq!['\n'])))
}

/// The two property lines of one rendered state block.
pub open spec fn render_props_spec(st: IconStateView) -> Seq<char> {
    seq!['\t'] + ("dirs"@ + (" = "@ + (dec_of(st.dirs as nat) + (seq!['\n']
        + render_frames_line(st)))))
}

/// The textual form of a sequence of state blocks, in order.
pub open spec fn render_states_spec(states: Seq<IconStateView>) -> Seq<char>
    decreases states.len(),
{
    if states.len() == 0 {
        Seq::empty()
    } else {
        render_state_spec(states[0]) + render_states_spec(states.drop_first())
    }
}

/// The textual form of a whole document.
/// The rendered states followed by the terminating tag.
pub open spec fn render_tail_states(m: DreamMakerIconMetadataView) -> Seq<char> {
    render_states_spec(m.states) + "# END DMI\n"@
}

/// The rendered document from its height line on.
pub open spec fn render_tail_height(m: DreamMakerIconMetadataView) -> Seq<char> {
    "\theight = "@ + (dec_of(m.height as nat) + ("\n"@ + render_tail_states(m)))
}

/// The rendered document from its width line on.
pub open spec fn render_tail_width(m: DreamMakerIconMetadataView) -> Seq<char> {
    "\twidth = "@ + (dec_of(m.width as nat) + ("\n"@ + render_tail_height(m)))
}

/// The rendered document from its version line on.
pub open spec fn render_tail_version(m: DreamMakerIconMetadataView) -> Seq<char> {
    "version = "@ + (dec_of(m.version_major as nat) + ("."@ + (dec_of(m.version_minor as nat) + (
    "\n"@ + render_tail_width(m)))))
}

/// The textual form of a whole document.
pub open spec fn render_spec(m: DreamMakerIconMetadataView) -> Seq<char> {
    "# BEGIN DMI\n"@ + render_tail_version(m)
}

proof fn lemma_escape_push(name: Seq<char>, c: char)
    ensures
        escape_spec(name.push(c)) == escape_spec(name) + (if c == '"' {
            seq!['\\', '"']
        } else {
            seq![c]
        }),
    decreases name.len(),
{
    let tail = if c == '"' {
        seq!['\\', '"']
    } else {
        seq![c]
    };
    if name.len() == 0 {
        assert(name.push(c).drop_first() =~= Seq::<char>::empty());
        assert(name.push(c)[0] == c);
        assert(escape_spec(name.push(c).drop_first()) == Seq::<char>::empty());
        if c == '"' {
            assert(escape_spec(name.push(c)) == seq!['\\', '"'] + escape_spec(
                name.push(c).drop_first(),
            ));
            assert(escape_spec(name.push(c)) =~= tail);
        } else {
            assert(escape_spec(name.push(c)) == seq![c] + escape_spec(
                name.push(c).drop_first(),
            ));
            assert(escape_spec(name.push(c)) =~= tail);
        }
        assert(escape_spec(name) == Seq::<char>::empty());
        assert(escape_spec(name) + tail =~= tail);
    } else {
        lemma_escape_push(name.drop_first(), c);
        assert(name.push(c).drop_first() =~= name.drop_first().push(c));
        assert(name.push(c)[0] == name[0]);
        if name[0] == '"' {
            assert(escape_spec(name.push(c)) == seq!['\\', '"'] + escape_spec(
                name.drop_first().push(c),
            ));
            assert(escape_spec(name.push(c)) =~= escape_spec(name) + tail);
        } else {
            assert(escape_spec(name.push(c)) == seq![name[0]] + escape_spec(
                name.drop_first().push(c),
            ));
            assert(escape_spec(name.push(c)) =~= escape_spec(name) + tail);
        }
    }
}

/// Appends the escaped form of `name` to `out`.
fn push_escaped(out: &mut String, name: &str)
    ensures
        final(out)@ == old(out)@ + escape_spec(name@),
{
    let n = name.unicode_len();
    let mut k: usize = 0;
    proof {
        assert(name@.subrange(0, 0) =~= Seq::<char>::empty());
        assert(old(out)@ + escape_spec(name@.subrange(0, 0)) =~= old(out)@);
    }
    while k < n
        invariant
            0 <= k <= n,
            n == name@.len(),
            out@ == old(out)@ + escape_spec(name@.subrange(0, k as int)),
        decreases n - k,
    {
        let c = name.get_char(k);
        if c == '"' {
            string_push(out, '\\');
            string_push(out, '"');
        } else {
            string_push(out, c);
        }
        proof {
            lemma_escape_push(name@.subrange(0, k as int), name@[k as int]);
            assert(name@.subrange(0, k as int).push(name@[k as int]) =~= name@.subrange(
                0,
                k + 1,
            ));
            assert(out@ =~= old(out)@ + escape_spec(name@.subrange(0, k + 1)));
        }
        k = k + 1;
    }
    proof {
        assert(name@.subrange(0, n as int) =~= name@);
    }
}

/// Appends the textual form of one state block to `out`.
#[verifier::rlimit(100)]
fn push_state(out: &mut String, st: &IconState)
    ensures
        final(out)@ == old(out)@ + render_state_spec(st@),
{
    out.append("state = \"");
    push_escaped(out, st.name.as_str());
    out.append("\"");
    out.append("\n");
    out.append("\t");
    out.append("dirs");
    out.append(" = ");
    push_dec(out, st.dirs as u64);
    out.append("\n");
    out.append("\t");
    out.append("frames");
    out.append(" = ");
    push_dec(out, st.frames as u64);
    out.append("\n");
    proof {
        reveal_strlit("\"");
        reveal_strlit("\n");
        reveal_strlit("\t");
        assert("\""@ =~= seq!['"']);
        assert("\n"@ =~= seq!['\n']);
        assert("\t"@ =~= seq!['\t']);
        assert(out@ =~= old(out)@ + render_state_spec(st@));
    }
}

proof fn lemma_render_states_push(states: Seq<IconStateView>, st: IconStateView)
    ensures
        render_states_spec(states.push(st)) == render_states_spec(states) + render_state_spec(
            st,
        ),
    decreases states.len(),
{
    if states.len() == 0 {
        assert(states.push(st).drop_first() =~= Seq::<IconStateView>::empty());
        assert(states.push(st)[0] == st);
        assert(render_states_spec(states.push(st).drop_first()) == Seq::<char>::empty());
        assert(render_states_spec(states.push(st)) == render_state_spec(st)
            + render_states_spec(states.push(st).drop_first()));
        assert(render_states_spec(states) == Seq::<char>::empty());
        assert(render_states_spec(states.push(st)) =~= render_states_spec(states)
            + render_state_spec(st));
    } else {
        lemma_render_states_push(states.drop_first(), st);
        assert(states.push(st).drop_first() =~= states.drop_first().push(st));
        assert(states.push(st)[0] == states[0]);
        assert(render_states_spec(states.push(st)) == render_state_spec(states[0])
            + render_states_spec(states.drop_first().push(st)));
        assert(render_states_spec(states) == render_state_spec(states[0])
            + render_states_spec(states.drop_first()));
        assert(render_states_spec(states.push(st)) =~= render_states_spec(states)
            + render_state_spec(st));
    }
}

/// Renders a document back into its textual form: the fields the
/// grammar controls, in the canonical layout.
#[verifier::rlimit(100)]
pub fn render_metadata(m: &DreamMakerIconMetadata) -> (r: String)
    ensures
        r@ == render_spec(m@),
{
    let mut out = String::new();
    out.append("# BEGIN DMI\n");
    out.append("version = ");
    push_dec(&mut out, m.version_major as u64);
    out.append(".");
    push_dec(&mut out, m.version_minor as u64);
    out.append("\n");
    out.append("\twidth = ");
    push_dec(&mut out, m.width as u64);
    out.append("\n");
    out.append("\theight = ");
    push_dec(&mut out, m.height as u64);
    out.append("\n");
    let ghost header = out@;
    let mut k: usize = 0;
    proof {
        assert(states_view(m.states@).subrange(0, 0) =~= Seq::<IconStateView>::empty());
        assert(header + render_states_spec(states_view(m.states@).subrange(0, 0)) =~= header);
    }
    while k < m.states.len()
        invariant
            0 <= k <= m.states@.len(),
            out@ == header + render_states_spec(states_view(m.states@).subrange(0, k as int)),
        decreases m.states@.len() - k,
    {
        push_state(&mut out, &m.states[k]);
        proof {
            let sv = states_view(m.states@);
            lemma_render_states_push(sv.subrange(0, k as int), sv[k as int]);
            assert(sv.subrange(0, k as int).push(sv[k as int]) =~= sv.subrange(0, k + 1));
            assert(out@ =~= header + render_states_spec(sv.subrange(0, k + 1)));
        }
        k = k + 1;
    }
    out.append("# END DMI\n");
    proof {
        let sv = states_view(m.states@);
        assert(sv.subrange(0, sv.len() as int) =~= sv);
        let a1 = "# BEGIN DMI\n"@;
        let a2 = "version = "@;
        let d1 = dec_of(m.version_major as nat);
        let a3 = "."@;
        let d2 = dec_of(m.version_minor as nat);
        let a4 = "\n"@;
        let a5 = "\twidth = "@;
        let d3 = dec_of(m.width as nat);
        let a6 = "\n"@;
        let a7 = "\theight = "@;
        let d4 = dec_of(m.height as nat);
        let a8 = "\n"@;
        let s_txt = render_states_spec(sv);
        let a9 = "# END DMI\n"@;
        assert(Seq::<char>::empty() + a1 =~= a1);
        let p1 = a1 + a2;
        let p2 = p1 + d1;
        let p3 = p2 + a3;
        let p4 = p3 + d2;
        let p5 = p4 + a4;
        let p6 = p5 + a5;
        let p7 = p6 + d3;
        let p8 = p7 + a6;
        let p9 = p8 + a7;
        let p10 = p9 + d4;
        let p11 = p10 + a8;
        assert(header == p11);
        assert(out@ == (p11 + s_txt) + a9);
        let t12 = s_txt + a9;
        vstd::seq_lib::lemma_concat_associative(p11, s_txt, a9);
        let t11 = a8 + t12;
        vstd::seq_lib::lemma_concat_associative(p10, a8, t12);
        let t10 = d4 + t11;
        vstd::seq_lib::lemma_concat_associative(p9, d4, t11);
        let t9 = a7 + t10;
        vstd::seq_lib::lemma_concat_associative(p8, a7, t10);
        let t8 = a6 + t9;
        vstd::seq_lib::lemma_concat_associative(p7, a6, t9);
        let t7 = d3 + t8;
        vstd::seq_lib::lemma_concat_associative(p6, d3, t8);
        let t6 = a5 + t7;
        vstd::seq_lib::lemma_concat_associative(p5, a5, t7);
        let t5 = a4 + t6;
        vstd::seq_lib::lemma_concat_associative(p4, a4, t6);
        let t4 = d2 + t5;
        vstd::seq_lib::lemma_concat_associative(p3, d2, t5);
        let t3 = a3 + t4;
        vstd::seq_lib::lemma_concat_associative(p2, a3, t4);
        let t2 = d1 + t3;
        vstd::seq_lib::lemma_concat_associative(p1, d1, t3);
        let t1 = a2 + t2;
        vstd::seq_lib::lemma_concat_associative(a1, a2, t2);
        assert(out@ == a1 + t1);
        assert(render_tail_states(m@) == t12);
        assert(render_tail_height(m@) == t9);
        assert(render_tail_width(m@) == t6);
        assert(render_tail_version(m@) == t1);
        assert(out@ == render_spec(m@));
    }
    out
}

proof fn lemma_parse_lit_prefix(lit: Seq<char>, rest: Seq<char>)
    ensures
        parse_lit_spec(lit + rest, lit) == PRes::<()>::Parsed((), rest),
{
    assert((lit + rest).subrange(0, lit.len() as int) =~= lit);
    assert((lit + rest).skip(lit.len() as int) =~= rest);
}

proof fn lemma_digit_char_val(d: nat)
    requires
        d < 10,
    ensures
        crate::text::digit_char(d) as int == 48 + d,
{
}

proof fn lemma_dec_of_digits(n: nat)
    ensures
        dec_of(n).len() >= 1,
        forall|j: int| 0 <= j < dec_of(n).len() ==> is_digit(#[trigger] dec_of(n)[j]),
    decreases n,
{
    lemma_digit_char_val(n % 10);
    if n < 10 {
        lemma_digit_char_val(n);
    } else {
        lemma_dec_of_digits(n / 10);
        assert forall|j: int| 0 <= j < dec_of(n).len() implies is_digit(
            #[trigger] dec_of(n)[j],
        ) by {
            if j < dec_of(n).len() - 1 {
                assert(dec_of(n)[j] == dec_of(n / 10)[j]);
            } else {
                assert(dec_of(n)[j] == crate::text::digit_char(n % 10));
            }
        }
    }
}

proof fn lemma_digits_val_dec(n: nat)
    ensures
        digits_val(dec_of(n)) == n,
    decreases n,
{
    if n < 10 {
        lemma_digit_char_val(n);
        assert(dec_of(n) == seq![crate::text::digit_char(n)]);
        assert(dec_of(n).drop_last() =~= Seq::<char>::empty());
        assert(digits_val(dec_of(n).drop_last()) == 0);
        assert(dec_of(n).last() == crate::text::digit_char(n));
        assert(digits_val(dec_of(n)) == digits_val(dec_of(n).drop_last()) * 10 + (dec_of(
            n,
        ).last() as int - 48));
    } else {
        lemma_digits_val_dec(n / 10);
        lemma_digit_char_val(n % 10);
        let d = dec_of(n / 10);
        let c = crate::text::digit_char(n % 10);
        assert(dec_of(n) == d.push(c));
        assert(d.push(c).drop_last() =~= d);
        assert(d.push(c).last() == c);
        assert(digits_val(dec_of(n)) == digits_val(d) * 10 + (c as int - 48));
        assert((n / 10) * 10 + n % 10 == n) by (nonlinear_arith);
    }
}

proof fn lemma_parse_u32_prefix(n: nat, rest: Seq<char>)
    requires
        n <= u32::MAX,
        rest.len() == 0 || !is_digit(rest[0]),
    ensures
        parse_u32_spec(dec_of(n) + rest) == PRes::<u32>::Parsed(n as u32, rest),
{
    lemma_dec_of_digits(n);
    lemma_digits_val_dec(n);
    let t = dec_of(n) + rest;
    let k = dec_of(n).len() as int;
    assert(forall|j: int| 0 <= j < k ==> t[j] == dec_of(n)[j]);
    if rest.len() > 0 {
        assert(t[k] == rest[0]);
    }
    lemma_take_digits_char(t, k);
    assert(t.subrange(0, k) =~= dec_of(n));
    assert(t.skip(k) =~= rest);
}

proof fn lemma_scan_escape(name: Seq<char>, rest: Seq<char>)
    requires
        forall|j: int| 0 <= j < name.len() ==> name[j] != '\\',
    ensures
        scan_quoted(escape_spec(name) + seq!['"'] + rest) == PRes::<Seq<char>>::Parsed(
            name,
            rest,
        ),
    decreases name.len(),
{
    let s = escape_spec(name) + seq!['"'] + rest;
    if name.len() == 0 {
        assert(escape_spec(name) == Seq::<char>::empty());
        assert(s =~= seq!['"'] + rest);
        assert(s[0] == '"');
        assert(s.skip(1) =~= rest);
        assert(name =~= Seq::<char>::empty());
    } else if name[0] == '"' {
        lemma_scan_escape(name.drop_first(), rest);
        assert(escape_spec(name) == seq!['\\', '"'] + escape_spec(name.drop_first()));
        assert(s[0] == '\\');
        assert(s.len() >= 2);
        assert(s[1] == '"');
        assert(s.skip(2) =~= escape_spec(name.drop_first()) + seq!['"'] + rest);
        assert(seq!['"'] + name.drop_first() =~= name);
    } else {
        lemma_scan_escape(name.drop_first(), rest);
        assert(escape_spec(name) == seq![name[0]] + escape_spec(name.drop_first()));
        assert(s[0] == name[0]);
        assert(s[0] != '\\');
        assert(s[0] != '"');
        assert(s.drop_first() =~= escape_spec(name.drop_first()) + seq!['"'] + rest);
        assert(seq![name[0]] + name.drop_first() =~= name);
    }
}


proof fn lemma_parse_prop_line(d: StateDraft, name: Seq<char>, value: Seq<char>, tail: Seq<char>)
    requires
        name.len() >= 1,
        forall|j: int| 0 <= j < name.len() ==> name[j] != ' ',
        forall|j: int| 0 <= j < value.len() ==> value[j] != '\n',
        apply_prop(d, name, value) is Parsed,
    ensures
        parse_props(seq!['\t'] + (name + (" = "@ + (value + (seq!['\n'] + tail)))), d)
            == parse_props(tail, apply_prop(d, name, value)->Parsed_0),
{
    reveal_strlit(" = ");
    let s = seq!['\t'] + (name + (" = "@ + (value + (seq!['\n'] + tail))));
    assert(s[0] == '\t');
    assert(s.len() >= 1);
    let body = s.drop_first();
    assert(body =~= name + (" = "@ + (value + (seq!['\n'] + tail))));
    assert(forall|j: int| 0 <= j < name.len() ==> body[j] == name[j]);
    assert(body[name.len() as int] == ' ');
    lemma_take_until_char(body, ' ', name.len() as int);
    assert(body.subrange(0, name.len() as int) =~= name);
    let r1 = body.skip(name.len() as int);
    assert(r1 =~= " = "@ + (value + (seq!['\n'] + tail)));
    lemma_parse_lit_prefix(" = "@, value + (seq!['\n'] + tail));
    let r2 = value + (seq!['\n'] + tail);
    assert(forall|j: int| 0 <= j < value.len() ==> r2[j] == value[j]);
    assert(r2[value.len() as int] == '\n');
    lemma_take_until_char(r2, '\n', value.len() as int);
    assert(r2.subrange(0, value.len() as int) =~= value);
    let r3 = r2.skip(value.len() as int);
    assert(r3 =~= seq!['\n'] + tail);
    assert(r3.len() >= 1);
    assert(r3.drop_first() =~= tail);
    assert(tail.len() < s.len());
}

/// The fields of a state that the grammar controls, with every
/// optional property absent.
pub open spec fn controlled_of(st: IconStateView) -> IconStateView {
    IconStateView {
        name: st.name,
        dirs: st.dirs,
        frames: st.frames,
        delay: None,
        hotspot: None,
        loop_flag: None,
        movement_flag: None,
        rewind_flag: None,
    }
}

proof fn lemma_parse_props_render(st: IconStateView, rest: Seq<char>)
    requires
        rest.len() == 0 || rest[0] != '\t',
    ensures
        parse_props(render_props_spec(st) + rest, empty_draft()) == PRes::<StateDraft>::Parsed(
            StateDraft {
                dirs: Some(st.dirs),
                frames: Some(st.frames),
                delay: None,
                hotspot: None,
                loop_flag: None,
                movement_flag: None,
                rewind_flag: None,
            },
            rest,
        ),
{
    reveal_strlit("dirs");
    reveal_strlit("frames");
    lemma_dec_of_digits(st.dirs as nat);
    lemma_digits_val_dec(st.dirs as nat);
    lemma_dec_of_digits(st.frames as nat);
    lemma_digits_val_dec(st.frames as nat);
    let d_dirs = dec_of(st.dirs as nat);
    let d_frames = dec_of(st.frames as nat);
    let frames_line_tail = render_frames_line(st) + rest;
    assert(render_props_spec(st) + rest =~= seq!['\t'] + ("dirs"@ + (" = "@ + (d_dirs + (
    seq!['\n'] + frames_line_tail)))));
    assert(frames_line_tail =~= seq!['\t'] + ("frames"@ + (" = "@ + (d_frames + (seq!['\n']
        + rest)))));
    let d0 = empty_draft();
    assert(digits_ok(d_dirs));
    assert(apply_prop(d0, "dirs"@, d_dirs) is Parsed);
    assert(forall|j: int| 0 <= j < "dirs"@.len() ==> "dirs"@[j] != ' ');
    assert(forall|j: int| 0 <= j < d_dirs.len() ==> d_dirs[j] != '\n');
    lemma_parse_prop_line(d0, "dirs"@, d_dirs, frames_line_tail);
    let d1 = apply_prop(d0, "dirs"@, d_dirs)->Parsed_0;
    assert(d1.dirs == Some(st.dirs));
    assert(digits_ok(d_frames));
    assert(apply_prop(d1, "frames"@, d_frames) is Parsed);
    assert(forall|j: int| 0 <= j < "frames"@.len() ==> "frames"@[j] != ' ');
    assert(forall|j: int| 0 <= j < d_frames.len() ==> d_frames[j] != '\n');
    lemma_parse_prop_line(d1, "frames"@, d_frames, rest);
    assert(parse_props(frames_line_tail, d1) == parse_props(
        seq!['\t'] + ("frames"@ + (" = "@ + (d_frames + (seq!['\n'] + rest)))),
        d1,
    ));
    let d2 = apply_prop(d1, "frames"@, d_frames)->Parsed_0;
    assert(parse_props(rest, d2) == PRes::<StateDraft>::Parsed(d2, rest));
    assert(d2 == StateDraft {
        dirs: Some(st.dirs),
        frames: Some(st.frames),
        delay: None,
        hotspot: None,
        loop_flag: None,
        movement_flag: None,
        rewind_flag: None,
    });
}

proof fn lemma_parse_state_render(st: IconStateView, rest: Seq<char>)
    requires
        forall|j: int| 0 <= j < st.name.len() ==> st.name[j] != '\\',
        rest.len() == 0 || rest[0] != '\t',
    ensures
        parse_state(render_state_spec(st) + rest) == PRes::<IconStateView>::Parsed(
            controlled_of(st),
            rest,
        ),
{
    reveal_strlit("state = \"");
    reveal_strlit("\n");
    let s = render_state_spec(st) + rest;
    let props_rest = render_props_spec(st) + rest;
    let after_nl = render_props_spec(st);
    let after_quote = seq!['\n'] + after_nl;
    let after_name = seq!['"'] + (after_quote);
    let after_lit = escape_spec(st.name) + (after_name);
    assert(s =~= "state = \""@ + (escape_spec(st.name) + (seq!['"'] + (seq!['\n'] + (
    after_nl + rest)))));
    let tail0 = escape_spec(st.name) + (seq!['"'] + (seq!['\n'] + (after_nl + rest)));
    lemma_parse_lit_prefix("state = \""@, tail0);
    assert(parse_lit_spec(s, "state = \""@) == PRes::<()>::Parsed((), tail0)) by {
        assert(s == "state = \""@ + tail0);
    };
    assert(tail0 =~= escape_spec(st.name) + seq!['"'] + (seq!['\n'] + (after_nl + rest)));
    lemma_scan_escape(st.name, seq!['\n'] + (after_nl + rest));
    let r2 = seq!['\n'] + (after_nl + rest);
    assert("\n"@ =~= seq!['\n']) by {
        assert("\n"@.len() == 1);
        assert("\n"@[0] == '\n');
    };
    assert(r2 =~= "\n"@ + (after_nl + rest));
    lemma_parse_lit_prefix("\n"@, after_nl + rest);
    assert(parse_lit_spec(r2, "\n"@) == PRes::<()>::Parsed((), after_nl + rest)) by {
        assert(r2 == "\n"@ + (after_nl + rest));
    };
    lemma_parse_props_render(st, rest);
}

proof fn lemma_parse_states_render(states: Seq<IconStateView>, rest: Seq<char>)
    requires
        forall|k: int, j: int|
            0 <= k < states.len() && 0 <= j < states[k].name.len() ==> states[k].name[j]
                != '\\',
        rest.len() >= 1,
        rest[0] == '#',
    ensures
        ({
            let r = parse_states(render_states_spec(states) + rest);
            &&& r is Parsed
            &&& r->Parsed_1 == rest
            &&& r->Parsed_0.len() == states.len()
            &&& forall|k: int|
                0 <= k < states.len() ==> r->Parsed_0[k] == controlled_of(states[k])
        }),
    decreases states.len(),
{
    reveal_strlit("state = \"");
    let s = render_states_spec(states) + rest;
    if states.len() == 0 {
        assert(s =~= rest);
        assert(s[0] == '#');
        assert("state = \""@[0] == 's');
        assert(!starts_with(s, "state = \""@)) by {
            if starts_with(s, "state = \""@) {
                assert(s.subrange(0, "state = \""@.len() as int)[0] == s[0]);
            }
        };
    } else {
        let head = states[0];
        let tail = states.drop_first();
        let next = render_states_spec(tail) + rest;
        assert(s =~= render_state_spec(head) + next);
        assert(next.len() >= 1);
        if tail.len() == 0 {
            assert(next =~= rest);
            assert(next[0] == '#');
        } else {
            assert(render_state_spec(tail[0])[0] == 's');
            assert(next[0] == 's');
        }
        assert(next[0] != '\t');
        lemma_parse_state_render(head, next);
        assert(parse_state(s) == PRes::<IconStateView>::Parsed(controlled_of(head), next)) by {
            assert(s == render_state_spec(head) + next);
        };
        assert(starts_with(s, "state = \""@)) by {
            assert(s.subrange(0, "state = \""@.len() as int) =~= "state = \""@);
        };
        assert(next.len() < s.len()) by {
            assert(render_state_spec(head).len() >= "state = \""@.len());
        };
        lemma_parse_states_render(tail, rest);
        let r_tail = parse_states(next);
        assert(parse_states(s) == PRes::<Seq<IconStateView>>::Parsed(
            seq![controlled_of(head)] + r_tail->Parsed_0,
            r_tail->Parsed_1,
        ));
        assert forall|k: int| 0 <= k < states.len() implies (seq![controlled_of(head)]
            + r_tail->Parsed_0)[k] == controlled_of(states[k]) by {
            if k > 0 {
                assert(r_tail->Parsed_0[k - 1] == controlled_of(tail[k - 1]));
                assert(tail[k - 1] == states[k]);
            }
        }
    }
}

/// Round-trip law: a rendered document parses back to itself, for the
/// fields the grammar controls (version, width, height, and every
/// state's name, dirs and frames), whenever no state name contains a
/// backslash.
#[verifier::rlimit(100)]
pub proof fn lemma_parse_render_round_trip(m: DreamMakerIconMetadataView)
    requires
        forall|k: int, j: int|
            0 <= k < m.states.len() && 0 <= j < m.states[k].name.len() ==> m.states[k].name[j]
                != '\\',
    ensures
        ({
            let r = parse_document_spec(render_spec(m));
            &&& r is Ok
            &&& r->Ok_0.version_major == m.version_major
            &&& r->Ok_0.version_minor == m.version_minor
            &&& r->Ok_0.width == m.width
            &&& r->Ok_0.height == m.height
            &&& r->Ok_0.states.len() == m.states.len()
            &&& forall|k: int|
                0 <= k < m.states.len() ==> #[trigger] r->Ok_0.states[k] == controlled_of(
                    m.states[k],
                )
        }),
{
    reveal_strlit("# BEGIN DMI\n");
    reveal_strlit("version = ");
    reveal_strlit(".");
    reveal_strlit("\n");
    reveal_strlit("\twidth = ");
    reveal_strlit("\theight = ");
    reveal_strlit("# END DMI\n");
    let s = render_spec(m);
    let d_major = dec_of(m.version_major as nat);
    let d_minor = dec_of(m.version_minor as nat);
    let d_width = dec_of(m.width as nat);
    let d_height = dec_of(m.height as nat);
    let states_txt = render_states_spec(m.states);
    let r12 = render_tail_states(m);
    let r11 = "\n"@ + r12;
    let r10 = d_height + r11;
    let r9 = render_tail_height(m);
    let r8 = "\n"@ + r9;
    let r7 = d_width + r8;
    let r6 = render_tail_width(m);
    let r5 = "\n"@ + r6;
    let r4 = d_minor + r5;
    let r3 = "."@ + r4;
    let r2 = d_major + r3;
    let r1 = render_tail_version(m);
    assert(r9 == "\theight = "@ + r10);
    assert(r6 == "\twidth = "@ + r7);
    assert(r1 == "version = "@ + r2);
    assert(s == "# BEGIN DMI\n"@ + r1);
    lemma_parse_lit_prefix("# BEGIN DMI\n"@, r1);
    lemma_parse_lit_prefix("version = "@, r2);
    assert(r3[0] == '.');
    assert(!is_digit('.'));
    lemma_parse_u32_prefix(m.version_major as nat, r3);
    lemma_parse_lit_prefix("."@, r4);
    assert(r5[0] == '\n');
    assert(!is_digit('\n'));
    lemma_parse_u32_prefix(m.version_minor as nat, r5);
    lemma_parse_lit_prefix("\n"@, r6);
    assert(starts_with(r6, "\twidth = "@)) by {
        assert(r6.subrange(0, "\twidth = "@.len() as int) =~= "\twidth = "@);
    };
    lemma_parse_lit_prefix("\twidth = "@, r7);
    assert(r8[0] == '\n');
    lemma_parse_u32_prefix(m.width as nat, r8);
    lemma_parse_lit_prefix("\n"@, r9);
    assert(starts_with(r9, "\theight = "@)) by {
        assert(r9.subrange(0, "\theight = "@.len() as int) =~= "\theight = "@);
    };
    lemma_parse_lit_prefix("\theight = "@, r10);
    assert(r11[0] == '\n');
    lemma_parse_u32_prefix(m.height as nat, r11);
    lemma_parse_lit_prefix("\n"@, r12);
    assert("# END DMI\n"@.len() >= 1);
    assert("# END DMI\n"@[0] == '#');
    lemma_parse_states_render(m.states, "# END DMI\n"@);
    let rs = parse_states(r12);
    assert(rs->Parsed_1 == "# END DMI\n"@);
    assert("# END DMI\n"@ =~= "# END DMI\n"@ + Seq::<char>::empty());
    lemma_parse_lit_prefix("# END DMI\n"@, Seq::<char>::empty());
    assert(parse_lit_spec(rs->Parsed_1, "# END DMI\n"@) == PRes::<()>::Parsed(
        (),
        Seq::<char>::empty(),
    ));
}

} // verus!
