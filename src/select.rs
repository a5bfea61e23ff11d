//! Decisions of the interactive prompts: what a line typed by the user
//! selects.
use vstd::prelude::*;
use crate::text::{chars_of, is_white_char, lower_of, string_of, to_lower, trail_start, trimmed, trim_bounds};

verus! {

pub open spec fn is_digit(c: char) -> bool {
    '0' <= c <= '9'
}

pub open spec fn digit_value(c: char) -> int {
    (c as u32) - ('0' as u32)
}

/// The number that the decimal digits `s` spell.
pub open spec fn digits_value(s: Seq<char>) -> int
    decreases s.len(),
{
    if s.len() == 0 {
        0
    } else {
        digits_value(s.drop_last()) * 10 + digit_value(s.last())
    }
}

pub open spec fn all_digits(s: Seq<char>) -> bool {
    forall|i: int| 0 <= i < s.len() ==> is_digit(#[trigger] s[i])
}

/// What `str::parse::<usize>` makes of `s`: an optional `+`, then one or
/// more ASCII digits whose value fits in a `usize`.
pub open spec fn parsed_usize(s: Seq<char>) -> Option<usize> {
    let t = if s.len() > 0 && s[0] == '+' { s.drop_first() } else { s };
    if t.len() > 0 && all_digits(t) && digits_value(t) <= usize::MAX {
        Some(digits_value(t) as usize)
    } else {
        None
    }
}

/// `s` without its trailing whitespace.
pub open spec fn trimmed_end(s: Seq<char>) -> Seq<char> {
    s.take(trail_start(s, 0, s.len() as int))
}

pub proof fn lemma_digits_value_grows(s: Seq<char>, i: int)
    requires
        0 <= i <= s.len(),
        all_digits(s),
    ensures
        0 <= digits_value(s.take(i)) <= digits_value(s),
    decreases s.len() - i,
{
    if i < s.len() {
        lemma_digits_value_grows(s, i + 1);
        assert(s.take(i + 1).drop_last() =~= s.take(i));
        lemma_digits_value_nonneg(s.take(i));
    } else {
        assert(s.take(i) =~= s);
        lemma_digits_value_nonneg(s);
    }
}

pub proof fn lemma_digits_value_nonneg(s: Seq<char>)
    requires
        all_digits(s),
    ensures
        0 <= digits_value(s),
    decreases s.len(),
{
    if s.len() > 0 {
        lemma_digits_value_nonneg(s.drop_last());
    }
}

/// Parses `v[from..to]` as the digits of a `usize`.
fn parse_digits(v: &Vec<char>, from: usize, to: usize) -> (r: Option<usize>)
    requires
        from <= to <= v@.len(),
    ensures
        ({
            let t = v@.subrange(from as int, to as int);
            r == if t.len() > 0 && all_digits(t) && digits_value(t) <= usize::MAX {
                Some(digits_value(t) as usize)
            } else {
                None
            }
        }),
{
    let ghost t = v@.subrange(from as int, to as int);
    if from == to {
        return None;
    }
    let mut i: usize = from;
    let mut acc: usize = 0;
    while i < to
        invariant
            from <= i <= to <= v@.len(),
            t == v@.subrange(from as int, to as int),
            all_digits(t.take(i - from)),
            acc == digits_value(t.take(i - from)),
        decreases to - i,
    {
        let c = v[i];
        assert(t[i - from] == c);
        if !('0' <= c && c <= '9') {
            assert(!all_digits(t));
            return None;
        }
        let d = (c as u32 - '0' as u32) as usize;
        assert(t.take(i - from + 1).drop_last() =~= t.take(i - from));
        if acc > (usize::MAX - d) / 10 {
            proof {
                assert(all_digits(t.take(i - from + 1)));
                assert(digits_value(t.take(i - from + 1)) == acc * 10 + d);
                assert(acc * 10 + d > usize::MAX) by (nonlinear_arith)
                    requires
                        acc > (usize::MAX - d) / 10,
                        d <= 9,
                ;
                if all_digits(t) {
                    lemma_digits_value_grows(t, i - from + 1);
                }
            }
            return None;
        }
        assert(acc * 10 + d <= usize::MAX) by (nonlinear_arith)
            requires
                acc <= (usize::MAX - d) / 10,
                d <= 9,
        ;
        acc = acc * 10 + d;
        i += 1;
    }
    assert(t.take(to - from) =~= t);
    Some(acc)
}

/// Parses a line as `str::parse::<usize>` does, after removing its trailing
/// whitespace.
pub fn parse_index(line: &str) -> (r: Option<usize>)
    ensures
        r == parsed_usize(trimmed_end(line@)),
{
    let v = chars_of(line);
    let mut hi: usize = v.len();
    while hi > 0 && is_white_char(v[hi - 1])
        invariant
            hi <= v@.len(),
            trail_start(v@, 0, hi as int) == trail_start(v@, 0, v@.len() as int),
        decreases hi,
    {
        hi -= 1;
    }
    let ghost s = trimmed_end(line@);
    assert(s =~= v@.subrange(0, hi as int));
    if hi > 0 && v[0] == '+' {
        assert(s.drop_first() =~= v@.subrange(1, hi as int));
        parse_digits(&v, 1, hi)
    } else {
        parse_digits(&v, 0, hi)
    }
}

/// What a line typed at the tier prompt selects.
#[derive(PartialEq, Eq, Structural, Debug, Clone, Copy)]
pub enum TierPick {
    /// the tier at this 0-based position
    Chosen(usize),
    NotANumber,
    NoSuchTier,
    /// the tier at this 0-based position, or one of its parents, is tokenized
    Tokenized(usize),
}

pub open spec fn tier_pick(line: Seq<char>, tokenized: Seq<bool>, reject_tokenized: bool) -> TierPick {
    match parsed_usize(trimmed_end(line)) {
        None => TierPick::NotANumber,
        Some(i) => if i == 0 || i > tokenized.len() {
            TierPick::NoSuchTier
        } else if reject_tokenized && tokenized[i - 1] {
            TierPick::Tokenized((i - 1) as usize)
        } else {
            TierPick::Chosen((i - 1) as usize)
        },
    }
}

/// Reads a 1-based tier number from `line`; `tokenized[i]` tells whether
/// the tier at 0-based position `i`, or one of its parents, is tokenized.
pub fn pick_tier(line: &str, tokenized: &[bool], reject_tokenized: bool) -> (r: TierPick)
    ensures
        r == tier_pick(line@, tokenized@, reject_tokenized),
{
    match parse_index(line) {
        None => TierPick::NotANumber,
        Some(i) => if i == 0 || i > tokenized.len() {
            TierPick::NoSuchTier
        } else if reject_tokenized && tokenized[i - 1] {
            TierPick::Tokenized(i - 1)
        } else {
            TierPick::Chosen(i - 1)
        },
    }
}

/// What a line typed at the annotation prompt selects.
#[derive(PartialEq, Eq, Structural, Debug, Clone, Copy)]
pub enum AnnotationPick {
    /// the annotation at this 0-based position
    Chosen(usize),
    NotANumber,
    NoSuchAnnotation,
    /// the annotation at this 0-based position has no time values
    NoTimestamp(usize),
}

pub open spec fn annotation_pick(line: Seq<char>, timed: Seq<bool>, require_times: bool) -> AnnotationPick {
    match parsed_usize(trimmed_end(line)) {
        None => AnnotationPick::NotANumber,
        Some(i) => if i == 0 || i > timed.len() {
            AnnotationPick::NoSuchAnnotation
        } else if require_times && !timed[i - 1] {
            AnnotationPick::NoTimestamp((i - 1) as usize)
        } else {
            AnnotationPick::Chosen((i - 1) as usize)
        },
    }
}

/// Reads a 1-based annotation number from `line`; `timed[i]` tells whether
/// the annotation at 0-based position `i` has time values.
pub fn pick_annotation(line: &str, timed: &[bool], require_times: bool) -> (r: AnnotationPick)
    ensures
        r == annotation_pick(line@, timed@, require_times),
{
    match parse_index(line) {
        None => AnnotationPick::NotANumber,
        Some(i) => if i == 0 || i > timed.len() {
            AnnotationPick::NoSuchAnnotation
        } else if require_times && !timed[i - 1] {
            AnnotationPick::NoTimestamp(i - 1)
        } else {
            AnnotationPick::Chosen(i - 1)
        },
    }
}

/// The answer that a trimmed, lowercase reply gives: yes for `y` or `yes`,
/// no for `n` or `no`, none otherwise.
pub open spec fn answer_of(t: Seq<char>) -> Option<bool> {
    if t == seq!['y'] || t == seq!['y', 'e', 's'] {
        Some(true)
    } else if t == seq!['n'] || t == seq!['n', 'o'] {
        Some(false)
    } else {
        None
    }
}

fn is_word(t: &Vec<char>, w: &str) -> (r: bool)
    ensures
        r == (t@ == w@),
{
    let wv = chars_of(w);
    if t.len() != wv.len() {
        return false;
    }
    let mut i: usize = 0;
    while i < t.len()
        invariant
            i <= t@.len() == wv@.len(),
            wv@ == w@,
            forall|k: int| 0 <= k < i ==> t@[k] == wv@[k],
        decreases t@.len() - i,
    {
        if t[i] != wv[i] {
            assert(t@[i as int] != wv@[i as int]);
            return false;
        }
        i += 1;
    }
    assert(t@ =~= wv@);
    true
}

/// The answer in a reply that is already in lowercase.
pub fn answer_lowered(lowered: &str) -> (r: Option<bool>)
    ensures
        r == answer_of(trimmed(lowered@)),
{
    let v = chars_of(lowered);
    let (lo, hi) = trim_bounds(&v);
    let t = chars_of(string_of(&v, lo, hi).as_str());
    proof {
        reveal_strlit("y");
        reveal_strlit("yes");
        reveal_strlit("n");
        reveal_strlit("no");
        assert("y"@ =~= seq!['y']);
        assert("yes"@ =~= seq!['y', 'e', 's']);
        assert("n"@ =~= seq!['n']);
        assert("no"@ =~= seq!['n', 'o']);
        assert(t@ =~= trimmed(lowered@));
    }
    if is_word(&t, "y") || is_word(&t, "yes") {
        Some(true)
    } else if is_word(&t, "n") || is_word(&t, "no") {
        Some(false)
    } else {
        None
    }
}

/// The answer in a reply to a yes/no question, in any case and with any
/// surrounding whitespace.
pub fn confirm_reply(line: &str) -> (r: Option<bool>)
    ensures
        r == answer_of(trimmed(lower_of(line@))),
{
    answer_lowered(to_lower(line).as_str())
}

} // verus!
