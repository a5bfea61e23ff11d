//! String sanitising for file names and terminal display.
use vstd::prelude::*;

verus! {

/// The Unicode `White_Space` property, which `char::is_whitespace` and
/// `str::trim` follow.
pub open spec fn is_white(c: char) -> bool {
    let u = c as u32;
    ||| 0x09 <= u <= 0x0D
    ||| u == 0x20
    ||| u == 0x85
    ||| u == 0xA0
    ||| u == 0x1680
    ||| 0x2000 <= u <= 0x200A
    ||| u == 0x2028
    ||| u == 0x2029
    ||| u == 0x202F
    ||| u == 0x205F
    ||| u == 0x3000
}

pub open spec fn is_ascii_char(c: char) -> bool {
    (c as u32) < 128
}

pub fn is_white_char(c: char) -> (r: bool)
    ensures
        r == is_white(c),
{
    let u = c as u32;
    (0x09 <= u && u <= 0x0D) || u == 0x20 || u == 0x85 || u == 0xA0 || u == 0x1680 || (0x2000
        <= u && u <= 0x200A) || u == 0x2028 || u == 0x2029 || u == 0x202F || u == 0x205F || u
        == 0x3000
}

pub fn is_ascii_code(c: char) -> (r: bool)
    ensures
        r == is_ascii_char(c),
{
    (c as u32) < 128
}

/// The first `len` characters of `s` (all of `s` when it is shorter).
pub open spec fn truncated(s: Seq<char>, len: Option<usize>) -> Seq<char> {
    match len {
        Some(l) => if s.len() <= l {
            s
        } else {
            s.take(l as int)
        },
        None => s,
    }
}

/// The end of the run of whitespace that starts at `i`.
pub open spec fn lead_end(s: Seq<char>, i: int) -> int
    decreases s.len() - i,
{
    if 0 <= i < s.len() && is_white(s[i]) {
        lead_end(s, i + 1)
    } else {
        i
    }
}

/// The start of the run of whitespace that ends at `j`, not going below `lo`.
pub open spec fn trail_start(s: Seq<char>, lo: int, j: int) -> int
    decreases j - lo,
{
    if lo < j <= s.len() && is_white(s[j - 1]) {
        trail_start(s, lo, j - 1)
    } else {
        j
    }
}

/// `s` without its leading and trailing whitespace.
pub open spec fn trimmed(s: Seq<char>) -> Seq<char> {
    let lo = lead_end(s, 0);
    s.subrange(lo, trail_start(s, lo, s.len() as int))
}

pub proof fn lemma_lead_end_bounds(s: Seq<char>, i: int)
    requires
        0 <= i <= s.len(),
    ensures
        i <= lead_end(s, i) <= s.len(),
    decreases s.len() - i,
{
    if i < s.len() && is_white(s[i]) {
        lemma_lead_end_bounds(s, i + 1);
    }
}

pub proof fn lemma_trail_start_bounds(s: Seq<char>, lo: int, j: int)
    requires
        0 <= lo <= j <= s.len(),
    ensures
        lo <= trail_start(s, lo, j) <= j,
    decreases j - lo,
{
    if lo < j && is_white(s[j - 1]) {
        lemma_trail_start_bounds(s, lo, j - 1);
    }
}

pub proof fn lemma_trimmed_len(s: Seq<char>)
    ensures
        trimmed(s).len() <= s.len(),
{
    lemma_lead_end_bounds(s, 0);
    lemma_trail_start_bounds(s, lead_end(s, 0), s.len() as int);
}

/// Each whitespace character of `s` replaced by `w`, when `w` is given.
pub open spec fn white_replaced(s: Seq<char>, w: Option<char>) -> Seq<char> {
    match w {
        Some(w) => s.map_values(|c: char| if is_white(c) { w } else { c }),
        None => s,
    }
}

/// Each non-ASCII character of `s` replaced by `a`, when `a` is given.
pub open spec fn non_ascii_replaced(s: Seq<char>, a: Option<char>) -> Seq<char> {
    match a {
        Some(a) => s.map_values(|c: char| if is_ascii_char(c) { c } else { a }),
        None => s,
    }
}

/// What is left of `s` once every match of the regular expression `pattern`
/// is removed.
pub uninterp spec fn matches_removed(pattern: Seq<char>, s: Seq<char>) -> Seq<char>;

pub open spec fn stripped(s: Seq<char>, pattern: Option<Seq<char>>) -> Seq<char> {
    match pattern {
        Some(p) => matches_removed(p, s),
        None => s,
    }
}

/// The sanitised form of `value`: with no option given, `value` itself;
/// otherwise truncate, remove the pattern's matches, trim, and substitute
/// (whitespace first, then non-ASCII) where a substitute is given.
pub open spec fn sanitized(
    value: Seq<char>,
    ascii: Option<char>,
    white: Option<char>,
    pattern: Option<Seq<char>>,
    len: Option<usize>,
) -> Seq<char> {
    let t = stripped(truncated(value, len), pattern);
    if ascii is None && white is None && pattern is None && len is None {
        t
    } else {
        non_ascii_replaced(white_replaced(trimmed(t), white), ascii)
    }
}

pub open spec fn opt_char(o: Option<&char>) -> Option<char> {
    match o {
        Some(c) => Some(*c),
        None => None,
    }
}

pub open spec fn opt_pattern(o: Option<&StripPattern>) -> Option<Seq<char>> {
    match o {
        Some(p) => Some(p@),
        None => None,
    }
}

/// A compiled regular expression together with its source text. The
/// fields are private: `new` is the one place that fills them, from the
/// same text.
pub struct StripPattern {
    source: String,
    re: regex::Regex,
}

#[verifier::external_type_specification]
#[verifier::external_body]
pub struct ExRegex(regex::Regex);

impl View for StripPattern {
    type V = Seq<char>;

    closed spec fn view(&self) -> Seq<char> {
        self.source@
    }
}

/// Whether `pattern` is a regular expression that `regex::Regex::new`
/// accepts.
pub uninterp spec fn regex_compiles(pattern: Seq<char>) -> bool;

/// Relies on `regex::Regex::new`: compiles `pattern`, or fails on invalid
/// syntax or a pattern over the default size limit, which depends on the
/// pattern alone.
#[verifier::external_body]
fn compile_regex(pattern: &str) -> (r: Option<regex::Regex>)
    ensures
        r is Some <==> regex_compiles(pattern@),
{
    regex::Regex::new(pattern).ok()
}

/// Relies on `regex::Regex::replace_all` with an empty replacement: every
/// non-overlapping match is removed, which never lengthens the text.
#[verifier::external_body]
fn remove_matches(p: &StripPattern, s: &str) -> (r: String)
    ensures
        r@ == matches_removed(p@, s@),
        r@.len() <= s@.len(),
{
    p.re.replace_all(s, "").into_owned()
}

/// The lowercase form of `s`, as `str::to_lowercase` gives it.
pub uninterp spec fn lower_of(s: Seq<char>) -> Seq<char>;

/// Relies on `str::to_lowercase`: the result depends on the characters alone.
#[verifier::external_body]
pub(crate) fn to_lower(s: &str) -> (r: String)
    ensures
        r@ == lower_of(s@),
{
    s.to_lowercase()
}

/// Relies on `String::push`: appends one character.
#[verifier::external_body]
pub(crate) fn push_char(s: &mut String, c: char)
    ensures
        final(s)@ == old(s)@.push(c),
{
    s.push(c)
}

impl StripPattern {
    /// Compiles `pattern`; `None` when it is not a valid regular expression.
    pub fn new(pattern: &str) -> (r: Option<StripPattern>)
        ensures
            r is Some <==> regex_compiles(pattern@),
            r is Some ==> r->Some_0@ == pattern@,
    {
        match compile_regex(pattern) {
            Some(re) => Some(StripPattern { source: String::from_str(pattern), re }),
            None => None,
        }
    }

    pub fn as_str(&self) -> (r: &str)
        ensures
            r@ == self@,
    {
        self.source.as_str()
    }
}

/// The characters of `s`, one by one.
pub fn chars_of(s: &str) -> (r: Vec<char>)
    ensures
        r@ == s@,
{
    let n = s.unicode_len();
    let mut r: Vec<char> = Vec::new();
    let mut i: usize = 0;
    while i < n
        invariant
            n == s@.len(),
            i <= n,
            r@ == s@.take(i as int),
        decreases n - i,
    {
        r.push(s.get_char(i));
        i += 1;
        assert(r@ =~= s@.take(i as int));
    }
    assert(r@ =~= s@);
    r
}

/// The characters `v[from..to]` as a string.
pub fn string_of(v: &Vec<char>, from: usize, to: usize) -> (r: String)
    requires
        from <= to <= v@.len(),
    ensures
        r@ == v@.subrange(from as int, to as int),
{
    let mut r = String::new();
    let mut i: usize = from;
    while i < to
        invariant
            from <= i <= to <= v@.len(),
            r@ == v@.subrange(from as int, i as int),
        decreases to - i,
    {
        push_char(&mut r, v[i]);
        i += 1;
        assert(r@ =~= v@.subrange(from as int, i as int));
    }
    r
}

/// The bounds of `v` without its leading and trailing whitespace.
pub fn trim_bounds(v: &Vec<char>) -> (r: (usize, usize))
    ensures
        r.0 == lead_end(v@, 0),
        r.1 == trail_start(v@, r.0 as int, v@.len() as int),
        r.0 <= r.1 <= v@.len(),
{
    let n = v.len();
    let mut lo: usize = 0;
    while lo < n && is_white_char(v[lo])
        invariant
            lo <= n == v@.len(),
            lead_end(v@, lo as int) == lead_end(v@, 0),
        decreases n - lo,
    {
        lo += 1;
    }
    let mut hi: usize = n;
    while hi > lo && is_white_char(v[hi - 1])
        invariant
            lo <= hi <= n == v@.len(),
            lo == lead_end(v@, 0),
            trail_start(v@, lo as int, hi as int) == trail_start(v@, lo as int, n as int),
        decreases hi,
    {
        hi -= 1;
    }
    (lo, hi)
}

/// Truncates `value` to `len` characters, removes every match of `regex`,
/// trims the ends, and replaces whitespace with `whitespace` and then
/// non-ASCII characters with `ascii` where those are given. With no option
/// given, `value` comes back untouched.
pub fn process_string(
    value: &str,
    ascii: Option<&char>,
    whitespace: Option<&char>,
    regex: Option<&StripPattern>,
    len: Option<usize>,
) -> (r: String)
    ensures
        r@ == sanitized(value@, opt_char(ascii), opt_char(whitespace), opt_pattern(regex), len),
        len is Some ==> r@.len() <= len->Some_0,
{
    let chars = chars_of(value);
    let n = match len {
        Some(l) => if chars.len() <= l {
            chars.len()
        } else {
            l
        },
        None => chars.len(),
    };
    let cut = string_of(&chars, 0, n);
    assert(cut@ =~= truncated(value@, len));
    let t = match regex {
        Some(p) => remove_matches(p, cut.as_str()),
        None => cut,
    };
    assert(t@.len() <= cut@.len());
    if ascii.is_none() && whitespace.is_none() && regex.is_none() && len.is_none() {
        return t;
    }
    let cs = chars_of(t.as_str());
    let (lo, hi) = trim_bounds(&cs);
    let ghost tr = cs@.subrange(lo as int, hi as int);
    let ghost target = non_ascii_replaced(white_replaced(tr, opt_char(whitespace)), opt_char(ascii));
    let mut out = String::new();
    let mut i: usize = lo;
    while i < hi
        invariant
            lo <= i <= hi <= cs@.len(),
            tr == cs@.subrange(lo as int, hi as int),
            target == non_ascii_replaced(white_replaced(tr, opt_char(whitespace)), opt_char(ascii)),
            target.len() == tr.len(),
            out@ == target.take(i - lo),
        decreases hi - i,
    {
        let mut c = cs[i];
        match whitespace {
            Some(w) => if is_white_char(c) {
                c = *w;
            },
            None => {},
        }
        match ascii {
            Some(a) => if !is_ascii_code(c) {
                c = *a;
            },
            None => {},
        }
        assert(c == target[i - lo]);
        push_char(&mut out, c);
        i += 1;
        assert(out@ =~= target.take(i - lo));
    }
    assert(out@ =~= target);
    proof {
        lemma_trimmed_len(t@);
    }
    out
}

/// An ASCII stand-in for an IPA character, or `substitute` (`'_'` when not
/// given) where none is known.
pub fn ipa2ascii(token: &char, substitute: Option<&char>) -> (r: char)
    ensures
        *token == 'a' ==> r == 'b',
        *token != 'a' ==> r == match substitute {
            Some(s) => *s,
            None => '_',
        },
{
    if *token == 'a' {
        'b'
    } else {
        match substitute {
            Some(s) => *s,
            None => '_',
        }
    }
}

/// With a maximum length `n`, the truncated text holds at most `n`
/// characters; trimming and substituting never lengthen it. (Removing a
/// pattern's matches does not either: `process_string` states the bound
/// for that case.)
pub proof fn law_truncation_bound(
    s: Seq<char>,
    ascii: Option<char>,
    white: Option<char>,
    pattern: Option<Seq<char>>,
    n: usize,
)
    ensures
        truncated(s, Some(n)).len() <= n,
        pattern is None ==> sanitized(s, ascii, white, pattern, Some(n)).len() <= n,
{
    let t = stripped(truncated(s, Some(n)), pattern);
    lemma_trimmed_len(t);
}

/// With no option given, sanitising is the identity.
pub proof fn law_no_options_identity(s: Seq<char>)
    ensures
        sanitized(s, None, None, None, None) == s,
{
}

} // verus!
