//! JSON strings and integers: how they are written, and how they are read
//! back.
use vstd::prelude::*;
use crate::numfmt::{dec, digit_char, push_signed, signed_dec};
use crate::select::{all_digits, digit_value, digits_value, is_digit, lemma_digits_value_grows, lemma_digits_value_nonneg};
use crate::text::push_char;

verus! {

pub open spec fn hex_char(d: int) -> char {
    seq!['0', '1', '2', '3', '4', '5', '6', '7', '8', '9', 'a', 'b', 'c', 'd', 'e', 'f'][d]
}

/// The escaped form of one character inside a JSON string.
pub open spec fn esc_char(c: char) -> Seq<char> {
    if c == '"' {
        seq!['\\', '"']
    } else if c == '\\' {
        seq!['\\', '\\']
    } else if (c as u32) < 0x20 {
        seq!['\\', 'u', '0', '0', hex_char(((c as u32) / 16) as int), hex_char(((c as u32) % 16) as int)]
    } else {
        seq![c]
    }
}

pub open spec fn esc_body(s: Seq<char>) -> Seq<char>
    decreases s.len(),
{
    if s.len() == 0 {
        Seq::empty()
    } else {
        esc_char(s[0]) + esc_body(s.drop_first())
    }
}

/// `s` as a JSON string literal.
pub open spec fn enc_str(s: Seq<char>) -> Seq<char> {
    seq!['"'] + esc_body(s) + seq!['"']
}

pub open spec fn hex_val(c: char) -> Option<int> {
    if '0' <= c <= '9' {
        Some((c as u32) - ('0' as u32))
    } else if 'a' <= c <= 'f' {
        Some((c as u32) - ('a' as u32) + 10)
    } else if 'A' <= c <= 'F' {
        Some((c as u32) - ('A' as u32) + 10)
    } else {
        None
    }
}

pub open spec fn is_scalar_value(v: int) -> bool {
    (0 <= v <= 0xD7FF) || (0xE000 <= v <= 0x10FFFF)
}

/// The character that the escape `t` (what follows a backslash) stands
/// for, and how many characters the escape takes.
#[verifier::opaque]
pub open spec fn unesc(t: Seq<char>) -> Option<(char, int)> {
    if t.len() == 0 {
        None
    } else if t[0] == '"' {
        Some(('"', 1))
    } else if t[0] == '\\' {
        Some(('\\', 1))
    } else if t[0] == '/' {
        Some(('/', 1))
    } else if t[0] == 'b' {
        Some(('\u{8}', 1))
    } else if t[0] == 'f' {
        Some(('\u{c}', 1))
    } else if t[0] == 'n' {
        Some(('\n', 1))
    } else if t[0] == 'r' {
        Some(('\r', 1))
    } else if t[0] == 't' {
        Some(('\t', 1))
    } else if t[0] == 'u' && t.len() >= 5 && hex_val(t[1]) is Some && hex_val(t[2]) is Some
        && hex_val(t[3]) is Some && hex_val(t[4]) is Some {
        let v = hex_val(t[1])->Some_0 * 4096 + hex_val(t[2])->Some_0 * 256 + hex_val(t[3])->Some_0
            * 16 + hex_val(t[4])->Some_0;
        if is_scalar_value(v) {
            Some(((v as u32) as char, 5))
        } else {
            None
        }
    } else {
        None
    }
}

/// The text of a JSON string whose opening quote is already read, and how
/// many characters it takes up to and including the closing quote.
#[verifier::opaque]
pub open spec fn dec_body(t: Seq<char>) -> Option<(Seq<char>, int)>
    decreases t.len(),
{
    if t.len() == 0 {
        None
    } else if t[0] == '"' {
        Some((Seq::empty(), 1))
    } else if t[0] == '\\' {
        match unesc(t.skip(1)) {
            Some((c, k)) => if 0 < k && 1 + k <= t.len() {
                match dec_body(t.skip(1 + k)) {
                    Some((s, m)) => Some((seq![c] + s, 1 + k + m)),
                    None => None,
                }
            } else {
                None
            },
            None => None,
        }
    } else if (t[0] as u32) < 0x20 {
        None
    } else {
        match dec_body(t.skip(1)) {
            Some((s, m)) => Some((seq![t[0]] + s, 1 + m)),
            None => None,
        }
    }
}

/// The JSON string at the start of `t`, and its length in `t`.
pub open spec fn dec_str(t: Seq<char>) -> Option<(Seq<char>, int)> {
    if t.len() > 0 && t[0] == '"' {
        match dec_body(t.skip(1)) {
            Some((s, k)) => Some((s, k + 1)),
            None => None,
        }
    } else {
        None
    }
}

proof fn lemma_esc_body_append(a: Seq<char>, b: Seq<char>)
    ensures
        esc_body(a + b) == esc_body(a) + esc_body(b),
    decreases a.len(),
{
    if a.len() == 0 {
        assert(a + b =~= b);
        assert(esc_body(a) =~= Seq::<char>::empty());
        assert(esc_body(a) + esc_body(b) =~= esc_body(b));
    } else {
        assert((a + b).drop_first() =~= a.drop_first() + b);
        lemma_esc_body_append(a.drop_first(), b);
        assert(esc_body(a + b) =~= esc_char(a[0]) + esc_body(a.drop_first() + b));
    }
}

proof fn lemma_esc_body_take(s: Seq<char>, i: int)
    requires
        0 <= i < s.len(),
    ensures
        esc_body(s.take(i + 1)) == esc_body(s.take(i)) + esc_char(s[i]),
{
    assert(s.take(i + 1) =~= s.take(i) + seq![s[i]]);
    lemma_esc_body_append(s.take(i), seq![s[i]]);
    let one = seq![s[i]];
    assert(one.drop_first() =~= Seq::<char>::empty());
    assert(esc_body(one) == esc_char(one[0]) + esc_body(one.drop_first()));
    assert(esc_body(one.drop_first()) == Seq::<char>::empty());
    assert(esc_body(one) =~= esc_char(s[i]));
}

proof fn lemma_hex_roundtrip(d: int)
    requires
        0 <= d < 16,
    ensures
        hex_val(hex_char(d)) == Some(d),
{
}

proof fn lemma_unesc_of_esc(c: char, x: Seq<char>)
    requires
        c == '"' || c == '\\' || (c as u32) < 0x20,
    ensures
        unesc(esc_char(c).skip(1) + x) == Some((c, esc_char(c).len() - 1)),
{
    reveal(unesc);
    let w = esc_char(c).skip(1) + x;
    if c == '"' || c == '\\' {
        assert(w[0] == c);
    } else {
        let u = c as u32;
        lemma_hex_roundtrip((u / 16) as int);
        lemma_hex_roundtrip((u % 16) as int);
        assert(w[0] == 'u');
        assert(w[1] == '0' && w[2] == '0');
        assert(hex_val(w[3]) == Some((u / 16) as int));
        assert(hex_val(w[4]) == Some((u % 16) as int));
        assert(0 * 4096 + 0 * 256 + (u / 16) as int * 16 + (u % 16) as int == u as int);
        vstd::utf8::char_u32_cast(c, u);
    }
}

/// Reading back an escaped body gives the text, whatever follows it.
pub proof fn lemma_dec_body_esc(s: Seq<char>, rest: Seq<char>)
    ensures
        dec_body(esc_body(s) + seq!['"'] + rest) == Some((s, esc_body(s).len() + 1int)),
    decreases s.len(),
{
    let t = esc_body(s) + seq!['"'] + rest;
    if s.len() == 0 {
        assert(esc_body(s) =~= Seq::<char>::empty());
        assert(t[0] == '"');
        assert(s =~= Seq::<char>::empty());
        lemma_body_cases(t);
    } else {
        let c = s[0];
        let tail = s.drop_first();
        let x = esc_body(tail) + seq!['"'] + rest;
        lemma_dec_body_esc(tail, rest);
        let e = esc_char(c);
        assert(esc_body(s) == e + esc_body(tail));
        assert(t =~= e + x);
        assert(t.skip(e.len() as int) =~= x);
        assert(seq![c] + tail =~= s);
        if c == '"' || c == '\\' || (c as u32) < 0x20 {
            assert(t.skip(1) =~= e.skip(1) + x);
            lemma_unesc_of_esc(c, x);
            lemma_body_escape(t, c, e.len() - 1);
        } else {
            assert(t[0] == c);
            lemma_body_plain(t);
        }
    }
}

/// Reading back an encoded string gives the text, whatever follows it.
pub proof fn lemma_dec_str_enc(s: Seq<char>, rest: Seq<char>)
    ensures
        dec_str(enc_str(s) + rest) == Some((s, enc_str(s).len() as int)),
{
    let t = enc_str(s) + rest;
    assert(t.skip(1) =~= esc_body(s) + seq!['"'] + rest);
    lemma_dec_body_esc(s, rest);
}

/// Relies on `char::from_u32`: the character with the given code, for a
/// Unicode scalar value.
#[verifier::external_body]
fn char_from_code(v: u32) -> (r: Option<char>)
    ensures
        r is Some <==> is_scalar_value(v as int),
        r is Some ==> r->Some_0 == v as char,
{
    char::from_u32(v)
}

fn hex_value(c: char) -> (r: Option<u32>)
    ensures
        r is Some <==> hex_val(c) is Some,
        r is Some ==> r->Some_0 as int == hex_val(c)->Some_0,
        r is Some ==> r->Some_0 < 16,
{
    if '0' <= c && c <= '9' {
        Some(c as u32 - '0' as u32)
    } else if 'a' <= c && c <= 'f' {
        Some(c as u32 - 'a' as u32 + 10)
    } else if 'A' <= c && c <= 'F' {
        Some(c as u32 - 'A' as u32 + 10)
    } else {
        None
    }
}

fn hex_digit_char(d: u32) -> (c: char)
    requires
        d < 16,
    ensures
        c == hex_char(d as int),
{
    let table = ['0', '1', '2', '3', '4', '5', '6', '7', '8', '9', 'a', 'b', 'c', 'd', 'e', 'f'];
    let c = table[d as usize];
    assert(table@ =~= seq!['0', '1', '2', '3', '4', '5', '6', '7', '8', '9', 'a', 'b', 'c', 'd', 'e', 'f']);
    c
}

/// The escape that starts at `v[j]`, after a backslash.
fn unescape(v: &Vec<char>, j: usize) -> (r: Option<(char, usize)>)
    requires
        j <= v@.len(),
    ensures
        match unesc(v@.skip(j as int)) {
            Some((c, k)) => r == Some((c, k as usize)),
            None => r is None,
        },
{
    let ghost t = v@.skip(j as int);
    proof {
        reveal(unesc);
    }
    if j >= v.len() {
        return None;
    }
    let c = v[j];
    assert(t[0] == c);
    if c == '"' {
        Some(('"', 1))
    } else if c == '\\' {
        Some(('\\', 1))
    } else if c == '/' {
        Some(('/', 1))
    } else if c == 'b' {
        Some(('\u{8}', 1))
    } else if c == 'f' {
        Some(('\u{c}', 1))
    } else if c == 'n' {
        Some(('\n', 1))
    } else if c == 'r' {
        Some(('\r', 1))
    } else if c == 't' {
        Some(('\t', 1))
    } else if c == 'u' && v.len() - j >= 5 {
        assert(t[1] == v@[j + 1] && t[2] == v@[j + 2] && t[3] == v@[j + 3] && t[4] == v@[j + 4]);
        let h1 = hex_value(v[j + 1]);
        let h2 = hex_value(v[j + 2]);
        let h3 = hex_value(v[j + 3]);
        let h4 = hex_value(v[j + 4]);
        match (h1, h2, h3, h4) {
            (Some(a), Some(b), Some(c2), Some(d)) => {
                let code = a * 4096 + b * 256 + c2 * 16 + d;
                match char_from_code(code) {
                    Some(ch) => Some((ch, 5)),
                    None => None,
                }
            },
            _ => None,
        }
    } else {
        None
    }
}

pub open spec fn shifted(a: Seq<char>, d: int, r: Option<(Seq<char>, int)>) -> Option<(Seq<char>, int)> {
    match r {
        Some((s, k)) => Some((a + s, k + d)),
        None => None,
    }
}

proof fn lemma_unesc_len(t: Seq<char>)
    ensures
        unesc(t) matches Some((c, k)) ==> 0 < k <= t.len(),
{
    reveal(unesc);
}

proof fn lemma_body_cases(t: Seq<char>)
    ensures
        t.len() == 0 ==> dec_body(t) is None,
        t.len() > 0 && t[0] == '"' ==> dec_body(t) == Some((Seq::<char>::empty(), 1int)),
        t.len() > 0 && t[0] != '"' && t[0] != '\\' && (t[0] as u32) < 0x20 ==> dec_body(t) is None,
        t.len() > 0 && t[0] == '\\' && unesc(t.skip(1)) is None ==> dec_body(t) is None,
{
    reveal(dec_body);
}

proof fn lemma_body_plain(t: Seq<char>)
    requires
        t.len() > 0,
        t[0] != '"',
        t[0] != '\\',
        (t[0] as u32) >= 0x20,
    ensures
        dec_body(t) == shifted(seq![t[0]], 1, dec_body(t.skip(1))),
{
    reveal(dec_body);
    match dec_body(t.skip(1)) {
        Some((s, m)) => {},
        None => {},
    }
}

proof fn lemma_body_escape(t: Seq<char>, d: char, k: int)
    requires
        t.len() > 0,
        t[0] == '\\',
        unesc(t.skip(1)) == Some((d, k)),
    ensures
        0 < k && 1 + k <= t.len(),
        dec_body(t) == shifted(seq![d], 1 + k, dec_body(t.skip(1 + k))),
{
    reveal(dec_body);
    lemma_unesc_len(t.skip(1));
    match dec_body(t.skip(1 + k)) {
        Some((s, m)) => {},
        None => {},
    }
}

proof fn lemma_shift_compose(a: Seq<char>, d: int, b: Seq<char>, e: int, r: Option<(Seq<char>, int)>)
    ensures
        shifted(a, d, shifted(b, e, r)) == shifted(a + b, d + e, r),
{
    match r {
        Some((s, k)) => {
            assert(a + (b + s) =~= (a + b) + s);
        },
        None => {},
    }
}

/// The JSON string that starts at `v[pos]`, and the position after it.
pub fn parse_str(v: &Vec<char>, pos: usize) -> (r: Option<(String, usize)>)
    requires
        pos <= v@.len(),
    ensures
        match dec_str(v@.skip(pos as int)) {
            Some((s, k)) => r is Some && r->Some_0.0@ == s && r->Some_0.1 == pos + k,
            None => r is None,
        },
        r is Some ==> pos < r->Some_0.1 <= v@.len(),
{
    if pos >= v.len() || v[pos] != '"' {
        return None;
    }
    assert(v@.skip(pos as int).skip(1) =~= v@.skip(pos + 1));
    let start = pos + 1;
    let mut i: usize = start;
    let mut acc = String::new();
    assert(shifted(acc@, 0, dec_body(v@.skip(i as int))) == dec_body(v@.skip(start as int))) by {
        match dec_body(v@.skip(i as int)) {
            Some((s, k)) => {
                assert(acc@ + s =~= s);
            },
            None => {},
        }
    }
    loop
        invariant
            start <= i <= v@.len(),
            start == pos + 1,
            pos < v@.len(),
            v@[pos as int] == '"',
            v@.skip(pos as int).skip(1) == v@.skip(start as int),
            shifted(acc@, i - start, dec_body(v@.skip(i as int))) == dec_body(
                v@.skip(start as int),
            ),
        decreases v@.len() - i,
    {
        let ghost t = v@.skip(i as int);
        proof {
            lemma_body_cases(t);
        }
        if i >= v.len() {
            return None;
        }
        let c = v[i];
        assert(t[0] == c);
        if c == '"' {
            assert(acc@ + Seq::<char>::empty() =~= acc@);
            return Some((acc, i + 1));
        }
        let ghost a0 = acc@;
        if c == '\\' {
            assert(t.skip(1) =~= v@.skip(i + 1));
            proof {
                lemma_unesc_len(t.skip(1));
            }
            match unescape(v, i + 1) {
                None => {
                    return None;
                },
                Some((d, k)) => {
                    proof {
                        lemma_body_escape(t, d, k as int);
                        lemma_shift_compose(a0, i - start, seq![d], 1 + k, dec_body(t.skip(1 + k)));
                    }
                    assert(t.skip(1 + k) =~= v@.skip((i + 1 + k) as int));
                    push_char(&mut acc, d);
                    i = i + 1 + k;
                },
            }
        } else if (c as u32) < 0x20 {
            return None;
        } else {
            proof {
                lemma_body_plain(t);
                lemma_shift_compose(a0, i - start, seq![c], 1, dec_body(t.skip(1)));
            }
            assert(t.skip(1) =~= v@.skip(i + 1));
            push_char(&mut acc, c);
            i = i + 1;
        }
    }
}

/// Appends `s` as a JSON string literal.
pub fn push_str_lit(out: &mut String, s: &str)
    ensures
        final(out)@ == old(out)@ + enc_str(s@),
{
    let v = crate::text::chars_of(s);
    let ghost o = out@;
    push_char(out, '"');
    let mut i: usize = 0;
    while i < v.len()
        invariant
            i <= v@.len(),
            v@ == s@,
            out@ == o + seq!['"'] + esc_body(s@.take(i as int)),
        decreases v@.len() - i,
    {
        let c = v[i];
        proof {
            lemma_esc_body_take(s@, i as int);
        }
        let ghost before = out@;
        if c == '"' {
            push_char(out, '\\');
            push_char(out, '"');
        } else if c == '\\' {
            push_char(out, '\\');
            push_char(out, '\\');
        } else if (c as u32) < 0x20 {
            let u = c as u32;
            push_char(out, '\\');
            push_char(out, 'u');
            push_char(out, '0');
            push_char(out, '0');
            push_char(out, hex_digit_char(u / 16));
            push_char(out, hex_digit_char(u % 16));
        } else {
            push_char(out, c);
        }
        assert(out@ =~= before + esc_char(c));
        i += 1;
        assert(out@ =~= o + seq!['"'] + esc_body(s@.take(i as int)));
    }
    assert(s@.take(v@.len() as int) =~= s@);
    push_char(out, '"');
    assert(out@ =~= o + enc_str(s@));
}

/// The number of decimal digits at the start of `t`.
pub open spec fn digit_run(t: Seq<char>) -> int
    decreases t.len(),
{
    if t.len() > 0 && is_digit(t[0]) {
        1 + digit_run(t.skip(1))
    } else {
        0
    }
}

/// The JSON integer at the start of `t`, and its length: an optional minus
/// sign and the digits that follow, whose value must fit in an `i64`.
#[verifier::opaque]
pub open spec fn dec_int(t: Seq<char>) -> Option<(int, int)> {
    let neg = t.len() > 0 && t[0] == '-';
    let u = if neg { t.skip(1) } else { t };
    let l = digit_run(u);
    let m = digits_value(u.take(l));
    let n = if neg { -m } else { m };
    if l == 0 || n < i64::MIN || n > i64::MAX {
        None
    } else {
        Some((n, l + if neg { 1int } else { 0int }))
    }
}

proof fn lemma_digit_run_bounds(t: Seq<char>)
    ensures
        0 <= digit_run(t) <= t.len(),
        all_digits(t.take(digit_run(t))),
        digit_run(t) < t.len() ==> !is_digit(t[digit_run(t)]),
    decreases t.len(),
{
    if t.len() > 0 && is_digit(t[0]) {
        lemma_digit_run_bounds(t.skip(1));
        let r = digit_run(t.skip(1));
        assert forall|i: int| 0 <= i < digit_run(t) implies is_digit(#[trigger] t.take(digit_run(t))[i]) by {
            if i > 0 {
                assert(t.take(digit_run(t))[i] == t.skip(1).take(r)[i - 1]);
            }
        }
        if digit_run(t) < t.len() {
            assert(t[digit_run(t)] == t.skip(1)[r]);
        }
    }
}

proof fn lemma_digit_run_split(t: Seq<char>, i: int)
    requires
        0 <= i <= t.len(),
        all_digits(t.take(i)),
    ensures
        digit_run(t) == i + digit_run(t.skip(i)),
    decreases i,
{
    if i > 0 {
        assert(is_digit(t.take(i)[0]));
        assert(t.skip(1).take(i - 1) =~= t.take(i).skip(1));
        assert forall|k: int| 0 <= k < i - 1 implies is_digit(#[trigger] t.skip(1).take(i - 1)[k]) by {
            assert(t.skip(1).take(i - 1)[k] == t.take(i)[k + 1]);
        }
        lemma_digit_run_split(t.skip(1), i - 1);
        assert(t.skip(1).skip(i - 1) =~= t.skip(i));
    } else {
        assert(t.skip(0) =~= t);
    }
}

proof fn lemma_dec_digits(m: nat)
    ensures
        all_digits(dec(m)),
        digits_value(dec(m)) == m,
    decreases m,
{
    assert(digit_value(digit_char(m % 10)) == m % 10);
    if m >= 10 {
        lemma_dec_digits(m / 10);
        let d = dec(m / 10);
        assert(dec(m).drop_last() =~= d);
        assert(forall|i: int| 0 <= i < d.len() ==> dec(m)[i] == d[i]);
        assert(m == (m / 10) * 10 + m % 10);
    } else {
        assert(dec(m).drop_last() =~= Seq::<char>::empty());
        assert(digits_value(Seq::<char>::empty()) == 0);
    }
}

/// Reading back an integer written in decimal gives it, when no digit
/// follows.
pub proof fn lemma_dec_int_enc(n: i64, rest: Seq<char>)
    requires
        rest.len() == 0 || !is_digit(rest[0]),
    ensures
        dec_int(signed_dec(n as int) + rest) == Some((n as int, signed_dec(n as int).len() as int)),
{
    reveal(dec_int);
    let t = signed_dec(n as int) + rest;
    let m: nat = if n < 0 { (-n) as nat } else { n as nat };
    lemma_dec_digits(m);
    let d = dec(m);
    let u = d + rest;
    if n < 0 {
        assert(t =~= seq!['-'] + u);
        assert(t.skip(1) =~= u);
    } else {
        assert(t =~= u);
        assert(d[0] != '-');
    }
    lemma_digit_run_split(u, d.len() as int);
    assert(u.take(d.len() as int) =~= d);
    assert(u.skip(d.len() as int) =~= rest);
    assert(d.len() >= 1) by {
        crate::numfmt::lemma_dec_len(m);
    }
    assert(digit_run(rest) == 0);
}

/// The JSON integer that starts at `v[pos]`, and the position after it.
pub fn parse_int(v: &Vec<char>, pos: usize) -> (r: Option<(i64, usize)>)
    requires
        pos <= v@.len(),
    ensures
        match dec_int(v@.skip(pos as int)) {
            Some((n, k)) => r is Some && r->Some_0.0 as int == n && r->Some_0.1 == pos + k,
            None => r is None,
        },
        r is Some ==> pos < r->Some_0.1 <= v@.len(),
{
    proof {
        reveal(dec_int);
    }
    let ghost t = v@.skip(pos as int);
    let neg = pos < v.len() && v[pos] == '-';
    assert(neg == (t.len() > 0 && t[0] == '-'));
    let start = if neg { pos + 1 } else { pos };
    let ghost u = if neg { t.skip(1) } else { t };
    assert(u =~= v@.skip(start as int));
    proof {
        lemma_digit_run_bounds(u);
    }
    let mut j: usize = start;
    let mut acc: u64 = 0;
    assert(u.skip(0) =~= u);
    assert(u.take(0) =~= Seq::<char>::empty());
    while j < v.len() && '0' <= v[j] && v[j] <= '9'
        invariant
            start <= j <= v@.len(),
            u == v@.skip(start as int),
            t == v@.skip(pos as int),
            neg == (t.len() > 0 && t[0] == '-'),
            u == if neg { t.skip(1) } else { t },
            start == if neg { pos + 1 } else { pos as int },
            all_digits(u.take(j - start)),
            acc == digits_value(u.take(j - start)),
            0 <= digit_run(u) <= u.len(),
            all_digits(u.take(digit_run(u))),
            digit_run(u) == (j - start) + digit_run(u.skip(j - start)),
        decreases v@.len() - j,
    {
        let d = (v[j] as u32 - '0' as u32) as u64;
        assert(u[j - start] == v@[j as int]);
        assert(u.take(j - start + 1).drop_last() =~= u.take(j - start));
        assert(all_digits(u.take(j - start + 1)));
        assert(u.skip(j - start).skip(1) =~= u.skip(j - start + 1));
        if acc > (u64::MAX - d) / 10 {
            proof {
                reveal(dec_int);
                assert(acc * 10 + d > u64::MAX) by (nonlinear_arith)
                    requires
                        acc > (u64::MAX - d) / 10,
                        d <= 9,
                ;
                assert(digits_value(u.take(j - start + 1)) == acc * 10 + d);
                let l = digit_run(u);
                lemma_digit_run_split(u, j - start + 1);
                lemma_digit_run_bounds(u.skip(j - start + 1));
                assert(l >= j - start + 1);
                lemma_digits_value_grows(u.take(l), j - start + 1);
                assert(u.take(l).take(j - start + 1) =~= u.take(j - start + 1));
            }
            return None;
        }
        assert(acc * 10 + d <= u64::MAX) by (nonlinear_arith)
            requires
                acc <= (u64::MAX - d) / 10,
                d <= 9,
        ;
        acc = acc * 10 + d;
        j += 1;
    }
    proof {
        lemma_digit_run_bounds(u.skip(j - start));
        if j < v.len() {
            assert(u.skip(j - start)[0] == v@[j as int]);
        }
        assert(digit_run(u) == j - start);
    }
    if j == start {
        return None;
    }
    let k = j - pos;
    if neg {
        if acc <= 9_223_372_036_854_775_807u64 {
            Some((-(acc as i64), j))
        } else if acc == 9_223_372_036_854_775_808u64 {
            Some((i64::MIN, j))
        } else {
            None
        }
    } else {
        if acc <= 9_223_372_036_854_775_807u64 {
            Some((acc as i64, j))
        } else {
            None
        }
    }
}

} // verus!
