//! Reading a ledger document: JSON whitespace is allowed between any two
//! tokens, and the members of each object may come in any order (each one
//! once).
use vstd::prelude::*;
use crate::codec::{dec_int, dec_str, enc_str, esc_body, esc_char, lemma_dec_int_enc, lemma_dec_str_enc, parse_int, parse_str};
use crate::numfmt::{dec, signed_dec};
use crate::select::is_digit;
use crate::ledger::{strs_view, Clip, ClipView, Clips, ClipsView};
use crate::ledger_file::{after, clips_view, enc_clip, enc_clips, enc_ledger, enc_strs, lemma_skip_concat, more_clips, more_strs, w_clips, w_end, w_media, w_original, w_start};

verus! {

pub open spec fn is_ws(c: char) -> bool {
    c == ' ' || c == '\t' || c == '\n' || c == '\r'
}

/// The position after the run of JSON whitespace that starts at `p`.
pub open spec fn ws_end(t: Seq<char>, p: int) -> int
    decreases t.len() - p,
{
    if 0 <= p < t.len() && is_ws(t[p]) {
        ws_end(t, p + 1)
    } else {
        p
    }
}

/// The JSON string at `t[p..]` and the position after it.
pub open spec fn str_at(t: Seq<char>, p: int) -> Option<(Seq<char>, int)> {
    if 0 <= p <= t.len() {
        match dec_str(t.skip(p)) {
            Some((s, k)) => Some((s, p + k)),
            None => None,
        }
    } else {
        None
    }
}

/// The JSON integer at `t[p..]` and the position after it.
pub open spec fn int_at(t: Seq<char>, p: int) -> Option<(int, int)> {
    if 0 <= p <= t.len() {
        match dec_int(t.skip(p)) {
            Some((n, k)) => Some((n, p + k)),
            None => None,
        }
    } else {
        None
    }
}

/// The items of a list of strings from the item at `p` on, and the
/// position after the closing bracket.
#[verifier::opaque]
pub open spec fn strs_rest(t: Seq<char>, p: int) -> Option<(Seq<Seq<char>>, int)>
    decreases t.len() - p,
{
    match str_at(t, p) {
        Some((s, q)) => {
            let r = ws_end(t, q);
            if !(p < q <= t.len()) {
                None
            } else if r < t.len() && t[r] == ']' {
                Some((seq![s], r + 1))
            } else if r < t.len() && t[r] == ',' {
                let n = ws_end(t, r + 1);
                if p < n <= t.len() {
                    match strs_rest(t, n) {
                        Some((xs, e)) => Some((seq![s] + xs, e)),
                        None => None,
                    }
                } else {
                    None
                }
            } else {
                None
            }
        },
        None => None,
    }
}

/// The list of strings at `t[p..]` and the position after it.
pub open spec fn strs_at(t: Seq<char>, p: int) -> Option<(Seq<Seq<char>>, int)> {
    if 0 <= p < t.len() && t[p] == '[' {
        let q = ws_end(t, p + 1);
        if q < t.len() && t[q] == ']' {
            Some((Seq::empty(), q + 1))
        } else {
            strs_rest(t, q)
        }
    } else {
        None
    }
}

pub open spec fn k_media() -> Seq<char> {
    seq!['m', 'e', 'd', 'i', 'a']
}

pub open spec fn k_start() -> Seq<char> {
    seq!['s', 't', 'a', 'r', 't']
}

pub open spec fn k_end() -> Seq<char> {
    seq!['e', 'n', 'd']
}

pub open spec fn k_original() -> Seq<char> {
    seq!['o', 'r', 'i', 'g', 'i', 'n', 'a', 'l', '_', 'm', 'e', 'd', 'i', 'a']
}

pub open spec fn k_clips() -> Seq<char> {
    seq!['c', 'l', 'i', 'p', 's']
}

/// The members of a clip object read so far.
pub type ClipAcc = (Option<Seq<Seq<char>>>, Option<int>, Option<int>);

/// The value of the member `key` at `t[v..]`, added to `acc`; no key may
/// come twice.
pub open spec fn clip_member(t: Seq<char>, v: int, key: Seq<char>, acc: ClipAcc) -> Option<(ClipAcc, int)> {
    if key == k_media() && acc.0 is None {
        match strs_at(t, v) {
            Some((m, e)) => Some(((Some(m), acc.1, acc.2), e)),
            None => None,
        }
    } else if key == k_start() && acc.1 is None {
        match int_at(t, v) {
            Some((n, e)) => Some(((acc.0, Some(n), acc.2), e)),
            None => None,
        }
    } else if key == k_end() && acc.2 is None {
        match int_at(t, v) {
            Some((n, e)) => Some(((acc.0, acc.1, Some(n)), e)),
            None => None,
        }
    } else {
        None
    }
}

/// The clip once every member is read.
pub open spec fn clip_finish(acc: ClipAcc, e: int) -> Option<(ClipView, int)> {
    if acc.0 is Some && acc.1 is Some && acc.2 is Some {
        Some((ClipView { media: acc.0->Some_0, start: acc.1->Some_0 as i64, end: acc.2->Some_0 as i64 }, e))
    } else {
        None
    }
}

/// The rest of a clip object from the member at `p` on.
#[verifier::opaque]
pub open spec fn clip_members(t: Seq<char>, p: int, acc: ClipAcc) -> Option<(ClipView, int)>
    decreases t.len() - p,
{
    match str_at(t, p) {
        Some((key, q)) => {
            let c = ws_end(t, q);
            if p < q && c < t.len() && t[c] == ':' {
                match clip_member(t, ws_end(t, c + 1), key, acc) {
                    Some((acc2, e)) => {
                        let r = ws_end(t, e);
                        if r < t.len() && t[r] == '}' {
                            clip_finish(acc2, r + 1)
                        } else if r < t.len() && t[r] == ',' {
                            let n = ws_end(t, r + 1);
                            if p < n <= t.len() {
                                clip_members(t, n, acc2)
                            } else {
                                None
                            }
                        } else {
                            None
                        }
                    },
                    None => None,
                }
            } else {
                None
            }
        },
        None => None,
    }
}

/// The clip object at `t[p..]` and the position after it.
pub open spec fn clip_at(t: Seq<char>, p: int) -> Option<(ClipView, int)> {
    if 0 <= p < t.len() && t[p] == '{' {
        clip_members(t, ws_end(t, p + 1), (None, None, None))
    } else {
        None
    }
}

/// The items of a list of clips from the item at `p` on.
#[verifier::opaque]
pub open spec fn clips_rest(t: Seq<char>, p: int) -> Option<(Seq<ClipView>, int)>
    decreases t.len() - p,
{
    match clip_at(t, p) {
        Some((c, q)) => {
            let r = ws_end(t, q);
            if !(p < q <= t.len()) {
                None
            } else if r < t.len() && t[r] == ']' {
                Some((seq![c], r + 1))
            } else if r < t.len() && t[r] == ',' {
                let n = ws_end(t, r + 1);
                if p < n <= t.len() {
                    match clips_rest(t, n) {
                        Some((xs, e)) => Some((seq![c] + xs, e)),
                        None => None,
                    }
                } else {
                    None
                }
            } else {
                None
            }
        },
        None => None,
    }
}

/// The list of clips at `t[p..]` and the position after it.
pub open spec fn clips_at(t: Seq<char>, p: int) -> Option<(Seq<ClipView>, int)> {
    if 0 <= p < t.len() && t[p] == '[' {
        let q = ws_end(t, p + 1);
        if q < t.len() && t[q] == ']' {
            Some((Seq::empty(), q + 1))
        } else {
            clips_rest(t, q)
        }
    } else {
        None
    }
}

/// The members of a ledger object read so far.
pub type LedgerAcc = (Option<Seq<Seq<char>>>, Option<Seq<ClipView>>);

pub open spec fn ledger_member(t: Seq<char>, v: int, key: Seq<char>, acc: LedgerAcc) -> Option<(LedgerAcc, int)> {
    if key == k_original() && acc.0 is None {
        match strs_at(t, v) {
            Some((m, e)) => Some(((Some(m), acc.1), e)),
            None => None,
        }
    } else if key == k_clips() && acc.1 is None {
        match clips_at(t, v) {
            Some((cs, e)) => Some(((acc.0, Some(cs)), e)),
            None => None,
        }
    } else {
        None
    }
}

pub open spec fn ledger_finish(acc: LedgerAcc, e: int) -> Option<(ClipsView, int)> {
    if acc.0 is Some && acc.1 is Some {
        Some((ClipsView { original_media: acc.0->Some_0, clips: acc.1->Some_0 }, e))
    } else {
        None
    }
}

/// The rest of a ledger object from the member at `p` on.
#[verifier::opaque]
pub open spec fn ledger_members(t: Seq<char>, p: int, acc: LedgerAcc) -> Option<(ClipsView, int)>
    decreases t.len() - p,
{
    match str_at(t, p) {
        Some((key, q)) => {
            let c = ws_end(t, q);
            if p < q && c < t.len() && t[c] == ':' {
                match ledger_member(t, ws_end(t, c + 1), key, acc) {
                    Some((acc2, e)) => {
                        let r = ws_end(t, e);
                        if r < t.len() && t[r] == '}' {
                            ledger_finish(acc2, r + 1)
                        } else if r < t.len() && t[r] == ',' {
                            let n = ws_end(t, r + 1);
                            if p < n <= t.len() {
                                ledger_members(t, n, acc2)
                            } else {
                                None
                            }
                        } else {
                            None
                        }
                    },
                    None => None,
                }
            } else {
                None
            }
        },
        None => None,
    }
}

/// The ledger that the text `t` holds: one ledger object, with nothing but
/// whitespace around it.
pub open spec fn read_ledger(t: Seq<char>) -> Option<ClipsView> {
    let p = ws_end(t, 0);
    if p < t.len() && t[p] == '{' {
        match ledger_members(t, ws_end(t, p + 1), (None, None)) {
            Some((l, e)) => if ws_end(t, e) == t.len() {
                Some(l)
            } else {
                None
            },
            None => None,
        }
    } else {
        None
    }
}

proof fn lemma_ws_end_bounds(t: Seq<char>, p: int)
    requires
        0 <= p <= t.len(),
    ensures
        p <= ws_end(t, p) <= t.len(),
    decreases t.len() - p,
{
    if p < t.len() && is_ws(t[p]) {
        lemma_ws_end_bounds(t, p + 1);
    }
}

/// The position after the whitespace at `v[p..]`.
pub fn skip_ws(v: &Vec<char>, p: usize) -> (r: usize)
    requires
        p <= v@.len(),
    ensures
        r == ws_end(v@, p as int),
        p <= r <= v@.len(),
{
    proof {
        lemma_ws_end_bounds(v@, p as int);
    }
    let n = v.len();
    let mut i: usize = p;
    while i < n && (v[i] == ' ' || v[i] == '\t' || v[i] == '\n' || v[i] == '\r')
        invariant
            p <= i <= n == v@.len(),
            ws_end(v@, i as int) == ws_end(v@, p as int),
        decreases n - i,
    {
        i += 1;
    }
    i
}

/// The list of strings at `v[p..]` and the position after it.
pub fn parse_strs_at(v: &Vec<char>, p: usize) -> (r: Option<(Vec<String>, usize)>)
    requires
        p <= v@.len(),
    ensures
        match strs_at(v@, p as int) {
            Some((s, e)) => r is Some && strs_view(r->Some_0.0@) == s && r->Some_0.1 == e,
            None => r is None,
        },
        r is Some ==> p < r->Some_0.1 <= v@.len(),
{
    let n = v.len();
    if p >= n || v[p] != '[' {
        return None;
    }
    let q = skip_ws(v, p + 1);
    if q < n && v[q] == ']' {
        let empty: Vec<String> = Vec::new();
        assert(strs_view(empty@) =~= Seq::<Seq<char>>::empty());
        return Some((empty, q + 1));
    }
    let mut out: Vec<String> = Vec::new();
    let mut i: usize = q;
    assert(after(strs_view(out@), 0, strs_rest(v@, i as int)) == strs_rest(v@, q as int)) by {
        match strs_rest(v@, i as int) {
            Some((xs, e)) => {
                assert(strs_view(out@) + xs =~= xs);
            },
            None => {},
        }
    }
    loop
        invariant
            p < q <= i <= n == v@.len(),
            strs_at(v@, p as int) == strs_rest(v@, q as int),
            after(strs_view(out@), 0, strs_rest(v@, i as int)) == strs_rest(v@, q as int),
        decreases n - i,
    {
        proof {
            reveal(strs_rest);
        }
        let (s, q2) = match parse_str(v, i) {
            Some(x) => x,
            None => return None,
        };
        let r = skip_ws(v, q2);
        let ghost o0 = strs_view(out@);
        if r < n && v[r] == ']' {
            out.push(s);
            assert(strs_view(out@) =~= o0 + seq![s@]);
            return Some((out, r + 1));
        } else if r < n && v[r] == ',' {
            let nx = skip_ws(v, r + 1);
            proof {
                match strs_rest(v@, nx as int) {
                    Some((xs, e)) => {
                        assert(o0 + (seq![s@] + xs) =~= o0.push(s@) + xs);
                    },
                    None => {},
                }
            }
            out.push(s);
            assert(strs_view(out@) =~= o0.push(s@));
            i = nx;
        } else {
            return None;
        }
    }
}

pub open spec fn clip_acc_view(media: Option<Vec<String>>, start: Option<i64>, end: Option<i64>) -> ClipAcc {
    (
        match media {
            Some(m) => Some(strs_view(m@)),
            None => None,
        },
        match start {
            Some(x) => Some(x as int),
            None => None,
        },
        match end {
            Some(x) => Some(x as int),
            None => None,
        },
    )
}

fn is_key(key: &String, w: &str) -> (r: bool)
    ensures
        r == (key@ == w@),
{
    *key == String::from_str(w)
}

/// The clip object at `v[p..]` and the position after it.
pub fn parse_clip_at(v: &Vec<char>, p: usize) -> (r: Option<(Clip, usize)>)
    requires
        p <= v@.len(),
    ensures
        match clip_at(v@, p as int) {
            Some((c, e)) => r is Some && r->Some_0.0@ == c && r->Some_0.1 == e,
            None => r is None,
        },
        r is Some ==> p < r->Some_0.1 <= v@.len(),
{
    proof {
        reveal_strlit("media");
        reveal_strlit("start");
        reveal_strlit("end");
        assert("media"@ =~= k_media());
        assert("start"@ =~= k_start());
        assert("end"@ =~= k_end());
    }
    let n = v.len();
    if p >= n || v[p] != '{' {
        return None;
    }
    let mut i = skip_ws(v, p + 1);
    let mut media: Option<Vec<String>> = None;
    let mut start: Option<i64> = None;
    let mut end: Option<i64> = None;
    loop
        invariant
            p < i <= n == v@.len(),
            "media"@ == k_media(),
            "start"@ == k_start(),
            "end"@ == k_end(),
            clip_members(v@, i as int, clip_acc_view(media, start, end)) == clip_at(v@, p as int),
        decreases n - i,
    {
        proof {
            reveal(clip_members);
        }
        let ghost acc = clip_acc_view(media, start, end);
        let (key, q) = match parse_str(v, i) {
            Some(x) => x,
            None => return None,
        };
        let c = skip_ws(v, q);
        if !(c < n && v[c] == ':') {
            return None;
        }
        let val = skip_ws(v, c + 1);
        let e: usize;
        if is_key(&key, "media") && media.is_none() {
            match parse_strs_at(v, val) {
                Some((m, e2)) => {
                    media = Some(m);
                    e = e2;
                },
                None => return None,
            }
        } else if is_key(&key, "start") && start.is_none() {
            match parse_int(v, val) {
                Some((x, e2)) => {
                    start = Some(x);
                    e = e2;
                },
                None => return None,
            }
        } else if is_key(&key, "end") && end.is_none() {
            match parse_int(v, val) {
                Some((x, e2)) => {
                    end = Some(x);
                    e = e2;
                },
                None => return None,
            }
        } else {
            return None;
        }
        assert(clip_member(v@, val as int, key@, acc) == Some((clip_acc_view(media, start, end), e as int)));
        let r = skip_ws(v, e);
        if r < n && v[r] == '}' {
            return match (media, start, end) {
                (Some(m), Some(s), Some(en)) => {
                    let clip = Clip::new(m.as_slice(), s, en);
                    Some((clip, r + 1))
                },
                _ => None,
            };
        } else if r < n && v[r] == ',' {
            i = skip_ws(v, r + 1);
        } else {
            return None;
        }
    }
}

/// The list of clips at `v[p..]` and the position after it.
pub fn parse_clips_at(v: &Vec<char>, p: usize) -> (r: Option<(Vec<Clip>, usize)>)
    requires
        p <= v@.len(),
    ensures
        match clips_at(v@, p as int) {
            Some((s, e)) => r is Some && clips_view(r->Some_0.0@) == s && r->Some_0.1 == e,
            None => r is None,
        },
        r is Some ==> p < r->Some_0.1 <= v@.len(),
{
    let n = v.len();
    if p >= n || v[p] != '[' {
        return None;
    }
    let q = skip_ws(v, p + 1);
    if q < n && v[q] == ']' {
        let empty: Vec<Clip> = Vec::new();
        assert(clips_view(empty@) =~= Seq::<ClipView>::empty());
        return Some((empty, q + 1));
    }
    let mut out: Vec<Clip> = Vec::new();
    let mut i: usize = q;
    assert(after(clips_view(out@), 0, clips_rest(v@, i as int)) == clips_rest(v@, q as int)) by {
        match clips_rest(v@, i as int) {
            Some((xs, e)) => {
                assert(clips_view(out@) + xs =~= xs);
            },
            None => {},
        }
    }
    loop
        invariant
            p < q <= i <= n == v@.len(),
            clips_at(v@, p as int) == clips_rest(v@, q as int),
            after(clips_view(out@), 0, clips_rest(v@, i as int)) == clips_rest(v@, q as int),
        decreases n - i,
    {
        proof {
            reveal(clips_rest);
        }
        let (c, q2) = match parse_clip_at(v, i) {
            Some(x) => x,
            None => return None,
        };
        let r = skip_ws(v, q2);
        let ghost o0 = clips_view(out@);
        let ghost cv = c@;
        if r < n && v[r] == ']' {
            out.push(c);
            assert(clips_view(out@) =~= o0 + seq![cv]);
            return Some((out, r + 1));
        } else if r < n && v[r] == ',' {
            let nx = skip_ws(v, r + 1);
            proof {
                match clips_rest(v@, nx as int) {
                    Some((xs, e)) => {
                        assert(o0 + (seq![cv] + xs) =~= o0.push(cv) + xs);
                    },
                    None => {},
                }
            }
            out.push(c);
            assert(clips_view(out@) =~= o0.push(cv));
            i = nx;
        } else {
            return None;
        }
    }
}

pub open spec fn ledger_acc_view(media: Option<Vec<String>>, clips: Option<Vec<Clip>>) -> LedgerAcc {
    (
        match media {
            Some(m) => Some(strs_view(m@)),
            None => None,
        },
        match clips {
            Some(c) => Some(clips_view(c@)),
            None => None,
        },
    )
}

impl Clips {
    /// The ledger that the JSON document `text` holds: an object with the
    /// members `original_media` and `clips`, and clip objects with `media`,
    /// `start` and `end`, members in any order and any JSON whitespace
    /// between tokens. `None` where `text` is not such a document.
    pub fn from_json(text: &str) -> (r: Option<Clips>)
        ensures
            r is Some <==> read_ledger(text@) is Some,
            r is Some ==> r->Some_0@ == read_ledger(text@)->Some_0,
    {
        proof {
            reveal_strlit("original_media");
            reveal_strlit("clips");
            assert("original_media"@ =~= k_original());
            assert("clips"@ =~= k_clips());
        }
        let v = crate::text::chars_of(text);
        let n = v.len();
        let p = skip_ws(&v, 0);
        if !(p < n && v[p] == '{') {
            return None;
        }
        let mut i = skip_ws(&v, p + 1);
        let mut media: Option<Vec<String>> = None;
        let mut clips: Option<Vec<Clip>> = None;
        loop
            invariant
                p < i <= n == v@.len(),
                v@ == text@,
                "original_media"@ == k_original(),
                "clips"@ == k_clips(),
                p == ws_end(v@, 0),
                v@[p as int] == '{',
                ledger_members(v@, i as int, ledger_acc_view(media, clips)) == ledger_members(
                    v@,
                    ws_end(v@, p + 1),
                    (None, None),
                ),
            decreases n - i,
        {
            proof {
                reveal(ledger_members);
            }
            let ghost acc = ledger_acc_view(media, clips);
            let (key, q) = match parse_str(&v, i) {
                Some(x) => x,
                None => return None,
            };
            let c = skip_ws(&v, q);
            if !(c < n && v[c] == ':') {
                return None;
            }
            let val = skip_ws(&v, c + 1);
            let e: usize;
            if is_key(&key, "original_media") && media.is_none() {
                match parse_strs_at(&v, val) {
                    Some((m, e2)) => {
                        media = Some(m);
                        e = e2;
                    },
                    None => return None,
                }
            } else if is_key(&key, "clips") && clips.is_none() {
                match parse_clips_at(&v, val) {
                    Some((cs, e2)) => {
                        clips = Some(cs);
                        e = e2;
                    },
                    None => return None,
                }
            } else {
                return None;
            }
            assert(ledger_member(v@, val as int, key@, acc) == Some((ledger_acc_view(media, clips), e as int)));
            let r = skip_ws(&v, e);
            if r < n && v[r] == '}' {
                if skip_ws(&v, r + 1) != n {
                    return None;
                }
                return match (media, clips) {
                    (Some(m), Some(cs)) => Some(Clips::from_parts(m, cs)),
                    _ => None,
                };
            } else if r < n && v[r] == ',' {
                i = skip_ws(&v, r + 1);
            } else {
                return None;
            }
        }
    }
}

// ---- reading back what `to_json` writes ----

proof fn lemma_ws_stop(t: Seq<char>, p: int)
    requires
        0 <= p <= t.len(),
        p == t.len() || !is_ws(t[p]),
    ensures
        ws_end(t, p) == p,
{
}

proof fn lemma_esc_plain(s: Seq<char>)
    requires
        forall|i: int| 0 <= i < s.len() ==> s[i] != '"' && s[i] != '\\' && (s[i] as u32) >= 0x20,
    ensures
        esc_body(s) == s,
    decreases s.len(),
{
    if s.len() > 0 {
        lemma_esc_plain(s.drop_first());
        assert(esc_char(s[0]) == seq![s[0]]);
        assert(seq![s[0]] + s.drop_first() =~= s);
    }
}

proof fn lemma_keys()
    ensures
        w_media() == seq!['{'] + enc_str(k_media()) + seq![':'],
        w_start() == seq![','] + enc_str(k_start()) + seq![':'],
        w_end() == seq![','] + enc_str(k_end()) + seq![':'],
        w_original() == seq!['{'] + enc_str(k_original()) + seq![':'],
        w_clips() == seq![','] + enc_str(k_clips()) + seq![':'],
{
    lemma_esc_plain(k_media());
    lemma_esc_plain(k_start());
    lemma_esc_plain(k_end());
    lemma_esc_plain(k_original());
    lemma_esc_plain(k_clips());
    assert(w_media() =~= seq!['{'] + enc_str(k_media()) + seq![':']);
    assert(w_start() =~= seq![','] + enc_str(k_start()) + seq![':']);
    assert(w_end() =~= seq![','] + enc_str(k_end()) + seq![':']);
    assert(w_original() =~= seq!['{'] + enc_str(k_original()) + seq![':']);
    assert(w_clips() =~= seq![','] + enc_str(k_clips()) + seq![':']);
}

proof fn lemma_str_at_enc(t: Seq<char>, p: int, s: Seq<char>, x: Seq<char>)
    requires
        0 <= p <= t.len(),
        t.skip(p) == enc_str(s) + x,
    ensures
        str_at(t, p) == Some((s, p + enc_str(s).len())),
        t[p] == '"',
{
    lemma_dec_str_enc(s, x);
    assert(t.skip(p)[0] == '"');
}

proof fn lemma_int_at_enc(t: Seq<char>, p: int, n: i64, x: Seq<char>)
    requires
        0 <= p <= t.len(),
        t.skip(p) == signed_dec(n as int) + x,
        x.len() == 0 || !is_digit(x[0]),
    ensures
        int_at(t, p) == Some((n as int, p + signed_dec(n as int).len())),
{
    lemma_dec_int_enc(n, x);
}

proof fn lemma_char_at(t: Seq<char>, p: int, a: Seq<char>, x: Seq<char>, i: int)
    requires
        0 <= p <= t.len(),
        t.skip(p) == a + x,
        0 <= i < a.len(),
    ensures
        p + i < t.len(),
        t[p + i] == a[i],
{
    assert(t.skip(p).len() == t.len() - p);
    assert((a + x)[i] == a[i]);
    assert(t.skip(p)[i] == t[p + i]);
}

proof fn lemma_strs_rest_enc(t: Seq<char>, p: int, v: Seq<Seq<char>>, x: Seq<char>)
    requires
        0 <= p <= t.len(),
        v.len() > 0,
        t.skip(p) == enc_str(v[0]) + more_strs(v.drop_first()) + seq![']'] + x,
    ensures
        strs_rest(t, p) == Some((v, p + enc_str(v[0]).len() + more_strs(v.drop_first()).len() + 1)),
    decreases v.len(),
{
    reveal(strs_rest);
    let e = enc_str(v[0]);
    let tail = v.drop_first();
    let y = more_strs(tail) + seq![']'] + x;
    assert(t.skip(p) =~= e + y);
    lemma_str_at_enc(t, p, v[0], y);
    let q = p + e.len();
    lemma_skip_concat(t, p, e, y);
    if tail.len() == 0 {
        assert(more_strs(tail) =~= Seq::<char>::empty());
        lemma_char_at(t, q, seq![']'], x, 0);
        lemma_ws_stop(t, q);
        assert(seq![v[0]] =~= v);
    } else {
        let e2 = enc_str(tail[0]);
        let z = more_strs(tail.drop_first()) + seq![']'] + x;
        assert(y =~= seq![','] + (e2 + z));
        lemma_char_at(t, q, seq![','], e2 + z, 0);
        lemma_ws_stop(t, q);
        lemma_skip_concat(t, q, seq![','], e2 + z);
        lemma_str_at_enc(t, q + 1, tail[0], z);
        lemma_ws_stop(t, q + 1);
        assert(t.skip(q + 1) =~= enc_str(tail[0]) + more_strs(tail.drop_first()) + seq![']'] + x);
        lemma_strs_rest_enc(t, q + 1, tail, x);
        assert(seq![v[0]] + tail =~= v);
    }
}

proof fn lemma_strs_at_enc(t: Seq<char>, p: int, v: Seq<Seq<char>>, x: Seq<char>)
    requires
        0 <= p <= t.len(),
        t.skip(p) == enc_strs(v) + x,
    ensures
        strs_at(t, p) == Some((v, p + enc_strs(v).len())),
        t[p] == '[',
{
    if v.len() == 0 {
        lemma_char_at(t, p, seq!['[', ']'], x, 0);
        lemma_char_at(t, p, seq!['[', ']'], x, 1);
        lemma_ws_stop(t, p + 1);
        assert(v =~= Seq::<Seq<char>>::empty());
    } else {
        let rest = enc_str(v[0]) + more_strs(v.drop_first()) + seq![']'] + x;
        assert(t.skip(p) =~= seq!['['] + rest);
        lemma_char_at(t, p, seq!['['], rest, 0);
        lemma_skip_concat(t, p, seq!['['], rest);
        assert(rest =~= enc_str(v[0]) + (more_strs(v.drop_first()) + seq![']'] + x));
        lemma_char_at(t, p + 1, enc_str(v[0]), more_strs(v.drop_first()) + seq![']'] + x, 0);
        lemma_ws_stop(t, p + 1);
        lemma_strs_rest_enc(t, p + 1, v, x);
    }
}

proof fn lemma_dec_first(m: nat)
    ensures
        dec(m).len() > 0,
        '0' <= dec(m)[0] <= '9',
    decreases m,
{
    if m >= 10 {
        lemma_dec_first(m / 10);
        assert(dec(m)[0] == dec(m / 10)[0]);
    }
}

proof fn lemma_signed_first(n: int)
    ensures
        signed_dec(n).len() > 0,
        !is_ws(signed_dec(n)[0]),
{
    if n < 0 {
        lemma_dec_first((-n) as nat);
    } else {
        lemma_dec_first(n as nat);
    }
}

proof fn lemma_members_next(t: Seq<char>, p: int, acc: ClipAcc, key: Seq<char>, q: int, acc2: ClipAcc, e: int)
    requires
        str_at(t, p) == Some((key, q)),
        p < q < t.len(),
        t[q] == ':',
        ws_end(t, q) == q,
        clip_member(t, ws_end(t, q + 1), key, acc) == Some((acc2, e)),
        0 <= e,
        e + 1 < t.len(),
        t[e] == ',',
        ws_end(t, e) == e,
        ws_end(t, e + 1) == e + 1,
        p < e + 1,
    ensures
        clip_members(t, p, acc) == clip_members(t, e + 1, acc2),
{
    reveal(clip_members);
}

proof fn lemma_members_last(t: Seq<char>, p: int, acc: ClipAcc, key: Seq<char>, q: int, acc2: ClipAcc, e: int)
    requires
        str_at(t, p) == Some((key, q)),
        p < q < t.len(),
        t[q] == ':',
        ws_end(t, q) == q,
        clip_member(t, ws_end(t, q + 1), key, acc) == Some((acc2, e)),
        0 <= e < t.len(),
        t[e] == '}',
        ws_end(t, e) == e,
    ensures
        clip_members(t, p, acc) == clip_finish(acc2, e + 1),
{
    reveal(clip_members);
}

/// One member `"key":value` at `t[p..]`: the key's end and where the value
/// starts.
proof fn lemma_member_head(t: Seq<char>, p: int, key: Seq<char>, y: Seq<char>)
    requires
        0 <= p <= t.len(),
        t.skip(p) == enc_str(key) + seq![':'] + y,
        y.len() > 0,
        !is_ws(y[0]),
    ensures
        str_at(t, p) == Some((key, p + enc_str(key).len())),
        p + enc_str(key).len() + 1 < t.len(),
        t[p + enc_str(key).len()] == ':',
        ws_end(t, p + enc_str(key).len()) == p + enc_str(key).len(),
        ws_end(t, p + enc_str(key).len() + 1) == p + enc_str(key).len() + 1,
        t.skip(p + enc_str(key).len() + 1) == y,
        t[p] == '"',
{
    let ek = enc_str(key);
    assert(t.skip(p) =~= ek + (seq![':'] + y));
    lemma_str_at_enc(t, p, key, seq![':'] + y);
    lemma_skip_concat(t, p, ek, seq![':'] + y);
    let q = p + ek.len();
    lemma_char_at(t, q, seq![':'], y, 0);
    lemma_ws_stop(t, q);
    lemma_skip_concat(t, q, seq![':'], y);
    assert(y =~= seq![y[0]] + y.drop_first());
    lemma_char_at(t, q + 1, seq![y[0]], y.drop_first(), 0);
    lemma_ws_stop(t, q + 1);
}

#[verifier::rlimit(50)]
proof fn lemma_clip_at_enc(t: Seq<char>, p: int, c: ClipView, x: Seq<char>)
    requires
        0 <= p <= t.len(),
        t.skip(p) == enc_clip(c) + x,
    ensures
        clip_at(t, p) == Some((c, p + enc_clip(c).len())),
        t[p] == '{',
{
    lemma_keys();
    let ms = enc_strs(c.media);
    let sd = signed_dec(c.start as int);
    let ed = signed_dec(c.end as int);
    let y3 = ed + seq!['}'] + x;
    let y2 = sd + w_end() + y3;
    let y1 = ms + w_start() + y2;
    assert(t.skip(p) =~= seq!['{'] + (enc_str(k_media()) + seq![':'] + y1));
    lemma_char_at(t, p, seq!['{'], enc_str(k_media()) + seq![':'] + y1, 0);
    lemma_skip_concat(t, p, seq!['{'], enc_str(k_media()) + seq![':'] + y1);
    let p1 = p + 1;
    assert(ms[0] == '[');
    lemma_member_head(t, p1, k_media(), y1);
    lemma_ws_stop(t, p1);
    let v1 = p1 + enc_str(k_media()).len() + 1;
    assert(y1 =~= ms + (w_start() + y2));
    assert(y2 =~= sd + (w_end() + y3));
    assert(y3 =~= ed + (seq!['}'] + x));
    lemma_strs_at_enc(t, v1, c.media, w_start() + y2);
    lemma_skip_concat(t, v1, ms, w_start() + y2);
    let e1 = v1 + ms.len();
    assert(w_start() + y2 =~= seq![','] + (enc_str(k_start()) + seq![':'] + y2));
    lemma_char_at(t, e1, seq![','], enc_str(k_start()) + seq![':'] + y2, 0);
    lemma_ws_stop(t, e1);
    lemma_skip_concat(t, e1, seq![','], enc_str(k_start()) + seq![':'] + y2);
    lemma_signed_first(c.start as int);
    assert(y2[0] == sd[0]);
    lemma_member_head(t, e1 + 1, k_start(), y2);
    lemma_ws_stop(t, e1 + 1);
    lemma_members_next(t, p1, (None, None, None), k_media(), p1 + enc_str(k_media()).len(), (Some(c.media), None, None), e1);
    let v2 = e1 + 1 + enc_str(k_start()).len() + 1;
    assert(w_end() + y3 =~= seq![','] + (enc_str(k_end()) + seq![':'] + y3));
    lemma_int_at_enc(t, v2, c.start, w_end() + y3);
    lemma_skip_concat(t, v2, sd, w_end() + y3);
    let e2 = v2 + sd.len();
    lemma_char_at(t, e2, seq![','], enc_str(k_end()) + seq![':'] + y3, 0);
    lemma_ws_stop(t, e2);
    lemma_skip_concat(t, e2, seq![','], enc_str(k_end()) + seq![':'] + y3);
    lemma_signed_first(c.end as int);
    assert(y3[0] == ed[0]);
    lemma_member_head(t, e2 + 1, k_end(), y3);
    lemma_ws_stop(t, e2 + 1);
    lemma_members_next(t, e1 + 1, (Some(c.media), None, None), k_start(), e1 + 1 + enc_str(k_start()).len(), (Some(c.media), Some(c.start as int), None), e2);
    let v3 = e2 + 1 + enc_str(k_end()).len() + 1;
    lemma_int_at_enc(t, v3, c.end, seq!['}'] + x);
    lemma_skip_concat(t, v3, ed, seq!['}'] + x);
    let e3 = v3 + ed.len();
    lemma_char_at(t, e3, seq!['}'], x, 0);
    lemma_ws_stop(t, e3);
    lemma_members_last(t, e2 + 1, (Some(c.media), Some(c.start as int), None), k_end(), e2 + 1 + enc_str(k_end()).len(), (Some(c.media), Some(c.start as int), Some(c.end as int)), e3);
    assert(e3 + 1 == p + enc_clip(c).len());
}

proof fn lemma_clips_rest_enc(t: Seq<char>, p: int, v: Seq<ClipView>, x: Seq<char>)
    requires
        0 <= p <= t.len(),
        v.len() > 0,
        t.skip(p) == enc_clip(v[0]) + more_clips(v.drop_first()) + seq![']'] + x,
    ensures
        clips_rest(t, p) == Some((v, p + enc_clip(v[0]).len() + more_clips(v.drop_first()).len() + 1)),
    decreases v.len(),
{
    reveal(clips_rest);
    let e = enc_clip(v[0]);
    let tail = v.drop_first();
    let y = more_clips(tail) + seq![']'] + x;
    assert(t.skip(p) =~= e + y);
    lemma_clip_at_enc(t, p, v[0], y);
    let q = p + e.len();
    lemma_skip_concat(t, p, e, y);
    if tail.len() == 0 {
        assert(more_clips(tail) =~= Seq::<char>::empty());
        lemma_char_at(t, q, seq![']'], x, 0);
        lemma_ws_stop(t, q);
        assert(seq![v[0]] =~= v);
    } else {
        let e2 = enc_clip(tail[0]);
        let z = more_clips(tail.drop_first()) + seq![']'] + x;
        assert(y =~= seq![','] + (e2 + z));
        lemma_char_at(t, q, seq![','], e2 + z, 0);
        lemma_ws_stop(t, q);
        lemma_skip_concat(t, q, seq![','], e2 + z);
        lemma_clip_at_enc(t, q + 1, tail[0], z);
        lemma_ws_stop(t, q + 1);
        assert(t.skip(q + 1) =~= enc_clip(tail[0]) + more_clips(tail.drop_first()) + seq![']'] + x);
        lemma_clips_rest_enc(t, q + 1, tail, x);
        assert(seq![v[0]] + tail =~= v);
    }
}

proof fn lemma_clips_at_enc(t: Seq<char>, p: int, v: Seq<ClipView>, x: Seq<char>)
    requires
        0 <= p <= t.len(),
        t.skip(p) == enc_clips(v) + x,
    ensures
        clips_at(t, p) == Some((v, p + enc_clips(v).len())),
        t[p] == '[',
{
    if v.len() == 0 {
        lemma_char_at(t, p, seq!['[', ']'], x, 0);
        lemma_char_at(t, p, seq!['[', ']'], x, 1);
        lemma_ws_stop(t, p + 1);
        assert(v =~= Seq::<ClipView>::empty());
    } else {
        let rest = enc_clip(v[0]) + more_clips(v.drop_first()) + seq![']'] + x;
        assert(t.skip(p) =~= seq!['['] + rest);
        lemma_char_at(t, p, seq!['['], rest, 0);
        lemma_skip_concat(t, p, seq!['['], rest);
        assert(rest =~= enc_clip(v[0]) + (more_clips(v.drop_first()) + seq![']'] + x));
        lemma_clip_at_enc(t, p + 1, v[0], more_clips(v.drop_first()) + seq![']'] + x);
        lemma_ws_stop(t, p + 1);
        lemma_clips_rest_enc(t, p + 1, v, x);
    }
}

proof fn lemma_ledger_next(t: Seq<char>, p: int, acc: LedgerAcc, key: Seq<char>, q: int, acc2: LedgerAcc, e: int)
    requires
        str_at(t, p) == Some((key, q)),
        p < q < t.len(),
        t[q] == ':',
        ws_end(t, q) == q,
        ledger_member(t, ws_end(t, q + 1), key, acc) == Some((acc2, e)),
        0 <= e,
        e + 1 < t.len(),
        t[e] == ',',
        ws_end(t, e) == e,
        ws_end(t, e + 1) == e + 1,
        p < e + 1,
    ensures
        ledger_members(t, p, acc) == ledger_members(t, e + 1, acc2),
{
    reveal(ledger_members);
}

proof fn lemma_ledger_last(t: Seq<char>, p: int, acc: LedgerAcc, key: Seq<char>, q: int, acc2: LedgerAcc, e: int)
    requires
        str_at(t, p) == Some((key, q)),
        p < q < t.len(),
        t[q] == ':',
        ws_end(t, q) == q,
        ledger_member(t, ws_end(t, q + 1), key, acc) == Some((acc2, e)),
        0 <= e < t.len(),
        t[e] == '}',
        ws_end(t, e) == e,
    ensures
        ledger_members(t, p, acc) == ledger_finish(acc2, e + 1),
{
    reveal(ledger_members);
}

/// A ledger written as JSON reads back as the same ledger: the same
/// original media and the same clips, in the same order.
#[verifier::rlimit(50)]
pub proof fn law_ledger_round_trip(l: ClipsView)
    ensures
        read_ledger(enc_ledger(l)) == Some(l),
{
    lemma_keys();
    let t = enc_ledger(l);
    let ms = enc_strs(l.original_media);
    let cs = enc_clips(l.clips);
    let x = Seq::<char>::empty();
    let y2 = cs + seq!['}'];
    let y1 = ms + w_clips() + y2;
    assert(t =~= seq!['{'] + (enc_str(k_original()) + seq![':'] + y1));
    assert(t.skip(0) =~= t);
    lemma_char_at(t, 0, seq!['{'], enc_str(k_original()) + seq![':'] + y1, 0);
    lemma_ws_stop(t, 0);
    lemma_skip_concat(t, 0, seq!['{'], enc_str(k_original()) + seq![':'] + y1);
    assert(y1 =~= ms + (w_clips() + y2));
    assert(ms[0] == '[');
    lemma_member_head(t, 1, k_original(), y1);
    lemma_ws_stop(t, 1);
    let v1: int = 1int + enc_str(k_original()).len() + 1;
    lemma_strs_at_enc(t, v1, l.original_media, w_clips() + y2);
    lemma_skip_concat(t, v1, ms, w_clips() + y2);
    let e1: int = v1 + ms.len();
    assert(w_clips() + y2 =~= seq![','] + (enc_str(k_clips()) + seq![':'] + y2));
    lemma_char_at(t, e1, seq![','], enc_str(k_clips()) + seq![':'] + y2, 0);
    lemma_ws_stop(t, e1);
    lemma_skip_concat(t, e1, seq![','], enc_str(k_clips()) + seq![':'] + y2);
    assert(y2[0] == cs[0]);
    assert(cs[0] == '[');
    lemma_member_head(t, e1 + 1, k_clips(), y2);
    lemma_ws_stop(t, e1 + 1);
    lemma_ledger_next(t, 1, (None, None), k_original(), 1int + enc_str(k_original()).len(), (Some(l.original_media), None), e1);
    let v2: int = e1 + 1 + enc_str(k_clips()).len() + 1;
    lemma_clips_at_enc(t, v2, l.clips, seq!['}']);
    lemma_skip_concat(t, v2, cs, seq!['}']);
    let e2: int = v2 + cs.len();
    assert(seq!['}'] =~= seq!['}'] + x);
    lemma_char_at(t, e2, seq!['}'], x, 0);
    lemma_ws_stop(t, e2);
    lemma_ledger_last(t, e1 + 1, (Some(l.original_media), None), k_clips(), e1 + 1 + enc_str(k_clips()).len(), (Some(l.original_media), Some(l.clips)), e2);
    assert(e2 + 1 == t.len());
    lemma_ws_stop(t, t.len() as int);
}

} // verus!
