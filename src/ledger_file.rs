//! Writing a ledger as a compact JSON document.
use vstd::prelude::*;
use crate::codec::{enc_str, push_str_lit};
use crate::ledger::{strs_view, Clip, ClipView, Clips, ClipsView};
use crate::numfmt::{push_signed, signed_dec};
use crate::text::push_char;

verus! {
/// Items already decoded, put in front of what is left of the list.
pub open spec fn after<A>(a: Seq<A>, d: int, r: Option<(Seq<A>, int)>) -> Option<(Seq<A>, int)> {
    match r {
        Some((s, k)) => Some((a + s, k + d)),
        None => None,
    }
}

// ---- lists of strings ----

/// The items after the first of a JSON list of strings, each after a comma.
pub open spec fn more_strs(v: Seq<Seq<char>>) -> Seq<char>
    decreases v.len(),
{
    if v.len() == 0 {
        Seq::empty()
    } else {
        seq![','] + enc_str(v[0]) + more_strs(v.drop_first())
    }
}

/// `v` as a JSON list of strings.
pub open spec fn enc_strs(v: Seq<Seq<char>>) -> Seq<char> {
    if v.len() == 0 {
        seq!['[', ']']
    } else {
        seq!['['] + enc_str(v[0]) + more_strs(v.drop_first()) + seq![']']
    }
}

proof fn lemma_more_strs_push(a: Seq<Seq<char>>, x: Seq<char>)
    ensures
        more_strs(a.push(x)) == more_strs(a) + seq![','] + enc_str(x),
    decreases a.len(),
{
    if a.len() == 0 {
        assert(a.push(x).drop_first() =~= Seq::<Seq<char>>::empty());
        assert(more_strs(a.push(x).drop_first()) =~= Seq::<char>::empty());
        assert(more_strs(a) =~= Seq::<char>::empty());
        assert(more_strs(a.push(x)) =~= more_strs(a) + seq![','] + enc_str(x));
    } else {
        assert(a.push(x).drop_first() =~= a.drop_first().push(x));
        lemma_more_strs_push(a.drop_first(), x);
        assert(more_strs(a.push(x)) =~= more_strs(a) + seq![','] + enc_str(x));
    }
}

/// Appends `v` as a JSON list of strings.
pub fn push_strs(out: &mut String, v: &[String])
    ensures
        final(out)@ == old(out)@ + enc_strs(strs_view(v@)),
{
    let ghost sv = strs_view(v@);
    let ghost o = out@;
    if v.len() == 0 {
        push_char(out, '[');
        push_char(out, ']');
        assert(out@ =~= o + enc_strs(sv));
        return;
    }
    push_char(out, '[');
    push_str_lit(out, v[0].as_str());
    let ghost head = out@;
    assert(sv.subrange(1, 1) =~= Seq::<Seq<char>>::empty());
    assert(head =~= o + seq!['['] + enc_str(sv[0]) + more_strs(sv.subrange(1, 1)));
    let mut i: usize = 1;
    while i < v.len()
        invariant
            1 <= i <= v@.len(),
            sv == strs_view(v@),
            out@ == o + seq!['['] + enc_str(sv[0]) + more_strs(sv.subrange(1, i as int)),
        decreases v@.len() - i,
    {
        let ghost before = out@;
        push_char(out, ',');
        push_str_lit(out, v[i].as_str());
        proof {
            assert(sv.subrange(1, i + 1) =~= sv.subrange(1, i as int).push(sv[i as int]));
            lemma_more_strs_push(sv.subrange(1, i as int), sv[i as int]);
        }
        i += 1;
        assert(out@ =~= o + seq!['['] + enc_str(sv[0]) + more_strs(sv.subrange(1, i as int)));
    }
    assert(sv.subrange(1, sv.len() as int) =~= sv.drop_first());
    push_char(out, ']');
    assert(out@ =~= o + enc_strs(sv));
}

// ---- clips ----

pub open spec fn w_media() -> Seq<char> {
    seq!['{', '"', 'm', 'e', 'd', 'i', 'a', '"', ':']
}

pub open spec fn w_start() -> Seq<char> {
    seq![',', '"', 's', 't', 'a', 'r', 't', '"', ':']
}

pub open spec fn w_end() -> Seq<char> {
    seq![',', '"', 'e', 'n', 'd', '"', ':']
}

/// A clip as a JSON object.
pub open spec fn enc_clip(c: ClipView) -> Seq<char> {
    w_media() + enc_strs(c.media) + w_start() + signed_dec(c.start as int) + w_end() + signed_dec(
        c.end as int,
    ) + seq!['}']
}

pub proof fn lemma_skip_concat(t: Seq<char>, p: int, a: Seq<char>, x: Seq<char>)
    requires
        0 <= p <= t.len(),
        t.skip(p) == a + x,
    ensures
        t.skip(p + a.len()) == x,
{
    assert((a + x).skip(a.len() as int) =~= x);
    assert(t.skip(p).skip(a.len() as int) =~= t.skip(p + a.len()));
}

/// Appends `c` as a JSON object.
pub fn push_clip(out: &mut String, c: &Clip)
    ensures
        final(out)@ == old(out)@ + enc_clip(c@),
{
    proof {
        reveal_strlit("{\"media\":");
        reveal_strlit(",\"start\":");
        reveal_strlit(",\"end\":");
    }
    let ghost o = out@;
    out.append("{\"media\":");
    assert("{\"media\":"@ =~= w_media());
    push_strs(out, c.media());
    out.append(",\"start\":");
    assert(",\"start\":"@ =~= w_start());
    push_signed(out, c.start());
    out.append(",\"end\":");
    assert(",\"end\":"@ =~= w_end());
    push_signed(out, c.end());
    push_char(out, '}');
    assert(out@ =~= o + enc_clip(c@));
}

// ---- lists of clips ----

pub open spec fn clips_view(s: Seq<Clip>) -> Seq<ClipView> {
    s.map_values(|c: Clip| c@)
}

/// The items after the first of a JSON list of clips, each after a comma.
pub open spec fn more_clips(v: Seq<ClipView>) -> Seq<char>
    decreases v.len(),
{
    if v.len() == 0 {
        Seq::empty()
    } else {
        seq![','] + enc_clip(v[0]) + more_clips(v.drop_first())
    }
}

/// `v` as a JSON list of clips.
pub open spec fn enc_clips(v: Seq<ClipView>) -> Seq<char> {
    if v.len() == 0 {
        seq!['[', ']']
    } else {
        seq!['['] + enc_clip(v[0]) + more_clips(v.drop_first()) + seq![']']
    }
}

proof fn lemma_more_clips_push(a: Seq<ClipView>, x: ClipView)
    ensures
        more_clips(a.push(x)) == more_clips(a) + seq![','] + enc_clip(x),
    decreases a.len(),
{
    if a.len() == 0 {
        assert(a.push(x).drop_first() =~= Seq::<ClipView>::empty());
        assert(more_clips(a.push(x).drop_first()) =~= Seq::<char>::empty());
        assert(more_clips(a) =~= Seq::<char>::empty());
        assert(more_clips(a.push(x)) =~= more_clips(a) + seq![','] + enc_clip(x));
    } else {
        assert(a.push(x).drop_first() =~= a.drop_first().push(x));
        lemma_more_clips_push(a.drop_first(), x);
        assert(more_clips(a.push(x)) =~= more_clips(a) + seq![','] + enc_clip(x));
    }
}

/// Appends `v` as a JSON list of clips.
pub fn push_clips(out: &mut String, v: &[Clip])
    ensures
        final(out)@ == old(out)@ + enc_clips(clips_view(v@)),
{
    let ghost sv = clips_view(v@);
    let ghost o = out@;
    if v.len() == 0 {
        push_char(out, '[');
        push_char(out, ']');
        assert(out@ =~= o + enc_clips(sv));
        return;
    }
    push_char(out, '[');
    push_clip(out, &v[0]);
    let ghost head = out@;
    assert(sv.subrange(1, 1) =~= Seq::<ClipView>::empty());
    assert(head =~= o + seq!['['] + enc_clip(sv[0]) + more_clips(sv.subrange(1, 1)));
    let mut i: usize = 1;
    while i < v.len()
        invariant
            1 <= i <= v@.len(),
            sv == clips_view(v@),
            out@ == o + seq!['['] + enc_clip(sv[0]) + more_clips(sv.subrange(1, i as int)),
        decreases v@.len() - i,
    {
        let ghost before = out@;
        push_char(out, ',');
        push_clip(out, &v[i]);
        proof {
            assert(sv.subrange(1, i + 1) =~= sv.subrange(1, i as int).push(sv[i as int]));
            lemma_more_clips_push(sv.subrange(1, i as int), sv[i as int]);
        }
        i += 1;
        assert(out@ =~= o + seq!['['] + enc_clip(sv[0]) + more_clips(sv.subrange(1, i as int)));
    }
    assert(sv.subrange(1, sv.len() as int) =~= sv.drop_first());
    push_char(out, ']');
    assert(out@ =~= o + enc_clips(sv));
}

// ---- the ledger ----

pub open spec fn w_original() -> Seq<char> {
    seq!['{', '"', 'o', 'r', 'i', 'g', 'i', 'n', 'a', 'l', '_', 'm', 'e', 'd', 'i', 'a', '"', ':']
}

pub open spec fn w_clips() -> Seq<char> {
    seq![',', '"', 'c', 'l', 'i', 'p', 's', '"', ':']
}

/// A ledger as a JSON document.
pub open spec fn enc_ledger(l: ClipsView) -> Seq<char> {
    w_original() + enc_strs(l.original_media) + w_clips() + enc_clips(l.clips) + seq!['}']
}

impl Clips {
    /// The ledger as a compact JSON document.
    pub fn to_json(&self) -> (r: String)
        ensures
            r@ == enc_ledger(self@),
    {
        proof {
            reveal_strlit("{\"original_media\":");
            reveal_strlit(",\"clips\":");
        }
        let mut out = String::new();
        out.append("{\"original_media\":");
        assert("{\"original_media\":"@ =~= w_original());
        push_strs(&mut out, self.original_media());
        out.append(",\"clips\":");
        assert(",\"clips\":"@ =~= w_clips());
        let cs = self.iter();
        assert(clips_view(cs@) == self@.clips);
        push_clips(&mut out, cs);
        push_char(&mut out, '}');
        assert(out@ =~= enc_ledger(self@));
        out
    }
}

} // verus!
