//! The clip ledger: for each clip cut out of the original media, the files
//! produced and the timespan they occupy in the original recording.
use vstd::prelude::*;
use crate::paths::{ext_of, extension, file_stem, stem_of};

verus! {

pub open spec fn strs_view(v: Seq<String>) -> Seq<Seq<char>> {
    v.map_values(|s: String| s@)
}

/// One clip: the files cut for one annotation, and its start and end in
/// milliseconds in the original media.
#[derive(Debug, Clone, Default)]
pub struct Clip {
    media: Vec<String>,
    start: i64,
    end: i64,
}

pub struct ClipView {
    pub media: Seq<Seq<char>>,
    pub start: i64,
    pub end: i64,
}

impl View for Clip {
    type V = ClipView;

    closed spec fn view(&self) -> ClipView {
        ClipView { media: strs_view(self.media@), start: self.start, end: self.end }
    }
}

/// The ledger of one extraction run.
#[derive(Debug, Clone, Default)]
pub struct Clips {
    original_media: Vec<String>,
    clips: Vec<Clip>,
}

pub struct ClipsView {
    pub original_media: Seq<Seq<char>>,
    pub clips: Seq<ClipView>,
}

impl View for Clips {
    type V = ClipsView;

    closed spec fn view(&self) -> ClipsView {
        ClipsView {
            original_media: strs_view(self.original_media@),
            clips: self.clips@.map_values(|c: Clip| c@),
        }
    }
}

pub fn copy_strings(v: &[String]) -> (r: Vec<String>)
    ensures
        r@ == v@,
{
    let mut r: Vec<String> = Vec::new();
    let mut i: usize = 0;
    while i < v.len()
        invariant
            i <= v@.len(),
            r@ == v@.take(i as int),
        decreases v@.len() - i,
    {
        r.push(v[i].clone());
        i += 1;
        assert(r@ =~= v@.take(i as int));
    }
    assert(r@ =~= v@);
    r
}

impl Clip {
    /// A clip of the files `media`, spanning `start` to `end` ms.
    pub fn new(media: &[String], start: i64, end: i64) -> (r: Clip)
        ensures
            r@.media == strs_view(media@),
            r@.start == start,
            r@.end == end,
    {
        Clip { media: copy_strings(media), start, end }
    }

    /// Adds a media path.
    pub fn add(&mut self, path: &str)
        ensures
            final(self)@.media == old(self)@.media.push(path@),
            final(self)@.start == old(self)@.start,
            final(self)@.end == old(self)@.end,
    {
        self.media.push(String::from_str(path));
        assert(strs_view(self.media@) =~= strs_view(old(self).media@).push(path@));
    }

    /// Sets the start and end timestamps, in milliseconds.
    pub fn ts(&mut self, start: i64, end: i64)
        ensures
            final(self)@.media == old(self)@.media,
            final(self)@.start == start,
            final(self)@.end == end,
    {
        self.start = start;
        self.end = end;
    }

    pub fn media(&self) -> (r: &[String])
        ensures
            strs_view(r@) == self@.media,
    {
        self.media.as_slice()
    }

    pub fn start(&self) -> (r: i64)
        ensures
            r == self@.start,
    {
        self.start
    }

    pub fn end(&self) -> (r: i64)
        ensures
            r == self@.end,
    {
        self.end
    }

    /// A copy of this clip.
    pub fn duplicate(&self) -> (r: Clip)
        ensures
            r@ == self@,
    {
        Clip { media: copy_strings(self.media.as_slice()), start: self.start, end: self.end }
    }
}

/// The stem that a clip file is looked up by: the file stem of `s`, with
/// extensions stripped one at a time until none is left.
pub open spec fn bare_stem(s: Seq<char>) -> Option<Seq<char>>
    decreases s.len(),
{
    match ext_of(s) {
        None => Some(s),
        Some(_) => match stem_of(s) {
            Some(t) => if t.len() < s.len() {
                bare_stem(t)
            } else {
                None
            },
            None => None,
        },
    }
}

/// The key that `path` is looked up by in a ledger.
pub open spec fn lookup_key(path: Seq<char>) -> Option<Seq<char>> {
    match stem_of(path) {
        Some(s) => bare_stem(s),
        None => None,
    }
}

/// Whether one of the clip's files has the file stem `key`.
pub open spec fn clip_has_stem(c: ClipView, key: Seq<char>) -> bool {
    exists|j: int| 0 <= j < c.media.len() && stem_of(#[trigger] c.media[j]) == Some(key)
}

/// The timestamps of the first clip in `clips` one of whose files has the
/// stem `key`.
pub open spec fn first_with_stem(clips: Seq<ClipView>, key: Seq<char>) -> Option<(i64, i64)>
    decreases clips.len(),
{
    if clips.len() == 0 {
        None
    } else if clip_has_stem(clips[0], key) {
        Some((clips[0].start, clips[0].end))
    } else {
        first_with_stem(clips.drop_first(), key)
    }
}

/// The timestamps in the original media of the clip that `path` belongs to.
pub open spec fn timestamps_for(ledger: ClipsView, path: Seq<char>) -> Option<(i64, i64)> {
    match lookup_key(path) {
        Some(key) => first_with_stem(ledger.clips, key),
        None => None,
    }
}

fn has_stem(c: &Clip, key: &String) -> (r: bool)
    ensures
        r == clip_has_stem(c@, key@),
{
    let mut j: usize = 0;
    while j < c.media.len()
        invariant
            j <= c.media@.len(),
            forall|k: int| 0 <= k < j ==> stem_of(#[trigger] c@.media[k]) != Some(key@),
        decreases c.media@.len() - j,
    {
        match file_stem(c.media[j].as_str()) {
            Some(s) => if s == *key {
                assert(stem_of(c@.media[j as int]) == Some(key@));
                return true;
            },
            None => {},
        }
        j += 1;
    }
    false
}

impl Clips {
    /// An empty ledger for a run over the original media `media`.
    pub fn with_media(media: Vec<String>) -> (r: Clips)
        ensures
            r@.original_media == strs_view(media@),
            r@.clips.len() == 0,
    {
        Clips { original_media: media, clips: Vec::new() }
    }

    /// A ledger of the original media `original_media` holding `clips`.
    pub fn from_parts(original_media: Vec<String>, clips: Vec<Clip>) -> (r: Clips)
        ensures
            r@.original_media == strs_view(original_media@),
            r@.clips == clips@.map_values(|c: Clip| c@),
    {
        Clips { original_media, clips }
    }

    /// The clips, in the order they were added.
    pub fn iter(&self) -> (r: &[Clip])
        ensures
            r@.map_values(|c: Clip| c@) == self@.clips,
    {
        self.clips.as_slice()
    }

    pub fn original_media(&self) -> (r: &[String])
        ensures
            strs_view(r@) == self@.original_media,
    {
        self.original_media.as_slice()
    }

    /// The number of clips.
    pub fn len(&self) -> (r: usize)
        ensures
            r == self@.clips.len(),
    {
        self.clips.len()
    }

    /// Appends a copy of `clip`.
    pub fn add(&mut self, clip: &Clip)
        ensures
            final(self)@.clips == old(self)@.clips.push(clip@),
            final(self)@.original_media == old(self)@.original_media,
    {
        self.clips.push(clip.duplicate());
        assert(self@.clips =~= old(self)@.clips.push(clip@));
    }

    /// The timestamps in the original media of the clip whose file has the
    /// stem of `path`, with every extension of `path` stripped (so
    /// `talk.words.wav.json` is looked up as `talk`). The first such clip
    /// wins.
    pub fn get_timestamps(&self, path: &str) -> (r: Option<(i64, i64)>)
        ensures
            r == timestamps_for(self@, path@),
    {
        let mut stem = match file_stem(path) {
            Some(s) => s,
            None => return None,
        };
        loop
            invariant
                lookup_key(path@) == bare_stem(stem@),
            ensures
                lookup_key(path@) == Some(stem@),
            decreases stem@.len(),
        {
            match extension(stem.as_str()) {
                None => break,
                Some(_) => {
                    match file_stem(stem.as_str()) {
                        Some(t) => {
                            stem = t;
                        },
                        None => {
                            return None;
                        },
                    }
                },
            }
        }
        self.timestamps_for_stem(&stem)
    }

    /// The timestamps of the first clip one of whose files has the stem
    /// `key`.
    pub fn timestamps_for_stem(&self, key: &String) -> (r: Option<(i64, i64)>)
        ensures
            r == first_with_stem(self@.clips, key@),
    {
        let mut i: usize = 0;
        assert(self@.clips.skip(0) =~= self@.clips);
        while i < self.clips.len()
            invariant
                i <= self.clips@.len(),
                first_with_stem(self@.clips, key@) == first_with_stem(
                    self@.clips.skip(i as int),
                    key@,
                ),
            decreases self.clips@.len() - i,
        {
            let ghost rest = self@.clips.skip(i as int);
            assert(rest[0] == self.clips[i as int]@);
            if has_stem(&self.clips[i], key) {
                return Some((self.clips[i].start, self.clips[i].end));
            }
            assert(rest.drop_first() =~= self@.clips.skip(i + 1));
            i += 1;
        }
        None
    }
}

} // verus!
