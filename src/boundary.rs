//! Annotation boundaries to cut, and the file names of the clips cut at
//! them.
use vstd::prelude::*;
use crate::numfmt::{padded, push_padded, push_signed, signed_dec};
use crate::paths::{ext_of, extension, file_stem, joined, join_path, stem_of};
use crate::text::{process_string, push_char, sanitized, StripPattern};

verus! {

/// What the extractor reads of one annotation: its id, its value and, where
/// its time slots carry values, its start and end in milliseconds.
pub struct AnnotationInfo {
    pub id: String,
    pub value: String,
    pub start: Option<i64>,
    pub end: Option<i64>,
}

/// An annotation boundary: start and end in milliseconds, annotation id and
/// value.
pub struct Boundary {
    pub start: i64,
    pub end: i64,
    pub id: String,
    pub value: String,
}

pub struct AnnotationView {
    pub id: Seq<char>,
    pub value: Seq<char>,
    pub start: Option<i64>,
    pub end: Option<i64>,
}

pub struct BoundaryView {
    pub start: i64,
    pub end: i64,
    pub id: Seq<char>,
    pub value: Seq<char>,
}

impl View for AnnotationInfo {
    type V = AnnotationView;

    open spec fn view(&self) -> AnnotationView {
        AnnotationView { id: self.id@, value: self.value@, start: self.start, end: self.end }
    }
}

impl View for Boundary {
    type V = BoundaryView;

    open spec fn view(&self) -> BoundaryView {
        BoundaryView { start: self.start, end: self.end, id: self.id@, value: self.value@ }
    }
}

pub open spec fn annotations_view(s: Seq<AnnotationInfo>) -> Seq<AnnotationView> {
    s.map_values(|a: AnnotationInfo| a@)
}

pub open spec fn boundaries_view(s: Seq<Boundary>) -> Seq<BoundaryView> {
    s.map_values(|b: Boundary| b@)
}

pub open spec fn is_timed(a: AnnotationView) -> bool {
    a.start is Some && a.end is Some
}

pub open spec fn duration_of(a: AnnotationView) -> int {
    a.end->Some_0 - a.start->Some_0
}

/// Whether batch mode cuts at `a`: it has time values and, where a minimum
/// duration is set, lasts at least that long.
pub open spec fn kept(a: AnnotationView, min_dur: Option<i64>) -> bool {
    is_timed(a) && match min_dur {
        Some(m) => m <= duration_of(a),
        None => true,
    }
}

pub open spec fn boundary_of(a: AnnotationView) -> BoundaryView {
    BoundaryView { start: a.start->Some_0, end: a.end->Some_0, id: a.id, value: a.value }
}

/// The boundaries of batch mode, in the order of the annotations.
pub open spec fn batch(anns: Seq<AnnotationView>, min_dur: Option<i64>) -> Seq<BoundaryView>
    decreases anns.len(),
{
    if anns.len() == 0 {
        Seq::empty()
    } else {
        let rest = batch(anns.drop_last(), min_dur);
        if kept(anns.last(), min_dur) {
            rest.push(boundary_of(anns.last()))
        } else {
            rest
        }
    }
}

/// The durations of boundaries.
pub open spec fn durations(bs: Seq<BoundaryView>) -> Seq<int> {
    bs.map_values(|b: BoundaryView| b.end - b.start)
}

/// Durations fit in an `i64` for every annotation with time values.
pub open spec fn durations_fit(anns: Seq<AnnotationView>) -> bool {
    forall|i: int|
        0 <= i < anns.len() && is_timed(#[trigger] anns[i]) ==> i64::MIN <= duration_of(anns[i])
            <= i64::MAX
}

fn copy_boundary(a: &AnnotationInfo, start: i64, end: i64) -> (b: Boundary)
    ensures
        b@ == (BoundaryView { start, end, id: a.id@, value: a.value@ }),
{
    Boundary { start, end, id: a.id.clone(), value: a.value.clone() }
}

/// The boundaries of batch mode: every annotation with time values that
/// lasts at least `min_dur` (where given), with the durations of those kept.
pub fn batch_boundaries(annotations: &[AnnotationInfo], min_dur: Option<i64>) -> (r: (
    Vec<Boundary>,
    Vec<i64>,
))
    requires
        durations_fit(annotations_view(annotations@)),
    ensures
        boundaries_view(r.0@) == batch(annotations_view(annotations@), min_dur),
        r.1@.map_values(|d: i64| d as int) == durations(boundaries_view(r.0@)),
{
    let ghost anns = annotations_view(annotations@);
    let mut out: Vec<Boundary> = Vec::new();
    let mut durs: Vec<i64> = Vec::new();
    let mut i: usize = 0;
    while i < annotations.len()
        invariant
            i <= annotations@.len(),
            anns == annotations_view(annotations@),
            durations_fit(anns),
            boundaries_view(out@) == batch(anns.take(i as int), min_dur),
            durs@.map_values(|d: i64| d as int) == durations(boundaries_view(out@)),
        decreases annotations@.len() - i,
    {
        let a = &annotations[i];
        assert(anns.take(i + 1).drop_last() =~= anns.take(i as int));
        assert(anns.take(i + 1).last() == anns[i as int]);
        match (a.start, a.end) {
            (Some(s), Some(e)) => {
                assert(is_timed(anns[i as int]));
                let len = e - s;
                let keep = match min_dur {
                    Some(m) => m <= len,
                    None => true,
                };
                if keep {
                    let b = copy_boundary(a, s, e);
                    let ghost out0 = out@;
                    let ghost durs0 = durs@;
                    let ghost bv = b@;
                    out.push(b);
                    durs.push(len);
                    assert(boundaries_view(out@) =~= boundaries_view(out0).push(bv));
                    assert(durations(boundaries_view(out@)) =~= durations(
                        boundaries_view(out0),
                    ).push(len as int));
                    assert(durs@.map_values(|d: i64| d as int) =~= durs0.map_values(
                        |d: i64| d as int,
                    ).push(len as int));
                    assert(boundaries_view(out@) =~= batch(anns.take(i + 1), min_dur));
                    assert(durs@.map_values(|d: i64| d as int) =~= durations(
                        boundaries_view(out@),
                    ));
                } else {
                    assert(boundaries_view(out@) =~= batch(anns.take(i + 1), min_dur));
                }
            },
            _ => {
                assert(boundaries_view(out@) =~= batch(anns.take(i + 1), min_dur));
            },
        }
        i += 1;
    }
    assert(anns.take(annotations@.len() as int) =~= anns);
    (out, durs)
}

/// The boundary of single mode: the chosen annotation, which must have time
/// values.
pub fn single_boundary(a: &AnnotationInfo) -> (r: Option<Boundary>)
    ensures
        r is Some <==> is_timed(a@),
        r is Some ==> r->Some_0@ == boundary_of(a@),
{
    match (a.start, a.end) {
        (Some(s), Some(e)) => Some(copy_boundary(a, s, e)),
        _ => None,
    }
}

pub open spec fn seq_max(s: Seq<int>) -> int
    decreases s.len(),
{
    if s.len() == 0 {
        0
    } else if s.len() == 1 {
        s[0]
    } else {
        let m = seq_max(s.drop_last());
        if s.last() > m { s.last() } else { m }
    }
}

pub open spec fn seq_min(s: Seq<int>) -> int
    decreases s.len(),
{
    if s.len() == 0 {
        0
    } else if s.len() == 1 {
        s[0]
    } else {
        let m = seq_min(s.drop_last());
        if s.last() < m { s.last() } else { m }
    }
}

/// The longest and the shortest of `durs`, both zero when there is none.
pub fn duration_summary(durs: &[i64]) -> (r: (i64, i64))
    ensures
        r.0 == seq_max(durs@.map_values(|d: i64| d as int)),
        r.1 == seq_min(durs@.map_values(|d: i64| d as int)),
{
    let ghost s = durs@.map_values(|d: i64| d as int);
    if durs.len() == 0 {
        return (0, 0);
    }
    let mut hi = durs[0];
    let mut lo = durs[0];
    let mut i: usize = 1;
    assert(s.take(1).drop_last().len() == 0);
    while i < durs.len()
        invariant
            1 <= i <= durs@.len(),
            s == durs@.map_values(|d: i64| d as int),
            hi == seq_max(s.take(i as int)),
            lo == seq_min(s.take(i as int)),
        decreases durs@.len() - i,
    {
        assert(s.take(i + 1).drop_last() =~= s.take(i as int));
        if durs[i] > hi {
            hi = durs[i];
        }
        if durs[i] < lo {
            lo = durs[i];
        }
        i += 1;
    }
    assert(s.take(durs@.len() as int) =~= s);
    (hi, lo)
}

/// Which parts go into a clip's file name, and how the value is cut down.
pub struct NameOptions {
    pub use_tier_id: bool,
    pub use_annotation_id: bool,
    pub use_value: bool,
    pub use_time: bool,
    pub max_value_length: usize,
    pub ascii_only: bool,
}

/// The characters that are always removed from an annotation value before
/// it goes into a file name, as one regular-expression character class:
/// quotes, `#*<>{}()[].,:;!/?=`, backslash and hyphen.
pub fn unsafe_chars_pattern() -> (r: &'static str)
    ensures
        r@ == "[\"'#*<>{}()\\[\\].,:;!/?=\\\\-]"@,
{
    "[\"'#*<>{}()\\[\\].,:;!/?=\\\\-]"
}

/// The value as it goes into a file name.
pub open spec fn value_part(value: Seq<char>, opts: NameOptions, strip: Seq<char>) -> Seq<char> {
    sanitized(
        value,
        if opts.ascii_only { Some('_') } else { None },
        None,
        Some(strip),
        Some(opts.max_value_length),
    )
}

pub open spec fn under(part: Seq<char>) -> Seq<char> {
    seq!['_'] + part
}

/// The annotation part of a clip's file name: `annotation_NNNN` for the
/// 1-based `index`, then, each where enabled and in this order, the tier id,
/// the annotation id, the cleaned value and the `start-end` range, each
/// after an underscore.
pub open spec fn annotation_stem(
    index: nat,
    tier_id: Seq<char>,
    b: BoundaryView,
    opts: NameOptions,
    strip: Seq<char>,
) -> Seq<char> {
    let base = "annotation_"@ + padded(index, 4);
    let t = if opts.use_tier_id { under(tier_id) } else { Seq::empty() };
    let a = if opts.use_annotation_id { under(b.id) } else { Seq::empty() };
    let v = if opts.use_value { under(value_part(b.value, opts, strip)) } else { Seq::empty() };
    let tm = if opts.use_time {
        under(signed_dec(b.start as int) + seq!['-'] + signed_dec(b.end as int))
    } else {
        Seq::empty()
    };
    base + t + a + v + tm
}

fn underscored(part: &str) -> (r: String)
    ensures
        r@ == under(part@),
{
    let mut s = String::new();
    push_char(&mut s, '_');
    s.append(part);
    assert(s@ =~= under(part@));
    s
}

fn time_part(b: &Boundary) -> (r: String)
    ensures
        r@ == under(signed_dec(b.start as int) + seq!['-'] + signed_dec(b.end as int)),
{
    let mut s = String::new();
    push_char(&mut s, '_');
    push_signed(&mut s, b.start);
    push_char(&mut s, '-');
    push_signed(&mut s, b.end);
    assert(s@ =~= under(signed_dec(b.start as int) + seq!['-'] + signed_dec(b.end as int)));
    s
}

fn value_part_of(b: &Boundary, opts: &NameOptions, strip: &StripPattern) -> (r: String)
    ensures
        r@ == under(value_part(b.value@, *opts, strip@)),
{
    let ascii_sub = '_';
    let v = process_string(
        b.value.as_str(),
        if opts.ascii_only { Some(&ascii_sub) } else { None },
        None,
        Some(strip),
        Some(opts.max_value_length),
    );
    underscored(v.as_str())
}

/// Builds the annotation part of a clip's file name for the boundary at
/// 1-based position `index` of tier `tier_id`.
pub fn annotation_stem_of(
    index: u64,
    tier_id: &str,
    b: &Boundary,
    opts: &NameOptions,
    strip: &StripPattern,
) -> (r: String)
    ensures
        r@ == annotation_stem(index as nat, tier_id@, b@, *opts, strip@),
{
    let mut s = String::from_str("annotation_");
    push_padded(&mut s, index, 4);
    let t = if opts.use_tier_id { underscored(tier_id) } else { String::new() };
    let a = if opts.use_annotation_id { underscored(b.id.as_str()) } else { String::new() };
    let v = if opts.use_value { value_part_of(b, opts, strip) } else { String::new() };
    let tm = if opts.use_time { time_part(b) } else { String::new() };
    s.append(t.as_str());
    s.append(a.as_str());
    s.append(v.as_str());
    s.append(tm.as_str());
    s
}

/// A clip's file name: the media file's stem, an underscore, the annotation
/// part, and the media file's extension.
pub open spec fn clip_file_name(media_stem: Seq<char>, annot: Seq<char>, ext: Seq<char>) -> Seq<char> {
    media_stem + under(annot) + seq!['.'] + ext
}

/// The path of the clip cut from `media` into `dir`; `None` where `media`
/// has no extension, which leaves its file type unknown.
pub open spec fn clip_path(dir: Seq<char>, media: Seq<char>, annot: Seq<char>) -> Option<Seq<char>> {
    match ext_of(media) {
        Some(ext) => Some(joined(dir, clip_file_name(stem_of(media)->Some_0, annot, ext))),
        None => None,
    }
}

/// The path of the clip cut from `media` into `dir` for the annotation part
/// `annot`.
pub fn clip_path_of(dir: &str, media: &str, annot: &str) -> (r: Option<String>)
    ensures
        r is Some <==> clip_path(dir@, media@, annot@) is Some,
        r is Some ==> r->Some_0@ == clip_path(dir@, media@, annot@)->Some_0,
{
    let ext = match extension(media) {
        Some(e) => e,
        None => return None,
    };
    let stem = match file_stem(media) {
        Some(s) => s,
        None => return None,
    };
    let name = clip_file_name_of(stem.as_str(), annot, ext.as_str());
    Some(join_path(dir, name.as_str()))
}

/// A clip's file name from the media file's stem, the annotation part and
/// the media file's extension.
pub fn clip_file_name_of(media_stem: &str, annot: &str, ext: &str) -> (r: String)
    ensures
        r@ == clip_file_name(media_stem@, annot@, ext@),
{
    let mut name = String::from_str(media_stem);
    push_char(&mut name, '_');
    name.append(annot);
    push_char(&mut name, '.');
    name.append(ext);
    assert(name@ =~= clip_file_name(media_stem@, annot@, ext@));
    name
}

/// Where the media of one linked file is read from.
#[derive(PartialEq, Eq, Structural, Debug, Clone, Copy)]
pub enum MediaSource {
    /// the absolute path, which exists
    Absolute,
    /// the relative path, which exists
    Relative,
    /// neither exists; a dry run goes on with the absolute path
    Placeholder,
    /// neither exists: the run cannot go on
    Missing,
}

/// Chooses where a linked media file is read from: the absolute path where
/// it exists, else the relative one where it is given and exists, else, in a
/// dry run only, the absolute path as a placeholder.
pub fn resolve_media(abs_exists: bool, rel_exists: bool, dryrun: bool) -> (r: MediaSource)
    ensures
        abs_exists ==> r == MediaSource::Absolute,
        !abs_exists && rel_exists ==> r == MediaSource::Relative,
        !abs_exists && !rel_exists && dryrun ==> r == MediaSource::Placeholder,
        !abs_exists && !rel_exists && !dryrun ==> r == MediaSource::Missing,
{
    if abs_exists {
        MediaSource::Absolute
    } else if rel_exists {
        MediaSource::Relative
    } else if dryrun {
        MediaSource::Placeholder
    } else {
        MediaSource::Missing
    }
}

} // verus!
