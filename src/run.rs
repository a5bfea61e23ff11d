//! One tier of a clip extraction run: the clips to cut, the ledger that a
//! finished tier writes, and the decisions between the cuts.
use vstd::prelude::*;
use crate::boundary::{annotation_stem, annotation_stem_of, boundaries_view, clip_path, clip_path_of, Boundary, BoundaryView, NameOptions};
use crate::ledger::{copy_strings, strs_view, Clip, ClipView, Clips, ClipsView};
use crate::paths::{ext_of, join_path, joined, with_extension, with_extension_of};
use crate::text::StripPattern;

verus! {

/// The files cut for one boundary, one per media file.
pub struct BoundaryPlan {
    pub start: i64,
    pub end: i64,
    pub outputs: Vec<String>,
}

impl View for BoundaryPlan {
    type V = ClipView;

    open spec fn view(&self) -> ClipView {
        ClipView { media: strs_view(self.outputs@), start: self.start, end: self.end }
    }
}

pub open spec fn plans_view(s: Seq<BoundaryPlan>) -> Seq<ClipView> {
    s.map_values(|p: BoundaryPlan| p@)
}

/// The clip planned for the boundary at 0-based position `k`.
pub open spec fn planned_clip(
    dir: Seq<char>,
    tier_id: Seq<char>,
    sources: Seq<Seq<char>>,
    k: int,
    b: BoundaryView,
    opts: NameOptions,
    strip: Seq<char>,
) -> ClipView {
    ClipView {
        media: sources.map_values(
            |m: Seq<char>|
                clip_path(dir, m, annotation_stem((k + 1) as nat, tier_id, b, opts, strip))->Some_0,
        ),
        start: b.start,
        end: b.end,
    }
}

/// Whether every media file has an extension, so that each clip's file
/// type is known.
pub open spec fn all_typed(sources: Seq<Seq<char>>) -> bool {
    forall|j: int| 0 <= j < sources.len() ==> (#[trigger] ext_of(sources[j])) is Some
}

/// Why a tier cannot be planned.
#[derive(PartialEq, Eq, Structural, Debug, Clone, Copy)]
pub enum PlanError {
    /// The media file at this position has no extension.
    NoExtension(usize),
}

/// Plans the clips of one tier: for each boundary, in order, the path of
/// the clip cut from each media file into `dir`. Fails where there is a
/// boundary and a media file has no extension.
pub fn plan_tier(
    dir: &str,
    tier_id: &str,
    sources: &[String],
    boundaries: &[Boundary],
    opts: &NameOptions,
    strip: &StripPattern,
) -> (r: Result<Vec<BoundaryPlan>, PlanError>)
    ensures
        r is Ok <==> boundaries@.len() == 0 || all_typed(strs_view(sources@)),
        r matches Err(PlanError::NoExtension(j)) ==> j < sources@.len() && ext_of(
            sources@[j as int]@,
        ) is None,
        r is Ok ==> plans_view(r->Ok_0@).len() == boundaries@.len() && forall|k: int|
            0 <= k < boundaries@.len() ==> #[trigger] plans_view(r->Ok_0@)[k] == planned_clip(
                dir@,
                tier_id@,
                strs_view(sources@),
                k,
                boundaries@[k]@,
                *opts,
                strip@,
            ),
{
    let mut plans: Vec<BoundaryPlan> = Vec::new();
    let mut k: usize = 0;
    while k < boundaries.len()
        invariant
            k <= boundaries@.len(),
            k > 0 ==> all_typed(strs_view(sources@)),
            plans@.len() == k,
            forall|i: int|
                0 <= i < k ==> #[trigger] plans_view(plans@)[i] == planned_clip(
                    dir@,
                    tier_id@,
                    strs_view(sources@),
                    i,
                    boundaries@[i]@,
                    *opts,
                    strip@,
                ),
        decreases boundaries@.len() - k,
    {
        let b = &boundaries[k];
        let annot = annotation_stem_of((k + 1) as u64, tier_id, b, opts, strip);
        let ghost want = planned_clip(dir@, tier_id@, strs_view(sources@), k as int, b@, *opts, strip@);
        let mut outputs: Vec<String> = Vec::new();
        let mut j: usize = 0;
        while j < sources.len()
            invariant
                j <= sources@.len(),
                k < boundaries@.len(),
                annot@ == annotation_stem((k + 1) as nat, tier_id@, b@, *opts, strip@),
                want == planned_clip(dir@, tier_id@, strs_view(sources@), k as int, b@, *opts, strip@),
                forall|i: int| 0 <= i < j ==> (#[trigger] ext_of(strs_view(sources@)[i])) is Some,
                strs_view(outputs@) == want.media.take(j as int),
            decreases sources@.len() - j,
        {
            assert(strs_view(sources@)[j as int] == sources@[j as int]@);
            match clip_path_of(dir, sources[j].as_str(), annot.as_str()) {
                Some(p) => {
                    assert(want.media[j as int] == p@);
                    let ghost o0 = outputs@;
                    outputs.push(p);
                    assert(strs_view(outputs@) =~= strs_view(o0).push(p@));
                    assert(strs_view(outputs@) =~= want.media.take(j + 1));
                },
                None => {
                    assert(ext_of(strs_view(sources@)[j as int]) is None);
                    assert(!all_typed(strs_view(sources@)));
                    return Err(PlanError::NoExtension(j));
                },
            }
            j += 1;
        }
        assert(want.media.take(sources@.len() as int) =~= want.media);
        assert(all_typed(strs_view(sources@)));
        let ghost before = plans@;
        plans.push(BoundaryPlan { start: b.start, end: b.end, outputs });
        assert(plans_view(plans@)[k as int] == want);
        assert forall|i: int| 0 <= i < k + 1 implies #[trigger] plans_view(plans@)[i]
            == planned_clip(dir@, tier_id@, strs_view(sources@), i, boundaries@[i]@, *opts, strip@) by {
            if i < k {
                assert(plans_view(plans@)[i] == plans_view(before)[i]);
            }
        }
        k += 1;
    }
    Ok(plans)
}

/// The ledger of a tier whose cuts all succeeded: `base` with one clip per
/// planned boundary appended, in order.
pub fn ledger_for(base: &Clips, plans: &[BoundaryPlan]) -> (r: Clips)
    ensures
        r@.original_media == base@.original_media,
        r@.clips == base@.clips + plans_view(plans@),
{
    let mut ledger = Clips::with_media(copy_strings(base.original_media()));
    let existing = base.iter();
    let mut i: usize = 0;
    while i < existing.len()
        invariant
            i <= existing@.len(),
            existing@.map_values(|c: Clip| c@) == base@.clips,
            ledger@.original_media == base@.original_media,
            ledger@.clips == base@.clips.take(i as int),
        decreases existing@.len() - i,
    {
        ledger.add(&existing[i]);
        assert(ledger@.clips =~= base@.clips.take(i + 1));
        i += 1;
    }
    assert(base@.clips.take(existing@.len() as int) =~= base@.clips);
    let mut k: usize = 0;
    while k < plans.len()
        invariant
            k <= plans@.len(),
            ledger@.original_media == base@.original_media,
            ledger@.clips == base@.clips + plans_view(plans@).take(k as int),
        decreases plans@.len() - k,
    {
        let p = &plans[k];
        let c = Clip::new(p.outputs.as_slice(), p.start, p.end);
        assert(c@ == p@);
        ledger.add(&c);
        assert(ledger@.clips =~= base@.clips + plans_view(plans@).take(k + 1));
        k += 1;
    }
    assert(plans_view(plans@).take(plans@.len() as int) =~= plans_view(plans@));
    ledger
}

/// One cut: the media file read, the timespan in milliseconds, and the
/// file written.
pub struct CutJob {
    pub source: String,
    pub start: i64,
    pub end: i64,
    pub dest: String,
}

pub struct CutJobView {
    pub source: Seq<char>,
    pub start: i64,
    pub end: i64,
    pub dest: Seq<char>,
}

impl View for CutJob {
    type V = CutJobView;

    open spec fn view(&self) -> CutJobView {
        CutJobView { source: self.source@, start: self.start, end: self.end, dest: self.dest@ }
    }
}

pub open spec fn jobs_view(s: Seq<CutJob>) -> Seq<CutJobView> {
    s.map_values(|j: CutJob| j@)
}

/// The cuts for one planned clip, one per media file, in order.
pub open spec fn row(sources: Seq<Seq<char>>, p: ClipView) -> Seq<CutJobView> {
    Seq::new(
        sources.len(),
        |m: int| CutJobView { source: sources[m], start: p.start, end: p.end, dest: p.media[m] },
    )
}

/// The cuts of a tier, clip by clip and, within a clip, media file by media
/// file.
pub open spec fn jobs_of(sources: Seq<Seq<char>>, plans: Seq<ClipView>) -> Seq<CutJobView>
    decreases plans.len(),
{
    if plans.len() == 0 {
        Seq::empty()
    } else {
        jobs_of(sources, plans.drop_last()) + row(sources, plans.last())
    }
}

/// Lists the cuts of a planned tier in the order they are made.
pub fn cut_jobs(sources: &[String], plans: &[BoundaryPlan]) -> (r: Vec<CutJob>)
    requires
        forall|b: int| 0 <= b < plans@.len() ==> (#[trigger] plans@[b]).outputs@.len() == sources@.len(),
    ensures
        jobs_view(r@) == jobs_of(strs_view(sources@), plans_view(plans@)),
{
    let ghost sv = strs_view(sources@);
    let ghost pv = plans_view(plans@);
    let mut r: Vec<CutJob> = Vec::new();
    let mut b: usize = 0;
    while b < plans.len()
        invariant
            b <= plans@.len(),
            sv == strs_view(sources@),
            pv == plans_view(plans@),
            forall|c: int| 0 <= c < plans@.len() ==> (#[trigger] plans@[c]).outputs@.len() == sources@.len(),
            jobs_view(r@) == jobs_of(sv, pv.take(b as int)),
        decreases plans@.len() - b,
    {
        let p = &plans[b];
        let ghost base = jobs_view(r@);
        let mut m: usize = 0;
        while m < sources.len()
            invariant
                m <= sources@.len(),
                b < plans@.len(),
                p == plans@[b as int],
                p.outputs@.len() == sources@.len(),
                sv == strs_view(sources@),
                pv == plans_view(plans@),
                jobs_view(r@) == base + row(sv, pv[b as int]).take(m as int),
            decreases sources@.len() - m,
        {
            let job = CutJob {
                source: sources[m].clone(),
                start: p.start,
                end: p.end,
                dest: p.outputs[m].clone(),
            };
            let ghost r0 = jobs_view(r@);
            r.push(job);
            assert(jobs_view(r@) =~= r0.push(row(sv, pv[b as int])[m as int]));
            m += 1;
            assert(jobs_view(r@) =~= base + row(sv, pv[b as int]).take(m as int));
        }
        assert(row(sv, pv[b as int]).take(sources@.len() as int) =~= row(sv, pv[b as int]));
        assert(pv.take(b + 1).drop_last() =~= pv.take(b as int));
        assert(pv.take(b + 1).last() == pv[b as int]);
        b += 1;
    }
    assert(pv.take(plans@.len() as int) =~= pv);
    r
}

/// Tiers with more annotations than this are listed only after the user
/// agrees.
pub const LARGE_TIER: usize = 40;

/// Whether a tier of `n` annotations asks before it is listed.
pub fn is_large_tier(n: usize) -> (r: bool)
    ensures
        r == (n > LARGE_TIER),
{
    n > LARGE_TIER
}

/// The name of the directory that a run writes into: the document's stem
/// and `_CLIPS`.
pub fn clips_dir_name(stem: &str) -> (r: String)
    ensures
        r@ == stem@ + seq!['_', 'C', 'L', 'I', 'P', 'S'],
{
    proof {
        reveal_strlit("_CLIPS");
    }
    let mut s = String::from_str(stem);
    s.append("_CLIPS");
    assert(s@ =~= stem@ + seq!['_', 'C', 'L', 'I', 'P', 'S']);
    s
}

/// The directory of a tier's clips: a directory named after the tier,
/// inside the run's directory.
pub fn tier_dir(outdir: &str, tier_id: &str) -> (r: String)
    ensures
        r@ == joined(outdir@, tier_id@),
{
    join_path(outdir, tier_id)
}

/// The path of a tier's ledger: `<tier_id>.json` in the tier's directory.
pub fn ledger_path(tier_dir: &str, tier_id: &str) -> (r: String)
    ensures
        r@ == joined(tier_dir@, with_extension_of(tier_id@, seq!['j', 's', 'o', 'n'])),
{
    proof {
        reveal_strlit("json");
    }
    assert("json"@ =~= seq!['j', 's', 'o', 'n']);
    let name = with_extension(tier_id, "json");
    join_path(tier_dir, name.as_str())
}

/// What became of one cut.
#[derive(PartialEq, Eq, Structural, Debug, Clone, Copy)]
pub enum CutOutcome {
    /// the clip was written
    Written,
    /// its file exists and the user declined to overwrite it
    Declined,
    /// the media tool failed
    Failed,
}

/// What to do next.
#[derive(PartialEq, Eq, Structural, Debug, Clone, Copy)]
pub enum Action {
    /// cut the job at this position
    Cut(usize),
    /// every cut succeeded: write the tier's ledger
    WriteLedger,
    /// stop the whole run: the job at `job` was declined or failed
    Abort { job: usize, declined: bool },
}

#[derive(PartialEq, Eq, Structural, Debug, Clone, Copy)]
pub enum Phase {
    Ready,
    Cutting,
    Finished,
    Aborted,
}

/// The progress of one tier through its cuts.
#[derive(PartialEq, Eq, Structural, Debug, Clone, Copy)]
pub struct TierRun {
    pub total: usize,
    pub done: usize,
    pub phase: Phase,
}

/// The well-formed states: no more cuts done than planned, and all of them
/// once finished.
pub open spec fn run_wf(s: TierRun) -> bool {
    &&& s.done <= s.total
    &&& s.phase == Phase::Ready ==> s.done == 0
    &&& s.phase == Phase::Cutting ==> s.done < s.total
    &&& s.phase == Phase::Finished ==> s.done == s.total
    &&& s.phase == Phase::Aborted ==> s.done < s.total
}

/// The first step of a run.
pub open spec fn start_spec(s: TierRun) -> (TierRun, Action) {
    if s.total == 0 {
        (TierRun { phase: Phase::Finished, ..s }, Action::WriteLedger)
    } else {
        (TierRun { phase: Phase::Cutting, ..s }, Action::Cut(0))
    }
}

/// The step after the outcome of the pending cut.
pub open spec fn report_spec(s: TierRun, o: CutOutcome) -> (TierRun, Action) {
    match o {
        CutOutcome::Written => if s.done + 1 == s.total {
            (TierRun { done: s.total, phase: Phase::Finished, ..s }, Action::WriteLedger)
        } else {
            (TierRun { done: (s.done + 1) as usize, ..s }, Action::Cut((s.done + 1) as usize))
        },
        CutOutcome::Declined => (
            TierRun { phase: Phase::Aborted, ..s },
            Action::Abort { job: s.done, declined: true },
        ),
        CutOutcome::Failed => (
            TierRun { phase: Phase::Aborted, ..s },
            Action::Abort { job: s.done, declined: false },
        ),
    }
}

impl TierRun {
    /// A run over `total` cuts, not yet started.
    pub fn new(total: usize) -> (r: TierRun)
        ensures
            r == (TierRun { total, done: 0, phase: Phase::Ready }),
            run_wf(r),
    {
        TierRun { total, done: 0, phase: Phase::Ready }
    }

    /// Starts the run: the first cut, or, with nothing to cut, the ledger.
    pub fn start(&mut self) -> (r: Action)
        requires
            old(self).phase == Phase::Ready,
            run_wf(*old(self)),
        ensures
            (*final(self), r) == start_spec(*old(self)),
            run_wf(*final(self)),
    {
        if self.total == 0 {
            self.phase = Phase::Finished;
            Action::WriteLedger
        } else {
            self.phase = Phase::Cutting;
            Action::Cut(0)
        }
    }

    /// Takes the outcome of the pending cut: the next cut, the ledger once
    /// every cut is written, or the end of the run on a declined or failed
    /// cut.
    pub fn report(&mut self, outcome: CutOutcome) -> (r: Action)
        requires
            old(self).phase == Phase::Cutting,
            run_wf(*old(self)),
        ensures
            (*final(self), r) == report_spec(*old(self), outcome),
            run_wf(*final(self)),
    {
        match outcome {
            CutOutcome::Written => {
                if self.done + 1 == self.total {
                    self.done = self.total;
                    self.phase = Phase::Finished;
                    Action::WriteLedger
                } else {
                    self.done = self.done + 1;
                    Action::Cut(self.done)
                }
            },
            CutOutcome::Declined => {
                self.phase = Phase::Aborted;
                Action::Abort { job: self.done, declined: true }
            },
            CutOutcome::Failed => {
                self.phase = Phase::Aborted;
                Action::Abort { job: self.done, declined: false }
            },
        }
    }
}

/// The actions of a run that is started and then told `outcomes`, one per
/// cut, until it stops.
pub open spec fn replay(s: TierRun, outcomes: Seq<CutOutcome>) -> Seq<Action>
    decreases outcomes.len(),
{
    if s.phase != Phase::Cutting || outcomes.len() == 0 {
        Seq::empty()
    } else {
        let (n, a) = report_spec(s, outcomes[0]);
        seq![a] + replay(n, outcomes.drop_first())
    }
}

pub open spec fn run_actions(total: usize, outcomes: Seq<CutOutcome>) -> Seq<Action> {
    let (s, a) = start_spec(TierRun { total, done: 0, phase: Phase::Ready });
    seq![a] + replay(s, outcomes)
}

proof fn lemma_replay_fails_at(s: TierRun, outcomes: Seq<CutOutcome>, n: int)
    requires
        s.phase == Phase::Cutting,
        run_wf(s),
        s.done <= n < s.total,
        n - s.done < outcomes.len(),
        forall|i: int| 0 <= i < n - s.done ==> outcomes[i] == CutOutcome::Written,
        outcomes[n - s.done] != CutOutcome::Written,
    ensures
        forall|i: int| 0 <= i < replay(s, outcomes).len() ==> replay(s, outcomes)[i]
            != Action::WriteLedger,
        replay(s, outcomes).len() == n - s.done + 1,
        replay(s, outcomes).last() == (Action::Abort {
            job: n as usize,
            declined: outcomes[n - s.done] == CutOutcome::Declined,
        }),
    decreases n - s.done,
{
    let (t, a) = report_spec(s, outcomes[0]);
    if n == s.done {
        assert(replay(t, outcomes.drop_first()) =~= Seq::<Action>::empty());
        assert(replay(s, outcomes) =~= seq![a]);
    } else {
        assert(outcomes[0] == CutOutcome::Written);
        let rest = outcomes.drop_first();
        assert forall|i: int| 0 <= i < n - t.done implies rest[i] == CutOutcome::Written by {
            assert(rest[i] == outcomes[i + 1]);
        }
        lemma_replay_fails_at(t, rest, n);
        assert(replay(s, outcomes) == seq![a] + replay(t, rest));
    }
}

/// All or nothing: when the cut at position `n` of a tier's `total` cuts is
/// declined or fails after every earlier one was written, the run stops
/// with an abort at that cut and never asks for the tier's ledger to be
/// written.
pub proof fn law_failure_aborts_tier(total: usize, outcomes: Seq<CutOutcome>, n: int)
    requires
        0 <= n < total,
        n < outcomes.len(),
        forall|i: int| 0 <= i < n ==> outcomes[i] == CutOutcome::Written,
        outcomes[n] != CutOutcome::Written,
    ensures
        forall|i: int| 0 <= i < run_actions(total, outcomes).len() ==> run_actions(
            total,
            outcomes,
        )[i] != Action::WriteLedger,
        run_actions(total, outcomes).last() == (Action::Abort {
            job: n as usize,
            declined: outcomes[n] == CutOutcome::Declined,
        }),
{
    let (s, a) = start_spec(TierRun { total, done: 0, phase: Phase::Ready });
    lemma_replay_fails_at(s, outcomes, n);
    let r = replay(s, outcomes);
    assert(run_actions(total, outcomes) == seq![a] + r);
    assert forall|i: int| 0 <= i < run_actions(total, outcomes).len() implies run_actions(
        total,
        outcomes,
    )[i] != Action::WriteLedger by {
        if i > 0 {
            assert(run_actions(total, outcomes)[i] == r[i - 1]);
        }
    }
}

/// The ledger is written only when every cut was: a run whose outcomes are
/// all `Written` ends by asking for the ledger.
pub proof fn law_success_writes_ledger(total: usize, outcomes: Seq<CutOutcome>)
    requires
        outcomes.len() == total,
        forall|i: int| 0 <= i < total ==> outcomes[i] == CutOutcome::Written,
    ensures
        run_actions(total, outcomes).last() == Action::WriteLedger,
{
    let (s, a) = start_spec(TierRun { total, done: 0, phase: Phase::Ready });
    if total > 0 {
        lemma_replay_all_written(s, outcomes);
    }
}

proof fn lemma_replay_all_written(s: TierRun, outcomes: Seq<CutOutcome>)
    requires
        s.phase == Phase::Cutting,
        run_wf(s),
        outcomes.len() == s.total - s.done,
        forall|i: int| 0 <= i < outcomes.len() ==> outcomes[i] == CutOutcome::Written,
    ensures
        replay(s, outcomes).len() > 0,
        replay(s, outcomes).last() == Action::WriteLedger,
    decreases outcomes.len(),
{
    let (t, a) = report_spec(s, outcomes[0]);
    let rest = outcomes.drop_first();
    if s.done + 1 == s.total {
        assert(replay(t, rest) =~= Seq::<Action>::empty());
        assert(replay(s, outcomes) =~= seq![a]);
    } else {
        assert forall|i: int| 0 <= i < rest.len() implies rest[i] == CutOutcome::Written by {
            assert(rest[i] == outcomes[i + 1]);
        }
        lemma_replay_all_written(t, rest);
        assert(replay(s, outcomes) == seq![a] + replay(t, rest));
    }
}

} // verus!
