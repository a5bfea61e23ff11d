use eafutil::boundary::{
    annotation_stem_of, clip_file_name_of, batch_boundaries, clip_path_of, duration_summary, resolve_media,
    single_boundary, unsafe_chars_pattern, AnnotationInfo, Boundary, MediaSource, NameOptions,
};
use eafutil::ledger::{Clip, Clips};
use eafutil::run::{ledger_for, plan_tier, Action, CutOutcome, Phase, PlanError, TierRun};
use eafutil::text::StripPattern;

fn ann(id: &str, value: &str, start: Option<i64>, end: Option<i64>) -> AnnotationInfo {
    AnnotationInfo { id: id.to_string(), value: value.to_string(), start, end }
}

fn all_on() -> NameOptions {
    NameOptions {
        use_tier_id: true,
        use_annotation_id: true,
        use_value: true,
        use_time: true,
        max_value_length: 20,
        ascii_only: false,
    }
}

fn strip() -> StripPattern {
    StripPattern::new(unsafe_chars_pattern()).unwrap()
}

#[test]
fn minimum_duration_filter() {
    let anns = vec![
        ann("a1", "x", Some(0), Some(100)),
        ann("a2", "y", Some(1000), Some(1250)),
        ann("a3", "z", Some(2000), Some(2500)),
    ];
    let (bs, durs) = batch_boundaries(&anns, Some(200));
    assert_eq!(bs.len(), 2);
    assert_eq!(bs[0].id, "a2");
    assert_eq!(bs[1].id, "a3");
    assert_eq!(durs, vec![250, 500]);
    let (all, d2) = batch_boundaries(&anns, None);
    assert_eq!(all.len(), 3);
    assert_eq!(d2, vec![100, 250, 500]);
}

#[test]
fn threshold_equal_to_duration_is_kept() {
    let anns = vec![ann("a1", "x", Some(0), Some(200))];
    let (bs, _) = batch_boundaries(&anns, Some(200));
    assert_eq!(bs.len(), 1);
}

#[test]
fn untimed_annotations_are_skipped() {
    let anns = vec![
        ann("a1", "x", None, Some(100)),
        ann("a2", "y", Some(5), None),
        ann("a3", "z", Some(10), Some(20)),
    ];
    let (bs, durs) = batch_boundaries(&anns, None);
    assert_eq!(bs.len(), 1);
    assert_eq!((bs[0].start, bs[0].end), (10, 20));
    assert_eq!(durs, vec![10]);
    assert!(single_boundary(&anns[0]).is_none());
    let b = single_boundary(&anns[2]).unwrap();
    assert_eq!((b.start, b.end, b.id.as_str(), b.value.as_str()), (10, 20, "a3", "z"));
}

#[test]
fn summary_of_durations() {
    assert_eq!(duration_summary(&[]), (0, 0));
    assert_eq!(duration_summary(&[250, 500, 100]), (500, 100));
    assert_eq!(duration_summary(&[7]), (7, 7));
}

#[test]
fn filename_composition_ordering() {
    let b = Boundary { start: 1200, end: 3400, id: "a7".to_string(), value: "Hello, world!".to_string() };
    let name = annotation_stem_of(3, "utterance", &b, &all_on(), &strip());
    assert_eq!(name, "annotation_0003_utterance_a7_Hello world_1200-3400");
}

#[test]
fn filename_parts_each_optional() {
    let b = Boundary { start: 5, end: 15, id: "a1".to_string(), value: "[x] \"q\" ü".to_string() };
    let none = NameOptions {
        use_tier_id: false,
        use_annotation_id: false,
        use_value: false,
        use_time: false,
        max_value_length: 20,
        ascii_only: false,
    };
    assert_eq!(annotation_stem_of(12345, "t", &b, &none, &strip()), "annotation_12345");
    let value_only = NameOptions { use_value: true, ascii_only: true, ..none };
    assert_eq!(annotation_stem_of(1, "t", &b, &value_only, &strip()), "annotation_0001_x q _");
    let time_only = NameOptions { use_time: true, ..none };
    let neg = Boundary { start: -3, end: 0, ..b };
    assert_eq!(annotation_stem_of(10, "t", &neg, &time_only, &strip()), "annotation_0010_-3-0");
}

#[test]
fn clip_paths_keep_media_extension() {
    assert_eq!(
        clip_path_of("/out/tier", "/media/rec.session.mp4", "annotation_0001").as_deref(),
        Some("/out/tier/rec.session_annotation_0001.mp4")
    );
    assert_eq!(clip_path_of("/out", "/media/noext", "annotation_0001"), None);
}

#[test]
fn media_resolution() {
    assert_eq!(resolve_media(true, true, false), MediaSource::Absolute);
    assert_eq!(resolve_media(false, true, false), MediaSource::Relative);
    assert_eq!(resolve_media(false, false, true), MediaSource::Placeholder);
    assert_eq!(resolve_media(false, false, false), MediaSource::Missing);
}

#[test]
fn plan_and_ledger_for_tier() {
    let anns = vec![ann("a1", "hi", Some(0), Some(10)), ann("a2", "yo", Some(20), Some(40))];
    let (bs, _) = batch_boundaries(&anns, None);
    let sources = vec!["/m/v.mp4".to_string(), "/m/v.wav".to_string()];
    let opts = NameOptions { use_tier_id: false, use_annotation_id: true, use_value: false, use_time: false, max_value_length: 20, ascii_only: false };
    let plans = plan_tier("/o/t", "t", &sources, &bs, &opts, &strip()).unwrap();
    assert_eq!(plans.len(), 2);
    assert_eq!(plans[1].outputs, vec!["/o/t/v_annotation_0002_a2.mp4".to_string(), "/o/t/v_annotation_0002_a2.wav".to_string()]);
    let base = Clips::with_media(sources.clone());
    let ledger = ledger_for(&base, &plans);
    assert_eq!(ledger.len(), 2);
    assert_eq!(ledger.get_timestamps("v_annotation_0002_a2.words.json"), Some((20, 40)));
}

#[test]
fn plan_fails_on_media_without_extension() {
    let anns = vec![ann("a1", "hi", Some(0), Some(10))];
    let (bs, _) = batch_boundaries(&anns, None);
    let sources = vec!["/m/v.mp4".to_string(), "/m/noext".to_string()];
    let r = plan_tier("/o", "t", &sources, &bs, &all_on(), &strip());
    assert_eq!(r.err(), Some(PlanError::NoExtension(1)));
    let empty = plan_tier("/o", "t", &sources, &[], &all_on(), &strip()).unwrap();
    assert!(empty.is_empty());
}

#[test]
fn failed_cut_aborts_without_ledger() {
    let mut run = TierRun::new(3);
    assert_eq!(run.start(), Action::Cut(0));
    assert_eq!(run.report(CutOutcome::Written), Action::Cut(1));
    assert_eq!(run.report(CutOutcome::Failed), Action::Abort { job: 1, declined: false });
    assert_eq!(run.phase, Phase::Aborted);
}

#[test]
fn declined_overwrite_aborts() {
    let mut run = TierRun::new(2);
    assert_eq!(run.start(), Action::Cut(0));
    assert_eq!(run.report(CutOutcome::Declined), Action::Abort { job: 0, declined: true });
}

#[test]
fn all_cuts_written_asks_for_ledger() {
    let mut run = TierRun::new(2);
    assert_eq!(run.start(), Action::Cut(0));
    assert_eq!(run.report(CutOutcome::Written), Action::Cut(1));
    assert_eq!(run.report(CutOutcome::Written), Action::WriteLedger);
    assert_eq!(run.phase, Phase::Finished);
    let mut none = TierRun::new(0);
    assert_eq!(none.start(), Action::WriteLedger);
}

#[test]
fn clip_file_name_parts() {
    assert_eq!(clip_file_name_of("rec", "annotation_0002_a9", "wav"), "rec_annotation_0002_a9.wav");
}

#[test]
fn lookup_by_bare_stem() {
    let mut ledger = Clips::with_media(vec![]);
    ledger.add(&Clip::new(&["d/v_annotation_0001.mp4".to_string()], 3, 4));
    assert_eq!(ledger.timestamps_for_stem(&"v_annotation_0001".to_string()), Some((3, 4)));
    assert_eq!(ledger.timestamps_for_stem(&"v_annotation_0001.mp4".to_string()), None);
}

#[test]
fn unsafe_pattern_text() {
    assert_eq!(unsafe_chars_pattern(), "[\"'#*<>{}()\\[\\].,:;!/?=\\\\-]");
}
