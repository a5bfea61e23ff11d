use eafutil::clock::{hms_milli_to_string, ms2string};
use eafutil::paths::{affix_file_name, append_file_name, extension, file_stem, file_stem_as_string, has_extension, is_hidden, split_name, timespan_file_name};
use eafutil::select::{confirm_reply, parse_index, pick_annotation, pick_tier, AnnotationPick, TierPick};

#[test]
fn index_parsing() {
    assert_eq!(parse_index("12\n"), Some(12));
    assert_eq!(parse_index("+3 \r\n"), Some(3));
    assert_eq!(parse_index(" 3"), None);
    assert_eq!(parse_index("x"), None);
    assert_eq!(parse_index(""), None);
    assert_eq!(parse_index("-1"), None);
    assert_eq!(parse_index("99999999999999999999999"), None);
}

#[test]
fn tier_choices() {
    let tokenized = [false, true, false];
    assert_eq!(pick_tier("1\n", &tokenized, true), TierPick::Chosen(0));
    assert_eq!(pick_tier("2\n", &tokenized, true), TierPick::Tokenized(1));
    assert_eq!(pick_tier("2\n", &tokenized, false), TierPick::Chosen(1));
    assert_eq!(pick_tier("4\n", &tokenized, true), TierPick::NoSuchTier);
    assert_eq!(pick_tier("0\n", &tokenized, true), TierPick::NoSuchTier);
    assert_eq!(pick_tier("two\n", &tokenized, true), TierPick::NotANumber);
}

#[test]
fn annotation_choices() {
    let timed = [true, false];
    assert_eq!(pick_annotation("1\n", &timed, true), AnnotationPick::Chosen(0));
    assert_eq!(pick_annotation("2\n", &timed, true), AnnotationPick::NoTimestamp(1));
    assert_eq!(pick_annotation("2\n", &timed, false), AnnotationPick::Chosen(1));
    assert_eq!(pick_annotation("3\n", &timed, true), AnnotationPick::NoSuchAnnotation);
    assert_eq!(pick_annotation("?\n", &timed, true), AnnotationPick::NotANumber);
}

#[test]
fn yes_no_replies() {
    assert_eq!(confirm_reply("Y\n"), Some(true));
    assert_eq!(confirm_reply("  yes "), Some(true));
    assert_eq!(confirm_reply("NO\n"), Some(false));
    assert_eq!(confirm_reply("n"), Some(false));
    assert_eq!(confirm_reply("maybe"), None);
    assert_eq!(confirm_reply(""), None);
}

#[test]
fn clock_times() {
    assert_eq!(ms2string(0), "00:00:00.000");
    assert_eq!(ms2string(3_723_004), "01:02:03.004");
    assert_eq!(ms2string(86_400_000 + 1), "00:00:00.001");
    assert_eq!(ms2string(-1), "23:59:59.999");
    assert_eq!(hms_milli_to_string((1, 2, 3, 45)), "01:02:03.045");
}

#[test]
fn path_parts() {
    assert_eq!(file_stem("/a/b/rec.tar.gz").as_deref(), Some("rec.tar"));
    assert_eq!(extension("/a/b/rec.tar.gz").as_deref(), Some("gz"));
    assert_eq!(file_stem("/a/.hidden").as_deref(), Some(".hidden"));
    assert_eq!(extension("/a/.hidden"), None);
    assert_eq!(file_stem("/a/.."), None);
    assert_eq!(file_stem_as_string("x/y.wav").as_deref(), Some("y"));
    assert!(is_hidden("/a/.git"));
    assert!(!is_hidden("/a/b.txt"));
    assert!(!is_hidden("/"));
}

#[test]
fn path_renaming() {
    assert_eq!(append_file_name("/d/rec.wav", "x"), "/d/rec_x.wav");
    assert_eq!(append_file_name("/d/rec", "x"), "/d/rec_x");
    assert_eq!(affix_file_name("/d/rec.wav", Some("pre"), Some("suf"), Some("-")), "/d/pre-rec-suf.wav");
    assert_eq!(affix_file_name("/d/rec.wav", None, Some("suf"), None), "/d/recsuf.wav");
    assert_eq!(affix_file_name("/d/rec.wav", Some("p"), None, Some("_")), "/d/p_rec.wav");
}

#[test]
fn extension_checks_ignore_case() {
    assert!(has_extension("/a/REC.EAF", "eaf"));
    assert!(has_extension("/a/rec.eaf", "EAF"));
    assert!(!has_extension("/a/rec.eaf", "wav"));
    assert!(!has_extension("/a/rec", ""));
    assert!(!has_extension("/a/.eaf", "eaf"));
}

#[test]
fn file_name_split() {
    let (stem, ext) = split_name(&"talk.words.wav".to_string());
    assert_eq!((stem.as_str(), ext.as_deref()), ("talk.words", Some("wav")));
    let (stem, ext) = split_name(&".profile".to_string());
    assert_eq!((stem.as_str(), ext), (".profile", None));
    let (stem, ext) = split_name(&"archive.".to_string());
    assert_eq!((stem.as_str(), ext.as_deref()), ("archive", Some("")));
}

#[test]
fn timespan_names() {
    assert_eq!(timespan_file_name("infile", 1000, 14000, "mp4"), "infile_1000-14000.mp4");
}
