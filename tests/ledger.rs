use eafutil::ledger::{Clip, Clips};

fn s(v: &[&str]) -> Vec<String> {
    v.iter().map(|x| x.to_string()).collect()
}

#[test]
fn lookup_strips_all_extensions() {
    let mut ledger = Clips::with_media(s(&["/media/talk_full.wav"]));
    ledger.add(&Clip::new(&s(&["clips/talk.wav"]), 1000, 5000));
    assert_eq!(ledger.get_timestamps("talk.words.wav.json"), Some((1000, 5000)));
    assert_eq!(ledger.get_timestamps("/some/dir/talk.json"), Some((1000, 5000)));
    assert_eq!(ledger.get_timestamps("talk"), Some((1000, 5000)));
}

#[test]
fn lookup_first_match_wins_and_misses() {
    let mut ledger = Clips::with_media(s(&["a.mp4"]));
    ledger.add(&Clip::new(&s(&["x/one.mp4", "x/one.wav"]), 0, 10));
    ledger.add(&Clip::new(&s(&["y/two.mp4"]), 20, 30));
    ledger.add(&Clip::new(&s(&["z/two.wav"]), 40, 50));
    assert_eq!(ledger.get_timestamps("two.wav.json"), Some((20, 30)));
    assert_eq!(ledger.get_timestamps("one.txt"), Some((0, 10)));
    assert_eq!(ledger.get_timestamps("three.wav"), None);
    assert_eq!(ledger.get_timestamps(""), None);
}

#[test]
fn add_and_len() {
    let mut ledger = Clips::with_media(vec![]);
    assert_eq!(ledger.len(), 0);
    let mut c = Clip::default();
    c.ts(5, 9);
    c.add("out/a.wav");
    c.add("out/a.mp4");
    ledger.add(&c);
    assert_eq!(ledger.len(), 1);
    let first = &ledger.iter()[0];
    assert_eq!(first.start(), 5);
    assert_eq!(first.end(), 9);
    assert_eq!(first.media().to_vec(), s(&["out/a.wav", "out/a.mp4"]));
}

#[test]
fn json_round_trip() {
    let mut ledger = Clips::with_media(s(&["/m/a \"quoted\".wav", "C:\\media\\b.mp4"]));
    ledger.add(&Clip::new(&s(&["out/a_annotation_0001.wav", "tab\there\u{1}"]), -5, 9_223_372_036_854_775_807));
    ledger.add(&Clip::new(&[], i64::MIN, 0));
    ledger.add(&Clip::new(&s(&["ünïcödé.wav"]), 100, 200));
    let text = ledger.to_json();
    let back = Clips::from_json(&text).unwrap();
    assert_eq!(back.to_json(), text);
    assert_eq!(back.len(), 3);
    assert_eq!(back.original_media().to_vec(), ledger.original_media().to_vec());
    assert_eq!(back.iter()[0].media().to_vec(), ledger.iter()[0].media().to_vec());
    assert_eq!(back.iter()[1].start(), i64::MIN);
    assert_eq!(back.iter()[0].end(), i64::MAX);
}

#[test]
fn json_exact_text() {
    let mut ledger = Clips::with_media(s(&["a.wav"]));
    ledger.add(&Clip::new(&s(&["x\"y.wav"]), 1, -2));
    assert_eq!(
        ledger.to_json(),
        "{\"original_media\":[\"a.wav\"],\"clips\":[{\"media\":[\"x\\\"y.wav\"],\"start\":1,\"end\":-2}]}"
    );
    let empty = Clips::with_media(vec![]);
    assert_eq!(empty.to_json(), "{\"original_media\":[],\"clips\":[]}");
}

#[test]
fn json_reads_standard_escapes() {
    let text = "{\"original_media\":[\"a\\/b\\n\\u00e9\"],\"clips\":[{\"media\":[],\"start\":0,\"end\":3}]}";
    let l = Clips::from_json(text).unwrap();
    assert_eq!(l.original_media().to_vec(), s(&["a/b\né"]));
    assert_eq!(l.iter()[0].end(), 3);
}

#[test]
fn json_rejects_malformed() {
    assert!(Clips::from_json("").is_none());
    assert!(Clips::from_json("{\"original_media\":[],\"clips\":[]} x").is_none());
    assert!(Clips::from_json("{\"original_media\":[],\"original_media\":[],\"clips\":[]}").is_none());
    assert!(Clips::from_json("{\"original_media\":[]}").is_none());
    assert!(Clips::from_json("{\"original_media\":[],\"clips\":[],}").is_none());
    assert!(Clips::from_json("{\"original_media\":[],\"clips\":[{\"media\":[],\"start\":1}]}").is_none());
    assert!(Clips::from_json("{\"original_media\":[],\"clips\":[{\"media\":[],\"start\":1,\"end\":99999999999999999999}]}").is_none());
    assert!(Clips::from_json("{\"original_media\":[\"\\ud800\"],\"clips\":[]}").is_none());
    assert!(Clips::from_json("{\"original_media\":[\"a\"\"b\"],\"clips\":[]}").is_none());
}

#[test]
fn json_reads_any_whitespace_and_member_order() {
    let text = " {\n  \"clips\" : [ { \"end\": 5000 , \"media\" : [ \"talk.wav\" , \"talk.mp4\" ],\r\n \"start\":1000 } ],\n\t\"original_media\": [\"/m/talk_full.wav\"]\n} \n";
    let l = Clips::from_json(text).unwrap();
    assert_eq!(l.original_media().to_vec(), s(&["/m/talk_full.wav"]));
    assert_eq!(l.len(), 1);
    assert_eq!(l.iter()[0].media().to_vec(), s(&["talk.wav", "talk.mp4"]));
    assert_eq!((l.iter()[0].start(), l.iter()[0].end()), (1000, 5000));
    assert_eq!(l.get_timestamps("talk.words.wav.json"), Some((1000, 5000)));
    let spaced = Clips::from_json("{ \"original_media\" : [ ] , \"clips\" : [ ] }").unwrap();
    assert_eq!(spaced.len(), 0);
}
