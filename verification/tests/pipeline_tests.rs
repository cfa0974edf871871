use subtrans::dict::{parse_db_words, serialize_dict, Dict};
use subtrans::pipeline::{highlight_text, prepare_subs, reassemble, strip_tags_exec, ReassembleError};
use subtrans::subtitle::{parse_subs, serialize_subs, Sub, Timestamp};
use subtrans::words::extract_words;

fn v(s: &str) -> Vec<u8> {
    s.as_bytes().to_vec()
}

fn s(b: &[u8]) -> String {
    String::from_utf8(b.to_vec()).unwrap()
}

fn ts(seconds: u8) -> Timestamp {
    Timestamp { hours: 0, minutes: 0, seconds, millis: 0 }
}

fn entry(index: u32, text: &str) -> Sub {
    Sub { index, start: ts(1), end: ts(2), text: v(text), need_translation: false }
}

#[test]
fn known_words_leave_entry_untouched() {
    let doc = v("1\n00:00:01,000 --> 00:00:02,000\nhello world\n\n");
    let mut subs = parse_subs(&doc).unwrap();
    let mut d = parse_db_words(&v("k:hello\nk:world\n"));
    d.merge_new_words(&extract_words(&doc));
    let batches = prepare_subs(&mut subs, &d, 4000);
    assert_eq!(batches.len(), 0);
    assert!(!subs[0].need_translation);
    assert_eq!(s(&subs[0].text), "hello world");
    let out = serialize_subs(&subs);
    assert_eq!(s(&out), "1\n00:00:01,000 --> 00:00:02,000\nhello world\n\n");
}

#[test]
fn new_word_flags_highlights_and_enters_dictionary() {
    let doc = v("1\n00:00:01,000 --> 00:00:02,000\nhello foo\n\n");
    let mut subs = parse_subs(&doc).unwrap();
    let mut d = Dict::new();
    d.merge_new_words(&extract_words(&doc));
    let db_text = serialize_dict(&d);
    assert!(s(&db_text).contains("?:foo\r\n"));
    let batches = prepare_subs(&mut subs, &d, 4000);
    assert!(subs[0].need_translation);
    let text = s(&subs[0].text);
    assert!(text.contains("<font color=\"#FFFF80\">foo</font>"));
    assert_eq!(batches.len(), 1);
    assert_eq!(s(&batches[0]), "hello foo\r\n");
}

#[test]
fn two_entries_under_ceiling_make_one_batch() {
    let mut subs = vec![entry(1, "aaaa"), entry(2, "bbbb")];
    let d = Dict::new();
    let batches = prepare_subs(&mut subs, &d, 10);
    assert_eq!(batches.len(), 1);
    assert_eq!(s(&batches[0]), "aaaa\r\nbbbb\r\n");
}

#[test]
fn crossing_the_ceiling_makes_two_batches() {
    let mut subs = vec![entry(1, "aaaa"), entry(2, "bbbb")];
    let d = Dict::new();
    let batches = prepare_subs(&mut subs, &d, 6);
    assert_eq!(batches.len(), 2);
    assert_eq!(s(&batches[0]), "aaaa\r\n");
    assert_eq!(s(&batches[1]), "bbbb\r\n");
}

#[test]
fn oversized_entry_travels_alone() {
    let mut subs = vec![
        entry(1, "averylongunknownword"),
        entry(2, "tiny"),
    ];
    let d = Dict::new();
    let batches = prepare_subs(&mut subs, &d, 5);
    assert_eq!(batches.len(), 2);
    assert_eq!(s(&batches[0]), "averylongunknownword\r\n");
    assert_eq!(s(&batches[1]), "tiny\r\n");
}

#[test]
fn markup_is_stripped_and_breaks_become_sentinels() {
    let mut subs = vec![entry(1, "a<i>b</i>\nc")];
    let d = Dict::new();
    let batches = prepare_subs(&mut subs, &d, 4000);
    assert_eq!(batches.len(), 1);
    assert_eq!(s(&batches[0]), "ab*c\r\n");
    let text = s(&subs[0].text);
    assert_eq!(text, "<font color=\"#FFFF80\">ab</font>\n<font color=\"#FFFF80\">c</font>");
}

#[test]
fn strip_tags_removes_each_occurrence_once() {
    assert_eq!(s(&strip_tags_exec(&v("<i>x</i> <b>y</b>"))), "x y");
    assert_eq!(s(&strip_tags_exec(&v("a<i>b"))), "ab");
    assert_eq!(s(&strip_tags_exec(&v("no tags"))), "no tags");
}

#[test]
fn highlight_keeps_original_case_and_checks_lowercase() {
    let d = parse_db_words(&v("k:hello\n"));
    let (out, flag) = highlight_text(&v("Hello Foo"), &d);
    assert!(flag);
    assert_eq!(s(&out), "Hello <font color=\"#FFFF80\">Foo</font>");
}

#[test]
fn reassemble_appends_one_line_per_flagged_entry() {
    let mut subs = vec![entry(1, "one"), entry(2, "two"), entry(3, "three")];
    subs[0].need_translation = true;
    subs[2].need_translation = true;
    let consumed = reassemble(&mut subs, &v("FIRST\r\nTHIRD a*b\r\n")).unwrap();
    assert_eq!(consumed, 2);
    assert_eq!(s(&subs[0].text), "one\nFIRST");
    assert_eq!(s(&subs[1].text), "two");
    assert_eq!(s(&subs[2].text), "three\nTHIRD a\nb");
}

#[test]
fn reassemble_under_delivery_is_fatal() {
    let mut subs = vec![entry(1, "one"), entry(2, "two")];
    subs[0].need_translation = true;
    subs[1].need_translation = true;
    let r = reassemble(&mut subs, &v("ONLY\r\n"));
    assert_eq!(r.unwrap_err(), ReassembleError::MissingLine);
    assert_eq!(s(&subs[0].text), "one");
    assert_eq!(s(&subs[1].text), "two");
}

#[test]
fn no_flushed_batch_exceeds_ceiling_unless_alone() {
    let mut subs = vec![
        entry(1, "aa"),
        entry(2, "bbb"),
        entry(3, "ccccccccccc"),
        entry(4, "dd"),
        entry(5, "ee"),
    ];
    let d = Dict::new();
    let ceiling = 6;
    let batches = prepare_subs(&mut subs, &d, ceiling);
    for b in &batches {
        let payloads: Vec<&[u8]> = b.split(|&x| x == b'\n').filter(|p| !p.is_empty()).collect();
        let size: usize = payloads.iter().map(|p| p.len() - 1).sum();
        assert!(size <= ceiling || payloads.len() == 1);
    }
}
