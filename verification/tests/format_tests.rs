use subtrans::dict::{parse_db_words, serialize_dict, WordKind};
use subtrans::subtitle::{parse_subs, serialize_subs, ParseError, Sub, Timestamp};
use subtrans::words::extract_words;

fn v(s: &str) -> Vec<u8> {
    s.as_bytes().to_vec()
}

fn s(b: &[u8]) -> String {
    String::from_utf8(b.to_vec()).unwrap()
}

#[test]
fn parse_single_block() {
    let doc = v("1\n00:00:01,000 --> 00:00:02,000\nhello world\n\n");
    let subs = parse_subs(&doc).unwrap();
    assert_eq!(subs.len(), 1);
    assert_eq!(subs[0].index, 1);
    assert_eq!(subs[0].start, Timestamp { hours: 0, minutes: 0, seconds: 1, millis: 0 });
    assert_eq!(subs[0].end, Timestamp { hours: 0, minutes: 0, seconds: 2, millis: 0 });
    assert_eq!(s(&subs[0].text), "hello world");
    assert!(!subs[0].need_translation);
}

#[test]
fn parse_crlf_and_lf_identically() {
    let lf = v("1\n00:00:01,000 --> 00:00:02,000\nline one\nline two\n\n");
    let crlf = v("1\r\n00:00:01,000 --> 00:00:02,000\r\nline one\r\nline two\r\n\r\n");
    let a = parse_subs(&lf).unwrap();
    let b = parse_subs(&crlf).unwrap();
    assert_eq!(a.len(), 1);
    assert_eq!(b.len(), 1);
    assert_eq!(a[0].index, b[0].index);
    assert_eq!(a[0].start, b[0].start);
    assert_eq!(a[0].end, b[0].end);
    assert_eq!(a[0].text, b[0].text);
    assert_eq!(s(&a[0].text), "line one\nline two");
}

#[test]
fn parse_skips_malformed_blocks() {
    let doc = v(
        "garbage\nnot a block\n\n2\n00:00:03,500 --> 00:00:04,000\nkept\n\njunk without blank",
    );
    let subs = parse_subs(&doc).unwrap();
    assert_eq!(subs.len(), 1);
    assert_eq!(subs[0].index, 2);
    assert_eq!(s(&subs[0].text), "kept");
    assert_eq!(subs[0].start, Timestamp { hours: 0, minutes: 0, seconds: 3, millis: 500 });
}

#[test]
fn parse_block_without_final_blank_line_is_dropped() {
    let doc = v("1\n00:00:01,000 --> 00:00:02,000\nno terminator\n");
    let subs = parse_subs(&doc).unwrap();
    assert_eq!(subs.len(), 0);
}

#[test]
fn parse_invalid_timestamp_is_fatal() {
    let doc = v("1\n99:00:01,000 --> 00:00:02,000\nhello\n\n");
    let r = parse_subs(&doc);
    assert_eq!(r.unwrap_err(), ParseError::InvalidTimestamp);
    let doc2 = v("1\n00:61:01,000 --> 00:00:02,000\nhello\n\n");
    assert_eq!(parse_subs(&doc2).unwrap_err(), ParseError::InvalidTimestamp);
}

#[test]
fn parse_oversized_index_skips_block() {
    let doc = v("99999999999999\n00:00:01,000 --> 00:00:02,000\nhello\n\n");
    let subs = parse_subs(&doc).unwrap();
    assert_eq!(subs.len(), 0);
}

#[test]
fn stringify_renders_canonical_block() {
    let sub = Sub {
        index: 7,
        start: Timestamp { hours: 1, minutes: 2, seconds: 3, millis: 45 },
        end: Timestamp { hours: 23, minutes: 59, seconds: 59, millis: 999 },
        text: v("abc"),
        need_translation: false,
    };
    assert_eq!(s(&sub.stringify()), "7\n01:02:03,045 --> 23:59:59,999\nabc\n\n");
}

#[test]
fn serialize_then_parse_reproduces_entries() {
    let doc = v(
        "1\n00:00:01,000 --> 00:00:02,000\nfirst\n\n2\n00:00:03,000 --> 00:00:04,250\nsecond a\nsecond b\n\n",
    );
    let subs = parse_subs(&doc).unwrap();
    let out = serialize_subs(&subs);
    assert_eq!(
        s(&out),
        "1\n00:00:01,000 --> 00:00:02,000\nfirst\n\n2\n00:00:03,000 --> 00:00:04,250\nsecond a\nsecond b\n\n"
    );
    let again = parse_subs(&out).unwrap();
    assert_eq!(again.len(), subs.len());
    for (x, y) in subs.iter().zip(again.iter()) {
        assert_eq!(x.index, y.index);
        assert_eq!(x.start, y.start);
        assert_eq!(x.end, y.end);
        assert_eq!(x.text, y.text);
        assert_eq!(x.need_translation, y.need_translation);
    }
}

#[test]
fn extract_words_finds_lowercased_runs() {
    let toks = extract_words(&v("It's 3 o'clock, DON'T shout!"));
    let toks: Vec<String> = toks.iter().map(|t| s(t)).collect();
    assert_eq!(toks, vec!["it's", "o'clock", "don't", "shout"]);
}

#[test]
fn extract_words_empty_and_separator_only() {
    assert_eq!(extract_words(&v("")).len(), 0);
    assert_eq!(extract_words(&v("123 ,. \n\t")).len(), 0);
}

#[test]
fn extract_words_same_on_lowercased_text() {
    let text = v("Hello WORLD, it's Fine");
    let lower: Vec<u8> = text.iter().map(|b| b.to_ascii_lowercase()).collect();
    assert_eq!(extract_words(&text), extract_words(&lower));
}

#[test]
fn db_parse_reads_records_and_skips_junk() {
    let d = parse_db_words(&v("k:hello\r\nu:maybe\r\n?:fresh\r\nnot a record\r\nx:bad\r\n"));
    assert_eq!(d.classify(&v("hello")), WordKind::Known);
    assert_eq!(d.classify(&v("maybe")), WordKind::Unknown);
    assert_eq!(d.classify(&v("fresh")), WordKind::New);
    assert_eq!(d.classify(&v("absent")), WordKind::New);
    assert_eq!(d.len(), 3);
}

#[test]
fn db_parse_last_line_wins_for_repeated_word() {
    let d = parse_db_words(&v("u:word\nk:word\n"));
    assert_eq!(d.classify(&v("word")), WordKind::Known);
    assert_eq!(d.len(), 1);
}

#[test]
fn serialize_dict_groups_and_sorts() {
    let mut d = parse_db_words(&v("k:zebra\nk:apple\nu:middle\n"));
    d.merge_new_words(&vec![v("newer"), v("another")]);
    let out = serialize_dict(&d);
    assert_eq!(s(&out), "?:another\r\n?:newer\r\nu:middle\r\nk:apple\r\nk:zebra\r\n");
}

#[test]
fn parse_empty_document_yields_no_entries() {
    assert_eq!(parse_subs(&v("")).unwrap().len(), 0);
}

#[test]
fn parse_index_with_leading_zeros() {
    let doc = v("007\n00:00:01,000 --> 00:00:02,000\nspy\n\n");
    let subs = parse_subs(&doc).unwrap();
    assert_eq!(subs[0].index, 7);
    assert_eq!(s(&serialize_subs(&subs)), "7\n00:00:01,000 --> 00:00:02,000\nspy\n\n");
}

#[test]
fn db_parse_accepts_missing_trailing_newline_and_empty_text() {
    assert_eq!(parse_db_words(&v("")).len(), 0);
    let d = parse_db_words(&v("k:last"));
    assert_eq!(d.classify(&v("last")), WordKind::Known);
}

#[test]
fn merge_twice_persists_identically() {
    let words = vec![v("foo"), v("bar"), v("foo")];
    let mut d1 = parse_db_words(&v("k:known\n"));
    d1.merge_new_words(&words);
    let once = serialize_dict(&d1);
    d1.merge_new_words(&words);
    let twice = serialize_dict(&d1);
    assert_eq!(once, twice);
    assert_eq!(s(&once), "?:bar\r\n?:foo\r\nk:known\r\n");
}
