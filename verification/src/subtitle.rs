//! The subtitle document format: blocks of an index line, a time-range
//! line `HH:MM:SS,mmm --> HH:MM:SS,mmm`, one or more non-empty text lines,
//! and a closing blank line. Blocks that do not match this shape are
//! silently skipped; a block whose time-range line matches the shape but
//! carries an out-of-range time aborts the parse.

use vstd::prelude::*;

use crate::text::{
    join_nl, lemma_join_nl_push, lemma_line_split_st_concat, lemma_split_join_text,
    lemma_split_one, line_split, line_split_st, split_lines, strip_cr, wf_text,
};

verus! {

/// A time of day with millisecond resolution.
#[derive(Clone, Copy, Debug, PartialEq, Eq, Structural)]
pub struct Timestamp {
    pub hours: u8,
    pub minutes: u8,
    pub seconds: u8,
    pub millis: u16,
}

impl Timestamp {
    /// Each field within its range.
    pub open spec fn wf(self) -> bool {
        self.hours < 24 && self.minutes < 60 && self.seconds < 60 && self.millis < 1000
    }
}

/// One subtitle entry.
#[derive(Debug)]
pub struct Sub {
    pub index: u32,
    pub start: Timestamp,
    pub end: Timestamp,
    pub text: Vec<u8>,
    pub need_translation: bool,
}

/// The mathematical shadow of an entry.
#[verifier::ext_equal]
pub ghost struct SubView {
    pub index: u32,
    pub start: Timestamp,
    pub end: Timestamp,
    pub text: Seq<u8>,
    pub need_translation: bool,
}

impl View for Sub {
    type V = SubView;

    open spec fn view(&self) -> SubView {
        SubView {
            index: self.index,
            start: self.start,
            end: self.end,
            text: self.text@,
            need_translation: self.need_translation,
        }
    }
}

impl DeepView for Sub {
    type V = SubView;

    open spec fn deep_view(&self) -> SubView {
        self.view()
    }
}

/// Why a parse aborts.
#[derive(Clone, Copy, Debug, PartialEq, Eq, Structural)]
pub enum ParseError {
    InvalidTimestamp,
}

pub open spec fn is_digit(b: u8) -> bool {
    48 <= b && b <= 57
}

/// A non-empty line of decimal digits.
pub open spec fn all_digits(l: Seq<u8>) -> bool {
    l.len() > 0 && forall|i: int| 0 <= i < l.len() ==> is_digit(#[trigger] l[i])
}

/// The value of a digit string.
pub open spec fn dec_val(l: Seq<u8>) -> int
    decreases l.len(),
{
    if l.len() == 0 {
        0
    } else {
        dec_val(l.drop_last()) * 10 + (l.last() - 48)
    }
}

/// The canonical decimal digits of `n`.
pub open spec fn dec_of(n: nat) -> Seq<u8>
    decreases n,
{
    if n < 10 {
        seq![(48 + n) as u8]
    } else {
        dec_of(n / 10).push((48 + n % 10) as u8)
    }
}

pub proof fn lemma_dec_of_val(n: nat)
    ensures
        all_digits(dec_of(n)),
        dec_val(dec_of(n)) == n,
    decreases n,
{
    if n < 10 {
        assert(dec_of(n) =~= seq![(48 + n) as u8]);
        assert(dec_of(n).drop_last() =~= Seq::<u8>::empty());
        assert(dec_val(Seq::<u8>::empty()) == 0);
        assert(dec_of(n).last() == (48 + n) as u8);
    } else {
        lemma_dec_of_val(n / 10);
        let d = dec_of(n / 10);
        assert(dec_of(n) == d.push((48 + n % 10) as u8));
        assert(d.push((48 + n % 10) as u8).drop_last() =~= d);
        assert(d.push((48 + n % 10) as u8).last() == (48 + n % 10) as u8);
        assert(forall|i: int|
            0 <= i < d.len() ==> #[trigger] d.push((48 + n % 10) as u8)[i] == d[i]);
        assert(dec_val(dec_of(n)) == dec_val(d) * 10 + ((48 + n % 10) as u8 - 48));
        assert(n == (n / 10) * 10 + n % 10) by {
            vstd::arithmetic::div_mod::lemma_fundamental_div_mod(n as int, 10);
        }
    }
}

proof fn lemma_dec_val_nonneg(l: Seq<u8>)
    requires
        forall|i: int| 0 <= i < l.len() ==> is_digit(#[trigger] l[i]),
    ensures
        dec_val(l) >= 0,
    decreases l.len(),
{
    if l.len() > 0 {
        assert(forall|i: int|
            0 <= i < l.drop_last().len() ==> is_digit(#[trigger] l.drop_last()[i]));
        lemma_dec_val_nonneg(l.drop_last());
    }
}

/// A digit string is worth at least any of its prefixes.
proof fn lemma_dec_val_take(l: Seq<u8>, k: int)
    requires
        forall|i: int| 0 <= i < l.len() ==> is_digit(#[trigger] l[i]),
        0 <= k <= l.len(),
    ensures
        dec_val(l.take(k)) <= dec_val(l),
    decreases l.len() - k,
{
    if k == l.len() {
        assert(l.take(k) =~= l);
    } else {
        assert(l.take(k + 1).drop_last() =~= l.take(k));
        assert(l.take(k + 1).last() == l[k]);
        assert(forall|i: int| 0 <= i < l.take(k).len() ==> is_digit(#[trigger] l.take(k)[i]));
        lemma_dec_val_nonneg(l.take(k));
        assert(dec_val(l.take(k + 1)) == dec_val(l.take(k)) * 10 + (l[k] - 48));
        assert(dec_val(l.take(k)) <= dec_val(l.take(k + 1)));
        lemma_dec_val_take(l, k + 1);
    }
}

/// An index line: digits whose value fits the entry index.
pub open spec fn is_index_line(l: Seq<u8>) -> bool {
    all_digits(l) && dec_val(l) <= u32::MAX
}

/// Twelve bytes `DD:DD:DD,DDD` at offset `off`.
pub open spec fn is_ts(l: Seq<u8>, off: int) -> bool {
    &&& is_digit(l[off])
    &&& is_digit(l[off + 1])
    &&& l[off + 2] == 58
    &&& is_digit(l[off + 3])
    &&& is_digit(l[off + 4])
    &&& l[off + 5] == 58
    &&& is_digit(l[off + 6])
    &&& is_digit(l[off + 7])
    &&& l[off + 8] == 44
    &&& is_digit(l[off + 9])
    &&& is_digit(l[off + 10])
    &&& is_digit(l[off + 11])
}

/// The whole time-range line: two timestamps around ` --> `.
pub open spec fn is_time_line(l: Seq<u8>) -> bool {
    &&& l.len() == 29
    &&& is_ts(l, 0)
    &&& l[12] == 32
    &&& l[13] == 45
    &&& l[14] == 45
    &&& l[15] == 62
    &&& l[16] == 32
    &&& is_ts(l, 17)
}

pub open spec fn ts_hours(l: Seq<u8>, off: int) -> int {
    (l[off] - 48) * 10 + (l[off + 1] - 48)
}

pub open spec fn ts_minutes(l: Seq<u8>, off: int) -> int {
    (l[off + 3] - 48) * 10 + (l[off + 4] - 48)
}

pub open spec fn ts_seconds(l: Seq<u8>, off: int) -> int {
    (l[off + 6] - 48) * 10 + (l[off + 7] - 48)
}

pub open spec fn ts_millis(l: Seq<u8>, off: int) -> int {
    (l[off + 9] - 48) * 100 + (l[off + 10] - 48) * 10 + (l[off + 11] - 48)
}

/// Whether a shape-matched timestamp carries a valid time of day.
pub open spec fn ts_in_range(l: Seq<u8>, off: int) -> bool {
    ts_hours(l, off) < 24 && ts_minutes(l, off) < 60 && ts_seconds(l, off) < 60
}

pub open spec fn ts_of(l: Seq<u8>, off: int) -> Timestamp {
    Timestamp {
        hours: ts_hours(l, off) as u8,
        minutes: ts_minutes(l, off) as u8,
        seconds: ts_seconds(l, off) as u8,
        millis: ts_millis(l, off) as u16,
    }
}

/// How many lines stand before the first blank line (all of them if no
/// line is blank).
pub open spec fn nonblank_prefix(ls: Seq<Seq<u8>>) -> int
    decreases ls.len(),
{
    if ls.len() == 0 {
        0
    } else if ls[0].len() == 0 {
        0
    } else {
        1 + nonblank_prefix(ls.skip(1))
    }
}

pub proof fn lemma_nonblank_prefix_bounds(ls: Seq<Seq<u8>>)
    ensures
        0 <= nonblank_prefix(ls) <= ls.len(),
        nonblank_prefix(ls) < ls.len() ==> ls[nonblank_prefix(ls)].len() == 0,
        forall|i: int| 0 <= i < nonblank_prefix(ls) ==> (#[trigger] ls[i]).len() > 0,
    decreases ls.len(),
{
    if ls.len() == 0 {
    } else if ls[0].len() == 0 {
    } else {
        lemma_nonblank_prefix_bounds(ls.skip(1));
        assert forall|i: int| 0 <= i < nonblank_prefix(ls) implies (#[trigger] ls[i]).len()
            > 0 by {
            if i >= 1 {
                assert(ls.skip(1)[i - 1] == ls[i]);
                assert(ls.skip(1)[i - 1].len() > 0);
            }
        }
    }
}

/// Where the scan for a blank line stopped is the non-blank prefix.
pub proof fn lemma_nonblank_prefix_at(ls: Seq<Seq<u8>>, j: int)
    requires
        0 <= j <= ls.len(),
        forall|i: int| 0 <= i < j ==> (#[trigger] ls[i]).len() > 0,
        j < ls.len() ==> ls[j].len() == 0,
    ensures
        nonblank_prefix(ls) == j,
    decreases j,
{
    if j == 0 {
    } else {
        assert(ls[0].len() > 0);
        assert(forall|i: int| 0 <= i < ls.skip(1).len() ==> ls.skip(1)[i] == ls[i + 1]);
        lemma_nonblank_prefix_at(ls.skip(1), j - 1);
    }
}

/// Whether a block stands at the front of the lines: an index line, a
/// time-range line, at least one non-empty text line, and a blank line
/// closing the text.
pub open spec fn block_head(ls: Seq<Seq<u8>>) -> bool {
    &&& ls.len() >= 3
    &&& is_index_line(ls[0])
    &&& is_time_line(ls[1])
    &&& ls[2].len() > 0
    &&& 2 + nonblank_prefix(ls.skip(2)) < ls.len()
}

/// How many lines the block at the front spans, its blank line included.
pub open spec fn block_len(ls: Seq<Seq<u8>>) -> int {
    3 + nonblank_prefix(ls.skip(2))
}

/// The entry carried by the block at the front; its text is the text
/// lines joined with line feeds.
pub open spec fn block_entry(ls: Seq<Seq<u8>>) -> SubView {
    SubView {
        index: dec_val(ls[0]) as u32,
        start: ts_of(ls[1], 0),
        end: ts_of(ls[1], 17),
        text: join_nl(ls.subrange(2, 2 + nonblank_prefix(ls.skip(2)))),
        need_translation: false,
    }
}

/// Parse the lines from the front: a matched block yields an entry and
/// the scan resumes after its blank line; a matched block whose
/// time-range line is out of range aborts; any other line is skipped.
pub open spec fn parse_lines(ls: Seq<Seq<u8>>) -> Option<Seq<SubView>>
    decreases ls.len(),
    via parse_lines_dec
{
    if ls.len() == 0 {
        Some(Seq::empty())
    } else if block_head(ls) {
        if ts_in_range(ls[1], 0) && ts_in_range(ls[1], 17) {
            match parse_lines(ls.skip(block_len(ls))) {
                Some(rest) => Some(seq![block_entry(ls)] + rest),
                None => None,
            }
        } else {
            None
        }
    } else {
        parse_lines(ls.skip(1))
    }
}

#[via_fn]
proof fn parse_lines_dec(ls: Seq<Seq<u8>>) {
    if ls.len() != 0 && block_head(ls) {
        lemma_nonblank_prefix_bounds(ls.skip(2));
    }
}

/// The entries of a whole document.
pub open spec fn parse_doc(s: Seq<u8>) -> Option<Seq<SubView>> {
    parse_lines(line_split(s))
}

/// The twelve rendered bytes of a timestamp.
pub open spec fn ts_bytes(t: Timestamp) -> Seq<u8> {
    seq![
        (48 + t.hours / 10) as u8,
        (48 + t.hours % 10) as u8,
        58u8,
        (48 + t.minutes / 10) as u8,
        (48 + t.minutes % 10) as u8,
        58u8,
        (48 + t.seconds / 10) as u8,
        (48 + t.seconds % 10) as u8,
        44u8,
        (48 + t.millis / 100) as u8,
        (48 + (t.millis / 10) % 10) as u8,
        (48 + t.millis % 10) as u8,
    ]
}

/// The rendered time-range line.
pub open spec fn time_line(a: Timestamp, b: Timestamp) -> Seq<u8> {
    ts_bytes(a) + seq![32u8, 45u8, 45u8, 62u8, 32u8] + ts_bytes(b)
}

/// One rendered block: index, time range, text, and a closing blank line.
pub open spec fn ser_sub(e: SubView) -> Seq<u8> {
    dec_of(e.index as nat) + seq![10u8] + time_line(e.start, e.end) + seq![10u8] + e.text + seq![
        10u8,
        10u8,
    ]
}

/// The rendered document: the blocks in entry order.
pub open spec fn ser_subs(es: Seq<SubView>) -> Seq<u8>
    decreases es.len(),
{
    if es.len() == 0 {
        Seq::empty()
    } else {
        ser_sub(es[0]) + ser_subs(es.skip(1))
    }
}

/// An entry whose timestamps are within range.
pub open spec fn sub_wf(e: SubView) -> bool {
    e.start.wf() && e.end.wf()
}

/// An entry that serializes into a block the parser reads back exactly:
/// timestamps in range, well-formed text, and not yet flagged.
pub open spec fn wf_entry(e: SubView) -> bool {
    sub_wf(e) && wf_text(e.text) && !e.need_translation
}

/// The lines of one rendered block.
pub open spec fn entry_lines(e: SubView) -> Seq<Seq<u8>> {
    seq![dec_of(e.index as nat), time_line(e.start, e.end)] + line_split_st(
        e.text + seq![10u8],
        Seq::empty(),
    ) + seq![Seq::<u8>::empty()]
}

proof fn lemma_time_line_bytes(a: Timestamp, b: Timestamp)
    requires
        a.wf(),
        b.wf(),
    ensures
        is_time_line(time_line(a, b)),
        ts_in_range(time_line(a, b), 0),
        ts_in_range(time_line(a, b), 17),
        ts_of(time_line(a, b), 0) == a,
        ts_of(time_line(a, b), 17) == b,
        forall|i: int|
            0 <= i < time_line(a, b).len() ==> (#[trigger] time_line(a, b)[i]) != 10 && time_line(
                a,
                b,
            )[i] != 13,
{
    let l = time_line(a, b);
    let v = seq![
        (48 + a.hours / 10) as u8,
        (48 + a.hours % 10) as u8,
        58u8,
        (48 + a.minutes / 10) as u8,
        (48 + a.minutes % 10) as u8,
        58u8,
        (48 + a.seconds / 10) as u8,
        (48 + a.seconds % 10) as u8,
        44u8,
        (48 + a.millis / 100) as u8,
        (48 + (a.millis / 10) % 10) as u8,
        (48 + a.millis % 10) as u8,
        32u8,
        45u8,
        45u8,
        62u8,
        32u8,
        (48 + b.hours / 10) as u8,
        (48 + b.hours % 10) as u8,
        58u8,
        (48 + b.minutes / 10) as u8,
        (48 + b.minutes % 10) as u8,
        58u8,
        (48 + b.seconds / 10) as u8,
        (48 + b.seconds % 10) as u8,
        44u8,
        (48 + b.millis / 100) as u8,
        (48 + (b.millis / 10) % 10) as u8,
        (48 + b.millis % 10) as u8,
    ];
    assert(l =~= v);
    vstd::arithmetic::div_mod::lemma_fundamental_div_mod(a.hours as int, 10);
    vstd::arithmetic::div_mod::lemma_fundamental_div_mod(a.minutes as int, 10);
    vstd::arithmetic::div_mod::lemma_fundamental_div_mod(a.seconds as int, 10);
    vstd::arithmetic::div_mod::lemma_fundamental_div_mod(b.hours as int, 10);
    vstd::arithmetic::div_mod::lemma_fundamental_div_mod(b.minutes as int, 10);
    vstd::arithmetic::div_mod::lemma_fundamental_div_mod(b.seconds as int, 10);
    vstd::arithmetic::div_mod::lemma_fundamental_div_mod(a.millis as int, 100);
    vstd::arithmetic::div_mod::lemma_mod_breakdown(a.millis as int, 10, 10);
    vstd::arithmetic::div_mod::lemma_fundamental_div_mod(b.millis as int, 100);
    vstd::arithmetic::div_mod::lemma_mod_breakdown(b.millis as int, 10, 10);
    assert(ts_of(l, 0) =~= a);
    assert(ts_of(l, 17) =~= b);
}

proof fn lemma_ser_sub_lines(e: SubView)
    requires
        wf_entry(e),
    ensures
        line_split_st(ser_sub(e), Seq::empty()) == entry_lines(e),
{
    let dec = dec_of(e.index as nat);
    let tsl = time_line(e.start, e.end);
    let tls = line_split_st(e.text + seq![10u8], Seq::empty());
    let a = dec + seq![10u8];
    let b = tsl + seq![10u8];
    let c = e.text + seq![10u8];
    let d = seq![10u8];
    assert(ser_sub(e) =~= a + (b + (c + d)));
    lemma_dec_of_val(e.index as nat);
    lemma_time_line_bytes(e.start, e.end);
    assert(a[a.len() - 1] == 10);
    assert(b[b.len() - 1] == 10);
    assert(c[c.len() - 1] == 10);
    lemma_line_split_st_concat(a, b + (c + d), Seq::empty());
    lemma_line_split_st_concat(b, c + d, Seq::empty());
    lemma_line_split_st_concat(c, d, Seq::empty());
    assert(forall|i: int| 0 <= i < dec.len() ==> (#[trigger] dec[i]) != 10 && dec[i] != 13);
    lemma_split_one(dec, Seq::empty());
    assert(Seq::<u8>::empty() + dec =~= dec);
    assert(line_split_st(a, Seq::empty()) == seq![dec]);
    lemma_split_one(tsl, Seq::empty());
    assert(Seq::<u8>::empty() + tsl =~= tsl);
    assert(line_split_st(b, Seq::empty()) == seq![tsl]);
    assert(d[0] == 10);
    assert(d.skip(1) =~= Seq::<u8>::empty());
    assert(line_split_st(Seq::<u8>::empty(), Seq::<u8>::empty()) == Seq::<Seq<u8>>::empty());
    assert(strip_cr(Seq::<u8>::empty()) =~= Seq::<u8>::empty());
    assert(line_split_st(d, Seq::empty()) =~= seq![Seq::<u8>::empty()]);
    assert(line_split_st(ser_sub(e), Seq::empty()) == seq![dec] + (seq![tsl] + (tls + seq![
        Seq::<u8>::empty(),
    ])));
    assert(seq![dec] + (seq![tsl] + (tls + seq![Seq::<u8>::empty()])) =~= entry_lines(e));
}

proof fn lemma_parse_block(e: SubView, rest: Seq<Seq<u8>>)
    requires
        wf_entry(e),
    ensures
        parse_lines(entry_lines(e) + rest) == (match parse_lines(rest) {
            Some(r) => Some(seq![e] + r),
            None => None,
        }),
{
    let bl = entry_lines(e);
    let ls = bl + rest;
    let tls = line_split_st(e.text + seq![10u8], Seq::empty());
    lemma_split_join_text(e.text);
    lemma_dec_of_val(e.index as nat);
    lemma_time_line_bytes(e.start, e.end);
    assert(bl.len() == 3 + tls.len());
    assert(ls[0] == dec_of(e.index as nat));
    assert(ls[1] == time_line(e.start, e.end));
    assert(is_index_line(ls[0]));
    assert(is_time_line(ls[1]));
    assert forall|m: int| 0 <= m < tls.len() implies (#[trigger] ls.skip(2)[m]).len() > 0 by {
        assert(ls.skip(2)[m] == ls[m + 2]);
        assert(ls[m + 2] == tls[m]);
    }
    assert(ls.skip(2)[tls.len() as int] == ls[2 + tls.len() as int]);
    assert(ls[2 + tls.len() as int] == bl[2 + tls.len() as int]);
    assert(bl[2 + tls.len() as int] =~= Seq::<u8>::empty());
    lemma_nonblank_prefix_at(ls.skip(2), tls.len() as int);
    assert(nonblank_prefix(ls.skip(2)) == tls.len());
    assert(ls[2] == tls[0]);
    assert(block_head(ls));
    assert(block_len(ls) == bl.len());
    assert(ls.subrange(2, 2 + tls.len() as int) =~= tls);
    assert(block_entry(ls) =~= e);
    assert(ls.skip(bl.len() as int) =~= rest);
    assert(ts_in_range(ls[1], 0) && ts_in_range(ls[1], 17));
    match parse_lines(rest) {
        Some(r) => {
            assert(parse_lines(ls) == Some(seq![block_entry(ls)] + r));
            assert(seq![block_entry(ls)] + r =~= seq![e] + r);
        },
        None => {
            assert(parse_lines(ls) is None);
        },
    }
}

/// Law: a well-formed entry sequence serializes into a document that
/// parses back to exactly the same entries, with their indices, times
/// and text intact and in the same order.
pub proof fn lemma_parse_serialize_round_trip(es: Seq<SubView>)
    requires
        forall|k: int| 0 <= k < es.len() ==> wf_entry(#[trigger] es[k]),
    ensures
        parse_doc(ser_subs(es)) == Some(es),
    decreases es.len(),
{
    if es.len() == 0 {
        assert(ser_subs(es) == Seq::<u8>::empty());
        assert(line_split(Seq::<u8>::empty()) == Seq::<Seq<u8>>::empty());
        assert(parse_lines(Seq::<Seq<u8>>::empty()) == Some(Seq::<SubView>::empty()));
        assert(Seq::<SubView>::empty() =~= es);
    } else {
        let e = es[0];
        let rest = es.skip(1);
        assert(wf_entry(e));
        assert(forall|k: int| 0 <= k < rest.len() ==> wf_entry(#[trigger] rest[k]));
        lemma_parse_serialize_round_trip(rest);
        assert(ser_subs(es) == ser_sub(e) + ser_subs(rest));
        assert(ser_sub(e).len() > 0);
        assert(ser_sub(e)[ser_sub(e).len() - 1] == 10) by {
            let s = ser_sub(e);
            assert(s == dec_of(e.index as nat) + seq![10u8] + time_line(e.start, e.end) + seq![
                10u8,
            ] + e.text + seq![10u8, 10u8]);
        }
        lemma_line_split_st_concat(ser_sub(e), ser_subs(rest), Seq::empty());
        lemma_ser_sub_lines(e);
        lemma_parse_block(e, line_split(ser_subs(rest)));
        assert(line_split(ser_subs(es)) == entry_lines(e) + line_split(ser_subs(rest)));
        assert(parse_doc(ser_subs(rest)) == Some(rest));
        assert(parse_lines(line_split(ser_subs(es))) == Some(seq![e] + rest));
        assert(seq![e] + rest =~= es);
    }
}

/// Law: a document whose entries parse out well-formed serializes back
/// to a document carrying exactly the same entries, in the same order.
pub proof fn lemma_serialize_of_parsed_doc(doc: Seq<u8>, es: Seq<SubView>)
    requires
        parse_doc(doc) == Some(es),
        forall|k: int| 0 <= k < es.len() ==> wf_entry(#[trigger] es[k]),
    ensures
        parse_doc(ser_subs(es)) == parse_doc(doc),
{
    lemma_parse_serialize_round_trip(es);
}

/// Whether `b` is a decimal digit.
pub fn is_digit_exec(b: u8) -> (r: bool)
    ensures
        r == is_digit(b),
{
    48 <= b && b <= 57
}

/// The index carried by a digit line, if the line is one and its value
/// fits.
pub fn parse_index(l: &Vec<u8>) -> (r: Option<u32>)
    ensures
        r is Some <==> is_index_line(l@),
        r matches Some(v) ==> v == dec_val(l@),
{
    if l.len() == 0 {
        return None;
    }
    let mut acc: u64 = 0;
    let mut i: usize = 0;
    proof {
        assert(l@.take(0) =~= Seq::<u8>::empty());
    }
    while i < l.len()
        invariant
            i <= l@.len(),
            l@.len() > 0,
            acc <= 0xffff_ffff,
            forall|j: int| 0 <= j < i ==> is_digit(#[trigger] l@[j]),
            acc == dec_val(l@.take(i as int)),
        decreases l@.len() - i,
    {
        let b = l[i];
        if b < 48 || b > 57 {
            proof {
                assert(!is_digit(l@[i as int]));
            }
            return None;
        }
        let d = (b - 48) as u64;
        let acc2 = acc * 10 + d;
        proof {
            assert(l@.take(i as int + 1).drop_last() =~= l@.take(i as int));
            assert(l@.take(i as int + 1).last() == l@[i as int]);
            assert(dec_val(l@.take(i as int + 1)) == acc2);
        }
        if acc2 > 0xffff_ffff {
            proof {
                if all_digits(l@) {
                    lemma_dec_val_take(l@, i as int + 1);
                }
                assert(!is_index_line(l@));
            }
            return None;
        }
        acc = acc2;
        i += 1;
    }
    proof {
        assert(l@.take(l@.len() as int) =~= l@);
        assert(all_digits(l@));
    }
    Some(acc as u32)
}

/// Whether the line has exactly the `HH:MM:SS,mmm --> HH:MM:SS,mmm`
/// shape.
pub fn is_time_line_exec(l: &Vec<u8>) -> (r: bool)
    ensures
        r == is_time_line(l@),
{
    if l.len() != 29 {
        return false;
    }
    let r = is_digit_exec(l[0]) && is_digit_exec(l[1]) && l[2] == 58 && is_digit_exec(l[3])
        && is_digit_exec(l[4]) && l[5] == 58 && is_digit_exec(l[6]) && is_digit_exec(l[7])
        && l[8] == 44 && is_digit_exec(l[9]) && is_digit_exec(l[10]) && is_digit_exec(l[11])
        && l[12] == 32 && l[13] == 45 && l[14] == 45 && l[15] == 62 && l[16] == 32
        && is_digit_exec(l[17]) && is_digit_exec(l[18]) && l[19] == 58 && is_digit_exec(l[20])
        && is_digit_exec(l[21]) && l[22] == 58 && is_digit_exec(l[23]) && is_digit_exec(l[24])
        && l[25] == 44 && is_digit_exec(l[26]) && is_digit_exec(l[27]) && is_digit_exec(l[28]);
    r
}

/// Read one timestamp out of a shape-matched time-range line; an
/// out-of-range time of day yields nothing.
pub fn parse_ts(l: &Vec<u8>, off: usize) -> (r: Option<Timestamp>)
    requires
        is_time_line(l@),
        off == 0 || off == 17,
    ensures
        r is Some <==> ts_in_range(l@, off as int),
        r matches Some(t) ==> t == ts_of(l@, off as int) && t.wf(),
{
    let h = (l[off] - 48) * 10 + (l[off + 1] - 48);
    let m = (l[off + 3] - 48) * 10 + (l[off + 4] - 48);
    let s = (l[off + 6] - 48) * 10 + (l[off + 7] - 48);
    let ms = (l[off + 9] - 48) as u16 * 100 + (l[off + 10] - 48) as u16 * 10 + (l[off + 11]
        - 48) as u16;
    if h < 24 && m < 60 && s < 60 {
        Some(Timestamp { hours: h, minutes: m, seconds: s, millis: ms })
    } else {
        None
    }
}

/// The given lines joined with single line feeds.
fn join_lines_range(lines: &Vec<Vec<u8>>, a: usize, b: usize) -> (r: Vec<u8>)
    requires
        a < b,
        b <= lines@.len(),
    ensures
        r@ == join_nl(lines.deep_view().subrange(a as int, b as int)),
{
    let ghost dv = lines.deep_view();
    let mut r: Vec<u8> = Vec::new();
    r.extend_from_slice(lines[a].as_slice());
    proof {
        assert(lines@[a as int].deep_view() =~= lines@[a as int]@);
        assert(dv.subrange(a as int, a as int + 1) =~= seq![dv[a as int]]);
        assert(join_nl(seq![dv[a as int]]) == dv[a as int]);
        assert(r@ =~= join_nl(dv.subrange(a as int, a as int + 1)));
    }
    let mut k: usize = a + 1;
    while k < b
        invariant
            a < k <= b,
            b <= dv.len(),
            dv == lines.deep_view(),
            r@ == join_nl(dv.subrange(a as int, k as int)),
        decreases b - k,
    {
        let ghost prev = r@;
        r.push(10);
        r.extend_from_slice(lines[k].as_slice());
        proof {
            assert(lines@[k as int].deep_view() =~= lines@[k as int]@);
            assert(dv.subrange(a as int, k as int + 1) =~= dv.subrange(a as int, k as int).push(
                dv[k as int],
            ));
            lemma_join_nl_push(dv.subrange(a as int, k as int), dv[k as int]);
            assert(r@ =~= join_nl(dv.subrange(a as int, k as int)) + seq![10u8] + dv[k as int]);
        }
        k += 1;
    }
    r
}

/// Parse a whole subtitle document. Blocks that do not match the shape
/// are silently skipped; a matched block whose time-range line carries an
/// out-of-range time aborts the parse.
pub fn parse_subs(text: &Vec<u8>) -> (r: Result<Vec<Sub>, ParseError>)
    ensures
        r matches Ok(subs) ==> parse_doc(text@) == Some(subs.deep_view()) && forall|k: int|
            0 <= k < subs.deep_view().len() ==> sub_wf(#[trigger] subs.deep_view()[k]) && !subs.deep_view()[k].need_translation,
        r is Err ==> parse_doc(text@) is None,
{
    let lines = split_lines(text);
    let ghost ls = lines.deep_view();
    let mut subs: Vec<Sub> = Vec::new();
    let mut i: usize = 0;
    proof {
        assert(ls.skip(0) =~= ls);
        assert(subs.deep_view() =~= Seq::<SubView>::empty());
        if parse_lines(ls) is Some {
            assert(Seq::<SubView>::empty() + parse_lines(ls)->Some_0 =~= parse_lines(ls)->Some_0);
        }
    }
    while i < lines.len()
        invariant
            i <= ls.len(),
            ls == lines.deep_view(),
            ls == line_split(text@),
            forall|k: int|
                0 <= k < subs.deep_view().len() ==> sub_wf(#[trigger] subs.deep_view()[k])
                    && !subs.deep_view()[k].need_translation,
            parse_lines(ls) == (match parse_lines(ls.skip(i as int)) {
                Some(rest) => Some(subs.deep_view() + rest),
                None => None,
            }),
        decreases ls.len() - i,
    {
        let ghost tail = ls.skip(i as int);
        proof {
            assert(tail[0] == ls[i as int]);
            assert(lines@[i as int].deep_view() =~= lines@[i as int]@);
            assert(tail.skip(1) =~= ls.skip(i as int + 1));
        }
        let idx_opt = parse_index(&lines[i]);
        let mut skip_one = true;
        if idx_opt.is_some() && lines.len() - i > 2 {
            proof {
                assert(tail[1] == ls[i as int + 1]);
                assert(tail[2] == ls[i as int + 2]);
                assert(lines@[i as int + 1].deep_view() =~= lines@[i as int + 1]@);
                assert(lines@[i as int + 2].deep_view() =~= lines@[i as int + 2]@);
            }
            let time_ok = is_time_line_exec(&lines[i + 1]);
            let text_ok = lines[i + 2].len() > 0;
            if time_ok && text_ok {
                let mut j: usize = i + 2;
                loop
                    invariant
                        i + 2 <= j <= ls.len(),
                        ls == lines.deep_view(),
                        forall|m: int| i + 2 <= m < j ==> (#[trigger] ls[m]).len() > 0,
                    ensures
                        i + 2 <= j <= ls.len(),
                        forall|m: int| i + 2 <= m < j ==> (#[trigger] ls[m]).len() > 0,
                        j == ls.len() || ls[j as int].len() == 0,
                    decreases ls.len() - j,
                {
                    if j >= lines.len() {
                        break;
                    }
                    proof {
                        assert(lines@[j as int].deep_view() =~= lines@[j as int]@);
                    }
                    if lines[j].len() == 0 {
                        break;
                    }
                    j += 1;
                }
                proof {
                    assert(tail.skip(2) =~= ls.skip(i as int + 2));
                    assert(forall|m: int|
                        0 <= m < ls.skip(i as int + 2).len() ==> #[trigger] ls.skip(
                            i as int + 2,
                        )[m] == ls[m + i + 2]);
                    lemma_nonblank_prefix_at(ls.skip(i as int + 2), j - i - 2);
                    assert(nonblank_prefix(tail.skip(2)) == j - i - 2);
                }
                if j < lines.len() {
                    proof {
                        assert(tail.len() == ls.len() - i >= 3);
                        assert(block_head(tail));
                        assert(block_len(tail) == j - i + 1);
                    }
                    let start_opt = parse_ts(&lines[i + 1], 0);
                    let end_opt = parse_ts(&lines[i + 1], 17);
                    if start_opt.is_some() && end_opt.is_some() {
                        let txt = join_lines_range(&lines, i + 2, j);
                        let ghost olds = subs.deep_view();
                        let sub = Sub {
                            index: idx_opt.unwrap(),
                            start: start_opt.unwrap(),
                            end: end_opt.unwrap(),
                            text: txt,
                            need_translation: false,
                        };
                        proof {
                            assert(tail.subrange(2, 2 + (j - i - 2)) =~= ls.subrange(
                                i as int + 2,
                                j as int,
                            ));
                            assert(sub@ =~= block_entry(tail));
                        }
                        subs.push(sub);
                        proof {
                            assert(subs.deep_view() =~~= olds.push(block_entry(tail)));
                            assert(tail.skip(block_len(tail)) =~= ls.skip(j as int + 1));
                            assert(ts_in_range(tail[1], 0) && ts_in_range(tail[1], 17));
                            match parse_lines(ls.skip(j as int + 1)) {
                                Some(rest) => {
                                    assert(parse_lines(tail) == Some(
                                        seq![block_entry(tail)] + rest,
                                    ));
                                    assert(olds + (seq![block_entry(tail)] + rest) =~= olds.push(
                                        block_entry(tail),
                                    ) + rest);
                                },
                                None => {
                                    assert(parse_lines(tail) is None);
                                },
                            }
                        }
                        i = j + 1;
                        skip_one = false;
                    } else {
                        proof {
                            assert(!(ts_in_range(tail[1], 0) && ts_in_range(tail[1], 17)));
                            assert(parse_lines(tail) is None);
                            assert(parse_lines(ls) is None);
                        }
                        return Err(ParseError::InvalidTimestamp);
                    }
                } else {
                    proof {
                        assert(2 + nonblank_prefix(tail.skip(2)) == tail.len());
                        assert(!block_head(tail));
                    }
                }
            } else {
                proof {
                    assert(!block_head(tail));
                }
            }
        } else {
            proof {
                if idx_opt is None {
                    assert(!is_index_line(tail[0]));
                    assert(!block_head(tail));
                } else {
                    assert(tail.len() <= 2);
                    assert(!block_head(tail));
                }
            }
        }
        if skip_one {
            proof {
                assert(!block_head(tail));
                assert(parse_lines(tail) == parse_lines(ls.skip(i as int + 1)));
            }
            i += 1;
        }
    }
    proof {
        assert(ls.skip(i as int).len() == 0);
        assert(parse_lines(ls.skip(i as int)) == Some(Seq::<SubView>::empty()));
        assert(subs.deep_view() + Seq::<SubView>::empty() =~= subs.deep_view());
    }
    Ok(subs)
}

/// Append the canonical decimal digits of `n`.
pub fn push_dec_u32(out: &mut Vec<u8>, n: u32)
    ensures
        final(out)@ == old(out)@ + dec_of(n as nat),
    decreases n,
{
    if n < 10 {
        out.push(48 + n as u8);
        proof {
            assert(out@ =~= old(out)@ + dec_of(n as nat));
        }
    } else {
        push_dec_u32(out, n / 10);
        out.push(48 + (n % 10) as u8);
        proof {
            assert((n as nat) / 10 == (n / 10) as nat);
            assert(dec_of(n as nat) == dec_of((n / 10) as nat).push((48 + n % 10) as u8));
            assert(out@ =~= old(out)@ + dec_of(n as nat));
        }
    }
}

/// Append the twelve rendered bytes of a timestamp.
pub fn push_ts(out: &mut Vec<u8>, t: Timestamp)
    requires
        t.wf(),
    ensures
        final(out)@ == old(out)@ + ts_bytes(t),
{
    out.push(48 + t.hours / 10);
    out.push(48 + t.hours % 10);
    out.push(58);
    out.push(48 + t.minutes / 10);
    out.push(48 + t.minutes % 10);
    out.push(58);
    out.push(48 + t.seconds / 10);
    out.push(48 + t.seconds % 10);
    out.push(44);
    out.push(48 + (t.millis / 100) as u8);
    out.push(48 + ((t.millis / 10) % 10) as u8);
    out.push(48 + (t.millis % 10) as u8);
    proof {
        assert(out@ =~= old(out)@ + ts_bytes(t));
    }
}

impl Sub {
    /// Render the entry as its four-part block: index, time range, text,
    /// and a closing blank line.
    pub fn stringify(&self) -> (r: Vec<u8>)
        requires
            self.start.wf(),
            self.end.wf(),
        ensures
            r@ == ser_sub(self@),
    {
        let mut out: Vec<u8> = Vec::new();
        push_dec_u32(&mut out, self.index);
        out.push(10);
        push_ts(&mut out, self.start);
        out.push(32);
        out.push(45);
        out.push(45);
        out.push(62);
        out.push(32);
        push_ts(&mut out, self.end);
        out.push(10);
        out.extend_from_slice(self.text.as_slice());
        out.push(10);
        out.push(10);
        proof {
            assert(out@ =~= ser_sub(self@));
        }
        out
    }
}

/// Render a whole document: the blocks in entry order.
pub fn serialize_subs(subs: &Vec<Sub>) -> (r: Vec<u8>)
    requires
        forall|k: int| 0 <= k < subs.deep_view().len() ==> sub_wf(#[trigger] subs.deep_view()[k]),
    ensures
        r@ == ser_subs(subs.deep_view()),
{
    let ghost dv = subs.deep_view();
    let mut out: Vec<u8> = Vec::new();
    let mut i: usize = 0;
    proof {
        assert(dv.skip(0) =~= dv);
        assert(out@ + ser_subs(dv) =~= ser_subs(dv));
    }
    while i < subs.len()
        invariant
            i <= dv.len(),
            dv == subs.deep_view(),
            forall|k: int| 0 <= k < dv.len() ==> sub_wf(#[trigger] dv[k]),
            ser_subs(dv) == out@ + ser_subs(dv.skip(i as int)),
        decreases dv.len() - i,
    {
        let ghost prev = out@;
        proof {
            assert(dv.skip(i as int)[0] == dv[i as int]);
            assert(dv.skip(i as int).skip(1) =~= dv.skip(i as int + 1));
            assert(dv[i as int] == subs@[i as int]@);
            assert(sub_wf(dv[i as int]));
        }
        let piece = subs[i].stringify();
        out.extend_from_slice(piece.as_slice());
        proof {
            assert(out@ =~= prev + ser_sub(dv[i as int]));
            assert(prev + (ser_sub(dv[i as int]) + ser_subs(dv.skip(i as int + 1))) =~= (prev
                + ser_sub(dv[i as int])) + ser_subs(dv.skip(i as int + 1)));
        }
        i += 1;
    }
    proof {
        assert(ser_subs(dv.skip(i as int)) == Seq::<u8>::empty());
        assert(out@ =~= ser_subs(dv));
    }
    out
}

} // verus!
