//! The translation pipeline around parsed entries: presentation markup is
//! stripped, words not classified `Known` are wrapped in a highlight
//! marker, the text of flagged entries is gathered into size-bounded
//! batches for the external translation capability, and the translated
//! lines are reassembled onto the flagged entries in order.

use vstd::prelude::*;

use crate::dict::{classify, Dict, RecView, WordKind};
use crate::subtitle::{Sub, SubView};
use crate::text::{clone_bytes, line_split, split_lines};
use crate::words::{is_word_byte, is_word_byte_exec, lower_ascii, lower_bytes};

verus! {

/// The length of the presentation tag standing at the front of `s`:
/// 3 for `<i>` or `<b>`, 4 for `</i>` or `</b>`, 0 for none.
pub open spec fn tag_len_at(s: Seq<u8>) -> int {
    if s.len() >= 3 && s[0] == 60 && (s[1] == 105 || s[1] == 98) && s[2] == 62 {
        3
    } else if s.len() >= 4 && s[0] == 60 && s[1] == 47 && (s[2] == 105 || s[2] == 98) && s[3]
        == 62 {
        4
    } else {
        0
    }
}

/// The text with every presentation tag occurrence removed, scanning
/// once from the front.
pub open spec fn strip_tags(s: Seq<u8>) -> Seq<u8>
    decreases s.len(),
{
    if s.len() == 0 {
        Seq::empty()
    } else if tag_len_at(s) > 0 {
        strip_tags(s.skip(tag_len_at(s)))
    } else {
        seq![s[0]] + strip_tags(s.skip(1))
    }
}

/// The highlight marker that opens a wrapped word.
pub open spec fn open_tag() -> Seq<u8> {
    seq![
        60u8, 102u8, 111u8, 110u8, 116u8, 32u8, 99u8, 111u8, 108u8, 111u8, 114u8, 61u8, 34u8,
        35u8, 70u8, 70u8, 70u8, 70u8, 56u8, 48u8, 34u8, 62u8,
    ]
}

/// The highlight marker that closes a wrapped word.
pub open spec fn close_tag() -> Seq<u8> {
    seq![60u8, 47u8, 102u8, 111u8, 110u8, 116u8, 62u8]
}

/// Whether a finished word run triggers translation: it is non-empty and
/// its lowercase form is not classified `Known`.
pub open spec fn token_flag(cur: Seq<u8>, dict: Seq<RecView>) -> bool {
    cur.len() > 0 && classify(dict, lower_bytes(cur)) != WordKind::Known
}

/// A finished word run as it is emitted: wrapped in the highlight marker
/// when it triggers translation, unchanged otherwise.
pub open spec fn emit_token(cur: Seq<u8>, dict: Seq<RecView>) -> Seq<u8> {
    if token_flag(cur, dict) {
        open_tag() + cur + close_tag()
    } else {
        cur
    }
}

/// The highlighted text, with the bytes of the currently open word run
/// carried along.
pub open spec fn hl_out(s: Seq<u8>, cur: Seq<u8>, dict: Seq<RecView>) -> Seq<u8>
    decreases s.len(),
{
    if s.len() == 0 {
        emit_token(cur, dict)
    } else if is_word_byte(s[0]) {
        hl_out(s.skip(1), cur.push(s[0]), dict)
    } else {
        emit_token(cur, dict) + seq![s[0]] + hl_out(s.skip(1), Seq::empty(), dict)
    }
}

/// Whether any word run of the text triggers translation.
pub open spec fn hl_flag(s: Seq<u8>, cur: Seq<u8>, dict: Seq<RecView>) -> bool
    decreases s.len(),
{
    if s.len() == 0 {
        token_flag(cur, dict)
    } else if is_word_byte(s[0]) {
        hl_flag(s.skip(1), cur.push(s[0]), dict)
    } else {
        token_flag(cur, dict) || hl_flag(s.skip(1), Seq::empty(), dict)
    }
}

/// The text with every run whose lowercase form is not `Known` wrapped
/// in the highlight marker.
pub open spec fn highlighted(s: Seq<u8>, dict: Seq<RecView>) -> Seq<u8> {
    hl_out(s, Seq::empty(), dict)
}

/// Whether the text holds any word not classified `Known`.
pub open spec fn needs_translation(s: Seq<u8>, dict: Seq<RecView>) -> bool {
    hl_flag(s, Seq::empty(), dict)
}

/// Line breaks replaced by the sentinel, so a multi-line entry travels
/// as one batch line.
pub open spec fn to_sentinel(s: Seq<u8>) -> Seq<u8> {
    s.map_values(|b: u8| if b == 10 { 42u8 } else { b })
}

/// The sentinel replaced back by line breaks.
pub open spec fn from_sentinel(s: Seq<u8>) -> Seq<u8> {
    s.map_values(|b: u8| if b == 42 { 10u8 } else { b })
}

/// What one entry becomes: markup stripped, highlighting applied, and
/// the flag set exactly when some word is not `Known`.
pub open spec fn proc_sub(e: SubView, dict: Seq<RecView>) -> SubView {
    SubView {
        index: e.index,
        start: e.start,
        end: e.end,
        text: highlighted(strip_tags(e.text), dict),
        need_translation: needs_translation(strip_tags(e.text), dict),
    }
}

/// The batch payloads of the flagged entries, in entry order: the
/// stripped, sentinel-encoded text of each.
pub open spec fn payloads(es: Seq<SubView>, dict: Seq<RecView>) -> Seq<Seq<u8>>
    decreases es.len(),
{
    if es.len() == 0 {
        Seq::empty()
    } else {
        (if needs_translation(strip_tags(es[0].text), dict) {
            seq![to_sentinel(strip_tags(es[0].text))]
        } else {
            Seq::empty()
        }) + payloads(es.skip(1), dict)
    }
}

/// The batches already flushed and the one still accumulating, each a
/// sequence of payloads.
pub ghost struct BatchState {
    pub done: Seq<Seq<Seq<u8>>>,
    pub cur: Seq<Seq<u8>>,
}

pub open spec fn empty_batch_state() -> BatchState {
    BatchState { done: Seq::empty(), cur: Seq::empty() }
}

/// The accumulated byte size of a batch: the payload lengths, without
/// the line terminators.
pub open spec fn batch_sum(b: Seq<Seq<u8>>) -> int
    decreases b.len(),
{
    if b.len() == 0 {
        0
    } else {
        b[0].len() + batch_sum(b.skip(1))
    }
}

/// One payload arrives: if it would push the accumulating batch past the
/// ceiling, that batch is flushed first and the payload opens a new one;
/// an empty batch is never flushed.
pub open spec fn batch_step(st: BatchState, p: Seq<u8>, c: int) -> BatchState {
    if st.cur.len() > 0 && batch_sum(st.cur) + p.len() > c {
        BatchState { done: st.done.push(st.cur), cur: seq![p] }
    } else {
        BatchState { done: st.done, cur: st.cur.push(p) }
    }
}

pub open spec fn batch_fold(ps: Seq<Seq<u8>>, st: BatchState, c: int) -> Seq<Seq<Seq<u8>>>
    decreases ps.len(),
{
    if ps.len() == 0 {
        if st.cur.len() > 0 {
            st.done.push(st.cur)
        } else {
            st.done
        }
    } else {
        batch_fold(ps.skip(1), batch_step(st, ps[0], c), c)
    }
}

/// All batches of the given payloads under the given ceiling.
pub open spec fn batches_of(ps: Seq<Seq<u8>>, c: int) -> Seq<Seq<Seq<u8>>> {
    batch_fold(ps, empty_batch_state(), c)
}

/// The bytes of a batch as sent: each payload followed by `\r\n`.
pub open spec fn chunk_bytes(b: Seq<Seq<u8>>) -> Seq<u8>
    decreases b.len(),
{
    if b.len() == 0 {
        Seq::empty()
    } else {
        b[0] + seq![13u8, 10u8] + chunk_bytes(b.skip(1))
    }
}

/// A batch within bounds: its accumulated size is at most the ceiling,
/// unless it holds a single oversized payload.
pub open spec fn batch_ok(b: Seq<Seq<u8>>, c: int) -> bool {
    batch_sum(b) <= c || b.len() == 1
}

proof fn lemma_batch_sum_push(b: Seq<Seq<u8>>, p: Seq<u8>)
    ensures
        batch_sum(b.push(p)) == batch_sum(b) + p.len(),
    decreases b.len(),
{
    if b.len() == 0 {
        assert(b.push(p)[0] == p);
        assert(b.push(p).skip(1) =~= Seq::<Seq<u8>>::empty());
        assert(batch_sum(Seq::<Seq<u8>>::empty()) == 0);
    } else {
        assert(b.push(p)[0] == b[0]);
        assert(b.push(p).skip(1) =~= b.skip(1).push(p));
        lemma_batch_sum_push(b.skip(1), p);
    }
}

proof fn lemma_batch_fold_ceiling(ps: Seq<Seq<u8>>, st: BatchState, c: int)
    requires
        forall|k: int| 0 <= k < st.done.len() ==> batch_ok(#[trigger] st.done[k], c),
        batch_sum(st.cur) <= c || st.cur.len() <= 1,
    ensures
        forall|k: int|
            0 <= k < batch_fold(ps, st, c).len() ==> batch_ok(#[trigger] batch_fold(ps, st, c)[k], c),
    decreases ps.len(),
{
    if ps.len() == 0 {
        if st.cur.len() > 0 {
            let r = st.done.push(st.cur);
            assert(batch_fold(ps, st, c) == r);
            assert forall|k: int| 0 <= k < r.len() implies batch_ok(#[trigger] r[k], c) by {
                if k < st.done.len() {
                    assert(r[k] == st.done[k]);
                } else {
                    assert(r[k] == st.cur);
                }
            }
        }
    } else {
        let st2 = batch_step(st, ps[0], c);
        lemma_batch_sum_push(st.cur, ps[0]);
        if st.cur.len() > 0 && batch_sum(st.cur) + ps[0].len() > c {
            assert(batch_ok(st.cur, c));
            assert forall|k: int| 0 <= k < st2.done.len() implies batch_ok(
                #[trigger] st2.done[k],
                c,
            ) by {
                if k < st.done.len() {
                    assert(st2.done[k] == st.done[k]);
                } else {
                    assert(st2.done[k] == st.cur);
                }
            }
            assert(st2.cur =~= seq![ps[0]]);
        }
        lemma_batch_fold_ceiling(ps.skip(1), st2, c);
        assert(batch_fold(ps, st, c) == batch_fold(ps.skip(1), st2, c));
    }
}

/// Law: no batch exceeds the ceiling unless it holds a single oversized
/// payload; this covers the final batch as well.
pub proof fn lemma_batch_ceiling(ps: Seq<Seq<u8>>, c: int)
    ensures
        forall|k: int|
            0 <= k < batches_of(ps, c).len() ==> batch_ok(#[trigger] batches_of(ps, c)[k], c),
{
    lemma_batch_fold_ceiling(ps, empty_batch_state(), c);
}

/// The payloads of all batches in order.
pub open spec fn flatten_batches(bs: Seq<Seq<Seq<u8>>>) -> Seq<Seq<u8>>
    decreases bs.len(),
{
    if bs.len() == 0 {
        Seq::empty()
    } else {
        bs[0] + flatten_batches(bs.skip(1))
    }
}

proof fn lemma_flatten_push(bs: Seq<Seq<Seq<u8>>>, b: Seq<Seq<u8>>)
    ensures
        flatten_batches(bs.push(b)) == flatten_batches(bs) + b,
    decreases bs.len(),
{
    if bs.len() == 0 {
        assert(bs.push(b)[0] == b);
        assert(bs.push(b).skip(1) =~= Seq::<Seq<Seq<u8>>>::empty());
        assert(flatten_batches(Seq::<Seq<Seq<u8>>>::empty()) == Seq::<Seq<u8>>::empty());
        assert(flatten_batches(bs.push(b)) =~= flatten_batches(bs) + b);
    } else {
        assert(bs.push(b)[0] == bs[0]);
        assert(bs.push(b).skip(1) =~= bs.skip(1).push(b));
        lemma_flatten_push(bs.skip(1), b);
        assert(bs[0] + (flatten_batches(bs.skip(1)) + b) =~= (bs[0] + flatten_batches(
            bs.skip(1),
        )) + b);
    }
}

proof fn lemma_batch_fold_flatten(ps: Seq<Seq<u8>>, st: BatchState, c: int)
    ensures
        flatten_batches(batch_fold(ps, st, c)) == flatten_batches(st.done) + st.cur + ps,
    decreases ps.len(),
{
    if ps.len() == 0 {
        if st.cur.len() > 0 {
            lemma_flatten_push(st.done, st.cur);
            assert(flatten_batches(st.done) + st.cur + ps =~= flatten_batches(st.done) + st.cur);
        } else {
            assert(flatten_batches(st.done) + st.cur + ps =~= flatten_batches(st.done));
        }
    } else {
        let st2 = batch_step(st, ps[0], c);
        lemma_batch_fold_flatten(ps.skip(1), st2, c);
        if st.cur.len() > 0 && batch_sum(st.cur) + ps[0].len() > c {
            lemma_flatten_push(st.done, st.cur);
            assert((flatten_batches(st.done) + st.cur) + seq![ps[0]] + ps.skip(1)
                =~= flatten_batches(st.done) + st.cur + ps);
        } else {
            assert(flatten_batches(st.done) + st.cur.push(ps[0]) + ps.skip(1) =~= flatten_batches(
                st.done,
            ) + st.cur + ps);
        }
    }
}

/// Law: batching reorders nothing and loses nothing; the payloads of all
/// batches, read in order, are exactly the flagged entries' payloads.
pub proof fn lemma_batches_preserve_payloads(ps: Seq<Seq<u8>>, c: int)
    ensures
        flatten_batches(batches_of(ps, c)) == ps,
{
    lemma_batch_fold_flatten(ps, empty_batch_state(), c);
    assert(flatten_batches(Seq::<Seq<Seq<u8>>>::empty()) + Seq::<Seq<u8>>::empty() + ps =~= ps);
}

/// How many entries are flagged for translation.
pub open spec fn count_flagged(es: Seq<SubView>) -> int
    decreases es.len(),
{
    if es.len() == 0 {
        0
    } else {
        (if es[0].need_translation {
            1int
        } else {
            0int
        }) + count_flagged(es.skip(1))
    }
}

pub proof fn lemma_count_flagged_nonneg(es: Seq<SubView>)
    ensures
        0 <= count_flagged(es) <= es.len(),
    decreases es.len(),
{
    if es.len() > 0 {
        lemma_count_flagged_nonneg(es.skip(1));
    }
}

/// The entries after reassembly: each flagged entry consumes one
/// translated line, decoded from the sentinel and appended beneath its
/// text; other entries stand unchanged.
pub open spec fn reassemble_spec(es: Seq<SubView>, lines: Seq<Seq<u8>>) -> Seq<SubView>
    decreases es.len(),
{
    if es.len() == 0 {
        Seq::empty()
    } else if es[0].need_translation {
        seq![
            SubView {
                index: es[0].index,
                start: es[0].start,
                end: es[0].end,
                text: es[0].text + seq![10u8] + from_sentinel(lines[0]),
                need_translation: true,
            },
        ] + reassemble_spec(es.skip(1), lines.skip(1))
    } else {
        seq![es[0]] + reassemble_spec(es.skip(1), lines)
    }
}

/// Why reassembly aborts.
#[derive(Clone, Copy, Debug, PartialEq, Eq, Structural)]
pub enum ReassembleError {
    MissingLine,
}

/// Law: the sentinel substitution is reversible on text that holds no
/// sentinel byte of its own, so a multi-line entry survives batching and
/// splitting intact.
pub proof fn lemma_sentinel_reversible(s: Seq<u8>)
    requires
        forall|i: int| 0 <= i < s.len() ==> (#[trigger] s[i]) != 42,
    ensures
        from_sentinel(to_sentinel(s)) == s,
{
    assert(from_sentinel(to_sentinel(s)) =~= s);
}

/// Law: the batcher gathers exactly one payload per entry that leaves
/// processing flagged, so the translated lines owed equal the flagged
/// entries.
pub proof fn lemma_payload_per_flagged(es: Seq<SubView>, dict: Seq<RecView>)
    ensures
        payloads(es, dict).len() == count_flagged(
            es.map_values(|e: SubView| proc_sub(e, dict)),
        ),
    decreases es.len(),
{
    let m = es.map_values(|e: SubView| proc_sub(e, dict));
    if es.len() == 0 {
        assert(m.len() == 0);
    } else {
        lemma_payload_per_flagged(es.skip(1), dict);
        assert(m[0] == proc_sub(es[0], dict));
        assert(m.skip(1) =~= es.skip(1).map_values(|e: SubView| proc_sub(e, dict)));
        if needs_translation(strip_tags(es[0].text), dict) {
            assert(payloads(es, dict) == seq![to_sentinel(strip_tags(es[0].text))] + payloads(
                es.skip(1),
                dict,
            ));
        } else {
            assert(payloads(es, dict) =~= payloads(es.skip(1), dict));
        }
    }
}

proof fn lemma_chunk_bytes_push(b: Seq<Seq<u8>>, p: Seq<u8>)
    ensures
        chunk_bytes(b.push(p)) == chunk_bytes(b) + p + seq![13u8, 10u8],
    decreases b.len(),
{
    if b.len() == 0 {
        assert(b.push(p)[0] == p);
        assert(b.push(p).skip(1) =~= Seq::<Seq<u8>>::empty());
        assert(chunk_bytes(Seq::<Seq<u8>>::empty()) == Seq::<u8>::empty());
        assert(chunk_bytes(b.push(p)) =~= chunk_bytes(b) + p + seq![13u8, 10u8]);
    } else {
        assert(b.push(p)[0] == b[0]);
        assert(b.push(p).skip(1) =~= b.skip(1).push(p));
        lemma_chunk_bytes_push(b.skip(1), p);
        assert(b[0] + seq![13u8, 10u8] + (chunk_bytes(b.skip(1)) + p + seq![13u8, 10u8]) =~= (b[0]
            + seq![13u8, 10u8] + chunk_bytes(b.skip(1))) + p + seq![13u8, 10u8]);
    }
}

/// The text with every presentation tag occurrence removed.
pub fn strip_tags_exec(t: &Vec<u8>) -> (r: Vec<u8>)
    ensures
        r@ == strip_tags(t@),
{
    let mut out: Vec<u8> = Vec::new();
    let mut i: usize = 0;
    proof {
        assert(t@.skip(0) =~= t@);
        assert(out@ + strip_tags(t@) =~= strip_tags(t@));
    }
    while i < t.len()
        invariant
            i <= t@.len(),
            strip_tags(t@) == out@ + strip_tags(t@.skip(i as int)),
        decreases t@.len() - i,
    {
        let ghost tail = t@.skip(i as int);
        let n = t.len() - i;
        proof {
            assert(tail.len() == n);
            if n >= 1 {
                assert(tail[0] == t@[i as int]);
            }
            if n >= 2 {
                assert(tail[1] == t@[i as int + 1]);
            }
            if n >= 3 {
                assert(tail[2] == t@[i as int + 2]);
            }
            if n >= 4 {
                assert(tail[3] == t@[i as int + 3]);
            }
        }
        let mut tl: usize = 0;
        if n >= 3 && t[i] == 60 && (t[i + 1] == 105 || t[i + 1] == 98) && t[i + 2] == 62 {
            tl = 3;
        } else if n >= 4 && t[i] == 60 && t[i + 1] == 47 && (t[i + 2] == 105 || t[i + 2] == 98)
            && t[i + 3] == 62 {
            tl = 4;
        }
        proof {
            assert(tl as int == tag_len_at(tail));
        }
        if tl > 0 {
            proof {
                assert(strip_tags(tail) == strip_tags(tail.skip(tl as int)));
                assert(tail.skip(tl as int) =~= t@.skip(i as int + tl as int));
            }
            i += tl;
        } else {
            let ghost prev = out@;
            out.push(t[i]);
            proof {
                assert(tail.skip(1) =~= t@.skip(i as int + 1));
                assert(strip_tags(tail) == seq![tail[0]] + strip_tags(t@.skip(i as int + 1)));
                assert(prev + (seq![tail[0]] + strip_tags(t@.skip(i as int + 1))) =~= (prev
                    + seq![tail[0]]) + strip_tags(t@.skip(i as int + 1)));
                assert(out@ =~= prev + seq![tail[0]]);
            }
            i += 1;
        }
    }
    proof {
        assert(t@.skip(i as int).len() == 0);
        assert(strip_tags(t@.skip(i as int)) == Seq::<u8>::empty());
        assert(out@ + Seq::<u8>::empty() =~= out@);
    }
    out
}

/// Append the highlight marker that opens a wrapped word.
fn push_open_tag(out: &mut Vec<u8>)
    ensures
        final(out)@ == old(out)@ + open_tag(),
{
    out.push(60);
    out.push(102);
    out.push(111);
    out.push(110);
    out.push(116);
    out.push(32);
    out.push(99);
    out.push(111);
    out.push(108);
    out.push(111);
    out.push(114);
    out.push(61);
    out.push(34);
    out.push(35);
    out.push(70);
    out.push(70);
    out.push(70);
    out.push(70);
    out.push(56);
    out.push(48);
    out.push(34);
    out.push(62);
    proof {
        assert(out@ =~= old(out)@ + open_tag());
    }
}

/// Append the highlight marker that closes a wrapped word.
fn push_close_tag(out: &mut Vec<u8>)
    ensures
        final(out)@ == old(out)@ + close_tag(),
{
    out.push(60);
    out.push(47);
    out.push(102);
    out.push(111);
    out.push(110);
    out.push(116);
    out.push(62);
    proof {
        assert(out@ =~= old(out)@ + close_tag());
    }
}

/// Emit a finished word run: wrapped when its lowercase form is not
/// `Known`, unchanged otherwise.
fn emit_run(out: &mut Vec<u8>, cur: &Vec<u8>, d: &Dict) -> (flag: bool)
    ensures
        final(out)@ == old(out)@ + emit_token(cur@, d@),
        flag == token_flag(cur@, d@),
{
    if cur.len() == 0 {
        proof {
            assert(out@ + emit_token(cur@, d@) =~= out@);
        }
        return false;
    }
    let lw = lower_ascii(cur);
    let k = d.classify(&lw);
    match k {
        WordKind::Known => {
            out.extend_from_slice(cur.as_slice());
            false
        },
        _ => {
            push_open_tag(out);
            out.extend_from_slice(cur.as_slice());
            push_close_tag(out);
            proof {
                assert(out@ =~= old(out)@ + (open_tag() + cur@ + close_tag()));
            }
            true
        },
    }
}

/// Highlight every word of the text that is not classified `Known`, and
/// say whether any word was.
pub fn highlight_text(t: &Vec<u8>, d: &Dict) -> (r: (Vec<u8>, bool))
    ensures
        r.0@ == highlighted(t@, d@),
        r.1 == needs_translation(t@, d@),
{
    let mut out: Vec<u8> = Vec::new();
    let mut cur: Vec<u8> = Vec::new();
    let mut flag = false;
    let mut i: usize = 0;
    proof {
        assert(t@.skip(0) =~= t@);
        assert(out@ + hl_out(t@, Seq::<u8>::empty(), d@) =~= hl_out(t@, Seq::<u8>::empty(), d@));
    }
    while i < t.len()
        invariant
            i <= t@.len(),
            highlighted(t@, d@) == out@ + hl_out(t@.skip(i as int), cur@, d@),
            needs_translation(t@, d@) == (flag || hl_flag(t@.skip(i as int), cur@, d@)),
        decreases t@.len() - i,
    {
        let ghost tail = t@.skip(i as int);
        let ghost cur0 = cur@;
        proof {
            assert(tail[0] == t@[i as int]);
            assert(tail.skip(1) =~= t@.skip(i as int + 1));
        }
        let b = t[i];
        if is_word_byte_exec(b) {
            cur.push(b);
            proof {
                assert(hl_out(tail, cur0, d@) == hl_out(
                    t@.skip(i as int + 1),
                    cur0.push(b),
                    d@,
                ));
                assert(hl_flag(tail, cur0, d@) == hl_flag(
                    t@.skip(i as int + 1),
                    cur0.push(b),
                    d@,
                ));
            }
        } else {
            let ghost prev = out@;
            let f = emit_run(&mut out, &cur, d);
            flag = flag || f;
            out.push(b);
            cur = Vec::new();
            proof {
                assert(cur@ =~= Seq::<u8>::empty());
                assert(hl_out(tail, cur0, d@) == emit_token(cur0, d@) + seq![tail[0]] + hl_out(
                    t@.skip(i as int + 1),
                    Seq::<u8>::empty(),
                    d@,
                ));
                assert(hl_flag(tail, cur0, d@) == (token_flag(cur0, d@) || hl_flag(
                    t@.skip(i as int + 1),
                    Seq::<u8>::empty(),
                    d@,
                )));
                assert(out@ =~= prev + emit_token(cur0, d@) + seq![tail[0]]);
                assert(prev + (emit_token(cur0, d@) + seq![tail[0]] + hl_out(
                    t@.skip(i as int + 1),
                    Seq::<u8>::empty(),
                    d@,
                )) =~= (prev + emit_token(cur0, d@) + seq![tail[0]]) + hl_out(
                    t@.skip(i as int + 1),
                    Seq::<u8>::empty(),
                    d@,
                ));
            }
        }
        i += 1;
    }
    let ghost cur0 = cur@;
    let f = emit_run(&mut out, &cur, d);
    let flag2 = flag || f;
    proof {
        assert(t@.skip(i as int).len() == 0);
        assert(hl_out(t@.skip(i as int), cur0, d@) == emit_token(cur0, d@));
        assert(hl_flag(t@.skip(i as int), cur0, d@) == token_flag(cur0, d@));
    }
    (out, flag2)
}

/// Line breaks replaced by the sentinel.
pub fn to_sentinel_exec(t: &Vec<u8>) -> (r: Vec<u8>)
    ensures
        r@ == to_sentinel(t@),
{
    let mut r: Vec<u8> = Vec::new();
    let mut i: usize = 0;
    while i < t.len()
        invariant
            i <= t@.len(),
            r@ =~= to_sentinel(t@).take(i as int),
        decreases t@.len() - i,
    {
        let b = t[i];
        if b == 10 {
            r.push(42);
        } else {
            r.push(b);
        }
        i += 1;
    }
    proof {
        assert(to_sentinel(t@).take(t@.len() as int) =~= to_sentinel(t@));
    }
    r
}

/// The sentinel replaced back by line breaks.
pub fn from_sentinel_exec(t: &Vec<u8>) -> (r: Vec<u8>)
    ensures
        r@ == from_sentinel(t@),
{
    let mut r: Vec<u8> = Vec::new();
    let mut i: usize = 0;
    while i < t.len()
        invariant
            i <= t@.len(),
            r@ =~= from_sentinel(t@).take(i as int),
        decreases t@.len() - i,
    {
        let b = t[i];
        if b == 42 {
            r.push(10);
        } else {
            r.push(b);
        }
        i += 1;
    }
    proof {
        assert(from_sentinel(t@).take(t@.len() as int) =~= from_sentinel(t@));
    }
    r
}

/// Walk the entries in order: strip markup, highlight and flag each, and
/// gather the flagged entries' sentinel-encoded text into size-bounded
/// batches, flushing the accumulating batch before an addition would
/// push it past the ceiling.
pub fn prepare_subs(subs: &mut Vec<Sub>, d: &Dict, ceiling: usize) -> (batches: Vec<Vec<u8>>)
    ensures
        final(subs)@.len() == old(subs)@.len(),
        forall|k: int|
            0 <= k < old(subs)@.len() ==> final(subs).deep_view()[k] == proc_sub(
                #[trigger] old(subs).deep_view()[k],
                d@,
            ),
        batches.deep_view() == batches_of(
            payloads(old(subs).deep_view(), d@),
            ceiling as int,
        ).map_values(|b: Seq<Seq<u8>>| chunk_bytes(b)),
{
    let ghost dv0 = subs.deep_view();
    let ghost ps_all = payloads(dv0, d@);
    let c = ceiling;
    let mut batches: Vec<Vec<u8>> = Vec::new();
    let mut chunk: Vec<u8> = Vec::new();
    let mut chunk_size: usize = 0;
    let mut chunk_cnt: usize = 0;
    let ghost mut st = empty_batch_state();
    let mut i: usize = 0;
    proof {
        assert(dv0.skip(0) =~= dv0);
        assert(batches.deep_view() =~= Seq::<Seq<u8>>::empty());
        assert(Seq::<Seq<Seq<u8>>>::empty().map_values(|b: Seq<Seq<u8>>| chunk_bytes(b))
            =~= Seq::<Seq<u8>>::empty());
        assert(chunk@ =~= chunk_bytes(st.cur));
        assert(batch_sum(st.cur) == 0);
    }
    while i < subs.len()
        invariant
            i <= dv0.len(),
            subs@.len() == dv0.len(),
            forall|k: int|
                0 <= k < i ==> subs.deep_view()[k] == proc_sub(#[trigger] dv0[k], d@),
            forall|k: int| i <= k < dv0.len() ==> #[trigger] subs.deep_view()[k] == dv0[k],
            batch_fold(ps_all, empty_batch_state(), c as int) == batch_fold(
                payloads(dv0.skip(i as int), d@),
                st,
                c as int,
            ),
            batches.deep_view() == st.done.map_values(|b: Seq<Seq<u8>>| chunk_bytes(b)),
            chunk@ == chunk_bytes(st.cur),
            chunk_size == batch_sum(st.cur),
            chunk_cnt == st.cur.len(),
            st.cur.len() <= i,
            batch_sum(st.cur) <= c || st.cur.len() <= 1,
        decreases dv0.len() - i,
    {
        proof {
            assert(dv0.skip(i as int)[0] == dv0[i as int]);
            assert(dv0.skip(i as int).skip(1) =~= dv0.skip(i as int + 1));
            assert(subs.deep_view()[i as int] == dv0[i as int]);
            assert(subs@[i as int]@ == subs.deep_view()[i as int]);
        }
        let index = subs[i].index;
        let start = subs[i].start;
        let end = subs[i].end;
        let stripped = strip_tags_exec(&subs[i].text);
        let (hl, flag) = highlight_text(&stripped, d);
        proof {
            assert(stripped@ == strip_tags(dv0[i as int].text));
            assert(flag == needs_translation(strip_tags(dv0[i as int].text), d@));
        }
        if flag {
            let pay = to_sentinel_exec(&stripped);
            let ghost stp = st;
            proof {
                lemma_batch_sum_push(stp.cur, pay@);
                assert(payloads(dv0.skip(i as int), d@) == seq![
                    to_sentinel(strip_tags(dv0[i as int].text)),
                ] + payloads(dv0.skip(i as int + 1), d@));
                assert(pay@ == to_sentinel(strip_tags(dv0[i as int].text)));
                assert((seq![pay@] + payloads(dv0.skip(i as int + 1), d@))[0] == pay@);
                assert((seq![pay@] + payloads(dv0.skip(i as int + 1), d@)).skip(1) =~= payloads(
                    dv0.skip(i as int + 1),
                    d@,
                ));
            }
            let do_flush = chunk_cnt > 0 && (chunk_size > c || pay.len() > c - chunk_size);
            proof {
                assert(do_flush == (stp.cur.len() > 0 && batch_sum(stp.cur) + pay@.len()
                    > c as int));
                st = batch_step(stp, pay@, c as int);
            }
            if do_flush {
                let ghost prevb = batches.deep_view();
                batches.push(chunk);
                chunk = Vec::new();
                proof {
                    assert(st.done == stp.done.push(stp.cur));
                    assert(batches.deep_view() =~~= prevb.push(chunk_bytes(stp.cur)));
                    assert(st.done.map_values(|b: Seq<Seq<u8>>| chunk_bytes(b)) =~= stp.done.map_values(
                        |b: Seq<Seq<u8>>| chunk_bytes(b),
                    ).push(chunk_bytes(stp.cur)));
                }
                chunk.extend_from_slice(pay.as_slice());
                chunk.push(13);
                chunk.push(10);
                chunk_size = pay.len();
                chunk_cnt = 1;
                proof {
                    assert(st.cur == seq![pay@]);
                    assert(seq![pay@][0] == pay@);
                    assert(seq![pay@].skip(1) =~= Seq::<Seq<u8>>::empty());
                    assert(chunk_bytes(Seq::<Seq<u8>>::empty()) == Seq::<u8>::empty());
                    assert(batch_sum(Seq::<Seq<u8>>::empty()) == 0);
                    assert(chunk@ =~= chunk_bytes(st.cur));
                }
            } else {
                let ghost prevc = chunk@;
                chunk.extend_from_slice(pay.as_slice());
                chunk.push(13);
                chunk.push(10);
                chunk_size = chunk_size + pay.len();
                chunk_cnt = chunk_cnt + 1;
                proof {
                    assert(st.cur == stp.cur.push(pay@));
                    lemma_chunk_bytes_push(stp.cur, pay@);
                    assert(chunk@ =~= prevc + pay@ + seq![13u8, 10u8]);
                }
            }
        } else {
            proof {
                assert(payloads(dv0.skip(i as int), d@) == Seq::<Seq<u8>>::empty() + payloads(
                    dv0.skip(i as int + 1),
                    d@,
                ));
                assert(Seq::<Seq<u8>>::empty() + payloads(dv0.skip(i as int + 1), d@)
                    =~= payloads(dv0.skip(i as int + 1), d@));
            }
        }
        let sub2 = Sub { index, start, end, text: hl, need_translation: flag };
        proof {
            assert(sub2@ =~= proc_sub(dv0[i as int], d@));
        }
        let ghost before = subs.deep_view();
        subs[i] = sub2;
        proof {
            assert forall|k: int| 0 <= k < dv0.len() implies #[trigger] subs.deep_view()[k] == (
                if k == i as int {
                    proc_sub(dv0[k], d@)
                } else {
                    before[k]
                }) by {
                if k == i as int {
                    assert(subs.deep_view()[k] == sub2@);
                } else {
                    assert(subs.deep_view()[k] == before[k]);
                }
            }
        }
        i += 1;
    }
    proof {
        assert(payloads(dv0.skip(i as int), d@) == Seq::<Seq<u8>>::empty());
        assert(batch_fold(ps_all, empty_batch_state(), c as int) == batch_fold(
            Seq::<Seq<u8>>::empty(),
            st,
            c as int,
        ));
    }
    if chunk_cnt > 0 {
        let ghost prevb = batches.deep_view();
        batches.push(chunk);
        proof {
            assert(batch_fold(Seq::<Seq<u8>>::empty(), st, c as int) == st.done.push(st.cur));
            assert(batches.deep_view() =~~= prevb.push(chunk_bytes(st.cur)));
            assert(st.done.push(st.cur).map_values(|b: Seq<Seq<u8>>| chunk_bytes(b))
                =~= st.done.map_values(|b: Seq<Seq<u8>>| chunk_bytes(b)).push(
                chunk_bytes(st.cur),
            ));
        }
    } else {
        proof {
            assert(batch_fold(Seq::<Seq<u8>>::empty(), st, c as int) == st.done);
        }
    }
    batches
}

/// Split the translated text into lines and append one, decoded from the
/// sentinel, beneath each flagged entry in order; fewer lines than
/// flagged entries aborts, leaving the entries unchanged. The result
/// says how many lines were consumed: exactly one per flagged entry.
pub fn reassemble(subs: &mut Vec<Sub>, translated: &Vec<u8>) -> (r: Result<
    usize,
    ReassembleError,
>)
    ensures
        r is Ok <==> count_flagged(old(subs).deep_view()) <= line_split(translated@).len(),
        r matches Ok(n) ==> n == count_flagged(old(subs).deep_view())
            && final(subs).deep_view() == reassemble_spec(
            old(subs).deep_view(),
            line_split(translated@),
        ),
        r is Err ==> *final(subs) == *old(subs),
{
    let ghost dv0 = subs.deep_view();
    let lines = split_lines(translated);
    let ghost lsv = lines.deep_view();
    let mut cnt: usize = 0;
    let mut i: usize = 0;
    proof {
        assert(dv0.skip(0) =~= dv0);
    }
    while i < subs.len()
        invariant
            i <= dv0.len(),
            subs.deep_view() == dv0,
            subs@.len() == dv0.len(),
            cnt <= i,
            cnt + count_flagged(dv0.skip(i as int)) == count_flagged(dv0),
        decreases dv0.len() - i,
    {
        proof {
            assert(dv0.skip(i as int)[0] == dv0[i as int]);
            assert(dv0.skip(i as int).skip(1) =~= dv0.skip(i as int + 1));
            assert(subs.deep_view()[i as int] == subs@[i as int].deep_view());
            assert(subs@[i as int].deep_view() == subs@[i as int]@);
            assert(subs.deep_view()[i as int] == dv0[i as int]);
            assert(subs@[i as int]@ == dv0[i as int]);
        }
        if subs[i].need_translation {
            cnt += 1;
        }
        i += 1;
    }
    proof {
        assert(dv0.skip(i as int).len() == 0);
        assert(count_flagged(dv0.skip(i as int)) == 0);
    }
    if cnt > lines.len() {
        return Err(ReassembleError::MissingLine);
    }
    let mut j: usize = 0;
    let mut i: usize = 0;
    proof {
        assert(dv0.skip(0) =~= dv0);
        assert(lsv.skip(0) =~= lsv);
        assert(subs.deep_view().take(0) =~= Seq::<SubView>::empty());
        assert(Seq::<SubView>::empty() + reassemble_spec(dv0, lsv) =~= reassemble_spec(dv0, lsv));
    }
    while i < subs.len()
        invariant
            i <= dv0.len(),
            subs@.len() == dv0.len(),
            j <= lsv.len(),
            lsv == lines.deep_view(),
            lsv == line_split(translated@),
            forall|k: int| i <= k < dv0.len() ==> #[trigger] subs.deep_view()[k] == dv0[k],
            cnt == count_flagged(dv0),
            j + count_flagged(dv0.skip(i as int)) == count_flagged(dv0),
            count_flagged(dv0) <= lsv.len(),
            reassemble_spec(dv0, lsv) == subs.deep_view().take(i as int) + reassemble_spec(
                dv0.skip(i as int),
                lsv.skip(j as int),
            ),
        decreases dv0.len() - i,
    {
        let ghost before = subs.deep_view();
        proof {
            assert(dv0.skip(i as int)[0] == dv0[i as int]);
            assert(dv0.skip(i as int).skip(1) =~= dv0.skip(i as int + 1));
            assert(subs.deep_view()[i as int] == dv0[i as int]);
            assert(subs.deep_view()[i as int] == subs@[i as int].deep_view());
            assert(subs@[i as int]@ == dv0[i as int]);
            lemma_count_flagged_nonneg(dv0.skip(i as int + 1));
        }
        if subs[i].need_translation {
            proof {
                assert(count_flagged(dv0.skip(i as int)) == 1 + count_flagged(
                    dv0.skip(i as int + 1),
                ));
                assert(lsv.len() == lines@.len());
                assert(j < lsv.len());
                assert(lsv.skip(j as int)[0] == lsv[j as int]);
                assert(lsv.skip(j as int).skip(1) =~= lsv.skip(j as int + 1));
                assert(lines@[j as int].deep_view() =~= lines@[j as int]@);
            }
            let decoded = from_sentinel_exec(&lines[j]);
            let index = subs[i].index;
            let start = subs[i].start;
            let end = subs[i].end;
            let mut ntext = clone_bytes(&subs[i].text);
            ntext.push(10);
            ntext.extend_from_slice(decoded.as_slice());
            let sub2 = Sub { index, start, end, text: ntext, need_translation: true };
            let ghost entry = SubView {
                index: dv0[i as int].index,
                start: dv0[i as int].start,
                end: dv0[i as int].end,
                text: dv0[i as int].text + seq![10u8] + from_sentinel(lsv[j as int]),
                need_translation: true,
            };
            proof {
                assert(sub2@ =~= entry);
                assert(reassemble_spec(dv0.skip(i as int), lsv.skip(j as int)) == seq![entry]
                    + reassemble_spec(dv0.skip(i as int + 1), lsv.skip(j as int + 1)));
            }
            subs[i] = sub2;
            proof {
                assert(subs.deep_view().take(i as int + 1) =~= before.take(i as int).push(entry));
                assert(before.take(i as int) + (seq![entry] + reassemble_spec(
                    dv0.skip(i as int + 1),
                    lsv.skip(j as int + 1),
                )) =~= before.take(i as int).push(entry) + reassemble_spec(
                    dv0.skip(i as int + 1),
                    lsv.skip(j as int + 1),
                ));
                assert forall|k: int| i as int + 1 <= k < dv0.len() implies #[trigger] subs.deep_view()[k]
                    == dv0[k] by {
                    assert(subs.deep_view()[k] == before[k]);
                }
            }
            j += 1;
        } else {
            proof {
                assert(count_flagged(dv0.skip(i as int)) == count_flagged(dv0.skip(i as int + 1)));
                assert(reassemble_spec(dv0.skip(i as int), lsv.skip(j as int)) == seq![
                    dv0[i as int],
                ] + reassemble_spec(dv0.skip(i as int + 1), lsv.skip(j as int)));
                assert(subs.deep_view().take(i as int + 1) =~= before.take(i as int).push(
                    dv0[i as int],
                ));
                assert(before.take(i as int) + (seq![dv0[i as int]] + reassemble_spec(
                    dv0.skip(i as int + 1),
                    lsv.skip(j as int),
                )) =~= before.take(i as int).push(dv0[i as int]) + reassemble_spec(
                    dv0.skip(i as int + 1),
                    lsv.skip(j as int),
                ));
            }
        }
        i += 1;
    }
    proof {
        assert(dv0.skip(i as int).len() == 0);
        assert(count_flagged(dv0.skip(i as int)) == 0);
        assert(reassemble_spec(dv0.skip(i as int), lsv.skip(j as int)) == Seq::<SubView>::empty());
        assert(subs.deep_view().take(i as int) =~= subs.deep_view());
        assert(subs.deep_view() + Seq::<SubView>::empty() =~= subs.deep_view());
    }
    Ok(cnt)
}

} // verus!
