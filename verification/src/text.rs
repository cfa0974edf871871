//! Byte-level line handling shared by the subtitle parser, the dictionary
//! loader and the reassembler.
//!
//! A document is a sequence of bytes; its lines are separated by line feeds,
//! and a carriage return standing immediately before a line feed belongs to
//! the separator, so `\n` and `\r\n` documents split into the same lines.

use vstd::prelude::*;

verus! {

/// A line with a trailing carriage return removed.
pub open spec fn strip_cr(l: Seq<u8>) -> Seq<u8> {
    if l.len() > 0 && l[l.len() - 1] == 13u8 {
        l.drop_last()
    } else {
        l
    }
}

/// Line splitting with the bytes of the currently open line carried along:
/// a line feed closes the open line (dropping a carriage return just before
/// it), and a final open line without a terminating line feed is kept as it
/// stands.
pub open spec fn line_split_st(s: Seq<u8>, cur: Seq<u8>) -> Seq<Seq<u8>>
    decreases s.len(),
{
    if s.len() == 0 {
        if cur.len() > 0 {
            seq![cur]
        } else {
            Seq::empty()
        }
    } else if s[0] == 10u8 {
        seq![strip_cr(cur)] + line_split_st(s.skip(1), Seq::empty())
    } else {
        line_split_st(s.skip(1), cur.push(s[0]))
    }
}

/// The lines of a document.
pub open spec fn line_split(s: Seq<u8>) -> Seq<Seq<u8>> {
    line_split_st(s, Seq::empty())
}

/// Lines joined back together with a single line feed between them.
pub open spec fn join_nl(ls: Seq<Seq<u8>>) -> Seq<u8>
    decreases ls.len(),
{
    if ls.len() == 0 {
        Seq::empty()
    } else if ls.len() == 1 {
        ls[0]
    } else {
        ls[0] + seq![10u8] + join_nl(ls.skip(1))
    }
}

pub proof fn lemma_join_nl_push(ls: Seq<Seq<u8>>, l: Seq<u8>)
    ensures
        join_nl(ls.push(l)) == if ls.len() == 0 {
            l
        } else {
            join_nl(ls) + seq![10u8] + l
        },
    decreases ls.len(),
{
    if ls.len() == 0 {
        assert(ls.push(l).len() == 1);
        assert(ls.push(l)[0] == l);
    } else if ls.len() == 1 {
        assert(ls.push(l).skip(1) =~= seq![l]);
        assert(join_nl(seq![l]) == l);
        assert(ls.push(l)[0] == ls[0]);
    } else {
        assert(ls.push(l).skip(1) =~= ls.skip(1).push(l));
        lemma_join_nl_push(ls.skip(1), l);
    }
}

/// Text that splits cleanly into non-empty lines and comes back unchanged
/// when those lines are joined with line feeds again: it is non-empty,
/// neither starts nor ends with a line feed, does not end with a carriage
/// return, and no line feed stands right after another line feed or a
/// carriage return.
pub open spec fn wf_text(t: Seq<u8>) -> bool {
    &&& t.len() > 0
    &&& t[0] != 10
    &&& t[t.len() - 1] != 10
    &&& t[t.len() - 1] != 13
    &&& forall|i: int|
        0 < i < t.len() ==> ((#[trigger] t[i]) == 10 ==> t[i - 1] != 10 && t[i - 1] != 13)
}

/// Splitting distributes over concatenation at a line feed.
pub proof fn lemma_line_split_st_concat(a: Seq<u8>, b: Seq<u8>, cur: Seq<u8>)
    requires
        a.len() > 0,
        a[a.len() - 1] == 10,
    ensures
        line_split_st(a + b, cur) == line_split_st(a, cur) + line_split_st(b, Seq::empty()),
    decreases a.len(),
{
    if a.len() == 1 {
        assert((a + b)[0] == 10);
        assert((a + b).skip(1) =~= b);
        assert(a.skip(1) =~= Seq::<u8>::empty());
        assert(line_split_st(Seq::<u8>::empty(), Seq::<u8>::empty())
            == Seq::<Seq<u8>>::empty());
        assert(line_split_st(a, cur) =~= seq![strip_cr(cur)]);
        assert(seq![strip_cr(cur)] + line_split_st(b, Seq::empty()) =~= line_split_st(
            a + b,
            cur,
        ));
    } else {
        assert((a + b)[0] == a[0]);
        assert((a + b).skip(1) =~= a.skip(1) + b);
        assert(a.skip(1).len() > 0);
        assert(a.skip(1)[a.skip(1).len() - 1] == a[a.len() - 1]);
        if a[0] == 10 {
            lemma_line_split_st_concat(a.skip(1), b, Seq::empty());
            assert(seq![strip_cr(cur)] + (line_split_st(a.skip(1), Seq::empty())
                + line_split_st(b, Seq::empty())) =~= (seq![strip_cr(cur)] + line_split_st(
                a.skip(1),
                Seq::empty(),
            )) + line_split_st(b, Seq::empty()));
        } else {
            lemma_line_split_st_concat(a.skip(1), b, cur.push(a[0]));
        }
    }
}

/// A terminated line without interior line feeds splits into itself,
/// appended to the line bytes already open.
pub proof fn lemma_split_one(x: Seq<u8>, cur: Seq<u8>)
    requires
        forall|i: int| 0 <= i < x.len() ==> (#[trigger] x[i]) != 10,
    ensures
        line_split_st(x + seq![10u8], cur) == seq![strip_cr(cur + x)],
    decreases x.len(),
{
    if x.len() == 0 {
        assert(x + seq![10u8] =~= seq![10u8]);
        assert((x + seq![10u8])[0] == 10);
        assert(seq![10u8].skip(1) =~= Seq::<u8>::empty());
        assert(line_split_st(Seq::<u8>::empty(), Seq::<u8>::empty())
            == Seq::<Seq<u8>>::empty());
        assert(cur + x =~= cur);
        assert(seq![strip_cr(cur)] + Seq::<Seq<u8>>::empty() =~= seq![strip_cr(cur)]);
    } else {
        assert((x + seq![10u8])[0] == x[0]);
        assert((x + seq![10u8]).skip(1) =~= x.skip(1) + seq![10u8]);
        assert(forall|i: int| 0 <= i < x.skip(1).len() ==> (#[trigger] x.skip(1)[i]) != 10);
        lemma_split_one(x.skip(1), cur.push(x[0]));
        assert(cur.push(x[0]) + x.skip(1) =~= cur + x);
    }
}

/// Well-formed text splits into its lines, all non-empty, and joining
/// them with line feeds gives the text back.
pub proof fn lemma_split_join_text(t: Seq<u8>)
    requires
        wf_text(t),
    ensures
        line_split_st(t + seq![10u8], Seq::empty()).len() >= 1,
        forall|k: int|
            0 <= k < line_split_st(t + seq![10u8], Seq::empty()).len() ==> (#[trigger] line_split_st(
                t + seq![10u8],
                Seq::empty(),
            )[k]).len() > 0,
        join_nl(line_split_st(t + seq![10u8], Seq::empty())) == t,
    decreases t.len(),
{
    let tls = line_split_st(t + seq![10u8], Seq::empty());
    if forall|i: int| 0 <= i < t.len() ==> (#[trigger] t[i]) != 10 {
        lemma_split_one(t, Seq::empty());
        assert(Seq::<u8>::empty() + t =~= t);
        assert(strip_cr(t) == t);
        assert(tls =~= seq![t]);
        assert(join_nl(seq![t]) == t);
    } else {
        let k = first_nl(t);
        lemma_first_nl_bounds(t);
        assert(k < t.len());
        let head = t.take(k);
        let tail = t.skip(k + 1);
        assert(t[k] == 10);
        assert(k > 0);
        assert(k < t.len() - 1) by {
            assert(t[t.len() - 1] != 10);
        }
        assert(tail.len() > 0);
        assert((head + seq![10u8]) + (tail + seq![10u8]) =~= t + seq![10u8]);
        lemma_line_split_st_concat(head + seq![10u8], tail + seq![10u8], Seq::empty());
        assert(forall|i: int| 0 <= i < head.len() ==> (#[trigger] head[i]) != 10);
        lemma_split_one(head, Seq::empty());
        assert(Seq::<u8>::empty() + head =~= head);
        assert(head[head.len() - 1] == t[k - 1]);
        assert(t[k - 1] != 13);
        assert(strip_cr(head) == head);
        assert(wf_text(tail)) by {
            assert(tail[0] == t[k + 1]);
            assert(t[k + 1] != 10);
            assert(tail[tail.len() - 1] == t[t.len() - 1]);
            assert forall|i: int|
                0 < i < tail.len() && (#[trigger] tail[i]) == 10 implies tail[i - 1] != 10
                && tail[i - 1] != 13 by {
                assert(tail[i] == t[i + k + 1]);
                assert(tail[i - 1] == t[i + k]);
            }
        }
        lemma_split_join_text(tail);
        let tls2 = line_split_st(tail + seq![10u8], Seq::empty());
        assert(tls =~= seq![head] + tls2);
        assert(head.len() > 0);
        assert forall|m: int| 0 <= m < tls.len() implies (#[trigger] tls[m]).len() > 0 by {
            if m > 0 {
                assert(tls[m] == tls2[m - 1]);
            }
        }
        assert(tls.len() >= 2);
        assert(tls.skip(1) =~= tls2);
        assert(tls[0] == head);
        assert(join_nl(tls) == head + seq![10u8] + join_nl(tls2));
        assert(head + seq![10u8] + tail =~= t);
    }
}

/// The index of the first line feed, or the length if there is none.
pub open spec fn first_nl(s: Seq<u8>) -> int
    decreases s.len(),
{
    if s.len() == 0 {
        0
    } else if s[0] == 10 {
        0
    } else {
        1 + first_nl(s.skip(1))
    }
}

pub proof fn lemma_first_nl_bounds(s: Seq<u8>)
    ensures
        0 <= first_nl(s) <= s.len(),
        first_nl(s) < s.len() ==> s[first_nl(s)] == 10,
        forall|i: int| 0 <= i < first_nl(s) ==> (#[trigger] s[i]) != 10,
    decreases s.len(),
{
    if s.len() == 0 {
    } else if s[0] == 10 {
    } else {
        lemma_first_nl_bounds(s.skip(1));
        assert forall|i: int| 0 <= i < first_nl(s) implies (#[trigger] s[i]) != 10 by {
            if i >= 1 {
                assert(s.skip(1)[i - 1] == s[i]);
                assert(s.skip(1)[i - 1] != 10);
            }
        }
    }
}

/// An owned copy of a byte string.
pub fn clone_bytes(a: &Vec<u8>) -> (r: Vec<u8>)
    ensures
        r@ == a@,
{
    let mut r: Vec<u8> = Vec::new();
    let mut i: usize = 0;
    while i < a.len()
        invariant
            i <= a@.len(),
            r@ =~= a@.take(i as int),
        decreases a@.len() - i,
    {
        r.push(a[i]);
        i += 1;
    }
    proof {
        assert(a@.take(a@.len() as int) =~= a@);
    }
    r
}

/// Split the document `t` into its lines.
pub fn split_lines(t: &Vec<u8>) -> (r: Vec<Vec<u8>>)
    ensures
        r.deep_view() == line_split(t@),
{
    let mut r: Vec<Vec<u8>> = Vec::new();
    let mut cur: Vec<u8> = Vec::new();
    let mut i: usize = 0;
    proof {
        assert(t@.skip(0) =~= t@);
        assert(r.deep_view() + line_split_st(t@, Seq::<u8>::empty()) =~= line_split_st(
            t@,
            Seq::<u8>::empty(),
        ));
    }
    while i < t.len()
        invariant
            i <= t@.len(),
            line_split(t@) == r.deep_view() + line_split_st(t@.skip(i as int), cur@),
        decreases t@.len() - i,
    {
        let ghost old_r = r.deep_view();
        let ghost old_cur = cur@;
        let b = t[i];
        proof {
            assert(t@.skip(i as int)[0] == b);
            assert(t@.skip(i as int).skip(1) =~= t@.skip(i as int + 1));
        }
        if b == 10u8 {
            if cur.len() > 0 && cur[cur.len() - 1] == 13u8 {
                cur.pop();
            }
            proof {
                assert(cur@ == strip_cr(old_cur));
            }
            r.push(cur);
            cur = Vec::new();
            proof {
                assert(r.deep_view() =~~= old_r + seq![strip_cr(old_cur)]);
                assert(line_split_st(t@.skip(i as int), old_cur) == seq![strip_cr(old_cur)]
                    + line_split_st(t@.skip(i as int + 1), Seq::<u8>::empty()));
                assert(old_r + seq![strip_cr(old_cur)] + line_split_st(
                    t@.skip(i as int + 1),
                    Seq::<u8>::empty(),
                ) =~= old_r + line_split_st(t@.skip(i as int), old_cur));
            }
        } else {
            cur.push(b);
            proof {
                assert(line_split_st(t@.skip(i as int), old_cur) == line_split_st(
                    t@.skip(i as int + 1),
                    old_cur.push(b),
                ));
            }
        }
        i += 1;
    }
    proof {
        assert(t@.skip(i as int).len() == 0);
    }
    if cur.len() > 0 {
        let ghost old_r = r.deep_view();
        let ghost old_cur = cur@;
        r.push(cur);
        proof {
            assert(line_split_st(t@.skip(i as int), old_cur) =~= seq![old_cur]);
            assert(r.deep_view() =~~= old_r + seq![old_cur]);
        }
    } else {
        proof {
            assert(line_split_st(t@.skip(i as int), cur@) =~= Seq::<Seq<u8>>::empty());
            assert(r.deep_view() + Seq::<Seq<u8>>::empty() =~= r.deep_view());
        }
    }
    r
}

} // verus!
