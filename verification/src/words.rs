//! Word extraction: the maximal runs of ASCII letters and apostrophes in a
//! text, normalized to lowercase. Every other byte separates tokens and is
//! discarded, so no empty token is ever produced.

use vstd::prelude::*;

verus! {

/// A byte that may stand inside a word: an ASCII letter or an apostrophe.
pub open spec fn is_word_byte(b: u8) -> bool {
    (97 <= b && b <= 122) || (65 <= b && b <= 90) || b == 39
}

/// ASCII lowercasing of one byte; every other byte is left alone.
pub open spec fn lower_byte(b: u8) -> u8 {
    if 65 <= b && b <= 90 {
        (b + 32) as u8
    } else {
        b
    }
}

/// ASCII lowercasing of a whole text.
pub open spec fn lower_bytes(s: Seq<u8>) -> Seq<u8> {
    s.map_values(|b: u8| lower_byte(b))
}

/// Word extraction with the bytes of the currently open token carried
/// along; a separator byte closes the open token.
pub open spec fn extract_st(s: Seq<u8>, cur: Seq<u8>) -> Seq<Seq<u8>>
    decreases s.len(),
{
    if s.len() == 0 {
        if cur.len() > 0 {
            seq![cur]
        } else {
            Seq::empty()
        }
    } else if is_word_byte(s[0]) {
        extract_st(s.skip(1), cur.push(lower_byte(s[0])))
    } else {
        (if cur.len() > 0 {
            seq![cur]
        } else {
            Seq::empty()
        }) + extract_st(s.skip(1), Seq::empty())
    }
}

/// The ordered sequence of lowercased word tokens of a text.
pub open spec fn extract(s: Seq<u8>) -> Seq<Seq<u8>> {
    extract_st(s, Seq::empty())
}

/// Lowercase one byte.
pub fn lower_byte_exec(b: u8) -> (r: u8)
    ensures
        r == lower_byte(b),
{
    if 65 <= b && b <= 90 {
        b + 32
    } else {
        b
    }
}

/// Lowercase a whole text.
pub fn lower_ascii(t: &Vec<u8>) -> (r: Vec<u8>)
    ensures
        r@ == lower_bytes(t@),
{
    let mut r: Vec<u8> = Vec::new();
    let mut i: usize = 0;
    while i < t.len()
        invariant
            i <= t@.len(),
            r@ =~= lower_bytes(t@).take(i as int),
        decreases t@.len() - i,
    {
        r.push(lower_byte_exec(t[i]));
        i += 1;
    }
    proof {
        assert(lower_bytes(t@).take(t@.len() as int) =~= lower_bytes(t@));
    }
    r
}

/// Whether `b` may stand inside a word.
pub fn is_word_byte_exec(b: u8) -> (r: bool)
    ensures
        r == is_word_byte(b),
{
    (97 <= b && b <= 122) || (65 <= b && b <= 90) || b == 39
}

/// Extract the ordered sequence of lowercased word tokens of `t`.
pub fn extract_words(t: &Vec<u8>) -> (r: Vec<Vec<u8>>)
    ensures
        r.deep_view() == extract(t@),
{
    let mut r: Vec<Vec<u8>> = Vec::new();
    let mut cur: Vec<u8> = Vec::new();
    let mut i: usize = 0;
    proof {
        assert(t@.skip(0) =~= t@);
        assert(r.deep_view() + extract_st(t@, Seq::<u8>::empty()) =~= extract_st(
            t@,
            Seq::<u8>::empty(),
        ));
    }
    while i < t.len()
        invariant
            i <= t@.len(),
            extract(t@) == r.deep_view() + extract_st(t@.skip(i as int), cur@),
        decreases t@.len() - i,
    {
        let ghost old_r = r.deep_view();
        let ghost old_cur = cur@;
        let b = t[i];
        proof {
            assert(t@.skip(i as int)[0] == b);
            assert(t@.skip(i as int).skip(1) =~= t@.skip(i as int + 1));
        }
        if is_word_byte_exec(b) {
            cur.push(lower_byte_exec(b));
            proof {
                assert(extract_st(t@.skip(i as int), old_cur) == extract_st(
                    t@.skip(i as int + 1),
                    old_cur.push(lower_byte(b)),
                ));
                assert(cur@ == old_cur.push(lower_byte(b)));
            }
        } else {
            if cur.len() > 0 {
                r.push(cur);
                cur = Vec::new();
                proof {
                    assert(r.deep_view() =~~= old_r + seq![old_cur]);
                    assert(old_r + seq![old_cur] + extract_st(
                        t@.skip(i as int + 1),
                        Seq::<u8>::empty(),
                    ) =~= old_r + (seq![old_cur] + extract_st(
                        t@.skip(i as int + 1),
                        Seq::<u8>::empty(),
                    )));
                }
            } else {
                proof {
                    assert(cur@ =~= Seq::<u8>::empty());
                    assert(Seq::<Seq<u8>>::empty() + extract_st(
                        t@.skip(i as int + 1),
                        Seq::<u8>::empty(),
                    ) =~= extract_st(t@.skip(i as int + 1), Seq::<u8>::empty()));
                }
            }
        }
        i += 1;
    }
    proof {
        assert(t@.skip(i as int).len() == 0);
    }
    if cur.len() > 0 {
        let ghost old_r = r.deep_view();
        let ghost old_cur = cur@;
        r.push(cur);
        proof {
            assert(extract_st(t@.skip(i as int), old_cur) =~= seq![old_cur]);
            assert(r.deep_view() =~~= old_r + seq![old_cur]);
        }
    } else {
        proof {
            assert(extract_st(t@.skip(i as int), cur@) =~= Seq::<Seq<u8>>::empty());
            assert(r.deep_view() + Seq::<Seq<u8>>::empty() =~= r.deep_view());
        }
    }
    r
}

proof fn lemma_extract_st_lower(s: Seq<u8>, cur: Seq<u8>)
    ensures
        extract_st(lower_bytes(s), cur) == extract_st(s, cur),
    decreases s.len(),
{
    if s.len() == 0 {
        assert(lower_bytes(s).len() == 0);
    } else {
        let ls = lower_bytes(s);
        assert(ls[0] == lower_byte(s[0]));
        assert(ls.skip(1) =~= lower_bytes(s.skip(1)));
        assert(is_word_byte(lower_byte(s[0])) == is_word_byte(s[0]));
        assert(lower_byte(lower_byte(s[0])) == lower_byte(s[0]));
        if is_word_byte(s[0]) {
            lemma_extract_st_lower(s.skip(1), cur.push(lower_byte(s[0])));
        } else {
            lemma_extract_st_lower(s.skip(1), Seq::empty());
        }
    }
}

/// Law: word extraction is invariant under lowercase normalization of its
/// input, so extracting from already lowercased text yields exactly the
/// tokens extracted from the original text.
pub proof fn lemma_extract_lower_idempotent(s: Seq<u8>)
    ensures
        extract(lower_bytes(s)) == extract(s),
{
    lemma_extract_st_lower(s, Seq::empty());
}

} // verus!
