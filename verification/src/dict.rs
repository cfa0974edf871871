//! The word dictionary: a mapping from a word to its classification, held
//! as a list of records strictly sorted by word text. Words absent from the
//! dictionary count as `New`; only `Known` words exempt a subtitle entry
//! from translation.
//!
//! The persisted form is one `<category_char>:<word>` line per record
//! (`?` for `New`, `u` for `Unknown`, `k` for `Known`), grouped `New` first,
//! then `Unknown`, then `Known`, each group sorted by word text.

use vstd::prelude::*;

use crate::text::{clone_bytes, line_split, split_lines};

verus! {

/// The three classifications of a word.
#[derive(Clone, Copy, Debug, PartialEq, Eq, Structural)]
pub enum WordKind {
    Known,
    Unknown,
    New,
}

/// One dictionary record: a word and its classification.
pub struct WordRec {
    pub text: Vec<u8>,
    pub kind: WordKind,
}

/// The mathematical shadow of a record.
pub ghost struct RecView {
    pub text: Seq<u8>,
    pub kind: WordKind,
}

impl View for WordRec {
    type V = RecView;

    open spec fn view(&self) -> RecView {
        RecView { text: self.text@, kind: self.kind }
    }
}

impl DeepView for WordRec {
    type V = RecView;

    open spec fn deep_view(&self) -> RecView {
        RecView { text: self.text@, kind: self.kind }
    }
}

/// Strict lexicographic order on byte strings.
pub open spec fn lex_lt(a: Seq<u8>, b: Seq<u8>) -> bool
    decreases a.len(),
{
    if b.len() == 0 {
        false
    } else if a.len() == 0 {
        true
    } else if a[0] < b[0] {
        true
    } else if a[0] > b[0] {
        false
    } else {
        lex_lt(a.skip(1), b.skip(1))
    }
}

pub proof fn lemma_lex_lt_asym(a: Seq<u8>, b: Seq<u8>)
    requires
        lex_lt(a, b),
    ensures
        !lex_lt(b, a),
        a != b,
    decreases a.len(),
{
    if a.len() == 0 {
    } else if a[0] == b[0] {
        lemma_lex_lt_asym(a.skip(1), b.skip(1));
    }
}

pub proof fn lemma_lex_lt_total(a: Seq<u8>, b: Seq<u8>)
    ensures
        lex_lt(a, b) || lex_lt(b, a) || a == b,
    decreases a.len(),
{
    if a.len() == 0 && b.len() == 0 {
        assert(a =~= b);
    } else if a.len() > 0 && b.len() > 0 && a[0] == b[0] {
        lemma_lex_lt_total(a.skip(1), b.skip(1));
        assert(lex_lt(a, b) == lex_lt(a.skip(1), b.skip(1)));
        assert(lex_lt(b, a) == lex_lt(b.skip(1), a.skip(1)));
        if !lex_lt(a, b) && !lex_lt(b, a) {
            assert(a.skip(1) == b.skip(1));
            assert(a.len() == b.len());
            assert forall|i: int| 0 <= i < a.len() implies a[i] == b[i] by {
                if i >= 1 {
                    assert(a[i] == a.skip(1)[i - 1]);
                    assert(b[i] == b.skip(1)[i - 1]);
                }
            }
            assert(a =~= b);
        }
    }
}

pub proof fn lemma_lex_lt_trans(a: Seq<u8>, b: Seq<u8>, c: Seq<u8>)
    requires
        lex_lt(a, b),
        lex_lt(b, c),
    ensures
        lex_lt(a, c),
    decreases a.len(),
{
    if a.len() == 0 {
    } else if a[0] == b[0] && b[0] == c[0] {
        lemma_lex_lt_trans(a.skip(1), b.skip(1), c.skip(1));
    }
}

/// The classification recorded for `w`, scanning from the front.
pub open spec fn find_kind(recs: Seq<RecView>, w: Seq<u8>) -> Option<WordKind>
    decreases recs.len(),
{
    if recs.len() == 0 {
        None
    } else if recs[0].text == w {
        Some(recs[0].kind)
    } else {
        find_kind(recs.skip(1), w)
    }
}

pub open spec fn contains_word(recs: Seq<RecView>, w: Seq<u8>) -> bool {
    find_kind(recs, w) is Some
}

/// A word absent from the dictionary counts as `New`.
pub open spec fn classify(recs: Seq<RecView>, w: Seq<u8>) -> WordKind {
    match find_kind(recs, w) {
        Some(k) => k,
        None => WordKind::New,
    }
}

/// Insert a record at its sorted position, replacing the record of an
/// already present word.
pub open spec fn put(recs: Seq<RecView>, w: Seq<u8>, k: WordKind) -> Seq<RecView>
    decreases recs.len(),
{
    if recs.len() == 0 {
        seq![RecView { text: w, kind: k }]
    } else if lex_lt(w, recs[0].text) {
        seq![RecView { text: w, kind: k }] + recs
    } else if w == recs[0].text {
        seq![RecView { text: w, kind: k }] + recs.skip(1)
    } else {
        seq![recs[0]] + put(recs.skip(1), w, k)
    }
}

/// Strictly sorted by word text: sorted order with no repeated word.
pub open spec fn sorted(recs: Seq<RecView>) -> bool {
    forall|i: int, j: int|
        0 <= i < j < recs.len() ==> #[trigger] lex_lt(recs[i].text, recs[j].text)
}

/// What `put` holds afterwards: the new record, and every old record of a
/// different word.
pub proof fn lemma_put_find(recs: Seq<RecView>, w: Seq<u8>, k: WordKind, w2: Seq<u8>)
    ensures
        find_kind(put(recs, w, k), w2) == if w2 == w {
            Some(k)
        } else {
            find_kind(recs, w2)
        },
    decreases recs.len(),
{
    let n = RecView { text: w, kind: k };
    if recs.len() == 0 {
        assert(seq![n][0] == n);
        assert(seq![n].skip(1) =~= Seq::<RecView>::empty());
    } else if lex_lt(w, recs[0].text) {
        assert((seq![n] + recs)[0] == n);
        assert((seq![n] + recs).skip(1) =~= recs);
    } else if w == recs[0].text {
        assert((seq![n] + recs.skip(1))[0] == n);
        assert((seq![n] + recs.skip(1)).skip(1) =~= recs.skip(1));
    } else {
        lemma_put_find(recs.skip(1), w, k, w2);
        assert((seq![recs[0]] + put(recs.skip(1), w, k))[0] == recs[0]);
        assert((seq![recs[0]] + put(recs.skip(1), w, k)).skip(1) =~= put(recs.skip(1), w, k));
    }
}

/// Every record of `put(recs, w, k)` is either the new record or one of
/// the old ones.
pub proof fn lemma_put_members(recs: Seq<RecView>, w: Seq<u8>, k: WordKind)
    ensures
        forall|j: int|
            0 <= j < put(recs, w, k).len() ==> (#[trigger] put(recs, w, k)[j]).text == w
                || recs.contains(put(recs, w, k)[j]),
        put(recs, w, k).len() <= recs.len() + 1,
    decreases recs.len(),
{
    let p = put(recs, w, k);
    if recs.len() == 0 {
    } else if lex_lt(w, recs[0].text) {
        assert(forall|j: int| 1 <= j < p.len() ==> p[j] == recs[j - 1] && recs.contains(recs[j - 1]));
    } else if w == recs[0].text {
        assert(forall|j: int| 1 <= j < p.len() ==> p[j] == recs[j] && recs.contains(recs[j]));
    } else {
        lemma_put_members(recs.skip(1), w, k);
        assert(forall|j: int|
            0 <= j < recs.skip(1).len() ==> recs.skip(1)[j] == recs[j + 1]);
        assert forall|j: int| 0 <= j < p.len() implies (#[trigger] p[j]).text == w
            || recs.contains(p[j]) by {
            if j == 0 {
                assert(p[0] == recs[0]);
                assert(recs.contains(recs[0]));
            } else {
                assert(p[j] == put(recs.skip(1), w, k)[j - 1]);
                if put(recs.skip(1), w, k)[j - 1].text != w {
                    assert(recs.skip(1).contains(p[j]));
                    let i = choose|i: int| 0 <= i < recs.skip(1).len() && recs.skip(1)[i] == p[j];
                    assert(recs[i + 1] == p[j]);
                }
            }
        }
    }
}

/// `put` keeps the dictionary strictly sorted.
pub proof fn lemma_put_sorted(recs: Seq<RecView>, w: Seq<u8>, k: WordKind)
    requires
        sorted(recs),
    ensures
        sorted(put(recs, w, k)),
    decreases recs.len(),
{
    let n = RecView { text: w, kind: k };
    let p = put(recs, w, k);
    if recs.len() == 0 {
    } else if lex_lt(w, recs[0].text) {
        assert forall|i: int, j: int| 0 <= i < j < p.len() implies #[trigger] lex_lt(
            p[i].text,
            p[j].text,
        ) by {
            if i == 0 {
                assert(p[j] == recs[j - 1]);
                if j == 1 {
                } else {
                    lemma_lex_lt_trans(w, recs[0].text, recs[j - 1].text);
                }
            } else {
                assert(p[i] == recs[i - 1] && p[j] == recs[j - 1]);
            }
        }
    } else if w == recs[0].text {
        assert forall|i: int, j: int| 0 <= i < j < p.len() implies #[trigger] lex_lt(
            p[i].text,
            p[j].text,
        ) by {
            if i == 0 {
                assert(p[j] == recs[j]);
            } else {
                assert(p[i] == recs[i] && p[j] == recs[j]);
            }
        }
    } else {
        lemma_lex_lt_total(w, recs[0].text);
        assert(lex_lt(recs[0].text, w));
        assert(sorted(recs.skip(1))) by {
            assert(forall|i: int|
                0 <= i < recs.skip(1).len() ==> recs.skip(1)[i] == recs[i + 1]);
        }
        lemma_put_sorted(recs.skip(1), w, k);
        lemma_put_members(recs.skip(1), w, k);
        let ptail = put(recs.skip(1), w, k);
        assert forall|i: int, j: int| 0 <= i < j < p.len() implies #[trigger] lex_lt(
            p[i].text,
            p[j].text,
        ) by {
            if i == 0 {
                assert(p[j] == ptail[j - 1]);
                if ptail[j - 1].text == w {
                } else {
                    assert(recs.skip(1).contains(ptail[j - 1]));
                    let m = choose|m: int|
                        0 <= m < recs.skip(1).len() && recs.skip(1)[m] == ptail[j - 1];
                    assert(recs[m + 1] == ptail[j - 1]);
                    assert(lex_lt(recs[0].text, recs[m + 1].text));
                }
            } else {
                assert(p[i] == ptail[i - 1] && p[j] == ptail[j - 1]);
            }
        }
    }
}

/// Merge newly observed words: each word absent from the dictionary is
/// inserted as `New`; present words keep their classification.
pub open spec fn merge_new(recs: Seq<RecView>, ws: Seq<Seq<u8>>) -> Seq<RecView>
    decreases ws.len(),
{
    if ws.len() == 0 {
        recs
    } else {
        let r1 = if contains_word(recs, ws[0]) {
            recs
        } else {
            put(recs, ws[0], WordKind::New)
        };
        merge_new(r1, ws.skip(1))
    }
}

proof fn lemma_merge_keeps(recs: Seq<RecView>, ws: Seq<Seq<u8>>, w: Seq<u8>)
    requires
        contains_word(recs, w),
    ensures
        contains_word(merge_new(recs, ws), w),
    decreases ws.len(),
{
    if ws.len() == 0 {
    } else {
        if !contains_word(recs, ws[0]) {
            lemma_put_find(recs, ws[0], WordKind::New, w);
        }
        let r1 = if contains_word(recs, ws[0]) {
            recs
        } else {
            put(recs, ws[0], WordKind::New)
        };
        lemma_merge_keeps(r1, ws.skip(1), w);
    }
}

proof fn lemma_merge_contains_all(recs: Seq<RecView>, ws: Seq<Seq<u8>>)
    ensures
        forall|i: int| 0 <= i < ws.len() ==> contains_word(merge_new(recs, ws), #[trigger] ws[i]),
    decreases ws.len(),
{
    if ws.len() == 0 {
    } else {
        if !contains_word(recs, ws[0]) {
            lemma_put_find(recs, ws[0], WordKind::New, ws[0]);
        }
        let r1 = if contains_word(recs, ws[0]) {
            recs
        } else {
            put(recs, ws[0], WordKind::New)
        };
        lemma_merge_keeps(r1, ws.skip(1), ws[0]);
        lemma_merge_contains_all(r1, ws.skip(1));
        assert(forall|i: int| 1 <= i < ws.len() ==> ws[i] == ws.skip(1)[i - 1]);
    }
}

proof fn lemma_merge_noop(recs: Seq<RecView>, ws: Seq<Seq<u8>>)
    requires
        forall|i: int| 0 <= i < ws.len() ==> contains_word(recs, #[trigger] ws[i]),
    ensures
        merge_new(recs, ws) == recs,
    decreases ws.len(),
{
    if ws.len() == 0 {
    } else {
        assert(contains_word(recs, ws[0]));
        assert(forall|i: int| 1 <= i < ws.len() ==> ws[i] == ws.skip(1)[i - 1]);
        lemma_merge_noop(recs, ws.skip(1));
    }
}

/// Law: merging the same observed-word set twice leaves the dictionary as
/// one merge left it, so the persisted text is the same as well.
pub proof fn lemma_merge_idempotent(recs: Seq<RecView>, ws: Seq<Seq<u8>>)
    ensures
        merge_new(merge_new(recs, ws), ws) == merge_new(recs, ws),
{
    lemma_merge_contains_all(recs, ws);
    lemma_merge_noop(merge_new(recs, ws), ws);
}

/// The category character that opens a persisted dictionary line.
pub open spec fn kind_char(k: WordKind) -> u8 {
    match k {
        WordKind::New => 63u8,
        WordKind::Unknown => 117u8,
        WordKind::Known => 107u8,
    }
}

/// One persisted dictionary line: `<category_char>:<word>` and `\r\n`.
pub open spec fn rec_line(r: RecView) -> Seq<u8> {
    seq![kind_char(r.kind), 58u8] + r.text + seq![13u8, 10u8]
}

/// The persisted lines of the records of one classification, in record
/// order.
pub open spec fn kind_lines(recs: Seq<RecView>, k: WordKind) -> Seq<u8>
    decreases recs.len(),
{
    if recs.len() == 0 {
        Seq::empty()
    } else {
        (if recs[0].kind == k {
            rec_line(recs[0])
        } else {
            Seq::empty()
        }) + kind_lines(recs.skip(1), k)
    }
}

/// The whole persisted dictionary text: `New` first, then `Unknown`, then
/// `Known`.
pub open spec fn dict_text(recs: Seq<RecView>) -> Seq<u8> {
    kind_lines(recs, WordKind::New) + kind_lines(recs, WordKind::Unknown) + kind_lines(
        recs,
        WordKind::Known,
    )
}

/// Whether a persisted line carries a record: a category character, a
/// colon, and a non-empty word.
pub open spec fn is_db_line(l: Seq<u8>) -> bool {
    l.len() >= 3 && (l[0] == 63u8 || l[0] == 117u8 || l[0] == 107u8) && l[1] == 58u8
}

pub open spec fn kind_of_char(c: u8) -> WordKind {
    if c == 63u8 {
        WordKind::New
    } else if c == 117u8 {
        WordKind::Unknown
    } else {
        WordKind::Known
    }
}

/// Read persisted dictionary lines from the front; lines that carry no
/// record are skipped, and a repeated word keeps the last line's
/// classification.
pub open spec fn db_parse_st(ls: Seq<Seq<u8>>, recs: Seq<RecView>) -> Seq<RecView>
    decreases ls.len(),
{
    if ls.len() == 0 {
        recs
    } else {
        let r1 = if is_db_line(ls[0]) {
            put(recs, ls[0].skip(2), kind_of_char(ls[0][0]))
        } else {
            recs
        };
        db_parse_st(ls.skip(1), r1)
    }
}

/// The dictionary read from a persisted text.
pub open spec fn db_parse(s: Seq<u8>) -> Seq<RecView> {
    db_parse_st(line_split(s), Seq::empty())
}

/// Whether the two byte strings hold the same bytes.
pub fn bytes_eq(a: &Vec<u8>, b: &Vec<u8>) -> (r: bool)
    ensures
        r <==> a@ == b@,
{
    if a.len() != b.len() {
        return false;
    }
    let mut i: usize = 0;
    while i < a.len()
        invariant
            a@.len() == b@.len(),
            i <= a@.len(),
            forall|j: int| 0 <= j < i ==> a@[j] == b@[j],
        decreases a@.len() - i,
    {
        if a[i] != b[i] {
            return false;
        }
        i += 1;
    }
    proof {
        assert(a@ =~= b@);
    }
    true
}

/// Whether `a` stands strictly before `b` in lexicographic order.
pub fn bytes_lt(a: &Vec<u8>, b: &Vec<u8>) -> (r: bool)
    ensures
        r == lex_lt(a@, b@),
{
    let mut i: usize = 0;
    proof {
        assert(a@.skip(0) =~= a@);
        assert(b@.skip(0) =~= b@);
    }
    loop
        invariant
            i <= a@.len(),
            i <= b@.len(),
            lex_lt(a@, b@) == lex_lt(a@.skip(i as int), b@.skip(i as int)),
        decreases a@.len() - i,
    {
        if i >= b.len() {
            proof {
                assert(b@.skip(i as int).len() == 0);
                assert(!lex_lt(a@.skip(i as int), b@.skip(i as int)));
            }
            return false;
        }
        if i >= a.len() {
            proof {
                assert(a@.skip(i as int).len() == 0);
                assert(b@.skip(i as int).len() > 0);
                assert(lex_lt(a@.skip(i as int), b@.skip(i as int)));
            }
            return true;
        }
        proof {
            assert(a@.skip(i as int)[0] == a@[i as int]);
            assert(b@.skip(i as int)[0] == b@[i as int]);
            assert(a@.skip(i as int).skip(1) =~= a@.skip(i as int + 1));
            assert(b@.skip(i as int).skip(1) =~= b@.skip(i as int + 1));
        }
        if a[i] < b[i] {
            return true;
        }
        if a[i] > b[i] {
            return false;
        }
        i += 1;
    }
}

/// The in-memory dictionary: records strictly sorted by word text.
pub struct Dict {
    pub recs: Vec<WordRec>,
}

impl View for Dict {
    type V = Seq<RecView>;

    open spec fn view(&self) -> Seq<RecView> {
        self.recs.deep_view()
    }
}

impl Dict {
    /// Strictly sorted by word text, so each word occurs once.
    pub open spec fn wf(&self) -> bool {
        sorted(self@)
    }

    /// The empty dictionary.
    pub fn new() -> (d: Dict)
        ensures
            d@ == Seq::<RecView>::empty(),
            d.wf(),
    {
        let d = Dict { recs: Vec::new() };
        proof {
            assert(d@ =~= Seq::<RecView>::empty());
        }
        d
    }

    /// How many words the dictionary holds.
    pub fn len(&self) -> (n: usize)
        ensures
            n == self@.len(),
    {
        self.recs.len()
    }

    /// The classification recorded for `w`, if any.
    pub fn find(&self, w: &Vec<u8>) -> (r: Option<WordKind>)
        ensures
            r == find_kind(self@, w@),
    {
        let mut i: usize = 0;
        proof {
            assert(self@.skip(0) =~= self@);
        }
        while i < self.recs.len()
            invariant
                i <= self@.len(),
                find_kind(self@, w@) == find_kind(self@.skip(i as int), w@),
            decreases self@.len() - i,
        {
            proof {
                assert(self@.skip(i as int)[0] == self@[i as int]);
                assert(self@.skip(i as int).skip(1) =~= self@.skip(i as int + 1));
            }
            if bytes_eq(&self.recs[i].text, w) {
                return Some(self.recs[i].kind);
            }
            i += 1;
        }
        proof {
            assert(self@.skip(i as int).len() == 0);
        }
        None
    }

    /// The classification of `w`; a word the dictionary does not hold is
    /// `New`.
    pub fn classify(&self, w: &Vec<u8>) -> (r: WordKind)
        ensures
            r == classify(self@, w@),
    {
        match self.find(w) {
            Some(k) => k,
            None => WordKind::New,
        }
    }

    /// Insert `w` with classification `k` at its sorted position,
    /// replacing the record of an already present word.
    pub fn put_word(&mut self, w: Vec<u8>, k: WordKind)
        requires
            old(self).wf(),
        ensures
            final(self)@ == put(old(self)@, w@, k),
            final(self).wf(),
    {
        let ghost recs0 = self@;
        let mut i: usize = 0;
        loop
            invariant
                i <= self@.len(),
                self@ == recs0,
                old(self) == self,
                forall|j: int| 0 <= j < i ==> lex_lt((#[trigger] recs0[j]).text, w@),
            ensures
                i <= recs0.len(),
                forall|j: int| 0 <= j < i ==> lex_lt((#[trigger] recs0[j]).text, w@),
                i < recs0.len() ==> !lex_lt(recs0[i as int].text, w@),
            decreases self@.len() - i,
        {
            if i >= self.recs.len() {
                break;
            }
            if !bytes_lt(&self.recs[i].text, &w) {
                break;
            }
            i += 1;
        }
        proof {
            lemma_put_at(recs0, w@, k, i as int);
        }
        if i < self.recs.len() && bytes_eq(&self.recs[i].text, &w) {
            self.recs[i] = WordRec { text: w, kind: k };
            proof {
                assert(self@ =~~= recs0.update(i as int, RecView { text: w@, kind: k }));
                assert(recs0.update(i as int, RecView { text: w@, kind: k }) =~= recs0.take(
                    i as int,
                ) + seq![RecView { text: w@, kind: k }] + recs0.skip(i as int + 1));
            }
        } else {
            self.recs.insert(i, WordRec { text: w, kind: k });
            proof {
                assert(self@ =~~= recs0.take(i as int) + seq![RecView { text: w@, kind: k }]
                    + recs0.skip(i as int));
            }
        }
        proof {
            lemma_put_sorted(recs0, w@, k);
        }
    }

    /// Insert every observed word the dictionary does not hold yet as
    /// `New`; words it holds keep their classification.
    pub fn merge_new_words(&mut self, ws: &Vec<Vec<u8>>)
        requires
            old(self).wf(),
        ensures
            final(self)@ == merge_new(old(self)@, ws.deep_view()),
            final(self).wf(),
    {
        let ghost recs0 = self@;
        let ghost wsv = ws.deep_view();
        let mut i: usize = 0;
        proof {
            assert(wsv.skip(0) =~= wsv);
        }
        while i < ws.len()
            invariant
                i <= wsv.len(),
                wsv == ws.deep_view(),
                self.wf(),
                merge_new(recs0, wsv) == merge_new(self@, wsv.skip(i as int)),
            decreases wsv.len() - i,
        {
            let ghost cur = self@;
            proof {
                assert(wsv.skip(i as int)[0] == wsv[i as int]);
                assert(ws@[i as int].deep_view() =~= ws@[i as int]@);
                assert(wsv.skip(i as int).skip(1) =~= wsv.skip(i as int + 1));
            }
            let w = &ws[i];
            match self.find(w) {
                Some(_) => {
                    proof {
                        assert(contains_word(cur, wsv[i as int]));
                        assert(merge_new(cur, wsv.skip(i as int)) == merge_new(
                            cur,
                            wsv.skip(i as int + 1),
                        ));
                    }
                },
                None => {
                    let wc = clone_bytes(w);
                    self.put_word(wc, WordKind::New);
                    proof {
                        assert(!contains_word(cur, wsv[i as int]));
                        assert(merge_new(cur, wsv.skip(i as int)) == merge_new(
                            put(cur, wsv[i as int], WordKind::New),
                            wsv.skip(i as int + 1),
                        ));
                    }
                },
            }
            i += 1;
        }
        proof {
            assert(wsv.skip(i as int).len() == 0);
        }
    }
}

/// Read a persisted dictionary text; lines that carry no record are
/// skipped, and a repeated word keeps the last line's classification.
pub fn parse_db_words(text: &Vec<u8>) -> (d: Dict)
    ensures
        d@ == db_parse(text@),
        d.wf(),
{
    let lines = split_lines(text);
    let ghost ls = lines.deep_view();
    let mut d = Dict::new();
    let mut i: usize = 0;
    proof {
        assert(ls.skip(0) =~= ls);
    }
    while i < lines.len()
        invariant
            i <= ls.len(),
            ls == lines.deep_view(),
            ls == line_split(text@),
            d.wf(),
            db_parse(text@) == db_parse_st(ls.skip(i as int), d@),
        decreases ls.len() - i,
    {
        let ghost cur = d@;
        proof {
            assert(ls.skip(i as int)[0] == ls[i as int]);
            assert(lines@[i as int].deep_view() =~= lines@[i as int]@);
            assert(ls.skip(i as int).skip(1) =~= ls.skip(i as int + 1));
        }
        let l = &lines[i];
        if l.len() >= 3 && (l[0] == 63 || l[0] == 117 || l[0] == 107) && l[1] == 58 {
            let mut w: Vec<u8> = Vec::new();
            let mut j: usize = 2;
            while j < l.len()
                invariant
                    2 <= j <= l@.len(),
                    l@.len() >= 3,
                    w@ == l@.subrange(2, j as int),
                decreases l@.len() - j,
            {
                w.push(l[j]);
                proof {
                    assert(w@ =~= l@.subrange(2, j as int + 1));
                }
                j += 1;
            }
            proof {
                assert(w@ =~= l@.skip(2));
            }
            let k = if l[0] == 63 {
                WordKind::New
            } else if l[0] == 117 {
                WordKind::Unknown
            } else {
                WordKind::Known
            };
            proof {
                assert(k == kind_of_char(l@[0]));
                assert(is_db_line(ls[i as int]));
            }
            d.put_word(w, k);
            proof {
                assert(db_parse_st(ls.skip(i as int), cur) == db_parse_st(
                    ls.skip(i as int + 1),
                    put(cur, ls[i as int].skip(2), kind_of_char(ls[i as int][0])),
                ));
            }
        } else {
            proof {
                assert(!is_db_line(ls[i as int]));
                assert(db_parse_st(ls.skip(i as int), cur) == db_parse_st(
                    ls.skip(i as int + 1),
                    cur,
                ));
            }
        }
        i += 1;
    }
    proof {
        assert(ls.skip(i as int).len() == 0);
    }
    d
}

/// Append the persisted lines of the records of one classification.
fn append_kind_lines(out: &mut Vec<u8>, d: &Dict, k: WordKind)
    ensures
        final(out)@ == old(out)@ + kind_lines(d@, k),
{
    let ghost out0 = out@;
    let mut i: usize = 0;
    proof {
        assert(d@.skip(0) =~= d@);
        assert(out0 + kind_lines(d@, k) =~= out0 + kind_lines(d@.skip(0), k));
    }
    while i < d.recs.len()
        invariant
            i <= d@.len(),
            d@.len() == d.recs.len(),
            out0 + kind_lines(d@, k) == out@ + kind_lines(d@.skip(i as int), k),
        decreases d@.len() - i,
    {
        let ghost prev = out@;
        proof {
            assert(d@.skip(i as int)[0] == d@[i as int]);
            assert(d@.skip(i as int).skip(1) =~= d@.skip(i as int + 1));
        }
        let rec = &d.recs[i];
        proof {
            assert(d@[i as int] == rec.deep_view());
        }
        if rec.kind == k {
            let c: u8 = match rec.kind {
                WordKind::New => 63,
                WordKind::Unknown => 117,
                WordKind::Known => 107,
            };
            out.push(c);
            out.push(58);
            out.extend_from_slice(rec.text.as_slice());
            out.push(13);
            out.push(10);
            proof {
                assert(c == kind_char(d@[i as int].kind));
                assert(out@ =~= prev + rec_line(d@[i as int]));
                assert(prev + (rec_line(d@[i as int]) + kind_lines(d@.skip(i as int + 1), k))
                    =~= (prev + rec_line(d@[i as int])) + kind_lines(d@.skip(i as int + 1), k));
            }
        } else {
            proof {
                assert(Seq::<u8>::empty() + kind_lines(d@.skip(i as int + 1), k) =~= kind_lines(
                    d@.skip(i as int + 1),
                    k,
                ));
            }
        }
        i += 1;
    }
    proof {
        assert(kind_lines(d@.skip(i as int), k) == Seq::<u8>::empty());
        assert(out0 + kind_lines(d@, k) =~= out@);
    }
}

/// Render the dictionary in its persisted form: one line per record,
/// grouped `New`, `Unknown`, `Known`, each group sorted by word text.
pub fn serialize_dict(d: &Dict) -> (r: Vec<u8>)
    ensures
        r@ == dict_text(d@),
{
    let mut out: Vec<u8> = Vec::new();
    append_kind_lines(&mut out, d, WordKind::New);
    append_kind_lines(&mut out, d, WordKind::Unknown);
    append_kind_lines(&mut out, d, WordKind::Known);
    proof {
        assert(out@ =~= dict_text(d@));
    }
    out
}

/// Where the sorted scan stopped tells the shape of `put`.
proof fn lemma_put_at(recs: Seq<RecView>, w: Seq<u8>, k: WordKind, i: int)
    requires
        0 <= i <= recs.len(),
        forall|j: int| 0 <= j < i ==> lex_lt((#[trigger] recs[j]).text, w),
        i < recs.len() ==> !lex_lt(recs[i].text, w),
    ensures
        i < recs.len() && recs[i].text == w ==> put(recs, w, k) == recs.take(i) + seq![
            RecView { text: w, kind: k },
        ] + recs.skip(i + 1),
        !(i < recs.len() && recs[i].text == w) ==> put(recs, w, k) == recs.take(i) + seq![
            RecView { text: w, kind: k },
        ] + recs.skip(i),
    decreases i,
{
    let n = RecView { text: w, kind: k };
    if i == 0 {
        if recs.len() == 0 {
            assert(put(recs, w, k) =~= recs.take(0) + seq![n] + recs.skip(0));
        } else if recs[0].text == w {
            assert(put(recs, w, k) =~= recs.take(0) + seq![n] + recs.skip(1));
        } else {
            lemma_lex_lt_total(w, recs[0].text);
            assert(lex_lt(w, recs[0].text));
            assert(put(recs, w, k) =~= recs.take(0) + seq![n] + recs.skip(0));
        }
    } else {
        assert(lex_lt(recs[0].text, w));
        lemma_lex_lt_asym(recs[0].text, w);
        assert(!lex_lt(w, recs[0].text));
        assert(w != recs[0].text);
        assert(put(recs, w, k) == seq![recs[0]] + put(recs.skip(1), w, k));
        assert(forall|j: int| 0 <= j < recs.skip(1).len() ==> recs.skip(1)[j] == recs[j + 1]);
        lemma_put_at(recs.skip(1), w, k, i - 1);
        if i < recs.len() && recs[i].text == w {
            assert(recs.skip(1)[i - 1].text == w);
            assert(seq![recs[0]] + (recs.skip(1).take(i - 1) + seq![n] + recs.skip(1).skip(i))
                =~= recs.take(i) + seq![n] + recs.skip(i + 1));
        } else {
            assert(seq![recs[0]] + (recs.skip(1).take(i - 1) + seq![n] + recs.skip(1).skip(i - 1))
                =~= recs.take(i) + seq![n] + recs.skip(i));
        }
    }
}

} // verus!
