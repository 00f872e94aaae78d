//! Append-only word-to-id table.
//!
//! Ids are assigned densely in first-seen order starting at 0, so the table
//! is a bijection between the stored words and `{0, ..., size-1}`.

use crate::corpus::WordId;
use crate::decimal::append_decimal;
use crate::decimal::lemma_decimal_newline_free;
use crate::decimal::lemma_decimal_roundtrip;
use crate::decimal::parse_decimal_u32;
use crate::decimal::spec_decimal;
use crate::error::Error;
use crate::lines::lemma_join_append;
use crate::lines::lemma_join_split;
use crate::lines::lemma_split_join;
use crate::lines::newline_free;
use crate::lines::spec_join_lines;
use crate::lines::spec_split_lines;
use crate::lines::split_lines;
use vstd::prelude::*;
use vstd::string::StringExecFns;

verus! {

/// Words are pairwise distinct, so each word names exactly one id.
pub open spec fn distinct_words(v: Seq<Seq<char>>) -> bool {
    forall|i: int, j: int| 0 <= i < j < v.len() ==> v[i] != v[j]
}

/// Spec-level update of `get_or_add_id`: appends the word if it is absent.
pub open spec fn spec_add_word(v: Seq<Seq<char>>, w: Seq<char>) -> Seq<Seq<char>> {
    if v.contains(w) {
        v
    } else {
        v.push(w)
    }
}

/// Spec-level result of `get_or_add_id`: the index of the word if present,
/// otherwise the next fresh id.
pub open spec fn spec_word_id(v: Seq<Seq<char>>, w: Seq<char>) -> int {
    if v.contains(w) {
        v.index_of(w)
    } else {
        v.len() as int
    }
}

/// Adding a word keeps the stored words pairwise distinct.
pub proof fn lemma_add_word_distinct(v: Seq<Seq<char>>, w: Seq<char>)
    requires
        distinct_words(v),
    ensures
        distinct_words(spec_add_word(v, w)),
{
    if !v.contains(w) {
        let v1 = v.push(w);
        assert forall|i: int, j: int| 0 <= i < j < v1.len() implies v1[i] != v1[j] by {
            if j == v1.len() - 1 {
                assert(v1[i] == v[i]);
                assert(v.contains(v[i]));
            }
        }
    }
}

/// Law: `get_or_add_id` is idempotent — adding a word twice changes nothing
/// the second time and yields the same id both times.
pub proof fn lemma_get_or_add_id_idempotent(v: Seq<Seq<char>>, w: Seq<char>)
    ensures
        spec_add_word(spec_add_word(v, w), w) == spec_add_word(v, w),
        spec_word_id(spec_add_word(v, w), w) == spec_word_id(v, w),
{
    if !v.contains(w) {
        let v1 = v.push(w);
        assert(v1[v.len() as int] == w);
        assert(v1.contains(w));
        let k = v1.index_of(w);
        assert(0 <= k < v1.len() && v1[k] == w);
        if k < v.len() {
            assert(v[k] == w);
            assert(v.contains(w));
        }
        assert(k == v.len() as int);
    }
}

/// Law: ids are stable — once a word is present, adding any other word never
/// changes its id (append-only, no renumbering).
pub proof fn lemma_word_id_stable(v: Seq<Seq<char>>, w: Seq<char>, x: Seq<char>)
    requires
        distinct_words(v),
        v.contains(w),
    ensures
        spec_word_id(spec_add_word(v, x), w) == spec_word_id(v, w),
{
    let k0 = v.index_of(w);
    assert(0 <= k0 < v.len() && v[k0] == w);
    if !v.contains(x) {
        let v1 = v.push(x);
        assert(v1[k0] == w);
        assert(v1.contains(w));
        let k1 = v1.index_of(w);
        assert(0 <= k1 < v1.len() && v1[k1] == w);
        if k1 == v.len() {
            assert(w == x);
            assert(v.contains(x));
        }
        assert(v[k1] == w);
        assert(k0 == k1);
    }
}

/// The vocabulary grown from a sequence of words, in first-seen order.
pub open spec fn build_vocab(ws: Seq<Seq<char>>) -> Seq<Seq<char>>
    decreases ws.len(),
{
    if ws.len() == 0 {
        Seq::empty()
    } else {
        spec_add_word(build_vocab(ws.drop_last()), ws.last())
    }
}

/// Pushing an element inserts it into the set of elements.
proof fn lemma_push_to_set(s: Seq<Seq<char>>, w: Seq<char>)
    ensures
        s.push(w).to_set() == s.to_set().insert(w),
{
    let s1 = s.push(w);
    assert forall|a: Seq<char>| s1.to_set().contains(a) implies s.to_set().insert(w).contains(
        a,
    ) by {
        let i = choose|i: int| 0 <= i < s1.len() && s1[i] == a;
        if i < s.len() {
            assert(s[i] == a);
            assert(s.contains(a));
        }
    }
    assert forall|a: Seq<char>| s.to_set().insert(w).contains(a) implies s1.to_set().contains(
        a,
    ) by {
        if a == w {
            assert(s1[s.len() as int] == a);
        } else {
            let i = choose|i: int| 0 <= i < s.len() && s[i] == a;
            assert(s1[i] == a);
        }
    }
    assert(s1.to_set() =~= s.to_set().insert(w));
}

/// Law: for any sequence of words, the grown vocabulary holds exactly the
/// distinct words seen, each exactly once, so its size is the number of
/// distinct words.
pub proof fn lemma_vocab_size_distinct(ws: Seq<Seq<char>>)
    ensures
        build_vocab(ws).to_set() == ws.to_set(),
        distinct_words(build_vocab(ws)),
        build_vocab(ws).len() == ws.to_set().len(),
    decreases ws.len(),
{
    broadcast use vstd::set::group_set_axioms;

    if ws.len() == 0 {
        assert(build_vocab(ws).to_set() =~= ws.to_set());
        assert(ws.to_set() =~= Set::<Seq<char>>::empty());
    } else {
        let prefix = ws.drop_last();
        let w = ws.last();
        lemma_vocab_size_distinct(prefix);
        let b = build_vocab(prefix);
        lemma_add_word_distinct(b, w);
        assert(ws =~= prefix.push(w));
        lemma_push_to_set(prefix, w);
        assert(ws.to_set() == prefix.to_set().insert(w));
        if b.contains(w) {
            assert(b.to_set().contains(w));
            assert(prefix.to_set().insert(w) =~= prefix.to_set());
        } else {
            lemma_push_to_set(b, w);
            assert(!b.to_set().contains(w));
        }
    }
}

/// Vocabulary: a bidirectional word/id table, append-only.
#[derive(Debug)]
pub struct Vocabulary {
    /// Words in id order: `words[k]` is the word whose id is `k`.
    words: Vec<String>,
}

impl View for Vocabulary {
    type V = Seq<Seq<char>>;

    closed spec fn view(&self) -> Seq<Seq<char>> {
        self.words.deep_view()
    }
}

impl Vocabulary {
    /// The words are pairwise distinct and every id fits in a `u32`.
    pub open spec fn wf(&self) -> bool {
        &&& distinct_words(self@)
        &&& self@.len() <= u32::MAX
    }

    /// Creates a new Vocabulary.
    pub fn new() -> (r: Self)
        ensures
            r@ == Seq::<Seq<char>>::empty(),
            r.wf(),
    {
        let r = Vocabulary { words: Vec::new() };
        proof {
            assert(r@ =~= Seq::<Seq<char>>::empty());
        }
        r
    }

    /// Obtains vocabulary size.
    pub fn len(&self) -> (r: usize)
        ensures
            r == self@.len(),
    {
        self.words.len()
    }

    /// Obtains the word assigned to an id.
    pub fn word(&self, id: usize) -> (r: &String)
        requires
            id < self@.len(),
        ensures
            r@ == self@[id as int],
    {
        &self.words[id]
    }

    /// Obtains word ID.
    /// If the vocabulary don't have an entry for a given word,
    /// this function inserts a new entry.
    pub fn get_or_add_id(&mut self, word: &str) -> (r: WordId)
        requires
            old(self).wf(),
            old(self)@.len() < u32::MAX,
        ensures
            final(self).wf(),
            final(self)@ == spec_add_word(old(self)@, word@),
            r.id == spec_word_id(old(self)@, word@),
            r.id < final(self)@.len(),
    {
        let w: String = word.to_owned();
        let n = self.words.len();
        for i in 0..n
            invariant
                n == self.words.len(),
                w@ == word@,
                forall|k: int| 0 <= k < i ==> self@[k] != word@,
                self.wf(),
        {
            if self.words[i] == w {
                proof {
                    assert(self@[i as int] == word@);
                    assert(self@.contains(word@));
                    let k = self@.index_of(word@);
                    assert(0 <= k < self@.len() && self@[k] == word@);
                    assert(k == i as int);
                }
                return WordId { id: i as u32 };
            }
        }
        proof {
            assert(forall|k: int| 0 <= k < self@.len() ==> self@[k] != word@);
            assert(!self@.contains(word@));
        }
        let id = n as u32;
        self.words.push(w);
        proof {
            assert(self@ =~= old(self)@.push(word@));
            assert forall|i: int, j: int| 0 <= i < j < self@.len() implies self@[i] != self@[j] by {
                if j == self@.len() - 1 {
                    assert(old(self)@.contains(self@[i]) ==> self@[i] != word@) by {
                        if old(self)@.contains(self@[i]) {
                        }
                    }
                    assert(old(self)@[i] == self@[i]);
                    assert(old(self)@.contains(self@[i]));
                }
            }
        }
        WordId { id }
    }

    /// Saves the vocabulary as text.
    ///
    /// # File format
    ///
    /// - Line 1: size, in decimal
    /// - Line 2: word of id 0
    /// - ...
    /// - Line size + 1: word of id size - 1
    ///
    /// Every line is closed by a newline.
    pub fn save(&self) -> (r: String)
        ensures
            r@ == spec_vocab_text(self@),
    {
        let mut out = String::new();
        let n = self.words.len();
        append_decimal(&mut out, n as u64);
        out.append("\n");
        let ghost head: Seq<Seq<char>> = seq![spec_decimal(self@.len())];
        proof {
            reveal_strlit("\n");
            assert("\n"@ =~= seq!['\n']);
            assert(head + self@.take(0) =~= head);
            assert(head.drop_first() =~= Seq::<Seq<char>>::empty());
            assert(spec_join_lines(head) == head[0] + seq!['\n'] + spec_join_lines(
                head.drop_first(),
            ));
            assert(out@ =~= spec_join_lines(head + self@.take(0)));
        }
        for k in 0..n
            invariant
                n == self.words@.len(),
                n == self@.len(),
                head == seq![spec_decimal(self@.len())],
                out@ == spec_join_lines(head + self@.take(k as int)),
        {
            let ghost out0 = out@;
            out.append(self.words[k].as_str());
            out.append("\n");
            proof {
                reveal_strlit("\n");
                assert("\n"@ =~= seq!['\n']);
                assert(self.words@[k as int]@ == self@[k as int]);
                let a = head + self@.take(k as int);
                let b = seq![self@[k as int]];
                lemma_join_append(a, b);
                assert(b.drop_first() =~= Seq::<Seq<char>>::empty());
                assert(spec_join_lines(b) == b[0] + seq!['\n'] + spec_join_lines(b.drop_first()));
                assert(spec_join_lines(b) =~= self@[k as int] + seq!['\n']);
                assert(a + b =~= head + self@.take(k + 1));
                assert(out@ =~= spec_join_lines(a) + spec_join_lines(b));
            }
        }
        proof {
            assert(self@.take(n as int) =~= self@);
        }
        out
    }

    /// Loads a vocabulary from text; anything but the exact text form of a
    /// vocabulary (size line, then that many distinct newline-free words) is
    /// rejected.
    pub fn load(text: &str) -> (r: Result<Vocabulary, Error>)
        ensures
            match r {
                Ok(v) => {
                    &&& v.wf()
                    &&& vocab_encodable(v@)
                    &&& text@ == spec_vocab_text(v@)
                },
                Err(e) => {
                    &&& !(exists|w: Seq<Seq<char>>|
                        vocab_encodable(w) && text@ == spec_vocab_text(w))
                    &&& e.message@ == "Invalid vocabulary data"@
                },
            },
    {
        let lines_opt = split_lines(text);
        let lines: Vec<String> = match lines_opt {
            Option::Some(lines) => lines,
            Option::None => {
                proof {
                    assert forall|w: Seq<Seq<char>>|
                        !(vocab_encodable(w) && text@ == spec_vocab_text(w)) by {
                        if vocab_encodable(w) && text@ == spec_vocab_text(w) {
                            lemma_vocab_text_splits(w);
                        }
                    }
                }
                return Err(Error::new("Invalid vocabulary data".to_owned()));
            },
        };
        let ghost ldv: Seq<Seq<char>> = lines.deep_view();
        if lines.len() == 0 {
            proof {
                assert forall|w: Seq<Seq<char>>|
                    !(vocab_encodable(w) && text@ == spec_vocab_text(w)) by {
                    if vocab_encodable(w) && text@ == spec_vocab_text(w) {
                        lemma_vocab_text_splits(w);
                    }
                }
            }
            return Err(Error::new("Invalid vocabulary data".to_owned()));
        }
        let count = match parse_decimal_u32(lines[0].as_str()) {
            Option::Some(count) => count,
            Option::None => {
                proof {
                    assert forall|w: Seq<Seq<char>>|
                        !(vocab_encodable(w) && text@ == spec_vocab_text(w)) by {
                        if vocab_encodable(w) && text@ == spec_vocab_text(w) {
                            lemma_vocab_text_splits(w);
                            lemma_decimal_roundtrip(w.len());
                            assert(ldv[0] == spec_decimal(w.len()));
                        }
                    }
                }
                return Err(Error::new("Invalid vocabulary data".to_owned()));
            },
        };
        if count as usize != lines.len() - 1 {
            proof {
                assert forall|w: Seq<Seq<char>>|
                    !(vocab_encodable(w) && text@ == spec_vocab_text(w)) by {
                    if vocab_encodable(w) && text@ == spec_vocab_text(w) {
                        lemma_vocab_text_splits(w);
                        assert(ldv[0] == spec_decimal(w.len()));
                        assert(ldv[0] == spec_decimal(count as nat));
                        lemma_decimal_roundtrip(w.len());
                        lemma_decimal_roundtrip(count as nat);
                        assert(count as nat == w.len());
                    }
                }
            }
            return Err(Error::new("Invalid vocabulary data".to_owned()));
        }
        let mut vocab = Vocabulary::new();
        let m = lines.len();
        proof {
            assert(lines@[0]@ == ldv[0]);
            assert(vocab@ =~= ldv.subrange(1, 1));
        }
        let mut k: usize = 1;
        while k < m
            invariant
                m == lines@.len(),
                ldv == lines.deep_view(),
                ldv.len() == lines@.len(),
                1 <= k <= m,
                count as int == m - 1,
                count <= u32::MAX,
                spec_split_lines(text@) == Option::Some(ldv),
                ldv[0] == spec_decimal(count as nat),
                vocab.wf(),
                vocab@ =~= ldv.subrange(1, k as int),
                vocab@.len() == k - 1,
            decreases m - k,
        {
            let ghost pre = vocab@;
            proof {
                assert(lines@[k as int]@ == ldv[k as int]);
            }
            let id = vocab.get_or_add_id(lines[k].as_str());
            if id.id as usize != k - 1 {
                proof {
                    assert(pre.contains(ldv[k as int])) by {
                        if !pre.contains(ldv[k as int]) {
                            assert(spec_word_id(pre, ldv[k as int]) == pre.len());
                        }
                    }
                    assert forall|w: Seq<Seq<char>>|
                        !(vocab_encodable(w) && text@ == spec_vocab_text(w)) by {
                        if vocab_encodable(w) && text@ == spec_vocab_text(w) {
                            lemma_vocab_text_splits(w);
                            let full = seq![spec_decimal(w.len())] + w;
                            assert(ldv == full);
                            assert(w.len() == ldv.len() - 1);
                            let j = choose|j: int| 0 <= j < pre.len() && pre[j] == ldv[k as int];
                            assert(pre[j] == ldv[j + 1]);
                            assert(full[j + 1] == w[j]);
                            assert(full[k as int] == w[k - 1]);
                            assert(w[j] == w[k - 1]);
                            assert(j < k - 1);
                        }
                    }
                }
                return Err(Error::new("Invalid vocabulary data".to_owned()));
            }
            proof {
                assert(!pre.contains(ldv[k as int])) by {
                    if pre.contains(ldv[k as int]) {
                        assert(pre[spec_word_id(pre, ldv[k as int])] == ldv[k as int]);
                        assert(spec_word_id(pre, ldv[k as int]) < pre.len());
                    }
                }
                assert(vocab@ =~= pre.push(ldv[k as int]));
                assert(vocab@ =~= ldv.subrange(1, k + 1));
            }
            k = k + 1;
        }
        proof {
            lemma_join_split(text@);
            assert(vocab@ =~= ldv.subrange(1, m as int));
            assert(ldv =~= seq![ldv[0]] + vocab@);
            assert(ldv[0] == spec_decimal(count as nat));
            assert(vocab@.len() == count as nat);
            assert(newline_free(vocab@)) by {
                assert(forall|i: int|
                    0 <= i < vocab@.len() ==> vocab@[i] == ldv[i + 1]);
            }
            assert(spec_vocab_text(vocab@) == spec_join_lines(ldv));
        }
        Ok(vocab)
    }
}

/// The text form of a vocabulary: its size line, then its words in id
/// order, each line closed by a newline.
pub open spec fn spec_vocab_text(v: Seq<Seq<char>>) -> Seq<char> {
    spec_join_lines(seq![spec_decimal(v.len())] + v)
}

/// What the text form can carry: distinct newline-free words, with ids that
/// fit in a `u32`.
pub open spec fn vocab_encodable(w: Seq<Seq<char>>) -> bool {
    &&& distinct_words(w)
    &&& w.len() <= u32::MAX
    &&& newline_free(w)
}

/// The text of an encodable vocabulary splits back into its size line and
/// its word lines.
pub proof fn lemma_vocab_text_splits(w: Seq<Seq<char>>)
    requires
        vocab_encodable(w),
    ensures
        spec_split_lines(spec_vocab_text(w)) == Option::Some(seq![spec_decimal(w.len())] + w),
        (seq![spec_decimal(w.len())] + w).len() == w.len() + 1,
        (seq![spec_decimal(w.len())] + w)[0] == spec_decimal(w.len()),
        forall|j: int| 0 <= j < w.len() ==> (seq![spec_decimal(w.len())] + w)[j + 1] == w[j],
{
    let ls = seq![spec_decimal(w.len())] + w;
    lemma_decimal_newline_free(w.len());
    assert(newline_free(ls)) by {
        assert(ls[0] == spec_decimal(w.len()));
        assert(forall|j: int| 1 <= j < ls.len() ==> ls[j] == w[j - 1]);
    }
    lemma_split_join(ls);
}

/// Law: the text form names the vocabulary uniquely — two encodable
/// vocabularies with the same text are the same, so saving and loading can
/// lose nothing.
pub proof fn lemma_vocab_text_injective(w1: Seq<Seq<char>>, w2: Seq<Seq<char>>)
    requires
        vocab_encodable(w1),
        vocab_encodable(w2),
        spec_vocab_text(w1) == spec_vocab_text(w2),
    ensures
        w1 == w2,
{
    lemma_vocab_text_splits(w1);
    lemma_vocab_text_splits(w2);
    let l1 = seq![spec_decimal(w1.len())] + w1;
    let l2 = seq![spec_decimal(w2.len())] + w2;
    assert(l1 == l2);
    assert(w1 =~= l1.drop_first());
    assert(w2 =~= l2.drop_first());
}

} // verus!
