//! Sentences and sentence pairs encoded as word ids over two vocabularies,
//! and the loader that turns tokenized text lines into a corpus.

use crate::error::Error;
use crate::vocabulary::distinct_words;
use crate::vocabulary::spec_add_word;
use crate::vocabulary::spec_word_id;
use crate::vocabulary::Vocabulary;
use crate::decimal::append_decimal;
use crate::decimal::spec_decimal;
use vstd::prelude::*;
use vstd::string::StringExecFns;

verus! {

/// Word ID.
#[derive(Clone, Copy, Debug, Eq, PartialEq, Structural)]
pub struct WordId {
    /// Value of ID.
    pub id: u32,
}

impl WordId {
    /// Creates a new WordId object.
    pub fn new(id: u32) -> (r: Self)
        ensures
            r.id == id,
    {
        Self { id }
    }
}

/// Sentence: an ordered list of word ids; position is the alignment coordinate.
#[derive(Debug)]
pub struct Sentence {
    /// List of word IDs.
    pub words: Vec<WordId>,
}

impl View for Sentence {
    type V = Seq<u32>;

    open spec fn view(&self) -> Seq<u32> {
        self.words@.map_values(|w: WordId| w.id)
    }
}

impl Sentence {
    /// Maps each id back to its word in the given vocabulary.
    pub fn decode(&self, vocab: &Vocabulary) -> (r: Vec<String>)
        requires
            forall|k: int| 0 <= k < self@.len() ==> #[trigger] self@[k] < vocab@.len(),
        ensures
            r.deep_view() == self@.map_values(|id: u32| vocab@[id as int]),
    {
        let mut out: Vec<String> = Vec::new();
        let n = self.words.len();
        proof {
            assert(out.deep_view() =~= self@.take(0).map_values(|id: u32| vocab@[id as int]));
        }
        for k in 0..n
            invariant
                n == self.words@.len(),
                forall|j: int| 0 <= j < self@.len() ==> #[trigger] self@[j] < vocab@.len(),
                out.deep_view() == self@.take(k as int).map_values(|id: u32| vocab@[id as int]),
        {
            let ghost out0 = out.deep_view();
            proof {
                assert(self@[k as int] == self.words@[k as int].id);
            }
            let w = vocab.word(self.words[k].id as usize);
            let wc = w.clone();
            out.push(wc);
            proof {
                assert(out.deep_view() =~= out0.push(vocab@[self@[k as int] as int]));
                assert(out.deep_view() =~= self@.take(k + 1).map_values(
                    |id: u32| vocab@[id as int],
                ));
            }
        }
        proof {
            assert(self@.take(n as int) =~= self@);
        }
        out
    }
}

/// Sentence pair.
#[derive(Debug)]
pub struct SentencePair {
    /// Source sentence.
    pub source: Sentence,

    /// Target sentence.
    pub target: Sentence,
}

impl View for SentencePair {
    type V = (Seq<u32>, Seq<u32>);

    open spec fn view(&self) -> (Seq<u32>, Seq<u32>) {
        (self.source@, self.target@)
    }
}

/// The token that separates the source run from the target run on a line.
pub open spec fn spec_separator() -> Seq<char> {
    "|||"@
}

/// Spec-level encoding of a token run: each token is added to the vocabulary
/// (if new) and replaced by its id.
pub open spec fn spec_encode(v: Seq<Seq<char>>, ws: Seq<Seq<char>>) -> (Seq<Seq<char>>, Seq<u32>)
    decreases ws.len(),
{
    if ws.len() == 0 {
        (v, Seq::empty())
    } else {
        let v1 = spec_add_word(v, ws[0]);
        let id = spec_word_id(v, ws[0]) as u32;
        let rest = spec_encode(v1, ws.drop_first());
        (rest.0, seq![id] + rest.1)
    }
}

/// Encoding only appends to the vocabulary, keeps it distinct, yields one id
/// per token, and every id points into the grown vocabulary.
pub proof fn lemma_spec_encode_props(v: Seq<Seq<char>>, ws: Seq<Seq<char>>)
    requires
        distinct_words(v),
        v.len() + ws.len() <= u32::MAX,
    ensures
        ({
            let enc = spec_encode(v, ws);
            &&& distinct_words(enc.0)
            &&& v.len() <= enc.0.len() <= v.len() + ws.len()
            &&& forall|i: int| 0 <= i < v.len() ==> enc.0[i] == v[i]
            &&& enc.1.len() == ws.len()
            &&& forall|k: int| 0 <= k < enc.1.len() ==> #[trigger] enc.1[k] < enc.0.len()
        }),
    decreases ws.len(),
{
    if ws.len() > 0 {
        let w = ws[0];
        let v1 = spec_add_word(v, w);
        crate::vocabulary::lemma_add_word_distinct(v, w);
        lemma_spec_encode_props(v1, ws.drop_first());
        let enc = spec_encode(v, ws);
        let rest = spec_encode(v1, ws.drop_first());
        assert(enc.1 == seq![spec_word_id(v, w) as u32] + rest.1);
        assert(spec_word_id(v, w) < v1.len()) by {
            if v.contains(w) {
                assert(0 <= v.index_of(w) < v.len());
            }
        }
        assert((spec_word_id(v, w) as u32) as int == spec_word_id(v, w));
        assert(enc.1.len() == ws.len());
        assert forall|i: int| 0 <= i < v.len() implies enc.0[i] == v[i] by {
            assert(rest.0[i] == v1[i]);
        }
        assert forall|k: int| 0 <= k < enc.1.len() implies #[trigger] enc.1[k] < enc.0.len() by {
            if k == 0 {
                assert(enc.1[0] == spec_word_id(v, w) as u32);
                assert(v1.len() <= rest.0.len());
            } else {
                assert(enc.1[k] == rest.1[k - 1]);
            }
        }
    }
}

/// Law: decoding the ids of an encoded token run through the grown
/// vocabulary reproduces the original tokens.
pub proof fn lemma_encode_decode(v: Seq<Seq<char>>, ws: Seq<Seq<char>>)
    requires
        distinct_words(v),
        v.len() + ws.len() <= u32::MAX,
    ensures
        ({
            let enc = spec_encode(v, ws);
            enc.1.map_values(|id: u32| enc.0[id as int]) == ws
        }),
    decreases ws.len(),
{
    let enc = spec_encode(v, ws);
    let dec = enc.1.map_values(|id: u32| enc.0[id as int]);
    if ws.len() == 0 {
        assert(dec =~= ws);
    } else {
        let w = ws[0];
        let v1 = spec_add_word(v, w);
        crate::vocabulary::lemma_add_word_distinct(v, w);
        lemma_encode_decode(v1, ws.drop_first());
        lemma_spec_encode_props(v1, ws.drop_first());
        let rest = spec_encode(v1, ws.drop_first());
        let id = spec_word_id(v, w);
        assert(0 <= id < v1.len() && v1[id] == w) by {
            if v.contains(w) {
                assert(v[v.index_of(w)] == w);
            } else {
                assert(v1 == v.push(w));
            }
        }
        assert(enc.0[id] == w);
        let rdec = rest.1.map_values(|id: u32| rest.0[id as int]);
        assert(rdec == ws.drop_first());
        assert(dec.len() == ws.len());
        assert forall|k: int| 0 <= k < dec.len() implies dec[k] == ws[k] by {
            if k == 0 {
                assert(enc.1[0] == id as u32);
            } else {
                assert(enc.1[k] == rest.1[k - 1]);
                assert(rdec[k - 1] == ws.drop_first()[k - 1]);
            }
        }
        assert(dec =~= ws);
    }
}

/// Total number of tokens over all lines.
pub open spec fn spec_token_count(lines: Seq<Seq<Seq<char>>>) -> nat
    decreases lines.len(),
{
    if lines.len() == 0 {
        0
    } else {
        lines[0].len() + spec_token_count(lines.drop_first())
    }
}

/// Spec-level loading: every line is split at its first separator token and
/// both runs are encoded; a line without a separator stops the load with its
/// 1-based line number.
pub open spec fn spec_load(
    lines: Seq<Seq<Seq<char>>>,
    sv: Seq<Seq<char>>,
    tv: Seq<Seq<char>>,
) -> Result<(Seq<Seq<char>>, Seq<Seq<char>>, Seq<(Seq<u32>, Seq<u32>)>), int>
    decreases lines.len(),
{
    if lines.len() == 0 {
        Ok((sv, tv, Seq::empty()))
    } else {
        let ws = lines[0];
        match ws.index_of_first(spec_separator()) {
            Option::None => Err(1),
            Option::Some(si) => {
                let src = spec_encode(sv, ws.take(si));
                let tgt = spec_encode(tv, ws.skip(si + 1));
                match spec_load(lines.drop_first(), src.0, tgt.0) {
                    Ok(rest) => Ok((rest.0, rest.1, seq![(src.1, tgt.1)] + rest.2)),
                    Err(k) => Err(k + 1),
                }
            },
        }
    }
}

/// The message of the fatal parse error for a line without a separator.
pub open spec fn spec_separator_error(line: int) -> Seq<char> {
    "Separator \"|||\" not found in line "@ + spec_decimal(line as nat)
}

/// Corpus.
#[derive(Debug)]
pub struct Corpus {
    /// Vocabulary in the source language associated to this corpus.
    pub source_vocab: Vocabulary,

    /// Vocabulary in the target language associated to this corpus.
    pub target_vocab: Vocabulary,

    /// List of sentence pairs.
    pub pairs: Vec<SentencePair>,
}

/// All ids of a pair point into vocabularies of the given sizes, and both
/// sentences are short enough for 32-bit positions.
pub open spec fn pair_bounded(pv: (Seq<u32>, Seq<u32>), fs: nat, es: nat) -> bool {
    &&& forall|k: int| 0 <= k < pv.0.len() ==> #[trigger] pv.0[k] < fs
    &&& forall|k: int| 0 <= k < pv.1.len() ==> #[trigger] pv.1[k] < es
    &&& pv.0.len() <= u32::MAX
    &&& pv.1.len() <= u32::MAX
}

impl View for Corpus {
    type V = (Seq<Seq<char>>, Seq<Seq<char>>, Seq<(Seq<u32>, Seq<u32>)>);

    open spec fn view(&self) -> (Seq<Seq<char>>, Seq<Seq<char>>, Seq<(Seq<u32>, Seq<u32>)>) {
        (self.source_vocab@, self.target_vocab@, self.pairs@.map_values(|p: SentencePair| p@))
    }
}

impl Corpus {
    /// Both vocabularies are well formed, every id is in range, and every
    /// sentence is short enough for 32-bit positions.
    pub open spec fn wf(&self) -> bool {
        &&& self.source_vocab.wf()
        &&& self.target_vocab.wf()
        &&& forall|i: int|
            0 <= i < self.pairs@.len() ==> pair_bounded(
                #[trigger] self.pairs@[i]@,
                self.source_vocab@.len(),
                self.target_vocab@.len(),
            )
    }

    /// Loads a corpus and its two vocabularies from tokenized lines in the
    /// fast-align format: on every line the token `|||` separates the source
    /// run from the target run, and a line without it is a fatal parse error
    /// carrying the 1-based line number.
    pub fn load(lines: &Vec<Vec<String>>) -> (r: Result<Corpus, Error>)
        requires
            spec_token_count(lines.deep_view()) <= u32::MAX,
        ensures
            match r {
                Ok(c) => {
                    &&& spec_load(lines.deep_view(), Seq::empty(), Seq::empty()) == Ok::<
                        _,
                        int,
                    >((c.source_vocab@, c.target_vocab@, c.pairs@.map_values(|p: SentencePair| p@)))
                    &&& c.wf()
                    &&& c.pairs@.len() == lines@.len()
                },
                Err(e) => match spec_load(lines.deep_view(), Seq::empty(), Seq::empty()) {
                    Ok(_) => false,
                    Err(n) => e.message@ == spec_separator_error(n),
                },
            },
    {
        let ghost l: Seq<Seq<Seq<char>>> = lines.deep_view();
        let mut source_vocab = Vocabulary::new();
        let mut target_vocab = Vocabulary::new();
        let mut pairs: Vec<SentencePair> = Vec::new();
        let sep: String = "|||".to_owned();
        let n = lines.len();
        proof {
            assert(l.skip(0) =~= l);
        }
        for i in 0..n
            invariant
                n == lines@.len(),
                l == lines.deep_view(),
                l.len() == lines@.len(),
                sep@ == spec_separator(),
                source_vocab.wf(),
                target_vocab.wf(),
                source_vocab@.len() + target_vocab@.len() + spec_token_count(l.skip(i as int))
                    <= u32::MAX,
                pairs@.len() == i,
                forall|k: int|
                    0 <= k < pairs@.len() ==> pair_bounded(
                        #[trigger] pairs@[k]@,
                        source_vocab@.len(),
                        target_vocab@.len(),
                    ),
                match spec_load(l.skip(i as int), source_vocab@, target_vocab@) {
                    Ok(rest) => spec_load(l, Seq::empty(), Seq::empty()) == Ok::<_, int>(
                        (rest.0, rest.1, pairs@.map_values(|p: SentencePair| p@) + rest.2),
                    ),
                    Err(k) => spec_load(l, Seq::empty(), Seq::empty()) == Err::<
                        (Seq<Seq<char>>, Seq<Seq<char>>, Seq<(Seq<u32>, Seq<u32>)>),
                        int,
                    >(k + i),
                },
        {
            let words: &Vec<String> = &lines[i];
            let ghost ws: Seq<Seq<char>> = words.deep_view();
            let ghost sv0: Seq<Seq<char>> = source_vocab@;
            let ghost tv0: Seq<Seq<char>> = target_vocab@;
            let ghost pairs0 = pairs@;
            proof {
                assert(l[i as int] == ws);
                assert(l.skip(i as int)[0] == l[i as int]);
                assert(l.skip(i as int).drop_first() =~= l.skip(i as int + 1));
                assert(spec_token_count(l.skip(i as int)) == ws.len() + spec_token_count(
                    l.skip(i as int + 1),
                ));
            }
            // Find the first separator token.
            let m = words.len();
            let mut sep_index: usize = 0;
            let mut found = false;
            for j in 0..m
                invariant
                    m == words@.len(),
                    ws == words.deep_view(),
                    ws.len() == words@.len(),
                    sep@ == spec_separator(),
                    !found ==> forall|k: int| 0 <= k < j ==> ws[k] != spec_separator(),
                    found ==> 0 <= sep_index < j && ws[sep_index as int] == spec_separator()
                        && forall|k: int| 0 <= k < sep_index ==> ws[k] != spec_separator(),
            {
                if !found && words[j] == sep {
                    proof {
                        assert(words@[j as int]@ == ws[j as int]);
                    }
                    sep_index = j;
                    found = true;
                }
            }
            if !found {
                proof {
                    ws.index_of_first_ensures(spec_separator());
                    if ws.index_of_first(spec_separator()) is Some {
                        let si = ws.index_of_first(spec_separator()).unwrap();
                        assert(ws[si] == spec_separator());
                    }
                    assert(ws.index_of_first(spec_separator()) is None);
                }
                let mut message: String = "Separator \"|||\" not found in line ".to_owned();
                append_decimal(&mut message, i as u64 + 1);
                proof {
                    assert(message@ == spec_separator_error(i as int + 1));
                }
                return Err(Error::new(message));
            }
            proof {
                ws.index_of_first_ensures(spec_separator());
                match ws.index_of_first(spec_separator()) {
                    Option::Some(si) => {
                        assert(ws[si] == spec_separator());
                        if si < sep_index as int {
                            assert(ws[si] != spec_separator());
                        }
                        if sep_index < si {
                            assert(ws[sep_index as int] != spec_separator());
                        }
                        assert(si == sep_index as int);
                    },
                    Option::None => {
                        assert(ws[sep_index as int] != spec_separator());
                    },
                }
            }
            let source = encode_tokens(&mut source_vocab, words, 0, sep_index);
            let target = encode_tokens(&mut target_vocab, words, sep_index + 1, m);
            proof {
                assert(ws.take(sep_index as int) =~= words.deep_view().subrange(
                    0,
                    sep_index as int,
                ));
                assert(ws.skip(sep_index as int + 1) =~= words.deep_view().subrange(
                    sep_index as int + 1,
                    m as int,
                ));
            }
            let pair = SentencePair { source, target };
            pairs.push(pair);
            proof {
                assert(pairs@ == pairs0.push(pair));
                let pm = |p: SentencePair| p@;
                assert(pairs@.map_values(pm) =~= pairs0.map_values(pm).push(pair@));
                // The ids of earlier pairs stay in range: the vocabularies only grow.
                assert forall|k: int|
                    0 <= k < pairs@.len() implies pair_bounded(
                    #[trigger] pairs@[k]@,
                    source_vocab@.len(),
                    target_vocab@.len(),
                ) by {
                    if k < pairs0.len() {
                        assert(pairs@[k] == pairs0[k]);
                        assert(pair_bounded(pairs0[k]@, sv0.len(), tv0.len()));
                    } else {
                        assert(pairs@[k] == pair);
                    }
                }
                // Restore the load invariant for the next line.
                let si = sep_index as int;
                let src = spec_encode(sv0, ws.take(si));
                let tgt = spec_encode(tv0, ws.skip(si + 1));
                assert(source_vocab@ == src.0);
                assert(target_vocab@ == tgt.0);
                assert(pair@ == (src.1, tgt.1));
                assert(spec_load(l.skip(i as int), sv0, tv0) == match spec_load(
                    l.skip(i as int + 1),
                    src.0,
                    tgt.0,
                ) {
                    Ok(rest) => Ok::<_, int>((rest.0, rest.1, seq![(src.1, tgt.1)] + rest.2)),
                    Err(k) => Err::<(Seq<Seq<char>>, Seq<Seq<char>>, Seq<(Seq<u32>, Seq<u32>)>), int>(
                        k + 1,
                    ),
                });
                match spec_load(l.skip(i as int + 1), source_vocab@, target_vocab@) {
                    Ok(rest) => {
                        assert(spec_load(l.skip(i as int), sv0, tv0) == Ok::<_, int>(
                            (rest.0, rest.1, seq![(src.1, tgt.1)] + rest.2),
                        ));
                        assert(pairs0.map_values(pm) + (seq![(src.1, tgt.1)] + rest.2)
                            =~= pairs@.map_values(pm) + rest.2);
                    },
                    Err(_) => {},
                }
            }
        }
        proof {
            assert(l.skip(n as int) =~= Seq::<Seq<Seq<char>>>::empty());
            assert(pairs@.map_values(|p: SentencePair| p@) + Seq::<(Seq<u32>, Seq<u32>)>::empty()
                =~= pairs@.map_values(|p: SentencePair| p@));
        }
        Ok(Corpus { source_vocab, target_vocab, pairs })
    }
}

/// Encodes the token run `words[from..to]` into ids, growing the vocabulary.
fn encode_tokens(vocab: &mut Vocabulary, words: &Vec<String>, from: usize, to: usize) -> (r:
    Sentence)
    requires
        old(vocab).wf(),
        from <= to <= words@.len(),
        old(vocab)@.len() + (to - from) <= u32::MAX,
    ensures
        final(vocab).wf(),
        ({
            let enc = spec_encode(old(vocab)@, words.deep_view().subrange(from as int, to as int));
            &&& final(vocab)@ == enc.0
            &&& r@ == enc.1
            &&& r@.len() == to - from
            &&& old(vocab)@.len() <= final(vocab)@.len() <= old(vocab)@.len() + (to - from)
            &&& forall|k: int| 0 <= k < r@.len() ==> #[trigger] r@[k] < final(vocab)@.len()
        }),
{
    let ghost all: Seq<Seq<char>> = words.deep_view().subrange(from as int, to as int);
    let mut ids: Vec<WordId> = Vec::new();
    let mut j = from;
    proof {
        assert(all.skip(0) =~= all);
    }
    while j < to
        invariant
            from <= j <= to <= words@.len(),
            all == words.deep_view().subrange(from as int, to as int),
            all.len() == to - from,
            vocab.wf(),
            ids@.len() == j - from,
            old(vocab)@.len() <= vocab@.len() <= old(vocab)@.len() + (j - from),
            old(vocab)@.len() + (to - from) <= u32::MAX,
            forall|k: int| 0 <= k < ids@.len() ==> (#[trigger] ids@[k]).id < vocab@.len(),
            ({
                let enc = spec_encode(old(vocab)@, all);
                let rest = spec_encode(vocab@, all.skip(j - from));
                &&& enc.0 == rest.0
                &&& enc.1 == ids@.map_values(|w: WordId| w.id) + rest.1
            }),
        decreases to - j,
    {
        let ghost pre = vocab@;
        let ghost ids_pre = ids@;
        let ghost done = j - from;
        proof {
            assert(all[done] == words.deep_view()[j as int]);
            assert(words.deep_view()[j as int] == words@[j as int]@);
        }
        let id = vocab.get_or_add_id(words[j].as_str());
        ids.push(id);
        j = j + 1;
        proof {
            assert(all.skip(done).drop_first() =~= all.skip(j - from));
            assert(all.skip(done)[0] == all[done]);
            let rest_pre = spec_encode(pre, all.skip(done));
            let rest_post = spec_encode(vocab@, all.skip(j - from));
            assert(rest_pre.0 == rest_post.0);
            assert(rest_pre.1 == seq![id.id] + rest_post.1);
            assert(ids@ == ids_pre.push(id));
            assert(ids@.map_values(|w: WordId| w.id) =~= ids_pre.map_values(
                |w: WordId| w.id,
            ).push(id.id));
            assert(ids_pre.map_values(|w: WordId| w.id).push(id.id) + rest_post.1 =~= ids_pre
                .map_values(|w: WordId| w.id) + (seq![id.id] + rest_post.1));
        }
    }
    proof {
        assert(all.skip(to - from) =~= Seq::<Seq<char>>::empty());
        let enc = spec_encode(old(vocab)@, all);
        assert(enc.0 == vocab@);
        assert(enc.1 =~= ids@.map_values(|w: WordId| w.id));
        lemma_spec_encode_props(old(vocab)@, all);
    }
    Sentence { words: ids }
}

} // verus!
