//! IBM Model 1 translation tables and the Viterbi decoding rule.
//!
//! Every table entry holds the bit pattern of a nonnegative finite IEEE-754
//! binary64 probability. On such patterns the unsigned order of the bits
//! coincides with the numeric order of the probabilities, so the decoder
//! compares entries as plain 64-bit integers. The arithmetic that fills the
//! tables lives outside this library; here the tables are data.

use crate::alignment::spec_alignment_text;
use crate::alignment::Alignment;
use crate::alignment::Edge;
use crate::alignment::Position;
use crate::corpus::pair_bounded;
use crate::corpus::Corpus;
use crate::corpus::SentencePair;
use crate::error::Error;
use crate::lines::lemma_join_append;
use crate::lines::spec_join_lines;
use vstd::bytes::lemma_auto_spec_u32_to_from_le_bytes;
use vstd::bytes::lemma_auto_spec_u64_to_from_le_bytes;
use vstd::bytes::spec_u32_from_le_bytes;
use vstd::bytes::spec_u32_to_le_bytes;
use vstd::bytes::spec_u64_from_le_bytes;
use vstd::bytes::spec_u64_to_le_bytes;
use vstd::bytes::u32_from_le_bytes;
use vstd::bytes::u32_to_le_bytes;
use vstd::bytes::u64_from_le_bytes;
use vstd::bytes::u64_to_le_bytes;
use vstd::prelude::*;
use vstd::slice::slice_subrange;
use vstd::string::StringExecFns;

verus! {

/// Dense translation tables of IBM Model 1.
#[derive(Debug)]
pub struct Model {
    /// Number of source words (rows of `t_fe`).
    pub f_size: usize,

    /// Number of target words (columns of `t_fe`, length of `t_0e`).
    pub e_size: usize,

    /// Translation probability from source word `f` to target word `e`,
    /// row-major: entry `(f, e)` sits at `f * e_size + e`.
    pub t_fe: Vec<u64>,

    /// Translation probability from the NULL word to target word `e`.
    pub t_0e: Vec<u64>,
}

/// A row-major index stays inside the table.
pub proof fn lemma_row_major(f: int, e: int, fs: int, es: int)
    requires
        0 <= f < fs,
        0 <= e < es,
    ensures
        0 <= f * es + e < fs * es,
{
    assert(f * es + e < fs * es) by (nonlinear_arith)
        requires
            0 <= f < fs,
            0 <= e < es,
    ;
}

impl Model {
    /// Table shapes agree with the two sizes, and the sizes fit the codec.
    pub open spec fn wf(&self) -> bool {
        &&& self.f_size <= u32::MAX
        &&& self.e_size <= u32::MAX
        &&& self.t_fe@.len() == self.f_size * self.e_size
        &&& self.t_0e@.len() == self.e_size
    }

    /// Entry `(f, e)` of the translation table.
    pub open spec fn spec_t_fe(&self, f: int, e: int) -> u64 {
        self.t_fe@[f * self.e_size + e]
    }

    /// Entry `e` of the NULL table.
    pub open spec fn spec_t_0e(&self, e: int) -> u64 {
        self.t_0e@[e]
    }

    /// Creates a model whose every entry is the same bit pattern, the shape
    /// of the uniform initialization before any training.
    pub fn uniform(f_size: usize, e_size: usize, fill: u64) -> (r: Model)
        requires
            f_size <= u32::MAX,
            e_size <= u32::MAX,
            f_size * e_size <= usize::MAX,
        ensures
            r.wf(),
            r.f_size == f_size,
            r.e_size == e_size,
            forall|k: int| 0 <= k < r.t_fe@.len() ==> r.t_fe@[k] == fill,
            forall|k: int| 0 <= k < r.t_0e@.len() ==> r.t_0e@[k] == fill,
    {
        let count = f_size * e_size;
        let mut t_fe: Vec<u64> = Vec::new();
        let mut k: usize = 0;
        while k < count
            invariant
                k <= count,
                t_fe@.len() == k,
                forall|j: int| 0 <= j < k ==> t_fe@[j] == fill,
            decreases count - k,
        {
            t_fe.push(fill);
            k = k + 1;
        }
        let mut t_0e: Vec<u64> = Vec::new();
        let mut k2: usize = 0;
        while k2 < e_size
            invariant
                k2 <= e_size,
                t_0e@.len() == k2,
                forall|j: int| 0 <= j < k2 ==> t_0e@[j] == fill,
            decreases e_size - k2,
        {
            t_0e.push(fill);
            k2 = k2 + 1;
        }
        Model { f_size, e_size, t_fe, t_0e }
    }

    /// Generates Viterbi alignment for given sentence pair.
    ///
    /// For each target position the best source position is the one with the
    /// maximal table entry, the earliest on ties; an edge is emitted only
    /// when that entry strictly exceeds the NULL entry.
    pub fn make_viterbi_alignment(&self, pair: &SentencePair) -> (r: Alignment)
        requires
            self.wf(),
            pair.source@.len() <= u32::MAX,
            pair.target@.len() <= u32::MAX,
            pair_bounded(pair@, self.f_size as nat, self.e_size as nat),
        ensures
            r.edges@ == spec_viterbi_edges(self, pair.source@, pair.target@, 0),
    {
        let ghost fw: Seq<u32> = pair.source@;
        let ghost ew: Seq<u32> = pair.target@;
        let mut edges: Vec<Edge> = Vec::new();
        let sn = pair.source.words.len();
        let en = pair.target.words.len();
        let fe_len = self.t_fe.len();
        proof {
            assert(Seq::<Edge>::empty() + spec_viterbi_edges(self, fw, ew, 0)
                =~= spec_viterbi_edges(self, fw, ew, 0));
        }
        for i in 0..en
            invariant
                self.wf(),
                fw == pair.source@,
                ew == pair.target@,
                sn == pair.source.words@.len(),
                en == pair.target.words@.len(),
                fe_len == self.t_fe@.len(),
                fw.len() == sn,
                ew.len() == en,
                fw.len() <= u32::MAX,
                ew.len() <= u32::MAX,
                pair_bounded(pair@, self.f_size as nat, self.e_size as nat),
                edges@ + spec_viterbi_edges(self, fw, ew, i as int) == spec_viterbi_edges(
                    self,
                    fw,
                    ew,
                    0,
                ),
        {
            let ghost edges0 = edges@;
            let e_id = pair.target.words[i].id as usize;
            proof {
                assert(ew[i as int] == pair.target.words@[i as int].id);
                assert(pair@.1 == ew);
                assert(pair@.1[i as int] < self.e_size as nat);
            }
            if sn > 0 {
                proof {
                    assert(fw[0] == pair.source.words@[0].id);
                    assert(pair@.0 == fw);
                    assert(pair@.0[0] < self.f_size as nat);
                    lemma_row_major(fw[0] as int, e_id as int, self.f_size as int, self.e_size as int);
                }
                let f0 = pair.source.words[0].id as usize;
                let mut best_j: usize = 0;
                let mut best: u64 = self.t_fe[f0 * self.e_size + e_id];
                let mut j: usize = 1;
                while j < sn
                    invariant
                        self.wf(),
                        fw == pair.source@,
                        sn == pair.source.words@.len(),
                        fe_len == self.t_fe@.len(),
                        fw.len() == sn,
                        1 <= j <= sn,
                        e_id < self.e_size,
                        pair_bounded(pair@, self.f_size as nat, self.e_size as nat),
                        best_j < j,
                        best_j == spec_best_prefix(self, fw, e_id as int, j as int),
                        best == self.spec_t_fe(fw[best_j as int] as int, e_id as int),
                    decreases sn - j,
                {
                    proof {
                        assert(fw[j as int] == pair.source.words@[j as int].id);
                        assert(pair@.0 == fw);
                        assert(pair@.0[j as int] < self.f_size as nat);
                        lemma_row_major(
                            fw[j as int] as int,
                            e_id as int,
                            self.f_size as int,
                            self.e_size as int,
                        );
                    }
                    let f_id = pair.source.words[j].id as usize;
                    let t = self.t_fe[f_id * self.e_size + e_id];
                    if t > best {
                        best_j = j;
                        best = t;
                    }
                    j = j + 1;
                }
                if best > self.t_0e[e_id] {
                    edges.push(Edge::new(Position::new(best_j as u32), Position::new(i as u32)));
                }
                proof {
                    let cur = spec_viterbi_edges(self, fw, ew, i as int);
                    let next = spec_viterbi_edges(self, fw, ew, i as int + 1);
                    let b = spec_best_prefix(self, fw, e_id as int, fw.len() as int);
                    assert(b == best_j as int);
                    if self.spec_t_fe(fw[b] as int, e_id as int) > self.spec_t_0e(e_id as int) {
                        let edge = Edge {
                            source: Position { id: b as u32 },
                            target: Position { id: i as u32 },
                        };
                        assert(cur == seq![edge] + next);
                        assert(edges@ == edges0.push(edge));
                        assert(edges0.push(edge) + next =~= edges0 + (seq![edge] + next));
                    } else {
                        assert(cur == next);
                    }
                }
            } else {
                proof {
                    let cur = spec_viterbi_edges(self, fw, ew, i as int);
                    let next = spec_viterbi_edges(self, fw, ew, i as int + 1);
                    assert(cur == next);
                }
            }
        }
        proof {
            assert(spec_viterbi_edges(self, fw, ew, en as int) == Seq::<Edge>::empty());
            assert(edges@ + Seq::<Edge>::empty() =~= edges@);
        }
        Alignment::new(edges)
    }
}

/// The output lines of the Viterbi alignments of a whole corpus: one line
/// per sentence pair, in corpus order.
pub open spec fn spec_viterbi_lines(m: &Model, pairs: Seq<(Seq<u32>, Seq<u32>)>) -> Seq<Seq<char>> {
    pairs.map_values(
        |pv: (Seq<u32>, Seq<u32>)| spec_alignment_text(spec_viterbi_edges(m, pv.0, pv.1, 0)),
    )
}

impl Model {
    /// Renders the Viterbi alignment of every sentence pair of the corpus,
    /// one line per pair in corpus order, each line closed by a newline.
    pub fn viterbi_text(&self, corpus: &Corpus) -> (r: String)
        requires
            self.wf(),
            corpus.wf(),
            self.f_size == corpus.source_vocab@.len(),
            self.e_size == corpus.target_vocab@.len(),
        ensures
            r@ == spec_join_lines(spec_viterbi_lines(self, corpus@.2)),
    {
        let mut out = String::new();
        let n = corpus.pairs.len();
        let ghost lm = |pv: (Seq<u32>, Seq<u32>)|
            spec_alignment_text(spec_viterbi_edges(self, pv.0, pv.1, 0));
        proof {
            assert(corpus@.2.take(0).map_values(lm) =~= Seq::<Seq<char>>::empty());
            assert(out@ =~= spec_join_lines(corpus@.2.take(0).map_values(lm)));
        }
        for i in 0..n
            invariant
                self.wf(),
                corpus.wf(),
                self.f_size == corpus.source_vocab@.len(),
                self.e_size == corpus.target_vocab@.len(),
                n == corpus.pairs@.len(),
                lm == (|pv: (Seq<u32>, Seq<u32>)|
                    spec_alignment_text(spec_viterbi_edges(self, pv.0, pv.1, 0))),
                out@ == spec_join_lines(corpus@.2.take(i as int).map_values(lm)),
        {
            let ghost out0 = out@;
            proof {
                assert(corpus@.2[i as int] == corpus.pairs@[i as int]@);
                assert(pair_bounded(
                    corpus.pairs@[i as int]@,
                    corpus.source_vocab@.len(),
                    corpus.target_vocab@.len(),
                ));
            }
            let a = self.make_viterbi_alignment(&corpus.pairs[i]);
            let line = a.to_text();
            out.append(line.as_str());
            out.append("\n");
            proof {
                reveal_strlit("\n");
                assert("\n"@ =~= seq!['\n']);
                let pv = corpus@.2[i as int];
                assert(line@ == lm(pv));
                let a1 = corpus@.2.take(i as int).map_values(lm);
                let b1 = seq![lm(pv)];
                lemma_join_append(a1, b1);
                assert(b1.drop_first() =~= Seq::<Seq<char>>::empty());
                assert(spec_join_lines(b1) == b1[0] + seq!['\n'] + spec_join_lines(
                    b1.drop_first(),
                ));
                assert(spec_join_lines(b1) =~= lm(pv) + seq!['\n']);
                assert(a1 + b1 =~= corpus@.2.take(i + 1).map_values(lm));
                assert(out@ =~= spec_join_lines(a1) + spec_join_lines(b1));
            }
        }
        proof {
            assert(corpus@.2.take(n as int) =~= corpus@.2);
        }
        out
    }
}

/// The best source position among the first `k` positions of the source
/// sentence for target word `e`: the maximal table entry wins, and on ties
/// the earliest position is kept.
pub open spec fn spec_best_prefix(m: &Model, fw: Seq<u32>, e: int, k: int) -> int
    decreases k,
{
    if k <= 1 {
        0
    } else {
        let b = spec_best_prefix(m, fw, e, k - 1);
        if m.spec_t_fe(fw[k - 1] as int, e) > m.spec_t_fe(fw[b] as int, e) {
            k - 1
        } else {
            b
        }
    }
}

/// The best prefix position is inside the prefix.
pub proof fn lemma_best_prefix_bound(m: &Model, fw: Seq<u32>, e: int, k: int)
    requires
        k >= 1,
    ensures
        0 <= spec_best_prefix(m, fw, e, k) < k,
    decreases k,
{
    if k > 1 {
        lemma_best_prefix_bound(m, fw, e, k - 1);
    }
}

/// The edges of the Viterbi alignment for the target positions from `i` on:
/// at most one edge per target position, in ascending target order.
pub open spec fn spec_viterbi_edges(m: &Model, fw: Seq<u32>, ew: Seq<u32>, i: int) -> Seq<Edge>
    decreases ew.len() - i,
{
    if i < 0 || i >= ew.len() {
        Seq::empty()
    } else {
        let e = ew[i] as int;
        let rest = spec_viterbi_edges(m, fw, ew, i + 1);
        if fw.len() > 0 && m.spec_t_fe(
            fw[spec_best_prefix(m, fw, e, fw.len() as int)] as int,
            e,
        ) > m.spec_t_0e(e) {
            seq![
                Edge {
                    source: Position { id: spec_best_prefix(m, fw, e, fw.len() as int) as u32 },
                    target: Position { id: i as u32 },
                },
            ] + rest
        } else {
            rest
        }
    }
}

/// The little-endian bytes of a run of 64-bit entries, in order.
pub open spec fn spec_u64_seq_bytes(s: Seq<u64>) -> Seq<u8>
    decreases s.len(),
{
    if s.len() == 0 {
        Seq::empty()
    } else {
        spec_u64_seq_bytes(s.drop_last()) + spec_u64_to_le_bytes(s.last())
    }
}

/// Shape of the entry-run encoding: eight bytes per entry, in order.
pub proof fn lemma_u64_seq_bytes(s: Seq<u64>)
    ensures
        spec_u64_seq_bytes(s).len() == 8 * s.len(),
        forall|k: int|
            0 <= k < s.len() ==> spec_u64_seq_bytes(s).subrange(8 * k, 8 * k + 8)
                == spec_u64_to_le_bytes(s[k]),
    decreases s.len(),
{
    lemma_auto_spec_u64_to_from_le_bytes();
    if s.len() > 0 {
        lemma_u64_seq_bytes(s.drop_last());
        let p = spec_u64_seq_bytes(s.drop_last());
        let t = spec_u64_to_le_bytes(s.last());
        let sb = spec_u64_seq_bytes(s);
        assert(sb == p + t);
        assert forall|k: int|
            0 <= k < s.len() implies sb.subrange(8 * k, 8 * k + 8) == spec_u64_to_le_bytes(
            s[k],
        ) by {
            if k < s.len() - 1 {
                assert(sb.subrange(8 * k, 8 * k + 8) =~= p.subrange(8 * k, 8 * k + 8));
                assert(s.drop_last()[k] == s[k]);
            } else {
                assert(sb.subrange(8 * k, 8 * k + 8) =~= t);
            }
        }
    }
}

/// The binary layout of a model: `f_size` and `e_size` as little-endian
/// 32-bit words, then the `t_fe` entries row-major, then the `t_0e` entries.
pub open spec fn spec_model_bytes(m: &Model) -> Seq<u8> {
    spec_u32_to_le_bytes(m.f_size as u32) + spec_u32_to_le_bytes(m.e_size as u32)
        + spec_u64_seq_bytes(m.t_fe@) + spec_u64_seq_bytes(m.t_0e@)
}

/// The inverse reading of the binary layout: the sizes, then exactly the
/// announced number of entries, with nothing left over.
pub open spec fn spec_parse_model(b: Seq<u8>) -> Option<(nat, nat, Seq<u64>, Seq<u64>)> {
    if b.len() < 8 {
        Option::None
    } else {
        let fs = spec_u32_from_le_bytes(b.subrange(0, 4)) as nat;
        let es = spec_u32_from_le_bytes(b.subrange(4, 8)) as nat;
        let cnt = fs * es + es;
        if b.len() == 8 + 8 * cnt {
            Option::Some(
                (
                    fs,
                    es,
                    Seq::new(
                        fs * es,
                        |k: int| spec_u64_from_le_bytes(b.subrange(8 + 8 * k, 8 + 8 * k + 8)),
                    ),
                    Seq::new(
                        es,
                        |k: int|
                            spec_u64_from_le_bytes(
                                b.subrange(
                                    8 + 8 * (fs * es) + 8 * k,
                                    8 + 8 * (fs * es) + 8 * k + 8,
                                ),
                            ),
                    ),
                ),
            )
        } else {
            Option::None
        }
    }
}

impl Model {
    /// Saves a model to its binary form.
    ///
    /// # File format
    ///
    /// - `f_size`: 32-bit word
    /// - `e_size`: 32-bit word
    /// - `t_fe`: `f_size * e_size` 64-bit entries, row-major ascending
    /// - `t_0e`: `e_size` 64-bit entries
    ///
    /// All values are of little endian.
    pub fn save(&self) -> (r: Vec<u8>)
        requires
            self.wf(),
        ensures
            r@ == spec_model_bytes(self),
    {
        let ghost header = spec_u32_to_le_bytes(self.f_size as u32) + spec_u32_to_le_bytes(
            self.e_size as u32,
        );
        let mut out: Vec<u8> = u32_to_le_bytes(self.f_size as u32);
        let mut h2: Vec<u8> = u32_to_le_bytes(self.e_size as u32);
        out.append(&mut h2);
        let n1 = self.t_fe.len();
        proof {
            assert(Seq::<u64>::empty() =~= self.t_fe@.take(0));
            assert(out@ =~= header + spec_u64_seq_bytes(self.t_fe@.take(0)));
        }
        for k in 0..n1
            invariant
                n1 == self.t_fe@.len(),
                header == spec_u32_to_le_bytes(self.f_size as u32) + spec_u32_to_le_bytes(
                    self.e_size as u32,
                ),
                out@ == header + spec_u64_seq_bytes(self.t_fe@.take(k as int)),
        {
            let mut b = u64_to_le_bytes(self.t_fe[k]);
            out.append(&mut b);
            proof {
                assert(self.t_fe@.take(k + 1).drop_last() =~= self.t_fe@.take(k as int));
                assert(self.t_fe@.take(k + 1).last() == self.t_fe@[k as int]);
                assert(out@ =~= header + spec_u64_seq_bytes(self.t_fe@.take(k + 1)));
            }
        }
        let ghost mid = header + spec_u64_seq_bytes(self.t_fe@);
        proof {
            assert(self.t_fe@.take(n1 as int) =~= self.t_fe@);
            assert(Seq::<u64>::empty() =~= self.t_0e@.take(0));
            assert(out@ =~= mid + spec_u64_seq_bytes(self.t_0e@.take(0)));
        }
        let n2 = self.t_0e.len();
        for k in 0..n2
            invariant
                n2 == self.t_0e@.len(),
                mid == spec_u32_to_le_bytes(self.f_size as u32) + spec_u32_to_le_bytes(
                    self.e_size as u32,
                ) + spec_u64_seq_bytes(self.t_fe@),
                out@ == mid + spec_u64_seq_bytes(self.t_0e@.take(k as int)),
        {
            let mut b = u64_to_le_bytes(self.t_0e[k]);
            out.append(&mut b);
            proof {
                assert(self.t_0e@.take(k + 1).drop_last() =~= self.t_0e@.take(k as int));
                assert(self.t_0e@.take(k + 1).last() == self.t_0e@[k as int]);
                assert(out@ =~= mid + spec_u64_seq_bytes(self.t_0e@.take(k + 1)));
            }
        }
        proof {
            assert(self.t_0e@.take(n2 as int) =~= self.t_0e@);
            assert(out@ =~= spec_model_bytes(self));
        }
        out
    }

    /// Loads a model from its binary form; bytes that are not exactly the
    /// layout written by `save` are rejected.
    pub fn load(bytes: &[u8]) -> (r: Result<Model, Error>)
        ensures
            match r {
                Ok(m) => {
                    &&& m.wf()
                    &&& spec_parse_model(bytes@) == Option::Some(
                        (m.f_size as nat, m.e_size as nat, m.t_fe@, m.t_0e@),
                    )
                },
                Err(e) => {
                    &&& spec_parse_model(bytes@) is None
                    &&& e.message@ == "Invalid model data"@
                },
            },
    {
        let n = bytes.len();
        if n < 8 {
            return Err(Error::new("Invalid model data".to_owned()));
        }
        let fs = u32_from_le_bytes(slice_subrange(bytes, 0, 4));
        let es = u32_from_le_bytes(slice_subrange(bytes, 4, 8));
        proof {
            assert((fs as u64) * (es as u64) <= 0xffff_ffff_u64 * 0xffff_ffff_u64)
                by (nonlinear_arith)
                requires
                    fs as u64 <= 0xffff_ffff_u64,
                    es as u64 <= 0xffff_ffff_u64,
            ;
        }
        let fe_cnt: u64 = fs as u64 * es as u64;
        let total: u64 = fe_cnt + es as u64;
        let rem: u64 = n as u64 - 8;
        let ghost cnt: nat = (fs as nat) * (es as nat) + (es as nat);
        proof {
            assert(fe_cnt == (fs as nat) * (es as nat));
            assert(total == cnt);
            assert(rem == 8 * (rem / 8) + rem % 8);
        }
        if rem % 8 != 0 || rem / 8 != total {
            proof {
                assert(n as int != 8 + 8 * cnt);
            }
            return Err(Error::new("Invalid model data".to_owned()));
        }
        proof {
            assert(n as int == 8 + 8 * cnt);
        }
        let fe_count = fe_cnt as usize;
        let e_count = es as usize;
        proof {
            assert(fe_count + e_count == cnt);
        }
        let mut t_fe: Vec<u64> = Vec::new();
        for k in 0..fe_count
            invariant
                n == bytes@.len(),
                n as int == 8 + 8 * (fe_count + e_count),
                t_fe@.len() == k,
                forall|j: int|
                    0 <= j < k ==> #[trigger] t_fe@[j] == spec_u64_from_le_bytes(
                        bytes@.subrange(8 + 8 * j, 8 + 8 * j + 8),
                    ),
        {
            let off = 8 + 8 * k;
            let x = u64_from_le_bytes(slice_subrange(bytes, off, off + 8));
            t_fe.push(x);
        }
        let mut t_0e: Vec<u64> = Vec::new();
        for k in 0..e_count
            invariant
                n == bytes@.len(),
                n as int == 8 + 8 * (fe_count + e_count),
                t_0e@.len() == k,
                forall|j: int|
                    0 <= j < k ==> #[trigger] t_0e@[j] == spec_u64_from_le_bytes(
                        bytes@.subrange(
                            8 + 8 * (fe_count + j),
                            8 + 8 * (fe_count + j) + 8,
                        ),
                    ),
        {
            let off = 8 + 8 * (fe_count + k);
            let x = u64_from_le_bytes(slice_subrange(bytes, off, off + 8));
            t_0e.push(x);
        }
        let m = Model { f_size: fs as usize, e_size: es as usize, t_fe, t_0e };
        proof {
            assert(m.t_fe@.len() == m.f_size * m.e_size);
            let fsn = spec_u32_from_le_bytes(bytes@.subrange(0, 4)) as nat;
            let esn = spec_u32_from_le_bytes(bytes@.subrange(4, 8)) as nat;
            assert(fsn == fs as nat && esn == es as nat);
            assert(m.t_fe@ =~= Seq::new(
                fsn * esn,
                |k: int| spec_u64_from_le_bytes(bytes@.subrange(8 + 8 * k, 8 + 8 * k + 8)),
            ));
            assert(m.t_0e@ =~= Seq::new(
                esn,
                |k: int|
                    spec_u64_from_le_bytes(
                        bytes@.subrange(8 + 8 * (fsn * esn) + 8 * k, 8 + 8 * (fsn * esn) + 8 * k + 8),
                    ),
            ));
        }
        Ok(m)
    }
}

/// Law: loading the saved bytes of a well-formed model reads back exactly
/// its sizes and its tables, bit for bit.
pub proof fn lemma_model_roundtrip(m: &Model)
    requires
        m.wf(),
    ensures
        spec_parse_model(spec_model_bytes(m)) == Option::Some(
            (m.f_size as nat, m.e_size as nat, m.t_fe@, m.t_0e@),
        ),
{
    lemma_auto_spec_u32_to_from_le_bytes();
    lemma_auto_spec_u64_to_from_le_bytes();
    lemma_u64_seq_bytes(m.t_fe@);
    lemma_u64_seq_bytes(m.t_0e@);
    let h1 = spec_u32_to_le_bytes(m.f_size as u32);
    let h2 = spec_u32_to_le_bytes(m.e_size as u32);
    let b1 = spec_u64_seq_bytes(m.t_fe@);
    let b2 = spec_u64_seq_bytes(m.t_0e@);
    let b = spec_model_bytes(m);
    let fe: int = m.t_fe@.len() as int;
    let eo: int = m.t_0e@.len() as int;
    assert(b.len() == 8 + 8 * fe + 8 * eo);
    assert(b.subrange(0, 4) =~= h1);
    assert(b.subrange(4, 8) =~= h2);
    let fsn = spec_u32_from_le_bytes(b.subrange(0, 4)) as nat;
    let esn = spec_u32_from_le_bytes(b.subrange(4, 8)) as nat;
    assert(fsn == m.f_size as nat);
    assert(esn == m.e_size as nat);
    assert(fsn * esn == fe);
    assert(b.len() == 8 + 8 * (fsn * esn + esn));
    assert forall|k: int| 0 <= k < fe implies b.subrange(8 + 8 * k, 8 + 8 * k + 8)
        == spec_u64_to_le_bytes(m.t_fe@[k]) by {
        assert(b.subrange(8 + 8 * k, 8 + 8 * k + 8) =~= b1.subrange(8 * k, 8 * k + 8));
    }
    assert forall|k: int| 0 <= k < eo implies b.subrange(8 + 8 * fe + 8 * k, 8 + 8 * fe + 8 * k + 8)
        == spec_u64_to_le_bytes(m.t_0e@[k]) by {
        assert(b.subrange(8 + 8 * fe + 8 * k, 8 + 8 * fe + 8 * k + 8) =~= b2.subrange(
            8 * k,
            8 * k + 8,
        ));
    }
    match spec_parse_model(b) {
        Option::Some(p) => {
            assert(p.2 =~= m.t_fe@);
            assert(p.3 =~= m.t_0e@);
        },
        Option::None => {
            assert(false);
        },
    }
}

/// Law: for a sentence pair with no source words, no edge is ever emitted.
pub proof fn lemma_viterbi_no_source(m: &Model, fw: Seq<u32>, ew: Seq<u32>, i: int)
    requires
        fw.len() == 0,
    ensures
        spec_viterbi_edges(m, fw, ew, i) == Seq::<Edge>::empty(),
    decreases ew.len() - i,
{
    if 0 <= i < ew.len() {
        lemma_viterbi_no_source(m, fw, ew, i + 1);
    }
}

/// Law: the decoded alignment is well shaped — every edge points inside the
/// sentence pair, and the edges come in strictly ascending target order, so
/// no target position appears in more than one edge.
pub proof fn lemma_viterbi_edges_shape(m: &Model, fw: Seq<u32>, ew: Seq<u32>, i: int)
    requires
        0 <= i,
        fw.len() <= u32::MAX,
        ew.len() <= u32::MAX,
    ensures
        ({
            let es = spec_viterbi_edges(m, fw, ew, i);
            &&& forall|k: int| 0 <= k < es.len() ==> i <= (#[trigger] es[k]).target.id < ew.len()
            &&& forall|k: int| 0 <= k < es.len() ==> (#[trigger] es[k]).source.id < fw.len()
            &&& forall|k1: int, k2: int|
                0 <= k1 < k2 < es.len() ==> es[k1].target.id < es[k2].target.id
        }),
    decreases ew.len() - i,
{
    let es = spec_viterbi_edges(m, fw, ew, i);
    if i < ew.len() {
        lemma_viterbi_edges_shape(m, fw, ew, i + 1);
        let rest = spec_viterbi_edges(m, fw, ew, i + 1);
        let e = ew[i] as int;
        if fw.len() > 0 && m.spec_t_fe(fw[spec_best_prefix(m, fw, e, fw.len() as int)] as int, e)
            > m.spec_t_0e(e) {
            let b = spec_best_prefix(m, fw, e, fw.len() as int);
            lemma_best_prefix_bound(m, fw, e, fw.len() as int);
            let edge = Edge {
                source: Position { id: b as u32 },
                target: Position { id: i as u32 },
            };
            assert(es == seq![edge] + rest);
            assert(es[0] == edge);
            assert forall|k: int|
                0 <= k < es.len() implies i <= (#[trigger] es[k]).target.id < ew.len() by {
                if k > 0 {
                    assert(es[k] == rest[k - 1]);
                }
            }
            assert forall|k: int|
                0 <= k < es.len() implies (#[trigger] es[k]).source.id < fw.len() by {
                if k > 0 {
                    assert(es[k] == rest[k - 1]);
                }
            }
            assert forall|k1: int, k2: int|
                0 <= k1 < k2 < es.len() implies es[k1].target.id < es[k2].target.id by {
                assert(es[k2] == rest[k2 - 1]);
                assert(i + 1 <= rest[k2 - 1].target.id);
                if k1 > 0 {
                    assert(es[k1] == rest[k1 - 1]);
                }
            }
        } else {
            assert(es == rest);
        }
    }
}

/// Law: with exactly one source word, every target word aligns either to
/// that word (position 0) or to NULL, according to whether its translation
/// entry strictly exceeds the NULL entry.
pub proof fn lemma_viterbi_single_source(m: &Model, fw: Seq<u32>, ew: Seq<u32>, i: int)
    requires
        fw.len() == 1,
        ew.len() <= u32::MAX,
        0 <= i,
    ensures
        ({
            let es = spec_viterbi_edges(m, fw, ew, i);
            &&& forall|k: int| 0 <= k < es.len() ==> (#[trigger] es[k]).source.id == 0
            &&& forall|k: int|
                0 <= k < es.len() ==> i <= (#[trigger] es[k]).target.id < ew.len()
                    && m.spec_t_fe(fw[0] as int, ew[es[k].target.id as int] as int) > m.spec_t_0e(
                    ew[es[k].target.id as int] as int,
                )
            &&& forall|t: int|
                i <= t < ew.len() && m.spec_t_fe(fw[0] as int, #[trigger] ew[t] as int)
                    > m.spec_t_0e(ew[t] as int) ==> es.contains(
                    Edge { source: Position { id: 0 }, target: Position { id: t as u32 } },
                )
        }),
    decreases ew.len() - i,
{
    let es = spec_viterbi_edges(m, fw, ew, i);
    if i >= ew.len() {
    } else {
        lemma_viterbi_single_source(m, fw, ew, i + 1);
        let rest = spec_viterbi_edges(m, fw, ew, i + 1);
        let e = ew[i] as int;
        assert(spec_best_prefix(m, fw, e, 1) == 0);
        if m.spec_t_fe(fw[0] as int, e) > m.spec_t_0e(e) {
            let edge = Edge { source: Position { id: 0 }, target: Position { id: i as u32 } };
            assert(es == seq![edge] + rest);
            assert(es[0] == edge);
            assert forall|k: int| 0 <= k < es.len() implies (#[trigger] es[k]).source.id == 0 by {
                if k > 0 {
                    assert(es[k] == rest[k - 1]);
                }
            }
            assert forall|k: int|
                0 <= k < es.len() implies i <= (#[trigger] es[k]).target.id < ew.len()
                    && m.spec_t_fe(fw[0] as int, ew[es[k].target.id as int] as int) > m.spec_t_0e(
                    ew[es[k].target.id as int] as int,
                ) by {
                if k > 0 {
                    assert(es[k] == rest[k - 1]);
                } else {
                    assert(es[0].target.id == i as u32);
                }
            }
            assert forall|t: int|
                i <= t < ew.len() && m.spec_t_fe(fw[0] as int, #[trigger] ew[t] as int)
                    > m.spec_t_0e(ew[t] as int) implies es.contains(
                Edge { source: Position { id: 0 }, target: Position { id: t as u32 } },
            ) by {
                let want = Edge { source: Position { id: 0 }, target: Position { id: t as u32 } };
                if t == i {
                    assert(es[0] == want);
                } else {
                    assert(rest.contains(want));
                    let k = choose|k: int| 0 <= k < rest.len() && rest[k] == want;
                    assert(es[k + 1] == want);
                }
            }
        } else {
            assert(es == rest);
            assert forall|t: int|
                i <= t < ew.len() && m.spec_t_fe(fw[0] as int, #[trigger] ew[t] as int)
                    > m.spec_t_0e(ew[t] as int) implies es.contains(
                Edge { source: Position { id: 0 }, target: Position { id: t as u32 } },
            ) by {
                assert(t != i);
            }
        }
    }
}

/// Law: on a model whose entries all hold one and the same pattern (the
/// uniform initialization), the best source entry only ever ties the NULL
/// entry, and the strict comparison emits no edge for any sentence pair.
pub proof fn lemma_viterbi_uniform(m: &Model, fw: Seq<u32>, ew: Seq<u32>, i: int, c: u64)
    requires
        m.wf(),
        forall|k: int| 0 <= k < m.t_fe@.len() ==> #[trigger] m.t_fe@[k] == c,
        forall|k: int| 0 <= k < m.t_0e@.len() ==> #[trigger] m.t_0e@[k] == c,
        forall|k: int| 0 <= k < fw.len() ==> #[trigger] fw[k] < m.f_size,
        forall|k: int| 0 <= k < ew.len() ==> #[trigger] ew[k] < m.e_size,
    ensures
        spec_viterbi_edges(m, fw, ew, i) == Seq::<Edge>::empty(),
    decreases ew.len() - i,
{
    if 0 <= i < ew.len() {
        lemma_viterbi_uniform(m, fw, ew, i + 1, c);
        if fw.len() > 0 {
            let e = ew[i] as int;
            lemma_best_prefix_bound(m, fw, e, fw.len() as int);
            let b = spec_best_prefix(m, fw, e, fw.len() as int);
            lemma_row_major(fw[b] as int, e, m.f_size as int, m.e_size as int);
            assert(m.spec_t_fe(fw[b] as int, e) == c);
            assert(m.spec_t_0e(e) == c);
        }
    }
}

} // verus!
