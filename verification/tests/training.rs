//! End-to-end scenarios. The expectation-maximization arithmetic works on
//! floating-point numbers, which the verified library cannot hold, so these
//! tests run the same epsilon-smoothed update the application performs and
//! feed the resulting bit patterns through the library's model, decoder and
//! codec.

use walign::corpus::Corpus;
use walign::model::Model;

const EPS: f64 = 1e-30;

fn tokenize(text: &str) -> Vec<Vec<String>> {
    text.lines()
        .map(|line| line.split_whitespace().map(|w| w.to_owned()).collect())
        .collect()
}

/// One EM training run over the corpus: uniform initialization, then
/// `iteration` epochs of count accumulation and normalization.
fn train_tables(corpus: &Corpus, iteration: u32) -> (Vec<f64>, Vec<f64>) {
    let f_size = corpus.source_vocab.len();
    let e_size = corpus.target_vocab.len();
    let t_init = 1.0 / (e_size as f64 + 1.0);
    let mut t_fe = vec![t_init; f_size * e_size];
    let mut t_0e = vec![t_init; e_size];

    for _epoch in 0..iteration {
        let mut c_fe = vec![0.0f64; f_size * e_size];
        let mut c_0e = vec![0.0f64; e_size];
        let mut c_f = vec![EPS; f_size];
        let mut c_0 = EPS;

        for pair in &corpus.pairs {
            let f_words: Vec<usize> = pair.source.words.iter().map(|w| w.id as usize).collect();
            let e_words: Vec<usize> = pair.target.words.iter().map(|w| w.id as usize).collect();

            let mut c_e = vec![EPS; e_size];
            for &e in &e_words {
                for &f in &f_words {
                    c_e[e] += t_fe[f * e_size + e];
                }
                c_e[e] += t_0e[e];
            }

            for &e in &e_words {
                for &f in &f_words {
                    let delta = t_fe[f * e_size + e] / c_e[e];
                    c_fe[f * e_size + e] += delta;
                    c_f[f] += delta;
                }
                let delta = t_0e[e] / c_e[e];
                c_0e[e] += delta;
                c_0 += delta;
            }
        }

        for e in 0..e_size {
            for f in 0..f_size {
                t_fe[f * e_size + e] = c_fe[f * e_size + e] / c_f[f];
            }
            t_0e[e] = c_0e[e] / c_0;
        }
    }

    (t_fe, t_0e)
}

fn to_model(corpus: &Corpus, t_fe: &[f64], t_0e: &[f64]) -> Model {
    Model {
        f_size: corpus.source_vocab.len(),
        e_size: corpus.target_vocab.len(),
        t_fe: t_fe.iter().map(|v| v.to_bits()).collect(),
        t_0e: t_0e.iter().map(|v| v.to_bits()).collect(),
    }
}

#[test]
fn zero_iterations_leave_the_uniform_model() {
    let lines = tokenize("the cat ||| le chat\nthe dog ||| le chien\n");
    let corpus = Corpus::load(&lines).expect("corpus must load");
    let (t_fe, t_0e) = train_tables(&corpus, 0);
    // E = 3 distinct target words, so every entry is 1 / (E + 1) = 0.25.
    assert!(t_fe.iter().all(|&v| v == 0.25));
    assert!(t_0e.iter().all(|&v| v == 0.25));
    // The untrained model aligns nothing: every comparison is a tie and the
    // decoding rule is strictly greater-than.
    let m = to_model(&corpus, &t_fe, &t_0e);
    for p in &corpus.pairs {
        assert_eq!(m.make_viterbi_alignment(p).edges.len(), 0);
    }
}

#[test]
fn training_raises_cooccurring_pairs() {
    let lines = tokenize("the cat ||| le chat\nthe dog ||| le chien\n");
    let corpus = Corpus::load(&lines).expect("corpus must load");
    let (t0, _) = train_tables(&corpus, 0);
    let (t5, _) = train_tables(&corpus, 5);
    let e_size = corpus.target_vocab.len();
    // "the" and "le" co-occur in both pairs; their probability must rise
    // strictly above its untrained value.
    let the = 0usize; // first source word seen
    let le = 0usize; // first target word seen
    assert!(t5[the * e_size + le] > t0[the * e_size + le]);
}

#[test]
fn epoch_normalization_keeps_rows_summing_to_one() {
    let lines = tokenize("the cat ||| le chat\nthe dog ||| le chien\n");
    let corpus = Corpus::load(&lines).expect("corpus must load");
    let (t_fe, t_0e) = train_tables(&corpus, 3);
    let f_size = corpus.source_vocab.len();
    let e_size = corpus.target_vocab.len();
    for f in 0..f_size {
        let sum: f64 = (0..e_size).map(|e| t_fe[f * e_size + e]).sum();
        assert!((sum - 1.0).abs() < 1e-9, "row {} sums to {}", f, sum);
    }
    let sum0: f64 = t_0e.iter().sum();
    assert!((sum0 - 1.0).abs() < 1e-9);
}

#[test]
fn training_is_deterministic_bit_for_bit() {
    let lines = tokenize("the cat ||| le chat\nthe dog ||| le chien\n");
    let corpus = Corpus::load(&lines).expect("corpus must load");
    let (a_fe, a_0e) = train_tables(&corpus, 7);
    let (b_fe, b_0e) = train_tables(&corpus, 7);
    let bits = |v: &[f64]| v.iter().map(|x| x.to_bits()).collect::<Vec<u64>>();
    assert_eq!(bits(&a_fe), bits(&b_fe));
    assert_eq!(bits(&a_0e), bits(&b_0e));
}

#[test]
fn trained_model_survives_the_codec_and_decodes() {
    let lines = tokenize("the cat ||| le chat\nthe dog ||| le chien\n");
    let corpus = Corpus::load(&lines).expect("corpus must load");
    let (t_fe, t_0e) = train_tables(&corpus, 5);
    let m = to_model(&corpus, &t_fe, &t_0e);
    let saved = m.save();
    let loaded = Model::load(saved.as_slice()).expect("saved model must load");
    assert_eq!(loaded.t_fe, m.t_fe);
    assert_eq!(loaded.t_0e, m.t_0e);
    let text = loaded.viterbi_text(&corpus);
    assert_eq!(text.lines().count(), 2);
}
