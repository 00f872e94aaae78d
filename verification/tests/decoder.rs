use walign::corpus::Corpus;
use walign::corpus::Sentence;
use walign::corpus::SentencePair;
use walign::corpus::WordId;
use walign::model::Model;

fn bits(x: f64) -> u64 {
    x.to_bits()
}

fn sentence(ids: &[u32]) -> Sentence {
    Sentence { words: ids.iter().map(|&id| WordId::new(id)).collect() }
}

fn pair(source: &[u32], target: &[u32]) -> SentencePair {
    SentencePair { source: sentence(source), target: sentence(target) }
}

#[test]
fn no_source_words_emit_no_edges() {
    let m = Model {
        f_size: 1,
        e_size: 2,
        t_fe: vec![bits(0.9), bits(0.9)],
        t_0e: vec![bits(0.0), bits(0.0)],
    };
    let a = m.make_viterbi_alignment(&pair(&[], &[0, 1, 0]));
    assert_eq!(a.edges.len(), 0);
    assert_eq!(a.to_text(), "");
}

#[test]
fn single_source_word_aligns_or_goes_to_null() {
    // Two target words: for the first, t_fe > t_0e; for the second, not.
    let m = Model {
        f_size: 1,
        e_size: 2,
        t_fe: vec![bits(0.6), bits(0.2)],
        t_0e: vec![bits(0.3), bits(0.5)],
    };
    let a = m.make_viterbi_alignment(&pair(&[0], &[0, 1]));
    assert_eq!(a.to_text(), "0-0");
}

#[test]
fn strict_comparison_leaves_ties_to_null() {
    let m = Model { f_size: 1, e_size: 1, t_fe: vec![bits(0.4)], t_0e: vec![bits(0.4)] };
    let a = m.make_viterbi_alignment(&pair(&[0], &[0]));
    assert_eq!(a.edges.len(), 0);
}

#[test]
fn earliest_source_position_wins_ties() {
    // Source words 1 and 0: both rows give the same probability for the
    // target word, so the earliest source position (0) must be kept.
    let m = Model {
        f_size: 2,
        e_size: 1,
        t_fe: vec![bits(0.7), bits(0.7)],
        t_0e: vec![bits(0.1)],
    };
    let a = m.make_viterbi_alignment(&pair(&[1, 0], &[0]));
    assert_eq!(a.to_text(), "0-0");
}

#[test]
fn best_source_position_is_chosen() {
    let m = Model {
        f_size: 3,
        e_size: 2,
        // rows: f=0 -> [0.1, 0.2], f=1 -> [0.8, 0.1], f=2 -> [0.3, 0.6]
        t_fe: vec![bits(0.1), bits(0.2), bits(0.8), bits(0.1), bits(0.3), bits(0.6)],
        t_0e: vec![bits(0.2), bits(0.2)],
    };
    // Sentence source positions: 0 -> f=0, 1 -> f=1, 2 -> f=2.
    let a = m.make_viterbi_alignment(&pair(&[0, 1, 2], &[0, 1]));
    assert_eq!(a.to_text(), "1-0 2-1");
}

#[test]
fn uniform_model_emits_no_edges_anywhere() {
    let lines: Vec<Vec<String>> = "the cat ||| le chat\nthe dog ||| le chien\n"
        .lines()
        .map(|l| l.split_whitespace().map(|w| w.to_owned()).collect())
        .collect();
    let corpus = Corpus::load(&lines).expect("corpus must load");
    let e_size = corpus.target_vocab.len();
    let fill = bits(1.0 / (e_size as f64 + 1.0));
    let m = Model::uniform(corpus.source_vocab.len(), e_size, fill);
    for p in &corpus.pairs {
        let a = m.make_viterbi_alignment(p);
        assert_eq!(a.edges.len(), 0);
    }
    assert_eq!(m.viterbi_text(&corpus), "\n\n");
}
