use walign::corpus::Corpus;

fn tokenize(text: &str) -> Vec<Vec<String>> {
    text.lines()
        .map(|line| line.split_whitespace().map(|w| w.to_owned()).collect())
        .collect()
}

#[test]
fn load_builds_ids_in_first_seen_order() {
    let lines = tokenize("the cat ||| le chat\nthe dog ||| le chien\n");
    let corpus = Corpus::load(&lines).expect("corpus must load");
    assert_eq!(corpus.source_vocab.len(), 3);
    assert_eq!(corpus.target_vocab.len(), 3);
    assert_eq!(corpus.pairs.len(), 2);

    let ids = |s: &walign::corpus::Sentence| s.words.iter().map(|w| w.id).collect::<Vec<u32>>();
    assert_eq!(ids(&corpus.pairs[0].source), vec![0, 1]);
    assert_eq!(ids(&corpus.pairs[0].target), vec![0, 1]);
    assert_eq!(ids(&corpus.pairs[1].source), vec![0, 2]);
    assert_eq!(ids(&corpus.pairs[1].target), vec![0, 2]);

    assert_eq!(corpus.source_vocab.word(0).as_str(), "the");
    assert_eq!(corpus.source_vocab.word(1).as_str(), "cat");
    assert_eq!(corpus.source_vocab.word(2).as_str(), "dog");
    assert_eq!(corpus.target_vocab.word(0).as_str(), "le");
    assert_eq!(corpus.target_vocab.word(1).as_str(), "chat");
    assert_eq!(corpus.target_vocab.word(2).as_str(), "chien");
}

#[test]
fn load_reports_missing_separator_with_line_number() {
    let lines = tokenize("a ||| b\nc d\ne ||| f\n");
    let err = Corpus::load(&lines).expect_err("line 2 has no separator");
    assert_eq!(err.message, "Separator \"|||\" not found in line 2");
}

#[test]
fn load_uses_first_separator() {
    let lines = tokenize("a ||| b ||| c\n");
    let corpus = Corpus::load(&lines).expect("corpus must load");
    assert_eq!(corpus.pairs[0].source.words.len(), 1);
    assert_eq!(corpus.pairs[0].target.words.len(), 3);
    assert_eq!(corpus.target_vocab.word(1).as_str(), "|||");
}

#[test]
fn load_allows_empty_sides() {
    let lines = tokenize("||| le\nla |||\n");
    let corpus = Corpus::load(&lines).expect("corpus must load");
    assert_eq!(corpus.pairs[0].source.words.len(), 0);
    assert_eq!(corpus.pairs[0].target.words.len(), 1);
    assert_eq!(corpus.pairs[1].source.words.len(), 1);
    assert_eq!(corpus.pairs[1].target.words.len(), 0);
}

#[test]
fn load_of_empty_corpus() {
    let lines: Vec<Vec<String>> = Vec::new();
    let corpus = Corpus::load(&lines).expect("empty corpus must load");
    assert_eq!(corpus.pairs.len(), 0);
    assert_eq!(corpus.source_vocab.len(), 0);
    assert_eq!(corpus.target_vocab.len(), 0);
}

#[test]
fn encode_then_decode_reproduces_words() {
    let lines = tokenize("the cat saw the dog ||| le chat\n");
    let corpus = Corpus::load(&lines).expect("corpus must load");
    let decoded = corpus.pairs[0].source.decode(&corpus.source_vocab);
    assert_eq!(decoded, vec!["the", "cat", "saw", "the", "dog"]);
    let decoded_t = corpus.pairs[0].target.decode(&corpus.target_vocab);
    assert_eq!(decoded_t, vec!["le", "chat"]);
}
