use walign::vocabulary::Vocabulary;

#[test]
fn get_or_add_id_is_idempotent() {
    let mut v = Vocabulary::new();
    let a = v.get_or_add_id("the");
    let b = v.get_or_add_id("cat");
    let a2 = v.get_or_add_id("the");
    let b2 = v.get_or_add_id("cat");
    assert_eq!(a.id, 0);
    assert_eq!(b.id, 1);
    assert_eq!(a2.id, 0);
    assert_eq!(b2.id, 1);
    assert_eq!(v.len(), 2);
}

#[test]
fn ids_are_dense_in_first_seen_order() {
    let mut v = Vocabulary::new();
    let words = ["d", "b", "d", "a", "b", "c"];
    let ids: Vec<u32> = words.iter().map(|w| v.get_or_add_id(w).id).collect();
    assert_eq!(ids, vec![0, 1, 0, 2, 1, 3]);
    assert_eq!(v.len(), 4);
    assert_eq!(v.word(0).as_str(), "d");
    assert_eq!(v.word(1).as_str(), "b");
    assert_eq!(v.word(2).as_str(), "a");
    assert_eq!(v.word(3).as_str(), "c");
}

#[test]
fn size_counts_distinct_words() {
    let mut v = Vocabulary::new();
    for w in ["x", "y", "x", "x", "z", "y"] {
        v.get_or_add_id(w);
    }
    assert_eq!(v.len(), 3);
}

#[test]
fn save_writes_count_then_words() {
    let mut v = Vocabulary::new();
    v.get_or_add_id("the");
    v.get_or_add_id("cat");
    assert_eq!(v.save(), "2\nthe\ncat\n");
}

#[test]
fn save_of_empty_vocabulary() {
    let v = Vocabulary::new();
    assert_eq!(v.save(), "0\n");
}

#[test]
fn save_load_round_trip() {
    let mut v = Vocabulary::new();
    for w in ["le", "chat", "chien"] {
        v.get_or_add_id(w);
    }
    let text = v.save();
    let u = Vocabulary::load(&text).expect("saved vocabulary must load");
    assert_eq!(u.len(), 3);
    assert_eq!(u.word(0).as_str(), "le");
    assert_eq!(u.word(1).as_str(), "chat");
    assert_eq!(u.word(2).as_str(), "chien");
    // Re-saving reproduces byte-identical output.
    assert_eq!(u.save(), text);
}

#[test]
fn load_rejects_count_mismatch() {
    assert!(Vocabulary::load("2\nthe\n").is_err());
    assert!(Vocabulary::load("0\nthe\n").is_err());
}

#[test]
fn load_rejects_bad_count_line() {
    assert!(Vocabulary::load("x\nthe\n").is_err());
    assert!(Vocabulary::load("01\nthe\n").is_err());
    assert!(Vocabulary::load("\nthe\n").is_err());
    assert!(Vocabulary::load("").is_err());
}

#[test]
fn load_rejects_unterminated_last_line() {
    assert!(Vocabulary::load("1\nthe").is_err());
}

#[test]
fn load_rejects_duplicate_words() {
    let err = Vocabulary::load("2\nthe\nthe\n").expect_err("duplicate word");
    assert_eq!(err.message, "Invalid vocabulary data");
}

#[test]
fn load_accepts_exact_form() {
    let v = Vocabulary::load("1\nthe\n").expect("valid vocabulary text");
    assert_eq!(v.len(), 1);
    assert_eq!(v.word(0).as_str(), "the");
}
