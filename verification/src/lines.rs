//! Newline-terminated line splitting and joining, the backbone of the
//! vocabulary text codec. A valid text is a run of lines, each closed by a
//! newline; splitting and joining are inverse on such texts.

use vstd::prelude::*;
use vstd::string::StrSliceExecFns;
use vstd::string::StringExecFns;

verus! {

/// Joins lines into a text, closing every line with a newline.
pub open spec fn spec_join_lines(ls: Seq<Seq<char>>) -> Seq<char>
    decreases ls.len(),
{
    if ls.len() == 0 {
        Seq::empty()
    } else {
        ls[0] + seq!['\n'] + spec_join_lines(ls.drop_first())
    }
}

/// Splits a text into its newline-closed lines; a trailing run without a
/// newline makes the text invalid.
pub open spec fn spec_split_lines(t: Seq<char>) -> Option<Seq<Seq<char>>>
    decreases t.len(),
{
    if t.len() == 0 {
        Option::Some(Seq::empty())
    } else {
        match t.index_of_first('\n') {
            Option::None => Option::None,
            Option::Some(i) => if 0 <= i < t.len() {
                match spec_split_lines(t.skip(i + 1)) {
                    Option::None => Option::None,
                    Option::Some(rest) => Option::Some(seq![t.take(i)] + rest),
                }
            } else {
                Option::None
            },
        }
    }
}

/// No line holds a newline.
pub open spec fn newline_free(ls: Seq<Seq<char>>) -> bool {
    forall|i: int| 0 <= i < ls.len() ==> !(#[trigger] ls[i]).contains('\n')
}

/// Splitting inverts joining for newline-free lines.
pub proof fn lemma_split_join(ls: Seq<Seq<char>>)
    requires
        newline_free(ls),
    ensures
        spec_split_lines(spec_join_lines(ls)) == Option::Some(ls),
    decreases ls.len(),
{
    if ls.len() > 0 {
        let t = spec_join_lines(ls);
        let head = ls[0];
        let rest_t = spec_join_lines(ls.drop_first());
        assert(t == head + seq!['\n'] + rest_t);
        let hl = head.len() as int;
        assert(t[hl] == '\n');
        assert(forall|k: int| 0 <= k < hl ==> t[k] == head[k]);
        assert(!head.contains('\n'));
        assert forall|k: int| 0 <= k < hl implies t[k] != '\n' by {
            if t[k] == '\n' {
                assert(head[k] == '\n');
                assert(head.contains('\n'));
            }
        }
        t.index_of_first_ensures('\n');
        assert(t.contains('\n')) by {
            assert(t[hl] == '\n');
        }
        let i = t.index_of_first('\n').unwrap();
        assert(t[i] == '\n');
        assert(i == hl);
        assert(t.take(hl) =~= head);
        assert(t.skip(hl + 1) =~= rest_t);
        assert(newline_free(ls.drop_first())) by {
            assert(forall|j: int|
                0 <= j < ls.drop_first().len() ==> ls.drop_first()[j] == ls[j + 1]);
        }
        lemma_split_join(ls.drop_first());
        assert(seq![t.take(hl)] + ls.drop_first() =~= ls);
    }
}

/// Joining inverts splitting: a text that splits is exactly its lines, each
/// newline-free, joined back.
pub proof fn lemma_join_split(t: Seq<char>)
    ensures
        match spec_split_lines(t) {
            Option::Some(ls) => spec_join_lines(ls) == t && newline_free(ls),
            Option::None => true,
        },
    decreases t.len(),
{
    if t.len() > 0 {
        t.index_of_first_ensures('\n');
        match t.index_of_first('\n') {
            Option::None => {},
            Option::Some(i) => {
                if 0 <= i < t.len() {
                    lemma_join_split(t.skip(i + 1));
                    match spec_split_lines(t.skip(i + 1)) {
                        Option::None => {},
                        Option::Some(rest) => {
                            let ls = seq![t.take(i)] + rest;
                            assert(ls[0] == t.take(i));
                            assert(ls.drop_first() =~= rest);
                            assert(!t.take(i).contains('\n')) by {
                                if t.take(i).contains('\n') {
                                    let k = choose|k: int|
                                        0 <= k < i && t.take(i)[k] == '\n';
                                    assert(t[k] == '\n');
                                }
                            }
                            assert(newline_free(ls)) by {
                                assert(forall|j: int|
                                    1 <= j < ls.len() ==> ls[j] == rest[j - 1]);
                            }
                            assert(spec_join_lines(ls) == t.take(i) + seq!['\n'] + t.skip(i + 1));
                            assert(t.take(i) + seq!['\n'] + t.skip(i + 1) =~= t) by {
                                assert(t[i] == '\n');
                            }
                        },
                    }
                }
            },
        }
    }
}

/// Joining distributes over concatenation of line runs.
pub proof fn lemma_join_append(a: Seq<Seq<char>>, b: Seq<Seq<char>>)
    ensures
        spec_join_lines(a + b) == spec_join_lines(a) + spec_join_lines(b),
    decreases a.len(),
{
    if a.len() == 0 {
        assert(a + b =~= b);
        assert(spec_join_lines(a) =~= Seq::<char>::empty());
        assert(spec_join_lines(a) + spec_join_lines(b) =~= spec_join_lines(b));
    } else {
        assert((a + b)[0] == a[0]);
        assert((a + b).drop_first() =~= a.drop_first() + b);
        lemma_join_append(a.drop_first(), b);
        assert(a[0] + seq!['\n'] + (spec_join_lines(a.drop_first()) + spec_join_lines(b)) =~= (a[0]
            + seq!['\n'] + spec_join_lines(a.drop_first())) + spec_join_lines(b));
    }
}

/// Splits a text into its newline-closed lines.
pub fn split_lines(text: &str) -> (r: Option<Vec<String>>)
    ensures
        match r {
            Option::Some(lines) => spec_split_lines(text@) == Option::Some(lines.deep_view()),
            Option::None => spec_split_lines(text@) is None,
        },
{
    let len = text.unicode_len();
    let mut lines: Vec<String> = Vec::new();
    let mut start: usize = 0;
    let mut i: usize = 0;
    proof {
        assert(text@.skip(0) =~= text@);
        assert(lines.deep_view() =~= Seq::<Seq<char>>::empty());
        match spec_split_lines(text@) {
            Option::Some(rest) => {
                assert(Seq::<Seq<char>>::empty() + rest =~= rest);
            },
            Option::None => {},
        }
    }
    while i < len
        invariant
            len == text@.len(),
            start <= i <= len,
            forall|k: int| start <= k < i ==> text@[k] != '\n',
            match spec_split_lines(text@.skip(start as int)) {
                Option::Some(rest) => spec_split_lines(text@) == Option::Some(
                    lines.deep_view() + rest,
                ),
                Option::None => spec_split_lines(text@) is None,
            },
        decreases len - i,
    {
        let c = text.get_char(i);
        if c == '\n' {
            let ghost lines0 = lines.deep_view();
            let line = text.substring_char(start, i);
            lines.push(line.to_owned());
            proof {
                let tail = text@.skip(start as int);
                tail.index_of_first_ensures('\n');
                assert(tail[i - start] == '\n');
                assert(tail.contains('\n')) by {
                    assert(tail[i - start] == '\n');
                }
                let fi = tail.index_of_first('\n').unwrap();
                assert(tail[fi] == '\n');
                assert forall|k: int| 0 <= k < i - start implies tail[k] != '\n' by {
                    assert(tail[k] == text@[start + k]);
                }
                assert(fi == i - start);
                assert(tail.take(fi) =~= text@.subrange(start as int, i as int));
                assert(tail.skip(fi + 1) =~= text@.skip(i as int + 1));
                assert(lines.deep_view() =~= lines0.push(text@.subrange(start as int, i as int)));
                match spec_split_lines(text@.skip(i as int + 1)) {
                    Option::Some(rest2) => {
                        assert(spec_split_lines(tail) == Option::Some(
                            seq![tail.take(fi)] + rest2,
                        ));
                        assert(lines0 + (seq![tail.take(fi)] + rest2) =~= lines.deep_view()
                            + rest2);
                    },
                    Option::None => {
                        assert(spec_split_lines(tail) is None);
                    },
                }
            }
            start = i + 1;
        }
        i = i + 1;
    }
    if start < len {
        proof {
            let tail = text@.skip(start as int);
            tail.index_of_first_ensures('\n');
            match tail.index_of_first('\n') {
                Option::None => {},
                Option::Some(fi) => {
                    assert(tail[fi] == '\n');
                    assert(tail[fi] == text@[start + fi]);
                },
            }
            assert(spec_split_lines(tail) is None);
        }
        return Option::None;
    }
    proof {
        assert(text@.skip(start as int) =~= Seq::<char>::empty());
        assert(lines.deep_view() + Seq::<Seq<char>>::empty() =~= lines.deep_view());
    }
    Option::Some(lines)
}

} // verus!
