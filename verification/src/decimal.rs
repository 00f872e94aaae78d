//! Decimal rendering and parsing of unsigned integers, character by
//! character, used by the text codecs and the alignment output.

use vstd::prelude::*;
use vstd::string::StrSliceExecFns;
use vstd::string::StringExecFns;

verus! {

/// The character for one decimal digit.
pub open spec fn spec_digit_char(d: nat) -> char {
    if d == 0 {
        '0'
    } else if d == 1 {
        '1'
    } else if d == 2 {
        '2'
    } else if d == 3 {
        '3'
    } else if d == 4 {
        '4'
    } else if d == 5 {
        '5'
    } else if d == 6 {
        '6'
    } else if d == 7 {
        '7'
    } else if d == 8 {
        '8'
    } else {
        '9'
    }
}

/// Whether a character is a decimal digit.
pub open spec fn spec_is_digit(c: char) -> bool {
    48 <= c as int <= 57
}

/// The value of one digit character.
pub open spec fn spec_digit_val(c: char) -> nat {
    (c as int - 48) as nat
}

/// The canonical decimal rendering of a number (no leading zeros).
pub open spec fn spec_decimal(n: nat) -> Seq<char>
    decreases n,
{
    if n < 10 {
        seq![spec_digit_char(n)]
    } else {
        spec_decimal(n / 10).push(spec_digit_char(n % 10))
    }
}

/// Every position holds a decimal digit.
pub open spec fn all_digits(s: Seq<char>) -> bool {
    forall|i: int| 0 <= i < s.len() ==> spec_is_digit(#[trigger] s[i])
}

/// The shape of a canonical decimal rendering: nonempty, all digits, and no
/// leading zero.
pub open spec fn canonical_decimal(s: Seq<char>) -> bool {
    &&& s.len() >= 1
    &&& all_digits(s)
    &&& s.len() > 1 ==> s[0] != '0'
}

/// The number a digit string stands for.
pub open spec fn spec_decimal_val(s: Seq<char>) -> nat
    decreases s.len(),
{
    if s.len() == 0 {
        0
    } else {
        10 * spec_decimal_val(s.drop_last()) + spec_digit_val(s.last())
    }
}

/// Digit characters carry their digit values.
proof fn lemma_digit_char_val(d: nat)
    requires
        d < 10,
    ensures
        spec_is_digit(spec_digit_char(d)),
        spec_digit_val(spec_digit_char(d)) == d,
{
}

/// `spec_decimal` renders canonically and `spec_decimal_val` reads it back.
pub proof fn lemma_decimal_roundtrip(n: nat)
    ensures
        canonical_decimal(spec_decimal(n)),
        spec_decimal_val(spec_decimal(n)) == n,
        n >= 1 ==> spec_decimal(n)[0] != '0',
    decreases n,
{
    if n < 10 {
        lemma_digit_char_val(n);
        let s = spec_decimal(n);
        assert(s[0] == spec_digit_char(n));
        assert(all_digits(s)) by {
            assert(forall|i: int| 0 <= i < s.len() ==> s[i] == spec_digit_char(n));
        }
        assert(s.drop_last() =~= Seq::<char>::empty());
        assert(spec_decimal_val(Seq::<char>::empty()) == 0);
        assert(spec_decimal_val(s) == n);
    } else {
        lemma_decimal_roundtrip(n / 10);
        lemma_digit_char_val(n % 10);
        let s = spec_decimal(n);
        let p = spec_decimal(n / 10);
        assert(s == p.push(spec_digit_char(n % 10)));
        assert(all_digits(s)) by {
            assert forall|i: int| 0 <= i < s.len() implies spec_is_digit(s[i]) by {
                if i < p.len() {
                    assert(s[i] == p[i]);
                } else {
                    assert(s[i] == spec_digit_char(n % 10));
                }
            }
        }
        assert(s.drop_last() =~= p);
        assert(s.last() == spec_digit_char(n % 10));
        assert(spec_decimal_val(s) == 10 * (n / 10) + (n % 10));
        assert(10 * (n / 10) + (n % 10) == n);
        assert(n / 10 >= 1);
        assert(s[0] == p[0]);
    }
}

/// A nonempty all-digit string without a leading zero has a positive value,
/// and in general the value grows with the digits.
proof fn lemma_decimal_val_positive(s: Seq<char>)
    requires
        s.len() >= 1,
        s[0] != '0',
        all_digits(s),
    ensures
        spec_decimal_val(s) >= 1,
    decreases s.len(),
{
    if s.len() == 1 {
        assert(spec_is_digit(s[0]));
        assert(spec_digit_val(s[0]) >= 1);
    } else {
        lemma_decimal_val_positive(s.drop_last());
    }
}

/// A canonical digit string is the rendering of its own value.
pub proof fn lemma_canonical_decimal(s: Seq<char>)
    requires
        canonical_decimal(s),
    ensures
        spec_decimal(spec_decimal_val(s)) == s,
    decreases s.len(),
{
    let v = spec_decimal_val(s);
    if s.len() == 1 {
        assert(spec_is_digit(s[0]));
        let d = spec_digit_val(s[0]);
        assert(s.drop_last() =~= Seq::<char>::empty());
        assert(spec_decimal_val(Seq::<char>::empty()) == 0);
        assert(s.last() == s[0]);
        assert(v == d);
        assert(d < 10);
        assert(spec_digit_char(d) == s[0]);
        assert(spec_decimal(v) =~= s);
    } else {
        let p = s.drop_last();
        assert(p[0] == s[0]);
        assert(all_digits(p));
        assert(canonical_decimal(p)) by {
            if p.len() > 1 {
            }
        }
        lemma_canonical_decimal(p);
        lemma_decimal_val_positive(p);
        let d = spec_digit_val(s.last());
        assert(v == 10 * spec_decimal_val(p) + d);
        assert(spec_is_digit(s.last()));
        assert(d < 10);
        assert(v >= 10);
        assert(v / 10 == spec_decimal_val(p) && v % 10 == d) by (nonlinear_arith)
            requires
                v == 10 * spec_decimal_val(p) + d,
                d < 10,
        ;
        assert(spec_digit_char(d) == s.last());
        assert(spec_decimal(v) =~= s);
    }
}

/// Dropping trailing digits never increases the value.
proof fn lemma_decimal_val_take(s: Seq<char>, k: int)
    requires
        0 <= k <= s.len(),
    ensures
        spec_decimal_val(s.take(k)) <= spec_decimal_val(s),
    decreases s.len() - k,
{
    if k < s.len() {
        lemma_decimal_val_take(s, k + 1);
        let t = s.take(k + 1);
        assert(t.drop_last() =~= s.take(k));
        assert(spec_decimal_val(s.take(k)) <= spec_decimal_val(t));
    } else {
        assert(s.take(k) =~= s);
    }
}

/// A decimal rendering never holds a newline: all its characters are digits.
pub proof fn lemma_decimal_newline_free(n: nat)
    ensures
        !spec_decimal(n).contains('\n'),
{
    lemma_decimal_roundtrip(n);
    let s = spec_decimal(n);
    if s.contains('\n') {
        let k = choose|k: int| 0 <= k < s.len() && s[k] == '\n';
        assert(spec_is_digit(s[k]));
    }
}

/// The text for one digit.
fn digit_str(d: u64) -> (r: &'static str)
    requires
        d < 10,
    ensures
        r@ =~= seq![spec_digit_char(d as nat)],
{
    let s: &'static str = if d == 0 {
        "0"
    } else if d == 1 {
        "1"
    } else if d == 2 {
        "2"
    } else if d == 3 {
        "3"
    } else if d == 4 {
        "4"
    } else if d == 5 {
        "5"
    } else if d == 6 {
        "6"
    } else if d == 7 {
        "7"
    } else if d == 8 {
        "8"
    } else {
        "9"
    };
    proof {
        reveal_strlit("0");
        reveal_strlit("1");
        reveal_strlit("2");
        reveal_strlit("3");
        reveal_strlit("4");
        reveal_strlit("5");
        reveal_strlit("6");
        reveal_strlit("7");
        reveal_strlit("8");
        reveal_strlit("9");
    }
    s
}

/// Appends the canonical decimal rendering of `n`.
pub fn append_decimal(s: &mut String, n: u64)
    ensures
        final(s)@ == old(s)@ + spec_decimal(n as nat),
    decreases n,
{
    if n >= 10 {
        append_decimal(s, n / 10);
        let d = digit_str(n % 10);
        s.append(d);
        proof {
            assert(final(s)@ =~= old(s)@ + spec_decimal(n as nat));
        }
    } else {
        let d = digit_str(n);
        s.append(d);
        proof {
            assert(final(s)@ =~= old(s)@ + spec_decimal(n as nat));
        }
    }
}

/// Parses a canonical decimal rendering of a 32-bit number; anything else is
/// rejected.
pub fn parse_decimal_u32(s: &str) -> (r: Option<u32>)
    ensures
        match r {
            Some(n) => s@ == spec_decimal(n as nat),
            None => !(canonical_decimal(s@) && spec_decimal_val(s@) <= u32::MAX),
        },
{
    let len = s.unicode_len();
    if len == 0 {
        return None;
    }
    if len > 1 && s.get_char(0) == '0' {
        return None;
    }
    let mut v: u64 = 0;
    for i in 0..len
        invariant
            len == s@.len(),
            len > 1 ==> s@[0] != '0',
            v == spec_decimal_val(s@.take(i as int)),
            v <= u32::MAX,
            forall|k: int| 0 <= k < i ==> spec_is_digit(#[trigger] s@[k]),
    {
        let c = s.get_char(i);
        let cv = c as u32;
        if cv < 48 || cv > 57 {
            proof {
                assert(!spec_is_digit(s@[i as int]));
                assert(!all_digits(s@));
            }
            return None;
        }
        let d: u64 = (cv - 48) as u64;
        proof {
            assert(spec_is_digit(s@[i as int]));
            assert(d == spec_digit_val(s@[i as int]));
            assert(s@.take(i + 1).drop_last() =~= s@.take(i as int));
            assert(s@.take(i + 1).last() == s@[i as int]);
        }
        v = v * 10 + d;
        if v > u32::MAX as u64 {
            proof {
                lemma_decimal_val_take(s@, i + 1);
            }
            return None;
        }
    }
    proof {
        assert(s@.take(len as int) =~= s@);
        assert(canonical_decimal(s@));
        lemma_canonical_decimal(s@);
    }
    Some(v as u32)
}

} // verus!
