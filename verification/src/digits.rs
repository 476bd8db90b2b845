//! Candidate sets.
//!
//! The values still possible for a cell are kept as a text of digits in
//! ascending order, each digit at most once: `"123456789"` for a cell of which
//! nothing is known, `"7"` for a solved one.

use vstd::prelude::*;
use vstd::string::*;
use crate::coord::COLUMNS;

verus! {

/// One of the digits `1`..`9`.
pub open spec fn is_digit(c: char) -> bool {
    '1' <= c && c <= '9'
}

/// A candidate set: digits `1`..`9` in strictly ascending order.
pub open spec fn is_candidates(s: Seq<char>) -> bool {
    &&& forall|i: int| 0 <= i < s.len() ==> is_digit(#[trigger] s[i])
    &&& forall|i: int, j: int| 0 <= i < j < s.len() ==> #[trigger] s[i] < #[trigger] s[j]
}

/// The candidate set of a cell of which nothing is known.
pub open spec fn all_digits() -> Seq<char> {
    seq!['1', '2', '3', '4', '5', '6', '7', '8', '9']
}

/// Every candidate of `a` is a candidate of `b`.
pub open spec fn within(a: Seq<char>, b: Seq<char>) -> bool {
    forall|c: char| #[trigger] a.contains(c) ==> b.contains(c)
}

/// The full candidate set is a candidate set, is the text of the column
/// digits, and holds exactly the nine digits.
pub proof fn lemma_all_digits()
    ensures
        is_candidates(all_digits()),
        all_digits().len() == 9,
        COLUMNS@ == all_digits(),
        forall|c: char| is_digit(c) <==> #[trigger] all_digits().contains(c),
{
    reveal_strlit("123456789");
    assert(COLUMNS@ =~= all_digits());
    let s = all_digits();
    assert forall|c: char| is_digit(c) implies #[trigger] s.contains(c) by {
        let k = c as int - '1' as int;
        assert(s[k] == c);
    }
}

/// The digit at position `i` of a candidate set is at least the `i`-th digit.
proof fn lemma_candidates_floor(s: Seq<char>, i: int)
    requires
        is_candidates(s),
        0 <= i < s.len(),
    ensures
        s[i] as int >= '1' as int + i,
    decreases i,
{
    if i > 0 {
        lemma_candidates_floor(s, i - 1);
        assert(s[i - 1] < s[i]);
    } else {
        assert(is_digit(s[0]));
    }
}

/// A candidate set holds at most nine digits.
pub proof fn lemma_candidates_len(s: Seq<char>)
    requires
        is_candidates(s),
    ensures
        s.len() <= 9,
{
    if s.len() > 0 {
        lemma_candidates_floor(s, s.len() - 1);
        assert(is_digit(s[s.len() - 1]));
    }
}

/// Taking one digit out of a candidate set leaves a candidate set that holds
/// the other digits and no longer that one.
pub proof fn lemma_remove(s: Seq<char>, i: int)
    requires
        is_candidates(s),
        0 <= i < s.len(),
    ensures
        is_candidates(s.remove(i)),
        s.remove(i).len() == s.len() - 1,
        forall|c: char| #[trigger] s.remove(i).contains(c) <==> (s.contains(c) && c != s[i]),
{
    let t = s.remove(i);
    assert(t.len() == s.len() - 1);
    assert forall|k: int| 0 <= k < t.len() implies t[k] == (if k < i {
        s[k]
    } else {
        s[k + 1]
    }) by {}
    assert forall|a: int, b: int| 0 <= a < b < t.len() implies #[trigger] t[a]
        < #[trigger] t[b] by {
        let a2 = if a < i { a } else { a + 1 };
        let b2 = if b < i { b } else { b + 1 };
        assert(t[a] == s[a2] && t[b] == s[b2]);
        assert(s[a2] < s[b2]);
    }
    assert forall|k: int| 0 <= k < t.len() implies is_digit(#[trigger] t[k]) by {
        let k2 = if k < i { k } else { k + 1 };
        assert(t[k] == s[k2]);
    }
    assert forall|c: char| #[trigger] t.contains(c) <==> (s.contains(c) && c != s[i]) by {
        if t.contains(c) {
            let k = choose|k: int| 0 <= k < t.len() && t[k] == c;
            let k2 = if k < i { k } else { k + 1 };
            assert(s[k2] == c);
            if k2 < i {
                assert(s[k2] < s[i]);
            } else {
                assert(s[i] < s[k2]);
            }
        }
        if s.contains(c) && c != s[i] {
            let k = choose|k: int| 0 <= k < s.len() && s[k] == c;
            let k2 = if k < i { k } else { k - 1 };
            assert(t[k2] == c);
        }
    }
}

/// A non-empty candidate set all of whose digits are `d` is the set of `d` alone.
pub proof fn lemma_single(s: Seq<char>, d: char)
    requires
        is_candidates(s),
        s.len() >= 1,
        forall|c: char| #[trigger] s.contains(c) ==> c == d,
    ensures
        s == seq![d],
{
    assert(s.contains(s[0]));
    if s.len() > 1 {
        assert(s.contains(s[1]));
        assert(s[0] < s[1]);
    }
    assert(s =~= seq![d]);
}

/// Two candidate sets that hold the same digits are the same text.
pub proof fn lemma_same_digits(a: Seq<char>, b: Seq<char>)
    requires
        is_candidates(a),
        is_candidates(b),
        within(a, b),
        within(b, a),
    ensures
        a == b,
    decreases a.len(),
{
    if a.len() == 0 {
        if b.len() > 0 {
            assert(b.contains(b[0]));
        }
        assert(a =~= b);
    } else {
        let x = a[a.len() - 1];
        assert(a.contains(x));
        assert(b.contains(x));
        let k = choose|k: int| 0 <= k < b.len() && b[k] == x;
        if k < b.len() - 1 {
            let y = b[b.len() - 1];
            assert(b.contains(y));
            assert(a.contains(y));
            let m = choose|m: int| 0 <= m < a.len() && a[m] == y;
            assert(b[k] < b[b.len() - 1]);
            if m < a.len() - 1 {
                assert(a[m] < a[a.len() - 1]);
            }
            assert(false);
        }
        let a2 = a.remove(a.len() - 1);
        let b2 = b.remove(b.len() - 1);
        lemma_remove(a, a.len() - 1);
        lemma_remove(b, b.len() - 1);
        lemma_same_digits(a2, b2);
        assert(a2 =~= a.drop_last());
        assert(b2 =~= b.drop_last());
        assert(a =~= a.drop_last().push(x));
        assert(b =~= b.drop_last().push(x));
    }
}

/// A candidate set within another holds no more digits than that one.
pub proof fn lemma_within_len(a: Seq<char>, b: Seq<char>)
    requires
        is_candidates(a),
        is_candidates(b),
        within(a, b),
    ensures
        a.len() <= b.len(),
    decreases b.len(),
{
    if a.len() > 0 {
        let x = a[a.len() - 1];
        assert(a.contains(x));
        assert(b.contains(x));
        let k = choose|k: int| 0 <= k < b.len() && b[k] == x;
        let a2 = a.drop_last();
        let b2 = b.drop_last();
        assert forall|c: char| #[trigger] a2.contains(c) implies b2.contains(c) by {
            let m = choose|m: int| 0 <= m < a2.len() && a2[m] == c;
            assert(a[m] == c);
            assert(a[m] < a[a.len() - 1]);
            assert(a.contains(c));
            assert(b.contains(c));
            let t = choose|t: int| 0 <= t < b.len() && b[t] == c;
            if t == b.len() - 1 {
                if k < b.len() - 1 {
                    assert(b[k] < b[b.len() - 1]);
                }
                assert(false);
            }
            assert(b2[t] == c);
        }
        lemma_within_len(a2, b2);
    }
}

/// Where a digit stands in a candidate set, if it is there.
pub fn position(values: &str, digit: char) -> (found: Option<usize>)
    ensures
        (match found {
            Some(i) => i < values@.len() && values@[i as int] == digit && forall|k: int|
                0 <= k < i ==> values@[k] != digit,
            None => !values@.contains(digit),
        }),
{
    let n = values.unicode_len();
    let mut i: usize = 0;
    while i < n
        invariant
            n == values@.len(),
            i <= n,
            forall|k: int| 0 <= k < i ==> values@[k] != digit,
        decreases n - i,
    {
        if values.get_char(i) == digit {
            return Some(i);
        }
        i += 1;
    }
    None
}

/// The candidate set without the digit at position `i`.
pub fn without(values: &str, i: usize) -> (rest: String)
    requires
        i < values@.len(),
    ensures
        rest@ == values@.remove(i as int),
{
    let n = values.unicode_len();
    let mut rest = String::from_str(values.substring_char(0, i));
    rest.append(values.substring_char(i + 1, n));
    rest
}

/// The text of a single digit.
pub fn digit_text(digit: char) -> (text: &'static str)
    requires
        is_digit(digit),
    ensures
        text@ == seq![digit],
{
    proof {
        reveal_strlit("123456789");
    }
    let k = (digit as u32 - '1' as u32) as usize;
    let text = COLUMNS.substring_ascii(k, k + 1);
    assert(text@ =~= seq![digit]);
    text
}

} // verus!
