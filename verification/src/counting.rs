//! The most frequent character of a string.

use vstd::prelude::*;

verus! {

/// Number of occurrences of `c` in `s`.
pub open spec fn count_char(s: Seq<char>, c: char) -> nat
    decreases s.len(),
{
    if s.len() == 0 {
        0
    } else {
        count_char(s.drop_last(), c) + (if s.last() == c {
            1nat
        } else {
            0nat
        })
    }
}

/// `c` occurs in `s`, no character of `s` occurs more often than `c`, and
/// every character occurring before the first occurrence of `c` occurs
/// strictly less often: the tie-break picks the earliest character that
/// reaches the highest count.
pub open spec fn is_most_frequent(s: Seq<char>, c: char) -> bool {
    exists|i: int|
        {
            &&& 0 <= i < s.len()
            &&& #[trigger] s[i] == c
            &&& forall|j: int| 0 <= j < s.len() ==> count_char(s, #[trigger] s[j]) <= count_char(s, c)
            &&& forall|j: int| 0 <= j < i ==> count_char(s, #[trigger] s[j]) < count_char(s, c)
        }
}

/// Counts the occurrences of `c` among the characters of `s`.
fn count_char_exec(s: &str, c: char) -> (r: usize)
    ensures
        r == count_char(s@, c),
{
    let n: usize = s.unicode_len();
    let mut i: usize = 0;
    let mut cnt: usize = 0;
    proof {
        assert(s@.take(0) =~= Seq::<char>::empty());
    }
    while i < n
        invariant
            0 <= i <= n,
            n == s@.len(),
            cnt <= i,
            cnt == count_char(s@.take(i as int), c),
        decreases n - i,
    {
        proof {
            assert(s@.take(i as int + 1).drop_last() =~= s@.take(i as int));
            assert(s@.take(i as int + 1).last() == s@[i as int]);
        }
        let ch: char = s.get_char(i);
        if ch == c {
            cnt = cnt + 1;
        }
        i = i + 1;
    }
    proof {
        assert(s@.take(n as int) =~= s@);
    }
    cnt
}

/// Returns a one-character string holding the most frequent character of
/// `s`, or the empty string if `s` is empty. Ties are broken toward the
/// character whose first occurrence comes earliest.
pub fn freq(s: &str) -> (r: String)
    ensures
        s@.len() == 0 ==> r@ == Seq::<char>::empty(),
        s@.len() > 0 ==> r@.len() == 1 && is_most_frequent(s@, r@[0]),
{
    let n: usize = s.unicode_len();
    if n == 0 {
        let r = String::new();
        proof {
            assert(r@ =~= Seq::<char>::empty());
        }
        return r;
    }
    let mut best_i: usize = 0;
    let first: char = s.get_char(0);
    let mut best_cnt: usize = count_char_exec(s, first);
    let mut i: usize = 1;
    while i < n
        invariant
            1 <= i <= n,
            n == s@.len(),
            best_i < i,
            best_cnt == count_char(s@, s@[best_i as int]),
            forall|j: int| 0 <= j < i ==> count_char(s@, #[trigger] s@[j]) <= best_cnt,
            forall|j: int| 0 <= j < best_i ==> count_char(s@, #[trigger] s@[j]) < best_cnt,
        decreases n - i,
    {
        let c: char = s.get_char(i);
        let cnt: usize = count_char_exec(s, c);
        if cnt > best_cnt {
            best_i = i;
            best_cnt = cnt;
        }
        i = i + 1;
    }
    let sub: &str = s.substring_char(best_i, best_i + 1);
    proof {
        assert(sub@ =~= seq![s@[best_i as int]]);
        assert(is_most_frequent(s@, s@[best_i as int]));
    }
    sub.to_owned()
}

} // verus!
