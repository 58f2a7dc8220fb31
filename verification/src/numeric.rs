//! Numeric utilities: Fibonacci sequence generation and the decimal
//! palindrome test.

use vstd::prelude::*;

verus! {

/// The mathematical Fibonacci sequence: 0, 1, 1, 2, 3, 5, ...
pub open spec fn fib_nat(i: nat) -> nat
    decreases i,
{
    if i == 0 {
        0
    } else if i == 1 {
        1
    } else {
        fib_nat((i - 2) as nat) + fib_nat((i - 1) as nat)
    }
}

/// The Fibonacci sequence never decreases.
pub proof fn lemma_fib_nat_monotonic(i: nat, j: nat)
    requires
        i <= j,
    ensures
        fib_nat(i) <= fib_nat(j),
    decreases j - i,
{
    if i == j {
    } else if i + 1 == j {
        if j >= 2 {
            assert(fib_nat(j) == fib_nat((j - 2) as nat) + fib_nat((j - 1) as nat));
        }
    } else {
        lemma_fib_nat_monotonic(i, (j - 1) as nat);
        assert(fib_nat(j) == fib_nat((j - 2) as nat) + fib_nat((j - 1) as nat));
    }
}

/// Returns the first `n` Fibonacci numbers.
///
/// The caller is responsible for bounding `n` so that no element of the
/// result overflows a `u32`.
pub fn fib(n: u32) -> (r: Vec<u32>)
    requires
        n == 0 || fib_nat((n - 1) as nat) <= u32::MAX,
    ensures
        r@.len() == n,
        forall|i: int| 0 <= i < n ==> r@[i] == fib_nat(i as nat),
{
    let mut v: Vec<u32> = Vec::new();
    if n == 0 {
        return v;
    }
    v.push(0);
    if n == 1 {
        return v;
    }
    v.push(1);
    let mut k: u32 = 2;
    while k < n
        invariant
            2 <= k <= n,
            v@.len() == k,
            n == 0 || fib_nat((n - 1) as nat) <= u32::MAX,
            forall|i: int| 0 <= i < k ==> v@[i] == fib_nat(i as nat),
        decreases n - k,
    {
        let a: u32 = v[v.len() - 1];
        let b: u32 = v[v.len() - 2];
        proof {
            lemma_fib_nat_monotonic(k as nat, (n - 1) as nat);
            assert(fib_nat(k as nat) == fib_nat((k - 2) as nat) + fib_nat((k - 1) as nat));
        }
        v.push(b + a);
        k = k + 1;
    }
    v
}

/// The decimal digits of `n`, most significant digit first.
pub open spec fn decimal_digits(n: nat) -> Seq<u32>
    decreases n,
{
    if n < 10 {
        seq![n as u32]
    } else {
        decimal_digits(n / 10).push((n % 10) as u32)
    }
}

/// A sequence that reads identically forward and backward.
pub open spec fn is_pal<A>(s: Seq<A>) -> bool {
    forall|i: int| 0 <= i < s.len() ==> #[trigger] s[i] == s[s.len() - 1 - i]
}

/// The decimal digits of `n`, least significant digit first.
spec fn digits_rev(n: nat) -> Seq<u32>
    decreases n,
{
    if n < 10 {
        seq![n as u32]
    } else {
        seq![(n % 10) as u32] + digits_rev(n / 10)
    }
}

proof fn lemma_digits_rev(n: nat)
    ensures
        digits_rev(n) == decimal_digits(n).reverse(),
    decreases n,
{
    if n < 10 {
        assert(digits_rev(n) =~= decimal_digits(n).reverse());
    } else {
        lemma_digits_rev(n / 10);
        assert(decimal_digits(n).reverse() =~= seq![(n % 10) as u32] + decimal_digits(
            n / 10,
        ).reverse());
    }
}

/// Reversing a sequence does not change whether it is a palindrome.
proof fn lemma_is_pal_reverse<A>(s: Seq<A>)
    ensures
        is_pal(s.reverse()) == is_pal(s),
{
    if is_pal(s) {
        assert forall|i: int| 0 <= i < s.reverse().len() implies #[trigger] s.reverse()[i]
            == s.reverse()[s.reverse().len() - 1 - i] by {
            assert(s[s.len() - 1 - i] == s[s.len() - 1 - (s.len() - 1 - i)]);
        }
    }
    if is_pal(s.reverse()) {
        assert forall|i: int| 0 <= i < s.len() implies #[trigger] s[i] == s[s.len() - 1 - i] by {
            assert(s.reverse()[s.len() - 1 - i] == s.reverse()[s.len() - 1 - (s.len() - 1 - i)]);
        }
    }
}

/// Returns true exactly when the decimal representation of `n` reads the
/// same forward and backward.
pub fn is_palindrome(n: u32) -> (r: bool)
    ensures
        r == is_pal(decimal_digits(n as nat)),
{
    let mut v: Vec<u32> = Vec::new();
    let mut x: u32 = n;
    v.push(x % 10);
    x = x / 10;
    proof {
        if n >= 10 {
            assert(digits_rev(n as nat) =~= v@ + digits_rev((n as nat) / 10));
        } else {
            assert(digits_rev(n as nat) =~= v@ + Seq::<u32>::empty());
        }
    }
    while x > 0
        invariant
            digits_rev(n as nat) == v@ + (if x > 0 {
                digits_rev(x as nat)
            } else {
                Seq::<u32>::empty()
            }),
        decreases x,
    {
        let ghost prev = v@;
        let ghost xprev = x as nat;
        v.push(x % 10);
        x = x / 10;
        proof {
            if xprev >= 10 {
                assert(digits_rev(xprev) == seq![(xprev % 10) as u32] + digits_rev(xprev / 10));
                assert(prev + digits_rev(xprev) =~= v@ + digits_rev(xprev / 10));
            } else {
                assert(digits_rev(xprev) =~= seq![(xprev % 10) as u32]);
                assert(prev + digits_rev(xprev) =~= v@ + Seq::<u32>::empty());
            }
        }
    }
    proof {
        assert(v@ + Seq::<u32>::empty() =~= v@);
        lemma_digits_rev(n as nat);
        lemma_is_pal_reverse(decimal_digits(n as nat));
        assert(v@ == decimal_digits(n as nat).reverse());
    }
    let len: usize = v.len();
    let mut i: usize = 0;
    while i < len
        invariant
            len == v@.len(),
            0 <= i <= len,
            v@ == decimal_digits(n as nat).reverse(),
            forall|j: int| 0 <= j < i ==> #[trigger] v@[j] == v@[len - 1 - j],
        decreases len - i,
    {
        if v[i] != v[len - 1 - i] {
            proof {
                lemma_is_pal_reverse(decimal_digits(n as nat));
                assert(!is_pal(v@));
            }
            return false;
        }
        i = i + 1;
    }
    proof {
        lemma_is_pal_reverse(decimal_digits(n as nat));
        assert(is_pal(v@));
    }
    true
}

} // verus!
