//! Integer combinatorics primitives: range products, falling factorials,
//! factorials and binomial coefficients, with the lemmas relating them.

use vstd::prelude::*;
use vstd::arithmetic::mul::*;

verus! {

/// Product of all integers in the inclusive range `[begin, end]`;
/// 1 when the range is empty.
pub open spec fn prod_range(begin: int, end: int) -> int
    decreases end - begin + 1,
{
    if begin > end {
        1
    } else {
        begin * prod_range(begin + 1, end)
    }
}

/// Falling factorial: the product of the `k` consecutive integers
/// ending at `n`, that is `n * (n-1) * ... * (n-k+1)`; 1 when `k == 0`.
pub open spec fn falling(n: int, k: nat) -> int
    decreases k,
{
    if k == 0 {
        1
    } else {
        n * falling(n - 1, (k - 1) as nat)
    }
}

/// Factorial of `k`.
pub open spec fn fact(k: nat) -> int
    decreases k,
{
    if k == 0 {
        1
    } else {
        k * fact((k - 1) as nat)
    }
}

/// Binomial coefficient "n choose k", by Pascal's rule.
pub open spec fn binom(n: nat, k: nat) -> int
    decreases n,
{
    if k == 0 {
        1
    } else if n == 0 {
        0
    } else {
        binom((n - 1) as nat, (k - 1) as nat) + binom((n - 1) as nat, k)
    }
}

/// A product of integers drawn from a range of non-negative numbers is
/// non-negative.
pub proof fn lemma_prod_range_nonneg(begin: int, end: int)
    requires
        0 <= begin,
    ensures
        prod_range(begin, end) >= 0,
    decreases end - begin + 1,
{
    if begin <= end {
        lemma_prod_range_nonneg(begin + 1, end);
        lemma_mul_nonnegative(begin, prod_range(begin + 1, end));
    }
}

/// A product of integers drawn from a range of positive numbers is at
/// least 1.
pub proof fn lemma_prod_range_pos(begin: int, end: int)
    requires
        1 <= begin,
    ensures
        prod_range(begin, end) >= 1,
    decreases end - begin + 1,
{
    if begin <= end {
        lemma_prod_range_pos(begin + 1, end);
        assert(begin * prod_range(begin + 1, end) >= 1) by (nonlinear_arith)
            requires
                begin >= 1,
                prod_range(begin + 1, end) >= 1,
        ;
    }
}

/// A range product splits at any point of the range:
/// the product over `[begin, end]` is the product over `[begin, mid]`
/// times the product over `[mid + 1, end]`.
pub proof fn lemma_prod_range_split(begin: int, mid: int, end: int)
    requires
        begin - 1 <= mid <= end,
    ensures
        prod_range(begin, end) == prod_range(begin, mid) * prod_range(mid + 1, end),
    decreases mid - begin + 1,
{
    if begin > mid {
        assert(prod_range(begin, mid) == 1);
    } else {
        lemma_prod_range_split(begin + 1, mid, end);
        lemma_mul_is_associative(begin, prod_range(begin + 1, mid), prod_range(mid + 1, end));
    }
}

/// A falling factorial of a non-negative base is non-negative.
pub proof fn lemma_falling_nonneg(n: int, k: nat)
    requires
        n >= 0,
    ensures
        falling(n, k) >= 0,
    decreases k,
{
    if k > 0 {
        if n == 0 {
            assert(falling(0, k) == 0 * falling(-1, (k - 1) as nat));
        } else {
            lemma_falling_nonneg(n - 1, (k - 1) as nat);
            lemma_mul_nonnegative(n, falling(n - 1, (k - 1) as nat));
        }
    }
}

/// A falling factorial also peels off its smallest factor:
/// `falling(n, k) == falling(n, k - 1) * (n - k + 1)`.
pub proof fn lemma_falling_unfold_last(n: int, k: nat)
    requires
        k >= 1,
    ensures
        falling(n, k) == falling(n, (k - 1) as nat) * (n - k + 1),
    decreases k,
{
    if k == 1 {
        assert(falling(n, 1) == n * falling(n - 1, 0));
    } else {
        let k1 = (k - 1) as nat;
        let k2 = (k - 2) as nat;
        lemma_falling_unfold_last(n - 1, k1);
        assert(falling(n - 1, k1) == falling(n - 1, k2) * (n - k + 1));
        lemma_mul_is_associative(n, falling(n - 1, k2), n - k + 1);
        assert(falling(n, k1) == n * falling(n - 1, k2));
    }
}

/// A falling factorial splits into two consecutive falling factorials:
/// `falling(n, a + b) == falling(n, a) * falling(n - a, b)`.
pub proof fn lemma_falling_split(n: int, a: nat, b: nat)
    ensures
        falling(n, (a + b) as nat) == falling(n, a) * falling(n - a, b),
    decreases a,
{
    if a == 0 {
        assert(falling(n, b) == 1 * falling(n, b));
    } else {
        let a1 = (a - 1) as nat;
        lemma_falling_split(n - 1, a1, b);
        assert(falling(n - 1, (a1 + b) as nat) == falling(n - 1, a1) * falling(n - a, b));
        lemma_mul_is_associative(n, falling(n - 1, a1), falling(n - a, b));
        assert(falling(n, (a + b) as nat) == n * falling(n - 1, (a1 + b) as nat));
        assert(falling(n, a) == n * falling(n - 1, a1));
    }
}

/// A falling factorial is the product of the range it covers:
/// `falling(n, k) == prod_range(n - k + 1, n)`.
pub proof fn lemma_falling_eq_prod_range(n: int, k: nat)
    ensures
        falling(n, k) == prod_range(n - k + 1, n),
    decreases k,
{
    if k > 0 {
        let k1 = (k - 1) as nat;
        lemma_falling_eq_prod_range(n, k1);
        lemma_falling_unfold_last(n, k);
        assert(prod_range(n - k + 1, n) == (n - k + 1) * prod_range(n - k + 2, n));
        lemma_mul_is_commutative(n - k + 1, prod_range(n - k + 2, n));
    }
}

/// Factorials are positive.
pub proof fn lemma_fact_pos(k: nat)
    ensures
        fact(k) >= 1,
    decreases k,
{
    if k > 0 {
        let k1 = (k - 1) as nat;
        lemma_fact_pos(k1);
        assert(k * fact(k1) >= 1) by (nonlinear_arith)
            requires
                k >= 1,
                fact(k1) >= 1,
        ;
    }
}

/// The factorial of `k` is the falling factorial of `k` by itself.
pub proof fn lemma_fact_eq_falling(k: nat)
    ensures
        fact(k) == falling(k as int, k),
    decreases k,
{
    if k > 0 {
        lemma_fact_eq_falling((k - 1) as nat);
    }
}

/// Falling factorials of non-negative bases grow with the base.
pub proof fn lemma_falling_mono(a: int, b: int, k: nat)
    requires
        0 <= a <= b,
    ensures
        falling(a, k) <= falling(b, k),
    decreases k,
{
    if k > 0 {
        if a == 0 {
            assert(falling(0, k) == 0 * falling(-1, (k - 1) as nat));
            lemma_falling_nonneg(b, k);
        } else {
            let k1 = (k - 1) as nat;
            lemma_falling_mono(a - 1, b - 1, k1);
            lemma_falling_nonneg(a - 1, k1);
            lemma_mul_upper_bound(a, b, falling(a - 1, k1), falling(b - 1, k1));
        }
    }
}

/// For `k <= n` the factorial of `k` is at least 1 and at most the
/// falling factorial of `n` by `k`.
pub proof fn lemma_fact_le_falling(n: int, k: nat)
    requires
        k <= n,
    ensures
        1 <= fact(k) <= falling(n, k),
{
    lemma_fact_pos(k);
    lemma_fact_eq_falling(k);
    lemma_falling_mono(k as int, n, k);
}

/// A falling factorial of `n` by `k <= n` is at most the full factorial
/// of `n`.
pub proof fn lemma_falling_le_fact(n: nat, k: nat)
    requires
        k <= n,
    ensures
        falling(n as int, k) <= fact(n),
{
    let r = (n - k) as nat;
    lemma_falling_split(n as int, k, r);
    lemma_fact_eq_falling(n);
    lemma_fact_eq_falling(r);
    assert(fact(n) == falling(n as int, k) * falling(n - k, r));
    lemma_falling_nonneg(n as int, k);
    lemma_fact_le_falling(n - k, r);
    assert(falling(n as int, k) <= falling(n as int, k) * falling(n - k, r)) by (nonlinear_arith)
        requires
            falling(n as int, k) >= 0,
            falling(n - k, r) >= 1,
    ;
}

/// Binomial coefficients are non-negative.
pub proof fn lemma_binom_nonneg(n: nat, k: nat)
    ensures
        binom(n, k) >= 0,
    decreases n,
{
    if k > 0 && n > 0 {
        lemma_binom_nonneg((n - 1) as nat, (k - 1) as nat);
        lemma_binom_nonneg((n - 1) as nat, k);
    }
}

/// Choosing more items than are available gives no combinations.
pub proof fn lemma_binom_above(n: nat, k: nat)
    requires
        k > n,
    ensures
        binom(n, k) == 0,
    decreases n,
{
    if n > 0 {
        lemma_binom_above((n - 1) as nat, (k - 1) as nat);
        lemma_binom_above((n - 1) as nat, k);
    }
}

/// Choosing at most as many items as are available gives at least one
/// combination.
pub proof fn lemma_binom_pos(n: nat, k: nat)
    requires
        k <= n,
    ensures
        binom(n, k) >= 1,
    decreases n,
{
    if k > 0 {
        lemma_binom_pos((n - 1) as nat, (k - 1) as nat);
        lemma_binom_nonneg((n - 1) as nat, k);
    }
}

/// There is exactly one way to choose everything.
pub proof fn lemma_binom_self(n: nat)
    ensures
        binom(n, n) == 1,
    decreases n,
{
    if n > 0 {
        lemma_binom_self((n - 1) as nat);
        lemma_binom_above((n - 1) as nat, n);
    }
}

/// Choosing `k` items out of `n` is choosing the `n - k` left behind.
pub proof fn lemma_binom_sym(n: nat, k: nat)
    requires
        k <= n,
    ensures
        binom(n, k) == binom(n, (n - k) as nat),
{
    let r = (n - k) as nat;
    lemma_falling_split(n as int, k, r);
    lemma_falling_split(n as int, r, k);
    lemma_fact_eq_falling(n);
    assert((k + r) as nat == n && (r + k) as nat == n);
    assert(falling((n - k) as int, r) == falling(r as int, r));
    assert(falling((n - r) as int, k) == falling(k as int, k));
    lemma_fact_eq_falling(r);
    lemma_fact_eq_falling(k);
    lemma_falling_fact_binom(n, k);
    lemma_falling_fact_binom(n, r);
    lemma_fact_pos(k);
    lemma_fact_pos(r);
    let bk = binom(n, k);
    let br = binom(n, r);
    assert(bk * fact(k) * fact(r) == br * fact(r) * fact(k));
    assert(bk == br) by (nonlinear_arith)
        requires
            bk * fact(k) * fact(r) == br * fact(r) * fact(k),
            fact(k) >= 1,
            fact(r) >= 1,
    ;
}

/// The falling factorial counts ordered choices: it equals the number
/// of unordered choices times the orderings of what was chosen.
pub proof fn lemma_falling_fact_binom(n: nat, k: nat)
    ensures
        falling(n as int, k) == binom(n, k) * fact(k),
    decreases n,
{
    if k == 0 {
    } else if n == 0 {
        assert(falling(0, k) == 0 * falling(-1, (k - 1) as nat));
        assert(binom(0, k) == 0);
    } else {
        let n1 = (n - 1) as nat;
        let k1 = (k - 1) as nat;
        lemma_falling_fact_binom(n1, k);
        lemma_falling_fact_binom(n1, k1);
        lemma_falling_unfold_last(n as int - 1, k);
        let f1 = falling(n as int - 1, k1);
        let b0 = binom(n1, k);
        let b1 = binom(n1, k1);
        assert(falling(n as int, k) == n * f1);
        assert(falling(n as int - 1, k) == f1 * (n - k));
        assert(n * f1 == f1 * (n - k) + k * f1) by (nonlinear_arith);
        assert(fact(k) == k * fact(k1));
        assert(k * f1 == b1 * fact(k)) by (nonlinear_arith)
            requires
                f1 == b1 * fact(k1),
                fact(k) == k * fact(k1),
        ;
        assert(b0 * fact(k) + b1 * fact(k) == (b0 + b1) * fact(k)) by (nonlinear_arith);
        assert(binom(n, k) == b1 + b0);
    }
}

/// One term of the hypergeometric partition: the number of ordered hands
/// of size `h` that take exactly `k` cards from a pool of `x` and the
/// remaining `h - k` from a pool of `y`, counted with the `binom(h, k)`
/// arrangements of the two kinds within the hand.
pub open spec fn split_term(x: int, y: int, h: nat, k: nat) -> int {
    binom(h, k) * falling(x, k) * falling(y, (h - k) as nat)
}

/// Sum of `split_term` over all `k` in `[0, j)`.
pub open spec fn split_term_sum(x: int, y: int, h: nat, j: nat) -> int
    decreases j,
{
    if j == 0 {
        0
    } else {
        split_term_sum(x, y, h, (j - 1) as nat) + split_term(x, y, h, (j - 1) as nat)
    }
}

/// The part of a shifted partial sum not yet absorbed by Pascal's rule
/// while multiplying a partition of `h - 1` draws up to one of `h`.
spec fn vandermonde_carry(x: int, y: int, h: nat, j: nat) -> int {
    if j == 0 {
        0
    } else {
        binom((h - 1) as nat, (j - 1) as nat) * falling(x, j) * falling(y, (h - j) as nat)
    }
}

proof fn lemma_vandermonde_step(x: int, y: int, h: nat, j: nat)
    requires
        1 <= h,
        j <= h,
    ensures
        split_term_sum(x, y, (h - 1) as nat, j) * (x + y - h + 1)
            == split_term_sum(x, y, h, j) + vandermonde_carry(x, y, h, j),
    decreases j,
{
    let h1 = (h - 1) as nat;
    let w = x + y - h + 1;
    if j == 0 {
        assert(split_term_sum(x, y, h1, 0) == 0);
        assert(0 * w == 0) by (nonlinear_arith);
    } else {
        let j1 = (j - 1) as nat;
        lemma_vandermonde_step(x, y, h, j1);
        let sp1 = split_term_sum(x, y, h1, j1);
        let s1 = split_term_sum(x, y, h, j1);
        let tp = split_term(x, y, h1, j1);
        let t = split_term(x, y, h, j1);
        let b = binom(h1, j1);
        let fx = falling(x, j1);
        let fy = falling(y, (h - j) as nat);
        let fxp = falling(x, j);
        let fyp = falling(y, (h - j1) as nat);
        assert((h1 - j1) as nat == (h - j) as nat);
        assert(tp == b * fx * fy);
        lemma_falling_unfold_last(x, j);
        assert(fxp == fx * (x - j + 1));
        lemma_falling_unfold_last(y, (h - j1) as nat);
        assert(fyp == fy * (y - h + j));
        let a_part = b * fxp * fy;
        let b_part = b * fx * fyp;
        assert(tp * w == a_part + b_part) by (nonlinear_arith)
            requires
                tp == b * fx * fy,
                fxp == fx * (x - j + 1),
                fyp == fy * (y - h + j),
                w == (x - j + 1) + (y - h + j),
                a_part == b * fxp * fy,
                b_part == b * fx * fyp,
        ;
        assert(a_part == vandermonde_carry(x, y, h, j));
        // Pascal's rule folds the leftover carry into the larger partition's term.
        if j1 == 0 {
            assert(binom(h, 0) == 1 && b == 1);
            assert(t == 1 * fx * fyp);
            assert(b_part == t) by (nonlinear_arith)
                requires
                    b_part == 1 * fx * fyp,
                    t == 1 * fx * fyp,
            ;
            assert(vandermonde_carry(x, y, h, j1) == 0);
        } else {
            let bc = binom(h1, (j1 - 1) as nat);
            assert(binom(h, j1) == bc + b);
            assert((h - j1) as nat == (h1 - (j1 - 1)) as nat);
            assert(vandermonde_carry(x, y, h, j1) == bc * fx * fyp);
            assert(b_part + bc * fx * fyp == (bc + b) * fx * fyp) by (nonlinear_arith)
                requires
                    b_part == b * fx * fyp,
            ;
            assert(t == (bc + b) * fx * fyp);
        }
        assert((sp1 + tp) * w == sp1 * w + tp * w) by (nonlinear_arith);
        assert(split_term_sum(x, y, h1, j) == sp1 + tp);
        assert(split_term_sum(x, y, h, j) == s1 + t);
    }
}

/// Vandermonde's identity in falling-factorial form: the ordered draws
/// of `h` items from a pool of `x + y` partition over how many of them
/// came from the `x` side.
pub proof fn lemma_vandermonde(x: int, y: int, h: nat)
    ensures
        split_term_sum(x, y, h, (h + 1) as nat) == falling(x + y, h),
    decreases h,
{
    if h == 0 {
        assert(split_term_sum(x, y, 0, 0) == 0);
        assert(split_term_sum(x, y, 0, 1) == split_term_sum(x, y, 0, 0) + split_term(x, y, 0, 0));
        assert(split_term(x, y, 0, 0) == 1 * falling(x, 0) * falling(y, 0));
    } else {
        let h1 = (h - 1) as nat;
        lemma_vandermonde(x, y, h1);
        assert((h1 + 1) as nat == h);
        lemma_vandermonde_step(x, y, h, h);
        lemma_binom_self(h1);
        lemma_binom_self(h);
        lemma_falling_unfold_last(x + y, h);
        assert((h - h) as nat == 0nat);
        assert(vandermonde_carry(x, y, h, h) == 1 * falling(x, h) * 1);
        assert(split_term(x, y, h, h) == 1 * falling(x, h) * 1);
        assert(split_term_sum(x, y, h, (h + 1) as nat)
            == split_term_sum(x, y, h, h) + split_term(x, y, h, h));
    }
}

/// Every term of the partition sum is non-negative when both pools are.
pub proof fn lemma_split_term_nonneg(x: int, y: int, h: nat, k: nat)
    requires
        x >= 0,
        y >= 0,
        k <= h,
    ensures
        split_term(x, y, h, k) >= 0,
{
    lemma_binom_nonneg(h, k);
    lemma_falling_nonneg(x, k);
    lemma_falling_nonneg(y, (h - k) as nat);
    lemma_mul_nonnegative(binom(h, k), falling(x, k));
    lemma_mul_nonnegative(binom(h, k) * falling(x, k), falling(y, (h - k) as nat));
}

proof fn lemma_split_term_sum_nonneg(x: int, y: int, h: nat, j: nat)
    requires
        x >= 0,
        y >= 0,
        j <= h + 1,
    ensures
        split_term_sum(x, y, h, j) >= 0,
    decreases j,
{
    if j > 0 {
        lemma_split_term_sum_nonneg(x, y, h, (j - 1) as nat);
        lemma_split_term_nonneg(x, y, h, (j - 1) as nat);
    }
}

/// No term of the partition sum exceeds the whole sum.
pub proof fn lemma_split_term_le_sum(x: int, y: int, h: nat, k: nat, j: nat)
    requires
        x >= 0,
        y >= 0,
        k <= h,
        k < j <= h + 1,
    ensures
        split_term(x, y, h, k) <= split_term_sum(x, y, h, j),
    decreases j,
{
    if j == k + 1 {
        lemma_split_term_sum_nonneg(x, y, h, k);
    } else {
        lemma_split_term_le_sum(x, y, h, k, (j - 1) as nat);
        lemma_split_term_nonneg(x, y, h, (j - 1) as nat);
    }
}

} // verus!
