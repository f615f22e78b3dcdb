//! The split-probability evaluator and its exact-fraction result type.

use vstd::prelude::*;
use vstd::arithmetic::div_mod::*;

use crate::combinatorics::{
    binom, fact, falling, prod_range, split_term, split_term_sum, lemma_binom_nonneg,
    lemma_binom_pos, lemma_binom_self, lemma_binom_sym, lemma_fact_eq_falling,
    lemma_fact_le_falling, lemma_falling_eq_prod_range, lemma_falling_fact_binom,
    lemma_falling_le_fact, lemma_falling_mono, lemma_falling_nonneg, lemma_falling_split,
    lemma_prod_range_nonneg, lemma_prod_range_pos, lemma_prod_range_split,
    lemma_split_term_le_sum, lemma_split_term_nonneg, lemma_vandermonde,
};

verus! {

/// An unreduced probability: a lazily evaluated quotient of two
/// non-negative integers. Keeping the exact numerator and denominator
/// defers any lossy floating-point division to the caller.
#[derive(Debug)]
pub struct Fraction {
    num: u128,
    denom: u128,
}

impl Fraction {
    /// The exact numerator.
    pub closed spec fn num(self) -> u128 {
        self.num
    }

    /// The exact denominator.
    pub closed spec fn denom(self) -> u128 {
        self.denom
    }

    pub fn new(num: u128, denom: u128) -> (r: Self)
        ensures
            r.num() == num,
            r.denom() == denom,
    {
        Self { num, denom }
    }

    /// The numerator, for callers that evaluate or combine fractions.
    pub fn numerator(&self) -> (r: u128)
        ensures
            r == self.num(),
    {
        self.num
    }

    /// The denominator, for callers that evaluate or combine fractions.
    pub fn denominator(&self) -> (r: u128)
        ensures
            r == self.denom(),
    {
        self.denom
    }
}

/// Evaluate the product of the numbers between `begin` and `end`
/// (inclusive); an empty range gives 1.
pub fn mult_range(begin: u128, end: u128) -> (r: u128)
    requires
        prod_range(begin as int, end as int) <= u128::MAX,
    ensures
        r == prod_range(begin as int, end as int),
{
    if begin > end {
        return 1;
    }
    let mut acc: u128 = 1;
    let mut i: u128 = begin;
    loop
        invariant
            begin <= i <= end,
            prod_range(begin as int, end as int) <= u128::MAX,
            acc == prod_range(begin as int, i as int - 1),
        decreases end - i,
    {
        proof {
            lemma_prod_range_split(begin as int, i as int - 1, i as int);
            assert(prod_range(i as int, i as int) == i * prod_range(i as int + 1, i as int));
            lemma_prod_range_split(begin as int, i as int, end as int);
            lemma_prod_range_nonneg(begin as int, i as int);
            lemma_prod_range_pos(i as int + 1, end as int);
            assert(prod_range(begin as int, i as int)
                <= prod_range(begin as int, i as int) * prod_range(i as int + 1, end as int))
                by (nonlinear_arith)
                requires
                    prod_range(begin as int, i as int) >= 0,
                    prod_range(i as int + 1, end as int) >= 1,
            ;
        }
        acc = acc * i;
        if i == end {
            return acc;
        }
        i = i + 1;
    }
}

/// Evaluate the product of the range of numbers of length `down` ending
/// at `begin`: `mult_range_down_by(5, 3)` is `5 * 4 * 3`, or 60. This is
/// how quotients of factorials such as `5! / 2!` are computed without
/// materializing either factorial. `down == 0` gives the empty product, 1.
pub fn mult_range_down_by(begin: u128, down: u128) -> (r: u128)
    requires
        down <= begin + 1,
        falling(begin as int, down as nat) <= u128::MAX,
    ensures
        r == falling(begin as int, down as nat),
{
    if down == 0 {
        return 1;
    }
    proof {
        lemma_falling_eq_prod_range(begin as int, down as nat);
    }
    mult_range(begin - (down - 1), begin)
}

/// The number of combinations of `k` elements from a set of size `n`:
/// `n! / (k! * (n - k)!)`, computed as a falling factorial divided by a
/// factorial. The division is exact by combinatorial identity.
pub fn n_choose_k(n: u128, k: u128) -> (r: u128)
    requires
        k <= n,
        falling(n as int, k as nat) <= u128::MAX,
    ensures
        r == binom(n as nat, k as nat),
{
    proof {
        lemma_fact_le_falling(n as int, k as nat);
        lemma_fact_eq_falling(k as nat);
        lemma_falling_eq_prod_range(k as int, k as nat);
    }
    let num = mult_range_down_by(n, k);
    let den = mult_range(1, k);
    proof {
        lemma_falling_fact_binom(n as nat, k as nat);
        lemma_binom_nonneg(n as nat, k as nat);
        lemma_div_multiples_vanish(binom(n as nat, k as nat), fact(k as nat));
        assert(num as int == fact(k as nat) * binom(n as nat, k as nat)) by (nonlinear_arith)
            requires
                num as int == binom(n as nat, k as nat) * fact(k as nat),
        ;
    }
    num / den
}

/// The exact numerator of a split probability: the number of ordered
/// hands of size `hand_size` holding exactly `hand_count` of the
/// `deck_count` cards of the given type in a deck of `deck_size`. The
/// matching denominator is `falling(deck_size, hand_size)`, the number
/// of ordered hands altogether.
pub open spec fn split_num(hand_size: nat, hand_count: nat, deck_count: nat, deck_size: nat) -> int {
    split_term(deck_count as int, deck_size - deck_count, hand_size, hand_count)
}

/// Calculate the chance of drawing exactly `hand_count_of_type` of a given
/// type of card in a hand of size `hand_size`, given that there are
/// `deck_count_of_type` of that type of card among `deck_size` cards in the
/// deck. We call this set of circumstances a "split", as the hand is split
/// between cards of the type and cards not of the type in a given ratio.
///
/// The result is the exact, unreduced fraction: hands showing the split
/// over all possible hands, both counted with order.
///
/// Counts must make combinatorial sense: no more cards of the type in the
/// hand than in the hand itself, no larger hand than the deck, no more of
/// the type in the deck than the deck holds. Unsigned arithmetic further
/// excludes a count that overshoots its deck supply by two or more (one
/// past the supply is a well-formed impossibility with probability zero),
/// and the count of all ordered hands must fit the integer width.
pub fn chance_of_split(
    hand_size: u128,
    hand_count_of_type: u128,
    deck_count_of_type: u128,
    deck_size: u128,
) -> (r: Fraction)
    requires
        hand_count_of_type <= hand_size,
        hand_size <= deck_size,
        deck_count_of_type <= deck_size,
        hand_count_of_type <= deck_count_of_type + 1,
        hand_size - hand_count_of_type <= deck_size - deck_count_of_type + 1,
        falling(deck_size as int, hand_size as nat) <= u128::MAX,
    ensures
        r.num() == split_num(
            hand_size as nat,
            hand_count_of_type as nat,
            deck_count_of_type as nat,
            deck_size as nat,
        ),
        r.denom() == falling(deck_size as int, hand_size as nat),
{
    // The number of cards not of the given type in the expected hand,
    // and in the entire deck.
    let hand_count_of_other = hand_size - hand_count_of_type;
    let deck_count_of_other = deck_size - deck_count_of_type;

    proof {
        let h = hand_size as nat;
        let k = hand_count_of_type as nat;
        let ko = (h - k) as nat;
        let n = deck_size as int;
        let d = deck_count_of_type as int;
        let dc = n - d;
        // Every partial count the primitives compute is bounded by the
        // count of all ordered hands, which the caller bounds.
        lemma_falling_le_fact(h, k);
        lemma_fact_le_falling(n, h);
        assert((k + ko) as nat == h);
        lemma_falling_mono(d, n, k);
        lemma_falling_split(n, k, ko);
        lemma_fact_le_falling(n - k, ko);
        lemma_falling_nonneg(n, k);
        assert(falling(n, k) <= falling(n, k) * falling(n - k, ko)) by (nonlinear_arith)
            requires
                falling(n, k) >= 0,
                falling(n - k, ko) >= 1,
        ;
        assert((ko + k) as nat == h);
        lemma_falling_mono(dc, n, ko);
        lemma_falling_split(n, ko, k);
        lemma_fact_le_falling(n - ko, k);
        lemma_falling_nonneg(n, ko);
        assert(falling(n, ko) <= falling(n, ko) * falling(n - ko, k)) by (nonlinear_arith)
            requires
                falling(n, ko) >= 0,
                falling(n - ko, k) >= 1,
        ;
    }

    // The number of orderings of the hand that place the cards of the
    // given type in any subset of the hand's positions.
    let number_of_orderings = n_choose_k(hand_size, hand_count_of_type);

    // The number of ordered ways to select the cards of each kind from
    // the deck's supply of that kind: with 20 cards of the type and 3 to
    // select, there are 20 choices for the first, 19 for the second and
    // 18 for the third, so `20 * 19 * 18` selections.
    let combinations_of_given_type = mult_range_down_by(deck_count_of_type, hand_count_of_type);
    let combinations_of_other_type = mult_range_down_by(deck_count_of_other, hand_count_of_other);

    // The number of ordered ways to draw any hand at all: with 60 cards
    // and 6 to draw, `60 * 59 * 58 * 57 * 56 * 55` draws.
    let total_number_of_possible_hands = mult_range_down_by(deck_size, hand_size);

    proof {
        let h = hand_size as nat;
        let k = hand_count_of_type as nat;
        let n = deck_size as int;
        let d = deck_count_of_type as int;
        let dc = n - d;
        let b = binom(h, k);
        let fd = falling(d, k);
        let fo = falling(dc, (h - k) as nat);
        // The numerator is one term of the partition over all split
        // counts, whose sum is the denominator; so it fits wherever the
        // denominator does.
        lemma_vandermonde(d, dc, h);
        lemma_split_term_le_sum(d, dc, h, k, (h + 1) as nat);
        lemma_split_term_nonneg(d, dc, h, k);
        lemma_binom_pos(h, k);
        lemma_falling_nonneg(d, k);
        lemma_falling_nonneg(dc, (h - k) as nat);
        assert(split_term(d, dc, h, k) == b * fd * fo);
        assert(fd * fo >= 0 && fd * fo <= b * fd * fo) by (nonlinear_arith)
            requires
                b >= 1,
                fd >= 0,
                fo >= 0,
        ;
        assert(fd * fo * b == b * fd * fo) by (nonlinear_arith);
    }

    // The number of hands showing the split: select each kind from its
    // supply, then place the selections within the hand.
    let number_of_possible_hands_with_split =
        combinations_of_given_type * combinations_of_other_type * number_of_orderings;

    // The chance of the split is the hands showing it over all hands.
    Fraction::new(number_of_possible_hands_with_split, total_number_of_possible_hands)
}

/// Helper function to calculate the chance of a number of splits in bulk:
/// one `Fraction` per requested count, in the caller's order.
pub fn chance_of_splits(
    hand_size: u128,
    hand_counts: &[u128],
    deck_count: u128,
    deck_size: u128,
) -> (r: Vec<Fraction>)
    requires
        hand_size <= deck_size,
        deck_count <= deck_size,
        falling(deck_size as int, hand_size as nat) <= u128::MAX,
        forall|i: int| 0 <= i < hand_counts@.len() ==> #[trigger] hand_counts@[i] <= hand_size,
        forall|i: int|
            0 <= i < hand_counts@.len() ==> #[trigger] hand_counts@[i] <= deck_count + 1,
        forall|i: int|
            0 <= i < hand_counts@.len()
                ==> hand_size - #[trigger] hand_counts@[i] <= deck_size - deck_count + 1,
    ensures
        r@.len() == hand_counts@.len(),
        forall|i: int|
            0 <= i < r@.len() ==> #[trigger] r@[i].num() == split_num(
                hand_size as nat,
                hand_counts@[i] as nat,
                deck_count as nat,
                deck_size as nat,
            ),
        forall|i: int|
            0 <= i < r@.len() ==> #[trigger] r@[i].denom() == falling(
                deck_size as int,
                hand_size as nat,
            ),
{
    let mut results: Vec<Fraction> = Vec::new();
    let mut idx: usize = 0;
    while idx < hand_counts.len()
        invariant
            idx <= hand_counts@.len(),
            hand_size <= deck_size,
            deck_count <= deck_size,
            falling(deck_size as int, hand_size as nat) <= u128::MAX,
            forall|i: int| 0 <= i < hand_counts@.len() ==> #[trigger] hand_counts@[i] <= hand_size,
            forall|i: int|
                0 <= i < hand_counts@.len() ==> #[trigger] hand_counts@[i] <= deck_count + 1,
            forall|i: int|
                0 <= i < hand_counts@.len()
                    ==> hand_size - #[trigger] hand_counts@[i] <= deck_size - deck_count + 1,
            results@.len() == idx,
            forall|i: int|
                0 <= i < results@.len() ==> #[trigger] results@[i].num() == split_num(
                    hand_size as nat,
                    hand_counts@[i] as nat,
                    deck_count as nat,
                    deck_size as nat,
                ),
            forall|i: int|
                0 <= i < results@.len() ==> #[trigger] results@[i].denom() == falling(
                    deck_size as int,
                    hand_size as nat,
                ),
        decreases hand_counts@.len() - idx,
    {
        let count = hand_counts[idx];
        let f = chance_of_split(hand_size, count, deck_count, deck_size);
        results.push(f);
        idx += 1;
    }
    results
}

/// Sum of `split_num` over the hand counts `0 .. j` of the type.
pub open spec fn split_num_sum(hand_size: nat, j: nat, deck_count: nat, deck_size: nat) -> int {
    split_term_sum(deck_count as int, deck_size - deck_count, hand_size, j)
}

/// The splits partition all hands: over every possible count of the
/// type, `0` through `hand_size`, the numerators of the split fractions
/// add up to their common denominator, the count of all ordered hands —
/// so the probabilities of the full range of splits add up to one.
pub proof fn lemma_splits_partition(hand_size: nat, deck_count: nat, deck_size: nat)
    requires
        hand_size <= deck_size,
        deck_count <= deck_size,
    ensures
        split_num_sum(hand_size, (hand_size + 1) as nat, deck_count, deck_size) == falling(
            deck_size as int,
            hand_size,
        ),
{
    lemma_vandermonde(deck_count as int, deck_size - deck_count, hand_size);
    assert(deck_count + (deck_size - deck_count) == deck_size as int);
}

/// Boundary case: the chance of drawing no card of the type equals
/// `C(deck_size - deck_count, hand_size) / C(deck_size, hand_size)`,
/// fractions compared by cross-multiplication.
pub proof fn lemma_none_of_type_boundary(hand_size: nat, deck_count: nat, deck_size: nat)
    requires
        hand_size <= deck_size,
        deck_count <= deck_size,
    ensures
        split_num(hand_size, 0, deck_count, deck_size) * binom(deck_size, hand_size) == binom(
            (deck_size - deck_count) as nat,
            hand_size,
        ) * falling(deck_size as int, hand_size),
{
    let n = deck_size as int;
    let d = deck_count as int;
    let o = (deck_size - deck_count) as nat;
    assert((hand_size - 0) as nat == hand_size);
    assert(split_num(hand_size, 0, deck_count, deck_size) == 1 * 1 * falling(n - d, hand_size));
    assert(split_num(hand_size, 0, deck_count, deck_size) == falling(n - d, hand_size))
        by (nonlinear_arith)
        requires
            split_num(hand_size, 0, deck_count, deck_size) == 1 * 1 * falling(n - d, hand_size),
    ;
    lemma_falling_fact_binom(o, hand_size);
    lemma_falling_fact_binom(deck_size, hand_size);
    let bo = binom(o, hand_size);
    let bn = binom(deck_size, hand_size);
    assert(falling(n - d, hand_size) * bn == bo * falling(n, hand_size)) by (nonlinear_arith)
        requires
            falling(n - d, hand_size) == bo * fact(hand_size),
            falling(n, hand_size) == bn * fact(hand_size),
    ;
}

/// Boundary case: when the deck holds at least a hand's worth of the
/// type, the chance that the hand is entirely of the type equals
/// `C(deck_count, hand_size) / C(deck_size, hand_size)`, fractions
/// compared by cross-multiplication.
pub proof fn lemma_all_of_type_boundary(hand_size: nat, deck_count: nat, deck_size: nat)
    requires
        hand_size <= deck_count,
        deck_count <= deck_size,
    ensures
        split_num(hand_size, hand_size, deck_count, deck_size) * binom(deck_size, hand_size)
            == binom(deck_count, hand_size) * falling(deck_size as int, hand_size),
{
    let n = deck_size as int;
    let d = deck_count as int;
    lemma_binom_self(hand_size);
    assert((hand_size - hand_size) as nat == 0nat);
    assert(split_num(hand_size, hand_size, deck_count, deck_size) == 1 * falling(d, hand_size) * 1);
    lemma_falling_fact_binom(deck_count, hand_size);
    lemma_falling_fact_binom(deck_size, hand_size);
    let bd = binom(deck_count, hand_size);
    let bn = binom(deck_size, hand_size);
    assert(falling(d, hand_size) * bn == bd * falling(n, hand_size)) by (nonlinear_arith)
        requires
            falling(d, hand_size) == bd * fact(hand_size),
            falling(n, hand_size) == bn * fact(hand_size),
    ;
}

/// Symmetry: swapping the roles of "of the type" and "not of the type" —
/// querying `hand_size - hand_count` cards out of the `deck_size -
/// deck_count` others — reproduces the identical fraction: the same
/// numerator over the same denominator.
pub proof fn lemma_split_symmetry(hand_size: nat, hand_count: nat, deck_count: nat, deck_size: nat)
    requires
        hand_count <= hand_size,
        hand_size <= deck_size,
        deck_count <= deck_size,
    ensures
        split_num(hand_size, hand_count, deck_count, deck_size) == split_num(
            hand_size,
            (hand_size - hand_count) as nat,
            (deck_size - deck_count) as nat,
            deck_size,
        ),
{
    let ko = (hand_size - hand_count) as nat;
    let d = deck_count as int;
    let o = deck_size - deck_count;
    lemma_binom_sym(hand_size, hand_count);
    assert((hand_size - ko) as nat == hand_count);
    assert(deck_size - (deck_size - deck_count) as nat == d);
    let b = binom(hand_size, hand_count);
    let fd = falling(d, hand_count);
    let fo = falling(o, ko);
    assert(split_num(hand_size, hand_count, deck_count, deck_size) == b * fd * fo);
    assert(split_num(hand_size, ko, (deck_size - deck_count) as nat, deck_size)
        == binom(hand_size, ko) * fo * fd);
    assert(b * fd * fo == b * fo * fd) by (nonlinear_arith);
}

} // verus!
