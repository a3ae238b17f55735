//! Mixed-radix counting.
//!
//! A list of sizes `[s0, s1, .., sk]` spans the space of all selections that
//! pick one index below `s_i` at each position `i`. The selections are
//! numbered `0 .. s0 * s1 * .. * sk` so that the last position cycles fastest
//! and the first one slowest, as nested loops with the first position
//! outermost would visit them. A position of size zero has nothing to pick
//! from: it takes no part in the count and its index is always zero.

use vstd::arithmetic::div_mod::{
    lemma_div_denominator, lemma_fundamental_div_mod, lemma_fundamental_div_mod_converse,
    lemma_mod_bound, lemma_multiply_divide_lt,
};
use vstd::arithmetic::mul::{
    lemma_mul_inequality, lemma_mul_is_associative, lemma_mul_is_commutative,
    lemma_mul_strictly_positive,
};
use vstd::prelude::*;

verus! {

/// How many indices a position of the given size ranges over. A position
/// without alternatives counts once, so that it never zeroes a product and
/// never becomes a divisor of zero.
pub open spec fn radix(size: nat) -> nat {
    if size == 0 {
        1
    } else {
        size
    }
}

/// The number of selections over `sizes`: the product of the sizes, the empty
/// ones left out. It is 1 for the empty list.
pub open spec fn product(sizes: Seq<nat>) -> nat
    decreases sizes.len(),
{
    if sizes.len() == 0 {
        1
    } else {
        radix(sizes[0]) * product(sizes.drop_first())
    }
}

/// The weight of position `i`: the product of the sizes to its right.
pub open spec fn divisor(sizes: Seq<nat>, i: int) -> nat {
    product(sizes.skip(i + 1))
}

/// The index that selection number `n` picks at position `i`.
pub open spec fn digit(sizes: Seq<nat>, n: nat, i: int) -> nat {
    if sizes[i] == 0 {
        0
    } else {
        (n / divisor(sizes, i)) % sizes[i]
    }
}

/// Selection number `n`: one index for each position.
pub open spec fn combination(sizes: Seq<nat>, n: nat) -> Seq<nat> {
    Seq::new(sizes.len(), |i: int| digit(sizes, n, i))
}

/// `picks` selects one index at each position of `sizes`.
pub open spec fn is_selection(sizes: Seq<nat>, picks: Seq<nat>) -> bool {
    &&& picks.len() == sizes.len()
    &&& forall|i: int| 0 <= i < sizes.len() ==> #[trigger] picks[i] < radix(sizes[i])
}

/// The number under which a selection is listed.
pub open spec fn rank(sizes: Seq<nat>, picks: Seq<nat>) -> nat
    decreases sizes.len(),
{
    if sizes.len() == 0 {
        0
    } else {
        rank(sizes.drop_last(), picks.drop_last()) * radix(sizes.last()) + picks.last()
    }
}

/// Machine sizes read as natural numbers.
pub open spec fn as_nats(v: Seq<usize>) -> Seq<nat> {
    v.map_values(|x: usize| x as nat)
}

/// There is at least one selection.
pub proof fn lemma_product_positive(sizes: Seq<nat>)
    ensures
        product(sizes) > 0,
    decreases sizes.len(),
{
    if sizes.len() > 0 {
        lemma_product_positive(sizes.drop_first());
        lemma_mul_strictly_positive(radix(sizes[0]) as int, product(sizes.drop_first()) as int);
    }
}

/// Appending a position multiplies the count by its radix.
pub proof fn lemma_product_push(sizes: Seq<nat>, size: nat)
    ensures
        product(sizes.push(size)) == product(sizes) * radix(size),
    decreases sizes.len(),
{
    let extended = sizes.push(size);
    let r = radix(size);
    if sizes.len() == 0 {
        assert(extended[0] == size);
        assert(extended.drop_first() =~= Seq::<nat>::empty());
        assert(product(Seq::<nat>::empty()) == 1);
        assert(product(extended) == r * 1);
        assert(product(sizes) == 1);
        assert(r * 1 == 1 * r) by (nonlinear_arith);
    } else {
        let head = radix(sizes[0]);
        let tail = product(sizes.drop_first());
        assert(extended[0] == sizes[0]);
        assert(extended.drop_first() =~= sizes.drop_first().push(size));
        lemma_product_push(sizes.drop_first(), size);
        assert(product(extended) == head * (tail * r));
        assert(product(sizes) == head * tail);
        lemma_mul_is_associative(head as int, tail as int, r as int);
    }
}

/// The weight of a position is its right neighbour's weight times that
/// neighbour's radix; the last position has weight 1.
pub proof fn lemma_divisor_step(sizes: Seq<nat>, i: int)
    requires
        0 <= i < sizes.len(),
    ensures
        divisor(sizes, i) > 0,
        i == sizes.len() - 1 ==> divisor(sizes, i) == 1,
        i < sizes.len() - 1 ==> divisor(sizes, i) == radix(sizes[i + 1]) * divisor(sizes, i + 1),
        i == 0 ==> product(sizes) == radix(sizes[0]) * divisor(sizes, 0),
{
    lemma_product_positive(sizes.skip(i + 1));
    if i < sizes.len() - 1 {
        assert(sizes.skip(i + 1).drop_first() =~= sizes.skip(i + 2));
    }
    if i == 0 {
        assert(sizes.skip(1) =~= sizes.drop_first());
    }
}

/// Every index of a selection lies below the size of its position.
pub proof fn lemma_digit_bound(sizes: Seq<nat>, n: nat, i: int)
    requires
        0 <= i < sizes.len(),
    ensures
        digit(sizes, n, i) < radix(sizes[i]),
        sizes[i] > 0 ==> digit(sizes, n, i) < sizes[i],
{
    if sizes[i] > 0 {
        lemma_divisor_step(sizes, i);
        lemma_mod_bound((n / divisor(sizes, i)) as int, sizes[i] as int);
    }
}

/// The last position takes the remainder by its radix, and the positions to
/// its left number the quotient among themselves.
pub proof fn lemma_combination_unfold(sizes: Seq<nat>, n: nat)
    requires
        sizes.len() > 0,
    ensures
        combination(sizes, n) == combination(
            sizes.drop_last(),
            n / radix(sizes.last()),
        ).push(n % radix(sizes.last())),
{
    let init = sizes.drop_last();
    let r = radix(sizes.last());
    let short = combination(init, n / r).push(n % r);
    assert(combination(sizes, n).len() == short.len());
    assert forall|i: int| 0 <= i < sizes.len() implies combination(sizes, n)[i] == short[i] by {
        if i == sizes.len() - 1 {
            lemma_divisor_step(sizes, i);
            if sizes[i] == 0 {
                assert(n % 1 == 0);
            } else {
                assert(n / 1 == n);
            }
        } else {
            assert(init[i] == sizes[i]);
            assert(sizes.skip(i + 1) =~= init.skip(i + 1).push(sizes.last()));
            lemma_product_push(init.skip(i + 1), sizes.last());
            lemma_divisor_step(init, i);
            let d = divisor(init, i);
            assert(divisor(sizes, i) == d * r);
            if sizes[i] > 0 {
                lemma_div_denominator(n as int, r as int, d as int);
                lemma_mul_is_commutative(r as int, d as int);
                assert((n / r) / d == n / (d * r));
            }
        }
    }
    assert(combination(sizes, n) =~= short);
}

/// A selection is listed under a number below the count.
pub proof fn lemma_rank_bound(sizes: Seq<nat>, picks: Seq<nat>)
    requires
        is_selection(sizes, picks),
    ensures
        rank(sizes, picks) < product(sizes),
    decreases sizes.len(),
{
    if sizes.len() > 0 {
        let init = sizes.drop_last();
        let r = radix(sizes.last());
        assert(is_selection(init, picks.drop_last())) by {
            assert forall|i: int| 0 <= i < init.len() implies #[trigger] picks.drop_last()[i]
                < radix(init[i]) by {
                assert(picks.drop_last()[i] == picks[i]);
            }
        }
        lemma_rank_bound(init, picks.drop_last());
        assert(sizes =~= init.push(sizes.last()));
        lemma_product_push(init, sizes.last());
        let upper = rank(init, picks.drop_last());
        assert(picks.last() == picks[sizes.len() - 1]);
        assert(picks.last() < r);
        assert(upper * r + picks.last() < product(init) * r) by {
            lemma_mul_inequality(upper as int + 1, product(init) as int, r as int);
            assert((upper + 1) * r == upper * r + r) by (nonlinear_arith);
        }
    }
}

/// The selection listed under a selection's rank is that selection.
pub proof fn lemma_combination_of_rank(sizes: Seq<nat>, picks: Seq<nat>)
    requires
        is_selection(sizes, picks),
    ensures
        combination(sizes, rank(sizes, picks)) == picks,
    decreases sizes.len(),
{
    if sizes.len() == 0 {
        assert(combination(sizes, rank(sizes, picks)) =~= picks);
    } else {
        let init = sizes.drop_last();
        let r = radix(sizes.last());
        let rest = picks.drop_last();
        assert(is_selection(init, rest)) by {
            assert forall|i: int| 0 <= i < init.len() implies #[trigger] rest[i] < radix(
                init[i],
            ) by {
                assert(rest[i] == picks[i]);
            }
        }
        lemma_combination_of_rank(init, rest);
        let upper = rank(init, rest);
        let n = rank(sizes, picks);
        assert(picks.last() == picks[sizes.len() - 1]);
        lemma_fundamental_div_mod_converse(n as int, r as int, upper as int, picks.last() as int);
        lemma_combination_unfold(sizes, n);
        assert(rest.push(picks.last()) =~= picks);
    }
}

/// The rank of the selection listed under `n` is `n`.
pub proof fn lemma_rank_of_combination(sizes: Seq<nat>, n: nat)
    requires
        n < product(sizes),
    ensures
        is_selection(sizes, combination(sizes, n)),
        rank(sizes, combination(sizes, n)) == n,
    decreases sizes.len(),
{
    assert forall|i: int| 0 <= i < sizes.len() implies #[trigger] combination(sizes, n)[i]
        < radix(sizes[i]) by {
        lemma_digit_bound(sizes, n, i);
    }
    if sizes.len() > 0 {
        let init = sizes.drop_last();
        let r = radix(sizes.last());
        assert(sizes =~= init.push(sizes.last()));
        lemma_product_push(init, sizes.last());
        lemma_mul_is_commutative(product(init) as int, r as int);
        lemma_multiply_divide_lt(n as int, r as int, product(init) as int);
        lemma_rank_of_combination(init, n / r);
        lemma_combination_unfold(sizes, n);
        let row = combination(sizes, n);
        assert(row.drop_last() =~= combination(init, n / r));
        assert(row.last() == n % r);
        lemma_fundamental_div_mod(n as int, r as int);
        lemma_mul_is_commutative(r as int, (n / r) as int);
    }
}

/// Different numbers below the count list different selections.
pub proof fn lemma_combinations_distinct(sizes: Seq<nat>, m: nat, n: nat)
    requires
        m < product(sizes),
        n < product(sizes),
        m != n,
    ensures
        combination(sizes, m) != combination(sizes, n),
{
    lemma_rank_of_combination(sizes, m);
    lemma_rank_of_combination(sizes, n);
}

/// Every selection is listed under exactly one number below the count.
pub proof fn lemma_combinations_complete(sizes: Seq<nat>, picks: Seq<nat>)
    requires
        is_selection(sizes, picks),
    ensures
        rank(sizes, picks) < product(sizes),
        combination(sizes, rank(sizes, picks)) == picks,
        forall|n: nat|
            n < product(sizes) && #[trigger] combination(sizes, n) == picks ==> n == rank(
                sizes,
                picks,
            ),
{
    lemma_rank_bound(sizes, picks);
    lemma_combination_of_rank(sizes, picks);
    assert forall|n: nat|
        n < product(sizes) && #[trigger] combination(sizes, n) == picks implies n == rank(
        sizes,
        picks,
    ) by {
        lemma_rank_of_combination(sizes, n);
    }
}

/// The number of a selection, read from the left: the first index times
/// the count of the positions after it, plus the number of the rest.
pub proof fn lemma_rank_from_left(sizes: Seq<nat>, picks: Seq<nat>)
    requires
        sizes.len() > 0,
        picks.len() == sizes.len(),
    ensures
        rank(sizes, picks) == picks[0] * product(sizes.drop_first()) + rank(
            sizes.drop_first(),
            picks.drop_first(),
        ),
    decreases sizes.len(),
{
    let init = sizes.drop_last();
    let rest = picks.drop_last();
    let r = radix(sizes.last());
    let low = picks.last();
    if sizes.len() == 1 {
        assert(init =~= Seq::<nat>::empty());
        assert(sizes.drop_first() =~= Seq::<nat>::empty());
        assert(rank(init, rest) == 0);
        assert(rank(sizes.drop_first(), picks.drop_first()) == 0);
        assert(product(sizes.drop_first()) == 1);
        assert(picks.last() == picks[0]);
        assert(0 * r == 0) by (nonlinear_arith);
        assert(picks[0] * 1 == picks[0]) by (nonlinear_arith);
    } else {
        lemma_rank_from_left(init, rest);
        let tail = sizes.drop_first();
        let tail_picks = picks.drop_first();
        assert(tail.drop_last() =~= init.drop_first());
        assert(tail_picks.drop_last() =~= rest.drop_first());
        assert(tail.last() == sizes.last());
        assert(tail_picks.last() == low);
        assert(tail =~= init.drop_first().push(sizes.last()));
        lemma_product_push(init.drop_first(), sizes.last());
        let p = product(init.drop_first());
        let inner = rank(init.drop_first(), rest.drop_first());
        assert(rest[0] == picks[0]);
        assert(rank(tail, tail_picks) == inner * r + low);
        assert(rank(sizes, picks) == (picks[0] * p + inner) * r + low);
        assert((picks[0] * p + inner) * r == picks[0] * (p * r) + inner * r)
            by (nonlinear_arith);
    }
}

/// The selections come in the order of nested loops with the first
/// position outermost: the selections that pick `outer` first are listed
/// together, after those that pick a smaller index first, and among them
/// the order is that of the selections over the remaining positions.
pub proof fn lemma_nested_order(sizes: Seq<nat>, outer: nat, inner: nat)
    requires
        sizes.len() > 0,
        outer < radix(sizes[0]),
        inner < product(sizes.drop_first()),
    ensures
        outer * product(sizes.drop_first()) + inner < product(sizes),
        combination(sizes, outer * product(sizes.drop_first()) + inner) == seq![outer]
            + combination(sizes.drop_first(), inner),
{
    let tail = sizes.drop_first();
    let picks = seq![outer] + combination(tail, inner);
    lemma_rank_of_combination(tail, inner);
    assert(picks.drop_first() =~= combination(tail, inner));
    assert(is_selection(sizes, picks)) by {
        assert forall|i: int| 0 <= i < sizes.len() implies #[trigger] picks[i] < radix(
            sizes[i],
        ) by {
            if i > 0 {
                assert(picks[i] == combination(tail, inner)[i - 1]);
                assert(combination(tail, inner)[i - 1] < radix(tail[i - 1]));
            }
        }
    }
    lemma_rank_from_left(sizes, picks);
    lemma_rank_bound(sizes, picks);
    lemma_combination_of_rank(sizes, picks);
}

/// The weights of the positions, or `None` where one of them is no machine
/// number.
pub fn divisors(sizes: &Vec<usize>) -> (weights: Option<Vec<usize>>)
    ensures
        match weights {
            Some(w) => {
                &&& w.len() == sizes.len()
                &&& forall|i: int|
                    0 <= i < sizes.len() ==> 0 < #[trigger] w[i] == divisor(as_nats(sizes@), i)
            },
            None => exists|i: int|
                0 <= i < sizes.len() && #[trigger] divisor(as_nats(sizes@), i) > usize::MAX,
        },
{
    let ghost all = as_nats(sizes@);
    let mut weights: Vec<usize> = Vec::new();
    let mut k: usize = 0;
    while k < sizes.len()
        invariant
            k <= sizes.len(),
            weights.len() == k,
        decreases sizes.len() - k,
    {
        weights.push(1);
        k = k + 1;
    }
    let mut acc: usize = 1;
    let mut i: usize = sizes.len();
    proof {
        assert(all.skip(i as int) =~= Seq::<nat>::empty());
    }
    while i > 0
        invariant
            i <= sizes.len(),
            weights.len() == sizes.len(),
            all == as_nats(sizes@),
            i > 0 ==> acc == product(all.skip(i as int)),
            forall|j: int| i <= j < sizes.len() ==> #[trigger] weights[j] == divisor(all, j),
        decreases i,
    {
        i = i - 1;
        weights.set(i, acc);
        if i > 0 {
            let size: usize = sizes[i];
            let factor: usize = if size == 0 {
                1
            } else {
                size
            };
            proof {
                let wider = all.skip(i as int);
                assert(wider.drop_first() =~= all.skip(i + 1));
                assert(wider[0] == size as nat);
                assert(product(wider) == radix(size as nat) * acc);
                assert(divisor(all, i - 1) == product(wider));
            }
            match factor.checked_mul(acc) {
                Some(next) => {
                    acc = next;
                },
                None => {
                    return None;
                },
            }
        }
    }
    proof {
        assert forall|j: int| 0 <= j < sizes.len() implies 0 < #[trigger] weights[j] by {
            lemma_divisor_step(all, j);
        }
    }
    Some(weights)
}

/// Selection number `n`, computed with the given weights: position `i` gets
/// `(n / divisors[i]) % sizes[i]`, and zero where there is nothing to pick.
/// With the weights of the positions this is selection number `n`.
pub fn get_combinations(n: usize, sizes: &Vec<usize>, divisors: &Vec<usize>) -> (row: Vec<usize>)
    requires
        sizes.len() == divisors.len(),
        forall|i: int| 0 <= i < sizes.len() && sizes[i] > 0 ==> divisors[i] > 0,
    ensures
        row.len() == sizes.len(),
        forall|i: int|
            0 <= i < sizes.len() ==> #[trigger] row[i] == (if sizes[i] == 0 {
                0
            } else {
                (n / divisors[i]) % sizes[i]
            }),
        (forall|i: int| 0 <= i < sizes.len() ==> #[trigger] divisors[i] == divisor(
            as_nats(sizes@),
            i,
        )) ==> as_nats(row@) == combination(as_nats(sizes@), n as nat),
{
    let mut row: Vec<usize> = Vec::new();
    let mut i: usize = 0;
    while i < sizes.len()
        invariant
            i <= sizes.len(),
            sizes.len() == divisors.len(),
            forall|j: int| 0 <= j < sizes.len() && sizes[j] > 0 ==> divisors[j] > 0,
            row.len() == i,
            forall|j: int|
                0 <= j < i ==> #[trigger] row[j] == (if sizes[j] == 0 {
                    0
                } else {
                    (n / divisors[j]) % sizes[j]
                }),
        decreases sizes.len() - i,
    {
        let size: usize = sizes[i];
        let pick: usize = if size == 0 {
            0
        } else {
            (n / divisors[i]) % size
        };
        row.push(pick);
        i = i + 1;
    }
    proof {
        let all = as_nats(sizes@);
        if forall|i: int| 0 <= i < sizes.len() ==> #[trigger] divisors[i] == divisor(all, i) {
            assert forall|j: int| 0 <= j < sizes.len() implies as_nats(row@)[j] == digit(
                all,
                n as nat,
                j,
            ) by {
                assert(all[j] == sizes[j] as nat);
                assert(divisors[j] == divisor(all, j));
            }
            assert(as_nats(row@) =~= combination(all, n as nat));
        }
    }
    row
}

/// The first selection picks index zero everywhere.
pub proof fn lemma_first_combination(sizes: Seq<nat>)
    ensures
        combination(sizes, 0) == Seq::new(sizes.len(), |i: int| 0nat),
{
    assert forall|i: int| 0 <= i < sizes.len() implies digit(sizes, 0, i) == 0 by {
        lemma_divisor_step(sizes, i);
        if sizes[i] > 0 {
            assert(0nat / divisor(sizes, i) == 0) by (nonlinear_arith)
                requires
                    divisor(sizes, i) > 0,
            ;
            assert(0nat % sizes[i] == 0) by (nonlinear_arith)
                requires
                    sizes[i] > 0,
            ;
        }
    }
    assert(combination(sizes, 0) =~= Seq::new(sizes.len(), |i: int| 0nat));
}

/// The selection picks the last index at the positions from `from` on.
pub open spec fn is_last_from(sizes: Seq<nat>, picks: Seq<nat>, from: int) -> bool {
    forall|i: int| from <= i < sizes.len() ==> #[trigger] picks[i] + 1 >= radix(sizes[i])
}

/// The selection picks the last index everywhere: it is the last one.
pub open spec fn is_last(sizes: Seq<nat>, picks: Seq<nat>) -> bool {
    is_last_from(sizes, picks, 0)
}

/// The selection after `picks`: the rightmost position that can still move
/// on does so, and the positions to its right start over. After the last
/// selection comes the first.
pub open spec fn successor(sizes: Seq<nat>, picks: Seq<nat>) -> Seq<nat>
    decreases sizes.len(),
{
    if sizes.len() == 0 {
        picks
    } else if picks.last() + 1 < radix(sizes.last()) {
        picks.drop_last().push(picks.last() + 1)
    } else {
        successor(sizes.drop_last(), picks.drop_last()).push(0)
    }
}

/// The successor, where position `at` is the rightmost that can move on.
pub proof fn lemma_successor_at(sizes: Seq<nat>, picks: Seq<nat>, at: int)
    requires
        picks.len() == sizes.len(),
        0 <= at < sizes.len(),
        picks[at] + 1 < radix(sizes[at]),
        is_last_from(sizes, picks, at + 1),
    ensures
        successor(sizes, picks) == Seq::new(
            sizes.len(),
            |i: int|
                if i < at {
                    picks[i]
                } else if i == at {
                    picks[at] + 1
                } else {
                    0nat
                },
        ),
    decreases sizes.len(),
{
    let moved = Seq::new(
        sizes.len(),
        |i: int|
            if i < at {
                picks[i]
            } else if i == at {
                picks[at] + 1
            } else {
                0nat
            },
    );
    if at == sizes.len() - 1 {
        assert(successor(sizes, picks) =~= moved);
    } else {
        assert(picks[sizes.len() - 1] + 1 >= radix(sizes[sizes.len() - 1]));
        assert(is_last_from(sizes.drop_last(), picks.drop_last(), at + 1)) by {
            assert forall|i: int| at + 1 <= i < sizes.drop_last().len() implies #[trigger] picks.drop_last()[i]
                + 1 >= radix(sizes.drop_last()[i]) by {
                assert(picks[i] + 1 >= radix(sizes[i]));
            }
        }
        lemma_successor_at(sizes.drop_last(), picks.drop_last(), at);
        assert(successor(sizes, picks) =~= moved);
    }
}

/// After the last selection comes the first.
pub proof fn lemma_successor_of_last(sizes: Seq<nat>, picks: Seq<nat>)
    requires
        picks.len() == sizes.len(),
        is_last(sizes, picks),
    ensures
        successor(sizes, picks) == Seq::new(sizes.len(), |i: int| 0nat),
    decreases sizes.len(),
{
    if sizes.len() == 0 {
        assert(picks =~= Seq::new(0, |i: int| 0nat));
    } else {
        assert(picks[sizes.len() - 1] + 1 >= radix(sizes[sizes.len() - 1]));
        assert(is_last(sizes.drop_last(), picks.drop_last())) by {
            assert forall|i: int| 0 <= i < sizes.drop_last().len() implies #[trigger] picks.drop_last()[i]
                + 1 >= radix(sizes.drop_last()[i]) by {
                assert(picks[i] + 1 >= radix(sizes[i]));
            }
        }
        lemma_successor_of_last(sizes.drop_last(), picks.drop_last());
        assert(successor(sizes, picks) =~= Seq::new(sizes.len(), |i: int| 0nat));
    }
}

/// The last selection, and no other, has the highest number.
pub proof fn lemma_last_rank(sizes: Seq<nat>, picks: Seq<nat>)
    requires
        is_selection(sizes, picks),
    ensures
        is_last(sizes, picks) <==> rank(sizes, picks) + 1 == product(sizes),
    decreases sizes.len(),
{
    if sizes.len() > 0 {
        let init = sizes.drop_last();
        let rest = picks.drop_last();
        let r = radix(sizes.last());
        let low = picks.last();
        assert(is_selection(init, rest)) by {
            assert forall|i: int| 0 <= i < init.len() implies #[trigger] rest[i] < radix(
                init[i],
            ) by {
                assert(rest[i] == picks[i]);
            }
        }
        lemma_last_rank(init, rest);
        lemma_rank_bound(init, rest);
        assert(sizes =~= init.push(sizes.last()));
        lemma_product_push(init, sizes.last());
        let high = rank(init, rest);
        let p = product(init);
        assert(low == picks[sizes.len() - 1]);
        assert(low < r);
        assert(is_last(sizes, picks) <==> is_last(init, rest) && low + 1 == r) by {
            if is_last(sizes, picks) {
                assert(picks[sizes.len() - 1] + 1 >= radix(sizes[sizes.len() - 1]));
                assert forall|i: int| 0 <= i < init.len() implies #[trigger] rest[i] + 1
                    >= radix(init[i]) by {
                    assert(picks[i] + 1 >= radix(sizes[i]));
                }
            }
            if is_last(init, rest) && low + 1 == r {
                assert forall|i: int| 0 <= i < sizes.len() implies #[trigger] picks[i] + 1
                    >= radix(sizes[i]) by {
                    if i < init.len() {
                        assert(rest[i] + 1 >= radix(init[i]));
                    }
                }
            }
        }
        assert(high * r + low + 1 == p * r <==> high + 1 == p && low + 1 == r)
            by (nonlinear_arith)
            requires
                high < p,
                low < r,
        ;
    }
}

/// Stepping to the successor is stepping to the next number.
pub proof fn lemma_successor(sizes: Seq<nat>, n: nat)
    requires
        n + 1 < product(sizes),
    ensures
        combination(sizes, n + 1) == successor(sizes, combination(sizes, n)),
    decreases sizes.len(),
{
    if sizes.len() == 0 {
        assert(product(sizes) == 1);
    } else {
        let init = sizes.drop_last();
        let r = radix(sizes.last());
        let q = n / r;
        let m = n % r;
        assert(sizes =~= init.push(sizes.last()));
        lemma_product_push(init, sizes.last());
        lemma_combination_unfold(sizes, n);
        lemma_combination_unfold(sizes, n + 1);
        lemma_fundamental_div_mod(n as int, r as int);
        lemma_mod_bound(n as int, r as int);
        lemma_mul_is_commutative(r as int, q as int);
        let row = combination(sizes, n);
        assert(row.drop_last() =~= combination(init, q));
        assert(row.last() == m);
        if m + 1 < r {
            lemma_fundamental_div_mod_converse((n + 1) as int, r as int, q as int, (m + 1) as int);
        } else {
            assert((q + 1) * r == q * r + r) by (nonlinear_arith);
            lemma_fundamental_div_mod_converse((n + 1) as int, r as int, (q + 1) as int, 0);
            assert(q + 1 < product(init)) by (nonlinear_arith)
                requires
                    (q + 1) * r < product(init) * r,
                    r > 0,
            ;
            lemma_successor(init, q);
        }
    }
}

/// Steps to the next selection and tells whether there was one: after the
/// last selection the first comes round again, and the answer is no.
pub fn advance(picks: &mut Vec<usize>, sizes: &Vec<usize>) -> (more: bool)
    requires
        is_selection(as_nats(sizes@), as_nats(old(picks)@)),
    ensures
        as_nats(final(picks)@) == successor(as_nats(sizes@), as_nats(old(picks)@)),
        is_selection(as_nats(sizes@), as_nats(final(picks)@)),
        more == !is_last(as_nats(sizes@), as_nats(old(picks)@)),
{
    let ghost all = as_nats(sizes@);
    let ghost before = as_nats(picks@);
    let mut i: usize = sizes.len();
    while i > 0
        invariant
            i <= sizes.len(),
            picks.len() == sizes.len(),
            all == as_nats(sizes@),
            before == as_nats(old(picks)@),
            is_selection(all, before),
            is_last_from(all, before, i as int),
            forall|j: int| 0 <= j < i ==> picks[j] == old(picks)[j],
            forall|j: int| i <= j < sizes.len() ==> picks[j] == 0,
        decreases i,
    {
        i = i - 1;
        let size: usize = sizes[i];
        let pick: usize = picks[i];
        proof {
            assert(before[i as int] == pick as nat);
            assert(before[i as int] < radix(all[i as int]));
            assert(all[i as int] == size as nat);
        }
        if size != 0 && pick + 1 < size {
            picks.set(i, pick + 1);
            proof {
                lemma_successor_at(all, before, i as int);
                assert(as_nats(picks@) =~= successor(all, before));
                assert forall|j: int| 0 <= j < all.len() implies #[trigger] as_nats(picks@)[j]
                    < radix(all[j]) by {
                    if j < i {
                        assert(before[j] < radix(all[j]));
                    }
                }
                assert(before[i as int] + 1 < radix(all[i as int]));
            }
            return true;
        }
        picks.set(i, 0);
        proof {
            assert forall|j: int| i <= j < all.len() implies #[trigger] before[j] + 1 >= radix(
                all[j],
            ) by {
                if j > i {
                    assert(is_last_from(all, before, i + 1));
                }
            }
        }
    }
    proof {
        lemma_successor_of_last(all, before);
        assert(as_nats(picks@) =~= successor(all, before));
    }
    false
}

/// All selections over `sizes`, in the order of their numbers: the last
/// position cycles fastest, the first one slowest.
pub fn combinations(sizes: &Vec<usize>) -> (rows: Vec<Vec<usize>>)
    ensures
        rows.len() == product(as_nats(sizes@)),
        forall|n: int|
            0 <= n < rows.len() ==> as_nats(#[trigger] rows[n]@) == combination(
                as_nats(sizes@),
                n as nat,
            ),
{
    let ghost all = as_nats(sizes@);
    let mut picks: Vec<usize> = Vec::new();
    let mut k: usize = 0;
    while k < sizes.len()
        invariant
            k <= sizes.len(),
            picks.len() == k,
            forall|j: int| 0 <= j < k ==> picks[j] == 0,
        decreases sizes.len() - k,
    {
        picks.push(0);
        k = k + 1;
    }
    let mut rows: Vec<Vec<usize>> = Vec::new();
    let ghost mut n: nat = 0;
    let mut more: bool = true;
    proof {
        lemma_first_combination(all);
        lemma_product_positive(all);
        assert(as_nats(picks@) =~= combination(all, 0));
    }
    while more
        invariant
            all == as_nats(sizes@),
            rows.len() == n,
            more ==> n < product(all),
            more ==> as_nats(picks@) == combination(all, n),
            !more ==> n == product(all),
            forall|m: int|
                0 <= m < n ==> as_nats(#[trigger] rows[m]@) == combination(all, m as nat),
        decreases product(all) - n + (if more { 1int } else { 0int }),
    {
        proof {
            lemma_rank_of_combination(all, n);
            lemma_last_rank(all, combination(all, n));
            if n + 1 < product(all) {
                lemma_successor(all, n);
            }
        }
        let row = picks.clone();
        proof {
            assert(row@ =~= picks@);
        }
        rows.push(row);
        more = advance(&mut picks, sizes);
        proof {
            n = n + 1;
        }
    }
    rows
}

} // verus!
