//! The roll and statistics engine for parsed dice expressions.
//!
//! [`roll`] simulates one roll of a well-formed [`DiceExpression`] and
//! returns the full sequence of die values with the indices kept toward
//! the total; [`calculate_statistics`] computes closed-form minimum,
//! maximum and average without rolling. Randomness enters only through
//! one trusted draw of a uniform die value; everything said about a roll
//! holds for every value that draw can return.

use vstd::prelude::*;

use rand::Rng;

use crate::parser::DiceExpression;

verus! {

/// One simulated roll: every die value produced, in generation order;
/// the indices into `rolls` that were kept toward the total (empty where
/// all values count); the total as sum of the kept values plus modifier;
/// and the modifier and die size used, for display.
#[derive(Debug)]
pub struct RollResult {
    pub rolls: Vec<i32>,
    pub kept_indices: Vec<usize>,
    pub total: i128,
    pub modifier: i32,
    pub die_size: i32,
}

/// Closed-form summary of an expression: least and greatest possible
/// total, and the average in exact hundredths (the closed forms used
/// here are all exact multiples of one hundredth).
#[derive(Debug)]
pub struct Statistics {
    pub min: i64,
    pub max: i64,
    pub average_hundredths: i128,
}

/// How many times one die is rerolled at most when it keeps landing on
/// its maximum face. A chain of rerolls must end somewhere for the roll
/// to terminate; no realistic sequence of draws comes near this bound.
pub const EXPLOSION_LIMIT: u32 = 1000;

/// Sum of a sequence of die values, as a mathematical integer.
pub open spec fn sum_of(s: Seq<i32>) -> int
    decreases s.len(),
{
    if s.len() == 0 {
        0
    } else {
        sum_of(s.drop_last()) + s.last()
    }
}

/// Sum of the values of `rolls` standing at the positions in `idx`
/// (positions beyond the end contribute nothing; none arise here).
pub open spec fn sum_at(rolls: Seq<i32>, idx: Seq<usize>) -> int
    decreases idx.len(),
{
    if idx.len() == 0 {
        0
    } else {
        sum_at(rolls, idx.drop_last()) + if idx.last() < rolls.len() {
            rolls[idx.last() as int]
        } else {
            0
        }
    }
}

/// Whether every value of `s` lies on a face of a die with `sides` faces.
pub open spec fn all_in_range(s: Seq<i32>, sides: i32) -> bool {
    forall|i: int| 0 <= i < s.len() ==> 1 <= #[trigger] s[i] <= sides
}

/// The greater of two die values.
pub open spec fn max2(a: i32, b: i32) -> i32 {
    if a >= b {
        a
    } else {
        b
    }
}

/// The lesser of two die values.
pub open spec fn min2(a: i32, b: i32) -> i32 {
    if a <= b {
        a
    } else {
        b
    }
}

/// The sum of values on faces `1..=sides` lies between one per die and
/// `sides` per die.
pub proof fn lemma_sum_bounds(s: Seq<i32>, sides: i32)
    requires
        all_in_range(s, sides),
    ensures
        s.len() <= sum_of(s) <= s.len() * sides,
    decreases s.len(),
{
    if s.len() > 0 {
        let t = s.drop_last();
        assert(all_in_range(t, sides));
        lemma_sum_bounds(t, sides);
        let n = s.len() as int;
        assert(1 <= s[n - 1] <= sides);
        assert((n - 1) * sides + sides == n * sides) by (nonlinear_arith)
            requires
                n >= 1,
        ;
    } else {
        assert(s.len() * sides == 0) by (nonlinear_arith)
            requires
                s.len() == 0,
        ;
    }
}

/// Which of two positions holds the better value for a keep selection:
/// for keep-lowest the smaller value wins, otherwise the greater; equal
/// values are won by the earlier position, as a stable descending (or
/// ascending) sort of the values would order them.
pub open spec fn prefers(rolls: Seq<i32>, lowest: bool, i: int, j: int) -> bool {
    if lowest {
        rolls[i] < rolls[j] || (rolls[i] == rolls[j] && i < j)
    } else {
        rolls[i] > rolls[j] || (rolls[i] == rolls[j] && i < j)
    }
}

/// Whether `idx` is exactly the selection a stable sort would keep: the
/// positions stand in preference order, and every position selected is
/// preferred to every position left out.
pub open spec fn top_selection(rolls: Seq<i32>, lowest: bool, idx: Seq<usize>) -> bool {
    &&& forall|a: int| 0 <= a < idx.len() ==> (#[trigger] idx[a]) < rolls.len()
    &&& forall|a: int, b: int|
        0 <= a < b < idx.len() ==> prefers(rolls, lowest, #[trigger] idx[a] as int, #[trigger] idx[b] as int)
    &&& forall|a: int, j: int|
        #![trigger idx[a], idx.contains(j as usize)]
        0 <= a < idx.len() && 0 <= j < rolls.len() && !idx.contains(j as usize) ==> prefers(
            rolls,
            lowest,
            idx[a] as int,
            j,
        )
}

/// How many positions a keep request selects: a negative request (cast
/// through an unsigned size by the notation's arithmetic) selects all of
/// them, and a request beyond the number of dice is capped there.
pub open spec fn keep_take(keep: i32, len: int) -> int {
    if keep < 0 {
        len
    } else if keep <= len {
        keep as int
    } else {
        len
    }
}

/// Number of true entries of a marker sequence.
spec fn count_true(s: Seq<bool>) -> int
    decreases s.len(),
{
    if s.len() == 0 {
        0
    } else {
        count_true(s.drop_last()) + if s.last() {
            1int
        } else {
            0int
        }
    }
}

proof fn lemma_count_true_none(s: Seq<bool>)
    requires
        forall|i: int| 0 <= i < s.len() ==> !s[i],
    ensures
        count_true(s) == 0,
    decreases s.len(),
{
    if s.len() > 0 {
        lemma_count_true_none(s.drop_last());
    }
}

proof fn lemma_count_true_full(s: Seq<bool>)
    requires
        forall|i: int| 0 <= i < s.len() ==> s[i],
    ensures
        count_true(s) == s.len(),
    decreases s.len(),
{
    if s.len() > 0 {
        lemma_count_true_full(s.drop_last());
    }
}

proof fn lemma_count_true_update(s: Seq<bool>, i: int)
    requires
        0 <= i < s.len(),
        !s[i],
    ensures
        count_true(s.update(i, true)) == count_true(s) + 1,
    decreases s.len(),
{
    let u = s.update(i, true);
    if i == s.len() - 1 {
        assert(u.drop_last() =~= s.drop_last());
    } else {
        assert(u.drop_last() =~= s.drop_last().update(i, true));
        lemma_count_true_update(s.drop_last(), i);
    }
}

proof fn lemma_push_contains(s: Seq<usize>, e: usize, x: usize)
    ensures
        s.push(e).contains(x) <==> (s.contains(x) || x == e),
{
    if s.contains(x) {
        let i = choose|i: int| 0 <= i < s.len() && s[i] == x;
        assert(s.push(e)[i] == x);
    }
    if x == e {
        assert(s.push(e)[s.len() as int] == x);
    }
    if s.push(e).contains(x) && x != e {
        let i = choose|i: int| 0 <= i < s.push(e).len() && s.push(e)[i] == x;
        assert(0 <= i < s.len());
        assert(s[i] == x);
    }
}

/// The positions a stable sort of `(position, value)` pairs would keep,
/// found by repeatedly selecting the most preferred position not yet
/// chosen.
fn select_indices(rolls: &Vec<i32>, keep: i32, lowest: bool) -> (idx: Vec<usize>)
    ensures
        idx@.len() == keep_take(keep, rolls@.len() as int),
        top_selection(rolls@, lowest, idx@),
{
    let n = rolls.len();
    let k: usize = if keep < 0 {
        n
    } else if (keep as usize) <= n {
        keep as usize
    } else {
        n
    };
    let mut taken: Vec<bool> = Vec::new();
    let mut t: usize = 0;
    while t < n
        invariant
            t <= n,
            taken@.len() == t,
            forall|j: int| 0 <= j < t ==> !taken@[j],
        decreases n - t,
    {
        taken.push(false);
        t = t + 1;
    }
    let mut idx: Vec<usize> = Vec::new();
    proof {
        lemma_count_true_none(taken@);
    }
    while idx.len() < k
        invariant
            n == rolls@.len(),
            n == taken@.len(),
            k <= n,
            idx@.len() <= k,
            count_true(taken@) == idx@.len(),
            forall|j: int| 0 <= j < n ==> ((#[trigger] taken@[j]) <==> idx@.contains(j as usize)),
            forall|a: int| 0 <= a < idx@.len() ==> (#[trigger] idx@[a]) < n,
            forall|a: int, b: int|
                0 <= a < b < idx@.len() ==> prefers(
                    rolls@,
                    lowest,
                    #[trigger] idx@[a] as int,
                    #[trigger] idx@[b] as int,
                ),
            forall|a: int, j: int|
                #![trigger idx@[a], taken@[j]]
                0 <= a < idx@.len() && 0 <= j < n && !taken@[j] ==> prefers(
                    rolls@,
                    lowest,
                    idx@[a] as int,
                    j,
                ),
        decreases k - idx.len(),
    {
        let mut best: usize = n;
        let mut j: usize = 0;
        while j < n
            invariant
                n == rolls@.len(),
                n == taken@.len(),
                j <= n,
                best == n || best < j,
                best == n ==> forall|t2: int| 0 <= t2 < j ==> taken@[t2],
                best < n ==> !taken@[best as int],
                best < n ==> forall|t2: int|
                    0 <= t2 < j && !taken@[t2] && t2 != best ==> prefers(
                        rolls@,
                        lowest,
                        best as int,
                        t2,
                    ),
            decreases n - j,
        {
            if !taken[j] {
                if best == n {
                    best = j;
                } else {
                    let better = if lowest {
                        rolls[j] < rolls[best]
                    } else {
                        rolls[j] > rolls[best]
                    };
                    if better {
                        best = j;
                    }
                }
            }
            j = j + 1;
        }
        if best == n {
            proof {
                lemma_count_true_full(taken@);
                assert(false);
            }
            return idx;
        }
        let ghost old_taken = taken@;
        let ghost old_idx = idx@;
        taken.set(best, true);
        idx.push(best);
        proof {
            lemma_count_true_update(old_taken, best as int);
            assert(idx@[old_idx.len() as int] == best);
            assert forall|j2: int| 0 <= j2 < n implies ((#[trigger] taken@[j2])
                <==> idx@.contains(j2 as usize)) by {
                lemma_push_contains(old_idx, best, j2 as usize);
            }
            assert forall|a: int, b: int| 0 <= a < b < idx@.len() implies prefers(
                rolls@,
                lowest,
                #[trigger] idx@[a] as int,
                #[trigger] idx@[b] as int,
            ) by {
                if b == idx@.len() - 1 {
                    assert(!old_taken[best as int]);
                    assert(prefers(rolls@, lowest, old_idx[a] as int, best as int));
                }
            }
            assert forall|a: int, j2: int|
                #![trigger idx@[a], taken@[j2]]
                0 <= a < idx@.len() && 0 <= j2 < n && !taken@[j2] implies prefers(
                rolls@,
                lowest,
                idx@[a] as int,
                j2,
            ) by {
                assert(j2 != best);
                assert(!old_taken[j2]);
                if a == idx@.len() - 1 {
                    assert(prefers(rolls@, lowest, best as int, j2));
                }
            }
        }
    }
    proof {
        assert forall|a: int, j: int|
            #![trigger idx@[a], idx@.contains(j as usize)]
            0 <= a < idx@.len() && 0 <= j < rolls@.len() && !idx@.contains(j as usize) implies prefers(
            rolls@,
            lowest,
            idx@[a] as int,
            j,
        ) by {
            assert(!taken@[j]);
        }
    }
    idx
}

/// The positions of the `keep` highest values of `rolls`, in descending
/// value order, earlier positions first among equal values — exactly the
/// selection a stable descending sort would keep.
pub fn keep_highest_indices(rolls: &Vec<i32>, keep: i32) -> (idx: Vec<usize>)
    ensures
        idx@.len() == keep_take(keep, rolls@.len() as int),
        top_selection(rolls@, false, idx@),
{
    select_indices(rolls, keep, false)
}

/// The positions of the `keep` lowest values of `rolls`, in ascending
/// value order, earlier positions first among equal values — exactly the
/// selection a stable ascending sort would keep.
pub fn keep_lowest_indices(rolls: &Vec<i32>, keep: i32) -> (idx: Vec<usize>)
    ensures
        idx@.len() == keep_take(keep, rolls@.len() as int),
        top_selection(rolls@, true, idx@),
{
    select_indices(rolls, keep, true)
}

/// Relies on `rand::Rng::gen_range` over the inclusive range
/// `1..=sides`, drawn from `rand::thread_rng`: the sample lies in the
/// range, and the call panics only on an empty range, which
/// `sides >= 1` rules out. (First use of the thread's generator can also
/// panic if the operating system's entropy source fails — an
/// environmental failure akin to running out of memory, which no
/// precondition can exclude.) Nothing else is assumed of the draw.
#[verifier::external_body]
fn roll_die(sides: i32) -> (r: i32)
    requires
        sides >= 1,
    ensures
        1 <= r <= sides,
{
    rand::thread_rng().gen_range(1..=sides)
}

/// `count` independent draws of a die with `sides` faces.
fn roll_dice(count: i32, sides: i32) -> (rolls: Vec<i32>)
    requires
        count >= 0,
        sides >= 1,
    ensures
        rolls@.len() == count,
        all_in_range(rolls@, sides),
{
    let mut rolls: Vec<i32> = Vec::new();
    let mut i: i32 = 0;
    while i < count
        invariant
            0 <= i <= count,
            sides >= 1,
            rolls@.len() == i,
            all_in_range(rolls@, sides),
        decreases count - i,
    {
        rolls.push(roll_die(sides));
        i = i + 1;
    }
    rolls
}

/// One die's worth of an exploding roll: a run of maximum faces, each
/// of which forced a reroll, ended by the first value below the maximum
/// — or cut after [`EXPLOSION_LIMIT`] rerolls, in which case the run may
/// end on the maximum itself.
pub open spec fn chain_wf(chain: Seq<i32>, sides: i32, cap: int) -> bool {
    &&& 1 <= chain.len() <= cap + 1
    &&& all_in_range(chain, sides)
    &&& forall|t: int| 0 <= t < chain.len() - 1 ==> #[trigger] chain[t] == sides
    &&& (chain.last() != sides || chain.len() == cap + 1)
}

/// Whether `rolls` is the concatenation of exactly `count` well-formed
/// exploding chains, one per die, in generation order.
pub open spec fn exploding_shape(rolls: Seq<i32>, count: int, sides: i32, cap: int) -> bool {
    exists|chains: Seq<Seq<i32>>|
        {
            &&& chains.len() == count
            &&& (forall|c: int| 0 <= c < chains.len() ==> chain_wf(#[trigger] chains[c], sides, cap))
            &&& (#[trigger] chains.flatten()) == rolls
        }
}

/// `count` exploding dice: each die is rolled, and rerolled while it
/// shows its maximum face, every value being appended in order. A single
/// die's chain of rerolls is cut after [`EXPLOSION_LIMIT`] extra rolls so
/// that the roll always ends (the notation admits a one-sided die, which
/// would otherwise never stop exploding).
fn roll_exploding(count: i32, sides: i32) -> (rolls: Vec<i32>)
    requires
        count >= 0,
        sides >= 1,
    ensures
        all_in_range(rolls@, sides),
        rolls@.len() >= count,
        exploding_shape(rolls@, count as int, sides, EXPLOSION_LIMIT as int),
{
    let mut rolls: Vec<i32> = Vec::new();
    let ghost mut chains: Seq<Seq<i32>> = Seq::empty();
    proof {
        assert(chains.flatten() =~= rolls@);
    }
    let mut i: i32 = 0;
    while i < count
        invariant
            0 <= i <= count,
            sides >= 1,
            all_in_range(rolls@, sides),
            rolls@.len() >= i,
            chains.len() == i,
            forall|c: int|
                0 <= c < chains.len() ==> chain_wf(
                    #[trigger] chains[c],
                    sides,
                    EXPLOSION_LIMIT as int,
                ),
            chains.flatten() == rolls@,
        decreases count - i,
    {
        let ghost base = rolls@;
        let mut r = roll_die(sides);
        rolls.push(r);
        let ghost mut chain: Seq<i32> = seq![r];
        let mut extra: u32 = 0;
        proof {
            assert(rolls@ =~= base + chain);
        }
        while r == sides && extra < EXPLOSION_LIMIT
            invariant
                sides >= 1,
                1 <= r <= sides,
                chain.len() == 1 + extra,
                extra <= EXPLOSION_LIMIT,
                all_in_range(chain, sides),
                forall|t: int| 0 <= t < chain.len() - 1 ==> #[trigger] chain[t] == sides,
                chain.last() == r,
                rolls@ == base + chain,
                all_in_range(rolls@, sides),
            decreases EXPLOSION_LIMIT - extra,
        {
            r = roll_die(sides);
            rolls.push(r);
            proof {
                let prev = chain;
                chain = chain.push(r);
                assert(rolls@ =~= base + chain);
                assert(chain.last() == r);
                assert(forall|t: int|
                    0 <= t < chain.len() - 1 ==> #[trigger] chain[t] == sides) by {
                    assert(prev.last() == sides);
                    assert(forall|t: int| 0 <= t < prev.len() ==> chain[t] == prev[t]);
                }
            }
            extra = extra + 1;
        }
        proof {
            assert(chain_wf(chain, sides, EXPLOSION_LIMIT as int));
            let prev_chains = chains;
            chains = chains.push(chain);
            Seq::lemma_flatten_push(prev_chains, chain);
            assert(chains.flatten() =~= rolls@);
        }
        i = i + 1;
    }
    proof {
        assert(chains.len() == count as int);
        assert(exploding_shape(rolls@, count as int, sides, EXPLOSION_LIMIT as int));
    }
    rolls
}

/// The sum of all values of `rolls`, exactly.
fn sum_all(rolls: &Vec<i32>) -> (s: i128)
    ensures
        s == sum_of(rolls@),
        rolls@.len() <= usize::MAX,
        -0x8000_0000 * (rolls@.len() as int) <= s <= 0x8000_0000 * (rolls@.len() as int),
{
    let n = rolls.len();
    let mut s: i128 = 0;
    let mut i: usize = 0;
    while i < n
        invariant
            0 <= i <= n,
            n == rolls@.len(),
            s == sum_of(rolls@.subrange(0, i as int)),
            -0x8000_0000 * (i as int) <= s <= 0x8000_0000 * (i as int),
        decreases n - i,
    {
        proof {
            let pre = rolls@.subrange(0, i as int);
            let post = rolls@.subrange(0, i + 1);
            assert(post.drop_last() =~= pre);
            assert(post.last() == rolls@[i as int]);
        }
        s = s + (rolls[i] as i128);
        i = i + 1;
    }
    proof {
        assert(rolls@.subrange(0, n as int) =~= rolls@);
    }
    s
}

/// The sum of the values of `rolls` at the positions in `idx`, exactly.
fn sum_selected(rolls: &Vec<i32>, idx: &Vec<usize>) -> (s: i128)
    requires
        forall|a: int| 0 <= a < idx@.len() ==> (#[trigger] idx@[a]) < rolls@.len(),
    ensures
        s == sum_at(rolls@, idx@),
        idx@.len() <= usize::MAX,
        -0x8000_0000 * (idx@.len() as int) <= s <= 0x8000_0000 * (idx@.len() as int),
{
    let n = idx.len();
    let mut s: i128 = 0;
    let mut i: usize = 0;
    while i < n
        invariant
            0 <= i <= n,
            n == idx@.len(),
            forall|a: int| 0 <= a < idx@.len() ==> (#[trigger] idx@[a]) < rolls@.len(),
            s == sum_at(rolls@, idx@.subrange(0, i as int)),
            -0x8000_0000 * (i as int) <= s <= 0x8000_0000 * (i as int),
        decreases n - i,
    {
        proof {
            let pre = idx@.subrange(0, i as int);
            let post = idx@.subrange(0, i + 1);
            assert(post.drop_last() =~= pre);
            assert(post.last() == idx@[i as int]);
        }
        s = s + (rolls[idx[i]] as i128);
        i = i + 1;
    }
    proof {
        assert(idx@.subrange(0, n as int) =~= idx@);
    }
    s
}

/// Everything one roll of `expr` guarantees, whatever the random draws
/// returned: the number and range of the die values, which positions
/// were kept, and the total as an exact function of the values rolled.
pub open spec fn valid_roll(expr: DiceExpression, r: RollResult) -> bool {
    match expr {
        DiceExpression::Basic { count, sides, modifier } => {
            &&& r.rolls@.len() == count
            &&& all_in_range(r.rolls@, sides)
            &&& r.kept_indices@.len() == 0
            &&& r.total == sum_of(r.rolls@) + modifier
            &&& r.modifier == modifier
            &&& r.die_size == sides
        },
        DiceExpression::KeepHighest { count, sides, keep, modifier } => {
            &&& r.rolls@.len() == count
            &&& all_in_range(r.rolls@, sides)
            &&& r.kept_indices@.len() == keep_take(keep, count as int)
            &&& top_selection(r.rolls@, false, r.kept_indices@)
            &&& r.total == sum_at(r.rolls@, r.kept_indices@) + modifier
            &&& r.modifier == modifier
            &&& r.die_size == sides
        },
        DiceExpression::KeepLowest { count, sides, keep, modifier } => {
            &&& r.rolls@.len() == count
            &&& all_in_range(r.rolls@, sides)
            &&& r.kept_indices@.len() == keep_take(keep, count as int)
            &&& top_selection(r.rolls@, true, r.kept_indices@)
            &&& r.total == sum_at(r.rolls@, r.kept_indices@) + modifier
            &&& r.modifier == modifier
            &&& r.die_size == sides
        },
        DiceExpression::Advantage { sides, modifier } => {
            &&& r.rolls@.len() == 2
            &&& all_in_range(r.rolls@, sides)
            &&& r.kept_indices@.len() == 0
            &&& r.total == max2(r.rolls@[0], r.rolls@[1]) + modifier
            &&& r.modifier == modifier
            &&& r.die_size == sides
        },
        DiceExpression::Disadvantage { sides, modifier } => {
            &&& r.rolls@.len() == 2
            &&& all_in_range(r.rolls@, sides)
            &&& r.kept_indices@.len() == 0
            &&& r.total == min2(r.rolls@[0], r.rolls@[1]) + modifier
            &&& r.modifier == modifier
            &&& r.die_size == sides
        },
        DiceExpression::Exploding { count, sides, modifier } => {
            &&& r.rolls@.len() >= count
            &&& all_in_range(r.rolls@, sides)
            &&& exploding_shape(r.rolls@, count as int, sides, EXPLOSION_LIMIT as int)
            &&& r.kept_indices@.len() == 0
            &&& r.total == sum_of(r.rolls@) + modifier
            &&& r.modifier == modifier
            &&& r.die_size == sides
        },
    }
}

/// Simulate one roll of a well-formed expression. Every die value is an
/// independent uniform draw from `1..=sides`; everything else the result
/// holds — lengths, kept positions, and the total — is exactly
/// [`valid_roll`], whatever the draws returned.
pub fn roll(expr: &DiceExpression) -> (r: RollResult)
    requires
        expr.wf(),
    ensures
        valid_roll(*expr, r),
{
    match *expr {
        DiceExpression::Basic { count, sides, modifier } => {
            let rolls = roll_dice(count, sides);
            let total = sum_all(&rolls) + (modifier as i128);
            RollResult { rolls, kept_indices: Vec::new(), total, modifier, die_size: sides }
        },
        DiceExpression::KeepHighest { count, sides, keep, modifier } => {
            let rolls = roll_dice(count, sides);
            let kept_indices = keep_highest_indices(&rolls, keep);
            let total = sum_selected(&rolls, &kept_indices) + (modifier as i128);
            RollResult { rolls, kept_indices, total, modifier, die_size: sides }
        },
        DiceExpression::KeepLowest { count, sides, keep, modifier } => {
            let rolls = roll_dice(count, sides);
            let kept_indices = keep_lowest_indices(&rolls, keep);
            let total = sum_selected(&rolls, &kept_indices) + (modifier as i128);
            RollResult { rolls, kept_indices, total, modifier, die_size: sides }
        },
        DiceExpression::Advantage { sides, modifier } => {
            let rolls = roll_dice(2, sides);
            let first = rolls[0];
            let second = rolls[1];
            let best = if first >= second {
                first
            } else {
                second
            };
            let total = (best as i128) + (modifier as i128);
            RollResult { rolls, kept_indices: Vec::new(), total, modifier, die_size: sides }
        },
        DiceExpression::Disadvantage { sides, modifier } => {
            let rolls = roll_dice(2, sides);
            let first = rolls[0];
            let second = rolls[1];
            let worst = if first <= second {
                first
            } else {
                second
            };
            let total = (worst as i128) + (modifier as i128);
            RollResult { rolls, kept_indices: Vec::new(), total, modifier, die_size: sides }
        },
        DiceExpression::Exploding { count, sides, modifier } => {
            let rolls = roll_exploding(count, sides);
            let total = sum_all(&rolls) + (modifier as i128);
            RollResult { rolls, kept_indices: Vec::new(), total, modifier, die_size: sides }
        },
    }
}

/// The closed-form summary each expression is owed: least total, greatest
/// total, and the average in exact hundredths. The keep variants use the
/// summary of `keep` freely rolled dice; advantage and disadvantage use
/// the factors 65/100 and 35/100 of the die size; an exploding roll has
/// no greatest total, marked by the greatest representable value, and an
/// average inflated by the factor 120/100. These closed forms are the
/// engine's documented heuristics, not order-statistic expectations.
pub open spec fn valid_statistics(expr: DiceExpression, s: Statistics) -> bool {
    match expr {
        DiceExpression::Basic { count, sides, modifier } => {
            &&& s.min == count + modifier
            &&& s.max == count * sides + modifier
            &&& s.average_hundredths == 50 * count * (sides + 1) + 100 * modifier
        },
        DiceExpression::KeepHighest { count, sides, keep, modifier } => {
            &&& s.min == keep + modifier
            &&& s.max == keep * sides + modifier
            &&& s.average_hundredths == 50 * keep * (sides + 1) + 100 * modifier
        },
        DiceExpression::KeepLowest { count, sides, keep, modifier } => {
            &&& s.min == keep + modifier
            &&& s.max == keep * sides + modifier
            &&& s.average_hundredths == 50 * keep * (sides + 1) + 100 * modifier
        },
        DiceExpression::Advantage { sides, modifier } => {
            &&& s.min == 1 + modifier
            &&& s.max == sides + modifier
            &&& s.average_hundredths == 65 * sides + 100 * modifier
        },
        DiceExpression::Disadvantage { sides, modifier } => {
            &&& s.min == 1 + modifier
            &&& s.max == sides + modifier
            &&& s.average_hundredths == 35 * sides + 100 * modifier
        },
        DiceExpression::Exploding { count, sides, modifier } => {
            &&& s.min == count + modifier
            &&& s.max == i64::MAX
            &&& s.average_hundredths == 60 * count * (sides + 1) + 100 * modifier
        },
    }
}

/// Compute the closed-form summary of an expression, without rolling,
/// exactly as [`valid_statistics`] states it.
pub fn calculate_statistics(expr: &DiceExpression) -> (s: Statistics)
    ensures
        valid_statistics(*expr, s),
{
    match *expr {
        DiceExpression::Basic { count, sides, modifier } => {
            let c = count as i64;
            let d = sides as i64;
            proof {
                assert(-0x4000_0000_0000_0000 <= c * d <= 0x4000_0000_0000_0000) by (nonlinear_arith)
                    requires
                        -0x8000_0000 <= c <= 0x8000_0000,
                        -0x8000_0000 <= d <= 0x8000_0000,
                ;
            }
            let cc = count as i128;
            let dd = sides as i128;
            proof {
                assert(-0x200_0000_0000_0000_0000 <= 50 * cc * (dd + 1)
                    <= 0x200_0000_0000_0000_0000) by (nonlinear_arith)
                    requires
                        -0x8000_0000 <= cc <= 0x8000_0000,
                        -0x8000_0000 <= dd <= 0x8000_0000,
                ;
            }
            Statistics {
                min: c + (modifier as i64),
                max: c * d + (modifier as i64),
                average_hundredths: 50 * cc * (dd + 1) + 100 * (modifier as i128),
            }
        },
        DiceExpression::KeepHighest { count, sides, keep, modifier } => {
            let k = keep as i64;
            let d = sides as i64;
            proof {
                assert(-0x4000_0000_0000_0000 <= k * d <= 0x4000_0000_0000_0000) by (nonlinear_arith)
                    requires
                        -0x8000_0000 <= k <= 0x8000_0000,
                        -0x8000_0000 <= d <= 0x8000_0000,
                ;
            }
            let kk = keep as i128;
            let dd = sides as i128;
            proof {
                assert(-0x200_0000_0000_0000_0000 <= 50 * kk * (dd + 1)
                    <= 0x200_0000_0000_0000_0000) by (nonlinear_arith)
                    requires
                        -0x8000_0000 <= kk <= 0x8000_0000,
                        -0x8000_0000 <= dd <= 0x8000_0000,
                ;
            }
            Statistics {
                min: k + (modifier as i64),
                max: k * d + (modifier as i64),
                average_hundredths: 50 * kk * (dd + 1) + 100 * (modifier as i128),
            }
        },
        DiceExpression::KeepLowest { count, sides, keep, modifier } => {
            let k = keep as i64;
            let d = sides as i64;
            proof {
                assert(-0x4000_0000_0000_0000 <= k * d <= 0x4000_0000_0000_0000) by (nonlinear_arith)
                    requires
                        -0x8000_0000 <= k <= 0x8000_0000,
                        -0x8000_0000 <= d <= 0x8000_0000,
                ;
            }
            let kk = keep as i128;
            let dd = sides as i128;
            proof {
                assert(-0x200_0000_0000_0000_0000 <= 50 * kk * (dd + 1)
                    <= 0x200_0000_0000_0000_0000) by (nonlinear_arith)
                    requires
                        -0x8000_0000 <= kk <= 0x8000_0000,
                        -0x8000_0000 <= dd <= 0x8000_0000,
                ;
            }
            Statistics {
                min: k + (modifier as i64),
                max: k * d + (modifier as i64),
                average_hundredths: 50 * kk * (dd + 1) + 100 * (modifier as i128),
            }
        },
        DiceExpression::Advantage { sides, modifier } => {
            Statistics {
                min: 1 + (modifier as i64),
                max: (sides as i64) + (modifier as i64),
                average_hundredths: 65 * (sides as i128) + 100 * (modifier as i128),
            }
        },
        DiceExpression::Disadvantage { sides, modifier } => {
            Statistics {
                min: 1 + (modifier as i64),
                max: (sides as i64) + (modifier as i64),
                average_hundredths: 35 * (sides as i128) + 100 * (modifier as i128),
            }
        },
        DiceExpression::Exploding { count, sides, modifier } => {
            let cc = count as i128;
            let dd = sides as i128;
            proof {
                assert(-0x200_0000_0000_0000_0000 <= 60 * cc * (dd + 1)
                    <= 0x200_0000_0000_0000_0000) by (nonlinear_arith)
                    requires
                        -0x8000_0000 <= cc <= 0x8000_0000,
                        -0x8000_0000 <= dd <= 0x8000_0000,
                ;
            }
            Statistics {
                min: (count as i64) + (modifier as i64),
                max: i64::MAX,
                average_hundredths: 60 * cc * (dd + 1) + 100 * (modifier as i128),
            }
        },
    }
}

/// Range law for basic rolls: however the dice land, the total lies
/// between one per die plus the modifier and the die size per die plus
/// the modifier.
pub proof fn lemma_basic_roll_range(count: i32, sides: i32, modifier: i32, r: RollResult)
    requires
        (DiceExpression::Basic { count, sides, modifier }).wf(),
        valid_roll(DiceExpression::Basic { count, sides, modifier }, r),
    ensures
        count + modifier <= r.total <= count * sides + modifier,
{
    lemma_sum_bounds(r.rolls@, sides);
}

/// The sum of die values at any set of valid positions lies between one
/// per position and the die size per position.
pub proof fn lemma_sum_at_bounds(rolls: Seq<i32>, idx: Seq<usize>, sides: i32)
    requires
        all_in_range(rolls, sides),
        forall|a: int| 0 <= a < idx.len() ==> (#[trigger] idx[a]) < rolls.len(),
    ensures
        idx.len() <= sum_at(rolls, idx) <= idx.len() * sides,
    decreases idx.len(),
{
    if idx.len() > 0 {
        let t = idx.drop_last();
        lemma_sum_at_bounds(rolls, t, sides);
        let n = idx.len() as int;
        assert(1 <= rolls[idx[n - 1] as int] <= sides);
        assert((n - 1) * sides + sides == n * sides) by (nonlinear_arith)
            requires
                n >= 1,
        ;
    } else {
        assert(idx.len() * sides == 0) by (nonlinear_arith)
            requires
                idx.len() == 0,
        ;
    }
}

/// Range law for keep-highest rolls: the total lies between one per kept
/// die plus the modifier and the die size per kept die plus the modifier.
pub proof fn lemma_keep_highest_total_range(
    count: i32,
    sides: i32,
    keep: i32,
    modifier: i32,
    r: RollResult,
)
    requires
        (DiceExpression::KeepHighest { count, sides, keep, modifier }).wf(),
        valid_roll(DiceExpression::KeepHighest { count, sides, keep, modifier }, r),
    ensures
        keep + modifier <= r.total <= keep * sides + modifier,
{
    lemma_sum_at_bounds(r.rolls@, r.kept_indices@, sides);
}

/// Range law for keep-lowest rolls: the total lies between one per kept
/// die plus the modifier and the die size per kept die plus the modifier.
pub proof fn lemma_keep_lowest_total_range(
    count: i32,
    sides: i32,
    keep: i32,
    modifier: i32,
    r: RollResult,
)
    requires
        (DiceExpression::KeepLowest { count, sides, keep, modifier }).wf(),
        valid_roll(DiceExpression::KeepLowest { count, sides, keep, modifier }, r),
    ensures
        keep + modifier <= r.total <= keep * sides + modifier,
{
    lemma_sum_at_bounds(r.rolls@, r.kept_indices@, sides);
}

/// Count law for keep-highest rolls: every roll produces exactly `count`
/// die values and keeps exactly `keep` of them.
pub proof fn lemma_keep_highest_counts(
    count: i32,
    sides: i32,
    keep: i32,
    modifier: i32,
    r: RollResult,
)
    requires
        (DiceExpression::KeepHighest { count, sides, keep, modifier }).wf(),
        valid_roll(DiceExpression::KeepHighest { count, sides, keep, modifier }, r),
    ensures
        r.rolls@.len() == count,
        r.kept_indices@.len() == keep,
{
}

/// Count law for keep-lowest rolls: every roll produces exactly `count`
/// die values and keeps exactly `keep` of them.
pub proof fn lemma_keep_lowest_counts(
    count: i32,
    sides: i32,
    keep: i32,
    modifier: i32,
    r: RollResult,
)
    requires
        (DiceExpression::KeepLowest { count, sides, keep, modifier }).wf(),
        valid_roll(DiceExpression::KeepLowest { count, sides, keep, modifier }, r),
    ensures
        r.rolls@.len() == count,
        r.kept_indices@.len() == keep,
{
}

/// Bound law for advantage: the total is exactly the greater of the two
/// die values plus the modifier, so it lies between the lesser value
/// plus the modifier and the greater value plus the modifier.
pub proof fn lemma_advantage_total(sides: i32, modifier: i32, r: RollResult)
    requires
        (DiceExpression::Advantage { sides, modifier }).wf(),
        valid_roll(DiceExpression::Advantage { sides, modifier }, r),
    ensures
        r.rolls@.len() == 2,
        r.total == max2(r.rolls@[0], r.rolls@[1]) + modifier,
        min2(r.rolls@[0], r.rolls@[1]) + modifier <= r.total,
{
}

/// Bound law for disadvantage: the total is exactly the lesser of the
/// two die values plus the modifier, so it lies below the greater value
/// plus the modifier.
pub proof fn lemma_disadvantage_total(sides: i32, modifier: i32, r: RollResult)
    requires
        (DiceExpression::Disadvantage { sides, modifier }).wf(),
        valid_roll(DiceExpression::Disadvantage { sides, modifier }, r),
    ensures
        r.rolls@.len() == 2,
        r.total == min2(r.rolls@[0], r.rolls@[1]) + modifier,
        r.total <= max2(r.rolls@[0], r.rolls@[1]) + modifier,
{
}

/// Shape law for exploding rolls: at least one value per die is rolled,
/// the values fall into `count` chains in which every value before the
/// last showed the maximum face, and the total is at least one per die
/// plus the modifier.
pub proof fn lemma_exploding_roll_shape(count: i32, sides: i32, modifier: i32, r: RollResult)
    requires
        (DiceExpression::Exploding { count, sides, modifier }).wf(),
        valid_roll(DiceExpression::Exploding { count, sides, modifier }, r),
    ensures
        r.rolls@.len() >= count >= 1,
        exploding_shape(r.rolls@, count as int, sides, EXPLOSION_LIMIT as int),
        count + modifier <= r.total,
{
    lemma_sum_bounds(r.rolls@, sides);
}


} // verus!
