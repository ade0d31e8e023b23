//! From symbol frequencies to code lengths: the two lightest groups of
//! symbols are merged until one group is left, each merge putting its symbols
//! one level deeper; depths beyond the limit are cut to the limit, and codes
//! are then lengthened until all of them fit the code space.

use crate::codebook::{kraft_ok, kraft_sum, kraft_term, valid_lengths, KRAFT_ONE, MAX_CODE_LEN, SYMBOLS};
use vstd::arithmetic::power2::pow2;
use vstd::prelude::*;

verus! {

/// Groups of symbols on their way to one tree.
pub struct Forest {
    /// The weight of the group that each symbol leads.
    pub weight: Seq<nat>,
    /// Whether the symbol leads a group that is still to be merged.
    pub alive: Seq<bool>,
    /// The leader of the group that each symbol belongs to.
    pub leader: Seq<int>,
    /// How many merges each symbol has been part of.
    pub depth: Seq<nat>,
}

/// Every symbol that occurs is a group of its own.
pub open spec fn initial_forest(freqs: Seq<u64>) -> Forest {
    Forest {
        weight: Seq::new(SYMBOLS as nat, |s: int| freqs[s] as nat),
        alive: Seq::new(SYMBOLS as nat, |s: int| freqs[s] > 0),
        leader: Seq::new(SYMBOLS as nat, |s: int| s),
        depth: Seq::new(SYMBOLS as nat, |s: int| 0nat),
    }
}

/// The lightest living group below `upto` other than `skip`; of several, the
/// lowest. `SYMBOLS` if there is none.
pub open spec fn lightest(weight: Seq<nat>, alive: Seq<bool>, skip: int, upto: int) -> int
    decreases upto,
{
    if upto <= 0 {
        SYMBOLS as int
    } else {
        let prev = lightest(weight, alive, skip, upto - 1);
        let i = upto - 1;
        if alive[i] && i != skip && (prev >= SYMBOLS || weight[i] < weight[prev]) {
            i
        } else {
            prev
        }
    }
}

/// Merges the two lightest groups: the second joins the first, and all their
/// symbols go one level deeper. With fewer than two groups nothing changes.
pub open spec fn merge_step(f: Forest) -> Forest {
    let a = lightest(f.weight, f.alive, SYMBOLS as int, SYMBOLS as int);
    let b = lightest(f.weight, f.alive, a, SYMBOLS as int);
    if a >= SYMBOLS || b >= SYMBOLS {
        f
    } else {
        Forest {
            weight: f.weight.update(a, f.weight[a] + f.weight[b]),
            alive: f.alive.update(b, false),
            leader: Seq::new(
                SYMBOLS as nat,
                |s: int|
                    if f.leader[s] == b {
                        a
                    } else {
                        f.leader[s]
                    },
            ),
            depth: Seq::new(
                SYMBOLS as nat,
                |s: int|
                    if f.leader[s] == a || f.leader[s] == b {
                        f.depth[s] + 1
                    } else {
                        f.depth[s]
                    },
            ),
        }
    }
}

/// The forest after `rounds` merges.
pub open spec fn merge_rounds(f: Forest, rounds: nat) -> Forest
    decreases rounds,
{
    if rounds == 0 {
        f
    } else {
        merge_step(merge_rounds(f, (rounds - 1) as nat))
    }
}

/// How many symbols below `upto` occur.
pub open spec fn active_count(freqs: Seq<u64>, upto: int) -> nat
    decreases upto,
{
    if upto <= 0 {
        0
    } else {
        active_count(freqs, upto - 1) + if freqs[upto - 1] > 0 {
            1nat
        } else {
            0nat
        }
    }
}

/// The depth of each symbol in the tree that the merges build.
pub open spec fn tree_depths(freqs: Seq<u64>) -> Seq<nat> {
    let n = active_count(freqs, SYMBOLS as int);
    let rounds = if n >= 1 {
        (n - 1) as nat
    } else {
        0nat
    };
    merge_rounds(initial_forest(freqs), rounds).depth
}

/// Depths as code lengths: a symbol that occurs gets at least one bit and at
/// most the limit, one that does not occur gets none.
pub open spec fn clamp_depths(depths: Seq<nat>, freqs: Seq<u64>) -> Seq<u8> {
    Seq::new(
        SYMBOLS as nat,
        |s: int|
            if freqs[s] == 0 {
                0u8
            } else if depths[s] < 1 {
                1u8
            } else if depths[s] > MAX_CODE_LEN {
                MAX_CODE_LEN as u8
            } else {
                depths[s] as u8
            },
    )
}

/// The symbol below `upto` with the longest code that can still grow; of
/// several, the lowest. `SYMBOLS` if there is none.
pub open spec fn longest_below_limit(lengths: Seq<u8>, upto: int) -> int
    decreases upto,
{
    if upto <= 0 {
        SYMBOLS as int
    } else {
        let prev = longest_below_limit(lengths, upto - 1);
        let i = upto - 1;
        if 1 <= lengths[i] < MAX_CODE_LEN && (prev >= SYMBOLS || lengths[i] > lengths[prev]) {
            i
        } else {
            prev
        }
    }
}

/// How many lengthening steps can ever be needed.
pub const FIT_FUEL: u32 = 3584;

/// Lengthens one code at a time, each time the longest that can still grow,
/// until the codes fit the code space.
pub open spec fn fit_lengths(lengths: Seq<u8>, fuel: nat) -> Seq<u8>
    decreases fuel,
{
    let i = longest_below_limit(lengths, SYMBOLS as int);
    if fuel == 0 || kraft_ok(lengths) || i >= SYMBOLS {
        lengths
    } else {
        fit_lengths(lengths.update(i, (lengths[i] + 1) as u8), (fuel - 1) as nat)
    }
}

/// The code lengths for the given symbol frequencies.
pub open spec fn code_lengths(freqs: Seq<u64>) -> Seq<u8> {
    fit_lengths(clamp_depths(tree_depths(freqs), freqs), FIT_FUEL as nat)
}

/// How many lengthening steps the codes below `upto` can take in all.
pub open spec fn slack(lengths: Seq<u8>, upto: int) -> nat
    decreases upto,
{
    if upto <= 0 {
        0
    } else {
        slack(lengths, upto - 1) + if 1 <= lengths[upto - 1] < MAX_CODE_LEN {
            (MAX_CODE_LEN - lengths[upto - 1]) as nat
        } else {
            0nat
        }
    }
}

pub proof fn lemma_longest_below_limit(lengths: Seq<u8>, upto: int)
    requires
        0 <= upto <= SYMBOLS,
    ensures
        ({
            let i = longest_below_limit(lengths, upto);
            &&& i == SYMBOLS || (0 <= i < upto && 1 <= lengths[i] < MAX_CODE_LEN)
            &&& i == SYMBOLS ==> forall|s: int|
                0 <= s < upto ==> !(1 <= #[trigger] lengths[s] < MAX_CODE_LEN)
        }),
    decreases upto,
{
    if upto > 0 {
        lemma_longest_below_limit(lengths, upto - 1);
    }
}

proof fn lemma_slack_bounds(lengths: Seq<u8>, upto: int, i: int)
    requires
        0 <= upto,
    ensures
        slack(lengths, upto) <= 14 * upto,
        0 <= i < upto && 1 <= lengths[i] < MAX_CODE_LEN ==> slack(lengths, upto) >= 1,
    decreases upto,
{
    if upto > 0 {
        lemma_slack_bounds(lengths, upto - 1, i);
    }
}

proof fn lemma_slack_after_step(lengths: Seq<u8>, i: int, upto: int)
    requires
        0 <= i < lengths.len(),
        0 <= upto <= lengths.len(),
        1 <= lengths[i] < MAX_CODE_LEN,
    ensures
        slack(lengths.update(i, (lengths[i] + 1) as u8), upto) + if i < upto {
            1nat
        } else {
            0nat
        } == slack(lengths, upto),
    decreases upto,
{
    if upto > 0 {
        lemma_slack_after_step(lengths, i, upto - 1);
    }
}

proof fn lemma_kraft_at_limit(lengths: Seq<u8>, upto: int)
    requires
        0 <= upto <= lengths.len(),
        forall|s: int| 0 <= s < upto ==> !(1 <= #[trigger] lengths[s] < MAX_CODE_LEN),
    ensures
        kraft_sum(lengths, upto) <= upto,
    decreases upto,
{
    if upto > 0 {
        lemma_kraft_at_limit(lengths, upto - 1);
        vstd::arithmetic::power2::lemma2_to64();
        assert(!(1 <= lengths[upto - 1] < MAX_CODE_LEN));
        assert(kraft_term(lengths[upto - 1]) <= 1);
    }
}

/// Lengthening keeps the lengths valid, keeps apart the symbols that have a
/// code from those that have none, and ends with codes that fit.
pub proof fn lemma_fit_lengths(lengths: Seq<u8>, fuel: nat)
    requires
        valid_lengths(lengths),
        slack(lengths, SYMBOLS as int) <= fuel,
    ensures
        valid_lengths(fit_lengths(lengths, fuel)),
        kraft_ok(fit_lengths(lengths, fuel)),
        forall|s: int|
            0 <= s < SYMBOLS ==> (#[trigger] fit_lengths(lengths, fuel)[s] == 0) == (lengths[s]
                == 0),
    decreases fuel,
{
    let i = longest_below_limit(lengths, SYMBOLS as int);
    lemma_longest_below_limit(lengths, SYMBOLS as int);
    if kraft_ok(lengths) {
    } else if i >= SYMBOLS {
        lemma_kraft_at_limit(lengths, SYMBOLS as int);
    } else {
        lemma_slack_bounds(lengths, SYMBOLS as int, i);
        let next = lengths.update(i, (lengths[i] + 1) as u8);
        lemma_slack_after_step(lengths, i, SYMBOLS as int);
        assert forall|s: int| 0 <= s < SYMBOLS implies #[trigger] next[s] <= MAX_CODE_LEN by {
            assert(lengths[s] <= MAX_CODE_LEN);
        }
        lemma_fit_lengths(next, (fuel - 1) as nat);
        assert forall|s: int| 0 <= s < SYMBOLS implies (#[trigger] fit_lengths(lengths, fuel)[s]
            == 0) == (lengths[s] == 0) by {
            assert((fit_lengths(next, (fuel - 1) as nat)[s] == 0) == (next[s] == 0));
        }
    }
}

/// The code lengths are valid, fit the code space, and give a code to
/// exactly the symbols that occur.
pub proof fn lemma_code_lengths(freqs: Seq<u64>)
    requires
        freqs.len() == SYMBOLS,
    ensures
        valid_lengths(code_lengths(freqs)),
        kraft_ok(code_lengths(freqs)),
        forall|s: int| 0 <= s < SYMBOLS ==> (#[trigger] code_lengths(freqs)[s] >= 1) == (freqs[s] > 0),
{
    let clamped = clamp_depths(tree_depths(freqs), freqs);
    lemma_slack_bounds(clamped, SYMBOLS as int, 0);
    lemma_fit_lengths(clamped, FIT_FUEL as nat);
    assert forall|s: int| 0 <= s < SYMBOLS implies (#[trigger] code_lengths(freqs)[s] >= 1) == (
    freqs[s] > 0) by {
        assert((fit_lengths(clamped, FIT_FUEL as nat)[s] == 0) == (clamped[s] == 0));
    }
}

/// The weights as numbers.
pub open spec fn weights_of(weight: Seq<u128>) -> Seq<nat> {
    Seq::new(weight.len(), |i: int| weight[i] as nat)
}

/// The weight of all living groups below `upto`.
pub open spec fn living_weight(weight: Seq<nat>, alive: Seq<bool>, upto: int) -> nat
    decreases upto,
{
    if upto <= 0 {
        0
    } else {
        living_weight(weight, alive, upto - 1) + if alive[upto - 1] {
            weight[upto - 1]
        } else {
            0nat
        }
    }
}

pub proof fn lemma_lightest(weight: Seq<nat>, alive: Seq<bool>, skip: int, upto: int)
    requires
        0 <= upto <= SYMBOLS,
    ensures
        ({
            let i = lightest(weight, alive, skip, upto);
            i == SYMBOLS || (0 <= i < upto && alive[i] && i != skip)
        }),
    decreases upto,
{
    if upto > 0 {
        lemma_lightest(weight, alive, skip, upto - 1);
    }
}

proof fn lemma_living_weight_initial(freqs: Seq<u64>, upto: int)
    requires
        freqs.len() == SYMBOLS,
        0 <= upto <= SYMBOLS,
    ensures
        living_weight(initial_forest(freqs).weight, initial_forest(freqs).alive, upto) <= upto
            * u64::MAX,
    decreases upto,
{
    if upto > 0 {
        lemma_living_weight_initial(freqs, upto - 1);
    }
}

proof fn lemma_living_weight_one(weight: Seq<nat>, alive: Seq<bool>, a: int, upto: int)
    requires
        0 <= a < upto,
        alive[a],
    ensures
        weight[a] <= living_weight(weight, alive, upto),
    decreases upto,
{
    if a < upto - 1 {
        lemma_living_weight_one(weight, alive, a, upto - 1);
    }
}

proof fn lemma_living_weight_pair(weight: Seq<nat>, alive: Seq<bool>, a: int, b: int, upto: int)
    requires
        0 <= a < upto,
        0 <= b < upto,
        a != b,
        alive[a],
        alive[b],
    ensures
        weight[a] + weight[b] <= living_weight(weight, alive, upto),
    decreases upto,
{
    if a == upto - 1 {
        lemma_living_weight_one(weight, alive, b, upto - 1);
    } else if b == upto - 1 {
        lemma_living_weight_one(weight, alive, a, upto - 1);
    } else {
        lemma_living_weight_pair(weight, alive, a, b, upto - 1);
    }
}

proof fn lemma_living_weight_merge(weight: Seq<nat>, alive: Seq<bool>, a: int, b: int, upto: int)
    requires
        weight.len() == SYMBOLS,
        alive.len() == SYMBOLS,
        0 <= a < SYMBOLS,
        0 <= b < SYMBOLS,
        0 <= upto <= SYMBOLS,
        a != b,
        alive[a],
        alive[b],
    ensures
        living_weight(weight.update(a, weight[a] + weight[b]), alive.update(b, false), upto) + if b
            < upto {
            weight[b]
        } else {
            0nat
        } == living_weight(weight, alive, upto) + if a < upto {
            weight[b]
        } else {
            0nat
        },
    decreases upto,
{
    if upto > 0 {
        lemma_living_weight_merge(weight, alive, a, b, upto - 1);
    }
}

fn lightest_of(weight: &[u128; 256], alive: &[bool; 256], skip: usize) -> (found: usize)
    ensures
        found == lightest(weights_of(weight@), alive@, skip as int, SYMBOLS as int),
{
    let mut found: usize = SYMBOLS;
    let mut i: usize = 0;
    while i < SYMBOLS
        invariant
            i <= SYMBOLS,
            found == lightest(weights_of(weight@), alive@, skip as int, i as int),
            found == SYMBOLS || found < i,
        decreases SYMBOLS - i,
    {
        if alive[i] && i != skip && (found >= SYMBOLS || weight[i] < weight[found]) {
            found = i;
        }
        i = i + 1;
    }
    found
}

/// The exec arrays hold the forest `f`.
spec fn holds_forest(
    weight: Seq<u128>,
    alive: Seq<bool>,
    leader: Seq<usize>,
    depth: Seq<u8>,
    f: Forest,
) -> bool {
    &&& f.weight =~= weights_of(weight)
    &&& f.alive =~= alive
    &&& f.leader.len() == SYMBOLS
    &&& f.depth.len() == SYMBOLS
    &&& forall|s: int| 0 <= s < SYMBOLS ==> #[trigger] f.leader[s] == leader[s]
    &&& forall|s: int| 0 <= s < SYMBOLS ==> #[trigger] f.depth[s] == depth[s]
}

/// Builds the tree and returns the depth of each symbol in it.
fn tree_depths_of(freqs: &[u64; 256]) -> (depth: [u8; 256])
    ensures
        forall|s: int| 0 <= s < SYMBOLS ==> #[trigger] depth@[s] == tree_depths(freqs@)[s],
{
    let mut weight: [u128; 256] = [0u128; 256];
    let mut alive: [bool; 256] = [false; 256];
    let mut leader: [usize; 256] = [0usize; 256];
    let mut depth: [u8; 256] = [0u8; 256];
    let mut active: usize = 0;
    let mut s: usize = 0;
    while s < SYMBOLS
        invariant
            s <= SYMBOLS,
            active == active_count(freqs@, s as int),
            active <= s,
            forall|t: int| 0 <= t < s ==> #[trigger] weight@[t] == freqs@[t],
            forall|t: int| 0 <= t < s ==> #[trigger] alive@[t] == (freqs@[t] > 0),
            forall|t: int| 0 <= t < s ==> #[trigger] leader@[t] == t,
            forall|t: int| 0 <= t < SYMBOLS ==> #[trigger] depth@[t] == 0,
        decreases SYMBOLS - s,
    {
        weight[s] = freqs[s] as u128;
        alive[s] = freqs[s] > 0;
        leader[s] = s;
        if freqs[s] > 0 {
            active = active + 1;
        }
        s = s + 1;
    }
    let ghost start = initial_forest(freqs@);
    let ghost mut f = start;
    proof {
        lemma_living_weight_initial(freqs@, SYMBOLS as int);
        assert(merge_rounds(start, 0) == start);
    }
    let mut round: usize = 1;
    while round < active
        invariant
            1 <= round,
            round <= active || round == 1,
            active <= SYMBOLS,
            active == active_count(freqs@, SYMBOLS as int),
            start == initial_forest(freqs@),
            f == merge_rounds(start, (round - 1) as nat),
            holds_forest(weight@, alive@, leader@, depth@, f),
            living_weight(f.weight, f.alive, SYMBOLS as int) <= SYMBOLS * u64::MAX,
            forall|t: int| 0 <= t < SYMBOLS ==> #[trigger] depth@[t] < round,
        decreases active - round,
    {
        let a = lightest_of(&weight, &alive, SYMBOLS);
        let b = lightest_of(&weight, &alive, a);
        let ghost before = f;
        proof {
            lemma_lightest(f.weight, f.alive, SYMBOLS as int, SYMBOLS as int);
            lemma_lightest(f.weight, f.alive, a as int, SYMBOLS as int);
            f = merge_step(before);
            assert(merge_rounds(start, round as nat) == merge_step(
                merge_rounds(start, (round - 1) as nat),
            ));
        }
        if a < SYMBOLS && b < SYMBOLS {
            proof {
                lemma_living_weight_pair(before.weight, before.alive, a as int, b as int, SYMBOLS as int);
                lemma_living_weight_merge(before.weight, before.alive, a as int, b as int, SYMBOLS as int);
            }
            weight[a] = weight[a] + weight[b];
            alive[b] = false;
            let mut t: usize = 0;
            while t < SYMBOLS
                invariant
                    t <= SYMBOLS,
                    a < SYMBOLS,
                    b < SYMBOLS,
                    a != b,
                    round < SYMBOLS,
                    before.leader.len() == SYMBOLS,
                    before.depth.len() == SYMBOLS,
                    forall|u: int| 0 <= u < SYMBOLS ==> #[trigger] before.depth[u] < round,
                    forall|u: int| t <= u < SYMBOLS ==> #[trigger] leader@[u] == before.leader[u],
                    forall|u: int| t <= u < SYMBOLS ==> #[trigger] depth@[u] == before.depth[u],
                    forall|u: int|
                        0 <= u < t ==> #[trigger] leader@[u] == (if before.leader[u] == b {
                            a as int
                        } else {
                            before.leader[u]
                        }),
                    forall|u: int|
                        0 <= u < t ==> #[trigger] depth@[u] == (if before.leader[u] == a
                            || before.leader[u] == b {
                            before.depth[u] + 1
                        } else {
                            before.depth[u]
                        }),
                decreases SYMBOLS - t,
            {
                let l: usize = leader[t];
                if l == a || l == b {
                    assert(before.depth[t as int] < round);
                    depth[t] = depth[t] + 1;
                    leader[t] = a;
                }
                t = t + 1;
            }
            proof {
                assert(f.weight =~= weights_of(weight@));
                assert(f.alive =~= alive@);
            }
        }
        round = round + 1;
    }
    proof {
        assert forall|s: int| 0 <= s < SYMBOLS implies #[trigger] depth@[s] == tree_depths(
            freqs@,
        )[s] by {
            assert(f.depth[s] == depth@[s]);
        }
    }
    depth
}

/// The Kraft sum of `lengths`, in units of `2^-15`.
pub fn kraft_of(lengths: &[u8; 256]) -> (sum: u32)
    requires
        valid_lengths(lengths@),
    ensures
        sum == kraft_sum(lengths@, SYMBOLS as int),
{
    let mut sum: u32 = 0;
    let mut s: usize = 0;
    while s < SYMBOLS
        invariant
            s <= SYMBOLS,
            valid_lengths(lengths@),
            sum == kraft_sum(lengths@, s as int),
            sum <= s * 16384,
        decreases SYMBOLS - s,
    {
        let len: u8 = lengths[s];
        if len >= 1 {
            let shift: u32 = (MAX_CODE_LEN as u32) - (len as u32);
            proof {
                crate::bits::lemma_shl_pow2(shift);
                assert(shift <= 14 ==> (1u32 << shift) <= 16384) by (bit_vector);
            }
            sum = sum + (1u32 << shift);
        }
        s = s + 1;
    }
    sum
}

fn longest_below_limit_of(lengths: &[u8; 256]) -> (found: usize)
    ensures
        found == longest_below_limit(lengths@, SYMBOLS as int),
{
    let mut found: usize = SYMBOLS;
    let mut i: usize = 0;
    while i < SYMBOLS
        invariant
            i <= SYMBOLS,
            found == longest_below_limit(lengths@, i as int),
            found == SYMBOLS || found < i,
        decreases SYMBOLS - i,
    {
        let len: u8 = lengths[i];
        if 1 <= len && (len as usize) < MAX_CODE_LEN && (found >= SYMBOLS || len > lengths[found]) {
            found = i;
        }
        i = i + 1;
    }
    found
}

/// Computes the code lengths for the given symbol frequencies.
pub fn code_lengths_of(freqs: &[u64; 256]) -> (lengths: [u8; 256])
    ensures
        lengths@ == code_lengths(freqs@),
        valid_lengths(lengths@),
        kraft_ok(lengths@),
        forall|s: int| 0 <= s < SYMBOLS ==> (#[trigger] lengths@[s] >= 1) == (freqs@[s] > 0),
{
    let depth = tree_depths_of(freqs);
    let mut lengths: [u8; 256] = [0u8; 256];
    let mut s: usize = 0;
    while s < SYMBOLS
        invariant
            s <= SYMBOLS,
            forall|t: int| 0 <= t < SYMBOLS ==> #[trigger] depth@[t] == tree_depths(freqs@)[t],
            forall|t: int|
                0 <= t < s ==> #[trigger] lengths@[t] == clamp_depths(tree_depths(freqs@), freqs@)[t],
        decreases SYMBOLS - s,
    {
        let d: u8 = depth[s];
        assert(depth@[s as int] == tree_depths(freqs@)[s as int]);
        let len: u8 = if freqs[s] == 0 {
            0
        } else if d < 1 {
            1
        } else if d as usize > MAX_CODE_LEN {
            MAX_CODE_LEN as u8
        } else {
            d
        };
        lengths[s] = len;
        s = s + 1;
    }
    let ghost clamped = clamp_depths(tree_depths(freqs@), freqs@);
    assert(lengths@ =~= clamped);
    let mut fuel: u32 = FIT_FUEL;
    loop
        invariant
            fuel <= FIT_FUEL,
            lengths@.len() == SYMBOLS,
            valid_lengths(lengths@),
            fit_lengths(lengths@, fuel as nat) == fit_lengths(clamped, FIT_FUEL as nat),
            clamped == clamp_depths(tree_depths(freqs@), freqs@),
        ensures
            fit_lengths(lengths@, fuel as nat) == lengths@,
        decreases fuel,
    {
        if fuel == 0 {
            break ;
        }
        let sum = kraft_of(&lengths);
        if sum <= KRAFT_ONE {
            break ;
        }
        let i = longest_below_limit_of(&lengths);
        if i >= SYMBOLS {
            break ;
        }
        proof {
            lemma_longest_below_limit(lengths@, SYMBOLS as int);
        }
        let ghost prev = lengths@;
        lengths[i] = lengths[i] + 1;
        fuel = fuel - 1;
        proof {
            assert(lengths@ =~= prev.update(i as int, (prev[i as int] + 1) as u8));
            assert forall|t: int| 0 <= t < SYMBOLS implies #[trigger] lengths@[t]
                <= MAX_CODE_LEN by {
                assert(prev[t] <= MAX_CODE_LEN);
            }
        }
    }
    proof {
        lemma_code_lengths(freqs@);
        assert(fit_lengths(lengths@, fuel as nat) == lengths@);
    }
    lengths
}

} // verus!
