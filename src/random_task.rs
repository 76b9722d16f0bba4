use vstd::arithmetic::power2::{lemma2_to64, lemma_pow2_unfold, pow2};
use vstd::prelude::*;

verus! {

/// Why a passive learning task could not be set up.
#[derive(Debug, Clone, Copy, PartialEq, Eq, Structural)]
pub enum TaskError {
    /// The bound on the automaton's size leaves the sampling lengths
    /// undefined, or too large to represent.
    InvalidConfiguration,
}

/// The ranges from which the spoke and the cycle of a random lasso are drawn.
#[derive(Debug, Clone, Copy, PartialEq, Eq, Structural)]
pub struct LassoBounds {
    pub min_spoke: usize,
    pub max_spoke: usize,
    pub min_cycle: usize,
    pub max_cycle: usize,
}

/// `ceil(log2(n))` for `n >= 1`: the halvings, rounding up, that bring `n`
/// down to 1.
pub open spec fn ceil_log2(n: nat) -> nat
    decreases n,
{
    if n <= 1 {
        0
    } else {
        1 + ceil_log2(((n + 1) / 2) as nat)
    }
}

/// The longest spoke drawn for automata of at most `n` states.
pub open spec fn spoke_length(n: nat) -> int {
    2 * ceil_log2(n) - 1
}

/// The longest cycle drawn for automata of at most `n` states.
pub open spec fn cycle_length(n: nat) -> int {
    (2 * n - spoke_length(n)) * spoke_length(n)
}

/// `ceil_log2(n)` is the least `k` with `2^k >= n`.
pub proof fn lemma_ceil_log2_is_least(n: nat)
    requires
        n >= 1,
    ensures
        pow2(ceil_log2(n)) >= n,
        ceil_log2(n) > 0 ==> pow2((ceil_log2(n) - 1) as nat) < n,
    decreases n,
{
    lemma2_to64();
    if n > 1 {
        let m = ((n + 1) / 2) as nat;
        assert(ceil_log2(n) == 1 + ceil_log2(m));
        lemma_ceil_log2_is_least(m);
        lemma_pow2_unfold(ceil_log2(m) + 1);
        if ceil_log2(m) > 0 {
            lemma_pow2_unfold(ceil_log2(m));
        }
    }
}

proof fn lemma_ceil_log2_below(n: nat)
    requires
        n >= 1,
    ensures
        ceil_log2(n) < n,
    decreases n,
{
    if n > 1 {
        lemma_ceil_log2_below(((n + 1) / 2) as nat);
    }
}

/// The bounds of the lassos sampled for automata of at most
/// `max_automaton_size` states: spokes of length 0 to `spoke_length`,
/// cycles of length 1 to `cycle_length`. A bound under 2 makes the spoke
/// length negative, and is refused, as is one whose cycle length does not fit
/// in `usize`.
pub fn lasso_bounds(max_automaton_size: usize) -> (res: Result<LassoBounds, TaskError>)
    ensures
        res is Ok <==> max_automaton_size >= 2 && cycle_length(max_automaton_size as nat)
            <= usize::MAX,
        res is Err ==> res == Err::<LassoBounds, TaskError>(TaskError::InvalidConfiguration),
        res matches Ok(b) ==> b == (LassoBounds {
            min_spoke: 0,
            max_spoke: spoke_length(max_automaton_size as nat) as usize,
            min_cycle: 1,
            max_cycle: cycle_length(max_automaton_size as nat) as usize,
        }),
        res matches Ok(b) ==> 1 <= b.max_spoke,
        res matches Ok(b) ==> 1 <= b.max_cycle,
{
    let n = max_automaton_size;
    if n < 2 {
        return Err(TaskError::InvalidConfiguration);
    }
    proof {
        lemma_ceil_log2_below(n as nat);
        assert(ceil_log2(n as nat) == 1 + ceil_log2(((n + 1) / 2) as nat));
    }
    let mut k: usize = 0;
    let mut m: usize = n;
    while m > 1
        invariant
            1 <= m <= n,
            k + ceil_log2(m as nat) == ceil_log2(n as nat),
            1 <= ceil_log2(n as nat) < n,
        decreases m,
    {
        m = m / 2 + m % 2;
        k = k + 1;
    }
    assert(k == ceil_log2(n as nat));
    let spoke: u128 = 2 * (k as u128) - 1;
    let room: u128 = 2 * (n as u128) - spoke;
    match room.checked_mul(spoke) {
        None => Err(TaskError::InvalidConfiguration),
        Some(cycle) => {
            if cycle > usize::MAX as u128 {
                return Err(TaskError::InvalidConfiguration);
            }
            assert(room * spoke >= 1 && room * spoke >= spoke) by (nonlinear_arith)
                requires
                    room >= 1,
                    spoke >= 1,
            ;
            Ok(LassoBounds { min_spoke: 0, max_spoke: spoke as usize, min_cycle: 1, max_cycle: cycle as usize })
        },
    }
}

/// Pairs each word with the verdict of `accepts` on it, keeping the order of
/// `set`.
pub fn label_set<W, F: Fn(&W) -> bool>(accepts: F, set: Vec<W>) -> (r: Vec<(W, bool)>)
    requires
        forall|w: &W| #[trigger] accepts.requires((w,)),
    ensures
        r.len() == set.len(),
        forall|i: int|
            0 <= i < r.len() ==> (#[trigger] r[i]).0 == set[i] && accepts.ensures((&set[i],), r[i].1),
{
    let ghost words = set@;
    let ghost n = set.len() as int;
    let mut rest = set;
    let mut reversed: Vec<(W, bool)> = Vec::new();
    while rest.len() > 0
        invariant
            forall|w: &W| #[trigger] accepts.requires((w,)),
            words.len() == n,
            rest.len() <= n,
            rest@ == words.subrange(0, rest.len() as int),
            reversed.len() + rest.len() == n,
            forall|j: int|
                0 <= j < reversed.len() ==> #[trigger] reversed[j].0 == words[n - 1 - j]
                    && accepts.ensures((&words[n - 1 - j],), reversed[j].1),
        decreases rest.len(),
    {
        let w = rest.pop().unwrap();
        assert(rest@ =~= words.subrange(0, rest.len() as int));
        assert(w == words[rest.len() as int]);
        let verdict = accepts(&w);
        let ghost before = reversed@;
        reversed.push((w, verdict));
        assert(forall|j: int| 0 <= j < before.len() ==> reversed[j] == before[j]);
    }
    let ghost all = reversed@;
    let mut out: Vec<(W, bool)> = Vec::new();
    while reversed.len() > 0
        invariant
            forall|j: int|
                0 <= j < n ==> #[trigger] all[j].0 == words[n - 1 - j]
                    && accepts.ensures((&words[n - 1 - j],), all[j].1),
            words.len() == n,
            reversed.len() <= n,
            all.len() == n,
            reversed@ == all.subrange(0, reversed.len() as int),
            out.len() + reversed.len() == n,
            forall|j: int| 0 <= j < out.len() ==> #[trigger] out[j] == all[n - 1 - j],
        decreases reversed.len(),
    {
        let p = reversed.pop().unwrap();
        assert(reversed@ =~= all.subrange(0, reversed.len() as int));
        out.push(p);
    }
    assert forall|i: int| 0 <= i < n implies (#[trigger] out[i]).0 == set[i]
        && accepts.ensures((&set[i],), out[i].1) by {
        assert(out[i] == all[n - 1 - i]);
        assert(words[i] == set[i]);
    }
    out
}

} // verus!
