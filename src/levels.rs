use vstd::prelude::*;

verus! {

/// Highest layer a node can be drawn onto.
pub const MAX_LEVEL: usize = 31;

/// The splitmix64 state after one step.
pub open spec fn next_state(s: u64) -> u64 {
    s.wrapping_add(0x9E37_79B9_7F4A_7C15)
}

/// The splitmix64 output for a stepped state.
#[verifier::opaque]
pub open spec fn mix(s: u64) -> u64 {
    let z1 = (s ^ (s >> 30u64)).wrapping_mul(0xBF58_476D_1CE4_E5B9);
    let z2 = (z1 ^ (z1 >> 27u64)).wrapping_mul(0x94D0_49BB_1331_11EB);
    z2 ^ (z2 >> 31u64)
}

/// The level drawn from `state` having reached `level` already, with the state
/// left behind: one more level per draw divisible by `m`, up to `MAX_LEVEL`.
pub open spec fn level_draw(state: u64, m: usize, level: usize) -> (usize, u64)
    decreases MAX_LEVEL - level,
{
    if level >= MAX_LEVEL {
        (level, state)
    } else {
        let s = next_state(state);
        if mix(s) % (m as u64) != 0 {
            (level, s)
        } else {
            level_draw(s, m, (level + 1) as usize)
        }
    }
}

/// The first `n` levels drawn from a generator seeded with `seed`, and the
/// state left behind.
pub open spec fn seeded_levels(n: nat, m: usize, seed: u64) -> (Seq<usize>, u64)
    decreases n,
{
    if n == 0 {
        (Seq::empty(), seed)
    } else {
        let (prev, st) = seeded_levels((n - 1) as nat, m, seed);
        let (lv, st2) = level_draw(st, m, 0);
        (prev.push(lv), st2)
    }
}

proof fn lemma_level_draw_bound(state: u64, m: usize, level: usize)
    requires
        level <= MAX_LEVEL,
    ensures
        level_draw(state, m, level).0 <= MAX_LEVEL,
    decreases MAX_LEVEL - level,
{
    if level < MAX_LEVEL {
        lemma_level_draw_bound(next_state(state), m, (level + 1) as usize);
    }
}

/// One step of the splitmix64 generator: advances `state` and returns a draw.
pub fn next_random(state: &mut u64) -> (r: u64)
    ensures
        *final(state) == next_state(*old(state)),
        r == mix(*final(state)),
{
    *state = state.wrapping_add(0x9E37_79B9_7F4A_7C15);
    let mut z: u64 = *state;
    z = (z ^ (z >> 30u64)).wrapping_mul(0xBF58_476D_1CE4_E5B9);
    z = (z ^ (z >> 27u64)).wrapping_mul(0x94D0_49BB_1331_11EB);
    proof {
        reveal(mix);
    }
    z ^ (z >> 31u64)
}

/// Draws a node's top layer so that it reaches layer `l` with probability
/// `m^-l`, the law of `⌊-ln(U)/ln(m)⌋`: each further layer needs one more
/// uniform draw divisible by `m`.
pub fn draw_level(state: &mut u64, m: usize) -> (r: usize)
    requires
        m >= 1,
    ensures
        (r, *final(state)) == level_draw(*old(state), m, 0),
        r <= MAX_LEVEL,
{
    proof {
        lemma_level_draw_bound(*state, m, 0);
    }
    let ghost start = *state;
    let mut level: usize = 0;
    let mut done = false;
    while !done && level < MAX_LEVEL
        invariant
            level <= MAX_LEVEL,
            m >= 1,
            !done ==> level_draw(start, m, 0) == level_draw(*state, m, level),
            done ==> level_draw(start, m, 0) == (level, *state),
        decreases MAX_LEVEL - level + if done { 0int } else { 1int },
    {
        let ghost prev = *state;
        let x = next_random(state);
        assert(level_draw(prev, m, level) == if x % (m as u64) != 0 {
            (level, *state)
        } else {
            level_draw(*state, m, (level + 1) as usize)
        });
        if x % (m as u64) != 0 {
            done = true;
        } else {
            level = level + 1;
        }
    }
    level
}

/// The top layers of `n` nodes, drawn in order from a generator seeded with `seed`.
pub fn draw_levels(n: usize, m: usize, seed: u64) -> (r: Vec<usize>)
    requires
        m >= 1,
    ensures
        r@ == seeded_levels(n as nat, m, seed).0,
        r@.len() == n,
        forall|i: int| 0 <= i < n ==> #[trigger] r@[i] <= MAX_LEVEL,
{
    let mut state = seed;
    let mut out: Vec<usize> = Vec::new();
    let mut i: usize = 0;
    while i < n
        invariant
            m >= 1,
            i <= n,
            (out@, state) == seeded_levels(i as nat, m, seed),
            out@.len() == i,
            forall|j: int| 0 <= j < i ==> #[trigger] out@[j] <= MAX_LEVEL,
        decreases n - i,
    {
        let lv = draw_level(&mut state, m);
        out.push(lv);
        i = i + 1;
    }
    out
}

} // verus!
