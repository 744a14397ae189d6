use vstd::prelude::*;
use vstd::std_specs::cmp::PartialEqSpec;
use std::collections::HashMap;
use crate::camel_map::{
    CamelMap, EffectCard, FIELD_COUNT, all_on_board, law_move_keeps_each_camel_once,
    lemma_spot, lemma_step_shape, on_board, origin, spot, stacks_wf, step, target,
};
use crate::color::Color;
use crate::color_state::{
    ColorState, COLOR_BITS, lemma_count_remove, state_count, state_first_from, state_has,
};
use crate::configuration::{Configuration, Dice, leaderboard_of, ranking, ranking_from};

verus! {

broadcast use vstd::std_specs::hash::group_hash_axioms;

/// Finishing order of one fully played round: the color index of the
/// camel in first place, second place, and so on.
pub type Placement = [u8; 5];

/// Number of equally likely ways a full round of five dice can come out:
/// 5! orders times 3^5 faces.
pub const ALL_GAME_STATES_COUNT: u32 = 5 * 4 * 3 * 2 * 243;

/// The finishing order of a board as color indices.
pub open spec fn placement_of(st: Seq<Seq<Color>>) -> Seq<u8> {
    leaderboard_of(st).map_values(|c: Color| c.idx() as u8)
}

/// The placements as sequences.
pub open spec fn views(v: Seq<Placement>) -> Seq<Seq<u8>> {
    v.map_values(|p: Placement| p@)
}

/// The set stored as `rem` without the color of index `i`.
pub open spec fn without(rem: u8, i: int) -> u8 {
    rem & !(0x80u8 >> (i as u8))
}

/// Every finishing order reachable from board `st` when the dice of the
/// colors in `rem` (`depth` of them) are still to be rolled: for each color
/// in index order, for each face 1, 2, 3, the orders reachable after that
/// roll.
pub open spec fn outcomes(
    st: Seq<Seq<Color>>,
    cards: Seq<Option<EffectCard>>,
    rem: u8,
    depth: nat,
) -> Seq<Seq<u8>>
    decreases depth, 6int, 0int,
{
    if depth == 0 {
        seq![placement_of(st)]
    } else {
        outcomes_upto(st, cards, rem, depth, 5)
    }
}

/// The part of `outcomes` where the first die rolled has color index below `n`.
pub open spec fn outcomes_upto(
    st: Seq<Seq<Color>>,
    cards: Seq<Option<EffectCard>>,
    rem: u8,
    depth: nat,
    n: int,
) -> Seq<Seq<u8>>
    decreases depth, n, 4int,
{
    if n <= 0 || depth == 0 {
        Seq::empty()
    } else {
        outcomes_upto(st, cards, rem, depth, n - 1) + if state_has(rem, n - 1) {
            roll_outcomes(st, cards, rem, depth, n - 1, 3)
        } else {
            Seq::empty()
        }
    }
}

/// The part of `outcomes` where the first die rolled has color index `i`
/// and shows at most `d`.
pub open spec fn roll_outcomes(
    st: Seq<Seq<Color>>,
    cards: Seq<Option<EffectCard>>,
    rem: u8,
    depth: nat,
    i: int,
    d: int,
) -> Seq<Seq<u8>>
    decreases depth, i, d,
{
    if d <= 0 || depth == 0 || i < 0 {
        Seq::empty()
    } else {
        roll_outcomes(st, cards, rem, depth, i, d - 1) + outcomes(
            step(st, cards, Color::of_index(i), d),
            cards,
            without(rem, i),
            (depth - 1) as nat,
        )
    }
}

/// Every finishing order of the round from board `st` with the colors in
/// `rem` still to roll.
pub open spec fn round_outcomes(st: Seq<Seq<Color>>, cards: Seq<Option<EffectCard>>, rem: u8) -> Seq<
    Seq<u8>,
> {
    outcomes(st, cards, rem, state_count(rem, 5))
}

/// Whether every camel that still rolls stands on the board and no roll
/// sequence sends a camel past the last field.
pub open spec fn fits(st: Seq<Seq<Color>>, cards: Seq<Option<EffectCard>>, rem: u8, depth: nat) -> bool
    decreases depth, 6int, 0int,
{
    depth == 0 || fits_upto(st, cards, rem, depth, 5)
}

/// `fits` for first rolls of color index below `n`.
pub open spec fn fits_upto(
    st: Seq<Seq<Color>>,
    cards: Seq<Option<EffectCard>>,
    rem: u8,
    depth: nat,
    n: int,
) -> bool
    decreases depth, n, 4int,
{
    if n <= 0 || depth == 0 {
        true
    } else {
        fits_upto(st, cards, rem, depth, n - 1) && (state_has(rem, n - 1) ==> fits_roll(
            st,
            cards,
            rem,
            depth,
            n - 1,
            3,
        ))
    }
}

/// `fits` for a first roll of color index `i` showing at most `d`.
pub open spec fn fits_roll(
    st: Seq<Seq<Color>>,
    cards: Seq<Option<EffectCard>>,
    rem: u8,
    depth: nat,
    i: int,
    d: int,
) -> bool
    decreases depth, i, d,
{
    if d <= 0 || depth == 0 || i < 0 {
        true
    } else {
        &&& fits_roll(st, cards, rem, depth, i, d - 1)
        &&& on_board(st, Color::of_index(i))
        &&& target(st, cards, Color::of_index(i), d) < FIELD_COUNT
        &&& fits(
            step(st, cards, Color::of_index(i), d),
            cards,
            without(rem, i),
            (depth - 1) as nat,
        )
    }
}

/// Whether the round from board `st` with colors `rem` stays on the board.
pub open spec fn round_fits(st: Seq<Seq<Color>>, cards: Seq<Option<EffectCard>>, rem: u8) -> bool {
    fits(st, cards, rem, state_count(rem, 5))
}

/// Where the iteration over a set stored as `s` goes next from `a`: past
/// absent colors to the first present one.
pub proof fn lemma_first_from(s: u8, a: int)
    requires
        0 <= a <= 5,
    ensures
        a <= state_first_from(s, a) <= 5,
        state_first_from(s, a) < 5 ==> state_has(s, state_first_from(s, a)),
        forall|j: int| a <= j < state_first_from(s, a) ==> !#[trigger] state_has(s, j),
    decreases 5 - a,
{
    if a < 5 && !state_has(s, a) {
        lemma_first_from(s, a + 1);
    }
}

/// Colors that do not roll add nothing to the outcomes.
pub proof fn lemma_upto_skip(
    st: Seq<Seq<Color>>,
    cards: Seq<Option<EffectCard>>,
    rem: u8,
    depth: nat,
    a: int,
    b: int,
)
    requires
        0 <= a <= b <= 5,
        forall|j: int| a <= j < b ==> !#[trigger] state_has(rem, j),
    ensures
        outcomes_upto(st, cards, rem, depth, b) == outcomes_upto(st, cards, rem, depth, a),
    decreases b - a,
{
    if a < b {
        lemma_upto_skip(st, cards, rem, depth, a, b - 1);
        assert(outcomes_upto(st, cards, rem, depth, b) =~= outcomes_upto(st, cards, rem, depth, b - 1));
    }
}

/// A round that stays on the board stays on it for each of its first rolls.
pub proof fn lemma_fits_roll(
    st: Seq<Seq<Color>>,
    cards: Seq<Option<EffectCard>>,
    rem: u8,
    depth: nat,
    i: int,
    d: int,
)
    requires
        fits(st, cards, rem, depth),
        depth > 0,
        0 <= i < 5,
        state_has(rem, i),
        1 <= d <= 3,
    ensures
        on_board(st, Color::of_index(i)),
        target(st, cards, Color::of_index(i), d) < FIELD_COUNT,
        fits(step(st, cards, Color::of_index(i), d), cards, without(rem, i), (depth - 1) as nat),
{
    lemma_fits_upto_mono(st, cards, rem, depth, i + 1, 5);
    lemma_fits_roll_mono(st, cards, rem, depth, i, d, 3);
}

/// `fits_upto` for more colors implies it for fewer.
pub proof fn lemma_fits_upto_mono(
    st: Seq<Seq<Color>>,
    cards: Seq<Option<EffectCard>>,
    rem: u8,
    depth: nat,
    m: int,
    n: int,
)
    requires
        0 <= m <= n,
        fits_upto(st, cards, rem, depth, n),
    ensures
        fits_upto(st, cards, rem, depth, m),
    decreases n - m,
{
    if m < n {
        lemma_fits_upto_mono(st, cards, rem, depth, m, n - 1);
    }
}

/// `fits_roll` for more faces implies it for fewer.
pub proof fn lemma_fits_roll_mono(
    st: Seq<Seq<Color>>,
    cards: Seq<Option<EffectCard>>,
    rem: u8,
    depth: nat,
    i: int,
    e: int,
    d: int,
)
    requires
        0 <= e <= d,
        fits_roll(st, cards, rem, depth, i, d),
    ensures
        fits_roll(st, cards, rem, depth, i, e),
    decreases d - e,
{
    if e < d {
        lemma_fits_roll_mono(st, cards, rem, depth, i, e, d - 1);
    }
}

/// Diagnostic counters of the memoized search.
#[derive(Debug, Default)]
pub struct CacheStatistics {
    pub cache_hits: u32,
    pub cache_misses: u32,
    pub total_function_calls: u32,
}

impl CacheStatistics {
    /// All counters at zero.
    pub fn new() -> (r: CacheStatistics)
        ensures
            r.cache_hits == 0,
            r.cache_misses == 0,
            r.total_function_calls == 0,
    {
        CacheStatistics { cache_hits: 0, cache_misses: 0, total_function_calls: 0 }
    }

    /// Counts a call answered from the cache.
    pub fn record_hit(&mut self)
        ensures
            final(self).cache_hits == old(self).cache_hits.saturating_add(1),
            final(self).cache_misses == old(self).cache_misses,
            final(self).total_function_calls == old(self).total_function_calls.saturating_add(1),
    {
        self.cache_hits = self.cache_hits.saturating_add(1);
        self.total_function_calls = self.total_function_calls.saturating_add(1);
    }

    /// Counts a call that had to be computed.
    pub fn record_miss(&mut self)
        ensures
            final(self).cache_hits == old(self).cache_hits,
            final(self).cache_misses == old(self).cache_misses.saturating_add(1),
            final(self).total_function_calls == old(self).total_function_calls.saturating_add(1),
    {
        self.cache_misses = self.cache_misses.saturating_add(1);
        self.total_function_calls = self.total_function_calls.saturating_add(1);
    }
}

/// A cached result: the board and remaining colors it was computed for, and
/// the finishing orders.
pub struct CacheEntry {
    pub map: CamelMap,
    pub state: u8,
    pub placements: Vec<Placement>,
}

/// Whether every entry of a cache holds the outcomes of its own position.
pub open spec fn cache_ok(m: Map<u64, CacheEntry>, cards: Seq<Option<EffectCard>>) -> bool {
    forall|k: u64|
        #[trigger] m.contains_key(k) ==> {
            &&& m[k].map.wf()
            &&& m[k].map.cards() == cards
            &&& round_fits(m[k].map.stacks(), cards, m[k].state)
            &&& views(m[k].placements@) == round_outcomes(m[k].map.stacks(), cards, m[k].state)
        }
}

/// The cache key of a position: the recorded camel fields and the color bits.
pub open spec fn key_of(pos: Seq<u8>, members: u8) -> int {
    pos[0] as int + pos[1] as int * 0x100 + pos[2] as int * 0x1_0000 + pos[3] as int * 0x100_0000
        + pos[4] as int * 0x1_0000_0000 + members as int * 0x100_0000_0000
}

impl Configuration {
    /// The key under which the search caches this position. It depends on
    /// the recorded camel fields and the remaining colors only, so equal
    /// positions share a key.
    pub fn cache_key(&self) -> (r: u64)
        ensures
            r as int == key_of(self.map.color_pos_map@, self.available_colours.members()),
    {
        let members = self.available_colours.state & COLOR_BITS;
        let p = self.map.color_pos_map;
        let key: u64 = p[0] as u64 + p[1] as u64 * 0x100 + p[2] as u64 * 0x1_0000 + p[3] as u64
            * 0x100_0000 + p[4] as u64 * 0x1_0000_0000 + members as u64 * 0x100_0000_0000;
        key
    }
}

/// The color indices of a finishing order.
fn to_placement(lb: &[Color; 5]) -> (r: Placement)
    ensures
        r@ == lb@.map_values(|c: Color| c.idx() as u8),
{
    let mut p: Placement = [0u8; 5];
    let mut k: usize = 0;
    while k < 5
        invariant
            k <= 5,
            forall|q: int| 0 <= q < k ==> #[trigger] p[q] == lb@[q].idx() as u8,
        decreases 5 - k,
    {
        p[k] = lb[k].index() as u8;
        k = k + 1;
    }
    assert(p@ =~= lb@.map_values(|c: Color| c.idx() as u8));
    p
}

/// A copy of a list of placements.
fn copy_placements(v: &Vec<Placement>) -> (r: Vec<Placement>)
    ensures
        r@ == v@,
{
    let mut r: Vec<Placement> = Vec::new();
    let mut k: usize = 0;
    while k < v.len()
        invariant
            k <= v@.len(),
            r@ == v@.subrange(0, k as int),
        decreases v@.len() - k,
    {
        r.push(v[k]);
        k = k + 1;
        assert(r@ =~= v@.subrange(0, k as int));
    }
    assert(r@ =~= v@);
    r
}

/// `fits_upto` ignores colors that do not roll.
pub proof fn lemma_fits_upto_skip(
    st: Seq<Seq<Color>>,
    cards: Seq<Option<EffectCard>>,
    rem: u8,
    depth: nat,
    a: int,
    b: int,
)
    requires
        0 <= a <= b <= 5,
        forall|j: int| a <= j < b ==> !#[trigger] state_has(rem, j),
    ensures
        fits_upto(st, cards, rem, depth, b) == fits_upto(st, cards, rem, depth, a),
    decreases b - a,
{
    if a < b {
        lemma_fits_upto_skip(st, cards, rem, depth, a, b - 1);
    }
}

/// Collects the finishing orders of every continuation of `conf`, caching
/// the result of each position it computes; `None` when some roll sequence
/// would send a camel past the last field.
fn simulate_round_rec(
    conf: Configuration,
    cache: &mut HashMap<u64, CacheEntry>,
    stats: &mut CacheStatistics,
) -> (r: Option<Vec<Placement>>)
    requires
        conf.wf(),
        conf.available_colours.cursor() == 0,
        cache_ok(old(cache)@, conf.map.cards()),
    ensures
        r is Some <==> round_fits(
            conf.map.stacks(),
            conf.map.cards(),
            conf.available_colours.state,
        ),
        r is Some ==> views(r->Some_0@) == round_outcomes(
            conf.map.stacks(),
            conf.map.cards(),
            conf.available_colours.state,
        ),
        cache_ok(final(cache)@, conf.map.cards()),
        forall|k: u64| old(cache)@.contains_key(k) ==> #[trigger] final(cache)@.contains_key(k),
        ({
            let key = key_of(conf.map.color_pos_map@, conf.available_colours.members()) as u64;
            r is Some && conf.available_colours.count() > 0 ==> {
                &&& final(cache)@.contains_key(key)
                &&& final(cache)@[key].placements@ == r->Some_0@
                &&& final(cache)@[key].map.same_as(&conf.map)
            }
        }),
    decreases conf.available_colours.count(),
{
    let ghost cache0 = cache@;
    let ghost st = conf.map.stacks();
    let ghost cards = conf.map.cards();
    let ghost rem = conf.available_colours.state;
    let ghost depth = conf.available_colours.count();
    if conf.available_colours.len() == 0 {
        stats.record_miss();
        let lb = conf.leaderboard();
        let p = to_placement(&lb);
        let mut v: Vec<Placement> = Vec::new();
        v.push(p);
        assert(views(v@) =~= seq![placement_of(st)]);
        return Some(v);
    }
    let key = conf.cache_key();
    match cache.get(&key) {
        Some(entry) => {
            if entry.map == conf.map && entry.state == conf.available_colours.state {
                stats.record_hit();
                proof {
                    entry.map.lemma_same_as(&conf.map);
                }
                return Some(copy_placements(&entry.placements));
            }
        },
        None => {},
    }
    stats.record_miss();
    let mut all: Vec<Placement> = Vec::new();
    let mut it = conf.available_colours.into_iter();
    loop
        invariant
            conf.wf(),
            st == conf.map.stacks(),
            cards == conf.map.cards(),
            rem == conf.available_colours.state,
            depth == conf.available_colours.count(),
            depth > 0,
            conf.available_colours.cursor() == 0,
            it.cursor() <= 5,
            forall|j: int| 0 <= j < 5 ==> #[trigger] it.has(j) == (j >= it.cursor() && state_has(rem, j)),
            fits_upto(st, cards, rem, depth, it.cursor() as int),
            views(all@) == outcomes_upto(st, cards, rem, depth, it.cursor() as int),
            cache_ok(cache@, cards),
            cache0 == old(cache)@,
            forall|k: u64| cache0.contains_key(k) ==> #[trigger] cache@.contains_key(k),
        ensures
            fits(st, cards, rem, depth),
            views(all@) == outcomes_upto(st, cards, rem, depth, 5),
            cache_ok(cache@, cards),
            forall|k: u64| cache0.contains_key(k) ==> #[trigger] cache@.contains_key(k),
        decreases 5 - it.cursor(),
    {
        let ghost c0 = it.cursor() as int;
        let ghost it0 = it;
        proof {
            lemma_first_from(it0.state, c0);
        }
        match it.next() {
            None => {
                proof {
                    assert forall|j: int| c0 <= j < 5 implies !#[trigger] state_has(rem, j) by {
                        assert(it0.has(j) == (j >= c0 && state_has(rem, j)));
                    }
                    lemma_upto_skip(st, cards, rem, depth, c0, 5);
                    lemma_fits_upto_skip(st, cards, rem, depth, c0, 5);
                }
                break;
            },
            Some(code) => {
                let ghost i = state_first_from(it0.state, c0);
                proof {
                    assert forall|j: int| c0 <= j < i implies !#[trigger] state_has(rem, j) by {
                        assert(it0.has(j) == (j >= c0 && state_has(rem, j)));
                    }
                    lemma_upto_skip(st, cards, rem, depth, c0, i);
                    lemma_fits_upto_skip(st, cards, rem, depth, c0, i);
                    assert(it0.has(i) == (i >= c0 && state_has(rem, i)));
                    assert(state_has(rem, i));
                    assert forall|j: int| 0 <= j < 5 implies #[trigger] it.has(j) == (j >= it.cursor() && state_has(rem, j)) by {
                        assert(it0.has(j) == (j >= c0 && state_has(rem, j)));
                    }
                    assert(code == 0x80u8 >> (i as u8));
                    assert(0x80u8 >> 0u8 == 0x80u8 && 0x80u8 >> 1u8 == 0x40u8 && 0x80u8 >> 2u8 == 0x20u8
                        && 0x80u8 >> 3u8 == 0x10u8 && 0x80u8 >> 4u8 == 0x08u8) by (bit_vector);
                }
                let dice_color = Color::from_byte(code);
                assert(dice_color == Color::of_index(i));
                assert(dice_color.idx() == i);
                if !conf.map.holds(dice_color) {
                    proof {
                        if fits(st, cards, rem, depth) {
                            lemma_fits_roll(st, cards, rem, depth, i, 1);
                        }
                    }
                    return None;
                }
                let mut dice_value: u8 = 1;
                while dice_value <= 3
                    invariant
                        1 <= dice_value <= 4,
                        0 <= i < 5,
                        state_has(rem, i),
                        dice_color == Color::of_index(i),
                        on_board(st, dice_color),
                        conf.wf(),
                        st == conf.map.stacks(),
                        cards == conf.map.cards(),
                        rem == conf.available_colours.state,
                        depth == conf.available_colours.count(),
                        depth > 0,
                        conf.available_colours.cursor() == 0,
                        fits_upto(st, cards, rem, depth, i),
                        fits_roll(st, cards, rem, depth, i, dice_value - 1),
                        views(all@) == outcomes_upto(st, cards, rem, depth, i) + roll_outcomes(
                            st,
                            cards,
                            rem,
                            depth,
                            i,
                            dice_value - 1,
                        ),
                        cache_ok(cache@, cards),
                        cache0 == old(cache)@,
                        forall|k: u64| cache0.contains_key(k) ==> #[trigger] cache@.contains_key(k),
                    decreases 4 - dice_value,
                {
                    if conf.map.target_of(dice_color, dice_value) >= FIELD_COUNT {
                        proof {
                            if fits(st, cards, rem, depth) {
                                lemma_fits_roll(st, cards, rem, depth, i, dice_value as int);
                            }
                        }
                        return None;
                    }
                    let mut new_conf = conf.duplicate();
                    proof {
                        new_conf.map.lemma_same_as(&conf.map);
                    }
                    new_conf.dice_queue.push(Dice { color: dice_color, value: dice_value });
                    new_conf.available_colours.remove_color(dice_color);
                    new_conf.map.move_camel(dice_color, dice_value);
                    proof {
                        let t = new_conf.available_colours.state;
                        assert(t == without(rem, i));
                        assert forall|j: int| #![trigger state_has(t, j)] state_has(t, j) == (j != i && state_has(rem, j)) by {
                            if 0 <= j < 5 {
                                assert(new_conf.available_colours.has(j) == (j != i && state_has(rem, j)));
                            }
                        }
                        lemma_count_remove(rem, t, i, 5);
                        assert(new_conf.map.cards() == cards);
                    }
                    let sub_result = simulate_round_rec(new_conf, cache, stats);
                    let mut sub = match sub_result {
                        None => {
                            proof {
                                if fits(st, cards, rem, depth) {
                                    lemma_fits_roll(st, cards, rem, depth, i, dice_value as int);
                                }
                            }
                            return None;
                        },
                        Some(v) => v,
                    };
                    let ghost before = all@;
                    let ghost sub_v = sub@;
                    all.append(&mut sub);
                    proof {
                        assert(views(all@) =~= views(before) + views(sub_v));
                    }
                    dice_value = dice_value + 1;
                }
            },
        }
    }
    let result = copy_placements(&all);
    let state = conf.available_colours.state;
    cache.insert(key, CacheEntry { map: conf.map, state, placements: all });
    Some(result)
}

/// What a search returns: the finishing order of every enumerated way the
/// round can end, and diagnostic cache counters.
pub struct SimulationResult {
    pub placements: Vec<Placement>,
    pub stats: CacheStatistics,
}

impl SimulationResult {
    /// The finishing orders, one per way the round can end.
    pub fn placements(&self) -> (r: &Vec<Placement>)
        ensures
            r@ == self.placements@,
    {
        &self.placements
    }

    /// The cache counters of the search.
    pub fn stats(&self) -> (r: &CacheStatistics)
        ensures
            *r == self.stats,
    {
        &self.stats
    }
}

/// Enumerates every way the dice still in the pyramid can come out, each
/// remaining color rolling once in any order with faces 1, 2 and 3, and
/// returns the finishing order of each; `None` when some roll sequence
/// would send a camel past the last field.
///
/// The iteration cursor of the colors is ignored. Boards are kept at their
/// absolute fields (no normalizing), so the tiles keep their meaning.
pub fn try_simulate_rounds(init_config: Configuration) -> (r: Option<SimulationResult>)
    requires
        init_config.wf(),
    ensures
        r is Some <==> round_fits(
            init_config.map.stacks(),
            init_config.map.cards(),
            init_config.available_colours.members(),
        ),
        r is Some ==> views(r->Some_0.placements@) == round_outcomes(
            init_config.map.stacks(),
            init_config.map.cards(),
            init_config.available_colours.members(),
        ),
{
    let mut conf = init_config;
    let full = conf.available_colours.state;
    let members = full & COLOR_BITS;
    conf.available_colours = ColorState { state: members };
    assert((members & 7u8) == 0) by (bit_vector)
        requires
            members == full & 0xF8u8,
    ;
    let mut cache: HashMap<u64, CacheEntry> = HashMap::new();
    let mut stats = CacheStatistics::new();
    match simulate_round_rec(conf, &mut cache, &mut stats) {
        Some(placements) => Some(SimulationResult { placements, stats }),
        None => None,
    }
}

/// Enumerates every way the dice still in the pyramid can come out and
/// returns the finishing order of each, for a round in which no roll
/// sequence sends a camel past the last field.
pub fn simulate_rounds(init_config: Configuration) -> (r: SimulationResult)
    requires
        init_config.wf(),
        round_fits(
            init_config.map.stacks(),
            init_config.map.cards(),
            init_config.available_colours.members(),
        ),
    ensures
        views(r.placements@) == round_outcomes(
            init_config.map.stacks(),
            init_config.map.cards(),
            init_config.available_colours.members(),
        ),
{
    match try_simulate_rounds(init_config) {
        Some(res) => res,
        None => {
            assert(false);
            SimulationResult { placements: Vec::new(), stats: CacheStatistics::new() }
        },
    }
}

/// How many of the first `n` records place color index `c` at rank `k`.
pub open spec fn rank_count(v: Seq<Placement>, n: int, c: int, k: int) -> nat
    decreases n,
{
    if n <= 0 {
        0
    } else {
        rank_count(v, n - 1, c, k) + if v[n - 1][k] as int == c {
            1nat
        } else {
            0nat
        }
    }
}

/// Whether every record names only camels (indices below 5).
pub open spec fn records_ok(v: Seq<Placement>) -> bool {
    forall|n: int, k: int| 0 <= n < v.len() && 0 <= k < 5 ==> (#[trigger] v[n][k]) < 5
}

/// Counts, for each color and rank, the records that place that color at
/// that rank: `r[color][rank]`.
pub fn aggragate_placements(placements_vec: &Vec<Placement>) -> (r: [[u32; 5]; 5])
    requires
        records_ok(placements_vec@),
        placements_vec@.len() <= u32::MAX,
    ensures
        forall|c: int, k: int|
            0 <= c < 5 && 0 <= k < 5 ==> (#[trigger] r[c][k]) as nat == rank_count(
                placements_vec@,
                placements_vec@.len() as int,
                c,
                k,
            ),
{
    let ghost v = placements_vec@;
    let mut placements: [[u32; 5]; 5] = [[0; 5]; 5];
    let mut n: usize = 0;
    while n < placements_vec.len()
        invariant
            v == placements_vec@,
            records_ok(v),
            v.len() <= u32::MAX,
            n <= v.len(),
            forall|c: int, k: int|
                0 <= c < 5 && 0 <= k < 5 ==> (#[trigger] placements[c][k]) as nat == rank_count(
                    v,
                    n as int,
                    c,
                    k,
                ),
            forall|c: int, k: int| 0 <= c < 5 && 0 <= k < 5 ==> rank_count(v, n as int, c, k) <= n,
        decreases v.len() - n,
    {
        let placement = placements_vec[n];
        let ghost before = placements;
        let mut i: usize = 0;
        while i < 5
            invariant
                v == placements_vec@,
                records_ok(v),
                v.len() <= u32::MAX,
                n < v.len(),
                i <= 5,
                placement == v[n as int],
                forall|c: int, k: int|
                    0 <= c < 5 && 0 <= k < 5 ==> (#[trigger] placements[c][k]) as nat == if k < i {
                        rank_count(v, n + 1, c, k)
                    } else {
                        rank_count(v, n as int, c, k)
                    },
                forall|c: int, k: int| 0 <= c < 5 && 0 <= k < 5 ==> rank_count(v, n as int, c, k) <= n,
            decreases 5 - i,
        {
            let color_index = placement[i] as usize;
            assert(v[n as int][i as int] < 5);
            assert(rank_count(v, n as int, color_index as int, i as int) <= n);
            let mut row = placements[color_index];
            row[i] = row[i] + 1;
            placements[color_index] = row;
            i = i + 1;
        }
        n = n + 1;
        proof {
            assert forall|c: int, k: int| 0 <= c < 5 && 0 <= k < 5 implies rank_count(v, n as int, c, k) <= n by {
                assert(rank_count(v, n - 1, c, k) <= n - 1);
            }
        }
    }
    placements
}

/// `n!`
pub open spec fn factorial(n: nat) -> nat
    decreases n,
{
    if n == 0 {
        1
    } else {
        n * factorial((n - 1) as nat)
    }
}

/// `3^n`
pub open spec fn pow3(n: nat) -> nat
    decreases n,
{
    if n == 0 {
        1
    } else {
        3 * pow3((n - 1) as nat)
    }
}

/// Number of outcomes of a position with `depth` colors still to roll.
pub open spec fn leaf_count(depth: nat) -> nat {
    factorial(depth) * pow3(depth)
}

/// A position with `depth` colors to roll has `leaf_count(depth)` outcomes.
proof fn lemma_outcomes_len(st: Seq<Seq<Color>>, cards: Seq<Option<EffectCard>>, rem: u8, depth: nat)
    requires
        state_count(rem, 5) == depth,
    ensures
        outcomes(st, cards, rem, depth).len() == leaf_count(depth),
    decreases depth, 6int, 0int,
{
    if depth == 0 {
        assert(factorial(0) == 1);
        assert(pow3(0) == 1);
        assert(outcomes(st, cards, rem, depth).len() == 1);
        assert(leaf_count(0) == 1);
    } else {
        lemma_upto_len(st, cards, rem, depth, 5);
        assert(outcomes(st, cards, rem, depth) == outcomes_upto(st, cards, rem, depth, 5));
        let l = leaf_count((depth - 1) as nat);
        assert(factorial(depth) == depth * factorial((depth - 1) as nat));
        assert(pow3(depth) == 3 * pow3((depth - 1) as nat));
        assert(depth * 3 * l == leaf_count(depth)) by (nonlinear_arith)
            requires
                l == factorial((depth - 1) as nat) * pow3((depth - 1) as nat),
                leaf_count(depth) == factorial(depth) * pow3(depth),
                factorial(depth) == depth * factorial((depth - 1) as nat),
                pow3(depth) == 3 * pow3((depth - 1) as nat),
        ;
        let c = state_count(rem, 5);
        assert(c * 3 * l == depth * 3 * l) by (nonlinear_arith)
            requires
                c == depth,
        ;
    }
}

/// Each rolling color below `n` contributes three faces' worth of outcomes.
proof fn lemma_upto_len(
    st: Seq<Seq<Color>>,
    cards: Seq<Option<EffectCard>>,
    rem: u8,
    depth: nat,
    n: int,
)
    requires
        state_count(rem, 5) == depth,
        depth > 0,
        0 <= n <= 5,
    ensures
        outcomes_upto(st, cards, rem, depth, n).len() == state_count(rem, n) * 3 * leaf_count(
            (depth - 1) as nat,
        ),
    decreases depth, n, 4int,
{
    let l = leaf_count((depth - 1) as nat);
    if n == 0 {
        assert(state_count(rem, 0) == 0);
        assert(0 * 3 * l == 0) by (nonlinear_arith);
    } else {
        lemma_upto_len(st, cards, rem, depth, n - 1);
        let k = state_count(rem, n - 1);
        let prev = outcomes_upto(st, cards, rem, depth, n - 1);
        if state_has(rem, n - 1) {
            lemma_roll_len(st, cards, rem, depth, n - 1, 3);
            let r = roll_outcomes(st, cards, rem, depth, n - 1, 3);
            assert(outcomes_upto(st, cards, rem, depth, n) == prev + r);
            assert(state_count(rem, n) == k + 1);
            assert(k * 3 * l + 3 * l == (k + 1) * 3 * l) by (nonlinear_arith);
        } else {
            assert(outcomes_upto(st, cards, rem, depth, n) == prev + Seq::<Seq<u8>>::empty());
            assert(prev + Seq::<Seq<u8>>::empty() =~= prev);
            assert(state_count(rem, n) == k);
        }
    }
}

/// Each face contributes the outcomes of one position with a color fewer.
proof fn lemma_roll_len(
    st: Seq<Seq<Color>>,
    cards: Seq<Option<EffectCard>>,
    rem: u8,
    depth: nat,
    i: int,
    d: int,
)
    requires
        state_count(rem, 5) == depth,
        depth > 0,
        0 <= i < 5,
        state_has(rem, i),
        0 <= d <= 3,
    ensures
        roll_outcomes(st, cards, rem, depth, i, d).len() == d * leaf_count((depth - 1) as nat),
    decreases depth, i, d,
{
    let l = leaf_count((depth - 1) as nat);
    if d == 0 {
        assert(0 * l == 0) by (nonlinear_arith);
    } else {
        lemma_roll_len(st, cards, rem, depth, i, d - 1);
        let t = without(rem, i);
        assert forall|j: int| #![trigger state_has(t, j)] state_has(t, j) == (j != i && state_has(rem, j)) by {
            if 0 <= j < 5 {
                let jj = j as u8;
                let ii = i as u8;
                assert(ii < 5 && jj < 5 ==> ((rem & !(0x80u8 >> ii)) & (0x80u8 >> jj) != 0) == (jj != ii
                    && rem & (0x80u8 >> jj) != 0)) by (bit_vector);
            }
        }
        lemma_count_remove(rem, t, i, 5);
        lemma_outcomes_len(step(st, cards, Color::of_index(i), d), cards, t, (depth - 1) as nat);
        assert(roll_outcomes(st, cards, rem, depth, i, d) == roll_outcomes(st, cards, rem, depth, i, d - 1) + outcomes(
            step(st, cards, Color::of_index(i), d),
            cards,
            t,
            (depth - 1) as nat,
        ));
        assert((d - 1) * l + l == d * l) by (nonlinear_arith);
    }
}

/// A round with `k` colors still to roll has exactly `k! * 3^k` outcomes,
/// one per order of the colors and faces of their dice.
pub proof fn law_leaf_count(st: Seq<Seq<Color>>, cards: Seq<Option<EffectCard>>, rem: u8)
    ensures
        round_outcomes(st, cards, rem).len() == factorial(state_count(rem, 5)) * pow3(
            state_count(rem, 5),
        ),
{
    lemma_outcomes_len(st, cards, rem, state_count(rem, 5));
}

/// Sum over the five colors of how many of the first `n` records put that
/// color at rank `k`.
pub open spec fn column_sum(v: Seq<Placement>, n: int, k: int) -> nat {
    rank_count(v, n, 0, k) + rank_count(v, n, 1, k) + rank_count(v, n, 2, k) + rank_count(
        v,
        n,
        3,
        k,
    ) + rank_count(v, n, 4, k)
}

/// For records that name only camels, every rank is taken by exactly one
/// color in each record, so each column of the count matrix sums to the
/// number of records.
pub proof fn law_columns_sum_to_total(v: Seq<Placement>, k: int)
    requires
        records_ok(v),
        0 <= k < 5,
    ensures
        column_sum(v, v.len() as int, k) == v.len(),
{
    lemma_column_sum(v, v.len() as int, k);
}

/// Each of the first `n` records puts exactly one color at rank `k`.
proof fn lemma_column_sum(v: Seq<Placement>, n: int, k: int)
    requires
        records_ok(v),
        0 <= k < 5,
        0 <= n <= v.len(),
    ensures
        column_sum(v, n, k) == n,
    decreases n,
{
    if n > 0 {
        lemma_column_sum(v, n - 1, k);
        assert(v[n - 1][k] < 5);
    }
}

/// Two positions with the same board and the same remaining colors are
/// equal and share a cache key, whatever rolls led to them and wherever
/// their iteration cursors stand.
pub proof fn law_cache_key_sound(a: Configuration, b: Configuration)
    requires
        a.map.same_as(&b.map),
        a.available_colours.members() == b.available_colours.members(),
    ensures
        a.eq_spec(&b),
        key_of(a.map.color_pos_map@, a.available_colours.members()) == key_of(
            b.map.color_pos_map@,
            b.available_colours.members(),
        ),
        round_outcomes(a.map.stacks(), a.map.cards(), a.available_colours.members())
            == round_outcomes(b.map.stacks(), b.map.cards(), b.available_colours.members()),
{
    a.map.lemma_same_as(&b.map);
}

/// Whether a finishing record names each of the five camels exactly once.
pub open spec fn is_permutation(p: Seq<u8>) -> bool {
    &&& p.len() == 5
    &&& forall|k: int| 0 <= k < 5 ==> #[trigger] p[k] < 5
    &&& forall|k: int, l: int| 0 <= k < l < 5 ==> #[trigger] p[k] != #[trigger] p[l]
}

/// The pieces of the fields from `f` on are exactly the elements of their
/// finishing order, and none occurs twice there.
proof fn lemma_ranking_from(st: Seq<Seq<Color>>, f: int)
    requires
        stacks_wf(st),
        0 <= f <= FIELD_COUNT,
    ensures
        forall|x: Color|
            ranking_from(st, f).contains(x) <==> exists|g: int, i: int|
                f <= g < FIELD_COUNT && 0 <= i < st[g].len() && #[trigger] st[g][i] == x,
        ranking_from(st, f).no_duplicates(),
    decreases FIELD_COUNT - f,
{
    if f < FIELD_COUNT {
        lemma_ranking_from(st, f + 1);
        let a = ranking_from(st, f + 1);
        let b = st[f].reverse();
        assert(ranking_from(st, f) == a + b);
        assert forall|x: Color| (a + b).contains(x) <==> exists|g: int, i: int|
            f <= g < FIELD_COUNT && 0 <= i < st[g].len() && #[trigger] st[g][i] == x by {
            if (a + b).contains(x) {
                let j = choose|j: int| 0 <= j < (a + b).len() && (a + b)[j] == x;
                if j < a.len() {
                    assert(a.contains(x));
                } else {
                    let i = st[f].len() - 1 - (j - a.len());
                    assert(st[f][i] == x);
                }
            }
            if exists|g: int, i: int|
                f <= g < FIELD_COUNT && 0 <= i < st[g].len() && #[trigger] st[g][i] == x {
                let (g, i) = choose|g: int, i: int|
                    f <= g < FIELD_COUNT && 0 <= i < st[g].len() && #[trigger] st[g][i] == x;
                if g == f {
                    let j = st[f].len() - 1 - i;
                    assert(b[j] == x);
                    assert((a + b)[a.len() + j] == x);
                } else {
                    assert(a.contains(x));
                    let j = choose|j: int| 0 <= j < a.len() && a[j] == x;
                    assert((a + b)[j] == x);
                }
            }
        }
        assert forall|j: int, k: int| 0 <= j < (a + b).len() && 0 <= k < (a + b).len() && j != k
            implies (a + b)[j] != (a + b)[k] by {
            if j >= a.len() && k >= a.len() {
                let ij = st[f].len() - 1 - (j - a.len());
                let ik = st[f].len() - 1 - (k - a.len());
                assert((a + b)[j] == st[f][ij]);
                assert((a + b)[k] == st[f][ik]);
            } else if j < a.len() && k >= a.len() {
                let ik = st[f].len() - 1 - (k - a.len());
                assert((a + b)[k] == st[f][ik]);
                assert(a.contains(a[j]));
                if (a + b)[j] == (a + b)[k] {
                    let (g, i) = choose|g: int, i: int|
                        f + 1 <= g < FIELD_COUNT && 0 <= i < st[g].len() && #[trigger] st[g][i] == a[j];
                    assert(st[g][i] == st[f][ik]);
                }
            } else if j >= a.len() && k < a.len() {
                let ij = st[f].len() - 1 - (j - a.len());
                assert((a + b)[j] == st[f][ij]);
                assert(a.contains(a[k]));
                if (a + b)[j] == (a + b)[k] {
                    let (g, i) = choose|g: int, i: int|
                        f + 1 <= g < FIELD_COUNT && 0 <= i < st[g].len() && #[trigger] st[g][i] == a[k];
                    assert(st[g][i] == st[f][ij]);
                }
            }
        }
    } else {
        assert(ranking_from(st, f) =~= Seq::<Color>::empty());
    }
}

/// On a well-formed board where all five camels stand, the finishing
/// order names each camel exactly once.
pub proof fn law_full_board_record(st: Seq<Seq<Color>>)
    requires
        stacks_wf(st),
        all_on_board(st),
    ensures
        is_permutation(placement_of(st)),
{
    lemma_ranking_from(st, 0);
    let r = ranking(st);
    assert(r == ranking_from(st, 0));
    assert(r.no_duplicates());
    let five = set![Color::Blue, Color::Green, Color::Orange, Color::White, Color::Yellow];
    assert(five.len() == 5);
    assert forall|x: Color| five.contains(x) implies r.to_set().contains(x) by {
        let k = x.idx();
        assert(x == Color::of_index(k));
        assert(on_board(st, Color::of_index(k)));
        let (g, i) = choose|g: int, i: int|
            0 <= g < st.len() && 0 <= i < st[g].len() && #[trigger] st[g][i] == x;
        assert(r.contains(x));
    }
    assert forall|x: Color| r.to_set().contains(x) implies five.contains(x) by {
        assert(r.contains(x));
        let (g, i) = choose|g: int, i: int|
            0 <= g < FIELD_COUNT && 0 <= i < st[g].len() && #[trigger] st[g][i] == x;
        assert(x.is_camel());
    }
    assert(r.to_set() =~= five);
    r.unique_seq_to_set();
    assert(r.len() == 5);
    let lb = leaderboard_of(st);
    assert(lb =~= r);
    let p = placement_of(st);
    assert forall|k: int| 0 <= k < 5 implies #[trigger] p[k] < 5 by {
        assert(r.contains(r[k]));
        assert(five.contains(r[k]));
    }
    assert forall|k: int, l: int| 0 <= k < l < 5 implies #[trigger] p[k] != #[trigger] p[l] by {
        r[k].lemma_idx_injective(r[l]);
    }
}

/// Whether every record of a list names each camel exactly once.
pub open spec fn all_permutations(v: Seq<Seq<u8>>) -> bool {
    forall|j: int| 0 <= j < v.len() ==> is_permutation(#[trigger] v[j])
}

/// Joining two lists of permutations gives a list of permutations.
proof fn lemma_concat_permutations(a: Seq<Seq<u8>>, b: Seq<Seq<u8>>)
    requires
        all_permutations(a),
        all_permutations(b),
    ensures
        all_permutations(a + b),
{
    assert forall|j: int| 0 <= j < (a + b).len() implies is_permutation(#[trigger] (a + b)[j]) by {
        if j < a.len() {
            assert((a + b)[j] == a[j]);
        } else {
            assert((a + b)[j] == b[j - a.len()]);
        }
    }
}

/// The outcomes of a full board that stays on the board are permutations.
proof fn lemma_outcomes_perm(st: Seq<Seq<Color>>, cards: Seq<Option<EffectCard>>, rem: u8, depth: nat)
    requires
        stacks_wf(st),
        all_on_board(st),
        fits(st, cards, rem, depth),
    ensures
        all_permutations(outcomes(st, cards, rem, depth)),
    decreases depth, 6int, 0int,
{
    if depth == 0 {
        law_full_board_record(st);
        let o = outcomes(st, cards, rem, depth);
        assert(o =~= seq![placement_of(st)]);
    } else {
        lemma_upto_perm(st, cards, rem, depth, 5);
    }
}

/// `lemma_outcomes_perm` for first rolls of color index below `n`.
proof fn lemma_upto_perm(
    st: Seq<Seq<Color>>,
    cards: Seq<Option<EffectCard>>,
    rem: u8,
    depth: nat,
    n: int,
)
    requires
        stacks_wf(st),
        all_on_board(st),
        depth > 0,
        0 <= n <= 5,
        fits_upto(st, cards, rem, depth, n),
    ensures
        all_permutations(outcomes_upto(st, cards, rem, depth, n)),
    decreases depth, n, 4int,
{
    if n > 0 {
        lemma_upto_perm(st, cards, rem, depth, n - 1);
        let a = outcomes_upto(st, cards, rem, depth, n - 1);
        if state_has(rem, n - 1) {
            lemma_roll_perm(st, cards, rem, depth, n - 1, 3);
            lemma_concat_permutations(a, roll_outcomes(st, cards, rem, depth, n - 1, 3));
        } else {
            lemma_concat_permutations(a, Seq::empty());
        }
    }
}

/// `lemma_outcomes_perm` for a first roll of color index `i` showing at most `d`.
proof fn lemma_roll_perm(
    st: Seq<Seq<Color>>,
    cards: Seq<Option<EffectCard>>,
    rem: u8,
    depth: nat,
    i: int,
    d: int,
)
    requires
        stacks_wf(st),
        all_on_board(st),
        depth > 0,
        0 <= i < 5,
        0 <= d <= 3,
        fits_roll(st, cards, rem, depth, i, d),
    ensures
        all_permutations(roll_outcomes(st, cards, rem, depth, i, d)),
    decreases depth, i, d,
{
    if d > 0 {
        lemma_roll_perm(st, cards, rem, depth, i, d - 1);
        let c = Color::of_index(i);
        law_move_keeps_each_camel_once(st, cards, c, d);
        lemma_outcomes_perm(step(st, cards, c, d), cards, without(rem, i), (depth - 1) as nat);
        lemma_concat_permutations(
            roll_outcomes(st, cards, rem, depth, i, d - 1),
            outcomes(step(st, cards, c, d), cards, without(rem, i), (depth - 1) as nat),
        );
    }
}

/// From a well-formed board where all five camels stand, every finishing
/// record of a round that stays on the board names each camel exactly once.
pub proof fn law_full_board_outcomes(st: Seq<Seq<Color>>, cards: Seq<Option<EffectCard>>, rem: u8)
    requires
        stacks_wf(st),
        all_on_board(st),
        round_fits(st, cards, rem),
    ensures
        all_permutations(round_outcomes(st, cards, rem)),
{
    lemma_outcomes_perm(st, cards, rem, state_count(rem, 5));
}

/// Whether no occupied field lies beyond field `b`.
pub open spec fn within(st: Seq<Seq<Color>>, b: int) -> bool {
    forall|g: int| b < g < st.len() && 0 <= g ==> #[trigger] st[g].len() == 0
}

/// Whether the track has no tiles.
pub open spec fn no_tiles(cards: Seq<Option<EffectCard>>) -> bool {
    cards.len() == FIELD_COUNT && forall|g: int| 0 <= g < FIELD_COUNT ==> #[trigger] cards[g] is None
}

/// Without tiles, a roll of `d` moves a camel exactly `d` fields, so the
/// board afterwards reaches at most `d` fields further.
proof fn lemma_step_within(
    st: Seq<Seq<Color>>,
    cards: Seq<Option<EffectCard>>,
    c: Color,
    d: int,
    b: int,
)
    requires
        stacks_wf(st),
        on_board(st, c),
        no_tiles(cards),
        within(st, b),
        0 <= d,
        b + d < FIELD_COUNT,
    ensures
        target(st, cards, c, d) <= b + d,
        within(step(st, cards, c, d), b + d),
{
    lemma_spot(st, c);
    let (f, h) = spot(st, c);
    assert(st[f].len() > 0);
    assert(f <= b);
    assert(cards[f + d] is None);
    assert(target(st, cards, c, d) == f + d);
    lemma_step_shape(st, cards, c, d);
    let nw = step(st, cards, c, d);
    assert forall|g: int| b + d < g < nw.len() && 0 <= g implies #[trigger] nw[g].len() == 0 by {
        if nw[g].len() > 0 {
            let o = origin(st, cards, c, d, g, 0);
            assert(o == (g, 0int));
            assert(st[g].len() == 0);
        }
    }
}

/// `fits` holds on a track without tiles when every camel can move three
/// fields per remaining die and stay on the board.
proof fn lemma_fits_within(
    st: Seq<Seq<Color>>,
    cards: Seq<Option<EffectCard>>,
    rem: u8,
    depth: nat,
    b: int,
)
    requires
        stacks_wf(st),
        all_on_board(st),
        no_tiles(cards),
        within(st, b),
        b + 3 * depth < FIELD_COUNT,
    ensures
        fits(st, cards, rem, depth),
    decreases depth, 6int, 0int,
{
    if depth > 0 {
        lemma_fits_upto_within(st, cards, rem, depth, b, 5);
    }
}

/// `lemma_fits_within` for first rolls of color index below `n`.
proof fn lemma_fits_upto_within(
    st: Seq<Seq<Color>>,
    cards: Seq<Option<EffectCard>>,
    rem: u8,
    depth: nat,
    b: int,
    n: int,
)
    requires
        stacks_wf(st),
        all_on_board(st),
        no_tiles(cards),
        within(st, b),
        b + 3 * depth < FIELD_COUNT,
        depth > 0,
        0 <= n <= 5,
    ensures
        fits_upto(st, cards, rem, depth, n),
    decreases depth, n, 4int,
{
    if n > 0 {
        lemma_fits_upto_within(st, cards, rem, depth, b, n - 1);
        lemma_fits_roll_within(st, cards, rem, depth, b, n - 1, 3);
    }
}

/// `lemma_fits_within` for a first roll of color index `i` showing at most `d`.
proof fn lemma_fits_roll_within(
    st: Seq<Seq<Color>>,
    cards: Seq<Option<EffectCard>>,
    rem: u8,
    depth: nat,
    b: int,
    i: int,
    d: int,
)
    requires
        stacks_wf(st),
        all_on_board(st),
        no_tiles(cards),
        within(st, b),
        b + 3 * depth < FIELD_COUNT,
        depth > 0,
        0 <= i < 5,
        0 <= d <= 3,
    ensures
        fits_roll(st, cards, rem, depth, i, d),
    decreases depth, i, d,
{
    if d > 0 {
        lemma_fits_roll_within(st, cards, rem, depth, b, i, d - 1);
        let c = Color::of_index(i);
        assert(on_board(st, c));
        lemma_step_within(st, cards, c, d, b);
        law_move_keeps_each_camel_once(st, cards, c, d);
        lemma_fits_within(step(st, cards, c, d), cards, without(rem, i), (depth - 1) as nat, b + d);
    }
}

/// On a track without tiles, a round from a board whose camels all stand
/// at most on field `b`, with `k` dice left and `b + 3k` still on the
/// board, stays on the board and has exactly `k! * 3^k` outcomes.
pub proof fn law_leaf_count_on_open_track(
    st: Seq<Seq<Color>>,
    cards: Seq<Option<EffectCard>>,
    rem: u8,
    b: int,
)
    requires
        stacks_wf(st),
        all_on_board(st),
        no_tiles(cards),
        within(st, b),
        b + 3 * state_count(rem, 5) < FIELD_COUNT,
    ensures
        round_fits(st, cards, rem),
        round_outcomes(st, cards, rem).len() == factorial(state_count(rem, 5)) * pow3(
            state_count(rem, 5),
        ),
{
    lemma_fits_within(st, cards, rem, state_count(rem, 5), b);
    law_leaf_count(st, cards, rem);
}

} // verus!
