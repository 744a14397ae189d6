use vstd::prelude::*;
use vstd::std_specs::cmp::PartialEqSpecImpl;
use crate::camel_map::{
    CamelMap, EffectCard, FIELD_COUNT, on_board, placements_ok, stacks_of, stacks_wf,
};
use crate::color::Color;
use crate::color_state::{ColorState, masks_union};

verus! {

/// One die roll: the camel whose die came out and the value it shows.
#[derive(Debug, Clone, Copy, Hash, PartialEq, Eq, Structural)]
pub struct Dice {
    pub color: Color,
    pub value: u8,
}

/// The pieces in finishing order: fields from the last down to the first,
/// and on each field from the top of the stack down.
pub open spec fn ranking_from(st: Seq<Seq<Color>>, f: int) -> Seq<Color>
    decreases FIELD_COUNT - f,
{
    if f >= FIELD_COUNT || f < 0 {
        Seq::empty()
    } else {
        ranking_from(st, f + 1) + st[f].reverse()
    }
}

/// All pieces of the board in finishing order.
pub open spec fn ranking(st: Seq<Seq<Color>>) -> Seq<Color> {
    ranking_from(st, 0)
}

/// The first five of the finishing order, `Absent` where fewer stand on
/// the board.
pub open spec fn leaderboard_of(st: Seq<Seq<Color>>) -> Seq<Color> {
    Seq::new(
        5,
        |k: int|
            if k < ranking(st).len() {
                ranking(st)[k]
            } else {
                Color::Absent
            },
    )
}

/// The board shifted down by `s` fields: field `g` gets what stood on
/// field `g + s`.
pub open spec fn shifted(st: Seq<Seq<Color>>, s: int) -> Seq<Seq<Color>> {
    Seq::new(
        FIELD_COUNT as nat,
        |g: int|
            if g + s < FIELD_COUNT {
                st[g + s]
            } else {
                Seq::empty()
            },
    )
}

/// The first occupied field at or after `f`, or 16 if there is none.
pub open spec fn lowest_from(st: Seq<Seq<Color>>, f: int) -> int
    decreases FIELD_COUNT - f,
{
    if f < 0 || f >= FIELD_COUNT {
        FIELD_COUNT as int
    } else if st[f].len() > 0 {
        f
    } else {
        lowest_from(st, f + 1)
    }
}

/// How far `normalize` shifts a board: the lowest occupied field, or 0 for
/// an empty board.
pub open spec fn shift_of(st: Seq<Seq<Color>>) -> int {
    if lowest_from(st, 0) >= FIELD_COUNT {
        0
    } else {
        lowest_from(st, 0)
    }
}

/// The tiles shifted down by `s` fields: field `g` gets the tile of field
/// `g + s`, and the top `s` fields get none.
pub open spec fn shifted_cards(cards: Seq<Option<EffectCard>>, s: int) -> Seq<Option<EffectCard>> {
    Seq::new(
        FIELD_COUNT as nat,
        |g: int|
            if g + s < FIELD_COUNT {
                cards[g + s]
            } else {
                None
            },
    )
}

/// The placements of the starting board used when none is given: Blue and
/// Green (on top) on field 0, White and Yellow (on top) on field 1, Orange
/// on field 2.
pub open spec fn default_placements() -> Seq<(u8, Color)> {
    seq![
        (0u8, Color::Blue),
        (0u8, Color::Green),
        (1u8, Color::White),
        (1u8, Color::Yellow),
        (2u8, Color::Orange),
    ]
}

/// A position of the game within a round: the board, the camels whose die
/// has not been rolled yet, and, for diagnostics only, the rolls that led
/// here. Equality ignores the rolls and the iteration cursor of the colors.
#[derive(Debug, Clone, Eq)]
pub struct Configuration {
    pub map: CamelMap,
    pub dice_queue: Vec<Dice>,
    pub available_colours: ColorState,
}

impl Configuration {
    /// Well-formedness: the board is well formed.
    pub open spec fn wf(&self) -> bool {
        self.map.wf()
    }

    /// A builder for a configuration.
    pub fn builder() -> (r: ConfigurationBuilder)
        ensures
            r.map is None,
            r.dice_queue is None,
            r.available_colours is None,
    {
        ConfigurationBuilder::new()
    }

    /// The first five pieces in finishing order: fields from the last down
    /// to the first, and on each field from the top of the stack down.
    pub fn leaderboard(&self) -> (r: [Color; 5])
        ensures
            r@ == leaderboard_of(self.map.stacks()),
    {
        let ghost st = self.map.stacks();
        let mut leaderboard: [Color; 5] = [Color::Absent; 5];
        let mut i: usize = 0;
        let mut f: usize = FIELD_COUNT;
        while f > 0
            invariant
                f <= FIELD_COUNT,
                st == self.map.stacks(),
                i as int == if ranking_from(st, f as int).len() < 5 {
                    ranking_from(st, f as int).len() as int
                } else {
                    5
                },
                forall|q: int|
                    0 <= q < 5 ==> #[trigger] leaderboard[q] == if q < ranking_from(st, f as int).len() {
                        ranking_from(st, f as int)[q]
                    } else {
                        Color::Absent
                    },
            decreases f,
        {
            f = f - 1;
            let ghost acc = ranking_from(st, f as int + 1);
            assert(ranking_from(st, f as int) == acc + st[f as int].reverse());
            if let Some(v) = &self.map.pos_color_map[f] {
                assert(v@ == st[f as int]);
                let mut j: usize = 0;
                while j < v.len()
                    invariant
                        j <= v@.len(),
                        i as int == if (acc + v@.reverse().take(j as int)).len() < 5 {
                            (acc + v@.reverse().take(j as int)).len() as int
                        } else {
                            5
                        },
                        forall|q: int|
                            0 <= q < 5 ==> #[trigger] leaderboard[q] == if q < (acc + v@.reverse().take(
                                j as int,
                            )).len() {
                                (acc + v@.reverse().take(j as int))[q]
                            } else {
                                Color::Absent
                            },
                    decreases v@.len() - j,
                {
                    let color = v[v.len() - 1 - j];
                    assert(color == v@.reverse()[j as int]);
                    let ghost pre = acc + v@.reverse().take(j as int);
                    assert(acc + v@.reverse().take(j as int + 1) =~= pre.push(color));
                    if i < 5 {
                        leaderboard[i] = color;
                        i = i + 1;
                    }
                    j = j + 1;
                }
                assert(v@.reverse().take(v@.len() as int) =~= v@.reverse());
            } else {
                assert(st[f as int] == Seq::<Color>::empty());
                assert(acc + st[f as int].reverse() =~= acc);
            }
        }
        assert(leaderboard@ =~= leaderboard_of(st));
        leaderboard
    }

    /// A copy of the configuration.
    pub fn duplicate(&self) -> (r: Configuration)
        ensures
            r.map.same_as(&self.map),
            r.dice_queue@ == self.dice_queue@,
            r.available_colours == self.available_colours,
    {
        let map = self.map.duplicate();
        let mut dice_queue: Vec<Dice> = Vec::new();
        let mut k: usize = 0;
        while k < self.dice_queue.len()
            invariant
                k <= self.dice_queue@.len(),
                dice_queue@ == self.dice_queue@.subrange(0, k as int),
            decreases self.dice_queue@.len() - k,
        {
            dice_queue.push(self.dice_queue[k]);
            k = k + 1;
            assert(dice_queue@ =~= self.dice_queue@.subrange(0, k as int));
        }
        assert(dice_queue@ =~= self.dice_queue@);
        Configuration { map, dice_queue, available_colours: self.available_colours }
    }

    /// Shifts the board down so that the lowest occupied field becomes
    /// field 0, keeping the distances between camels and tiles.
    ///
    /// Stacks and tiles move by the same amount; tiles that would fall below
    /// field 0 are dropped, and the top fields are left without tiles.
    /// Nothing changes when field 0 is occupied or the board is empty.
    pub fn normalize(&mut self)
        requires
            old(self).wf(),
        ensures
            final(self).wf(),
            final(self).map.stacks() == shifted(old(self).map.stacks(), shift_of(old(self).map.stacks())),
            final(self).map.cards() == shifted_cards(old(self).map.cards(), shift_of(old(self).map.stacks())),
            forall|c: Color|
                c.is_camel() ==> #[trigger] final(self).map.field_of(c) == if on_board(
                    old(self).map.stacks(),
                    c,
                ) {
                    old(self).map.field_of(c) - shift_of(old(self).map.stacks())
                } else {
                    old(self).map.field_of(c)
                },
            final(self).available_colours == old(self).available_colours,
            final(self).dice_queue == old(self).dice_queue,
    {
        let ghost st = self.map.stacks();
        let mut low: usize = 0;
        while low < FIELD_COUNT && self.map.pos_color_map[low].is_none()
            invariant
                low <= FIELD_COUNT,
                st == self.map.stacks(),
                self.map.wf(),
                lowest_from(st, 0) == lowest_from(st, low as int),
                forall|g: int| 0 <= g < low ==> #[trigger] st[g].len() == 0,
            decreases FIELD_COUNT - low,
        {
            assert(st[low as int].len() == 0);
            low = low + 1;
        }
        if low < FIELD_COUNT {
            assert(st[low as int].len() > 0);
        }
        assert(low as int == lowest_from(st, low as int));
        if low == 0 || low == FIELD_COUNT {
            proof {
                assert(shift_of(st) == 0);
                assert forall|g: int| 0 <= g < FIELD_COUNT implies #[trigger] self.map.stacks()[g]
                    == shifted(st, 0)[g] by {}
                assert(self.map.stacks() =~= shifted(st, 0));
                assert(self.map.cards() =~= shifted_cards(self.map.cards(), 0));
            }
            return;
        }
        let s = low;
        assert(s as int == shift_of(st));
        let ghost pm0 = self.map.pos_color_map;
        let mut i: usize = 0;
        while i < FIELD_COUNT
            invariant
                s as int == shift_of(st),
                0 < s < FIELD_COUNT,
                i <= FIELD_COUNT,
                old(self).wf(),
                st == old(self).map.stacks(),
                pm0 == old(self).map.pos_color_map,
                stacks_wf(st),
                forall|g: int| 0 <= g < s ==> #[trigger] st[g].len() == 0,
                forall|g: int|
                    0 <= g < FIELD_COUNT ==> #[trigger] self.map.pos_color_map[g] == if g < i {
                        if g + s < i {
                            pm0[g + s]
                        } else {
                            None
                        }
                    } else {
                        pm0[g]
                    },
                forall|c: Color|
                    c.is_camel() ==> #[trigger] self.map.field_of(c) == if on_board(st, c)
                        && old(self).map.field_of(c) < i {
                        old(self).map.field_of(c) - s
                    } else {
                        old(self).map.field_of(c)
                    },
                self.map.effect_cards == old(self).map.effect_cards,
                self.available_colours == old(self).available_colours,
                self.dice_queue == old(self).dice_queue,
            decreases FIELD_COUNT - i,
        {
            let ghost cpm = self.map.color_pos_map;
            assert forall|c: Color| c.is_camel() implies cpm[c.idx()] as int == if on_board(st, c)
                && old(self).map.field_of(c) < i {
                old(self).map.field_of(c) - s
            } else {
                old(self).map.field_of(c)
            } by {
                assert(self.map.field_of(c) == cpm[c.idx()]);
            }
            let taken = self.map.pos_color_map[i].take();
            let ghost pm_i = self.map.pos_color_map;
            assert(self.map.color_pos_map == cpm);
            match taken {
                Some(camels) => {
                    proof {
                        assert(taken == pm0[i as int]);
                        assert(camels@ == st[i as int]);
                        assert(camels@.len() > 0);
                        assert(i >= s);
                    }
                    let new_idx = i - s;
                    let ghost before = self.map.color_pos_map@;
                    assert forall|c: Color| c.is_camel() implies before[c.idx()] as int == if on_board(st, c)
                        && old(self).map.field_of(c) < i {
                        old(self).map.field_of(c) - s
                    } else {
                        old(self).map.field_of(c)
                    } by {
                        assert(self.map.field_of(c) == before[c.idx()]);
                    }
                    let mut k: usize = 0;
                    while k < camels.len()
                        invariant
                            k <= camels@.len(),
                            camels@ == st[i as int],
                            stacks_wf(st),
                            0 <= i < FIELD_COUNT,
                            new_idx == i - s,
                            before.len() == 5,
                            self.map.pos_color_map == pm_i,
                            forall|j: int|
                                0 <= j < 5 ==> #[trigger] self.map.color_pos_map@[j] == if exists|l: int|
                                    0 <= l < k && (#[trigger] camels@[l]).idx() == j {
                                    new_idx as u8
                                } else {
                                    before[j]
                                },
                            self.map.effect_cards == old(self).map.effect_cards,
                            self.available_colours == old(self).available_colours,
                            self.dice_queue == old(self).dice_queue,
                        decreases camels@.len() - k,
                    {
                        let cam = camels[k];
                        assert(cam == st[i as int][k as int]);
                        self.map.color_pos_map[cam.index()] = new_idx as u8;
                        k = k + 1;
                        proof {
                            assert forall|j: int| 0 <= j < 5 implies #[trigger] self.map.color_pos_map@[j]
                                == if exists|l: int| 0 <= l < k && (#[trigger] camels@[l]).idx() == j {
                                new_idx as u8
                            } else {
                                before[j]
                            } by {
                                if cam.idx() == j {
                                    assert(camels@[k - 1].idx() == j);
                                } else if exists|l: int| 0 <= l < k && (#[trigger] camels@[l]).idx() == j {
                                    let l = choose|l: int| 0 <= l < k && (#[trigger] camels@[l]).idx() == j;
                                    assert(l < k - 1);
                                }
                            }
                        }
                    }
                    self.map.pos_color_map[new_idx] = Some(camels);
                    proof {
                        assert forall|c: Color| c.is_camel() implies #[trigger] self.map.field_of(c)
                            == if on_board(st, c) && old(self).map.field_of(c) < i + 1 {
                            old(self).map.field_of(c) - s
                        } else {
                            old(self).map.field_of(c)
                        } by {
                            let j = c.idx();
                            assert(0 <= j < 5);
                            assert(self.map.field_of(c) == self.map.color_pos_map@[j] as int);
                            if exists|l: int| 0 <= l < camels@.len() && (#[trigger] camels@[l]).idx() == j {
                                let l = choose|l: int| 0 <= l < camels@.len() && (#[trigger] camels@[l]).idx() == j;
                                camels@[l].lemma_idx_injective(c);
                                assert(st[i as int][l] == c);
                                assert(old(self).map.field_of(st[i as int][l]) == i);
                                assert(on_board(st, c));
                            } else {
                                assert(self.map.color_pos_map@[j] == before[j]);
                                assert(before[c.idx()] == before[j]);
                                if on_board(st, c) && old(self).map.field_of(c) == i {
                                    let (g, k2) = choose|g: int, k2: int| 0 <= g < st.len() && 0 <= k2 < st[g].len() && #[trigger] st[g][k2] == c;
                                    assert(old(self).map.field_of(st[g][k2]) == g);
                                    assert(camels@[k2].idx() == j);
                                }
                            }
                        }
                    }
                },
                None => {
                    proof {
                        assert(taken == pm0[i as int]);
                        assert(st[i as int] == Seq::<Color>::empty());
                        assert forall|c: Color| c.is_camel() implies #[trigger] self.map.field_of(c) == if on_board(st, c)
                            && old(self).map.field_of(c) < i + 1 {
                            old(self).map.field_of(c) - s
                        } else {
                            old(self).map.field_of(c)
                        } by {
                            if on_board(st, c) {
                                let (g, k2) = choose|g: int, k2: int| 0 <= g < st.len() && 0 <= k2 < st[g].len() && #[trigger] st[g][k2] == c;
                                assert(old(self).map.field_of(st[g][k2]) == g);
                            }
                        }
                        assert forall|c: Color| c.is_camel() && on_board(st, c) implies old(self).map.field_of(c) != i by {
                            let (g, k2) = choose|g: int, k2: int| 0 <= g < st.len() && 0 <= k2 < st[g].len() && #[trigger] st[g][k2] == c;
                            assert(old(self).map.field_of(st[g][k2]) == g);
                        }
                    }
                },
            }
            i = i + 1;
        }
        proof {
            let nw = self.map.stacks();
            let sh = shifted(st, s as int);
            assert forall|g: int| 0 <= g < FIELD_COUNT implies #[trigger] nw[g] == sh[g] by {
                assert(self.map.pos_color_map[g] == if g + s < FIELD_COUNT { pm0[g + s] } else { None::<Vec<Color>> });
                if g + s >= FIELD_COUNT {
                } else {
                }
            }
            assert(nw =~= sh);
            assert forall|f1: int, i1: int, f2: int, i2: int|
                0 <= f1 < nw.len() && 0 <= i1 < nw[f1].len() && 0 <= f2 < nw.len() && 0 <= i2
                    < nw[f2].len() && #[trigger] nw[f1][i1] == #[trigger] nw[f2][i2] implies f1
                == f2 && i1 == i2 by {
                assert(st[f1 + s][i1] == st[f2 + s][i2]);
            }
            assert forall|f: int| 0 <= f < FIELD_COUNT implies match #[trigger] self.map.pos_color_map[f] {
                Some(v) => v@.len() > 0,
                None => true,
            } by {
                if f + s < FIELD_COUNT {
                    assert(match pm0[f + s] { Some(v) => v@.len() > 0, None => true });
                }
            }
            assert forall|g: int, k: int|
                0 <= g < FIELD_COUNT && 0 <= k < nw[g].len() implies self.map.field_of(
                #[trigger] nw[g][k],
            ) == g by {
                let x = nw[g][k];
                assert(x == st[g + s][k]);
                assert(old(self).map.field_of(x) == g + s);
                assert(on_board(st, x));
            }
        }
        let ghost cards0 = self.map.cards();
        let ghost pm1 = self.map.pos_color_map;
        let ghost cp1 = self.map.color_pos_map;
        proof {
            assert forall|c: Color| c.is_camel() implies #[trigger] cp1[c.idx()] as int == if on_board(st, c) {
                old(self).map.field_of(c) - s
            } else {
                old(self).map.field_of(c)
            } by {
                assert(self.map.field_of(c) == cp1[c.idx()]);
                if on_board(st, c) {
                    let (g, k) = choose|g: int, k: int| 0 <= g < st.len() && 0 <= k < st[g].len() && #[trigger] st[g][k] == c;
                    assert(old(self).map.field_of(st[g][k]) == g);
                }
            }
        }
        let mut g: usize = 0;
        while g < FIELD_COUNT
            invariant
                g <= FIELD_COUNT,
                0 < s < FIELD_COUNT,
                cards0 == old(self).map.cards(),
                self.map.pos_color_map == pm1,
                self.map.color_pos_map == cp1,
                s as int == shift_of(st),
                st == old(self).map.stacks(),
                self.available_colours == old(self).available_colours,
                self.dice_queue == old(self).dice_queue,
                forall|h: int|
                    0 <= h < FIELD_COUNT ==> #[trigger] self.map.cards()[h] == if h < g {
                        shifted_cards(cards0, s as int)[h]
                    } else {
                        cards0[h]
                    },
            decreases FIELD_COUNT - g,
        {
            let moved = if g + s < FIELD_COUNT {
                assert(self.map.cards()[(g + s) as int] == cards0[(g + s) as int]);
                self.map.effect_cards[g + s]
            } else {
                None
            };
            assert(moved == shifted_cards(cards0, s as int)[g as int]);
            let ghost before = self.map.cards();
            self.map.effect_cards[g] = moved;
            assert(self.map.cards() == before.update(g as int, moved));
            g = g + 1;
        }
        assert(self.map.cards() =~= shifted_cards(cards0, s as int));
        assert forall|c: Color| c.is_camel() implies #[trigger] self.map.field_of(c) == cp1[c.idx()] as int by {}
    }
}

impl PartialEq for Configuration {
    fn eq(&self, other: &Configuration) -> (r: bool) {
        self.map == other.map && self.available_colours == other.available_colours
    }
}

impl PartialEqSpecImpl for Configuration {
    open spec fn obeys_eq_spec() -> bool {
        true
    }

    open spec fn eq_spec(&self, other: &Configuration) -> bool {
        self.map.same_as(&other.map) && self.available_colours.members()
            == other.available_colours.members()
    }
}

/// Collects the parts of a configuration; what is left unset gets a default.
pub struct ConfigurationBuilder {
    pub map: Option<CamelMap>,
    pub dice_queue: Option<Vec<Dice>>,
    pub available_colours: Option<ColorState>,
}

impl ConfigurationBuilder {
    /// A builder with nothing set.
    pub fn new() -> (r: ConfigurationBuilder)
        ensures
            r.map is None,
            r.dice_queue is None,
            r.available_colours is None,
    {
        ConfigurationBuilder { map: None, dice_queue: None, available_colours: None }
    }

    /// Sets the board from (field, camel) placements, stacked in list order.
    pub fn with_map(self, positions: Vec<(u8, Color)>) -> (r: ConfigurationBuilder)
        requires
            placements_ok(positions@),
        ensures
            r.map is Some,
            r.map->Some_0.wf(),
            r.map->Some_0.stacks() == stacks_of(positions@),
            forall|k: int|
                0 <= k < positions@.len() ==> r.map->Some_0.field_of((#[trigger] positions@[k]).1)
                    == positions@[k].0,
            r.dice_queue == self.dice_queue,
            r.available_colours == self.available_colours,
    {
        ConfigurationBuilder {
            map: Some(CamelMap::new(positions)),
            dice_queue: self.dice_queue,
            available_colours: self.available_colours,
        }
    }

    /// Sets the board.
    pub fn with_camel_map(self, map: CamelMap) -> (r: ConfigurationBuilder)
        ensures
            r.map == Some(map),
            r.dice_queue == self.dice_queue,
            r.available_colours == self.available_colours,
    {
        ConfigurationBuilder {
            map: Some(map),
            dice_queue: self.dice_queue,
            available_colours: self.available_colours,
        }
    }

    /// Sets the camels whose die is still to be rolled.
    pub fn with_available_colors(self, colors: Vec<Color>) -> (r: ConfigurationBuilder)
        ensures
            r.available_colours is Some,
            r.available_colours->Some_0.state == masks_union(colors@),
            forall|i: int|
                #![trigger r.available_colours->Some_0.has(i)]
                0 <= i < 5 ==> (r.available_colours->Some_0.has(i) <==> exists|j: int|
                    0 <= j < colors@.len() && (#[trigger] colors@[j]).idx() == i),
            r.map == self.map,
            r.dice_queue == self.dice_queue,
    {
        ConfigurationBuilder {
            map: self.map,
            dice_queue: self.dice_queue,
            available_colours: Some(ColorState::new(colors)),
        }
    }

    /// Sets the camels whose die is still to be rolled.
    pub fn with_color_state(self, color_state: ColorState) -> (r: ConfigurationBuilder)
        ensures
            r.available_colours == Some(color_state),
            r.map == self.map,
            r.dice_queue == self.dice_queue,
    {
        ConfigurationBuilder {
            map: self.map,
            dice_queue: self.dice_queue,
            available_colours: Some(color_state),
        }
    }

    /// Sets the record of rolls from (camel, value) pairs.
    pub fn with_dice_queue(self, dice_data: Vec<(Color, u8)>) -> (r: ConfigurationBuilder)
        ensures
            r.dice_queue is Some,
            r.dice_queue->Some_0@.len() == dice_data@.len(),
            forall|k: int|
                0 <= k < dice_data@.len() ==> (#[trigger] r.dice_queue->Some_0@[k]) == (Dice {
                    color: dice_data@[k].0,
                    value: dice_data@[k].1,
                }),
            r.map == self.map,
            r.available_colours == self.available_colours,
    {
        let mut dice_vec: Vec<Dice> = Vec::new();
        let mut k: usize = 0;
        while k < dice_data.len()
            invariant
                k <= dice_data@.len(),
                dice_vec@.len() == k,
                forall|l: int|
                    0 <= l < k ==> (#[trigger] dice_vec@[l]) == (Dice {
                        color: dice_data@[l].0,
                        value: dice_data@[l].1,
                    }),
            decreases dice_data@.len() - k,
        {
            let (color, value) = dice_data[k];
            dice_vec.push(Dice { color, value });
            k = k + 1;
        }
        ConfigurationBuilder {
            map: self.map,
            dice_queue: Some(dice_vec),
            available_colours: self.available_colours,
        }
    }

    /// Appends one roll to the record of rolls.
    pub fn add_dice(self, color: Color, value: u8) -> (r: ConfigurationBuilder)
        ensures
            r.dice_queue is Some,
            r.dice_queue->Some_0@ == match self.dice_queue {
                Some(q) => q@,
                None => Seq::empty(),
            }.push(Dice { color, value }),
            r.map == self.map,
            r.available_colours == self.available_colours,
    {
        let dice = Dice { color, value };
        let queue = match self.dice_queue {
            Some(mut queue) => {
                queue.push(dice);
                queue
            },
            None => vec![dice],
        };
        ConfigurationBuilder {
            map: self.map,
            dice_queue: Some(queue),
            available_colours: self.available_colours,
        }
    }

    /// Builds the configuration. An unset board is the starting board of
    /// `default_placements`; unset colors are all five; an unset record of
    /// rolls is empty.
    pub fn build(self) -> (r: Configuration)
        ensures
            match self.map {
                Some(m) => r.map == m,
                None => r.map.wf() && r.map.stacks() == stacks_of(default_placements()) && forall|
                    k: int,
                | 0 <= k < 5 ==> r.map.field_of((#[trigger] default_placements()[k]).1)
                    == default_placements()[k].0,
            },
            r.dice_queue@ == match self.dice_queue {
                Some(q) => q@,
                None => Seq::empty(),
            },
            r.available_colours == match self.available_colours {
                Some(c) => c,
                None => ColorState { state: 0b1111_1000 },
            },
    {
        let map = match self.map {
            Some(m) => m,
            None => {
                let positions = vec![
                    (0, Color::Blue),
                    (0, Color::Green),
                    (1, Color::White),
                    (1, Color::Yellow),
                    (2, Color::Orange),
                ];
                assert(positions@ =~= default_placements());
                CamelMap::new(positions)
            },
        };
        let dice_queue = match self.dice_queue {
            Some(q) => q,
            None => Vec::new(),
        };
        let available_colours = match self.available_colours {
            Some(c) => c,
            None => ColorState::default(),
        };
        Configuration { map, dice_queue, available_colours }
    }
}

impl Default for ConfigurationBuilder {
    fn default() -> (r: ConfigurationBuilder)
        ensures
            r.map is None,
            r.dice_queue is None,
            r.available_colours is None,
    {
        ConfigurationBuilder::new()
    }
}

} // verus!
