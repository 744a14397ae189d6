use vstd::prelude::*;
use vstd::std_specs::cmp::PartialEqSpecImpl;
use crate::color::Color;

verus! {

/// Number of fields on the track.
pub const FIELD_COUNT: usize = 16;

/// A tile lying on a field of the track.
///
/// A camel that lands on an oasis moves one field further and is put on top
/// of what stands there; one that lands on a desert moves one field back (not
/// below field 0) and is slid underneath what stands there.
#[derive(Debug, Clone, Copy, PartialEq, Eq, Hash, Structural)]
pub enum EffectCard {
    Oasis,
    Desert,
}

/// Whether every field index of a stack model lies on the board and every
/// piece is a camel that occurs only once on the whole board.
pub open spec fn stacks_wf(st: Seq<Seq<Color>>) -> bool {
    &&& st.len() == FIELD_COUNT
    &&& forall|f: int, i: int|
        0 <= f < st.len() && 0 <= i < st[f].len() ==> (#[trigger] st[f][i]).is_camel()
    &&& forall|f1: int, i1: int, f2: int, i2: int|
        0 <= f1 < st.len() && 0 <= i1 < st[f1].len() && 0 <= f2 < st.len() && 0 <= i2
            < st[f2].len() && #[trigger] st[f1][i1] == #[trigger] st[f2][i2] ==> f1 == f2 && i1
            == i2
}

/// Whether camel `c` stands somewhere on the board.
pub open spec fn on_board(st: Seq<Seq<Color>>, c: Color) -> bool {
    exists|f: int, i: int| 0 <= f < st.len() && 0 <= i < st[f].len() && #[trigger] st[f][i] == c
}

/// Whether each of the five camels stands on the board.
pub open spec fn all_on_board(st: Seq<Seq<Color>>) -> bool {
    forall|k: int| 0 <= k < 5 ==> on_board(st, #[trigger] Color::of_index(k))
}

/// Field and height (0 = bottom) of camel `c`.
pub open spec fn spot(st: Seq<Seq<Color>>, c: Color) -> (int, int) {
    choose|p: (int, int)|
        0 <= p.0 < st.len() && 0 <= p.1 < st[p.0].len() && #[trigger] st[p.0][p.1] == c
}

/// Field reached by a camel that leaves field `from` with a die showing
/// `by`, after the tile on the field where it lands (if any) has acted.
pub open spec fn landing(cards: Seq<Option<EffectCard>>, from: int, by: int) -> int {
    let n = if from + by < 0 {
        0
    } else {
        from + by
    };
    if 0 <= n < cards.len() {
        match cards[n] {
            Some(EffectCard::Oasis) => n + 1,
            Some(EffectCard::Desert) => if n > 0 {
                n - 1
            } else {
                0
            },
            None => n,
        }
    } else {
        n
    }
}

/// Whether the moving camels are slid underneath the destination stack,
/// which happens when they land on a desert.
pub open spec fn lands_beneath(cards: Seq<Option<EffectCard>>, from: int, by: int) -> bool {
    let n = if from + by < 0 {
        0
    } else {
        from + by
    };
    0 <= n < cards.len() && cards[n] == Some(EffectCard::Desert)
}

/// Field that camel `c` reaches when its die shows `by`.
pub open spec fn target(st: Seq<Seq<Color>>, cards: Seq<Option<EffectCard>>, c: Color, by: int) -> int {
    landing(cards, spot(st, c).0, by)
}

/// The board after camel `c` moves by `by`: the camel and everything on top
/// of it leave their field, keeping their order, and go on top of the
/// destination stack, or underneath it after a desert.
pub open spec fn step(
    st: Seq<Seq<Color>>,
    cards: Seq<Option<EffectCard>>,
    c: Color,
    by: int,
) -> Seq<Seq<Color>> {
    let (f, h) = spot(st, c);
    let to = landing(cards, f, by);
    let moving = st[f].subrange(h, st[f].len() as int);
    let mid = st.update(f, st[f].subrange(0, h));
    mid.update(
        to,
        if lands_beneath(cards, f, by) {
            moving + mid[to]
        } else {
            mid[to] + moving
        },
    )
}

/// Whether a list of placements puts only camels, each at most once, on
/// fields of the board.
pub open spec fn placements_ok(p: Seq<(u8, Color)>) -> bool {
    &&& forall|k: int| 0 <= k < p.len() ==> (#[trigger] p[k]).0 < FIELD_COUNT && p[k].1.is_camel()
    &&& forall|k: int, l: int| 0 <= k < l < p.len() ==> (#[trigger] p[k]).1 != (#[trigger] p[l]).1
}

/// The empty board.
pub open spec fn empty_stacks() -> Seq<Seq<Color>> {
    Seq::new(FIELD_COUNT as nat, |f: int| Seq::<Color>::empty())
}

/// The board built by placing each camel, in list order, on top of its field.
pub open spec fn stacks_of(p: Seq<(u8, Color)>) -> Seq<Seq<Color>>
    decreases p.len(),
{
    if p.len() == 0 {
        empty_stacks()
    } else {
        let prev = stacks_of(p.drop_last());
        let (f, c) = p.last();
        prev.update(f as int, prev[f as int].push(c))
    }
}

/// The tiles of the board after each (field, tile) pair is laid in list
/// order; a later tile on the same field replaces an earlier one.
pub open spec fn cards_of(p: Seq<(u8, EffectCard)>) -> Seq<Option<EffectCard>>
    decreases p.len(),
{
    if p.len() == 0 {
        Seq::new(FIELD_COUNT as nat, |f: int| None)
    } else {
        cards_of(p.drop_last()).update(p.last().0 as int, Some(p.last().1))
    }
}

/// The race board: a stack of camels on each of the sixteen fields (bottom
/// first), the field of each camel, and the tile on each field.
#[derive(Debug, Clone, Eq, Hash)]
pub struct CamelMap {
    pub pos_color_map: [Option<Vec<Color>>; 16],
    /// Field of each camel, by color index.
    pub color_pos_map: [u8; 5],
    pub effect_cards: [Option<EffectCard>; 16],
}

impl CamelMap {
    /// The stacks as sequences; an empty field is an empty sequence.
    pub open spec fn stacks(&self) -> Seq<Seq<Color>> {
        Seq::new(
            FIELD_COUNT as nat,
            |f: int|
                match self.pos_color_map[f] {
                    Some(v) => v@,
                    None => Seq::empty(),
                },
        )
    }

    /// The tiles, field by field.
    pub open spec fn cards(&self) -> Seq<Option<EffectCard>> {
        self.effect_cards@
    }

    /// The recorded field of camel `c`.
    pub open spec fn field_of(&self, c: Color) -> int {
        self.color_pos_map[c.idx()] as int
    }

    /// Well-formedness: the stacks are well formed, no field holds an empty
    /// stack, and the recorded field of each camel on the board is the field
    /// of its stack.
    pub open spec fn wf(&self) -> bool {
        &&& stacks_wf(self.stacks())
        &&& forall|f: int|
            0 <= f < FIELD_COUNT ==> match #[trigger] self.pos_color_map[f] {
                Some(v) => v@.len() > 0,
                None => true,
            }
        &&& forall|f: int, i: int|
            0 <= f < FIELD_COUNT && 0 <= i < self.stacks()[f].len() ==> self.field_of(
                #[trigger] self.stacks()[f][i],
            ) == f
    }

    /// A builder for a board with tiles.
    pub fn builder() -> (r: CamelMapBuilder)
        ensures
            r.positions is None,
            r.effect_cards is None,
    {
        CamelMapBuilder::new()
    }

    /// The board with the given camels, each pushed in list order onto the
    /// stack of its field, and no tiles.
    pub fn new(init_positions: Vec<(u8, Color)>) -> (r: CamelMap)
        requires
            placements_ok(init_positions@),
        ensures
            r.wf(),
            r.stacks() == stacks_of(init_positions@),
            r.cards() == Seq::new(FIELD_COUNT as nat, |f: int| None::<EffectCard>),
            forall|k: int|
                0 <= k < init_positions@.len() ==> r.field_of((#[trigger] init_positions@[k]).1)
                    == init_positions@[k].0,
    {
        let mut res = CamelMap {
            pos_color_map: [
                None, None, None, None, None, None, None, None,
                None, None, None, None, None, None, None, None,
            ],
            color_pos_map: [0; 5],
            effect_cards: [None; 16],
        };
        proof {
            assert(res.stacks() =~= empty_stacks());
            assert(res.cards() =~= Seq::new(FIELD_COUNT as nat, |f: int| None::<EffectCard>));
        }
        let mut i: usize = 0;
        while i < init_positions.len()
            invariant
                placements_ok(init_positions@),
                i <= init_positions@.len(),
                res.wf(),
                res.stacks() == stacks_of(init_positions@.subrange(0, i as int)),
                res.cards() == Seq::new(FIELD_COUNT as nat, |f: int| None::<EffectCard>),
                forall|k: int|
                    0 <= k < i ==> res.field_of((#[trigger] init_positions@[k]).1)
                        == init_positions@[k].0,
            decreases init_positions@.len() - i,
        {
            let p = init_positions[i];
            let ghost pre = init_positions@.subrange(0, i as int);
            proof {
                lemma_on_board_stacks_of(pre, p.1);
                if on_board(stacks_of(pre), p.1) {
                    let k = choose|k: int| 0 <= k < pre.len() && (#[trigger] pre[k]).1 == p.1;
                    assert(init_positions@[k] == pre[k]);
                }
            }
            res.insert_camel(p);
            proof {
                let next = init_positions@.subrange(0, i as int + 1);
                assert(next.drop_last() =~= pre);
                assert(next.last() == p);
            }
            i = i + 1;
        }
        assert(init_positions@.subrange(0, init_positions@.len() as int) =~= init_positions@);
        res
    }

    /// Puts camel `color` on top of the stack at field `pos`.
    pub(crate) fn insert_camel(&mut self, placement: (u8, Color))
        requires
            old(self).wf(),
            placement.0 < FIELD_COUNT,
            placement.1.is_camel(),
            !on_board(old(self).stacks(), placement.1),
        ensures
            final(self).wf(),
            final(self).stacks() == old(self).stacks().update(
                placement.0 as int,
                old(self).stacks()[placement.0 as int].push(placement.1),
            ),
            final(self).color_pos_map@ == old(self).color_pos_map@.update(
                placement.1.idx(),
                placement.0,
            ),
            final(self).effect_cards == old(self).effect_cards,
    {
        let (pos, color) = placement;
        let f = pos as usize;
        if let Some(vec) = &mut self.pos_color_map[f] {
            vec.push(color);
        } else {
            self.pos_color_map[f] = Some(vec![color]);
        }
        self.color_pos_map[color.index()] = pos;
        proof {
            let st0 = old(self).stacks();
            let st = self.stacks();
            assert forall|g: int| 0 <= g < FIELD_COUNT implies #[trigger] st[g] == st0.update(
                f as int,
                st0[f as int].push(color),
            )[g] by {
                if g != f as int {
                    assert(self.pos_color_map[g] == old(self).pos_color_map[g]);
                } else {
                    assert(st0[f as int] =~= Seq::<Color>::empty() ==> st0[f as int].push(color)
                        =~= seq![color]);
                }
            }
            assert(st =~= st0.update(f as int, st0[f as int].push(color)));
            assert forall|f1: int, i1: int, f2: int, i2: int|
                0 <= f1 < st.len() && 0 <= i1 < st[f1].len() && 0 <= f2 < st.len() && 0 <= i2
                    < st[f2].len() && #[trigger] st[f1][i1] == #[trigger] st[f2][i2] implies f1
                == f2 && i1 == i2 by {
                if st[f1][i1] == color {
                    if !(f1 == f && i1 == st0[f as int].len()) {
                        assert(st0[f1][i1] == color);
                    }
                    if !(f2 == f && i2 == st0[f as int].len()) {
                        assert(st0[f2][i2] == color);
                    }
                } else {
                    assert(st0[f1][i1] == st[f1][i1]);
                    assert(st0[f2][i2] == st[f2][i2]);
                }
            }
            assert forall|g: int, i: int|
                0 <= g < FIELD_COUNT && 0 <= i < st[g].len() implies self.field_of(
                #[trigger] st[g][i],
            ) == g by {
                if st[g][i] != color {
                    assert(st0[g][i] == st[g][i]);
                    assert(old(self).field_of(st0[g][i]) == g);
                }
            }
        }
    }

    /// Moves camel `camel` by `by` fields, together with every camel stacked
    /// on top of it.
    ///
    /// The group keeps its order. If it lands on an oasis it goes one field
    /// further and onto the top of the stack there; on a desert it goes one
    /// field back (not below 0) and underneath the stack there. A tile acts
    /// once: the field it sends the group to is not looked at again.
    #[verifier::rlimit(60)]
    pub fn move_camel(&mut self, camel: Color, by: u8)
        requires
            old(self).wf(),
            on_board(old(self).stacks(), camel),
            target(old(self).stacks(), old(self).cards(), camel, by as int) < FIELD_COUNT,
        ensures
            final(self).wf(),
            final(self).stacks() == step(old(self).stacks(), old(self).cards(), camel, by as int),
            final(self).effect_cards == old(self).effect_cards,
            forall|d: Color|
                #[trigger] on_board(final(self).stacks(), d) == on_board(old(self).stacks(), d),
            forall|d: Color|
                d.is_camel() && !on_board(old(self).stacks(), d) ==> #[trigger] final(self).field_of(d)
                    == old(self).field_of(d),
    {
        let ghost st = self.stacks();
        let ghost cards = self.cards();
        proof {
            lemma_spot(st, camel);
            let (g, i) = spot(st, camel);
            assert(self.field_of(st[g][i]) == g);
            lemma_step_shape(st, cards, camel, by as int);
            lemma_step_wf(st, cards, camel, by as int);
        }
        let old_field = self.find_camel(camel) as usize;
        let (to, beneath) = self.landing_of(old_field, by);
        let mut stack = self.pos_color_map[old_field].take().unwrap();
        assert(stack@ == st[old_field as int]);
        let mut h: usize = 0;
        while h < stack.len() && stack[h] != camel
            invariant
                stack@ == st[old_field as int],
                h <= stack@.len(),
                stacks_wf(st),
                0 <= old_field < FIELD_COUNT,
                spot(st, camel) == (old_field as int, spot(st, camel).1),
                0 <= spot(st, camel).1 < st[old_field as int].len(),
                st[old_field as int][spot(st, camel).1] == camel,
                h <= spot(st, camel).1,
            decreases stack@.len() - h,
        {
            h = h + 1;
        }
        if h < stack.len() {
            assert(st[old_field as int][h as int] == st[old_field as int][spot(st, camel).1]);
        }
        assert(h == spot(st, camel).1);
        let mut moving = stack.split_off(h);
        assert(moving@ == st[old_field as int].subrange(h as int, st[old_field as int].len() as int));
        assert(stack@ == st[old_field as int].subrange(0, h as int));
        let ghost mv = moving@;
        let ghost pm = self.pos_color_map;
        assert(forall|g: int| 0 <= g < FIELD_COUNT && g != old_field as int ==> pm[g] == old(self).pos_color_map[g]);
        assert forall|l: int| 0 <= l < mv.len() implies (#[trigger] mv[l]).is_camel() && on_board(st, mv[l]) by {
            assert(mv[l] == st[old_field as int][h as int + l]);
        }
        self.set_fields(&moving, to as u8);
        if stack.len() > 0 {
            self.pos_color_map[old_field] = Some(stack);
        }
        let dest = self.pos_color_map[to].take();
        let placed = match dest {
            None => moving,
            Some(mut d) => {
                if beneath {
                    moving.append(&mut d);
                    moving
                } else {
                    d.append(&mut moving);
                    d
                }
            },
        };
        self.pos_color_map[to] = Some(placed);
        proof {
            assert forall|d: Color| d.is_camel() && !on_board(st, d) implies #[trigger] self.field_of(d)
                == old(self).field_of(d) by {
                assert forall|l: int| 0 <= l < mv.len() implies (#[trigger] mv[l]).idx() != d.idx() by {
                    assert(on_board(st, mv[l]));
                }
            }
            let nw = step(st, cards, camel, by as int);
            let fin = self.stacks();
            assert forall|g: int| 0 <= g < FIELD_COUNT implies #[trigger] fin[g] == nw[g] by {
                if g != to as int && g != old_field as int {
                    assert(self.pos_color_map[g] == old(self).pos_color_map[g]);
                }
            }
            assert(fin =~= nw);
            assert forall|f: int| 0 <= f < FIELD_COUNT implies match #[trigger] self.pos_color_map[f] {
                Some(v) => v@.len() > 0,
                None => true,
            } by {
                if f != to as int && f != old_field as int {
                    assert(self.pos_color_map[f] == old(self).pos_color_map[f]);
                }
            }
            assert forall|g: int, i: int|
                0 <= g < FIELD_COUNT && 0 <= i < fin[g].len() implies self.field_of(
                #[trigger] fin[g][i],
            ) == g by {
                let o = origin(st, cards, camel, by as int, g, i);
                let x = fin[g][i];
                assert(x == st[o.0][o.1]);
                assert(old(self).field_of(x) == o.0);
                if o.0 == old_field as int && o.1 >= h as int {
                    assert(x == mv[o.1 - h]);
                } else {
                    assert forall|l: int| 0 <= l < mv.len() implies (#[trigger] mv[l]).idx() != x.idx() by {
                        assert(mv[l] == st[old_field as int][h as int + l]);
                    }
                }
            }
        }
    }

    /// The field a group leaving field `from` with a die showing `by` ends
    /// on, and whether it goes underneath the stack there.
    pub fn landing_of(&self, from: usize, by: u8) -> (r: (usize, bool))
        requires
            from < FIELD_COUNT,
        ensures
            r.0 as int == landing(self.cards(), from as int, by as int),
            r.1 == lands_beneath(self.cards(), from as int, by as int),
    {
        let n = from + by as usize;
        let mut to = n;
        let mut beneath = false;
        if n < FIELD_COUNT {
            match self.effect_cards[n] {
                Some(EffectCard::Oasis) => {
                    to = n + 1;
                },
                Some(EffectCard::Desert) => {
                    to = if n > 0 {
                        n - 1
                    } else {
                        0
                    };
                    beneath = true;
                },
                None => {},
            }
        }
        (to, beneath)
    }

    /// Whether camel `c` stands on the board.
    pub fn holds(&self, c: Color) -> (r: bool)
        requires
            self.wf(),
            c.is_camel(),
        ensures
            r == on_board(self.stacks(), c),
    {
        let f = self.find_camel(c) as usize;
        if f >= FIELD_COUNT {
            proof {
                if on_board(self.stacks(), c) {
                    let (g, i) = choose|g: int, i: int|
                        0 <= g < self.stacks().len() && 0 <= i < self.stacks()[g].len()
                            && #[trigger] self.stacks()[g][i] == c;
                    assert(self.field_of(self.stacks()[g][i]) == g);
                }
            }
            return false;
        }
        match &self.pos_color_map[f] {
            None => {
                proof {
                    if on_board(self.stacks(), c) {
                        let (g, i) = choose|g: int, i: int|
                            0 <= g < self.stacks().len() && 0 <= i < self.stacks()[g].len()
                                && #[trigger] self.stacks()[g][i] == c;
                        assert(self.field_of(self.stacks()[g][i]) == g);
                    }
                }
                false
            },
            Some(v) => {
                assert(v@ == self.stacks()[f as int]);
                let mut i: usize = 0;
                while i < v.len()
                    invariant
                        i <= v@.len(),
                        f < FIELD_COUNT,
                        v@ == self.stacks()[f as int],
                        forall|k: int| 0 <= k < i ==> v@[k] != c,
                    decreases v@.len() - i,
                {
                    if v[i] == c {
                        assert(self.stacks()[f as int][i as int] == c);
                        return true;
                    }
                    i = i + 1;
                }
                proof {
                    if on_board(self.stacks(), c) {
                        let (g, k) = choose|g: int, k: int|
                            0 <= g < self.stacks().len() && 0 <= k < self.stacks()[g].len()
                                && #[trigger] self.stacks()[g][k] == c;
                        assert(self.field_of(self.stacks()[g][k]) == g);
                    }
                }
                false
            },
        }
    }

    /// The field camel `camel` reaches with a die showing `by`.
    pub fn target_of(&self, camel: Color, by: u8) -> (r: usize)
        requires
            self.wf(),
            on_board(self.stacks(), camel),
        ensures
            r as int == target(self.stacks(), self.cards(), camel, by as int),
    {
        proof {
            lemma_spot(self.stacks(), camel);
            let (g, i) = spot(self.stacks(), camel);
            assert(self.field_of(self.stacks()[g][i]) == g);
        }
        let from = self.find_camel(camel) as usize;
        self.landing_of(from, by).0
    }

    /// Records field `to` for every camel of `group`.
    fn set_fields(&mut self, group: &Vec<Color>, to: u8)
        requires
            forall|l: int| 0 <= l < group@.len() ==> (#[trigger] group@[l]).is_camel(),
        ensures
            final(self).pos_color_map == old(self).pos_color_map,
            final(self).effect_cards == old(self).effect_cards,
            forall|j: int|
                0 <= j < 5 ==> #[trigger] final(self).color_pos_map@[j] == if exists|l: int|
                    0 <= l < group@.len() && (#[trigger] group@[l]).idx() == j {
                    to
                } else {
                    old(self).color_pos_map@[j]
                },
    {
        let ghost before = self.color_pos_map@;
        let mut k: usize = 0;
        while k < group.len()
            invariant
                k <= group@.len(),
                self.pos_color_map == old(self).pos_color_map,
                self.effect_cards == old(self).effect_cards,
                before == old(self).color_pos_map@,
                forall|l: int| 0 <= l < group@.len() ==> (#[trigger] group@[l]).is_camel(),
                forall|j: int|
                    0 <= j < 5 ==> #[trigger] self.color_pos_map@[j] == if exists|l: int|
                        0 <= l < k && (#[trigger] group@[l]).idx() == j {
                        to
                    } else {
                        before[j]
                    },
            decreases group@.len() - k,
        {
            let col = group[k];
            self.color_pos_map[col.index()] = to;
            k = k + 1;
            proof {
                assert forall|j: int| 0 <= j < 5 implies #[trigger] self.color_pos_map@[j]
                    == if exists|l: int| 0 <= l < k && (#[trigger] group@[l]).idx() == j {
                    to
                } else {
                    before[j]
                } by {
                    if col.idx() == j {
                        assert(group@[k - 1].idx() == j);
                    } else if exists|l: int| 0 <= l < k && (#[trigger] group@[l]).idx() == j {
                        let l = choose|l: int| 0 <= l < k && (#[trigger] group@[l]).idx() == j;
                        assert(l < k - 1);
                    }
                }
            }
        }
    }

    /// Whether two boards hold the same stacks, camel fields and tiles.
    pub open spec fn same_as(&self, other: &CamelMap) -> bool {
        &&& forall|f: int|
            0 <= f < FIELD_COUNT ==> same_field(
                #[trigger] self.pos_color_map[f],
                other.pos_color_map[f],
            )
        &&& self.color_pos_map@ == other.color_pos_map@
        &&& self.effect_cards@ == other.effect_cards@
    }

    /// Boards that are the same have the same model.
    pub proof fn lemma_same_as(&self, other: &CamelMap)
        requires
            self.same_as(other),
        ensures
            self.stacks() == other.stacks(),
            self.cards() == other.cards(),
            self.wf() == other.wf(),
            forall|c: Color| c.is_camel() ==> #[trigger] self.field_of(c) == other.field_of(c),
    {
        assert forall|f: int| 0 <= f < FIELD_COUNT implies #[trigger] self.stacks()[f] == other.stacks()[f] by {
            assert(same_field(self.pos_color_map[f], other.pos_color_map[f]));
        }
        assert(self.stacks() =~= other.stacks());
        assert forall|c: Color| c.is_camel() implies #[trigger] self.field_of(c) == other.field_of(c) by {
            assert(self.color_pos_map@[c.idx()] == other.color_pos_map@[c.idx()]);
        }
        if self.wf() {
            assert forall|f: int| 0 <= f < FIELD_COUNT implies match #[trigger] other.pos_color_map[f] {
                Some(v) => v@.len() > 0,
                None => true,
            } by {
                assert(same_field(self.pos_color_map[f], other.pos_color_map[f]));
            }
        }
        if other.wf() {
            assert forall|f: int| 0 <= f < FIELD_COUNT implies match #[trigger] self.pos_color_map[f] {
                Some(v) => v@.len() > 0,
                None => true,
            } by {
                assert(same_field(self.pos_color_map[f], other.pos_color_map[f]));
            }
        }
    }

    /// A copy of the board.
    pub fn duplicate(&self) -> (r: CamelMap)
        ensures
            r.same_as(self),
    {
        let mut pos_color_map: [Option<Vec<Color>>; 16] = [
            None, None, None, None, None, None, None, None,
            None, None, None, None, None, None, None, None,
        ];
        let mut f: usize = 0;
        while f < FIELD_COUNT
            invariant
                f <= FIELD_COUNT,
                forall|g: int| 0 <= g < f ==> same_field(#[trigger] pos_color_map[g], self.pos_color_map[g]),
            decreases FIELD_COUNT - f,
        {
            let copy = match &self.pos_color_map[f] {
                Some(v) => {
                    let w = v.clone();
                    assert(w@ =~= v@);
                    Some(w)
                },
                None => None,
            };
            pos_color_map[f] = copy;
            f = f + 1;
        }
        let r = CamelMap {
            pos_color_map,
            color_pos_map: self.color_pos_map,
            effect_cards: self.effect_cards,
        };
        r
    }

    /// Field of camel `color`.
    pub fn find_camel(&self, color: Color) -> (r: u8)
        requires
            color.is_camel(),
        ensures
            r as int == self.field_of(color),
    {
        self.color_pos_map[color.index()]
    }
}

/// A camel stands on the board built from a list of placements exactly when
/// the list places it.
pub proof fn lemma_on_board_stacks_of(p: Seq<(u8, Color)>, c: Color)
    requires
        placements_ok(p),
    ensures
        stacks_of(p).len() == FIELD_COUNT,
        on_board(stacks_of(p), c) <==> exists|k: int| 0 <= k < p.len() && (#[trigger] p[k]).1 == c,
    decreases p.len(),
{
    if p.len() == 0 {
        assert(!on_board(stacks_of(p), c));
    } else {
        let q = p.drop_last();
        assert(placements_ok(q)) by {
            assert forall|k: int, l: int| 0 <= k < l < q.len() implies (#[trigger] q[k]).1 != (
            #[trigger] q[l]).1 by {
                assert(q[k] == p[k] && q[l] == p[l]);
            }
            assert forall|k: int| 0 <= k < q.len() implies (#[trigger] q[k]).0 < FIELD_COUNT
                && q[k].1.is_camel() by {
                assert(q[k] == p[k]);
            }
        }
        lemma_on_board_stacks_of(q, c);
        let prev = stacks_of(q);
        let (f, d) = p.last();
        let st = stacks_of(p);
        assert(p[p.len() - 1] == p.last());
        if on_board(st, c) {
            let (g, i) = choose|g: int, i: int|
                0 <= g < st.len() && 0 <= i < st[g].len() && #[trigger] st[g][i] == c;
            if g == f as int && i == prev[g].len() {
                assert(p[p.len() - 1].1 == c);
            } else {
                assert(prev[g][i] == c);
                assert(on_board(prev, c));
                let k = choose|k: int| 0 <= k < q.len() && (#[trigger] q[k]).1 == c;
                assert(p[k] == q[k]);
            }
        }
        if exists|k: int| 0 <= k < p.len() && (#[trigger] p[k]).1 == c {
            let k = choose|k: int| 0 <= k < p.len() && (#[trigger] p[k]).1 == c;
            if k == p.len() - 1 {
                assert(st[f as int][prev[f as int].len() as int] == c);
            } else {
                assert(q[k] == p[k]);
                assert(on_board(prev, c));
                let (g, i) = choose|g: int, i: int|
                    0 <= g < prev.len() && 0 <= i < prev[g].len() && #[trigger] prev[g][i] == c;
                assert(st[g][i] == c);
            }
        }
    }
}

/// Where, before the move of camel `c` by `by`, the piece stood that stands
/// at height `i` of field `g` afterwards.
pub open spec fn origin(
    st: Seq<Seq<Color>>,
    cards: Seq<Option<EffectCard>>,
    c: Color,
    by: int,
    g: int,
    i: int,
) -> (int, int) {
    let (f, h) = spot(st, c);
    let to = landing(cards, f, by);
    let m = st[f].len() - h;
    let below = if to == f {
        h
    } else {
        st[to].len() as int
    };
    if g == to {
        if lands_beneath(cards, f, by) {
            if i < m {
                (f, h + i)
            } else {
                (to, i - m)
            }
        } else {
            if i < below {
                (to, i)
            } else {
                (f, h + i - below)
            }
        }
    } else {
        (g, i)
    }
}

/// Where, after the move of camel `c` by `by`, the piece stands that stood
/// at height `i` of field `g` before.
pub open spec fn destination(
    st: Seq<Seq<Color>>,
    cards: Seq<Option<EffectCard>>,
    c: Color,
    by: int,
    g: int,
    i: int,
) -> (int, int) {
    let (f, h) = spot(st, c);
    let to = landing(cards, f, by);
    let m = st[f].len() - h;
    let below = if to == f {
        h
    } else {
        st[to].len() as int
    };
    if g == f && i >= h {
        if lands_beneath(cards, f, by) {
            (to, i - h)
        } else {
            (to, below + i - h)
        }
    } else if g == to {
        if lands_beneath(cards, f, by) {
            (to, i + m)
        } else {
            (to, i)
        }
    } else {
        (g, i)
    }
}

/// Facts on the spot of a camel that stands on a well-formed board.
pub proof fn lemma_spot(st: Seq<Seq<Color>>, c: Color)
    requires
        stacks_wf(st),
        on_board(st, c),
    ensures
        0 <= spot(st, c).0 < st.len(),
        0 <= spot(st, c).1 < st[spot(st, c).0].len(),
        st[spot(st, c).0][spot(st, c).1] == c,
        forall|g: int, i: int|
            0 <= g < st.len() && 0 <= i < st[g].len() && #[trigger] st[g][i] == c ==> g == spot(
                st,
                c,
            ).0 && i == spot(st, c).1,
{
    let (g, i) = choose|g: int, i: int|
        0 <= g < st.len() && 0 <= i < st[g].len() && #[trigger] st[g][i] == c;
    assert(st[(g, i).0][(g, i).1] == c);
}

/// The move keeps every piece exactly once: each piece of the new board comes
/// from one place of the old board, and each piece of the old board goes to
/// one place of the new board.
pub proof fn lemma_step_shape(st: Seq<Seq<Color>>, cards: Seq<Option<EffectCard>>, c: Color, by: int)
    requires
        stacks_wf(st),
        on_board(st, c),
        0 <= target(st, cards, c, by) < FIELD_COUNT,
    ensures
        step(st, cards, c, by).len() == FIELD_COUNT,
        forall|g: int, i: int|
            0 <= g < FIELD_COUNT && 0 <= i < step(st, cards, c, by)[g].len() ==> {
                let o = #[trigger] origin(st, cards, c, by, g, i);
                &&& 0 <= o.0 < FIELD_COUNT
                &&& 0 <= o.1 < st[o.0].len()
                &&& step(st, cards, c, by)[g][i] == st[o.0][o.1]
                &&& destination(st, cards, c, by, o.0, o.1) == (g, i)
            },
        forall|g: int, i: int|
            0 <= g < FIELD_COUNT && 0 <= i < st[g].len() ==> {
                let d = #[trigger] destination(st, cards, c, by, g, i);
                &&& 0 <= d.0 < FIELD_COUNT
                &&& 0 <= d.1 < step(st, cards, c, by)[d.0].len()
                &&& step(st, cards, c, by)[d.0][d.1] == st[g][i]
            },
{
    lemma_spot(st, c);
    let (f, h) = spot(st, c);
    let to = landing(cards, f, by);
    let moving = st[f].subrange(h, st[f].len() as int);
    let mid = st.update(f, st[f].subrange(0, h));
    let nw = step(st, cards, c, by);
    let beneath = lands_beneath(cards, f, by);
    assert(nw == mid.update(to, if beneath { moving + mid[to] } else { mid[to] + moving }));
    assert forall|g: int, i: int|
        0 <= g < FIELD_COUNT && 0 <= i < nw[g].len() implies {
            let o = #[trigger] origin(st, cards, c, by, g, i);
            &&& 0 <= o.0 < FIELD_COUNT
            &&& 0 <= o.1 < st[o.0].len()
            &&& nw[g][i] == st[o.0][o.1]
            &&& destination(st, cards, c, by, o.0, o.1) == (g, i)
        } by {
        if g == to {
            if beneath {
                assert(nw[g] == moving + mid[to]);
            } else {
                assert(nw[g] == mid[to] + moving);
            }
        }
    }
    assert forall|g: int, i: int| 0 <= g < FIELD_COUNT && 0 <= i < st[g].len() implies {
        let d = #[trigger] destination(st, cards, c, by, g, i);
        &&& 0 <= d.0 < FIELD_COUNT
        &&& 0 <= d.1 < nw[d.0].len()
        &&& nw[d.0][d.1] == st[g][i]
    } by {
        if g == f && i >= h {
            if beneath {
                assert(nw[to] == moving + mid[to]);
            } else {
                assert(nw[to] == mid[to] + moving);
            }
        } else if g == to {
            if beneath {
                assert(nw[to] == moving + mid[to]);
            } else {
                assert(nw[to] == mid[to] + moving);
            }
        }
    }
}

/// A move keeps the board well formed and keeps the same camels on it.
pub proof fn lemma_step_wf(st: Seq<Seq<Color>>, cards: Seq<Option<EffectCard>>, c: Color, by: int)
    requires
        stacks_wf(st),
        on_board(st, c),
        0 <= target(st, cards, c, by) < FIELD_COUNT,
    ensures
        stacks_wf(step(st, cards, c, by)),
        forall|d: Color| #[trigger] on_board(step(st, cards, c, by), d) == on_board(st, d),
{
    lemma_step_shape(st, cards, c, by);
    let nw = step(st, cards, c, by);
    assert forall|f: int, i: int| 0 <= f < nw.len() && 0 <= i < nw[f].len() implies (
    #[trigger] nw[f][i]).is_camel() by {
        let o = origin(st, cards, c, by, f, i);
    }
    assert forall|f1: int, i1: int, f2: int, i2: int|
        0 <= f1 < nw.len() && 0 <= i1 < nw[f1].len() && 0 <= f2 < nw.len() && 0 <= i2
            < nw[f2].len() && #[trigger] nw[f1][i1] == #[trigger] nw[f2][i2] implies f1 == f2
        && i1 == i2 by {
        let o1 = origin(st, cards, c, by, f1, i1);
        let o2 = origin(st, cards, c, by, f2, i2);
        assert(st[o1.0][o1.1] == st[o2.0][o2.1]);
    }
    assert forall|d: Color| #[trigger] on_board(nw, d) == on_board(st, d) by {
        if on_board(nw, d) {
            let (g, i) = choose|g: int, i: int|
                0 <= g < nw.len() && 0 <= i < nw[g].len() && #[trigger] nw[g][i] == d;
            let o = origin(st, cards, c, by, g, i);
            assert(st[o.0][o.1] == d);
        }
        if on_board(st, d) {
            let (g, i) = choose|g: int, i: int|
                0 <= g < st.len() && 0 <= i < st[g].len() && #[trigger] st[g][i] == d;
            let e = destination(st, cards, c, by, g, i);
            assert(nw[e.0][e.1] == d);
        }
    }
}

/// Whether every tile of a list lies on a field of the board.
pub open spec fn cards_ok(p: Seq<(u8, EffectCard)>) -> bool {
    forall|k: int| 0 <= k < p.len() ==> (#[trigger] p[k]).0 < FIELD_COUNT
}

/// Why a board could not be built.
#[derive(Debug, Clone, Copy, PartialEq, Eq, Structural)]
pub enum MapError {
    /// No camel placements were given.
    MissingPositions,
    /// A placement names a field off the board, a non-camel, or a camel
    /// that is already placed.
    InvalidPlacement,
    /// A tile lies on a field off the board.
    InvalidEffectCard,
}

/// Whether a list of placements puts only camels, each at most once, on
/// fields of the board.
fn placements_valid(p: &Vec<(u8, Color)>) -> (r: bool)
    ensures
        r == placements_ok(p@),
{
    let mut k: usize = 0;
    while k < p.len()
        invariant
            k <= p@.len(),
            forall|a: int| 0 <= a < k ==> (#[trigger] p@[a]).0 < FIELD_COUNT && p@[a].1.is_camel(),
            forall|a: int, b: int| 0 <= a < b < k ==> (#[trigger] p@[a]).1 != (#[trigger] p@[b]).1,
        decreases p@.len() - k,
    {
        let (f, c) = p[k];
        if f as usize >= FIELD_COUNT || c == Color::Absent {
            return false;
        }
        let mut l: usize = 0;
        while l < k
            invariant
                k < p@.len(),
                l <= k,
                c == p@[k as int].1,
                forall|a: int| 0 <= a < l ==> (#[trigger] p@[a]).1 != c,
            decreases k - l,
        {
            if p[l].1 == c {
                return false;
            }
            l = l + 1;
        }
        k = k + 1;
    }
    true
}

/// Whether every tile of a list lies on a field of the board.
fn cards_valid(p: &Vec<(u8, EffectCard)>) -> (r: bool)
    ensures
        r == cards_ok(p@),
{
    let mut k: usize = 0;
    while k < p.len()
        invariant
            k <= p@.len(),
            forall|a: int| 0 <= a < k ==> (#[trigger] p@[a]).0 < FIELD_COUNT,
        decreases p@.len() - k,
    {
        if p[k].0 as usize >= FIELD_COUNT {
            return false;
        }
        k = k + 1;
    }
    true
}

/// Collects the camel placements and tiles of a board before it is built.
pub struct CamelMapBuilder {
    pub positions: Option<Vec<(u8, Color)>>,
    pub effect_cards: Option<Vec<(u8, EffectCard)>>,
}

impl CamelMapBuilder {
    /// A builder with nothing set.
    pub fn new() -> (r: CamelMapBuilder)
        ensures
            r.positions is None,
            r.effect_cards is None,
    {
        CamelMapBuilder { positions: None, effect_cards: None }
    }

    /// Sets the (field, camel) placements, in the order they are stacked.
    pub fn with_positions(self, positions: Vec<(u8, Color)>) -> (r: CamelMapBuilder)
        ensures
            r.positions == Some(positions),
            r.effect_cards == self.effect_cards,
    {
        CamelMapBuilder { positions: Some(positions), effect_cards: self.effect_cards }
    }

    /// Sets the (field, tile) pairs.
    pub fn with_effect_cards(self, cards: Vec<(u8, EffectCard)>) -> (r: CamelMapBuilder)
        ensures
            r.positions == self.positions,
            r.effect_cards == Some(cards),
    {
        CamelMapBuilder { positions: self.positions, effect_cards: Some(cards) }
    }

    /// The tiles that `build` lays: those set, or none.
    pub open spec fn cards_spec(&self) -> Seq<(u8, EffectCard)> {
        match self.effect_cards {
            Some(c) => c@,
            None => Seq::empty(),
        }
    }

    /// Builds the board.
    ///
    /// Fails with `MissingPositions` when no placement was given (none set,
    /// or an empty list), with `InvalidPlacement` when a placement is off
    /// the board, not a camel or a repeated camel, and with
    /// `InvalidEffectCard` when a tile is off the board.
    pub fn build(self) -> (r: Result<CamelMap, MapError>)
        ensures
            match self.positions {
                None => r == Err::<CamelMap, MapError>(MapError::MissingPositions),
                Some(p) => if p@.len() == 0 {
                    r == Err::<CamelMap, MapError>(MapError::MissingPositions)
                } else if !placements_ok(p@) {
                    r == Err::<CamelMap, MapError>(MapError::InvalidPlacement)
                } else if !cards_ok(self.cards_spec()) {
                    r == Err::<CamelMap, MapError>(MapError::InvalidEffectCard)
                } else {
                    &&& r is Ok
                    &&& r->Ok_0.wf()
                    &&& r->Ok_0.stacks() == stacks_of(p@)
                    &&& r->Ok_0.cards() == cards_of(self.cards_spec())
                    &&& forall|k: int|
                        0 <= k < p@.len() ==> r->Ok_0.field_of((#[trigger] p@[k]).1) == p@[k].0
                },
            },
    {
        let ghost cs = self.cards_spec();
        let positions = match self.positions {
            None => {
                return Err(MapError::MissingPositions);
            },
            Some(p) => p,
        };
        if positions.len() == 0 {
            return Err(MapError::MissingPositions);
        }
        if !placements_valid(&positions) {
            return Err(MapError::InvalidPlacement);
        }
        let cards = match self.effect_cards {
            None => Vec::new(),
            Some(c) => c,
        };
        assert(cards@ == cs);
        if !cards_valid(&cards) {
            return Err(MapError::InvalidEffectCard);
        }
        let ghost pv = positions@;
        let mut map = CamelMap::new(positions);
        assert(cards_of(cards@.subrange(0, 0)) =~= map.cards());
        let mut k: usize = 0;
        while k < cards.len()
            invariant
                k <= cards@.len(),
                cards_ok(cards@),
                map.wf(),
                map.stacks() == stacks_of(pv),
                forall|k: int| 0 <= k < pv.len() ==> map.field_of((#[trigger] pv[k]).1) == pv[k].0,
                map.cards() == cards_of(cards@.subrange(0, k as int)),
            decreases cards@.len() - k,
        {
            let (f, card) = cards[k];
            assert(cards@[k as int].0 < FIELD_COUNT);
            map.effect_cards[f as usize] = Some(card);
            proof {
                let next = cards@.subrange(0, k as int + 1);
                assert(next.drop_last() =~= cards@.subrange(0, k as int));
                assert(map.cards() =~= cards_of(next));
            }
            k = k + 1;
        }
        assert(cards@.subrange(0, cards@.len() as int) =~= cards@);
        Ok(map)
    }
}

/// A camel alone on its field that lands on a field without a tile moves
/// by exactly its die value onto the top of that field, and every other
/// field keeps its stack.
pub proof fn law_single_camel_move(
    st: Seq<Seq<Color>>,
    cards: Seq<Option<EffectCard>>,
    c: Color,
    by: int,
)
    requires
        stacks_wf(st),
        cards.len() == FIELD_COUNT,
        on_board(st, c),
        st[spot(st, c).0] == seq![c],
        0 <= by,
        spot(st, c).0 + by < FIELD_COUNT,
        cards[spot(st, c).0 + by] is None,
    ensures
        target(st, cards, c, by) == spot(st, c).0 + by,
        ({
            let f = spot(st, c).0;
            let nw = step(st, cards, c, by);
            &&& by > 0 ==> nw[f] == Seq::<Color>::empty()
            &&& by > 0 ==> nw[f + by] == st[f + by].push(c)
            &&& by == 0 ==> nw[f] == seq![c]
            &&& forall|g: int| 0 <= g < FIELD_COUNT && g != f && g != f + by ==> nw[g] == st[g]
        }),
{
    lemma_spot(st, c);
    let (f, h) = spot(st, c);
    assert(h == 0);
    assert(st[f].subrange(h, st[f].len() as int) =~= seq![c]);
    assert(st[f].subrange(0, h) =~= Seq::<Color>::empty());
    let nw = step(st, cards, c, by);
    if by > 0 {
        assert(nw[f + by] =~= st[f + by].push(c));
    } else {
        assert(nw[f] =~= seq![c]);
    }
}

/// When a camel moves, a camel stacked above it moves with it, to the same
/// field, and stays above it.
pub proof fn law_group_keeps_order(
    st: Seq<Seq<Color>>,
    cards: Seq<Option<EffectCard>>,
    c: Color,
    by: int,
    i: int,
    j: int,
)
    requires
        stacks_wf(st),
        on_board(st, c),
        0 <= target(st, cards, c, by) < FIELD_COUNT,
        spot(st, c).1 <= i < j < st[spot(st, c).0].len(),
    ensures
        ({
            let f = spot(st, c).0;
            let dx = destination(st, cards, c, by, f, i);
            let dy = destination(st, cards, c, by, f, j);
            let nw = step(st, cards, c, by);
            &&& dx.0 == target(st, cards, c, by)
            &&& dy.0 == target(st, cards, c, by)
            &&& dx.1 < dy.1
            &&& nw[dx.0][dx.1] == st[f][i]
            &&& nw[dy.0][dy.1] == st[f][j]
        }),
{
    lemma_spot(st, c);
    lemma_step_shape(st, cards, c, by);
    let f = spot(st, c).0;
    assert(0 <= f < FIELD_COUNT);
    let dx = destination(st, cards, c, by, f, i);
    let dy = destination(st, cards, c, by, f, j);
}

/// A camel that lands on an oasis at field `p` ends on field `p + 1`, with
/// its group put on top of the stack already there.
pub proof fn law_oasis(st: Seq<Seq<Color>>, cards: Seq<Option<EffectCard>>, c: Color, by: int)
    requires
        stacks_wf(st),
        cards.len() == FIELD_COUNT,
        on_board(st, c),
        0 <= by,
        spot(st, c).0 + by + 1 < FIELD_COUNT,
        cards[spot(st, c).0 + by] == Some(EffectCard::Oasis),
    ensures
        ({
            let (f, h) = spot(st, c);
            let p = f + by;
            &&& target(st, cards, c, by) == p + 1
            &&& step(st, cards, c, by)[p + 1] == st[p + 1] + st[f].subrange(h, st[f].len() as int)
        }),
{
    lemma_spot(st, c);
}

/// A camel that lands on a desert at field `p` ends on field `p - 1` (field
/// 0 if `p` is 0), with its group slid underneath the stack already there.
pub proof fn law_desert(st: Seq<Seq<Color>>, cards: Seq<Option<EffectCard>>, c: Color, by: int)
    requires
        stacks_wf(st),
        cards.len() == FIELD_COUNT,
        on_board(st, c),
        0 <= by,
        spot(st, c).0 + by < FIELD_COUNT,
        cards[spot(st, c).0 + by] == Some(EffectCard::Desert),
    ensures
        ({
            let (f, h) = spot(st, c);
            let p = f + by;
            let to = if p > 0 {
                p - 1
            } else {
                0
            };
            let there = if to == f {
                st[f].subrange(0, h)
            } else {
                st[to]
            };
            &&& target(st, cards, c, by) == to
            &&& step(st, cards, c, by)[to] == st[f].subrange(h, st[f].len() as int) + there
        }),
{
    lemma_spot(st, c);
}

/// On a board where each of the five camels stands exactly once, every
/// move leaves each of them standing exactly once.
pub proof fn law_move_keeps_each_camel_once(
    st: Seq<Seq<Color>>,
    cards: Seq<Option<EffectCard>>,
    c: Color,
    by: int,
)
    requires
        stacks_wf(st),
        all_on_board(st),
        on_board(st, c),
        0 <= target(st, cards, c, by) < FIELD_COUNT,
    ensures
        stacks_wf(step(st, cards, c, by)),
        all_on_board(step(st, cards, c, by)),
{
    lemma_step_wf(st, cards, c, by);
    let nw = step(st, cards, c, by);
    assert forall|k: int| 0 <= k < 5 implies on_board(nw, #[trigger] Color::of_index(k)) by {
        assert(on_board(st, Color::of_index(k)));
    }
}

/// Whether two fields hold the same stack (an empty field differs from any
/// stack, even an empty one).
pub open spec fn same_field(a: Option<Vec<Color>>, b: Option<Vec<Color>>) -> bool {
    match (a, b) {
        (Some(x), Some(y)) => x@ == y@,
        (None, None) => true,
        _ => false,
    }
}

/// Whether two stacks hold the same camels in the same order.
fn same_stack(a: &Vec<Color>, b: &Vec<Color>) -> (r: bool)
    ensures
        r == (a@ == b@),
{
    if a.len() != b.len() {
        return false;
    }
    let mut i: usize = 0;
    while i < a.len()
        invariant
            a@.len() == b@.len(),
            i <= a@.len(),
            forall|k: int| 0 <= k < i ==> a@[k] == b@[k],
        decreases a@.len() - i,
    {
        if a[i] != b[i] {
            return false;
        }
        i = i + 1;
    }
    assert(a@ =~= b@);
    true
}

impl PartialEq for CamelMap {
    fn eq(&self, other: &CamelMap) -> (r: bool) {
        let mut f: usize = 0;
        while f < FIELD_COUNT
            invariant
                f <= FIELD_COUNT,
                forall|g: int|
                    0 <= g < f ==> same_field(
                        #[trigger] self.pos_color_map[g],
                        other.pos_color_map[g],
                    ),
            decreases FIELD_COUNT - f,
        {
            let same = match (&self.pos_color_map[f], &other.pos_color_map[f]) {
                (Some(x), Some(y)) => same_stack(x, y),
                (None, None) => true,
                _ => false,
            };
            if !same {
                return false;
            }
            f = f + 1;
        }
        let mut c: usize = 0;
        while c < 5
            invariant
                c <= 5,
                forall|k: int| 0 <= k < c ==> self.color_pos_map[k] == other.color_pos_map[k],
            decreases 5 - c,
        {
            if self.color_pos_map[c] != other.color_pos_map[c] {
                return false;
            }
            c = c + 1;
        }
        let mut g: usize = 0;
        while g < FIELD_COUNT
            invariant
                g <= FIELD_COUNT,
                forall|k: int| 0 <= k < g ==> self.effect_cards[k] == other.effect_cards[k],
            decreases FIELD_COUNT - g,
        {
            if self.effect_cards[g] != other.effect_cards[g] {
                return false;
            }
            g = g + 1;
        }
        proof {
            assert(self.color_pos_map@ =~= other.color_pos_map@);
            assert(self.effect_cards@ =~= other.effect_cards@);
        }
        true
    }
}

impl PartialEqSpecImpl for CamelMap {
    open spec fn obeys_eq_spec() -> bool {
        true
    }

    open spec fn eq_spec(&self, other: &CamelMap) -> bool {
        self.same_as(other)
    }
}

} // verus!
