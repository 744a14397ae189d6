use vstd::prelude::*;
use vstd::std_specs::cmp::PartialEqSpecImpl;
use crate::color::Color;

verus! {

/// Mask of the five color bits (bits 7 to 3); the low three bits hold the
/// iteration cursor.
pub const COLOR_BITS: u8 = 0b1111_1000;

/// Mask of the iteration cursor.
pub const CURSOR_BITS: u8 = 0b0000_0111;

/// Mask of the bit at position `7 - i`, the bit of color index `i`.
pub open spec fn bit_mask(i: int) -> u8 {
    0x80u8 >> (i as u8)
}

/// Whether the color with index `i` is in a set stored as `state`.
pub open spec fn state_has(state: u8, i: int) -> bool {
    0 <= i < 5 && state & bit_mask(i) != 0
}

/// Number of colors with index below `n` in a set stored as `state`.
pub open spec fn state_count(state: u8, n: int) -> nat
    decreases n,
{
    if n <= 0 {
        0
    } else {
        state_count(state, n - 1) + if state_has(state, n - 1) {
            1nat
        } else {
            0nat
        }
    }
}

/// Smallest color index at or after `i` that is in the set, or 5 if none is.
pub open spec fn state_first_from(state: u8, i: int) -> int
    decreases 5 - i,
{
    if i >= 5 {
        5
    } else if state_has(state, i) {
        i
    } else {
        state_first_from(state, i + 1)
    }
}

/// Bitwise union of the masks of a sequence of colors.
pub open spec fn masks_union(colors: Seq<Color>) -> u8
    decreases colors.len(),
{
    if colors.len() == 0 {
        0
    } else {
        masks_union(colors.drop_last()) | colors.last().mask()
    }
}

/// A set of the five colors packed into one byte, doubling as a one-shot
/// consuming iterator.
///
/// Bits 7 to 3 say which colors are in the set (Blue, Green, Orange, White,
/// Yellow, most significant first). Bits 2 to 0 hold the position up to
/// which an iteration has advanced. Equality looks at the color bits only.
#[derive(Debug, Clone, Copy, Eq)]
pub struct ColorState {
    pub state: u8,
}

impl ColorState {
    /// Whether the color with index `i` is in the set.
    pub open spec fn has(self, i: int) -> bool {
        state_has(self.state, i)
    }

    /// Number of colors in the set.
    pub open spec fn count(self) -> nat {
        state_count(self.state, 5)
    }

    /// The colors in the set.
    pub open spec fn colors(self) -> Set<Color> {
        Set::new(|c: Color| c.is_camel() && self.has(c.idx()))
    }

    /// The iteration cursor.
    pub open spec fn cursor(self) -> u8 {
        self.state & CURSOR_BITS
    }

    /// The byte with the cursor cleared: what equality compares.
    pub open spec fn members(self) -> u8 {
        self.state & COLOR_BITS
    }

    /// Number of colors in the set, from 0 to 5.
    pub fn len(&self) -> (r: u8)
        ensures
            r as nat == self.count(),
            r <= 5,
    {
        let st = self.state;
        let colors = st & COLOR_BITS;
        let mut n: u8 = 0;
        let mut i: u8 = 0;
        while i < 5
            invariant
                i <= 5,
                st == self.state,
                colors == st & COLOR_BITS,
                n as nat == state_count(self.state, i as int),
                n <= i,
            decreases 5 - i,
        {
            let m: u8 = 0b1000_0000 >> i;
            assert((colors & m != 0) == (st & m != 0)) by (bit_vector)
                requires
                    colors == st & 0xF8u8,
                    m == 0x80u8 >> i,
                    i < 5,
            ;
            if colors & m != 0 {
                n = n + 1;
            }
            i = i + 1;
        }
        n
    }

    /// Sets (`value == true`) or clears the bit of color index `index`.
    ///
    /// Index 5 to 7 reach into the cursor bits.
    #[inline]
    pub fn assign_to_index(&mut self, index: u8, value: bool)
        requires
            index < 8,
        ensures
            final(self).state == if value {
                old(self).state | (0x80u8 >> index)
            } else {
                old(self).state & !(0x80u8 >> index)
            },
            forall|i: int|
                #![trigger final(self).has(i)]
                0 <= i < 5 ==> final(self).has(i) == if i == index as int {
                    value
                } else {
                    old(self).has(i)
                },
            index < 5 ==> final(self).cursor() == old(self).cursor(),
    {
        let ghost s = self.state;
        if value {
            self.state |= 0b1000_0000 >> index;
        } else {
            self.state &= !(0b1000_0000 >> index);
        }
        proof {
            let t = self.state;
            assert forall|i: int| 0 <= i < 5 implies self.has(i) == if i == index as int {
                value
            } else {
                state_has(s, i)
            } by {
                let j = i as u8;
                lemma_assign_bit(s, index, j);
            }
            lemma_assign_cursor(s, index);
        }
    }

    /// Removes a color from the set.
    pub fn remove_color(&mut self, col: Color)
        ensures
            final(self).state == old(self).state & !(0x80u8 >> col.idx() as u8),
            forall|i: int|
                #![trigger final(self).has(i)]
                0 <= i < 5 ==> final(self).has(i) == (i != col.idx() && old(self).has(i)),
            col.is_camel() ==> final(self).cursor() == old(self).cursor(),
    {
        self.assign_to_index(col.index() as u8, false);
    }

    /// Adds a color to the set.
    pub fn add_color(&mut self, col: Color)
        ensures
            final(self).state == old(self).state | (0x80u8 >> col.idx() as u8),
            forall|i: int|
                #![trigger final(self).has(i)]
                0 <= i < 5 ==> final(self).has(i) == (i == col.idx() || old(self).has(i)),
            col.is_camel() ==> final(self).cursor() == old(self).cursor(),
    {
        self.assign_to_index(col.index() as u8, true);
    }

    /// The set of the given colors (duplicates collapse).
    pub fn new(conf: Vec<Color>) -> (r: ColorState)
        ensures
            r.state == masks_union(conf@),
            forall|i: int|
                #![trigger r.has(i)]
                0 <= i < 5 ==> (r.has(i) <==> exists|j: int|
                    0 <= j < conf@.len() && (#[trigger] conf@[j]).idx() == i),
    {
        let mut state: u8 = 0b0000_0000;
        let mut k: usize = 0;
        assert forall|i: int| 0 <= i < 5 implies !state_has(0u8, i) by {
            let j = i as u8;
            assert(0u8 & (0x80u8 >> j) == 0) by (bit_vector);
        }
        while k < conf.len()
            invariant
                k <= conf@.len(),
                state == masks_union(conf@.subrange(0, k as int)),
                forall|i: int|
                    #![trigger state_has(state, i)]
                    0 <= i < 5 ==> (state_has(state, i) <==> exists|j: int|
                        0 <= j < k && (#[trigger] conf@[j]).idx() == i),
            decreases conf@.len() - k,
        {
            let col = conf[k];
            let ghost old_state = state;
            state = state | col.as_byte();
            proof {
                let pre = conf@.subrange(0, k as int);
                let next = conf@.subrange(0, k as int + 1);
                assert(next.drop_last() =~= pre);
                assert(next.last() == col);
                assert forall|i: int| 0 <= i < 5 implies (state_has(state, i) <==> exists|j: int|
                    0 <= j < k + 1 && (#[trigger] conf@[j]).idx() == i) by {
                    lemma_union_bit(old_state, col, i as u8);
                    if state_has(old_state, i) {
                        let j = choose|j: int| 0 <= j < k && (#[trigger] conf@[j]).idx() == i;
                        assert(0 <= j < k + 1 && conf@[j].idx() == i);
                    }
                    if col.idx() == i {
                        assert(conf@[k as int].idx() == i);
                    }
                }
            }
            k = k + 1;
        }
        assert(conf@.subrange(0, conf@.len() as int) =~= conf@);
        ColorState { state }
    }

    /// Keeps only the colors whose mask satisfies `predicate`.
    ///
    /// The six bits from 7 down to 2 are offered to `predicate` in turn; each
    /// set bit for which it answers `false` is cleared.
    pub fn retain<F: Fn(u8) -> bool>(&mut self, predicate: F)
        requires
            forall|b: u8| predicate.requires((b,)),
        ensures
            forall|i: int|
                0 <= i < 6 ==> {
                    let m = #[trigger] bit_mask(i);
                    &&& (old(self).state & m == 0 ==> final(self).state & m == 0)
                    &&& (old(self).state & m != 0 && final(self).state & m != 0 ==> predicate.ensures(
                        (m,),
                        true,
                    ))
                    &&& (old(self).state & m != 0 && final(self).state & m == 0 ==> predicate.ensures(
                        (m,),
                        false,
                    ))
                },
            final(self).state & 0b11 == old(self).state & 0b11,
    {
        let ghost s0 = self.state;
        let mut i: u8 = 0;
        while i < 6
            invariant
                i <= 6,
                forall|b: u8| predicate.requires((b,)),
                self.state & 0b11 == s0 & 0b11,
                forall|k: int| i <= k < 6 ==> self.state & (#[trigger] bit_mask(k)) == s0 & bit_mask(k),
                forall|k: int|
                    0 <= k < i ==> {
                        let m = #[trigger] bit_mask(k);
                        &&& (s0 & m == 0 ==> self.state & m == 0)
                        &&& (s0 & m != 0 && self.state & m != 0 ==> predicate.ensures((m,), true))
                        &&& (s0 & m != 0 && self.state & m == 0 ==> predicate.ensures((m,), false))
                    },
            decreases 6 - i,
        {
            let elem: u8 = 0b1000_0000 >> i;
            let is_currently_set = (self.state & elem) != 0;
            let ghost before = self.state;
            assert(bit_mask(i as int) == elem);
            if is_currently_set {
                let keep = predicate(elem);
                if !keep {
                    self.assign_to_index(i, false);
                    proof {
                        assert forall|k: int| 0 <= k < 6 && k != i as int implies self.state & (
                        #[trigger] bit_mask(k)) == before & bit_mask(k) by {
                            lemma_clear_other_bit(before, i, k as u8);
                        }
                        lemma_clear_own_bit(before, i);
                    }
                }
            }
            i = i + 1;
        }
        proof {
            assert forall|k: int| 0 <= k < 6 implies {
                let m = #[trigger] bit_mask(k);
                &&& (s0 & m == 0 ==> self.state & m == 0)
                &&& (s0 & m != 0 && self.state & m != 0 ==> predicate.ensures((m,), true))
                &&& (s0 & m != 0 && self.state & m == 0 ==> predicate.ensures((m,), false))
            } by {
                assert(bit_mask(k) == bit_mask(k));
            }
        }
    }
}

impl ColorState {
    /// A fresh iteration over the colors of the set: a copy with the cursor
    /// at the start.
    pub fn into_iter(&self) -> (r: ColorState)
        ensures
            r.state == self.state & COLOR_BITS,
            r.cursor() == 0,
            forall|i: int| #![trigger r.has(i)] r.has(i) == self.has(i),
    {
        let st = self.state;
        let r = ColorState { state: st & COLOR_BITS };
        proof {
            assert((st & 0xF8u8) & 7u8 == 0) by (bit_vector);
            assert forall|i: int| #![trigger r.has(i)] r.has(i) == self.has(i) by {
                if 0 <= i < 5 {
                    let j = i as u8;
                    assert(j < 5 ==> ((st & 0xF8u8) & (0x80u8 >> j) != 0) == (st & (0x80u8 >> j)
                        != 0)) by (bit_vector);
                }
            }
        }
        r
    }

    /// Takes the next color of the iteration: the first color of the set at
    /// or after the cursor.
    ///
    /// When there is one, its mask is returned, the color leaves the set and
    /// the cursor moves just past it. Otherwise nothing changes and the
    /// result is `None`.
    pub fn next(&mut self) -> (r: Option<u8>)
        ensures
            ({
                let i = state_first_from(old(self).state, old(self).cursor() as int);
                if i < 5 {
                    &&& r == Some(0x80u8 >> (i as u8))
                    &&& final(self).state == ((old(self).state & !(0x80u8 >> (i as u8)))
                        & COLOR_BITS) | ((i + 1) as u8)
                    &&& final(self).cursor() == i + 1
                    &&& forall|j: int|
                        #![trigger final(self).has(j)]
                        final(self).has(j) == (j != i && old(self).has(j))
                } else {
                    &&& r is None
                    &&& final(self).state == old(self).state
                }
            }),
    {
        let st = self.state;
        let start: u8 = st & CURSOR_BITS;
        let mut current_index: u8 = start;
        assert(st & 7u8 <= 7) by (bit_vector);
        while current_index < 5
            invariant
                st == self.state,
                st == old(self).state,
                start == st & 7u8,
                start <= current_index <= 7,
                state_first_from(st, start as int) == state_first_from(st, current_index as int),
            decreases 5 - current_index,
        {
            if (self.state & (0b1000_0000 >> current_index)) != 0 {
                let ghost i = current_index;
                self.state &= !(0b1000_0000 >> current_index);
                self.state &= COLOR_BITS;
                self.state |= current_index + 1;
                let return_val = 0b1000_0000 >> current_index;
                proof {
                    let t = self.state;
                    assert(t == ((st & !(0x80u8 >> i)) & 0xF8u8) | ((i + 1) as u8));
                    assert(i < 5 ==> (((st & !(0x80u8 >> i)) & 0xF8u8) | ((i + 1) as u8)) & 7u8
                        == i + 1) by (bit_vector);
                    assert forall|j: int| #![trigger self.has(j)] self.has(j) == (j != i && state_has(st, j)) by {
                        if 0 <= j < 5 {
                            let jj = j as u8;
                            assert(i < 5 && jj < 5 ==> ((((st & !(0x80u8 >> i)) & 0xF8u8) | ((i
                                + 1) as u8)) & (0x80u8 >> jj) != 0) == (jj != i && st & (0x80u8
                                >> jj) != 0)) by (bit_vector);
                        }
                    }
                }
                return Some(return_val);
            }
            current_index += 1;
        }
        None
    }
}

/// Counting after one present color is taken out of the set.
pub proof fn lemma_count_remove(s: u8, t: u8, c: int, n: int)
    requires
        0 <= c < 5,
        state_has(s, c),
        forall|i: int| #![trigger state_has(t, i)] state_has(t, i) == (i != c && state_has(s, i)),
    ensures
        state_count(t, n) + (if c < n { 1nat } else { 0nat }) == state_count(s, n),
    decreases n,
{
    if n > 0 {
        lemma_count_remove(s, t, c, n - 1);
        assert(state_has(t, n - 1) == (n - 1 != c && state_has(s, n - 1)));
    }
}

/// Setting or clearing the bit of `index` changes no other color bit.
proof fn lemma_assign_bit(s: u8, index: u8, j: u8)
    requires
        index < 8,
        j < 5,
    ensures
        ((s | (0x80u8 >> index)) & (0x80u8 >> j) != 0) == (j == index || s & (0x80u8 >> j) != 0),
        ((s & !(0x80u8 >> index)) & (0x80u8 >> j) != 0) == (j != index && s & (0x80u8 >> j) != 0),
{
    assert(((s | (0x80u8 >> index)) & (0x80u8 >> j) != 0) == (j == index || s & (0x80u8 >> j)
        != 0)) by (bit_vector)
        requires
            index < 8,
            j < 5,
    ;
    assert(((s & !(0x80u8 >> index)) & (0x80u8 >> j) != 0) == (j != index && s & (0x80u8 >> j)
        != 0)) by (bit_vector)
        requires
            index < 8,
            j < 5,
    ;
}

/// Setting or clearing a color bit leaves the cursor alone.
proof fn lemma_assign_cursor(s: u8, index: u8)
    requires
        index < 8,
    ensures
        index < 5 ==> (s | (0x80u8 >> index)) & 7 == s & 7,
        index < 5 ==> (s & !(0x80u8 >> index)) & 7 == s & 7,
{
    assert(index < 5 ==> (s | (0x80u8 >> index)) & 7 == s & 7) by (bit_vector);
    assert(index < 5 ==> (s & !(0x80u8 >> index)) & 7 == s & 7) by (bit_vector);
}

/// Clearing bit `i` keeps bit `k` for `k != i`.
proof fn lemma_clear_other_bit(s: u8, i: u8, k: u8)
    requires
        i < 6,
        k < 6,
        k != i,
    ensures
        (s & !(0x80u8 >> i)) & (0x80u8 >> k) == s & (0x80u8 >> k),
{
    assert((s & !(0x80u8 >> i)) & (0x80u8 >> k) == s & (0x80u8 >> k)) by (bit_vector)
        requires
            i < 6,
            k < 6,
            k != i,
    ;
}

/// Clearing bit `i` clears it and keeps the two lowest bits.
proof fn lemma_clear_own_bit(s: u8, i: u8)
    requires
        i < 6,
    ensures
        (s & !(0x80u8 >> i)) & (0x80u8 >> i) == 0,
        (s & !(0x80u8 >> i)) & 0b11 == s & 0b11,
{
    assert((s & !(0x80u8 >> i)) & (0x80u8 >> i) == 0) by (bit_vector);
    assert(i < 6 ==> (s & !(0x80u8 >> i)) & 0b11 == s & 0b11) by (bit_vector);
}

/// Adding the mask of `col` to `s` adds exactly the color `col`.
proof fn lemma_union_bit(s: u8, col: Color, i: u8)
    requires
        i < 5,
    ensures
        state_has(s | col.mask(), i as int) == (state_has(s, i as int) || col.idx() == i as int),
{
    let m = col.mask();
    assert(m == 0x80u8 >> (col.idx() as u8)) by {
        assert(0x80u8 >> 0u8 == 0x80u8 && 0x80u8 >> 1u8 == 0x40u8 && 0x80u8 >> 2u8 == 0x20u8
            && 0x80u8 >> 3u8 == 0x10u8 && 0x80u8 >> 4u8 == 0x08u8 && 0x80u8 >> 5u8 == 0x04u8)
            by (bit_vector);
    }
    let c = col.idx() as u8;
    assert(((s | (0x80u8 >> c)) & (0x80u8 >> i) != 0) == (s & (0x80u8 >> i) != 0 || c == i))
        by (bit_vector)
        requires
            c < 6,
            i < 5,
    ;
}

impl Default for ColorState {
    /// The full set, with the cursor at the start.
    fn default() -> (r: ColorState)
        ensures
            r.state == COLOR_BITS,
    {
        ColorState { state: 0b1111_1000 }
    }
}

impl PartialEq for ColorState {
    fn eq(&self, other: &ColorState) -> (r: bool) {
        let self_state_wo_index = self.state & COLOR_BITS;
        let other_state_wo_index = other.state & COLOR_BITS;
        self_state_wo_index == other_state_wo_index
    }
}

impl PartialEqSpecImpl for ColorState {
    open spec fn obeys_eq_spec() -> bool {
        true
    }

    open spec fn eq_spec(&self, other: &ColorState) -> bool {
        self.members() == other.members()
    }
}

} // verus!
