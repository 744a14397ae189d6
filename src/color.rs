use vstd::prelude::*;
use vstd::std_specs::convert::FromSpecImpl;

verus! {

/// The five camels of the race, plus `Absent`, a marker for "no camel".
#[derive(Debug, Clone, Copy, PartialEq, Eq, Hash, Structural)]
pub enum Color {
    Blue,
    Green,
    Orange,
    White,
    Yellow,
    Absent,
}

impl Color {
    /// Index of the color: 0 to 4 for the camels, 5 for `Absent`.
    pub open spec fn idx(self) -> int {
        match self {
            Color::Blue => 0,
            Color::Green => 1,
            Color::Orange => 2,
            Color::White => 3,
            Color::Yellow => 4,
            Color::Absent => 5,
        }
    }

    /// Whether the color names an actual camel.
    pub open spec fn is_camel(self) -> bool {
        self != Color::Absent
    }

    /// The color with a given index; `Absent` for anything outside 0 to 4.
    pub open spec fn of_index(i: int) -> Color {
        if i == 0 {
            Color::Blue
        } else if i == 1 {
            Color::Green
        } else if i == 2 {
            Color::Orange
        } else if i == 3 {
            Color::White
        } else if i == 4 {
            Color::Yellow
        } else {
            Color::Absent
        }
    }

    /// Single-bit mask of the color: bit `7 - index`, most significant first.
    pub open spec fn mask(self) -> u8 {
        match self {
            Color::Blue => 0x80,
            Color::Green => 0x40,
            Color::Orange => 0x20,
            Color::White => 0x10,
            Color::Yellow => 0x08,
            Color::Absent => 0x04,
        }
    }

    /// The color whose mask is `b`, or `Absent` if `b` is no camel's mask.
    pub open spec fn of_mask(b: u8) -> Color {
        if b == 0x80 {
            Color::Blue
        } else if b == 0x40 {
            Color::Green
        } else if b == 0x20 {
            Color::Orange
        } else if b == 0x10 {
            Color::White
        } else if b == 0x08 {
            Color::Yellow
        } else {
            Color::Absent
        }
    }

    /// Distinct colors have distinct indices.
    pub proof fn lemma_idx_injective(self, other: Color)
        ensures
            self.idx() == other.idx() <==> self == other,
            0 <= self.idx() <= 5,
            self.is_camel() <==> self.idx() < 5,
    {
    }

    /// Index of the color as a `usize` (0 to 4 for camels, 5 for `Absent`).
    pub fn index(&self) -> (r: usize)
        ensures
            r as int == self.idx(),
    {
        match self {
            Color::Blue => 0,
            Color::Green => 1,
            Color::Orange => 2,
            Color::White => 3,
            Color::Yellow => 4,
            Color::Absent => 5,
        }
    }

    /// The color with index `i`; `Absent` when `i` is not below 5.
    pub fn from_index(i: usize) -> (r: Color)
        ensures
            r == Color::of_index(i as int),
    {
        match i {
            0 => Color::Blue,
            1 => Color::Green,
            2 => Color::Orange,
            3 => Color::White,
            4 => Color::Yellow,
            _ => Color::Absent,
        }
    }

    /// The single-bit mask of the color, bit `7 - index`.
    pub fn as_byte(&self) -> (r: u8)
        ensures
            r == self.mask(),
            r == 1u8 << (7 - self.idx()) as u8,
    {
        let mask: u8 = 0b0000_0001;
        let index: u8 = self.index() as u8;
        let r = mask << (7 - index);
        assert(r == self.mask()) by {
            assert(1u8 << 7u8 == 0x80u8 && 1u8 << 6u8 == 0x40u8 && 1u8 << 5u8 == 0x20u8
                && 1u8 << 4u8 == 0x10u8 && 1u8 << 3u8 == 0x08u8 && 1u8 << 2u8 == 0x04u8)
                by (bit_vector);
        }
        r
    }

    /// The camel whose mask is `color_code`; `Absent` for any other byte.
    pub fn from_byte(color_code: u8) -> (r: Color)
        ensures
            r == Color::of_mask(color_code),
    {
        match color_code {
            0b1000_0000 => Color::Blue,
            0b0100_0000 => Color::Green,
            0b0010_0000 => Color::Orange,
            0b0001_0000 => Color::White,
            0b0000_1000 => Color::Yellow,
            _ => Color::Absent,
        }
    }

    /// The five camels in index order.
    pub fn all() -> (r: [Color; 5])
        ensures
            forall|i: int| 0 <= i < 5 ==> #[trigger] r[i] == Color::of_index(i),
    {
        [Color::Blue, Color::Green, Color::Orange, Color::White, Color::Yellow]
    }
}

impl From<usize> for Color {
    fn from(value: usize) -> (r: Color) {
        Color::from_index(value)
    }
}

impl FromSpecImpl<usize> for Color {
    open spec fn obeys_from_spec() -> bool {
        true
    }

    open spec fn from_spec(v: usize) -> Color {
        Color::of_index(v as int)
    }
}

impl From<u8> for Color {
    fn from(value: u8) -> (r: Color) {
        Color::from_index(value as usize)
    }
}

impl FromSpecImpl<u8> for Color {
    open spec fn obeys_from_spec() -> bool {
        true
    }

    open spec fn from_spec(v: u8) -> Color {
        Color::of_index(v as int)
    }
}

impl From<Color> for usize {
    fn from(value: Color) -> (r: usize) {
        value.index()
    }
}

impl FromSpecImpl<Color> for usize {
    open spec fn obeys_from_spec() -> bool {
        true
    }

    open spec fn from_spec(v: Color) -> usize {
        v.idx() as usize
    }
}

impl From<Color> for u8 {
    fn from(value: Color) -> (r: u8) {
        value.index() as u8
    }
}

impl FromSpecImpl<Color> for u8 {
    open spec fn obeys_from_spec() -> bool {
        true
    }

    open spec fn from_spec(v: Color) -> u8 {
        v.idx() as u8
    }
}

} // verus!
