use vstd::prelude::*;
use crate::camel_map::{CamelMap, EffectCard, on_board};
use crate::color::Color;
use crate::color_state::ColorState;
use crate::configuration::Configuration;

verus! {

/// The camels as a game front end shows them, in the front end's order.
#[derive(Debug, PartialEq, Eq, Clone, Copy, Structural)]
pub enum CamelColor {
    Blue,
    Green,
    Yellow,
    Orange,
    White,
}

impl CamelColor {
    /// Position of the camel in the front end's order.
    pub open spec fn idx(self) -> int {
        match self {
            CamelColor::Blue => 0,
            CamelColor::Green => 1,
            CamelColor::Yellow => 2,
            CamelColor::Orange => 3,
            CamelColor::White => 4,
        }
    }

    /// The camel at a position of the front end's order.
    pub open spec fn of_index(i: int) -> CamelColor {
        if i == 0 {
            CamelColor::Blue
        } else if i == 1 {
            CamelColor::Green
        } else if i == 2 {
            CamelColor::Yellow
        } else if i == 3 {
            CamelColor::Orange
        } else {
            CamelColor::White
        }
    }

    /// The same camel as a race color.
    pub open spec fn color(self) -> Color {
        match self {
            CamelColor::Blue => Color::Blue,
            CamelColor::Green => Color::Green,
            CamelColor::Yellow => Color::Yellow,
            CamelColor::Orange => Color::Orange,
            CamelColor::White => Color::White,
        }
    }

    /// Distinct camels are distinct race colors.
    pub proof fn lemma_color_injective(self, other: CamelColor)
        ensures
            self.color() == other.color() <==> self == other,
            self.idx() == other.idx() <==> self == other,
    {
    }

    /// Position of the camel in the front end's order.
    pub fn index(&self) -> (r: usize)
        ensures
            r as int == self.idx(),
    {
        match self {
            CamelColor::Blue => 0,
            CamelColor::Green => 1,
            CamelColor::Yellow => 2,
            CamelColor::Orange => 3,
            CamelColor::White => 4,
        }
    }

    /// The camel at position `i` (below 5) of the front end's order.
    pub fn from_index(i: usize) -> (r: CamelColor)
        requires
            i < 5,
        ensures
            r == CamelColor::of_index(i as int),
            r.idx() == i,
    {
        match i {
            0 => CamelColor::Blue,
            1 => CamelColor::Green,
            2 => CamelColor::Yellow,
            3 => CamelColor::Orange,
            _ => CamelColor::White,
        }
    }

    /// The same camel as a race color.
    pub fn race_color(&self) -> (r: Color)
        ensures
            r == self.color(),
            r.is_camel(),
    {
        match self {
            CamelColor::Blue => Color::Blue,
            CamelColor::Green => Color::Green,
            CamelColor::Yellow => Color::Yellow,
            CamelColor::Orange => Color::Orange,
            CamelColor::White => Color::White,
        }
    }

    /// The five camels in the front end's order.
    pub fn all() -> (r: [CamelColor; 5])
        ensures
            forall|i: int| 0 <= i < 5 ==> #[trigger] r[i] == CamelColor::of_index(i),
    {
        [CamelColor::Blue, CamelColor::Green, CamelColor::Yellow, CamelColor::Orange, CamelColor::White]
    }

    /// Position of the camel whose hot key is `c`: `b`, `g`, `y`, `o`, `w`.
    pub fn from_char_to_usize(c: char) -> (r: usize)
        requires
            c == 'b' || c == 'g' || c == 'y' || c == 'o' || c == 'w',
        ensures
            r == if c == 'b' {
                0usize
            } else if c == 'g' {
                1usize
            } else if c == 'y' {
                2usize
            } else if c == 'o' {
                3usize
            } else {
                4usize
            },
    {
        match c {
            'b' => 0,
            'g' => 1,
            'y' => 2,
            'o' => 3,
            _ => 4,
        }
    }
}

/// What the front end tracks of one camel during a round.
#[derive(Debug, Clone, Copy)]
pub struct CamelState {
    pub camel_color: CamelColor,
    /// Field at the start of the round.
    pub start_pos: u8,
    /// Fields gained so far in the round.
    pub pos_round_add: i32,
    pub selected: bool,
    /// Whether the camel's die has been rolled this round.
    pub has_moved: bool,
}

impl CamelState {
    /// A camel at field 0 that has not moved.
    pub fn new(camel_color: CamelColor) -> (r: CamelState)
        ensures
            r.camel_color == camel_color,
            r.start_pos == 0,
            r.pos_round_add == 0,
            !r.selected,
            !r.has_moved,
    {
        CamelState {
            camel_color,
            start_pos: 0,
            pos_round_add: 0,
            selected: false,
            has_moved: false,
        }
    }
}

/// One field of the board as shown: its stack (bottom first), its position
/// in the drawing, its number on the track, and whether it is selected.
#[derive(Debug, Default)]
pub struct CamelField {
    pub camels: Vec<CamelColor>,
    pub board_index: usize,
    pub index: usize,
    pub selected: bool,
}

impl CamelField {
    fn new(camels: Vec<CamelColor>, index: usize, board_index: usize) -> (r: CamelField)
        ensures
            r.camels@ == camels@,
            r.index == index,
            r.board_index == board_index,
            !r.selected,
    {
        CamelField { camels, board_index, index, selected: false }
    }
}

/// Sixteen empty, unselected fields; field `i` is drawn at position `i`
/// and numbered `(i + shift) % 16`.
fn empty_fields(shift: usize) -> (r: [CamelField; 16])
    requires
        shift < 16,
    ensures
        forall|f: int|
            0 <= f < 16 ==> (#[trigger] r[f]).camels@.len() == 0 && !r[f].selected && r[f].index
                == f && r[f].board_index == (f + shift) % 16,
{
    [
        CamelField::new(Vec::new(), 0, shift % 16),
        CamelField::new(Vec::new(), 1, (1 + shift) % 16),
        CamelField::new(Vec::new(), 2, (2 + shift) % 16),
        CamelField::new(Vec::new(), 3, (3 + shift) % 16),
        CamelField::new(Vec::new(), 4, (4 + shift) % 16),
        CamelField::new(Vec::new(), 5, (5 + shift) % 16),
        CamelField::new(Vec::new(), 6, (6 + shift) % 16),
        CamelField::new(Vec::new(), 7, (7 + shift) % 16),
        CamelField::new(Vec::new(), 8, (8 + shift) % 16),
        CamelField::new(Vec::new(), 9, (9 + shift) % 16),
        CamelField::new(Vec::new(), 10, (10 + shift) % 16),
        CamelField::new(Vec::new(), 11, (11 + shift) % 16),
        CamelField::new(Vec::new(), 12, (12 + shift) % 16),
        CamelField::new(Vec::new(), 13, (13 + shift) % 16),
        CamelField::new(Vec::new(), 14, (14 + shift) % 16),
        CamelField::new(Vec::new(), 15, (15 + shift) % 16),
    ]
}

/// Selection of a panel: focused or not, and the selected entry.
#[derive(Debug, Clone, Copy, PartialEq, Eq, Structural)]
pub enum State {
    Focused(usize),
    Unfocused(usize),
}

impl State {
    /// The selected entry.
    pub open spec fn entry(self) -> usize {
        match self {
            State::Focused(i) => i,
            State::Unfocused(i) => i,
        }
    }
}

/// Index `i + by`, wrapping to `last` below 0 and to 0 above `last`.
pub open spec fn wrap(i: int, by: int, last: int) -> int {
    if i + by < 0 {
        last
    } else if i + by > last {
        0
    } else {
        i + by
    }
}

/// The board panel: sixteen fields and the selection among them.
#[derive(Debug)]
pub struct GameField {
    pub fields: [CamelField; 16],
    pub selected: State,
}

impl GameField {
    /// Whether the selection is on a field and the fields flag it alone.
    pub open spec fn wf(&self) -> bool {
        &&& self.selected.entry() < 16
        &&& forall|f: int|
            0 <= f < 16 ==> (#[trigger] self.fields[f]).selected == (self.selected is Focused
                && f == self.selected.entry())
    }

    /// An unfocused panel of empty fields with the first one selected; the
    /// panel starts drawing at track field 14.
    pub fn new() -> (r: GameField)
        ensures
            r.wf(),
            r.selected == State::Unfocused(0),
            forall|f: int| 0 <= f < 16 ==> (#[trigger] r.fields[f]).camels@.len() == 0,
    {
        let fields = empty_fields(14);
        GameField { fields, selected: State::Unfocused(0) }
    }

    /// Focuses the panel; the selected field shows as selected.
    pub fn focus(&mut self)
        requires
            old(self).wf(),
            old(self).selected is Unfocused,
        ensures
            final(self).wf(),
            final(self).selected == State::Focused(old(self).selected.entry()),
            forall|f: int|
                0 <= f < 16 ==> (#[trigger] final(self).fields[f]).camels == old(self).fields[f].camels,
    {
        if let State::Unfocused(curr) = self.selected {
            self.selected = State::Focused(curr);
            self.fields[curr].selected = true;
        }
    }

    /// Unfocuses the panel; no field shows as selected.
    pub fn unfocus(&mut self)
        requires
            old(self).wf(),
            old(self).selected is Focused,
        ensures
            final(self).wf(),
            final(self).selected == State::Unfocused(old(self).selected.entry()),
            forall|f: int|
                0 <= f < 16 ==> (#[trigger] final(self).fields[f]).camels == old(self).fields[f].camels,
    {
        if let State::Focused(curr) = self.selected {
            self.selected = State::Unfocused(curr);
            self.fields[curr].selected = false;
        }
    }

    /// Selects field `new_selection_idx` when the panel is focused.
    pub fn change_selection(&mut self, new_selection_idx: usize)
        requires
            old(self).wf(),
            new_selection_idx < 16,
        ensures
            final(self).wf(),
            final(self).selected == match old(self).selected {
                State::Focused(_) => State::Focused(new_selection_idx),
                State::Unfocused(i) => State::Unfocused(i),
            },
            forall|f: int|
                0 <= f < 16 ==> (#[trigger] final(self).fields[f]).camels == old(self).fields[f].camels,
    {
        if let State::Focused(old_idx) = self.selected {
            self.fields[old_idx].selected = false;
            self.selected = State::Focused(new_selection_idx);
            self.fields[new_selection_idx].selected = true;
        }
    }

    /// Moves the selection by `new_selection_idx_rel` fields, wrapping around
    /// the track, when the panel is focused.
    pub fn change_selection_rel(&mut self, new_selection_idx_rel: i32)
        requires
            old(self).wf(),
        ensures
            final(self).wf(),
            final(self).selected == match old(self).selected {
                State::Focused(i) => State::Focused(
                    wrap(i as int, new_selection_idx_rel as int, 15) as usize,
                ),
                State::Unfocused(i) => State::Unfocused(i),
            },
            forall|f: int|
                0 <= f < 16 ==> (#[trigger] final(self).fields[f]).camels == old(self).fields[f].camels,
    {
        if let State::Focused(old_idx) = self.selected {
            let sum = old_idx as i64 + new_selection_idx_rel as i64;
            let new_selection_idx: usize = if sum < 0 {
                15
            } else if sum >= 16 {
                0
            } else {
                sum as usize
            };
            self.fields[old_idx].selected = false;
            self.selected = State::Focused(new_selection_idx);
            self.fields[new_selection_idx].selected = true;
        }
    }
}

/// The camel panel: one entry per camel, and how many dice were rolled.
#[derive(Debug)]
pub struct CamelStateField {
    pub selected: State,
    pub rolled_dice: u8,
    pub camels: [CamelState; 5],
}

impl CamelStateField {
    /// A focused panel with the first camel selected and no die rolled.
    pub fn new() -> (r: CamelStateField)
        ensures
            r.selected == State::Focused(0),
            r.rolled_dice == 0,
            forall|i: int|
                0 <= i < 5 ==> (#[trigger] r.camels[i]).camel_color == CamelColor::of_index(i)
                    && r.camels[i].selected == (i == 0) && !r.camels[i].has_moved,
    {
        let mut camels: [CamelState; 5] = [
            CamelState::new(CamelColor::Blue),
            CamelState::new(CamelColor::Green),
            CamelState::new(CamelColor::Yellow),
            CamelState::new(CamelColor::Orange),
            CamelState::new(CamelColor::White),
        ];
        camels[0].selected = true;
        CamelStateField { selected: State::Focused(0), rolled_dice: 0, camels }
    }
}

/// Why a move on the front end's board was refused.
#[derive(Debug, Clone, Copy, PartialEq, Eq, Structural)]
pub enum MoveError {
    /// The target is off the board, behind the camel, more than three
    /// fields ahead or its own field, or the camel already moved.
    InvalidMove,
    /// The camel is not on the board.
    InvalidConfiguration,
}

/// Height of the first `c` at or above height `k` of stack `s`, or -1.
pub open spec fn find_in(s: Seq<CamelColor>, c: CamelColor, k: int) -> int
    decreases s.len() - k,
{
    if k < 0 || k >= s.len() {
        -1
    } else if s[k] == c {
        k
    } else {
        find_in(s, c, k + 1)
    }
}

/// Field and height of the first `c` on the board from field `f` on, or
/// (-1, -1).
pub open spec fn find_on(board: Seq<Seq<CamelColor>>, c: CamelColor, f: int) -> (int, int)
    decreases 16 - f,
{
    if f < 0 || f >= 16 {
        (-1, -1)
    } else if find_in(board[f], c, 0) >= 0 {
        (f, find_in(board[f], c, 0))
    } else {
        find_on(board, c, f + 1)
    }
}

/// Whether no camel appears twice on the board.
pub open spec fn board_distinct(board: Seq<Seq<CamelColor>>) -> bool {
    forall|f1: int, i1: int, f2: int, i2: int|
        0 <= f1 < board.len() && 0 <= i1 < board[f1].len() && 0 <= f2 < board.len() && 0 <= i2
            < board[f2].len() && #[trigger] board[f1][i1] == #[trigger] board[f2][i2] ==> f1 == f2
            && i1 == i2
}

/// Board after placing each (field, camel) pair on top of its field.
pub open spec fn board_of(p: Seq<(u8, CamelColor)>) -> Seq<Seq<CamelColor>>
    decreases p.len(),
{
    if p.len() == 0 {
        Seq::new(16, |f: int| Seq::<CamelColor>::empty())
    } else {
        let prev = board_of(p.drop_last());
        prev.update(p.last().0 as int, prev[p.last().0 as int].push(p.last().1))
    }
}

/// Field of the last placement of the camel at position `i`, or 0.
pub open spec fn start_of(p: Seq<(u8, CamelColor)>, i: int) -> u8
    decreases p.len(),
{
    if p.len() == 0 {
        0
    } else if p.last().1.idx() == i {
        p.last().0
    } else {
        start_of(p.drop_last(), i)
    }
}

impl Default for GameState {
    fn default() -> (r: GameState)
        ensures
            r.wf(),
            r.selected_color == 0,
            r.selected_field == 0,
            forall|f: int| 0 <= f < 16 ==> (#[trigger] r.board()[f]).len() == 0,
    {
        GameState::empty()
    }
}

/// Whether two fields agree on everything but their stacks.
pub open spec fn same_frame(a: CamelField, b: CamelField) -> bool {
    a.selected == b.selected && a.index == b.index && a.board_index == b.board_index
}

/// Whether two camel entries agree on everything but the round gain and
/// the moved flag.
pub open spec fn same_identity(a: CamelState, b: CamelState) -> bool {
    a.camel_color == b.camel_color && a.start_pos == b.start_pos && a.selected == b.selected
}

/// The front end's view of a round: the board, the selections, what each
/// camel did this round, and how many dice were rolled.
#[derive(Debug)]
pub struct GameState {
    pub fields: [CamelField; 16],
    pub selected_color: usize,
    pub selected_field: usize,
    pub camel_round_info: [CamelState; 5],
    pub rolled_dice: usize,
}

impl GameState {
    /// The stacks of the board, bottom first.
    pub open spec fn board(&self) -> Seq<Seq<CamelColor>> {
        Seq::new(16, |f: int| self.fields[f].camels@)
    }

    /// Whether the selections point at a camel and at a field.
    pub open spec fn wf(&self) -> bool {
        self.selected_color < 5 && self.selected_field < 16
    }

    /// An empty board with nothing selected and no camel moved.
    pub fn empty() -> (r: GameState)
        ensures
            r.wf(),
            r.selected_color == 0,
            r.selected_field == 0,
            r.rolled_dice == 0,
            forall|f: int| 0 <= f < 16 ==> (#[trigger] r.board()[f]).len() == 0,
            forall|f: int| 0 <= f < 16 ==> !(#[trigger] r.fields[f]).selected,
            forall|i: int|
                0 <= i < 5 ==> (#[trigger] r.camel_round_info[i]).camel_color == CamelColor::of_index(i)
                    && r.camel_round_info[i].start_pos == 0 && r.camel_round_info[i].pos_round_add
                    == 0 && !r.camel_round_info[i].selected && !r.camel_round_info[i].has_moved,
    {
        GameState {
            fields: empty_fields(0),
            selected_color: 0,
            selected_field: 0,
            camel_round_info: [
                CamelState::new(CamelColor::Blue),
                CamelState::new(CamelColor::Green),
                CamelState::new(CamelColor::Yellow),
                CamelState::new(CamelColor::Orange),
                CamelState::new(CamelColor::White),
            ],
            rolled_dice: 0,
        }
    }

    /// Counts one more rolled die.
    pub fn add_dice_rolled(&mut self)
        requires
            old(self).rolled_dice < usize::MAX,
        ensures
            final(self).rolled_dice == old(self).rolled_dice + 1,
            final(self).board() == old(self).board(),
            final(self).camel_round_info == old(self).camel_round_info,
            final(self).selected_color == old(self).selected_color,
            final(self).selected_field == old(self).selected_field,
    {
        self.rolled_dice += 1;
        proof {
            assert(self.board() =~= old(self).board());
        }
    }

    /// The starting view: each (field, camel) pair stacked in list order,
    /// the first field and the first camel selected, and each camel's start
    /// field recorded.
    pub fn init(config: &Vec<(u8, CamelColor)>) -> (r: GameState)
        requires
            forall|k: int| 0 <= k < config@.len() ==> (#[trigger] config@[k]).0 < 16,
        ensures
            r.wf(),
            r.selected_color == 0,
            r.selected_field == 0,
            r.board() == board_of(config@),
            r.rolled_dice == 0,
            r.fields[0].selected,
            r.camel_round_info[0].selected,
            forall|i: int| 0 <= i < 5 ==> (#[trigger] r.camel_round_info[i]).start_pos == start_of(config@, i),
            forall|i: int| 0 <= i < 5 ==> !(#[trigger] r.camel_round_info[i]).has_moved,
    {
        let mut init = GameState::empty();
        let ghost b0 = init.board();
        init.fields[init.selected_field].selected = true;
        init.camel_round_info[init.selected_color].selected = true;
        proof {
            let e = board_of(config@.subrange(0, 0));
            assert forall|f: int| 0 <= f < 16 implies #[trigger] init.board()[f] == e[f] by {
                assert(init.fields[f].camels@ == b0[f]);
                assert(b0[f].len() == 0);
                assert(init.board()[f] =~= e[f]);
            }
            assert(init.board() =~= e);
        }
        let mut k: usize = 0;
        while k < config.len()
            invariant
                k <= config@.len(),
                forall|q: int| 0 <= q < config@.len() ==> (#[trigger] config@[q]).0 < 16,
                init.wf(),
                init.selected_color == 0,
                init.selected_field == 0,
                init.rolled_dice == 0,
                init.fields[0].selected,
                init.camel_round_info[0].selected,
                init.board() == board_of(config@.subrange(0, k as int)),
                forall|i: int|
                    0 <= i < 5 ==> (#[trigger] init.camel_round_info[i]).start_pos == start_of(
                        config@.subrange(0, k as int),
                        i,
                    ),
                forall|i: int| 0 <= i < 5 ==> !(#[trigger] init.camel_round_info[i]).has_moved,
            decreases config@.len() - k,
        {
            let (i, col) = config[k];
            let ghost b0 = init.board();
            init.fields[i as usize].camels.push(col);
            init.camel_round_info[col.index()].start_pos = i;
            proof {
                let pre = config@.subrange(0, k as int);
                let next = config@.subrange(0, k as int + 1);
                assert(next.drop_last() =~= pre);
                assert(next.last() == (i, col));
                assert forall|f: int| 0 <= f < 16 implies #[trigger] init.board()[f] == board_of(next)[f] by {
                    if f != i as int {
                        assert(init.fields[f].camels@ == b0[f]);
                    }
                }
                assert(init.board() =~= board_of(next));
            }
            k = k + 1;
        }
        assert(config@.subrange(0, config@.len() as int) =~= config@);
        init
    }

    /// Moves `camel`, with every camel on top of it, to field `to_field` on
    /// top of the stack there, and marks it as moved.
    ///
    /// Refused with `InvalidMove` when `to_field` is off the board, when the
    /// camel already moved this round, and when the target is behind it, its
    /// own field or more than three fields ahead; with
    /// `InvalidConfiguration` when the camel is not on the board.
    pub fn move_camel(&mut self, camel: CamelColor, to_field: usize) -> (r: Result<(), MoveError>)
        ensures
            ({
                let (old_pos, h) = find_on(old(self).board(), camel, 0);
                let b = old(self).board();
                if to_field >= 16 || old(self).camel_round_info[camel.idx()].has_moved {
                    &&& r == Err::<(), MoveError>(MoveError::InvalidMove)
                    &&& final(self).board() == b
                    &&& final(self).camel_round_info == old(self).camel_round_info
                } else if old_pos < 0 {
                    &&& r == Err::<(), MoveError>(MoveError::InvalidConfiguration)
                    &&& final(self).board() == b
                    &&& final(self).camel_round_info == old(self).camel_round_info
                } else if old_pos > to_field || to_field - old_pos > 3 || old_pos == to_field {
                    &&& r == Err::<(), MoveError>(MoveError::InvalidMove)
                    &&& final(self).board() == b
                    &&& final(self).camel_round_info == old(self).camel_round_info
                } else {
                    let moving = b[old_pos].subrange(h, b[old_pos].len() as int);
                    &&& r == Ok::<(), MoveError>(())
                    &&& final(self).board() == b.update(old_pos, b[old_pos].subrange(0, h)).update(
                        to_field as int,
                        b[to_field as int] + moving,
                    )
                    &&& final(self).camel_round_info[camel.idx()].has_moved
                    &&& forall|i: int|
                        0 <= i < 5 ==> (#[trigger] final(self).camel_round_info[i]).pos_round_add == if exists|
                            l: int,
                        | 0 <= l < moving.len() && (#[trigger] moving[l]).idx() == i {
                            (to_field - old_pos) as i32
                        } else {
                            old(self).camel_round_info[i].pos_round_add
                        }
                }
            }),
            final(self).selected_color == old(self).selected_color,
            final(self).selected_field == old(self).selected_field,
            final(self).rolled_dice == old(self).rolled_dice,
            forall|f: int| 0 <= f < 16 ==> same_frame(#[trigger] final(self).fields[f], old(self).fields[f]),
            forall|i: int|
                0 <= i < 5 ==> same_identity(
                    #[trigger] final(self).camel_round_info[i],
                    old(self).camel_round_info[i],
                ),
            forall|i: int|
                0 <= i < 5 && i != camel.idx() ==> (#[trigger] final(self).camel_round_info[i]).has_moved
                    == old(self).camel_round_info[i].has_moved,
    {
        let ghost b = self.board();
        if to_field >= 16 {
            return Err(MoveError::InvalidMove);
        }
        if self.camel_round_info[camel.index()].has_moved {
            return Err(MoveError::InvalidMove);
        }
        let found = self.find_camel(camel);
        let (old_pos, camel_index) = match found {
            None => {
                return Err(MoveError::InvalidConfiguration);
            },
            Some(p) => p,
        };
        if old_pos > to_field || to_field - old_pos > 3 {
            return Err(MoveError::InvalidMove);
        }
        if old_pos == to_field {
            return Err(MoveError::InvalidMove);
        }
        self.camel_round_info[camel.index()].has_moved = true;
        let mut moving_camels = self.fields[old_pos].camels.split_off(camel_index);
        assert forall|f: int| 0 <= f < 16 implies same_frame(#[trigger] self.fields[f], old(self).fields[f]) by {}
        let ghost moving = moving_camels@;
        assert(moving == b[old_pos as int].subrange(camel_index as int, b[old_pos as int].len() as int));
        let ghost fields1 = self.board();
        assert forall|f: int| 0 <= f < 16 implies #[trigger] fields1[f] == if f == old_pos as int {
            b[old_pos as int].subrange(0, camel_index as int)
        } else {
            b[f]
        } by {
            if f != old_pos as int {
                assert(self.fields[f].camels@ == old(self).fields[f].camels@);
            }
        }
        let ghost info0 = self.camel_round_info;
        let mut k: usize = 0;
        while k < moving_camels.len()
            invariant
                k <= moving.len(),
                moving_camels@ == moving,
                self.board() == fields1,
                self.selected_color == old(self).selected_color,
                self.selected_field == old(self).selected_field,
                self.rolled_dice == old(self).rolled_dice,
                old_pos < to_field < 16,
                to_field - old_pos <= 3,
                forall|i: int|
                    0 <= i < 5 ==> (#[trigger] self.camel_round_info[i]).has_moved == info0[i].has_moved,
                forall|i: int| 0 <= i < 5 ==> same_identity(#[trigger] self.camel_round_info[i], info0[i]),
                forall|f: int| 0 <= f < 16 ==> same_frame(#[trigger] self.fields[f], old(self).fields[f]),
                forall|i: int|
                    0 <= i < 5 ==> (#[trigger] self.camel_round_info[i]).pos_round_add == if exists|
                        l: int,
                    | 0 <= l < k && (#[trigger] moving[l]).idx() == i {
                        (to_field - old_pos) as i32
                    } else {
                        info0[i].pos_round_add
                    },
            decreases moving.len() - k,
        {
            let cam = moving_camels[k];
            self.camel_round_info[cam.index()].pos_round_add = (to_field - old_pos) as i32;
            k = k + 1;
            proof {
                assert(self.board() =~= fields1);
                assert forall|i: int| 0 <= i < 5 implies (#[trigger] self.camel_round_info[i]).pos_round_add
                    == if exists|l: int| 0 <= l < k && (#[trigger] moving[l]).idx() == i {
                    (to_field - old_pos) as i32
                } else {
                    info0[i].pos_round_add
                } by {
                    if cam.idx() == i {
                        assert(moving[k - 1].idx() == i);
                    } else if exists|l: int| 0 <= l < k && (#[trigger] moving[l]).idx() == i {
                        let l = choose|l: int| 0 <= l < k && (#[trigger] moving[l]).idx() == i;
                        assert(l < k - 1);
                    }
                }
            }
        }
        let ghost fb = self.board();
        self.fields[to_field].camels.append(&mut moving_camels);
        proof {
            assert forall|f: int| 0 <= f < 16 implies same_frame(#[trigger] self.fields[f], old(self).fields[f]) by {}
            assert forall|f: int| 0 <= f < 16 && f != to_field as int implies self.fields[f].camels@ == fb[f] by {}
            assert(self.fields[to_field as int].camels@ == fb[to_field as int] + moving);
            let nb = b.update(old_pos as int, b[old_pos as int].subrange(0, camel_index as int)).update(
                to_field as int,
                b[to_field as int] + moving,
            );
            assert forall|f: int| 0 <= f < 16 implies #[trigger] self.board()[f] == nb[f] by {
                if f != to_field as int {
                    assert(self.fields[f].camels@ == fields1[f]);
                }
            }
            assert(self.board() =~= nb);
        }
        Ok(())
    }

    /// Field and height of the first `camel` on the board.
    fn find_camel(&self, camel: CamelColor) -> (r: Option<(usize, usize)>)
        ensures
            r is None ==> find_on(self.board(), camel, 0).0 < 0,
            r is Some ==> find_on(self.board(), camel, 0) == (r->Some_0.0 as int, r->Some_0.1 as int),
            r is Some ==> r->Some_0.0 < 16,
            r is Some ==> r->Some_0.1 < self.board()[r->Some_0.0 as int].len(),
    {
        let mut f: usize = 0;
        while f < 16
            invariant
                f <= 16,
                find_on(self.board(), camel, 0) == find_on(self.board(), camel, f as int),
            decreases 16 - f,
        {
            let stack = &self.fields[f].camels;
            assert(stack@ == self.board()[f as int]);
            let mut h: usize = 0;
            while h < stack.len()
                invariant
                    h <= stack@.len(),
                    f < 16,
                    stack@ == self.board()[f as int],
                    find_on(self.board(), camel, 0) == find_on(self.board(), camel, f as int),
                    find_in(stack@, camel, 0) == find_in(stack@, camel, h as int),
                decreases stack@.len() - h,
            {
                if stack[h] == camel {
                    assert(find_in(stack@, camel, h as int) == h as int);
                    assert(find_on(self.board(), camel, f as int) == (f as int, h as int));
                    return Some((f, h));
                }
                h = h + 1;
            }
            assert(find_in(stack@, camel, h as int) == -1);
            assert(find_on(self.board(), camel, f as int) == find_on(self.board(), camel, f as int + 1));
            f = f + 1;
        }
        None
    }

    /// Moves the field selection by `by`, wrapping around the track, and
    /// adds `by` to the round gain of the selected camel and of every camel
    /// on top of it.
    pub fn move_selected_field_rel(&mut self, by: i32)
        requires
            old(self).wf(),
            board_distinct(old(self).board()),
            find_on(old(self).board(), CamelColor::of_index(old(self).selected_color as int), 0).0
                >= 0,
            forall|i: int|
                0 <= i < 5 ==> i32::MIN <= (#[trigger] old(self).camel_round_info[i]).pos_round_add
                    + by <= i32::MAX,
        ensures
            final(self).wf(),
            final(self).selected_field == wrap(old(self).selected_field as int, by as int, 15),
            final(self).selected_color == old(self).selected_color,
            final(self).board() == old(self).board(),
            !final(self).fields[old(self).selected_field as int].selected || final(self).selected_field
                == old(self).selected_field,
            final(self).fields[final(self).selected_field as int].selected,
            forall|f: int|
                0 <= f < 16 && f != old(self).selected_field && f != final(self).selected_field
                    ==> same_frame(#[trigger] final(self).fields[f], old(self).fields[f]),
            forall|i: int|
                0 <= i < 5 ==> same_identity(
                    #[trigger] final(self).camel_round_info[i],
                    old(self).camel_round_info[i],
                ) && final(self).camel_round_info[i].has_moved == old(self).camel_round_info[i].has_moved,
            final(self).rolled_dice == old(self).rolled_dice,
            ({
                let b = old(self).board();
                let (f, h) = find_on(b, CamelColor::of_index(old(self).selected_color as int), 0);
                let above = b[f].subrange(h, b[f].len() as int);
                forall|i: int|
                    0 <= i < 5 ==> (#[trigger] final(self).camel_round_info[i]).pos_round_add == if exists|
                        l: int,
                    | 0 <= l < above.len() && (#[trigger] above[l]).idx() == i {
                        (old(self).camel_round_info[i].pos_round_add + by) as i32
                    } else {
                        old(self).camel_round_info[i].pos_round_add
                    }
            }),
    {
        let ghost b = self.board();
        let camel = CamelColor::from_index(self.selected_color);
        let old_idx = self.selected_field;
        let sum = old_idx as i64 + by as i64;
        let new_selection_idx: usize = if sum < 0 {
            15
        } else if sum >= 16 {
            0
        } else {
            sum as usize
        };
        self.selected_field = new_selection_idx;
        self.fields[old_idx].selected = false;
        self.fields[new_selection_idx].selected = true;
        assert(self.board() =~= b);
        let ghost fr = self.fields;
        assert forall|f: int|
            0 <= f < 16 && f != old_idx && f != new_selection_idx implies same_frame(
            #[trigger] fr[f],
            old(self).fields[f],
        ) by {}
        let (old_pos, camel_index) = match self.find_camel(camel) {
            Some(p) => p,
            None => {
                return;
            },
        };
        let ghost above = b[old_pos as int].subrange(camel_index as int, b[old_pos as int].len() as int);
        let ghost info0 = self.camel_round_info;
        let mut k: usize = camel_index;
        while k < self.fields[old_pos].camels.len()
            invariant
                camel_index <= k <= b[old_pos as int].len(),
                old_pos < 16,
                board_distinct(b),
                above == b[old_pos as int].subrange(camel_index as int, b[old_pos as int].len() as int),
                self.board() == b,
                self.wf(),
                self.selected_field == new_selection_idx,
                self.selected_color == old(self).selected_color,
                self.fields[new_selection_idx as int].selected,
                !self.fields[old_idx as int].selected || new_selection_idx == old_idx,
                self.fields == fr,
                self.rolled_dice == old(self).rolled_dice,
                info0 == old(self).camel_round_info,
                forall|i: int|
                    0 <= i < 5 ==> same_identity(#[trigger] self.camel_round_info[i], info0[i])
                        && self.camel_round_info[i].has_moved == info0[i].has_moved,
                forall|i: int|
                    0 <= i < 5 ==> i32::MIN <= (#[trigger] info0[i]).pos_round_add + by <= i32::MAX,
                forall|i: int|
                    0 <= i < 5 ==> (#[trigger] self.camel_round_info[i]).pos_round_add == if exists|
                        l: int,
                    | 0 <= l < k - camel_index && (#[trigger] above[l]).idx() == i {
                        (info0[i].pos_round_add + by) as i32
                    } else {
                        info0[i].pos_round_add
                    },
            decreases b[old_pos as int].len() - k,
        {
            assert(self.fields[old_pos as int].camels@ == b[old_pos as int]);
            let cam = self.fields[old_pos].camels[k];
            assert(cam == above[k - camel_index]);
            let ci = cam.index();
            proof {
                if exists|l: int| 0 <= l < k - camel_index && (#[trigger] above[l]).idx() == ci {
                    let l = choose|l: int| 0 <= l < k - camel_index && (#[trigger] above[l]).idx() == ci;
                    assert(above[l] == b[old_pos as int][camel_index + l]);
                    assert(above[l] == cam);
                    assert(b[old_pos as int][camel_index + l] == b[old_pos as int][k as int]);
                }
            }
            self.camel_round_info[ci].pos_round_add = self.camel_round_info[ci].pos_round_add + by;
            k = k + 1;
        }
        proof {
            assert(k - camel_index == above.len());
        }
    }

    /// Selects camel `new_color`, and forgets the round gains shown for
    /// camels that have not moved yet.
    pub fn move_selected_color(&mut self, new_color: usize)
        requires
            old(self).wf(),
            new_color < 5,
        ensures
            final(self).wf(),
            final(self).selected_color == new_color,
            final(self).selected_field == old(self).selected_field,
            final(self).board() == old(self).board(),
            forall|f: int| 0 <= f < 16 ==> same_frame(#[trigger] final(self).fields[f], old(self).fields[f]),
            final(self).rolled_dice == old(self).rolled_dice,
            forall|i: int|
                0 <= i < 5 ==> {
                    let a = #[trigger] final(self).camel_round_info[i];
                    let b = old(self).camel_round_info[i];
                    &&& a.selected == if i == new_color {
                        true
                    } else if i == old(self).selected_color {
                        false
                    } else {
                        b.selected
                    }
                    &&& a.pos_round_add == if b.has_moved {
                        b.pos_round_add
                    } else {
                        0
                    }
                    &&& a.has_moved == b.has_moved
                    &&& a.start_pos == b.start_pos
                    &&& a.camel_color == b.camel_color
                },
    {
        let ghost b = self.board();
        let old_color = self.selected_color;
        self.camel_round_info[old_color].selected = false;
        let ghost info1 = self.camel_round_info;
        let ghost fields0 = self.fields;
        let mut k: usize = 0;
        while k < 5
            invariant
                k <= 5,
                self.fields == fields0,
                self.rolled_dice == old(self).rolled_dice,
                self.selected_field == old(self).selected_field,
                self.selected_color == old(self).selected_color,
                old(self).wf(),
                new_color < 5,
                forall|i: int|
                    0 <= i < 5 ==> {
                        let a = #[trigger] self.camel_round_info[i];
                        let c = info1[i];
                        &&& a.selected == c.selected
                        &&& a.pos_round_add == if i < k && !c.has_moved {
                            0
                        } else {
                            c.pos_round_add
                        }
                        &&& a.has_moved == c.has_moved
                        &&& a.start_pos == c.start_pos
                        &&& a.camel_color == c.camel_color
                    },
            decreases 5 - k,
        {
            if !self.camel_round_info[k].has_moved {
                self.camel_round_info[k].pos_round_add = 0;
            }
            k = k + 1;
        }
        self.camel_round_info[new_color].selected = true;
        self.selected_color = new_color;
        proof {
            assert(fields0 == old(self).fields);
            assert(self.board() =~= b);
        }
    }

    /// Moves the camel selection by `by`, wrapping around the five camels.
    pub fn move_selected_color_rel(&mut self, by: i32)
        requires
            old(self).wf(),
        ensures
            final(self).wf(),
            final(self).selected_color == wrap(old(self).selected_color as int, by as int, 4),
            final(self).selected_field == old(self).selected_field,
            final(self).board() == old(self).board(),
            final(self).camel_round_info[final(self).selected_color as int].selected,
            final(self).selected_color == old(self).selected_color
                || !final(self).camel_round_info[old(self).selected_color as int].selected,
            forall|f: int| 0 <= f < 16 ==> same_frame(#[trigger] final(self).fields[f], old(self).fields[f]),
            final(self).rolled_dice == old(self).rolled_dice,
            forall|i: int|
                0 <= i < 5 ==> {
                    let a = #[trigger] final(self).camel_round_info[i];
                    let b = old(self).camel_round_info[i];
                    &&& a.camel_color == b.camel_color
                    &&& a.start_pos == b.start_pos
                    &&& a.pos_round_add == b.pos_round_add
                    &&& a.has_moved == b.has_moved
                    &&& (i != old(self).selected_color && i != final(self).selected_color
                        ==> a.selected == b.selected)
                },
    {
        let ghost b = self.board();
        let old_idx = self.selected_color;
        let sum = old_idx as i64 + by as i64;
        let new_selection_idx: usize = if sum >= 5 {
            0
        } else if sum < 0 {
            4
        } else {
            sum as usize
        };
        self.camel_round_info[self.selected_color].selected = false;
        self.selected_color = new_selection_idx;
        self.camel_round_info[new_selection_idx].selected = true;
        proof {
            assert(self.board() =~= b);
        }
    }

    /// The position the front end shows, as a configuration for the search:
    /// every stack converted field by field, and the camels that have not
    /// moved as the colors still to roll.
    pub fn convert_game_state_configuration(game_state: &GameState) -> (r: Configuration)
        requires
            board_distinct(game_state.board()),
        ensures
            r.wf(),
            forall|f: int|
                0 <= f < 16 ==> #[trigger] r.map.stacks()[f] == game_state.board()[f].map_values(
                    |c: CamelColor| c.color(),
                ),
            forall|j: int|
                0 <= j < 5 ==> (#[trigger] r.available_colours.has(j) <==> exists|i: int|
                    0 <= i < 5 && !game_state.camel_round_info[i].has_moved
                        && (#[trigger] game_state.camel_round_info[i]).camel_color.color().idx()
                        == j),
            r.dice_queue@.len() == 0,
            r.map.cards() == Seq::new(16, |f: int| None::<EffectCard>),
    {
        let ghost b = game_state.board();
        let mut map = CamelMap::new(Vec::new());
        let mut f: usize = 0;
        while f < 16
            invariant
                f <= 16,
                b == game_state.board(),
                board_distinct(b),
                map.wf(),
                map.cards() == Seq::new(16, |f: int| None::<EffectCard>),
                forall|g: int|
                    0 <= g < 16 ==> #[trigger] map.stacks()[g] == if g < f {
                        b[g].map_values(|c: CamelColor| c.color())
                    } else {
                        Seq::<Color>::empty()
                    },
            decreases 16 - f,
        {
            let stack = &game_state.fields[f].camels;
            assert(stack@ == b[f as int]);
            let mut k: usize = 0;
            while k < stack.len()
                invariant
                    f < 16,
                    k <= stack@.len(),
                    stack@ == b[f as int],
                    b == game_state.board(),
                    board_distinct(b),
                    map.wf(),
                    map.cards() == Seq::new(16, |f: int| None::<EffectCard>),
                    forall|g: int|
                        0 <= g < 16 ==> #[trigger] map.stacks()[g] == if g < f {
                            b[g].map_values(|c: CamelColor| c.color())
                        } else if g == f {
                            b[g].subrange(0, k as int).map_values(|c: CamelColor| c.color())
                        } else {
                            Seq::<Color>::empty()
                        },
                decreases stack@.len() - k,
            {
                let col = stack[k].race_color();
                proof {
                    let st = map.stacks();
                    if on_board(st, col) {
                        let (g, i) = choose|g: int, i: int|
                            0 <= g < st.len() && 0 <= i < st[g].len() && #[trigger] st[g][i] == col;
                        assert(col == b[f as int][k as int].color());
                        if g < f {
                            assert(st[g] == b[g].map_values(|c: CamelColor| c.color()));
                            assert(st[g][i] == b[g][i].color());
                            b[g][i].lemma_color_injective(b[f as int][k as int]);
                            assert(b[g][i] == b[f as int][k as int]);
                            assert(false);
                        } else if g == f {
                            assert(st[g] == b[g].subrange(0, k as int).map_values(|c: CamelColor| c.color()));
                            assert(st[g][i] == b[g][i].color());
                            b[g][i].lemma_color_injective(b[f as int][k as int]);
                            assert(b[g][i] == b[f as int][k as int]);
                            assert(false);
                        } else {
                            assert(st[g].len() == 0);
                            assert(false);
                        }
                    }
                }
                let ghost st0 = map.stacks();
                map.insert_camel((f as u8, col));
                proof {
                    assert forall|g: int| 0 <= g < 16 implies #[trigger] map.stacks()[g] == if g < f {
                        b[g].map_values(|c: CamelColor| c.color())
                    } else if g == f {
                        b[g].subrange(0, k as int + 1).map_values(|c: CamelColor| c.color())
                    } else {
                        Seq::<Color>::empty()
                    } by {
                        if g == f {
                            assert(b[g].subrange(0, k as int + 1).map_values(|c: CamelColor| c.color())
                                =~= b[g].subrange(0, k as int).map_values(|c: CamelColor| c.color()).push(col));
                        }
                    }
                }
                k = k + 1;
            }
            proof {
                assert(b[f as int].subrange(0, k as int) =~= b[f as int]);
            }
            f = f + 1;
        }
        let mut colours = ColorState::new(Vec::new());
        let mut i: usize = 0;
        while i < 5
            invariant
                i <= 5,
                forall|j: int|
                    0 <= j < 5 ==> (#[trigger] colours.has(j) <==> exists|q: int|
                        0 <= q < i && !game_state.camel_round_info[q].has_moved
                            && (#[trigger] game_state.camel_round_info[q]).camel_color.color().idx()
                            == j),
            decreases 5 - i,
        {
            if !game_state.camel_round_info[i].has_moved {
                colours.add_color(game_state.camel_round_info[i].camel_color.race_color());
            }
            proof {
                assert forall|j: int| 0 <= j < 5 implies (#[trigger] colours.has(j) <==> exists|q: int|
                    0 <= q < i + 1 && !game_state.camel_round_info[q].has_moved
                        && (#[trigger] game_state.camel_round_info[q]).camel_color.color().idx() == j) by {
                    if exists|q: int|
                        0 <= q < i + 1 && !game_state.camel_round_info[q].has_moved
                            && (#[trigger] game_state.camel_round_info[q]).camel_color.color().idx() == j {
                        let q = choose|q: int|
                            0 <= q < i + 1 && !game_state.camel_round_info[q].has_moved
                                && (#[trigger] game_state.camel_round_info[q]).camel_color.color().idx() == j;
                        if q < i {
                            assert(exists|q2: int|
                                0 <= q2 < i && !game_state.camel_round_info[q2].has_moved
                                    && (#[trigger] game_state.camel_round_info[q2]).camel_color.color().idx() == j);
                        }
                    }
                    if exists|q: int|
                        0 <= q < i && !game_state.camel_round_info[q].has_moved
                            && (#[trigger] game_state.camel_round_info[q]).camel_color.color().idx() == j {
                        let q = choose|q: int|
                            0 <= q < i && !game_state.camel_round_info[q].has_moved
                                && (#[trigger] game_state.camel_round_info[q]).camel_color.color().idx() == j;
                        assert(0 <= q < i + 1);
                    }
                }
            }
            i = i + 1;
        }
        Configuration { map, dice_queue: Vec::new(), available_colours: colours }
    }
}

} // verus!
