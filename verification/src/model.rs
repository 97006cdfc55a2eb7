use vstd::prelude::*;

use crate::field::INFINITE_DISTANCE;
use crate::output::{nat_decimal, push_decimal};
use crate::visualizer::push_text;

verus! {

/// `.`: an empty board cell.
pub const EMPTY: u8 = 46;
/// `@`: player 1's territory.
pub const P1_STABLE: u8 = 64;
/// `a`: player 1's last placed piece.
pub const P1_LAST: u8 = 97;
/// `$`: player 2's territory.
pub const P2_STABLE: u8 = 36;
/// `s`: player 2's last placed piece.
pub const P2_LAST: u8 = 115;

/// A cell coordinate; `x` grows to the right, `y` downwards.
#[derive(Clone, Copy, Debug, Default, PartialEq, Eq, Structural, Hash, PartialOrd, Ord)]
pub struct Position {
    pub x: i32,
    pub y: i32,
}

/// What can go wrong while reading the engine protocol.
#[derive(Clone, Copy, Debug, PartialEq, Eq, Structural)]
pub enum FillerError {
    /// The input ended before a `$$$ ... pN` header line.
    PlayerHeaderNotFound,
    /// A player number other than 1 or 2.
    UnsupportedPlayer(u8),
    /// The input ended before the `Piece` header of a turn.
    PieceHeaderNotFound,
    /// The input ended inside the board rows.
    IncompleteBoard,
    /// The input ended inside the piece rows.
    IncompletePiece,
    /// A dimension header without a width token.
    MissingWidth,
    /// A width token that is not an unsigned integer.
    InvalidWidth,
    /// A dimension header without a height token.
    MissingHeight,
    /// A height token that is not an unsigned integer.
    InvalidHeight,
    /// A width or height of zero.
    NonPositiveDimensions,
    /// A board row shorter than the board or with a byte that is no board cell.
    InvalidBoardRow { expected: usize, got: usize },
    /// A piece row of the wrong width.
    InvalidPieceRow { got: usize, expected: usize },
    /// A piece without any occupied cell.
    EmptyPiece,
    /// A line that is not valid UTF-8.
    InvalidUtf8,
}

/// The text that reports `e`.
pub open spec fn error_text(e: FillerError) -> Seq<char> {
    match e {
        FillerError::PlayerHeaderNotFound => "player header not found"@,
        FillerError::UnsupportedPlayer(n) => "unsupported player number: "@ + nat_decimal(n as nat),
        FillerError::PieceHeaderNotFound => "piece header not found"@,
        FillerError::IncompleteBoard => "incomplete board"@,
        FillerError::IncompletePiece => "incomplete piece"@,
        FillerError::MissingWidth => "missing width"@,
        FillerError::InvalidWidth => "invalid width"@,
        FillerError::MissingHeight => "missing height"@,
        FillerError::InvalidHeight => "invalid height"@,
        FillerError::NonPositiveDimensions => "dimensions must be positive"@,
        FillerError::InvalidBoardRow { expected, got } => "invalid board row width/content: expected "@
            + nat_decimal(expected as nat) + ", got "@ + nat_decimal(got as nat),
        FillerError::InvalidPieceRow { got, expected } => "piece row width "@ + nat_decimal(
            got as nat,
        ) + ", expected "@ + nat_decimal(expected as nat),
        FillerError::EmptyPiece => "piece has no occupied cells"@,
        FillerError::InvalidUtf8 => "stream did not contain valid UTF-8"@,
    }
}

/// `e` says that the input ended where more was expected, rather than that
/// it held something wrong.
pub open spec fn is_end_of_input(e: FillerError) -> bool {
    ||| e == FillerError::PlayerHeaderNotFound
    ||| e == FillerError::PieceHeaderNotFound
    ||| e == FillerError::IncompleteBoard
    ||| e == FillerError::IncompletePiece
}

impl FillerError {
    /// The text that reports the error.
    pub fn message(&self) -> (m: String)
        ensures
            m@ == error_text(*self),
    {
        let mut m = String::new();
        match *self {
            FillerError::PlayerHeaderNotFound => push_text(&mut m, "player header not found"),
            FillerError::UnsupportedPlayer(n) => {
                push_text(&mut m, "unsupported player number: ");
                push_decimal(&mut m, n as u128);
            },
            FillerError::PieceHeaderNotFound => push_text(&mut m, "piece header not found"),
            FillerError::IncompleteBoard => push_text(&mut m, "incomplete board"),
            FillerError::IncompletePiece => push_text(&mut m, "incomplete piece"),
            FillerError::MissingWidth => push_text(&mut m, "missing width"),
            FillerError::InvalidWidth => push_text(&mut m, "invalid width"),
            FillerError::MissingHeight => push_text(&mut m, "missing height"),
            FillerError::InvalidHeight => push_text(&mut m, "invalid height"),
            FillerError::NonPositiveDimensions => push_text(&mut m, "dimensions must be positive"),
            FillerError::InvalidBoardRow { expected, got } => {
                push_text(&mut m, "invalid board row width/content: expected ");
                push_decimal(&mut m, expected as u128);
                push_text(&mut m, ", got ");
                push_decimal(&mut m, got as u128);
            },
            FillerError::InvalidPieceRow { got, expected } => {
                push_text(&mut m, "piece row width ");
                push_decimal(&mut m, got as u128);
                push_text(&mut m, ", expected ");
                push_decimal(&mut m, expected as u128);
            },
            FillerError::EmptyPiece => push_text(&mut m, "piece has no occupied cells"),
            FillerError::InvalidUtf8 => push_text(&mut m, "stream did not contain valid UTF-8"),
        }
        proof {
            assert(m@ =~= error_text(*self));
        }
        m
    }

    /// Whether the error says that the input ended early.
    pub fn ends_input(&self) -> (b: bool)
        ensures
            b == is_end_of_input(*self),
    {
        match *self {
            FillerError::PlayerHeaderNotFound | FillerError::PieceHeaderNotFound
            | FillerError::IncompleteBoard | FillerError::IncompletePiece => true,
            _ => false,
        }
    }
}

/// The Anfield: `height` rows of `width` bytes each.
#[derive(Clone, Debug, PartialEq, Eq)]
pub struct Board {
    pub width: usize,
    pub height: usize,
    pub rows: Vec<Vec<u8>>,
}

impl Board {
    /// The rows have the declared dimensions.
    pub open spec fn shaped(&self) -> bool {
        &&& self.rows@.len() == self.height
        &&& forall|y: int| 0 <= y < self.height ==> #[trigger] self.rows@[y]@.len() == self.width
    }

    /// Shaped, with every distance across the board below `INFINITE_DISTANCE`
    /// and one `usize` index for every cell.
    pub open spec fn fits(&self) -> bool {
        &&& self.shaped()
        &&& self.width + self.height <= INFINITE_DISTANCE
        &&& self.width * self.height <= usize::MAX
    }

    /// Fits, and is not empty.
    pub open spec fn wf(&self) -> bool {
        &&& self.fits()
        &&& 1 <= self.width
        &&& 1 <= self.height
    }

    pub open spec fn in_bounds(&self, x: int, y: int) -> bool {
        0 <= x < self.width && 0 <= y < self.height
    }

    /// The byte at `(x, y)`, or 0 off the board.
    pub open spec fn cell(&self, x: int, y: int) -> u8 {
        if self.in_bounds(x, y) {
            self.rows@[y]@[x]
        } else {
            0
        }
    }

    /// The byte at `(x, y)`, or 0 when the coordinate lies off the board.
    pub fn at(&self, x: i32, y: i32) -> (cell: u8)
        requires
            self.shaped(),
        ensures
            cell == self.cell(x as int, y as int),
    {
        if x < 0 || y < 0 || x as usize >= self.width || y as usize >= self.height {
            return 0;
        }
        self.rows[y as usize][x as usize]
    }
}

/// A piece: its rows and the coordinates of its occupied cells.
#[derive(Clone, Debug, PartialEq, Eq)]
pub struct Piece {
    pub width: usize,
    pub height: usize,
    pub rows: Vec<Vec<u8>>,
    pub cells: Vec<Position>,
}

impl Piece {
    /// The cells lie inside the piece's box, there are at most as many as the box
    /// has places, and the box's sides add up to less than `INFINITE_DISTANCE`.
    pub open spec fn fits(&self) -> bool {
        &&& self.width + self.height <= INFINITE_DISTANCE
        &&& self.cells@.len() <= self.width * self.height
        &&& forall|i: int|
            0 <= i < self.cells@.len() ==> {
                &&& 0 <= #[trigger] self.cells@[i].x < self.width
                &&& 0 <= self.cells@[i].y < self.height
            }
    }

    /// Fits, and is not empty.
    pub open spec fn wf(&self) -> bool {
        &&& self.fits()
        &&& 1 <= self.width
        &&& 1 <= self.height
    }
}

/// One turn of the protocol: the current board and the piece to place.
#[derive(Clone, Debug, PartialEq, Eq)]
pub struct Turn {
    pub board: Board,
    pub piece: Piece,
}

/// A side of the game with its territory markers: `@`/`a` for player 1,
/// `$`/`s` for player 2; the lowercase marker is the last placed piece.
#[derive(Clone, Copy, Debug, PartialEq, Eq)]
pub struct Player {
    pub number: u8,
    pub own_stable: u8,
    pub own_last: u8,
    pub enemy_stable: u8,
    pub enemy_last: u8,
}

/// The markers of player 1's territory.
pub open spec fn first_player_mark(cell: u8) -> bool {
    cell == P1_STABLE || cell == P1_LAST
}

/// The markers of player 2's territory.
pub open spec fn second_player_mark(cell: u8) -> bool {
    cell == P2_STABLE || cell == P2_LAST
}

impl Player {
    /// The player's number, as the `number` field holds it.
    pub open spec fn side(self) -> u8 {
        self.number
    }

    /// The markers are those of player `number`, which is 1 or 2.
    pub open spec fn wf(self) -> bool {
        ||| self.number == 1 && self.own_stable == P1_STABLE && self.own_last == P1_LAST
            && self.enemy_stable == P2_STABLE && self.enemy_last == P2_LAST
        ||| self.number == 2 && self.own_stable == P2_STABLE && self.own_last == P2_LAST
            && self.enemy_stable == P1_STABLE && self.enemy_last == P1_LAST
    }

    /// `cell` marks this player's territory.
    pub open spec fn owns(self, cell: u8) -> bool {
        cell == self.own_stable || cell == self.own_last
    }

    /// `cell` marks the opponent's territory.
    pub open spec fn opposes(self, cell: u8) -> bool {
        cell == self.enemy_stable || cell == self.enemy_last
    }

    /// What the markers of a well-formed player are.
    pub proof fn lemma_marks(self)
        requires
            self.wf(),
        ensures
            self.side() == 1 || self.side() == 2,
            forall|c: u8|
                #[trigger] self.owns(c) <==> if self.side() == 1 {
                    first_player_mark(c)
                } else {
                    second_player_mark(c)
                },
            forall|c: u8|
                #[trigger] self.opposes(c) <==> if self.side() == 1 {
                    second_player_mark(c)
                } else {
                    first_player_mark(c)
                },
    {
    }

    /// The two players' territories are each other's enemy territory, and no
    /// marker is both own and enemy territory for a player.
    pub proof fn law_sides_mirror(self, other: Player)
        requires
            self.wf(),
            other.wf(),
            self.side() != other.side(),
        ensures
            forall|c: u8| #[trigger] self.owns(c) <==> other.opposes(c),
            forall|c: u8| #[trigger] self.opposes(c) <==> other.owns(c),
            forall|c: u8| !(self.owns(c) && #[trigger] self.opposes(c)),
    {
    }

    /// Player 1 or 2; any other number is refused.
    pub fn new(number: u8) -> (result: Result<Player, FillerError>)
        ensures
            number == 1 || number == 2 ==> (result matches Ok(p) && p.number == number && p.side()
                == number && p.wf()),
            number == 1 ==> (result matches Ok(p) && forall|c: u8|
                (p.owns(c) <==> (c == P1_STABLE || c == P1_LAST)) && (p.opposes(c) <==> (c
                    == P2_STABLE || c == P2_LAST))),
            number == 2 ==> (result matches Ok(p) && forall|c: u8|
                (p.owns(c) <==> (c == P2_STABLE || c == P2_LAST)) && (p.opposes(c) <==> (c
                    == P1_STABLE || c == P1_LAST))),
            !(number == 1 || number == 2) ==> result == Err::<Player, FillerError>(
                FillerError::UnsupportedPlayer(number),
            ),
    {
        match number {
            1 => Ok(
                Player {
                    number: 1,
                    own_stable: P1_STABLE,
                    own_last: P1_LAST,
                    enemy_stable: P2_STABLE,
                    enemy_last: P2_LAST,
                },
            ),
            2 => Ok(
                Player {
                    number: 2,
                    own_stable: P2_STABLE,
                    own_last: P2_LAST,
                    enemy_stable: P1_STABLE,
                    enemy_last: P1_LAST,
                },
            ),
            _ => Err(FillerError::UnsupportedPlayer(number)),
        }
    }

    /// Whether `cell` marks this player's territory.
    pub fn is_own(self, cell: u8) -> (b: bool)
        ensures
            b == self.owns(cell),
    {
        cell == self.own_stable || cell == self.own_last
    }

    /// Whether `cell` marks the opponent's territory.
    pub fn is_enemy(self, cell: u8) -> (b: bool)
        ensures
            b == self.opposes(cell),
    {
        cell == self.enemy_stable || cell == self.enemy_last
    }
}

} // verus!
