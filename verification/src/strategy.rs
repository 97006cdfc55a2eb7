use std::collections::BTreeSet;
use vstd::prelude::*;

use crate::field::{
    abs_diff, distance_field, field, idx, l1, lemma_field_bounds, lemma_grid_area, lemma_idx_next_row,
    min_int, INFINITE_DISTANCE,
};
use crate::model::{Board, Piece, Player, Position, EMPTY};
use crate::placement::{generate_placements, legal_placement, origins_fit, placements_spec};

verus! {

broadcast use {vstd::std_specs::btree::group_btree_axioms, vstd::laws_cmp::group_laws_cmp};

/// The distance from `(x, y)` to the nearest enemy cell.
pub open spec fn enemy_distance(board: &Board, player: Player, x: int, y: int) -> int {
    field(board, player, false, Set::empty(), x, y)
}

/// The least enemy distance of an own cell before cell `(c, r)` in row-major
/// order, or `INFINITE_DISTANCE` when there is none.
pub open spec fn contact_upto(board: &Board, player: Player, r: int, c: int) -> int
    decreases r, c,
{
    if r < 0 || c < 0 {
        INFINITE_DISTANCE as int
    } else if c == 0 {
        if r == 0 {
            INFINITE_DISTANCE as int
        } else {
            contact_upto(board, player, r - 1, board.width as int)
        }
    } else {
        let m = contact_upto(board, player, r, c - 1);
        if player.owns(board.cell(c - 1, r)) {
            min_int(m, enemy_distance(board, player, c - 1, r))
        } else {
            m
        }
    }
}

/// How close own territory already is to the enemy.
pub open spec fn contact_distance(board: &Board, player: Player) -> int {
    contact_upto(board, player, board.height as int, 0)
}

/// Some piece cell, placed at `pos`, lands on `(x, y)`.
pub open spec fn occupied(cells: Seq<Position>, pos: Position, x: int, y: int) -> bool {
    exists|j: int| 0 <= j < cells.len() && pos.x + cells[j].x == x && pos.y + #[trigger] cells[j].y == y
}

/// A bound on the magnitude of every quick score.
pub const QUICK_BOUND: i128 = 79228162514264337593543950336;

/// How many of the best quick-scored moves get the deep evaluation.
pub const DEEP_EVALUATION: usize = 72;

/// Running totals of the quick score over the first `k` piece cells that land
/// on cells not yet own territory.
pub struct QuickTally {
    pub min_enemy: int,
    pub sum_enemy: int,
    pub blocking: int,
    pub new_cells: int,
    pub edge_cells: int,
}

pub open spec fn quick_tally(
    board: &Board,
    cells: Seq<Position>,
    player: Player,
    pos: Position,
    enemy: Seq<i32>,
    k: int,
) -> QuickTally
    decreases k,
{
    if k <= 0 {
        QuickTally {
            min_enemy: INFINITE_DISTANCE as int,
            sum_enemy: 0,
            blocking: 0,
            new_cells: 0,
            edge_cells: 0,
        }
    } else {
        let t = quick_tally(board, cells, player, pos, enemy, k - 1);
        let x = pos.x + cells[k - 1].x;
        let y = pos.y + cells[k - 1].y;
        if player.owns(board.cell(x, y)) {
            t
        } else {
            let e = enemy[idx(board.width as int, x, y)] as int;
            QuickTally {
                min_enemy: min_int(t.min_enemy, e),
                sum_enemy: t.sum_enemy + if e < INFINITE_DISTANCE {
                    e
                } else {
                    0
                },
                blocking: t.blocking + if e <= 2 {
                    1int
                } else {
                    0
                },
                new_cells: t.new_cells + 1,
                edge_cells: t.edge_cells + if x == 0 || y == 0 || x == board.width - 1 || y
                    == board.height - 1 {
                    1int
                } else {
                    0
                },
            }
        }
    }
}

/// The empty cells, not covered by the piece, next to one of the first `k`
/// piece cells that lands off own territory.
pub open spec fn quick_frontier(
    board: &Board,
    cells: Seq<Position>,
    player: Player,
    pos: Position,
    k: int,
) -> Set<(i32, i32)> {
    Set::new(
        |p: (i32, i32)|
            {
                &&& board.in_bounds(p.0 as int, p.1 as int)
                &&& board.cell(p.0 as int, p.1 as int) == EMPTY
                &&& !occupied(cells, pos, p.0 as int, p.1 as int)
                &&& exists|i: int|
                    0 <= i < k && !player.owns(
                        board.cell(pos.x + cells[i].x, pos.y + cells[i].y),
                    ) && l1(p.0 as int, p.1 as int, pos.x + cells[i].x, pos.y + #[trigger] cells[i].y)
                        == 1
            },
    )
}

/// The enemy distance field as a flat row-major sequence.
pub open spec fn enemy_seq(board: &Board, player: Player) -> Seq<i32> {
    Seq::new(
        (board.width * board.height) as nat,
        |i: int|
            enemy_distance(
                board,
                player,
                i % (board.width as int),
                i / (board.width as int),
            ) as i32,
    )
}

/// The quick score of a legal placement: approach the enemy when territories are
/// far apart, claim frontier and new cells once they are close, block enemy
/// approaches, and lightly avoid edges and the far side of the board.
pub open spec fn quick_spec(
    board: &Board,
    piece: &Piece,
    player: Player,
    pos: Position,
    contact: int,
) -> int {
    quick_spec_of(board, piece, player, pos, enemy_seq(board, player), contact)
}

/// The quick score read off the enemy distances `enemy`, a flat row-major
/// field.
pub open spec fn quick_spec_of(
    board: &Board,
    piece: &Piece,
    player: Player,
    pos: Position,
    enemy: Seq<i32>,
    contact: int,
) -> int {
    let cells = piece.cells@;
    let t = quick_tally(board, cells, player, pos, enemy, cells.len() as int);
    let min_enemy = if t.min_enemy == INFINITE_DISTANCE {
        board.width + board.height
    } else {
        t.min_enemy
    };
    let attack_weight = if contact <= 4 {
        72int
    } else {
        115int
    };
    let territory_weight = if contact <= 4 {
        14int
    } else {
        8int
    };
    let center_distance = abs_diff(pos.x + (piece.width / 2) as int, (board.width / 2) as int)
        + abs_diff(pos.y + (piece.height / 2) as int, (board.height / 2) as int);
    -min_enemy * attack_weight - t.sum_enemy * 3 + t.blocking * 46 + quick_frontier(
        board,
        cells,
        player,
        pos,
        cells.len() as int,
    ).len() * territory_weight + t.new_cells * 5 - t.edge_cells * 3 - center_distance
}

/// Placing the piece at `pos` puts every piece cell on the board.
pub open spec fn on_board(board: &Board, cells: Seq<Position>, pos: Position) -> bool {
    forall|i: int|
        0 <= i < cells.len() ==> board.in_bounds(pos.x + (#[trigger] cells[i]).x, pos.y + cells[i].y)
}

proof fn lemma_legal_on_board(board: &Board, piece: &Piece, player: Player, pos: Position)
    requires
        piece.fits(),
        legal_placement(board, piece.cells@, player, pos),
    ensures
        on_board(board, piece.cells@, pos),
        piece.cells@.len() > 0,
        -(piece.width as int) < pos.x < board.width,
        -(piece.height as int) < pos.y < board.height,
{
    let cells = piece.cells@;
    if cells.len() == 0 {
        assert(crate::placement::own_overlaps(board, cells, player, pos, 0) == 0);
    }
    assert(board.in_bounds(pos.x + cells[0].x, pos.y + cells[0].y));
}

proof fn lemma_quick_tally_bounds(
    board: &Board,
    cells: Seq<Position>,
    player: Player,
    pos: Position,
    enemy: Seq<i32>,
    k: int,
)
    requires
        0 <= k <= cells.len(),
        board.wf(),
        on_board(board, cells, pos),
        field_shaped(board, enemy),
    ensures
        0 <= quick_tally(board, cells, player, pos, enemy, k).min_enemy <= INFINITE_DISTANCE,
        0 <= quick_tally(board, cells, player, pos, enemy, k).sum_enemy <= k * INFINITE_DISTANCE,
        0 <= quick_tally(board, cells, player, pos, enemy, k).blocking <= k,
        0 <= quick_tally(board, cells, player, pos, enemy, k).new_cells <= k,
        0 <= quick_tally(board, cells, player, pos, enemy, k).edge_cells <= k,
    decreases k,
{
    if k > 0 {
        lemma_quick_tally_bounds(board, cells, player, pos, enemy, k - 1);
        let x = pos.x + cells[k - 1].x;
        let y = pos.y + cells[k - 1].y;
        assert(board.in_bounds(x, y));
        lemma_cell_index(board, x, y);
    }
}

/// A flat row-major field over the board, every distance in
/// `0..=INFINITE_DISTANCE`.
pub open spec fn field_shaped(board: &Board, enemy: Seq<i32>) -> bool {
    &&& enemy.len() == board.width * board.height
    &&& forall|i: int| 0 <= i < enemy.len() ==> 0 <= #[trigger] enemy[i] <= INFINITE_DISTANCE
}

/// The enemy field computed for the board is the flat enemy distance field.
proof fn lemma_enemy_field_is_enemy_seq(board: &Board, player: Player, enemy: Seq<i32>)
    requires
        board.wf(),
        is_enemy_field(board, player, enemy),
    ensures
        enemy == enemy_seq(board, player),
        field_shaped(board, enemy),
{
    let w = board.width as int;
    let h = board.height as int;
    let t = enemy_seq(board, player);
    assert forall|i: int| 0 <= i < enemy.len() implies enemy[i] == t[i] && 0 <= #[trigger] enemy[i]
        <= INFINITE_DISTANCE by {
        let x = i % w;
        let y = i / w;
        assert(0 <= x < w && 0 <= y < h && i == idx(w, x, y)) by (nonlinear_arith)
            requires
                0 <= i < w * h,
                w >= 1,
                x == i % w,
                y == i / w,
        ;
        lemma_field_bounds(board, player, false, Set::empty(), x, y);
        assert(enemy[idx(w, x, y)] == enemy_distance(board, player, x, y));
    }
    assert(enemy =~= t);
}

/// Whether some piece cell, placed at `position`, lands on `point`.
fn piece_occupies(piece: &Piece, position: Position, point: Position) -> (b: bool)
    ensures
        b == occupied(piece.cells@, position, point.x as int, point.y as int),
{
    let n = piece.cells.len();
    let mut i: usize = 0;
    while i < n
        invariant
            n == piece.cells@.len(),
            i <= n,
            forall|j: int|
                0 <= j < i ==> !(position.x + piece.cells@[j].x == point.x && position.y
                    + #[trigger] piece.cells@[j].y == point.y),
        decreases n - i,
    {
        let cell = piece.cells[i];
        if position.x as i64 + cell.x as i64 == point.x as i64 && position.y as i64 + cell.y as i64
            == point.y as i64 {
            return true;
        }
        i = i + 1;
    }
    false
}

/// Deterministic tie-break: the upper row first, then the left column.
fn prefer(candidate: Position, current: Position) -> (b: bool)
    ensures
        b == (candidate.y < current.y || (candidate.y == current.y && candidate.x < current.x)),
{
    candidate.y < current.y || (candidate.y == current.y && candidate.x < current.x)
}

/// Adds `(nx, ny)` to the quick frontier when it is an empty board cell that the
/// piece does not cover.
fn add_quick_neighbor(
    board: &Board,
    piece: &Piece,
    position: Position,
    frontier: &mut BTreeSet<(i32, i32)>,
    nx: i32,
    ny: i32,
)
    requires
        board.shaped(),
        old(frontier)@.finite(),
    ensures
        final(frontier)@.finite(),
        final(frontier)@.len() <= old(frontier)@.len() + 1,
        final(frontier)@ == if board.in_bounds(nx as int, ny as int) && board.cell(nx as int, ny as int)
            == EMPTY && !occupied(piece.cells@, position, nx as int, ny as int) {
            old(frontier)@.insert((nx, ny))
        } else {
            old(frontier)@
        },
{
    if nx < 0 || ny < 0 || nx as usize >= board.width || ny as usize >= board.height {
        return;
    }
    if board.at(nx, ny) == EMPTY && !piece_occupies(piece, position, Position { x: nx, y: ny }) {
        frontier.insert((nx, ny));
    }
}

/// The enemy distance field as a flat row-major vector.
pub open spec fn is_enemy_field(board: &Board, player: Player, enemy: Seq<i32>) -> bool {
    &&& enemy.len() == board.width * board.height
    &&& forall|x: int, y: int|
        board.in_bounds(x, y) ==> #[trigger] enemy[idx(board.width as int, x, y)] == enemy_distance(
            board,
            player,
            x,
            y,
        )
}

proof fn lemma_cell_index(board: &Board, x: int, y: int)
    requires
        board.wf(),
        board.in_bounds(x, y),
    ensures
        0 <= idx(board.width as int, x, y) < board.width * board.height,
        board.width * board.height <= usize::MAX,
{
    let w = board.width as int;
    let h = board.height as int;
    lemma_grid_area(w, h);
    assert(0 <= y * w + x < w * h) by (nonlinear_arith)
        requires
            0 <= x < w,
            0 <= y < h,
    ;
}

/// The least enemy distance over own territory.
fn closest_territory_distance(board: &Board, player: Player, enemy: &Vec<i32>) -> (best: i32)
    requires
        board.wf(),
        is_enemy_field(board, player, enemy@),
    ensures
        best == contact_distance(board, player),
{
    let w = board.width;
    let h = board.height;
    let mut best: i32 = INFINITE_DISTANCE;
    let mut y: usize = 0;
    while y < h
        invariant
            board.wf(),
            w == board.width,
            h == board.height,
            is_enemy_field(board, player, enemy@),
            y <= h,
            best == contact_upto(board, player, y as int, 0),
        decreases h - y,
    {
        let mut x: usize = 0;
        while x < w
            invariant
                board.wf(),
                w == board.width,
                h == board.height,
                is_enemy_field(board, player, enemy@),
                y < h,
                x <= w,
                best == contact_upto(board, player, y as int, x as int),
            decreases w - x,
        {
            proof {
                lemma_cell_index(board, x as int, y as int);
            }
            let cell = board.rows[y][x];
            assert(cell == board.cell(x as int, y as int));
            if player.is_own(cell) {
                let distance = enemy[y * w + x];
                if distance < best {
                    best = distance;
                }
            }
            x = x + 1;
        }
        assert(contact_upto(board, player, y + 1, 0) == contact_upto(board, player, y as int, w as int));
        y = y + 1;
    }
    best
}

/// Scores a legal placement quickly from the enemy distance field and the
/// contact distance.
fn quick_score(
    board: &Board,
    piece: &Piece,
    player: Player,
    position: Position,
    enemy: &Vec<i32>,
    contact: i32,
) -> (score: i128)
    requires
        board.wf(),
        piece.wf(),
        on_board(board, piece.cells@, position),
        -(piece.width as int) < position.x < board.width,
        -(piece.height as int) < position.y < board.height,
        field_shaped(board, enemy@),
    ensures
        score == quick_spec_of(board, piece, player, position, enemy@, contact as int),
        -QUICK_BOUND <= score <= QUICK_BOUND,
{
    let ghost cells = piece.cells@;
    let w = board.width;
    let n = piece.cells.len();
    let mut min_enemy: i32 = INFINITE_DISTANCE;
    let mut sum_enemy: i128 = 0;
    let mut new_cells: i128 = 0;
    let mut frontier: BTreeSet<(i32, i32)> = BTreeSet::new();
    let mut blocking: i128 = 0;
    let mut edge_cells: i128 = 0;
    let mut i: usize = 0;
    while i < n
        invariant
            board.wf(),
            piece.wf(),
            cells == piece.cells@,
            n == cells.len(),
            w == board.width,
            on_board(board, cells, position),
            field_shaped(board, enemy@),
            i <= n,
            min_enemy == quick_tally(board, cells, player, position, enemy@, i as int).min_enemy,
            sum_enemy == quick_tally(board, cells, player, position, enemy@, i as int).sum_enemy,
            blocking == quick_tally(board, cells, player, position, enemy@, i as int).blocking,
            new_cells == quick_tally(board, cells, player, position, enemy@, i as int).new_cells,
            edge_cells == quick_tally(board, cells, player, position, enemy@, i as int).edge_cells,
            frontier@ == quick_frontier(board, cells, player, position, i as int),
            frontier@.finite(),
            frontier@.len() <= 4 * i,
        decreases n - i,
    {
        proof {
            lemma_quick_tally_bounds(board, cells, player, position, enemy@, i as int);
        }
        let piece_cell = piece.cells[i];
        assert(board.in_bounds(position.x + cells[i as int].x, position.y + cells[i as int].y));
        let x = position.x + piece_cell.x;
        let y = position.y + piece_cell.y;
        proof {
            lemma_cell_index(board, x as int, y as int);
        }
        let board_cell = board.rows[y as usize][x as usize];
        assert(board_cell == board.cell(x as int, y as int));
        if player.is_own(board_cell) {
            assert(quick_frontier(board, cells, player, position, i + 1) =~= quick_frontier(
                board,
                cells,
                player,
                position,
                i as int,
            ));
            i = i + 1;
            continue;
        }
        new_cells = new_cells + 1;
        let distance = enemy[y as usize * w + x as usize];
        if distance < min_enemy {
            min_enemy = distance;
        }
        if distance < INFINITE_DISTANCE {
            sum_enemy = sum_enemy + distance as i128;
        }
        if distance <= 2 {
            blocking = blocking + 1;
        }
        if x == 0 || y == 0 || x as usize == board.width - 1 || y as usize == board.height - 1 {
            edge_cells = edge_cells + 1;
        }
        let ghost f0 = frontier@;
        add_quick_neighbor(board, piece, position, &mut frontier, x + 1, y);
        add_quick_neighbor(board, piece, position, &mut frontier, x - 1, y);
        add_quick_neighbor(board, piece, position, &mut frontier, x, y + 1);
        add_quick_neighbor(board, piece, position, &mut frontier, x, y - 1);
        proof {
            let f1 = quick_frontier(board, cells, player, position, i + 1);
            assert forall|p: (i32, i32)| #[trigger] f1.contains(p) <==> frontier@.contains(p) by {
                if f1.contains(p) {
                    let k = choose|k: int|
                        0 <= k < i + 1 && !player.owns(
                            board.cell(position.x + cells[k].x, position.y + cells[k].y),
                        ) && l1(p.0 as int, p.1 as int, position.x + cells[k].x, position.y + #[trigger] cells[k].y)
                            == 1;
                    if k < i {
                        assert(f0.contains(p));
                    }
                }
                if f0.contains(p) {
                    let k = choose|k: int|
                        0 <= k < i && !player.owns(
                            board.cell(position.x + cells[k].x, position.y + cells[k].y),
                        ) && l1(p.0 as int, p.1 as int, position.x + cells[k].x, position.y + #[trigger] cells[k].y)
                            == 1;
                    assert(f1.contains(p));
                }
            }
            assert(f1 =~= frontier@);
        }
        i = i + 1;
    }
    proof {
        lemma_quick_tally_bounds(board, cells, player, position, enemy@, n as int);
        assert(sum_enemy <= 18446744073709551615 * 536870911) by (nonlinear_arith)
            requires
                sum_enemy <= n * 536870911,
                n <= 18446744073709551615,
        ;
    }
    let frontier_len = frontier.len();
    quick_total(
        board,
        piece,
        position,
        contact,
        min_enemy,
        sum_enemy,
        blocking,
        new_cells,
        edge_cells,
        frontier_len,
        Ghost(n as int),
    )
}

/// Combines the quick-score tallies into the score.
fn quick_total(
    board: &Board,
    piece: &Piece,
    position: Position,
    contact: i32,
    min_enemy: i32,
    sum_enemy: i128,
    blocking: i128,
    new_cells: i128,
    edge_cells: i128,
    frontier_len: usize,
    Ghost(n): Ghost<int>,
) -> (score: i128)
    requires
        board.wf(),
        piece.wf(),
        -(piece.width as int) < position.x < board.width,
        -(piece.height as int) < position.y < board.height,
        0 <= n <= 18446744073709551615,
        0 <= min_enemy <= INFINITE_DISTANCE,
        0 <= sum_enemy <= 18446744073709551615 * 536870911,
        0 <= blocking <= n,
        0 <= new_cells <= n,
        0 <= edge_cells <= n,
        frontier_len <= 4 * n,
    ensures
        score == {
            let min_term = if min_enemy == INFINITE_DISTANCE {
                board.width + board.height
            } else {
                min_enemy as int
            };
            let attack_weight = if contact <= 4 {
                72int
            } else {
                115int
            };
            let territory_weight = if contact <= 4 {
                14int
            } else {
                8int
            };
            let center_distance = abs_diff(
                position.x + (piece.width / 2) as int,
                (board.width / 2) as int,
            ) + abs_diff(position.y + (piece.height / 2) as int, (board.height / 2) as int);
            -min_term * attack_weight - sum_enemy * 3 + blocking * 46 + frontier_len
                * territory_weight + new_cells * 5 - edge_cells * 3 - center_distance
        },
        -QUICK_BOUND <= score <= QUICK_BOUND,
{
    let min_term: i128 = if min_enemy == INFINITE_DISTANCE {
        (board.width + board.height) as i128
    } else {
        min_enemy as i128
    };
    let attack_weight: i128 = if contact <= 4 {
        72
    } else {
        115
    };
    let territory_weight: i128 = if contact <= 4 {
        14
    } else {
        8
    };
    let center_distance = center_offset(board, piece, position);
    assert(0 <= min_term * attack_weight <= 536870911 * 115) by (nonlinear_arith)
        requires
            0 <= min_term <= 536870911,
            0 <= attack_weight <= 115,
    ;
    assert(0 <= frontier_len as i128 * territory_weight <= 4 * 18446744073709551615 * 14) by (
    nonlinear_arith)
        requires
            0 <= frontier_len <= 4 * 18446744073709551615,
            0 <= territory_weight <= 14,
    ;
    let attack = min_term * attack_weight;
    let reach = frontier_len as i128 * territory_weight;
    let spread = sum_enemy * 3;
    assert(0 <= spread <= 3 * 18446744073709551615 * 536870911);
    let gains = blocking * 46 + reach + new_cells * 5;
    assert(0 <= gains <= 18446744073709551615 * 46 + 4 * 18446744073709551615 * 14
        + 18446744073709551615 * 5);
    let losses = attack + spread + edge_cells * 3 + center_distance as i128;
    assert(0 <= losses <= 536870911 * 115 + 3 * 18446744073709551615 * 536870911
        + 18446744073709551615 * 3 + 2 * 536870911);
    gains - losses
}

/// The distance from the centre of the piece's box, placed at `position`, to
/// the centre of the board.
fn center_offset(board: &Board, piece: &Piece, position: Position) -> (c: i32)
    requires
        board.wf(),
        piece.wf(),
        -(piece.width as int) < position.x < board.width,
        -(piece.height as int) < position.y < board.height,
    ensures
        c == abs_diff(position.x + (piece.width / 2) as int, (board.width / 2) as int) + abs_diff(
            position.y + (piece.height / 2) as int,
            (board.height / 2) as int,
        ),
        0 <= c <= 2 * 536870911,
{
    let center_x = board.width as i32 / 2;
    let center_y = board.height as i32 / 2;
    let anchor_x = position.x + piece.width as i32 / 2;
    let anchor_y = position.y + piece.height as i32 / 2;
    let dx = if anchor_x >= center_x {
        anchor_x - center_x
    } else {
        center_x - anchor_x
    };
    let dy = if anchor_y >= center_y {
        anchor_y - center_y
    } else {
        center_y - anchor_y
    };
    dx + dy
}

/// The board cells that the piece covers when placed at `pos`.
pub open spec fn projected(cells: Seq<Position>, pos: Position) -> Set<(i32, i32)> {
    Set::new(|p: (i32, i32)| occupied(cells, pos, p.0 as int, p.1 as int))
}

/// The distance from `(x, y)` to own territory grown by the placed piece.
pub open spec fn own_distance(
    board: &Board,
    cells: Seq<Position>,
    player: Player,
    pos: Position,
    x: int,
    y: int,
) -> int {
    field(board, player, true, projected(cells, pos), x, y)
}

/// +1 for an empty uncovered cell that own territory would reach first, -1 for
/// one that the enemy reaches first, 0 otherwise.
pub open spec fn territory_term(
    board: &Board,
    cells: Seq<Position>,
    player: Player,
    pos: Position,
    x: int,
    y: int,
) -> int {
    if board.cell(x, y) == EMPTY && !occupied(cells, pos, x, y) {
        let o = own_distance(board, cells, player, pos, x, y);
        let e = enemy_distance(board, player, x, y);
        if o < e {
            1
        } else if o > e {
            -1
        } else {
            0
        }
    } else {
        0
    }
}

/// The sum of territory terms over the cells before `(c, r)` in row-major order.
pub open spec fn territory_upto(
    board: &Board,
    cells: Seq<Position>,
    player: Player,
    pos: Position,
    r: int,
    c: int,
) -> int
    decreases r, c,
{
    if r < 0 || c < 0 {
        0
    } else if c == 0 {
        if r == 0 {
            0
        } else {
            territory_upto(board, cells, player, pos, r - 1, board.width as int)
        }
    } else {
        territory_upto(board, cells, player, pos, r, c - 1) + territory_term(
            board,
            cells,
            player,
            pos,
            c - 1,
            r,
        )
    }
}

/// Projected territory control: empty cells that own territory, grown by the
/// piece, reaches first, minus those that the enemy reaches first.
pub open spec fn territory_spec(board: &Board, cells: Seq<Position>, player: Player, pos: Position) -> int {
    territory_upto(board, cells, player, pos, board.height as int, 0)
}

/// The board cells before `(c, r)` in row-major order whose territory term is
/// `sign`.
pub open spec fn term_cells_upto(
    board: &Board,
    cells: Seq<Position>,
    player: Player,
    pos: Position,
    r: int,
    c: int,
    sign: int,
) -> Set<(int, int)> {
    Set::new(
        |q: (int, int)|
            board.in_bounds(q.0, q.1) && (q.1 < r || (q.1 == r && q.0 < c)) && territory_term(
                board,
                cells,
                player,
                pos,
                q.0,
                q.1,
            ) == sign,
    )
}

proof fn lemma_territory_counts(
    board: &Board,
    cells: Seq<Position>,
    player: Player,
    pos: Position,
    r: int,
    c: int,
)
    requires
        (0 <= r < board.height && 0 <= c <= board.width) || (r == board.height && c == 0),
    ensures
        term_cells_upto(board, cells, player, pos, r, c, 1).finite(),
        term_cells_upto(board, cells, player, pos, r, c, -1).finite(),
        territory_upto(board, cells, player, pos, r, c) == term_cells_upto(
            board,
            cells,
            player,
            pos,
            r,
            c,
            1,
        ).len() - term_cells_upto(board, cells, player, pos, r, c, -1).len(),
    decreases r, c,
{
    let plus = term_cells_upto(board, cells, player, pos, r, c, 1);
    let minus = term_cells_upto(board, cells, player, pos, r, c, -1);
    if c == 0 {
        if r == 0 {
            assert(plus =~= Set::empty());
            assert(minus =~= Set::empty());
        } else {
            lemma_territory_counts(board, cells, player, pos, r - 1, board.width as int);
            assert(plus =~= term_cells_upto(board, cells, player, pos, r - 1, board.width as int, 1));
            assert(minus =~= term_cells_upto(
                board,
                cells,
                player,
                pos,
                r - 1,
                board.width as int,
                -1,
            ));
        }
    } else {
        lemma_territory_counts(board, cells, player, pos, r, c - 1);
        let q = (c - 1, r);
        let t = territory_term(board, cells, player, pos, c - 1, r);
        let plus0 = term_cells_upto(board, cells, player, pos, r, c - 1, 1);
        let minus0 = term_cells_upto(board, cells, player, pos, r, c - 1, -1);
        assert(!plus0.contains(q));
        assert(!minus0.contains(q));
        if t == 1 {
            assert(plus =~= plus0.insert(q));
            assert(minus =~= minus0);
        } else if t == -1 {
            assert(plus =~= plus0);
            assert(minus =~= minus0.insert(q));
        } else {
            assert(plus =~= plus0);
            assert(minus =~= minus0);
        }
    }
}

/// The territory score counts the empty board cells, not covered by the
/// piece, that own territory grown by the piece reaches strictly sooner than
/// the enemy's, less those that the enemy reaches strictly sooner.
pub proof fn law_territory_counts_cells(
    board: &Board,
    cells: Seq<Position>,
    player: Player,
    pos: Position,
)
    ensures
        Set::new(
            |q: (int, int)|
                board.in_bounds(q.0, q.1) && territory_term(board, cells, player, pos, q.0, q.1) == 1,
        ).finite(),
        Set::new(
            |q: (int, int)|
                board.in_bounds(q.0, q.1) && territory_term(board, cells, player, pos, q.0, q.1)
                    == -1,
        ).finite(),
        territory_spec(board, cells, player, pos) == Set::new(
            |q: (int, int)|
                board.in_bounds(q.0, q.1) && territory_term(board, cells, player, pos, q.0, q.1) == 1,
        ).len() - Set::new(
            |q: (int, int)|
                board.in_bounds(q.0, q.1) && territory_term(board, cells, player, pos, q.0, q.1)
                    == -1,
        ).len(),
        forall|x: int, y: int|
            territory_term(board, cells, player, pos, x, y) == 1 <==> (board.cell(x, y) == EMPTY
                && !occupied(cells, pos, x, y) && own_distance(board, cells, player, pos, x, y)
                < enemy_distance(board, player, x, y)),
        forall|x: int, y: int|
            territory_term(board, cells, player, pos, x, y) == -1 <==> (board.cell(x, y) == EMPTY
                && !occupied(cells, pos, x, y) && own_distance(board, cells, player, pos, x, y)
                > enemy_distance(board, player, x, y)),
{
    lemma_territory_counts(board, cells, player, pos, board.height as int, 0);
    assert(term_cells_upto(board, cells, player, pos, board.height as int, 0, 1) =~= Set::new(
        |q: (int, int)|
            board.in_bounds(q.0, q.1) && territory_term(board, cells, player, pos, q.0, q.1) == 1,
    ));
    assert(term_cells_upto(board, cells, player, pos, board.height as int, 0, -1) =~= Set::new(
        |q: (int, int)|
            board.in_bounds(q.0, q.1) && territory_term(board, cells, player, pos, q.0, q.1) == -1,
    ));
}

/// A cell of own territory grown by the piece (`own`), or of enemy territory.
pub open spec fn is_territory(
    board: &Board,
    cells: Seq<Position>,
    player: Player,
    pos: Position,
    own: bool,
    x: int,
    y: int,
) -> bool {
    &&& board.in_bounds(x, y)
    &&& if own {
        player.owns(board.cell(x, y)) || occupied(cells, pos, x, y)
    } else {
        player.opposes(board.cell(x, y))
    }
}

/// The empty cells, not covered by the piece, next to a territory cell that
/// comes before `(c, r)` in row-major order.
pub open spec fn frontier_upto(
    board: &Board,
    cells: Seq<Position>,
    player: Player,
    pos: Position,
    own: bool,
    r: int,
    c: int,
) -> Set<(i32, i32)> {
    Set::new(
        |p: (i32, i32)|
            {
                &&& board.in_bounds(p.0 as int, p.1 as int)
                &&& board.cell(p.0 as int, p.1 as int) == EMPTY
                &&& !occupied(cells, pos, p.0 as int, p.1 as int)
                &&& exists|qx: int, qy: int|
                    #[trigger] is_territory(board, cells, player, pos, own, qx, qy) && (qy < r || (qy
                        == r && qx < c)) && l1(p.0 as int, p.1 as int, qx, qy) == 1
            },
    )
}

/// The frontier of own territory grown by the piece (`own`), or of the enemy's.
pub open spec fn frontier_spec(
    board: &Board,
    cells: Seq<Position>,
    player: Player,
    pos: Position,
    own: bool,
) -> Set<(i32, i32)> {
    frontier_upto(board, cells, player, pos, own, board.height as int, 0)
}

/// The frontier is the set of empty board cells, not covered by the piece,
/// that have a territory cell (own grown by the piece, or the enemy's) as an
/// orthogonal neighbour.
pub proof fn law_frontier_is_next_to_territory(
    board: &Board,
    cells: Seq<Position>,
    player: Player,
    pos: Position,
    own: bool,
    p: (i32, i32),
)
    ensures
        frontier_spec(board, cells, player, pos, own).contains(p) <==> {
            &&& board.in_bounds(p.0 as int, p.1 as int)
            &&& board.cell(p.0 as int, p.1 as int) == EMPTY
            &&& !occupied(cells, pos, p.0 as int, p.1 as int)
            &&& exists|qx: int, qy: int|
                #[trigger] is_territory(board, cells, player, pos, own, qx, qy) && l1(
                    p.0 as int,
                    p.1 as int,
                    qx,
                    qy,
                ) == 1
        },
{
    if exists|qx: int, qy: int|
        #[trigger] is_territory(board, cells, player, pos, own, qx, qy) && l1(
            p.0 as int,
            p.1 as int,
            qx,
            qy,
        ) == 1 {
        let (qx, qy) = choose|qx: int, qy: int|
            #[trigger] is_territory(board, cells, player, pos, own, qx, qy) && l1(
                p.0 as int,
                p.1 as int,
                qx,
                qy,
            ) == 1;
        assert(qy < board.height);
    }
}

/// The board cells that the piece covers at `position`.
fn projected_cells(piece: &Piece, position: Position) -> (set: BTreeSet<(i32, i32)>)
    requires
        forall|i: int|
            0 <= i < piece.cells@.len() ==> i32::MIN <= position.x + (#[trigger] piece.cells@[i]).x
                <= i32::MAX && i32::MIN <= position.y + piece.cells@[i].y <= i32::MAX,
    ensures
        set@ == projected(piece.cells@, position),
{
    let ghost cells = piece.cells@;
    let n = piece.cells.len();
    let mut set: BTreeSet<(i32, i32)> = BTreeSet::new();
    let mut i: usize = 0;
    while i < n
        invariant
            cells == piece.cells@,
            n == cells.len(),
            i <= n,
            forall|k: int|
                0 <= k < n ==> i32::MIN <= position.x + (#[trigger] cells[k]).x <= i32::MAX
                    && i32::MIN <= position.y + cells[k].y <= i32::MAX,
            forall|p: (i32, i32)|
                #[trigger] set@.contains(p) <==> exists|j: int|
                    0 <= j < i && position.x + cells[j].x == p.0 && position.y + #[trigger] cells[j].y
                        == p.1,
        decreases n - i,
    {
        let cell = piece.cells[i];
        let ghost before = set@;
        set.insert((position.x + cell.x, position.y + cell.y));
        proof {
            assert forall|p: (i32, i32)| #[trigger]
                set@.contains(p) <==> exists|j: int|
                    0 <= j < i + 1 && position.x + cells[j].x == p.0 && position.y
                        + #[trigger] cells[j].y == p.1 by {
                if set@.contains(p) && !before.contains(p) {
                    assert(position.x + cells[i as int].x == p.0 && position.y + cells[i as int].y
                        == p.1);
                }
                if exists|j: int|
                    0 <= j < i + 1 && position.x + cells[j].x == p.0 && position.y
                        + #[trigger] cells[j].y == p.1 {
                    let j = choose|j: int|
                        0 <= j < i + 1 && position.x + cells[j].x == p.0 && position.y
                            + #[trigger] cells[j].y == p.1;
                    if j < i {
                        assert(before.contains(p));
                    }
                }
            }
        }
        i = i + 1;
    }
    proof {
        assert forall|p: (i32, i32)| #[trigger]
            set@.contains(p) <==> projected(cells, position).contains(p) by {
            if set@.contains(p) {
                let j = choose|j: int|
                    0 <= j < n && position.x + cells[j].x == p.0 && position.y + #[trigger] cells[j].y
                        == p.1;
                assert(occupied(cells, position, p.0 as int, p.1 as int));
            }
            if projected(cells, position).contains(p) {
                let j = choose|j: int|
                    0 <= j < cells.len() && position.x + cells[j].x == p.0 as int && position.y
                        + #[trigger] cells[j].y == p.1 as int;
                assert(set@.contains(p));
            }
        }
        assert(set@ =~= projected(cells, position));
    }
    set
}

/// Projected territory control of a legal placement.
fn territory_score(
    board: &Board,
    piece: &Piece,
    player: Player,
    position: Position,
    enemy: &Vec<i32>,
) -> (score: i128)
    requires
        board.wf(),
        piece.wf(),
        legal_placement(board, piece.cells@, player, position),
        is_enemy_field(board, player, enemy@),
    ensures
        score == territory_spec(board, piece.cells@, player, position),
        -(board.width * board.height) <= score <= board.width * board.height,
{
    let ghost cells = piece.cells@;
    proof {
        lemma_legal_on_board(board, piece, player, position);
    }
    let projected_set = projected_cells(piece, position);
    let own = distance_field(board, player, true, &projected_set);
    let w = board.width;
    let h = board.height;
    let ghost ww = w as int;
    let mut score: i128 = 0;
    let mut y: usize = 0;
    while y < h
        invariant
            board.wf(),
            w == board.width,
            h == board.height,
            ww == w,
            cells == piece.cells@,
            projected_set@ == projected(cells, position),
            is_enemy_field(board, player, enemy@),
            own@.len() == w * h,
            forall|x: int, y: int|
                board.in_bounds(x, y) ==> #[trigger] own@[idx(ww, x, y)] == own_distance(
                    board,
                    cells,
                    player,
                    position,
                    x,
                    y,
                ),
            y <= h,
            score == territory_upto(board, cells, player, position, y as int, 0),
            -idx(ww, 0, y as int) <= score <= idx(ww, 0, y as int),
            idx(ww, 0, y as int) <= w * h,
        decreases h - y,
    {
        let mut x: usize = 0;
        while x < w
            invariant
                board.wf(),
                w == board.width,
                h == board.height,
                ww == w,
                cells == piece.cells@,
                projected_set@ == projected(cells, position),
                is_enemy_field(board, player, enemy@),
                own@.len() == w * h,
                forall|x: int, y: int|
                    board.in_bounds(x, y) ==> #[trigger] own@[idx(ww, x, y)] == own_distance(
                        board,
                        cells,
                        player,
                        position,
                        x,
                        y,
                    ),
                y < h,
                x <= w,
                score == territory_upto(board, cells, player, position, y as int, x as int),
                -idx(ww, x as int, y as int) <= score <= idx(ww, x as int, y as int),
            decreases w - x,
        {
            proof {
                lemma_cell_index(board, x as int, y as int);
            }
            let cell = board.rows[y][x];
            assert(cell == board.cell(x as int, y as int));
            if cell != EMPTY {
                x = x + 1;
                continue;
            }
            if projected_set.contains(&(x as i32, y as i32)) {
                x = x + 1;
                continue;
            }
            let i = y * w + x;
            if own[i] < enemy[i] {
                score = score + 1;
            } else if own[i] > enemy[i] {
                score = score - 1;
            }
            x = x + 1;
        }
        proof {
            lemma_idx_next_row(ww, y as int);
            if y + 1 < h {
                lemma_cell_index(board, 0, y + 1);
            } else {
                assert(idx(ww, 0, h as int) == w * h) by (nonlinear_arith)
                    requires
                        ww == w,
                ;
            }
        }
        y = y + 1;
    }
    proof {
        assert(idx(ww, 0, h as int) == w * h) by (nonlinear_arith)
            requires
                ww == w,
        ;
    }
    score
}

/// Adds `(nx, ny)` to a frontier when it is an empty board cell outside the
/// projected piece.
fn add_frontier_neighbor(
    board: &Board,
    projected_set: &BTreeSet<(i32, i32)>,
    frontier: &mut BTreeSet<(i32, i32)>,
    nx: i32,
    ny: i32,
)
    requires
        board.shaped(),
        old(frontier)@.finite(),
    ensures
        final(frontier)@.finite(),
        final(frontier)@.len() <= old(frontier)@.len() + 1,
        final(frontier)@ == if board.in_bounds(nx as int, ny as int) && board.cell(nx as int, ny as int)
            == EMPTY && !projected_set@.contains((nx, ny)) {
            old(frontier)@.insert((nx, ny))
        } else {
            old(frontier)@
        },
{
    if nx < 0 || ny < 0 || nx as usize >= board.width || ny as usize >= board.height {
        return;
    }
    if board.at(nx, ny) != EMPTY || projected_set.contains(&(nx, ny)) {
        return;
    }
    frontier.insert((nx, ny));
}

/// The size of the frontier of own territory grown by the piece (`own`), or of
/// the enemy's territory.
fn projected_frontier(board: &Board, piece: &Piece, player: Player, position: Position, own: bool) -> (size:
    usize)
    requires
        board.wf(),
        piece.wf(),
        legal_placement(board, piece.cells@, player, position),
    ensures
        size == frontier_spec(board, piece.cells@, player, position, own).len(),
        size <= 4 * board.width * board.height,
{
    let ghost cells = piece.cells@;
    proof {
        lemma_legal_on_board(board, piece, player, position);
    }
    let projected_set = projected_cells(piece, position);
    let w = board.width;
    let h = board.height;
    let ghost ww = w as int;
    let mut frontier: BTreeSet<(i32, i32)> = BTreeSet::new();
    let mut y: usize = 0;
    proof {
        assert(frontier@ =~= frontier_upto(board, cells, player, position, own, 0, 0));
    }
    while y < h
        invariant
            board.wf(),
            w == board.width,
            h == board.height,
            ww == w,
            cells == piece.cells@,
            projected_set@ == projected(cells, position),
            y <= h,
            frontier@ == frontier_upto(board, cells, player, position, own, y as int, 0),
            frontier@.finite(),
            frontier@.len() <= 4 * idx(ww, 0, y as int),
            idx(ww, 0, y as int) <= w * h,
        decreases h - y,
    {
        let mut x: usize = 0;
        while x < w
            invariant
                board.wf(),
                w == board.width,
                h == board.height,
                ww == w,
                cells == piece.cells@,
                projected_set@ == projected(cells, position),
                y < h,
                x <= w,
                frontier@ == frontier_upto(board, cells, player, position, own, y as int, x as int),
                frontier@.finite(),
                frontier@.len() <= 4 * idx(ww, x as int, y as int),
            decreases w - x,
        {
            proof {
                lemma_cell_index(board, x as int, y as int);
            }
            let cell = board.rows[y][x];
            assert(cell == board.cell(x as int, y as int));
            let territory = if own {
                player.is_own(cell) || projected_set.contains(&(x as i32, y as i32))
            } else {
                player.is_enemy(cell)
            };
            assert(territory == is_territory(board, cells, player, position, own, x as int, y as int));
            let ghost f0 = frontier@;
            if territory {
                let px = x as i32;
                let py = y as i32;
                add_frontier_neighbor(board, &projected_set, &mut frontier, px + 1, py);
                add_frontier_neighbor(board, &projected_set, &mut frontier, px - 1, py);
                add_frontier_neighbor(board, &projected_set, &mut frontier, px, py + 1);
                add_frontier_neighbor(board, &projected_set, &mut frontier, px, py - 1);
            }
            proof {
                let f1 = frontier_upto(board, cells, player, position, own, y as int, x + 1);
                assert forall|p: (i32, i32)| #[trigger] f1.contains(p) <==> frontier@.contains(p) by {
                    if f1.contains(p) {
                        let (qx, qy) = choose|qx: int, qy: int|
                            #[trigger] is_territory(board, cells, player, position, own, qx, qy) && (qy
                                < y || (qy == y && qx < x + 1)) && l1(p.0 as int, p.1 as int, qx, qy)
                                == 1;
                        if qy < y || qx < x {
                            assert(f0.contains(p));
                        }
                    }
                    if f0.contains(p) {
                        let (qx, qy) = choose|qx: int, qy: int|
                            #[trigger] is_territory(board, cells, player, position, own, qx, qy) && (qy
                                < y || (qy == y && qx < x)) && l1(p.0 as int, p.1 as int, qx, qy) == 1;
                        assert(f1.contains(p));
                    }
                    if territory && frontier@.contains(p) && !f0.contains(p) {
                        assert(is_territory(board, cells, player, position, own, x as int, y as int));
                        assert(f1.contains(p));
                    }
                }
                assert(f1 =~= frontier@);
            }
            x = x + 1;
        }
        proof {
            lemma_idx_next_row(ww, y as int);
            assert(frontier_upto(board, cells, player, position, own, y + 1, 0) =~= frontier_upto(
                board,
                cells,
                player,
                position,
                own,
                y as int,
                w as int,
            ));
            if y + 1 < h {
                lemma_cell_index(board, 0, y + 1);
            } else {
                assert(idx(ww, 0, h as int) == w * h) by (nonlinear_arith)
                    requires
                        ww == w,
                ;
            }
        }
        y = y + 1;
    }
    proof {
        assert(idx(ww, 0, h as int) == w * h) by (nonlinear_arith)
            requires
                ww == w,
        ;
        assert(4 * w * h == 4 * (w * h)) by (nonlinear_arith);
    }
    frontier.len()
}

/// The full score of a legal placement: the quick score plus projected
/// territory control, own frontier and, negatively, the enemy's frontier.
pub open spec fn combined_spec(
    board: &Board,
    piece: &Piece,
    player: Player,
    pos: Position,
    contact: int,
) -> int {
    quick_spec(board, piece, player, pos, contact) + territory_spec(board, piece.cells@, player, pos)
        * 3 + frontier_spec(board, piece.cells@, player, pos, true).len() * 7 - frontier_spec(
        board,
        piece.cells@,
        player,
        pos,
        false,
    ).len() * 5
}

/// `a` comes before `b` in the quick ranking: higher quick score first, then
/// the upper row, then the left column.
pub open spec fn ranks_ahead(
    board: &Board,
    piece: &Piece,
    player: Player,
    contact: int,
    a: Position,
    b: Position,
) -> bool {
    let qa = quick_spec(board, piece, player, a, contact);
    let qb = quick_spec(board, piece, player, b, contact);
    qa > qb || (qa == qb && (a.y < b.y || (a.y == b.y && a.x < b.x)))
}

/// The legal placements ranked ahead of `p`.
pub open spec fn ranked_ahead_of(board: &Board, piece: &Piece, player: Player, p: Position) -> Set<
    Position,
> {
    Set::new(
        |r: Position|
            placements_spec(board, piece.cells@, player).contains(r) && ranks_ahead(
                board,
                piece,
                player,
                contact_distance(board, player),
                r,
                p,
            ),
    )
}

/// `p` is a legal placement among the `DEEP_EVALUATION` best of the quick ranking.
pub open spec fn deep_candidate(board: &Board, piece: &Piece, player: Player, p: Position) -> bool {
    let ps = placements_spec(board, piece.cells@, player);
    &&& ps.contains(p)
    &&& ranked_ahead_of(board, piece, player, p).len() < DEEP_EVALUATION
    &&& ranked_ahead_of(board, piece, player, p).len() < ps.len()
}

/// `p` scores at least as well as `q`, ties going to the upper-left one.
pub open spec fn at_least_as_good(board: &Board, piece: &Piece, player: Player, p: Position, q: Position) -> bool {
    let contact = contact_distance(board, player);
    let cp = combined_spec(board, piece, player, p, contact);
    let cq = combined_spec(board, piece, player, q, contact);
    cp > cq || (cp == cq && (p.y < q.y || (p.y == q.y && p.x <= q.x)))
}

/// A move ranked at least as good as another scores at least as high in the
/// deep stage, where a placement scores its quick score, plus three times its
/// projected territory, plus seven per cell of its own frontier, minus five per
/// cell of the enemy's frontier.
pub proof fn law_better_moves_score_higher(
    board: &Board,
    piece: &Piece,
    player: Player,
    p: Position,
    q: Position,
)
    requires
        at_least_as_good(board, piece, player, p, q),
    ensures
        quick_spec(board, piece, player, p, contact_distance(board, player)) + 3 * territory_spec(
            board,
            piece.cells@,
            player,
            p,
        ) + 7 * frontier_spec(board, piece.cells@, player, p, true).len() - 5 * frontier_spec(
            board,
            piece.cells@,
            player,
            p,
            false,
        ).len() >= quick_spec(board, piece, player, q, contact_distance(board, player)) + 3
            * territory_spec(board, piece.cells@, player, q) + 7 * frontier_spec(
            board,
            piece.cells@,
            player,
            q,
            true,
        ).len() - 5 * frontier_spec(board, piece.cells@, player, q, false).len(),
{
}

/// Of two placements that agree on the quick score, the territory and the own
/// frontier, the one with the larger enemy frontier scores strictly lower;
/// with a larger own frontier, strictly higher.
pub proof fn law_frontiers_move_the_deep_score(
    board: &Board,
    piece: &Piece,
    player: Player,
    p: Position,
    q: Position,
    contact: int,
)
    requires
        quick_spec(board, piece, player, p, contact) == quick_spec(board, piece, player, q, contact),
        territory_spec(board, piece.cells@, player, p) == territory_spec(board, piece.cells@, player, q),
    ensures
        frontier_spec(board, piece.cells@, player, p, true).len() == frontier_spec(
            board,
            piece.cells@,
            player,
            q,
            true,
        ).len() && frontier_spec(board, piece.cells@, player, p, false).len() < frontier_spec(
            board,
            piece.cells@,
            player,
            q,
            false,
        ).len() ==> combined_spec(board, piece, player, p, contact) > combined_spec(
            board,
            piece,
            player,
            q,
            contact,
        ),
        frontier_spec(board, piece.cells@, player, p, false).len() == frontier_spec(
            board,
            piece.cells@,
            player,
            q,
            false,
        ).len() && frontier_spec(board, piece.cells@, player, p, true).len() > frontier_spec(
            board,
            piece.cells@,
            player,
            q,
            true,
        ).len() ==> combined_spec(board, piece, player, p, contact) > combined_spec(
            board,
            piece,
            player,
            q,
            contact,
        ),
{
}

#[derive(Clone, Copy)]
struct ScoredMove {
    position: Position,
    score: i128,
}

spec fn key_ahead(a: ScoredMove, b: ScoredMove) -> bool {
    a.score > b.score || (a.score == b.score && (a.position.y < b.position.y || (a.position.y
        == b.position.y && a.position.x < b.position.x)))
}

fn sorts_before(a: &ScoredMove, b: &ScoredMove) -> (r: bool)
    ensures
        r == key_ahead(*a, *b),
{
    a.score > b.score || (a.score == b.score && (a.position.y < b.position.y || (a.position.y
        == b.position.y && a.position.x < b.position.x)))
}

spec fn positions(moves: Seq<ScoredMove>) -> Seq<Position> {
    moves.map_values(|m: ScoredMove| m.position)
}

/// In a sequence sorted strictly by the ranking and holding exactly the legal
/// placements, the placements ranked ahead of the `i`-th are the first `i`.
proof fn lemma_rank_is_index(board: &Board, piece: &Piece, player: Player, s: Seq<Position>, i: int)
    requires
        0 <= i < s.len(),
        forall|p: Position|
            #[trigger] s.contains(p) <==> placements_spec(board, piece.cells@, player).contains(p),
        forall|a: int, b: int|
            0 <= a < b < s.len() ==> ranks_ahead(
                board,
                piece,
                player,
                contact_distance(board, player),
                #[trigger] s[a],
                #[trigger] s[b],
            ),
    ensures
        ranked_ahead_of(board, piece, player, s[i]).len() == i,
{
    let contact = contact_distance(board, player);
    let t = s.take(i);
    assert forall|a: int, b: int| 0 <= a < t.len() && 0 <= b < t.len() && a != b implies t[a]
        != t[b] by {
        if a < b {
            assert(ranks_ahead(board, piece, player, contact, s[a], s[b]));
        } else {
            assert(ranks_ahead(board, piece, player, contact, s[b], s[a]));
        }
    }
    t.unique_seq_to_set();
    assert forall|r: Position| #[trigger]
        ranked_ahead_of(board, piece, player, s[i]).contains(r) <==> t.to_set().contains(r) by {
        if ranked_ahead_of(board, piece, player, s[i]).contains(r) {
            assert(s.contains(r));
            let j = choose|j: int| 0 <= j < s.len() && s[j] == r;
            if j >= i {
                if j > i {
                    assert(ranks_ahead(board, piece, player, contact, s[i], s[j]));
                }
            }
            assert(t[j] == r);
        }
        if t.to_set().contains(r) {
            let j = choose|j: int| 0 <= j < t.len() && t[j] == r;
            assert(s[j] == r);
            assert(s.contains(r));
            assert(ranks_ahead(board, piece, player, contact, s[j], s[i]));
        }
    }
    assert(ranked_ahead_of(board, piece, player, s[i]) =~= t.to_set());
}

proof fn lemma_wf_origins_fit(board: &Board, piece: &Piece)
    requires
        board.fits(),
        piece.fits(),
    ensures
        origins_fit(board, piece.cells@),
{
}

/// The move-selection strategy: deterministic, two-stage and heuristic.
#[derive(Default)]
pub struct Strategy;

impl Strategy {
    pub fn new() -> (s: Strategy) {
        Strategy
    }

    /// Chooses a legal placement, or `None` when there is none: the legal
    /// placements are ranked by quick score, the first `DEEP_EVALUATION` are
    /// scored again in depth, and the best of them wins, ties going to the
    /// upper-left one.
    pub fn choose_move(&self, board: &Board, piece: &Piece, player: Player) -> (result: Option<Position>)
        requires
            board.fits(),
            piece.fits(),
        ensures
            result is None <==> placements_spec(board, piece.cells@, player).len() == 0,
            result is None ==> forall|p: Position| !legal_placement(board, piece.cells@, player, p),
            result matches Some(p) ==> {
                &&& legal_placement(board, piece.cells@, player, p)
                &&& deep_candidate(board, piece, player, p)
                &&& forall|q: Position|
                    deep_candidate(board, piece, player, q) ==> at_least_as_good(
                        board,
                        piece,
                        player,
                        p,
                        q,
                    )
            },
    {
        proof {
            lemma_wf_origins_fit(board, piece);
        }
        let placements = generate_placements(board, piece, player);
        let ghost ps = placements@;
        let ghost contact_s = contact_distance(board, player);
        if placements.len() == 0 {
            proof {
                assert forall|p: Position| !legal_placement(board, piece.cells@, player, p) by {
                    if legal_placement(board, piece.cells@, player, p) {
                        assert(placements@.contains(p));
                    }
                }
            }
            return None;
        }
        proof {
            assert(ps.contains(ps[0]));
            lemma_legal_on_board(board, piece, player, ps[0]);
            let c = piece.cells@[0];
            assert(board.in_bounds(ps[0].x + c.x, ps[0].y + c.y));
            assert(board.wf());
            assert(piece.wf());
        }
        if placements.len() == 1 {
            let only = placements[0];
            proof {
                assert(ps.contains(only));
                assert(ranked_ahead_of(board, piece, player, only) =~= Set::empty()) by {
                    assert forall|r: Position| !ranked_ahead_of(board, piece, player, only).contains(r) by {
                        if ps.contains(r) {
                            let j = choose|j: int| 0 <= j < ps.len() && ps[j] == r;
                            assert(j == 0);
                        }
                    }
                }
                assert forall|q: Position| deep_candidate(board, piece, player, q) implies at_least_as_good(
                    board,
                    piece,
                    player,
                    only,
                    q,
                ) by {
                    let j = choose|j: int| 0 <= j < ps.len() && ps[j] == q;
                    assert(j == 0);
                }
            }
            return Some(only);
        }
        let no_extra: BTreeSet<(i32, i32)> = BTreeSet::new();
        let enemy = distance_field(board, player, false, &no_extra);
        assert(no_extra@ =~= Set::<(i32, i32)>::empty());
        let contact = closest_territory_distance(board, player, &enemy);
        let n = placements.len();
        let mut moves: Vec<ScoredMove> = Vec::new();
        let mut i: usize = 0;
        while i < n
            invariant
                board.wf(),
                piece.wf(),
                ps == placements@,
                ps == placements_spec(board, piece.cells@, player),
                ps.no_duplicates(),
                forall|k: int| 0 <= k < ps.len() ==> legal_placement(board, piece.cells@, player, #[trigger] ps[k]),
                n == ps.len(),
                is_enemy_field(board, player, enemy@),
                contact == contact_s,
                contact_s == contact_distance(board, player),
                i <= n,
                moves@.len() == i,
                forall|k: int|
                    0 <= k < moves@.len() ==> (#[trigger] moves@[k]).score == quick_spec(
                        board,
                        piece,
                        player,
                        moves@[k].position,
                        contact as int,
                    ),
                forall|k: int|
                    0 <= k < moves@.len() ==> -QUICK_BOUND <= (#[trigger] moves@[k]).score <= QUICK_BOUND,
                forall|a: int, b: int|
                    0 <= a < b < moves@.len() ==> key_ahead(#[trigger] moves@[a], #[trigger] moves@[b]),
                forall|p: Position|
                    #[trigger] positions(moves@).contains(p) <==> ps.take(i as int).contains(p),
            decreases n - i,
        {
            let position = placements[i];
            proof {
                assert(ps.contains(position));
                lemma_legal_on_board(board, piece, player, position);
                lemma_enemy_field_is_enemy_seq(board, player, enemy@);
            }
            let score = quick_score(board, piece, player, position, &enemy, contact);
            let new_move = ScoredMove { position, score };
            let mut j: usize = 0;
            while j < moves.len() && sorts_before(&moves[j], &new_move)
                invariant
                    j <= moves@.len(),
                    forall|k: int| 0 <= k < j ==> key_ahead(#[trigger] moves@[k], new_move),
                decreases moves@.len() - j,
            {
                j = j + 1;
            }
            let ghost old_moves = moves@;
            proof {
                let prev = ps.take(i as int);
                assert(!prev.contains(position)) by {
                    if prev.contains(position) {
                        let k = choose|k: int| 0 <= k < prev.len() && prev[k] == position;
                        assert(ps[k] == ps[i as int]);
                    }
                }
                assert forall|k: int| j <= k < old_moves.len() implies key_ahead(new_move, #[trigger] old_moves[k]) by {
                    assert(positions(old_moves).contains(old_moves[k].position)) by {
                        assert(positions(old_moves)[k] == old_moves[k].position);
                    }
                    assert(old_moves[k].position != position);
                    if k > j {
                        assert(key_ahead(old_moves[j as int], old_moves[k]));
                        assert(positions(old_moves).contains(old_moves[j as int].position)) by {
                            assert(positions(old_moves)[j as int] == old_moves[j as int].position);
                        }
                    }
                }
            }
            moves.insert(j, new_move);
            proof {
                let nm = moves@;
                assert(nm == old_moves.insert(j as int, new_move));
                old_moves.insert_ensures(j as int, new_move);
                assert forall|k: int|
                    0 <= k < nm.len() implies (#[trigger] nm[k]).score == quick_spec(
                    board,
                    piece,
                    player,
                    nm[k].position,
                    contact as int,
                ) by {
                    if k > j {
                        assert(nm[k] == old_moves[k - 1]);
                    }
                }
                assert forall|k: int|
                    0 <= k < nm.len() implies -QUICK_BOUND <= (#[trigger] nm[k]).score <= QUICK_BOUND by {
                    if k > j {
                        assert(nm[k] == old_moves[k - 1]);
                    }
                }
                assert forall|a: int, b: int| 0 <= a < b < nm.len() implies key_ahead(#[trigger] nm[a], #[trigger] nm[b]) by {
                    if b < j {
                    } else if b == j {
                    } else if a < j {
                        assert(nm[b] == old_moves[b - 1]);
                        if a + 1 <= b - 1 {
                            assert(key_ahead(old_moves[a], old_moves[b - 1]));
                        }
                    } else if a == j {
                        assert(nm[b] == old_moves[b - 1]);
                    } else {
                        assert(nm[a] == old_moves[a - 1]);
                        assert(nm[b] == old_moves[b - 1]);
                    }
                }
                let prev = ps.take(i as int);
                let next = ps.take(i + 1);
                assert(next =~= prev.push(position));
                assert forall|p: Position| #[trigger] positions(nm).contains(p) <==> next.contains(p) by {
                    if positions(nm).contains(p) {
                        let k = choose|k: int| 0 <= k < nm.len() && positions(nm)[k] == p;
                        if k < j {
                            assert(positions(old_moves)[k] == p);
                        } else if k > j {
                            assert(positions(old_moves)[k - 1] == p);
                        } else {
                            assert(next[i as int] == p);
                        }
                        if k != j {
                            assert(positions(old_moves).contains(p));
                            assert(prev.contains(p));
                            let m = choose|m: int| 0 <= m < prev.len() && prev[m] == p;
                            assert(next[m] == p);
                        }
                    }
                    if next.contains(p) {
                        let m = choose|m: int| 0 <= m < next.len() && next[m] == p;
                        if m < i {
                            assert(prev[m] == p);
                            assert(prev.contains(p));
                            assert(positions(old_moves).contains(p));
                            let k = choose|k: int| 0 <= k < old_moves.len() && positions(old_moves)[k] == p;
                            if k < j {
                                assert(positions(nm)[k] == p);
                            } else {
                                assert(positions(nm)[k + 1] == p);
                            }
                        } else {
                            assert(positions(nm)[j as int] == p);
                        }
                    }
                }
            }
            i = i + 1;
        }
        let ghost s = positions(moves@);
        proof {
            assert(ps.take(n as int) =~= ps);
            assert forall|a: int, b: int|
                0 <= a < b < s.len() implies ranks_ahead(board, piece, player, contact_s, #[trigger] s[a], #[trigger] s[b]) by {
                assert(key_ahead(moves@[a], moves@[b]));
            }
        }
        let limit = if moves.len() < DEEP_EVALUATION {
            moves.len()
        } else {
            DEEP_EVALUATION
        };
        let mut best_position = moves[0].position;
        let mut best_score: i128 = -1267650600228229401496703205376;
        let mut k: usize = 0;
        while k < limit
            invariant
                board.wf(),
                piece.wf(),
                ps == placements_spec(board, piece.cells@, player),
                forall|m: int| 0 <= m < ps.len() ==> legal_placement(board, piece.cells@, player, #[trigger] ps[m]),
                s == positions(moves@),
                s.len() == n,
                n == moves@.len(),
                is_enemy_field(board, player, enemy@),
                forall|m: int|
                    0 <= m < moves@.len() ==> -QUICK_BOUND <= (#[trigger] moves@[m]).score <= QUICK_BOUND,
                n >= 2,
                limit <= n,
                limit <= DEEP_EVALUATION,
                limit == n || limit == DEEP_EVALUATION,
                contact == contact_s,
                contact_s == contact_distance(board, player),
                forall|m: int|
                    0 <= m < moves@.len() ==> (#[trigger] moves@[m]).score == quick_spec(
                        board,
                        piece,
                        player,
                        moves@[m].position,
                        contact as int,
                    ),
                forall|p: Position| #[trigger] s.contains(p) <==> ps.contains(p),
                k <= limit,
                k == 0 ==> best_position == s[0] && best_score == -1267650600228229401496703205376,
                k > 0 ==> {
                    &&& exists|m: int| 0 <= m < k && s[m] == best_position
                    &&& best_score == combined_spec(board, piece, player, best_position, contact as int)
                    &&& forall|m: int| 0 <= m < k ==> at_least_as_good(board, piece, player, best_position, #[trigger] s[m])
                },
            decreases limit - k,
        {
            let position = moves[k].position;
            assert(s[k as int] == position);
            assert(s.contains(position));
            assert(ps.contains(position));
            let deep = territory_score(board, piece, player, position, &enemy);
            let frontier = projected_frontier(board, piece, player, position, true);
            let enemy_frontier = projected_frontier(board, piece, player, position, false);
            proof {
                lemma_grid_area(board.width as int, board.height as int);
                assert(4 * board.width * board.height <= 4 * 18446744073709551615) by (nonlinear_arith)
                    requires
                        board.width * board.height <= 18446744073709551615,
                ;
            }
            let combined = moves[k].score + deep * 3 + frontier as i128 * 7 - enemy_frontier as i128 * 5;
            assert(combined == combined_spec(board, piece, player, position, contact as int));
            let ghost old_best = best_position;
            if combined > best_score || (combined == best_score && prefer(position, best_position)) {
                best_position = position;
                best_score = combined;
            }
            proof {
                assert(at_least_as_good(board, piece, player, best_position, position));
                assert forall|m: int| 0 <= m < k + 1 implies at_least_as_good(board, piece, player, best_position, #[trigger] s[m]) by {
                    if m < k {
                        assert(at_least_as_good(board, piece, player, old_best, s[m]));
                    }
                }
                if best_position == position {
                    assert(s[k as int] == best_position);
                }
            }
            k = k + 1;
        }
        proof {
            assert forall|q: Position| deep_candidate(board, piece, player, q) implies at_least_as_good(
                board,
                piece,
                player,
                best_position,
                q,
            ) by {
                assert(s.contains(q));
                let m = choose|m: int| 0 <= m < s.len() && s[m] == q;
                lemma_rank_is_index(board, piece, player, s, m);
            }
            let m = choose|m: int| 0 <= m < k && s[m] == best_position;
            lemma_rank_is_index(board, piece, player, s, m);
            assert(s.contains(best_position));
            assert(ps.contains(best_position));
        }
        Some(best_position)
    }
}

} // verus!
