use std::collections::BTreeSet;
use vstd::prelude::*;

use crate::model::{Board, Piece, Player, Position, EMPTY};

verus! {

broadcast use {vstd::std_specs::btree::group_btree_axioms, vstd::laws_cmp::group_laws_cmp};

/// A piece cell may land on `(x, y)`: on the board, not on the opponent, and on
/// either own territory or an empty cell.
pub open spec fn cell_fits(board: &Board, player: Player, x: int, y: int) -> bool {
    &&& board.in_bounds(x, y)
    &&& !player.opposes(board.cell(x, y))
    &&& player.owns(board.cell(x, y)) || board.cell(x, y) == EMPTY
}

/// A piece cell landing on `(x, y)` covers own territory.
pub open spec fn covers_own(board: &Board, player: Player, x: int, y: int) -> bool {
    board.in_bounds(x, y) && player.owns(board.cell(x, y))
}

/// How many of the first `n` piece cells, placed at `pos`, cover own territory.
pub open spec fn own_overlaps(
    board: &Board,
    cells: Seq<Position>,
    player: Player,
    pos: Position,
    n: int,
) -> nat
    decreases n,
{
    if n <= 0 {
        0
    } else {
        own_overlaps(board, cells, player, pos, n - 1) + if covers_own(
            board,
            player,
            pos.x + cells[n - 1].x,
            pos.y + cells[n - 1].y,
        ) {
            1nat
        } else {
            0nat
        }
    }
}

/// The game's placement rule: every occupied piece cell lands on the board,
/// none on the opponent, none on a foreign non-empty cell, and exactly one on
/// own territory.
pub open spec fn legal_placement(
    board: &Board,
    cells: Seq<Position>,
    player: Player,
    pos: Position,
) -> bool {
    &&& forall|i: int|
        0 <= i < cells.len() ==> cell_fits(
            board,
            player,
            pos.x + (#[trigger] cells[i]).x,
            pos.y + cells[i].y,
        )
    &&& own_overlaps(board, cells, player, pos, cells.len() as int) == 1
}

proof fn lemma_own_overlaps_monotonic(
    board: &Board,
    cells: Seq<Position>,
    player: Player,
    pos: Position,
    k: int,
    n: int,
)
    requires
        0 <= k <= n,
    ensures
        own_overlaps(board, cells, player, pos, k) <= own_overlaps(board, cells, player, pos, n),
    decreases n - k,
{
    if k < n {
        lemma_own_overlaps_monotonic(board, cells, player, pos, k, n - 1);
    }
}

proof fn lemma_own_overlap_witness(
    board: &Board,
    cells: Seq<Position>,
    player: Player,
    pos: Position,
    n: int,
) -> (i: int)
    requires
        own_overlaps(board, cells, player, pos, n) > 0,
    ensures
        0 <= i < n,
        covers_own(board, player, pos.x + cells[i].x, pos.y + cells[i].y),
    decreases n,
{
    if covers_own(board, player, pos.x + cells[n - 1].x, pos.y + cells[n - 1].y) {
        n - 1
    } else {
        lemma_own_overlap_witness(board, cells, player, pos, n - 1)
    }
}

/// Whether the piece may be placed with its top-left corner at `position`.
pub fn validate_placement(board: &Board, piece: &Piece, player: Player, position: Position) -> (ok:
    bool)
    requires
        board.shaped(),
    ensures
        ok == legal_placement(board, piece.cells@, player, position),
{
    let ghost cells = piece.cells@;
    let n = piece.cells.len();
    let mut overlaps: usize = 0;
    let mut i: usize = 0;
    while i < n
        invariant
            cells == piece.cells@,
            n == cells.len(),
            i <= n,
            board.shaped(),
            forall|j: int|
                0 <= j < i ==> cell_fits(
                    board,
                    player,
                    position.x + (#[trigger] cells[j]).x,
                    position.y + cells[j].y,
                ),
            overlaps == own_overlaps(board, cells, player, position, i as int),
            overlaps <= 1,
        decreases n - i,
    {
        let cell = piece.cells[i];
        let x: i64 = position.x as i64 + cell.x as i64;
        let y: i64 = position.y as i64 + cell.y as i64;
        if x < 0 || y < 0 || x as u64 >= board.width as u64 || y as u64 >= board.height as u64 {
            assert(!cell_fits(board, player, position.x + cells[i as int].x, position.y + cells[i as int].y));
            return false;
        }
        let board_cell = board.rows[y as usize][x as usize];
        assert(board_cell == board.cell(x as int, y as int));
        if player.is_enemy(board_cell) {
            assert(!cell_fits(board, player, position.x + cells[i as int].x, position.y + cells[i as int].y));
            return false;
        }
        if player.is_own(board_cell) {
            overlaps = overlaps + 1;
            if overlaps > 1 {
                proof {
                    lemma_own_overlaps_monotonic(board, cells, player, position, i + 1, n as int);
                }
                return false;
            }
        } else if board_cell != EMPTY {
            assert(!cell_fits(board, player, position.x + cells[i as int].x, position.y + cells[i as int].y));
            return false;
        }
        i = i + 1;
    }
    overlaps == 1
}

/// The placement origin that puts piece cell `c` onto board cell `(x, y)`.
pub open spec fn origin_for(x: int, y: int, c: Position) -> Position {
    Position { x: (x - c.x) as i32, y: (y - c.y) as i32 }
}

/// The origins tried for board cell `(x, y)`: one per piece cell, in the piece's
/// order, when the cell is own territory; none otherwise.
pub open spec fn cell_candidates(
    board: &Board,
    cells: Seq<Position>,
    player: Player,
    x: int,
    y: int,
) -> Seq<Position> {
    if player.owns(board.cell(x, y)) {
        cells.map_values(|c: Position| origin_for(x, y, c))
    } else {
        Seq::empty()
    }
}

/// The origins tried for the first `n` cells of row `y`.
pub open spec fn row_candidates(
    board: &Board,
    cells: Seq<Position>,
    player: Player,
    y: int,
    n: int,
) -> Seq<Position>
    decreases n,
{
    if n <= 0 {
        Seq::empty()
    } else {
        row_candidates(board, cells, player, y, n - 1) + cell_candidates(
            board,
            cells,
            player,
            n - 1,
            y,
        )
    }
}

/// The origins tried for the first `m` rows, in row-major order.
pub open spec fn board_candidates(
    board: &Board,
    cells: Seq<Position>,
    player: Player,
    m: int,
) -> Seq<Position>
    decreases m,
{
    if m <= 0 {
        Seq::empty()
    } else {
        board_candidates(board, cells, player, m - 1) + row_candidates(
            board,
            cells,
            player,
            m - 1,
            board.width as int,
        )
    }
}

/// The legal origins of `s`, each at its first occurrence, in the order of `s`.
pub open spec fn first_legal(
    board: &Board,
    cells: Seq<Position>,
    player: Player,
    s: Seq<Position>,
) -> Seq<Position>
    decreases s.len(),
{
    if s.len() == 0 {
        Seq::empty()
    } else {
        let rest = first_legal(board, cells, player, s.drop_last());
        if !s.drop_last().contains(s.last()) && legal_placement(board, cells, player, s.last()) {
            rest.push(s.last())
        } else {
            rest
        }
    }
}

/// What `generate_placements` returns: every legal origin once, in the order in
/// which scanning own cells row by row and piece cells in order first reaches it.
pub open spec fn placements_spec(board: &Board, cells: Seq<Position>, player: Player) -> Seq<
    Position,
> {
    first_legal(board, cells, player, board_candidates(board, cells, player, board.height as int))
}

/// No origin computed from a board cell and a piece cell leaves `i32`.
pub open spec fn origins_fit(board: &Board, cells: Seq<Position>) -> bool {
    &&& board.width <= i32::MAX
    &&& board.height <= i32::MAX
    &&& forall|i: int|
        0 <= i < cells.len() ==> {
            &&& (#[trigger] cells[i]).x + i32::MAX >= board.width - 1
            &&& cells[i].y + i32::MAX >= board.height - 1
        }
}

proof fn lemma_first_legal(
    board: &Board,
    cells: Seq<Position>,
    player: Player,
    s: Seq<Position>,
)
    ensures
        first_legal(board, cells, player, s).no_duplicates(),
        forall|p: Position|
            #[trigger] first_legal(board, cells, player, s).contains(p) <==> (s.contains(p)
                && legal_placement(board, cells, player, p)),
    decreases s.len(),
{
    if s.len() > 0 {
        let pre = s.drop_last();
        lemma_first_legal(board, cells, player, pre);
        assert(s =~= pre.push(s.last()));
        let r = first_legal(board, cells, player, pre);
        assert forall|p: Position| s.contains(p) <==> (pre.contains(p) || p == s.last()) by {
            if s.contains(p) {
                let j = choose|j: int| 0 <= j < s.len() && s[j] == p;
                if j < s.len() - 1 {
                    assert(pre[j] == p);
                }
            }
            if pre.contains(p) {
                let j = choose|j: int| 0 <= j < pre.len() && pre[j] == p;
                assert(s[j] == p);
            }
        }
        if !pre.contains(s.last()) && legal_placement(board, cells, player, s.last()) {
            let r2 = r.push(s.last());
            assert forall|p: Position| r2.contains(p) <==> (r.contains(p) || p == s.last()) by {
                if r2.contains(p) {
                    let j = choose|j: int| 0 <= j < r2.len() && r2[j] == p;
                    if j < r.len() {
                        assert(r[j] == p);
                    }
                }
                if r.contains(p) {
                    let j = choose|j: int| 0 <= j < r.len() && r[j] == p;
                    assert(r2[j] == p);
                }
                if p == s.last() {
                    assert(r2[r.len() as int] == p);
                }
            }
            assert forall|a: int, b: int| 0 <= a < r2.len() && 0 <= b < r2.len() && a != b implies r2[a]
                != r2[b] by {
                if a < r.len() && b < r.len() {
                } else if a < r.len() {
                    assert(r.contains(r2[a]));
                } else if b < r.len() {
                    assert(r.contains(r2[b]));
                }
            }
        }
    }
}

proof fn lemma_row_contains(
    board: &Board,
    cells: Seq<Position>,
    player: Player,
    x: int,
    y: int,
    n: int,
    i: int,
)
    requires
        0 <= x < n,
        0 <= i < cell_candidates(board, cells, player, x, y).len(),
    ensures
        row_candidates(board, cells, player, y, n).contains(
            cell_candidates(board, cells, player, x, y)[i],
        ),
    decreases n,
{
    let a = row_candidates(board, cells, player, y, n - 1);
    let b = cell_candidates(board, cells, player, n - 1, y);
    let r = row_candidates(board, cells, player, y, n);
    assert(r == a + b);
    if x == n - 1 {
        assert(r[a.len() + i] == b[i]);
    } else {
        lemma_row_contains(board, cells, player, x, y, n - 1, i);
        let j = choose|j: int| 0 <= j < a.len() && a[j] == cell_candidates(board, cells, player, x, y)[i];
        assert(r[j] == a[j]);
    }
}

proof fn lemma_board_contains(
    board: &Board,
    cells: Seq<Position>,
    player: Player,
    y: int,
    m: int,
    p: Position,
)
    requires
        0 <= y < m,
        row_candidates(board, cells, player, y, board.width as int).contains(p),
    ensures
        board_candidates(board, cells, player, m).contains(p),
    decreases m,
{
    let a = board_candidates(board, cells, player, m - 1);
    let b = row_candidates(board, cells, player, m - 1, board.width as int);
    let r = board_candidates(board, cells, player, m);
    assert(r == a + b);
    if y == m - 1 {
        let j = choose|j: int| 0 <= j < b.len() && b[j] == p;
        assert(r[a.len() + j] == p);
    } else {
        lemma_board_contains(board, cells, player, y, m - 1, p);
        let j = choose|j: int| 0 <= j < a.len() && a[j] == p;
        assert(r[j] == p);
    }
}

/// Every legal origin is among the candidates that the scan tries.
proof fn lemma_legal_is_candidate(board: &Board, cells: Seq<Position>, player: Player, p: Position)
    requires
        origins_fit(board, cells),
        legal_placement(board, cells, player, p),
    ensures
        board_candidates(board, cells, player, board.height as int).contains(p),
{
    let i = lemma_own_overlap_witness(board, cells, player, p, cells.len() as int);
    let bx = p.x + cells[i].x;
    let by = p.y + cells[i].y;
    let cc = cell_candidates(board, cells, player, bx, by);
    assert(cc[i] == origin_for(bx, by, cells[i]));
    assert(cc[i] == p);
    lemma_row_contains(board, cells, player, bx, by, board.width as int, i);
    lemma_board_contains(board, cells, player, by, board.height as int, p);
}

/// The placements found are exactly the legal ones, each once: every one is
/// legal (none past an edge, none on the opponent, exactly one own overlap),
/// and no legal origin is missed, however far it lies from the scanned cells.
pub proof fn law_placements_are_the_legal_ones(
    board: &Board,
    cells: Seq<Position>,
    player: Player,
    p: Position,
)
    requires
        origins_fit(board, cells),
    ensures
        placements_spec(board, cells, player).contains(p) <==> legal_placement(board, cells, player, p),
        placements_spec(board, cells, player).no_duplicates(),
{
    let all = board_candidates(board, cells, player, board.height as int);
    lemma_first_legal(board, cells, player, all);
    if legal_placement(board, cells, player, p) {
        lemma_legal_is_candidate(board, cells, player, p);
    }
}

/// Every legal origin of the piece, each once, found by aligning each occupied
/// piece cell with each own territory cell.
pub fn generate_placements(board: &Board, piece: &Piece, player: Player) -> (placements: Vec<
    Position,
>)
    requires
        board.shaped(),
        origins_fit(board, piece.cells@),
    ensures
        placements@ == placements_spec(board, piece.cells@, player),
        forall|i: int|
            0 <= i < placements@.len() ==> legal_placement(
                board,
                piece.cells@,
                player,
                #[trigger] placements@[i],
            ),
        forall|p: Position|
            legal_placement(board, piece.cells@, player, p) ==> #[trigger] placements@.contains(p),
        placements@.no_duplicates(),
{
    let ghost cells = piece.cells@;
    let mut seen: BTreeSet<(i32, i32)> = BTreeSet::new();
    let mut placements: Vec<Position> = Vec::new();
    if piece.cells.len() == 0 {
        proof {
            assert forall|p: Position| !legal_placement(board, cells, player, p) by {
                assert(own_overlaps(board, cells, player, p, 0) == 0);
            }
            lemma_first_legal(board, cells, player, board_candidates(board, cells, player, board.height as int));
            assert(placements_spec(board, cells, player) =~= Seq::<Position>::empty()) by {
                let s = placements_spec(board, cells, player);
                if s.len() > 0 {
                    assert(s.contains(s[0]));
                }
            }
        }
        return placements;
    }
    let n = piece.cells.len();
    let mut y: usize = 0;
    while y < board.height
        invariant
            cells == piece.cells@,
            n == cells.len(),
            board.shaped(),
            origins_fit(board, cells),
            y <= board.height,
            placements@ == first_legal(board, cells, player, board_candidates(board, cells, player, y as int)),
            forall|k: (i32, i32)|
                #[trigger] seen@.contains(k) <==> board_candidates(board, cells, player, y as int).contains(
                    Position { x: k.0, y: k.1 },
                ),
        decreases board.height - y,
    {
        let ghost before_row = board_candidates(board, cells, player, y as int);
        let mut x: usize = 0;
        while x < board.width
            invariant
                cells == piece.cells@,
                n == cells.len(),
                board.shaped(),
                origins_fit(board, cells),
                y < board.height,
                x <= board.width,
                before_row == board_candidates(board, cells, player, y as int),
                placements@ == first_legal(board, cells, player, before_row + row_candidates(board, cells, player, y as int, x as int)),
                forall|k: (i32, i32)|
                    #[trigger] seen@.contains(k) <==> (before_row + row_candidates(board, cells, player, y as int, x as int)).contains(
                        Position { x: k.0, y: k.1 },
                    ),
            decreases board.width - x,
        {
            let ghost before_cell = before_row + row_candidates(board, cells, player, y as int, x as int);
            let ghost cc = cell_candidates(board, cells, player, x as int, y as int);
            assert(before_row + row_candidates(board, cells, player, y as int, x + 1) =~= before_cell + cc);
            let board_cell = board.rows[y][x];
            assert(board_cell == board.cell(x as int, y as int));
            if !player.is_own(board_cell) {
                assert(before_cell + cc =~= before_cell);
                x = x + 1;
                continue;
            }
            let mut i: usize = 0;
            while i < n
                invariant
                    cells == piece.cells@,
                    n == cells.len(),
                    board.shaped(),
                    origins_fit(board, cells),
                    y < board.height,
                    x < board.width,
                    i <= n,
                    cc == cell_candidates(board, cells, player, x as int, y as int),
                    cc.len() == n,
                    placements@ == first_legal(board, cells, player, before_cell + cc.take(i as int)),
                    forall|k: (i32, i32)|
                        #[trigger] seen@.contains(k) <==> (before_cell + cc.take(i as int)).contains(
                            Position { x: k.0, y: k.1 },
                        ),
                decreases n - i,
            {
                let piece_cell = piece.cells[i];
                let candidate = Position { x: x as i32 - piece_cell.x, y: y as i32 - piece_cell.y };
                let ghost prefix = before_cell + cc.take(i as int);
                let ghost next = before_cell + cc.take(i + 1);
                assert(cc[i as int] == candidate);
                assert(next =~= prefix.push(candidate));
                assert(next.drop_last() =~= prefix);
                assert forall|p: Position| next.contains(p) <==> (prefix.contains(p) || p == candidate) by {
                    if next.contains(p) {
                        let j = choose|j: int| 0 <= j < next.len() && next[j] == p;
                        if j < prefix.len() {
                            assert(prefix[j] == p);
                        }
                    }
                    if prefix.contains(p) {
                        let j = choose|j: int| 0 <= j < prefix.len() && prefix[j] == p;
                        assert(next[j] == p);
                    }
                    if p == candidate {
                        assert(next[prefix.len() as int] == p);
                    }
                }
                let fresh = seen.insert((candidate.x, candidate.y));
                assert(fresh == !prefix.contains(candidate));
                if fresh {
                    if validate_placement(board, piece, player, candidate) {
                        placements.push(candidate);
                    }
                }
                i = i + 1;
            }
            assert(cc.take(n as int) =~= cc);
            x = x + 1;
        }
        assert(board_candidates(board, cells, player, y + 1) =~= before_row + row_candidates(board, cells, player, y as int, board.width as int));
        y = y + 1;
    }
    proof {
        let all = board_candidates(board, cells, player, board.height as int);
        lemma_first_legal(board, cells, player, all);
        assert forall|p: Position| legal_placement(board, cells, player, p) implies #[trigger] placements@.contains(p) by {
            lemma_legal_is_candidate(board, cells, player, p);
        }
        assert forall|i: int| 0 <= i < placements@.len() implies legal_placement(board, cells, player, #[trigger] placements@[i]) by {
            assert(placements@.contains(placements@[i]));
        }
    }
    placements
}

} // verus!
