use std::collections::{BTreeSet, VecDeque};
use vstd::prelude::*;

use crate::model::{Board, Player, P1_LAST, P1_STABLE, P2_LAST, P2_STABLE};

verus! {

broadcast use {vstd::std_specs::btree::group_btree_axioms, vstd::laws_cmp::group_laws_cmp};

/// The distance given to a cell that no seed reaches: a quarter of `i32::MAX`.
pub const INFINITE_DISTANCE: i32 = 536870911;

pub open spec fn abs_diff(a: int, b: int) -> int {
    if a >= b {
        a - b
    } else {
        b - a
    }
}

/// Manhattan distance: the number of orthogonal steps between two cells.
pub open spec fn l1(ax: int, ay: int, bx: int, by: int) -> int {
    abs_diff(ax, bx) + abs_diff(ay, by)
}

pub open spec fn min_int(a: int, b: int) -> int {
    if a <= b {
        a
    } else {
        b
    }
}

/// Where cell `(x, y)` of a `w`-wide grid sits in a row-major flat vector.
pub open spec fn idx(w: int, x: int, y: int) -> int {
    y * w + x
}

/// `(x, y)` seeds a distance field: it is on the board and holds own
/// (`own`) or enemy (`!own`) territory, or it is one of the `extra` cells.
pub open spec fn is_seed(
    board: &Board,
    player: Player,
    own: bool,
    extra: Set<(i32, i32)>,
    x: int,
    y: int,
) -> bool {
    &&& board.in_bounds(x, y)
    &&& (if own {
        player.owns(board.cell(x, y))
    } else {
        player.opposes(board.cell(x, y))
    }) || extra.contains((x as i32, y as i32))
}

/// The least distance from `(x, y)` to a seed that comes before cell `(c, r)` in
/// row-major order, or `INFINITE_DISTANCE` when there is none (or it is larger).
pub open spec fn seed_min(
    board: &Board,
    player: Player,
    own: bool,
    extra: Set<(i32, i32)>,
    x: int,
    y: int,
    r: int,
    c: int,
) -> int
    decreases r, c,
{
    if r < 0 || c < 0 {
        INFINITE_DISTANCE as int
    } else if c == 0 {
        if r == 0 {
            INFINITE_DISTANCE as int
        } else {
            seed_min(board, player, own, extra, x, y, r - 1, board.width as int)
        }
    } else {
        let m = seed_min(board, player, own, extra, x, y, r, c - 1);
        if is_seed(board, player, own, extra, c - 1, r) {
            min_int(m, l1(x, y, c - 1, r))
        } else {
            m
        }
    }
}

/// The distance field: for each cell, the Manhattan distance to the nearest
/// seed, or `INFINITE_DISTANCE` when the board has no seed.
pub open spec fn field(
    board: &Board,
    player: Player,
    own: bool,
    extra: Set<(i32, i32)>,
    x: int,
    y: int,
) -> int {
    seed_min(board, player, own, extra, x, y, board.height as int, 0)
}

pub proof fn lemma_seed_min_range(
    board: &Board,
    player: Player,
    own: bool,
    extra: Set<(i32, i32)>,
    x: int,
    y: int,
    r: int,
    c: int,
)
    ensures
        0 <= seed_min(board, player, own, extra, x, y, r, c) <= INFINITE_DISTANCE,
    decreases r, c,
{
    if r < 0 || c < 0 {
    } else if c == 0 {
        if r > 0 {
            lemma_seed_min_range(board, player, own, extra, x, y, r - 1, board.width as int);
        }
    } else {
        lemma_seed_min_range(board, player, own, extra, x, y, r, c - 1);
    }
}

proof fn lemma_seed_min_at_most(
    board: &Board,
    player: Player,
    own: bool,
    extra: Set<(i32, i32)>,
    x: int,
    y: int,
    r: int,
    c: int,
    sx: int,
    sy: int,
)
    requires
        0 <= c <= board.width,
        is_seed(board, player, own, extra, sx, sy),
        sy < r || (sy == r && sx < c),
    ensures
        seed_min(board, player, own, extra, x, y, r, c) <= l1(x, y, sx, sy),
    decreases r, c,
{
    if c == 0 {
        if r > 0 {
            lemma_seed_min_at_most(board, player, own, extra, x, y, r - 1, board.width as int, sx, sy);
        }
    } else if sy == r && sx == c - 1 {
    } else {
        lemma_seed_min_at_most(board, player, own, extra, x, y, r, c - 1, sx, sy);
    }
}

proof fn lemma_seed_min_at_least(
    board: &Board,
    player: Player,
    own: bool,
    extra: Set<(i32, i32)>,
    x: int,
    y: int,
    r: int,
    c: int,
    v: int,
)
    requires
        v <= INFINITE_DISTANCE,
        forall|sx: int, sy: int|
            #[trigger] is_seed(board, player, own, extra, sx, sy) ==> v <= l1(x, y, sx, sy),
    ensures
        v <= seed_min(board, player, own, extra, x, y, r, c),
    decreases r, c,
{
    if r < 0 || c < 0 {
    } else if c == 0 {
        if r > 0 {
            lemma_seed_min_at_least(board, player, own, extra, x, y, r - 1, board.width as int, v);
        }
    } else {
        lemma_seed_min_at_least(board, player, own, extra, x, y, r, c - 1, v);
    }
}

proof fn lemma_seed_min_step(
    board: &Board,
    player: Player,
    own: bool,
    extra: Set<(i32, i32)>,
    x: int,
    y: int,
    nx: int,
    ny: int,
    r: int,
    c: int,
)
    requires
        l1(x, y, nx, ny) <= 1,
    ensures
        seed_min(board, player, own, extra, nx, ny, r, c) <= seed_min(
            board,
            player,
            own,
            extra,
            x,
            y,
            r,
            c,
        ) + 1,
    decreases r, c,
{
    if r < 0 || c < 0 {
    } else if c == 0 {
        if r > 0 {
            lemma_seed_min_step(board, player, own, extra, x, y, nx, ny, r - 1, board.width as int);
        }
    } else {
        lemma_seed_min_step(board, player, own, extra, x, y, nx, ny, r, c - 1);
    }
}

/// The field changes by at most one between neighbouring cells.
pub proof fn lemma_field_step(
    board: &Board,
    player: Player,
    own: bool,
    extra: Set<(i32, i32)>,
    x: int,
    y: int,
    nx: int,
    ny: int,
)
    requires
        l1(x, y, nx, ny) <= 1,
    ensures
        field(board, player, own, extra, nx, ny) <= field(board, player, own, extra, x, y) + 1,
{
    lemma_seed_min_step(board, player, own, extra, x, y, nx, ny, board.height as int, 0);
}

/// Every field value lies in `0..=INFINITE_DISTANCE`, is 0 on a seed and at
/// most the distance to any seed.
pub proof fn lemma_field_bounds(
    board: &Board,
    player: Player,
    own: bool,
    extra: Set<(i32, i32)>,
    x: int,
    y: int,
)
    ensures
        0 <= field(board, player, own, extra, x, y) <= INFINITE_DISTANCE,
        forall|sx: int, sy: int|
            #[trigger] is_seed(board, player, own, extra, sx, sy) ==> field(
                board,
                player,
                own,
                extra,
                x,
                y,
            ) <= l1(x, y, sx, sy),
{
    lemma_seed_min_range(board, player, own, extra, x, y, board.height as int, 0);
    assert forall|sx: int, sy: int| #[trigger]
        is_seed(board, player, own, extra, sx, sy) implies field(
        board,
        player,
        own,
        extra,
        x,
        y,
    ) <= l1(x, y, sx, sy) by {
        if board.height > 0 {
            lemma_seed_min_at_most(
                board,
                player,
                own,
                extra,
                x,
                y,
                board.height - 1,
                board.width as int,
                sx,
                sy,
            );
        }
    }
}

proof fn lemma_seed_min_witness(
    board: &Board,
    player: Player,
    own: bool,
    extra: Set<(i32, i32)>,
    x: int,
    y: int,
    r: int,
    c: int,
)
    ensures
        seed_min(board, player, own, extra, x, y, r, c) == INFINITE_DISTANCE || exists|
            sx: int,
            sy: int,
        |
            #[trigger] is_seed(board, player, own, extra, sx, sy) && seed_min(
                board,
                player,
                own,
                extra,
                x,
                y,
                r,
                c,
            ) == l1(x, y, sx, sy),
    decreases r, c,
{
    if r < 0 || c < 0 {
    } else if c == 0 {
        if r > 0 {
            lemma_seed_min_witness(board, player, own, extra, x, y, r - 1, board.width as int);
        }
    } else {
        lemma_seed_min_witness(board, player, own, extra, x, y, r, c - 1);
        let m = seed_min(board, player, own, extra, x, y, r, c - 1);
        if is_seed(board, player, own, extra, c - 1, r) && l1(x, y, c - 1, r) <= m {
            assert(is_seed(board, player, own, extra, c - 1, r));
        }
    }
}

/// The distance field holds, at every cell of the board, the least Manhattan
/// distance to a seed, and `INFINITE_DISTANCE` where the board has no seed.
pub proof fn law_field_is_nearest_seed(
    board: &Board,
    player: Player,
    own: bool,
    extra: Set<(i32, i32)>,
    x: int,
    y: int,
)
    requires
        board.wf(),
        board.in_bounds(x, y),
    ensures
        forall|sx: int, sy: int|
            #[trigger] is_seed(board, player, own, extra, sx, sy) ==> field(
                board,
                player,
                own,
                extra,
                x,
                y,
            ) <= l1(x, y, sx, sy),
        (exists|sx: int, sy: int| #[trigger] is_seed(board, player, own, extra, sx, sy)) ==> exists|
            sx: int,
            sy: int,
        |
            #[trigger] is_seed(board, player, own, extra, sx, sy) && field(
                board,
                player,
                own,
                extra,
                x,
                y,
            ) == l1(x, y, sx, sy),
        (forall|sx: int, sy: int| !#[trigger] is_seed(board, player, own, extra, sx, sy)) ==> field(
            board,
            player,
            own,
            extra,
            x,
            y,
        ) == INFINITE_DISTANCE,
{
    lemma_field_bounds(board, player, own, extra, x, y);
    lemma_seed_min_witness(board, player, own, extra, x, y, board.height as int, 0);
    if exists|sx: int, sy: int| #[trigger] is_seed(board, player, own, extra, sx, sy) {
        let (sx, sy) = choose|sx: int, sy: int| #[trigger] is_seed(board, player, own, extra, sx, sy);
        assert(l1(x, y, sx, sy) < INFINITE_DISTANCE);
    } else {
        lemma_seed_min_at_least(
            board,
            player,
            own,
            extra,
            x,
            y,
            board.height as int,
            0,
            INFINITE_DISTANCE as int,
        );
    }
}

/// On the board, the field is 0 exactly on the seeds.
pub proof fn law_field_zero_on_seeds(
    board: &Board,
    player: Player,
    own: bool,
    extra: Set<(i32, i32)>,
    x: int,
    y: int,
)
    requires
        board.in_bounds(x, y),
    ensures
        field(board, player, own, extra, x, y) == 0 <==> is_seed(board, player, own, extra, x, y),
{
    lemma_field_bounds(board, player, own, extra, x, y);
    if !is_seed(board, player, own, extra, x, y) {
        assert forall|sx: int, sy: int| #[trigger]
            is_seed(board, player, own, extra, sx, sy) implies 1 <= l1(x, y, sx, sy) by {
        }
        lemma_seed_min_at_least(board, player, own, extra, x, y, board.height as int, 0, 1);
    }
}

proof fn lemma_idx_bounds(w: int, h: int, x: int, y: int)
    requires
        0 <= x < w,
        0 <= y < h,
    ensures
        0 <= idx(w, x, y) < w * h,
        idx(w, x, y) + w <= w * h || y == h - 1,
{
    assert(0 <= y * w + x < w * h) by (nonlinear_arith)
        requires
            0 <= x < w,
            0 <= y < h,
    ;
    assert(y * w + x + w <= w * h || y == h - 1) by (nonlinear_arith)
        requires
            0 <= x < w,
            0 <= y < h,
    ;
}

pub proof fn lemma_grid_area(w: int, h: int)
    requires
        0 <= w,
        0 <= h,
    ensures
        0 <= w * h,
        1 <= w ==> h <= w * h,
        1 <= h ==> w <= w * h,
{
    assert(0 <= w * h) by (nonlinear_arith)
        requires
            0 <= w,
            0 <= h,
    ;
    assert(1 <= w ==> h <= w * h) by (nonlinear_arith)
        requires
            0 <= h,
    ;
    assert(1 <= h ==> w <= w * h) by (nonlinear_arith)
        requires
            0 <= w,
    ;
}

proof fn lemma_idx_injective(w: int, x: int, y: int, x2: int, y2: int)
    requires
        0 <= x < w,
        0 <= x2 < w,
        0 <= y,
        0 <= y2,
        idx(w, x, y) == idx(w, x2, y2),
    ensures
        x == x2 && y == y2,
{
    assert(y == y2) by (nonlinear_arith)
        requires
            0 <= x < w,
            0 <= x2 < w,
            0 <= y,
            0 <= y2,
            y * w + x == y2 * w + x2,
    ;
}

pub proof fn lemma_idx_next_row(w: int, y: int)
    ensures
        idx(w, 0, y + 1) == idx(w, w, y),
{
    assert((y + 1) * w == y * w + w) by (nonlinear_arith);
}

pub open spec fn seq_sum(s: Seq<i32>) -> int
    decreases s.len(),
{
    if s.len() == 0 {
        0
    } else {
        seq_sum(s.drop_last()) + s.last()
    }
}

proof fn lemma_sum_update(s: Seq<i32>, i: int, v: i32)
    requires
        0 <= i < s.len(),
    ensures
        seq_sum(s.update(i, v)) == seq_sum(s) - s[i] + v,
    decreases s.len(),
{
    let t = s.update(i, v);
    if i == s.len() - 1 {
        assert(t.drop_last() =~= s.drop_last());
    } else {
        assert(t.drop_last() =~= s.drop_last().update(i, v));
        lemma_sum_update(s.drop_last(), i, v);
    }
}

proof fn lemma_sum_nonneg(s: Seq<i32>)
    requires
        forall|i: int| 0 <= i < s.len() ==> s[i] >= 0,
    ensures
        seq_sum(s) >= 0,
    decreases s.len(),
{
    if s.len() > 0 {
        lemma_sum_nonneg(s.drop_last());
    }
}

/// `(x, y)` still waits in the queue, at or after `head`.
pub open spec fn pending(q: Seq<(usize, usize)>, head: int, x: int, y: int) -> bool {
    exists|j: int| head <= j < q.len() && q[j].0 == x && q[j].1 == y
}

/// In a `w` by `h` grid, no value exceeds a neighbour's by more than one,
/// except around cells that still wait in the queue.
pub open spec fn settled(d: Seq<i32>, q: Seq<(usize, usize)>, head: int, w: int, h: int) -> bool {
    forall|x: int, y: int, nx: int, ny: int|
        #![trigger d[idx(w, x, y)], d[idx(w, nx, ny)]]
        0 <= x < w && 0 <= y < h && 0 <= nx < w && 0 <= ny < h && l1(x, y, nx, ny) == 1
            && !pending(q, head, x, y) ==> d[idx(w, nx, ny)] <= d[idx(w, x, y)] + 1
}

proof fn lemma_path(d: Seq<i32>, w: int, h: int, x: int, y: int, sx: int, sy: int)
    requires
        settled(d, Seq::empty(), 0, w, h),
        0 <= x < w,
        0 <= y < h,
        0 <= sx < w,
        0 <= sy < h,
    ensures
        d[idx(w, x, y)] <= d[idx(w, sx, sy)] + l1(x, y, sx, sy),
    decreases l1(x, y, sx, sy),
{
    if x < sx {
        lemma_path(d, w, h, x + 1, y, sx, sy);
        assert(d[idx(w, x, y)] <= d[idx(w, x + 1, y)] + 1);
    } else if x > sx {
        lemma_path(d, w, h, x - 1, y, sx, sy);
        assert(d[idx(w, x, y)] <= d[idx(w, x - 1, y)] + 1);
    } else if y < sy {
        lemma_path(d, w, h, x, y + 1, sx, sy);
        assert(d[idx(w, x, y)] <= d[idx(w, x, y + 1)] + 1);
    } else if y > sy {
        lemma_path(d, w, h, x, y - 1, sx, sy);
        assert(d[idx(w, x, y)] <= d[idx(w, x, y - 1)] + 1);
    }
}

/// Lowers the distance of `(nx, ny)` to `cur + 1` when that is an improvement,
/// and queues the cell then.
fn relax(d: &mut Vec<i32>, q: &mut VecDeque<(usize, usize)>, w: usize, h: usize, nx: i64, ny: i64, cur: i32)
    requires
        1 <= w,
        1 <= h,
        w + h <= INFINITE_DISTANCE,
        w * h <= usize::MAX,
        old(d)@.len() == w * h,
        forall|i: int| 0 <= i < old(d)@.len() ==> 0 <= #[trigger] old(d)@[i] <= INFINITE_DISTANCE,
        0 <= cur <= INFINITE_DISTANCE,
    ensures
        final(d)@.len() == w * h,
        forall|i: int|
            0 <= i < final(d)@.len() ==> 0 <= #[trigger] final(d)@[i] <= old(d)@[i],
        forall|x: int, y: int|
            0 <= x < w && 0 <= y < h && #[trigger] final(d)@[idx(w as int, x, y)] != old(d)@[idx(
                w as int,
                x,
                y,
            )] ==> x == nx && y == ny && final(d)@[idx(w as int, x, y)] == cur + 1,
        0 <= nx < w && 0 <= ny < h ==> final(d)@[idx(w as int, nx as int, ny as int)] <= cur + 1,
        (final(q)@ == old(q)@ && final(d)@ == old(d)@) || (final(q)@ == old(q)@.push(
            (nx as usize, ny as usize),
        ) && 0 <= nx < w && 0 <= ny < h && seq_sum(final(d)@) < seq_sum(old(d)@)),
{
    if nx < 0 || ny < 0 || nx >= w as i64 || ny >= h as i64 {
        return;
    }
    let x = nx as usize;
    let y = ny as usize;
    proof {
        lemma_idx_bounds(w as int, h as int, x as int, y as int);
        lemma_grid_area(w as int, h as int);
        assert(y * w + x < w * h);
    }
    let i = y * w + x;
    if d[i] <= cur + 1 {
        return;
    }
    let ghost before = d@;
    d.set(i, cur + 1);
    proof {
        lemma_sum_update(before, i as int, (cur + 1) as i32);
        assert forall|x2: int, y2: int|
            0 <= x2 < w && 0 <= y2 < h && #[trigger] d@[idx(w as int, x2, y2)] != before[idx(
                w as int,
                x2,
                y2,
            )] implies x2 == nx && y2 == ny && d@[idx(w as int, x2, y2)] == cur + 1 by {
            if idx(w as int, x2, y2) != i {
                lemma_idx_bounds(w as int, h as int, x2, y2);
            } else {
                lemma_idx_injective(w as int, x2, y2, x as int, y as int);
            }
        }
    }
    q.push_back((x, y));
}

proof fn lemma_pending_extend(q1: Seq<(usize, usize)>, q2: Seq<(usize, usize)>, head: int, x: int, y: int)
    requires
        0 <= head,
        q1.len() <= q2.len(),
        forall|j: int| 0 <= j < q1.len() ==> q2[j] == q1[j],
        pending(q1, head, x, y),
    ensures
        pending(q2, head, x, y),
{
    let j = choose|j: int| head <= j < q1.len() && q1[j].0 == x && q1[j].1 == y;
    assert(q2[j] == q1[j]);
}

/// Relaxes the four orthogonal neighbours of `(cx, cy)` against distance `cur`.
fn relax_neighbors(
    d: &mut Vec<i32>,
    q: &mut VecDeque<(usize, usize)>,
    w: usize,
    h: usize,
    cx: usize,
    cy: usize,
    cur: i32,
)
    requires
        1 <= w,
        1 <= h,
        w + h <= INFINITE_DISTANCE,
        w * h <= usize::MAX,
        cx < w,
        cy < h,
        old(d)@.len() == w * h,
        forall|i: int| 0 <= i < old(d)@.len() ==> 0 <= #[trigger] old(d)@[i] <= INFINITE_DISTANCE,
        0 <= cur <= INFINITE_DISTANCE,
    ensures
        final(d)@.len() == w * h,
        forall|i: int|
            0 <= i < final(d)@.len() ==> 0 <= #[trigger] final(d)@[i] <= old(d)@[i],
        forall|x: int, y: int|
            0 <= x < w && 0 <= y < h && #[trigger] final(d)@[idx(w as int, x, y)] != old(d)@[idx(
                w as int,
                x,
                y,
            )] ==> l1(x, y, cx as int, cy as int) == 1 && final(d)@[idx(w as int, x, y)] == cur + 1
                && pending(final(q)@, old(q)@.len() as int, x, y),
        forall|nx: int, ny: int|
            0 <= nx < w && 0 <= ny < h && l1(cx as int, cy as int, nx, ny) == 1
                ==> #[trigger] final(d)@[idx(w as int, nx, ny)] <= cur + 1,
        old(q)@.len() <= final(q)@.len(),
        forall|j: int| 0 <= j < old(q)@.len() ==> final(q)@[j] == old(q)@[j],
        forall|j: int|
            old(q)@.len() <= j < final(q)@.len() ==> (#[trigger] final(q)@[j]).0 < w
                && final(q)@[j].1 < h,
        (final(q)@ == old(q)@ && final(d)@ == old(d)@) || seq_sum(final(d)@) < seq_sum(old(d)@),
{
    let ghost d0 = d@;
    let ghost q0 = q@;
    relax(d, q, w, h, cx as i64 + 1, cy as i64, cur);
    let ghost d1 = d@;
    let ghost q1 = q@;
    relax(d, q, w, h, cx as i64 - 1, cy as i64, cur);
    let ghost d2 = d@;
    let ghost q2 = q@;
    relax(d, q, w, h, cx as i64, cy as i64 + 1, cur);
    let ghost d3 = d@;
    let ghost q3 = q@;
    relax(d, q, w, h, cx as i64, cy as i64 - 1, cur);
    let ghost d4 = d@;
    let ghost q4 = q@;
    proof {
        let ww = w as int;
        assert forall|x: int, y: int|
            0 <= x < w && 0 <= y < h && #[trigger] d4[idx(ww, x, y)] != d0[idx(ww, x, y)] implies l1(
            x,
            y,
            cx as int,
            cy as int,
        ) == 1 && d4[idx(ww, x, y)] == cur + 1 && pending(q4, q0.len() as int, x, y) by {
            lemma_idx_bounds(ww, h as int, x, y);
            let i = idx(ww, x, y);
            if d4[i] != d3[i] {
                assert(q4[q3.len() as int] == (x as usize, y as usize));
            } else if d3[i] != d2[i] {
                assert(q3[q2.len() as int] == (x as usize, y as usize));
                assert(pending(q3, q0.len() as int, x, y));
                lemma_pending_extend(q3, q4, q0.len() as int, x, y);
            } else if d2[i] != d1[i] {
                assert(q2[q1.len() as int] == (x as usize, y as usize));
                assert(pending(q2, q0.len() as int, x, y));
                lemma_pending_extend(q2, q3, q0.len() as int, x, y);
                lemma_pending_extend(q3, q4, q0.len() as int, x, y);
            } else {
                assert(q1[q0.len() as int] == (x as usize, y as usize));
                assert(pending(q1, q0.len() as int, x, y));
                lemma_pending_extend(q1, q2, q0.len() as int, x, y);
                lemma_pending_extend(q2, q3, q0.len() as int, x, y);
                lemma_pending_extend(q3, q4, q0.len() as int, x, y);
            }
        }
        assert forall|nx: int, ny: int|
            0 <= nx < w && 0 <= ny < h && l1(cx as int, cy as int, nx, ny) == 1 implies #[trigger] d4[idx(
            ww,
            nx,
            ny,
        )] <= cur + 1 by {
            lemma_idx_bounds(ww, h as int, nx, ny);
        }
        assert forall|j: int|
            q0.len() <= j < q4.len() implies (#[trigger] q4[j]).0 < w && q4[j].1 < h by {
            if j < q1.len() {
                assert(q4[j] == q1[j]);
            } else if j < q2.len() {
                assert(q4[j] == q2[j]);
            } else if j < q3.len() {
                assert(q4[j] == q3[j]);
            }
        }
    }
}

/// The distance field of the board: for every cell, in row-major order, the
/// Manhattan distance to the nearest seed, found by a breadth-first search
/// from all seeds at once.
pub fn distance_field(board: &Board, player: Player, own: bool, extra: &BTreeSet<(i32, i32)>) -> (d:
    Vec<i32>)
    requires
        board.wf(),
    ensures
        d@.len() == board.width * board.height,
        forall|x: int, y: int|
            board.in_bounds(x, y) ==> #[trigger] d@[idx(board.width as int, x, y)] == field(
                board,
                player,
                own,
                extra@,
                x,
                y,
            ),
{
    let w = board.width;
    let h = board.height;
    let ghost ww = w as int;
    let ghost ex = extra@;
    let mut d: Vec<i32> = Vec::new();
    let mut q: VecDeque<(usize, usize)> = VecDeque::new();
    let mut y: usize = 0;
    while y < h
        invariant
            board.wf(),
            w == board.width,
            h == board.height,
            ww == w,
            ex == extra@,
            y <= h,
            d@.len() == idx(ww, 0, y as int),
            forall|j: int| 0 <= j < q@.len() ==> (#[trigger] q@[j]).0 < w && q@[j].1 < h,
            forall|x2: int, y2: int|
                0 <= x2 < w && 0 <= y2 < y ==> #[trigger] d@[idx(ww, x2, y2)] == if is_seed(
                    board,
                    player,
                    own,
                    ex,
                    x2,
                    y2,
                ) {
                    0
                } else {
                    INFINITE_DISTANCE
                },
            forall|x2: int, y2: int|
                0 <= x2 < w && 0 <= y2 < y && #[trigger] is_seed(board, player, own, ex, x2, y2)
                    ==> pending(q@, 0, x2, y2),
        decreases h - y,
    {
        let mut x: usize = 0;
        while x < w
            invariant
                board.wf(),
                w == board.width,
                h == board.height,
                ww == w,
                ex == extra@,
                y < h,
                x <= w,
                d@.len() == idx(ww, x as int, y as int),
                forall|j: int| 0 <= j < q@.len() ==> (#[trigger] q@[j]).0 < w && q@[j].1 < h,
                forall|x2: int, y2: int|
                    0 <= x2 < w && 0 <= y2 <= y && (y2 < y || x2 < x) ==> #[trigger] d@[idx(
                        ww,
                        x2,
                        y2,
                    )] == if is_seed(board, player, own, ex, x2, y2) {
                        0
                    } else {
                        INFINITE_DISTANCE
                    },
                forall|x2: int, y2: int|
                    0 <= x2 < w && 0 <= y2 <= y && (y2 < y || x2 < x) && #[trigger] is_seed(
                        board,
                        player,
                        own,
                        ex,
                        x2,
                        y2,
                    ) ==> pending(q@, 0, x2, y2),
            decreases w - x,
        {
            let cell = board.rows[y][x];
            assert(cell == board.cell(x as int, y as int));
            let territory = if own {
                player.is_own(cell)
            } else {
                player.is_enemy(cell)
            };
            let seeded = territory || extra.contains(&(x as i32, y as i32));
            assert(seeded == is_seed(board, player, own, ex, x as int, y as int));
            let ghost d_before = d@;
            let ghost q_before = q@;
            proof {
                lemma_idx_bounds(ww, h as int, x as int, y as int);
            }
            if seeded {
                d.push(0);
                q.push_back((x, y));
            } else {
                d.push(INFINITE_DISTANCE);
            }
            proof {
                assert forall|x2: int, y2: int|
                    0 <= x2 < w && 0 <= y2 <= y && (y2 < y || x2 < x + 1) implies #[trigger] d@[idx(
                    ww,
                    x2,
                    y2,
                )] == if is_seed(board, player, own, ex, x2, y2) {
                    0
                } else {
                    INFINITE_DISTANCE
                } by {
                    if y2 == y && x2 == x {
                    } else {
                        assert(idx(ww, x2, y2) < idx(ww, x as int, y as int)) by (nonlinear_arith)
                            requires
                                0 <= x2 < ww,
                                0 <= x < ww,
                                0 <= y2 <= y,
                                y2 < y || x2 < x,
                        ;
                        assert(d@[idx(ww, x2, y2)] == d_before[idx(ww, x2, y2)]);
                    }
                }
                assert forall|x2: int, y2: int|
                    0 <= x2 < w && 0 <= y2 <= y && (y2 < y || x2 < x + 1) && #[trigger] is_seed(
                        board,
                        player,
                        own,
                        ex,
                        x2,
                        y2,
                    ) implies pending(q@, 0, x2, y2) by {
                    if y2 == y && x2 == x {
                        assert(q@[q@.len() - 1] == (x, y));
                    } else {
                        lemma_pending_extend(q_before, q@, 0, x2, y2);
                    }
                }
            }
            x = x + 1;
        }
        proof {
            lemma_idx_next_row(ww, y as int);
        }
        y = y + 1;
    }
    proof {
        lemma_grid_area(ww, h as int);
        assert(d@.len() == w * h) by (nonlinear_arith)
            requires
                d@.len() == idx(ww, 0, h as int),
                ww == w,
        ;
        assert forall|x: int, y: int|
            0 <= x < w && 0 <= y < h implies #[trigger] d@[idx(ww, x, y)] >= field(
            board,
            player,
            own,
            ex,
            x,
            y,
        ) by {
            lemma_field_bounds(board, player, own, ex, x, y);
        }
        assert forall|i: int| 0 <= i < d@.len() implies 0 <= #[trigger] d@[i] <= INFINITE_DISTANCE by {
            let yy = i / ww;
            let xx = i % ww;
            assert(i == idx(ww, xx, yy) && 0 <= xx < ww && 0 <= yy < h) by (nonlinear_arith)
                requires
                    0 <= i < ww * h,
                    ww >= 1,
                    yy == i / ww,
                    xx == i % ww,
            ;
        }
    }
    let ghost mut hist: Seq<(usize, usize)> = q@;
    let ghost mut head: int = 0;
    proof {
        assert(hist.subrange(0, hist.len() as int) =~= q@);
    }
    while q.len() > 0
        invariant
            board.wf(),
            w == board.width,
            h == board.height,
            ww == w,
            ex == extra@,
            d@.len() == w * h,
            forall|i: int| 0 <= i < d@.len() ==> 0 <= #[trigger] d@[i] <= INFINITE_DISTANCE,
            forall|x: int, y: int|
                0 <= x < w && 0 <= y < h ==> #[trigger] d@[idx(ww, x, y)] >= field(
                    board,
                    player,
                    own,
                    ex,
                    x,
                    y,
                ),
            forall|x: int, y: int|
                0 <= x < w && 0 <= y < h && #[trigger] is_seed(board, player, own, ex, x, y)
                    ==> d@[idx(ww, x, y)] == 0,
            forall|j: int| 0 <= j < hist.len() ==> (#[trigger] hist[j]).0 < w && hist[j].1 < h,
            0 <= head <= hist.len(),
            q@ == hist.subrange(head, hist.len() as int),
            settled(d@, hist, head, ww, h as int),
        decreases seq_sum(d@), q@.len(),
    {
        let ghost q0 = hist;
        let ghost head0 = head;
        let (cx, cy) = q.pop_front().unwrap();
        proof {
            assert(hist[head] == (cx, cy));
            lemma_idx_bounds(ww, h as int, cx as int, cy as int);
            lemma_grid_area(ww, h as int);
        }
        let cur = d[cy * w + cx];
        let ghost d0 = d@;
        proof {
            head = head + 1;
        }
        let ghost qmid = q@;
        relax_neighbors(&mut d, &mut q, w, h, cx, cy, cur);
        proof {
            hist = hist + q@.subrange(qmid.len() as int, q@.len() as int);
            assert(q@ =~= hist.subrange(head, hist.len() as int));
            assert forall|j: int| 0 <= j < hist.len() implies (#[trigger] hist[j]).0 < w && hist[j].1
                < h by {
                if j >= q0.len() {
                    assert(hist[j] == q@[j - q0.len() + qmid.len()]);
                }
            }
            lemma_sum_nonneg(d@);
            lemma_sum_nonneg(d0);
            assert forall|x: int, y: int|
                0 <= x < w && 0 <= y < h implies #[trigger] d@[idx(ww, x, y)] >= field(
                board,
                player,
                own,
                ex,
                x,
                y,
            ) by {
                if d@[idx(ww, x, y)] != d0[idx(ww, x, y)] {
                    lemma_field_step(board, player, own, ex, cx as int, cy as int, x, y);
                }
            }
            assert forall|x: int, y: int|
                0 <= x < w && 0 <= y < h && #[trigger] is_seed(board, player, own, ex, x, y) implies d@[idx(
                ww,
                x,
                y,
            )] == 0 by {
                lemma_idx_bounds(ww, h as int, x, y);
            }
            assert forall|x: int, y: int, nx: int, ny: int|
                #![trigger d@[idx(ww, x, y)], d@[idx(ww, nx, ny)]]
                0 <= x < w && 0 <= y < h && 0 <= nx < w && 0 <= ny < h && l1(x, y, nx, ny) == 1
                    && !pending(hist, head, x, y) implies d@[idx(ww, nx, ny)] <= d@[idx(
                ww,
                x,
                y,
            )] + 1 by {
                lemma_idx_bounds(ww, h as int, x, y);
                lemma_idx_bounds(ww, h as int, nx, ny);
                if x == cx && y == cy {
                } else {
                    if pending(q0, head0, x, y) {
                        let j = choose|j: int| head0 <= j < q0.len() && q0[j].0 == x && q0[j].1 == y;
                        assert(j != head0);
                        assert(hist[j] == q0[j]);
                        assert(pending(hist, head, x, y));
                    }
                    if d@[idx(ww, x, y)] != d0[idx(ww, x, y)] {
                        let j = choose|j: int|
                            qmid.len() <= j < q@.len() && q@[j].0 == x && q@[j].1 == y;
                        assert(hist[head + j] == q@[j]);
                        assert(pending(hist, head, x, y));
                    }
                    assert(d0[idx(ww, nx, ny)] <= d0[idx(ww, x, y)] + 1);
                }
            }
        }
    }
    proof {
        assert(settled(d@, Seq::empty(), 0, ww, h as int)) by {
            assert forall|x: int, y: int, nx: int, ny: int|
                #![trigger d@[idx(ww, x, y)], d@[idx(ww, nx, ny)]]
                0 <= x < w && 0 <= y < h && 0 <= nx < w && 0 <= ny < h && l1(x, y, nx, ny) == 1
                    implies d@[idx(ww, nx, ny)] <= d@[idx(ww, x, y)] + 1 by {
                assert(!pending(hist, head, x, y));
            }
        }
        assert forall|x: int, y: int| board.in_bounds(x, y) implies #[trigger] d@[idx(ww, x, y)]
            == field(board, player, own, ex, x, y) by {
            lemma_idx_bounds(ww, h as int, x, y);
            let v = d@[idx(ww, x, y)] as int;
            assert forall|sx: int, sy: int| #[trigger]
                is_seed(board, player, own, ex, sx, sy) implies v <= l1(x, y, sx, sy) by {
                lemma_idx_bounds(ww, h as int, sx, sy);
                lemma_path(d@, ww, h as int, x, y, sx, sy);
            }
            lemma_seed_min_at_least(board, player, own, ex, x, y, h as int, 0, v);
        }
    }
    d
}

/// The enemy distance field of player 1 is 0 exactly on the board cells
/// marked `$` or `s` (player 2's territory, old and newest), and that of
/// player 2 exactly on the cells marked `@` or `a`; with an empty set of
/// extra cells nothing else seeds it.
pub proof fn law_enemy_field_zero_on_enemy_marks(board: &Board, player: Player, x: int, y: int)
    requires
        player.wf(),
        board.in_bounds(x, y),
    ensures
        player.number == 1 ==> (field(board, player, false, Set::empty(), x, y) == 0 <==> (board.cell(
            x,
            y,
        ) == P2_STABLE || board.cell(x, y) == P2_LAST)),
        player.number == 2 ==> (field(board, player, false, Set::empty(), x, y) == 0 <==> (board.cell(
            x,
            y,
        ) == P1_STABLE || board.cell(x, y) == P1_LAST)),
{
    law_field_zero_on_seeds(board, player, false, Set::empty(), x, y);
}

/// The own distance field of player 1 is 0 exactly on the board cells marked
/// `@` or `a` and on the extra cells, and that of player 2 exactly on the cells
/// marked `$` or `s` and on the extra cells.
pub proof fn law_own_field_zero_on_own_marks(
    board: &Board,
    player: Player,
    extra: Set<(i32, i32)>,
    x: int,
    y: int,
)
    requires
        player.wf(),
        board.in_bounds(x, y),
    ensures
        player.number == 1 ==> (field(board, player, true, extra, x, y) == 0 <==> (board.cell(x, y)
            == P1_STABLE || board.cell(x, y) == P1_LAST || extra.contains((x as i32, y as i32)))),
        player.number == 2 ==> (field(board, player, true, extra, x, y) == 0 <==> (board.cell(x, y)
            == P2_STABLE || board.cell(x, y) == P2_LAST || extra.contains((x as i32, y as i32)))),
{
    law_field_zero_on_seeds(board, player, true, extra, x, y);
}

} // verus!
