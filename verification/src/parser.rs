use vstd::prelude::*;

use crate::field::INFINITE_DISTANCE;
use crate::model::{Board, FillerError, Piece, Player, Position, Turn, EMPTY};
use crate::text::{
    all_digits, all_digits_in, copy_range, has_prefix, lemma_skip_ws, next_token, parse_unsigned,
    parse_usize_spec, starts_with, strip_colons, strip_colons_end, tokens, tokens_from, trim,
    trim_bounds,
};

verus! {

/// The index just past the line that starts at `pos`: past its `\n`, or the
/// end of the input.
pub open spec fn line_end(input: Seq<u8>, pos: int) -> int
    decreases input.len() - pos,
{
    if pos < 0 || pos >= input.len() {
        input.len() as int
    } else if input[pos] == 10 {
        pos + 1
    } else {
        line_end(input, pos + 1)
    }
}

pub proof fn lemma_line_end(input: Seq<u8>, pos: int)
    requires
        0 <= pos < input.len(),
    ensures
        pos < line_end(input, pos) <= input.len(),
    decreases input.len() - pos,
{
    if input[pos] != 10 {
        if pos + 1 < input.len() {
            lemma_line_end(input, pos + 1);
        } else {
            assert(line_end(input, pos + 1) == input.len());
        }
    }
}

/// `s` without its trailing `\n` and `\r` bytes.
pub open spec fn chomp(s: Seq<u8>) -> Seq<u8>
    decreases s.len(),
{
    if s.len() > 0 && (s.last() == 10 || s.last() == 13) {
        chomp(s.drop_last())
    } else {
        s
    }
}

/// The content of the line that starts at `pos`.
pub open spec fn line_at(input: Seq<u8>, pos: int) -> Seq<u8> {
    chomp(input.subrange(pos, line_end(input, pos)))
}

/// The line at `pos`, line ending included, is valid UTF-8.
pub open spec fn line_valid(input: Seq<u8>, pos: int) -> bool {
    vstd::utf8::valid_utf8(input.subrange(pos, line_end(input, pos)))
}

/// A word of two bytes that starts with `p`.
pub open spec fn is_marker(t: Seq<u8>) -> bool {
    t.len() == 2 && t[0] == 112
}

/// The first player marker among `ts`.
pub open spec fn first_marker(ts: Seq<Seq<u8>>) -> Option<Seq<u8>>
    decreases ts.len(),
{
    if ts.len() == 0 {
        None
    } else if is_marker(ts[0]) {
        Some(ts[0])
    } else {
        first_marker(ts.drop_first())
    }
}

/// `$$$`.
pub open spec fn header_prefix() -> Seq<u8> {
    seq![36u8, 36u8, 36u8]
}

/// The player number that a `$$$ exec pN ...` line announces, if it announces 1 or 2.
pub open spec fn header_number(line: Seq<u8>) -> Option<u8> {
    let t = trim(line);
    if starts_with(t, header_prefix()) {
        match first_marker(tokens(t)) {
            Some(m) => if m[1] == 49 || m[1] == 50 {
                Some((m[1] - 48) as u8)
            } else {
                None
            },
            None => None,
        }
    } else {
        None
    }
}

/// Reading the player header from `pos`: the number and the position after
/// its line, or the end of the input without one.
pub open spec fn read_player_spec(input: Seq<u8>, pos: int) -> (Result<u8, FillerError>, int)
    decreases input.len() - pos,
{
    if pos < 0 || pos >= input.len() {
        (Err(FillerError::PlayerHeaderNotFound), pos)
    } else {
        proof {
            lemma_line_end(input, pos);
        }
        if !line_valid(input, pos) {
            (Err(FillerError::InvalidUtf8), line_end(input, pos))
        } else {
            match header_number(line_at(input, pos)) {
                Some(n) => (Ok(n), line_end(input, pos)),
                None => read_player_spec(input, line_end(input, pos)),
            }
        }
    }
}

/// `Anfield`.
pub open spec fn anfield_prefix() -> Seq<u8> {
    seq![65u8, 110u8, 102u8, 105u8, 101u8, 108u8, 100u8]
}

/// `Piece`.
pub open spec fn piece_prefix() -> Seq<u8> {
    seq![80u8, 105u8, 101u8, 99u8, 101u8]
}

/// What a line says about dimensions: nothing when it is not a `prefix` header,
/// else the width and height or what is wrong with them.
pub open spec fn dims_of_line(line: Seq<u8>, prefix: Seq<u8>) -> Option<
    Result<(usize, usize), FillerError>,
> {
    let t = trim(line);
    if !starts_with(t, prefix) {
        None
    } else {
        let ts = tokens(t.subrange(prefix.len() as int, t.len() as int));
        if ts.len() == 0 {
            Some(Err(FillerError::MissingWidth))
        } else {
            match parse_usize_spec(strip_colons(ts[0])) {
                None => Some(Err(FillerError::InvalidWidth)),
                Some(w) => if ts.len() < 2 {
                    Some(Err(FillerError::MissingHeight))
                } else {
                    match parse_usize_spec(strip_colons(ts[1])) {
                        None => Some(Err(FillerError::InvalidHeight)),
                        Some(h) => if w == 0 || h == 0 {
                            Some(Err(FillerError::NonPositiveDimensions))
                        } else {
                            Some(Ok((w, h)))
                        },
                    }
                },
            }
        }
    }
}

/// Looking for the next `prefix` header from `pos`.
pub open spec fn find_dims_spec(input: Seq<u8>, pos: int, prefix: Seq<u8>) -> (
    Result<Option<(usize, usize)>, FillerError>,
    int,
)
    decreases input.len() - pos,
{
    if pos < 0 || pos >= input.len() {
        (Ok(None), pos)
    } else {
        proof {
            lemma_line_end(input, pos);
        }
        if !line_valid(input, pos) {
            (Err(FillerError::InvalidUtf8), line_end(input, pos))
        } else {
            match dims_of_line(line_at(input, pos), prefix) {
                None => find_dims_spec(input, line_end(input, pos), prefix),
                Some(Ok(d)) => (Ok(Some(d)), line_end(input, pos)),
                Some(Err(e)) => (Err(e), line_end(input, pos)),
            }
        }
    }
}

/// A byte that may stand on the board.
pub open spec fn is_board_byte(b: u8) -> bool {
    b == 46 || b == 64 || b == 36 || b == 97 || b == 115
}

pub open spec fn all_board_bytes(s: Seq<u8>) -> bool {
    forall|i: int| 0 <= i < s.len() ==> is_board_byte(#[trigger] s[i])
}

/// What a line gives while reading board rows: nothing unless it has a
/// numeric index word and a second word; else an error when that word is
/// shorter than the board or holds a byte that is no board cell, and otherwise
/// its first `width` bytes.
pub open spec fn board_line(line: Seq<u8>, width: usize) -> Option<Result<Seq<u8>, FillerError>> {
    let ts = tokens(line);
    if ts.len() < 2 || !all_digits(ts[0]) {
        None
    } else if ts[1].len() < width || !all_board_bytes(ts[1]) {
        Some(Err(FillerError::InvalidBoardRow { expected: width, got: ts[1].len() as usize }))
    } else {
        Some(Ok(ts[1].subrange(0, width as int)))
    }
}

/// Reading board rows from `pos` until `height` of them are in `rows`.
pub open spec fn board_rows_spec(
    input: Seq<u8>,
    pos: int,
    width: usize,
    height: usize,
    rows: Seq<Seq<u8>>,
) -> (Result<Seq<Seq<u8>>, FillerError>, int)
    decreases input.len() - pos,
{
    if rows.len() >= height {
        (Ok(rows), pos)
    } else if pos < 0 || pos >= input.len() {
        (Err(FillerError::IncompleteBoard), pos)
    } else {
        proof {
            lemma_line_end(input, pos);
        }
        if !line_valid(input, pos) {
            (Err(FillerError::InvalidUtf8), line_end(input, pos))
        } else {
            match board_line(line_at(input, pos), width) {
                None => board_rows_spec(input, line_end(input, pos), width, height, rows),
                Some(Err(e)) => (Err(e), line_end(input, pos)),
                Some(Ok(row)) => board_rows_spec(
                    input,
                    line_end(input, pos),
                    width,
                    height,
                    rows.push(row),
                ),
            }
        }
    }
}

/// Reading piece rows from `pos` until `height` of them are in `rows`: each is
/// a trimmed line of exactly `width` bytes.
pub open spec fn piece_rows_spec(
    input: Seq<u8>,
    pos: int,
    width: usize,
    height: usize,
    rows: Seq<Seq<u8>>,
) -> (Result<Seq<Seq<u8>>, FillerError>, int)
    decreases input.len() - pos,
{
    if rows.len() >= height {
        (Ok(rows), pos)
    } else if pos < 0 || pos >= input.len() {
        (Err(FillerError::IncompletePiece), pos)
    } else {
        proof {
            lemma_line_end(input, pos);
        }
        let t = trim(line_at(input, pos));
        if !line_valid(input, pos) {
            (Err(FillerError::InvalidUtf8), line_end(input, pos))
        } else if t.len() != width {
            (
                Err(FillerError::InvalidPieceRow { got: t.len() as usize, expected: width }),
                line_end(input, pos),
            )
        } else {
            piece_rows_spec(input, line_end(input, pos), width, height, rows.push(t))
        }
    }
}

/// The occupied cells (any byte but `.`) among the first `n` of row `y`.
pub open spec fn row_cells(row: Seq<u8>, y: int, n: int) -> Seq<Position>
    decreases n,
{
    if n <= 0 {
        Seq::empty()
    } else {
        let rest = row_cells(row, y, n - 1);
        if row[n - 1] != EMPTY {
            rest.push(Position { x: (n - 1) as i32, y: y as i32 })
        } else {
            rest
        }
    }
}

/// The occupied cells of the first `m` rows, row by row.
pub open spec fn rows_cells(rows: Seq<Seq<u8>>, m: int) -> Seq<Position>
    decreases m,
{
    if m <= 0 {
        Seq::empty()
    } else {
        rows_cells(rows, m - 1) + row_cells(rows[m - 1], m - 1, rows[m - 1].len() as int)
    }
}

/// A turn as plain values.
pub struct TurnModel {
    pub width: usize,
    pub height: usize,
    pub rows: Seq<Seq<u8>>,
    pub piece_width: usize,
    pub piece_height: usize,
    pub piece_rows: Seq<Seq<u8>>,
    pub cells: Seq<Position>,
}

impl Turn {
    pub open spec fn model(&self) -> TurnModel {
        TurnModel {
            width: self.board.width,
            height: self.board.height,
            rows: self.board.rows@.map_values(|r: Vec<u8>| r@),
            piece_width: self.piece.width,
            piece_height: self.piece.height,
            piece_rows: self.piece.rows@.map_values(|r: Vec<u8>| r@),
            cells: self.piece.cells@,
        }
    }
}

/// Reading one turn from `pos`: an `Anfield` header and its rows, then a
/// `Piece` header and its rows; nothing when the input ends before the board.
pub open spec fn next_turn_spec(input: Seq<u8>, pos: int) -> (
    Result<Option<TurnModel>, FillerError>,
    int,
) {
    let (d, p1) = find_dims_spec(input, pos, anfield_prefix());
    match d {
        Err(e) => (Err(e), p1),
        Ok(None) => (Ok(None), p1),
        Ok(Some((w, h))) => {
            let (b, p2) = board_rows_spec(input, p1, w, h, Seq::empty());
            match b {
                Err(e) => (Err(e), p2),
                Ok(rows) => {
                    let (pd, p3) = find_dims_spec(input, p2, piece_prefix());
                    match pd {
                        Err(e) => (Err(e), p3),
                        Ok(None) => (Err(FillerError::PieceHeaderNotFound), p3),
                        Ok(Some((pw, ph))) => {
                            let (pr, p4) = piece_rows_spec(input, p3, pw, ph, Seq::empty());
                            match pr {
                                Err(e) => (Err(e), p4),
                                Ok(prows) => {
                                    let cells = rows_cells(prows, ph as int);
                                    if cells.len() == 0 {
                                        (Err(FillerError::EmptyPiece), p4)
                                    } else {
                                        (
                                            Ok(
                                                Some(
                                                    TurnModel {
                                                        width: w,
                                                        height: h,
                                                        rows: rows,
                                                        piece_width: pw,
                                                        piece_height: ph,
                                                        piece_rows: prows,
                                                        cells: cells,
                                                    },
                                                ),
                                            ),
                                            p4,
                                        )
                                    }
                                },
                            }
                        },
                    }
                },
            }
        },
    }
}

/// The player number that a header line announces.
fn header_in_line(line: &Vec<u8>) -> (n: Option<u8>)
    ensures
        n == header_number(line@),
{
    let (lo, hi) = trim_bounds(line.as_slice());
    let t = copy_range(line.as_slice(), lo, hi);
    let dollars: Vec<u8> = vec![36, 36, 36];
    assert(dollars@ =~= header_prefix());
    if !has_prefix(t.as_slice(), dollars.as_slice()) {
        return None;
    }
    assert(starts_with(t@, header_prefix()));
    let mut i: usize = 0;
    loop
        invariant
            t@ == trim(line@),
            starts_with(t@, header_prefix()),
            i <= t@.len(),
            first_marker(tokens(t@)) == first_marker(tokens_from(t@, i as int)),
        decreases t@.len() - i,
    {
        match next_token(t.as_slice(), i) {
            None => {
                return None;
            },
            Some((a, b)) => {
                let ghost ts = tokens_from(t@, i as int);
                assert(ts[0] == t@.subrange(a as int, b as int));
                assert(ts.drop_first() =~= tokens_from(t@, b as int));
                if b - a == 2 && t[a] == 112 {
                    let c = t[a + 1];
                    assert(is_marker(ts[0]));
                    assert(first_marker(ts) == Some(ts[0]));
                    assert(ts[0][1] == c);
                    if c == 49 || c == 50 {
                        assert(first_marker(tokens(t@)) == Some(ts[0]));
                        assert(header_number(line@) == Some((c - 48) as u8));
                        return Some(c - 48);
                    }
                    return None;
                }
                i = b;
            },
        }
    }
}

/// What a line says about dimensions.
fn dims_in_line(line: &Vec<u8>, prefix: &Vec<u8>) -> (r: Option<Result<(usize, usize), FillerError>>)
    ensures
        r == dims_of_line(line@, prefix@),
{
    let (lo, hi) = trim_bounds(line.as_slice());
    let t = copy_range(line.as_slice(), lo, hi);
    if !has_prefix(t.as_slice(), prefix.as_slice()) {
        return None;
    }
    let rest = copy_range(t.as_slice(), prefix.len(), t.len());
    let ghost ts = tokens(rest@);
    let (a, b) = match next_token(rest.as_slice(), 0) {
        None => {
            return Some(Err(FillerError::MissingWidth));
        },
        Some(bounds) => bounds,
    };
    assert(ts[0] == rest@.subrange(a as int, b as int));
    let e = strip_colons_end(rest.as_slice(), a, b);
    let width_text = copy_range(rest.as_slice(), a, e);
    let width = match parse_unsigned(width_text.as_slice()) {
        None => {
            return Some(Err(FillerError::InvalidWidth));
        },
        Some(v) => v,
    };
    let (a2, b2) = match next_token(rest.as_slice(), b) {
        None => {
            return Some(Err(FillerError::MissingHeight));
        },
        Some(bounds) => bounds,
    };
    assert(ts[1] == rest@.subrange(a2 as int, b2 as int));
    let e2 = strip_colons_end(rest.as_slice(), a2, b2);
    let height_text = copy_range(rest.as_slice(), a2, e2);
    let height = match parse_unsigned(height_text.as_slice()) {
        None => {
            return Some(Err(FillerError::InvalidHeight));
        },
        Some(v) => v,
    };
    if width == 0 || height == 0 {
        return Some(Err(FillerError::NonPositiveDimensions));
    }
    Some(Ok((width, height)))
}

/// Whether every byte of `s[lo..hi]` may stand on the board.
fn board_bytes_in(s: &[u8], lo: usize, hi: usize) -> (b: bool)
    requires
        lo <= hi <= s@.len(),
    ensures
        b == all_board_bytes(s@.subrange(lo as int, hi as int)),
{
    let mut k = lo;
    while k < hi
        invariant
            lo <= k <= hi <= s@.len(),
            forall|j: int| lo <= j < k ==> is_board_byte(#[trigger] s@[j]),
        decreases hi - k,
    {
        let c = s[k];
        if !(c == 46 || c == 64 || c == 36 || c == 97 || c == 115) {
            proof {
                assert(s@.subrange(lo as int, hi as int)[k - lo] == s@[k as int]);
            }
            return false;
        }
        k = k + 1;
    }
    proof {
        assert forall|j: int| 0 <= j < hi - lo implies is_board_byte(
            #[trigger] s@.subrange(lo as int, hi as int)[j],
        ) by {
            assert(s@.subrange(lo as int, hi as int)[j] == s@[lo + j]);
        }
    }
    true
}

/// What a line gives while reading board rows.
fn board_row_in_line(line: &Vec<u8>, width: usize) -> (r: Option<Result<Vec<u8>, FillerError>>)
    ensures
        match board_line(line@, width) {
            None => r is None,
            Some(Err(e)) => r == Some(Err::<Vec<u8>, FillerError>(e)),
            Some(Ok(row)) => (r matches Some(Ok(v)) && v@ == row),
        },
{
    let ghost ts = tokens(line@);
    let (a, b) = match next_token(line.as_slice(), 0) {
        None => {
            return None;
        },
        Some(bounds) => bounds,
    };
    let (a2, b2) = match next_token(line.as_slice(), b) {
        None => {
            return None;
        },
        Some(bounds) => bounds,
    };
    assert(ts[0] == line@.subrange(a as int, b as int));
    assert(ts[1] == line@.subrange(a2 as int, b2 as int));
    if !all_digits_in(line.as_slice(), a, b) {
        return None;
    }
    if b2 - a2 < width || !board_bytes_in(line.as_slice(), a2, b2) {
        return Some(Err(FillerError::InvalidBoardRow { expected: width, got: b2 - a2 }));
    }
    let row = copy_range(line.as_slice(), a2, a2 + width);
    assert(row@ =~= ts[1].subrange(0, width as int));
    Some(Ok(row))
}

/// The views of a vector of rows.
pub open spec fn row_views(rows: Seq<Vec<u8>>) -> Seq<Seq<u8>> {
    rows.map_values(|r: Vec<u8>| r@)
}

proof fn lemma_row_views_push(rows: Seq<Vec<u8>>, row: Vec<u8>)
    ensures
        row_views(rows.push(row)) == row_views(rows).push(row@),
{
    assert(row_views(rows.push(row)) =~= row_views(rows).push(row@));
}

proof fn lemma_rows_cells_prefix(r1: Seq<Seq<u8>>, r2: Seq<Seq<u8>>, m: int)
    requires
        0 <= m <= r1.len(),
        m <= r2.len(),
        forall|i: int| 0 <= i < m ==> r1[i] == r2[i],
    ensures
        rows_cells(r1, m) == rows_cells(r2, m),
    decreases m,
{
    if m > 0 {
        lemma_rows_cells_prefix(r1, r2, m - 1);
    }
}

proof fn lemma_find_dims_positive(input: Seq<u8>, pos: int, prefix: Seq<u8>)
    ensures
        find_dims_spec(input, pos, prefix).0 matches Ok(Some(d)) ==> d.0 >= 1 && d.1 >= 1,
    decreases input.len() - pos,
{
    if 0 <= pos < input.len() {
        lemma_line_end(input, pos);
        if dims_of_line(line_at(input, pos), prefix) is None {
            lemma_find_dims_positive(input, line_end(input, pos), prefix);
        }
    }
}

proof fn lemma_board_rows_shape(
    input: Seq<u8>,
    pos: int,
    width: usize,
    height: usize,
    rows: Seq<Seq<u8>>,
)
    requires
        rows.len() <= height,
        forall|i: int| 0 <= i < rows.len() ==> (#[trigger] rows[i]).len() == width,
        forall|i: int| 0 <= i < rows.len() ==> all_board_bytes(#[trigger] rows[i]),
    ensures
        board_rows_spec(input, pos, width, height, rows).0 matches Ok(r) ==> r.len() == height && (
        forall|i: int| 0 <= i < r.len() ==> (#[trigger] r[i]).len() == width && all_board_bytes(
            r[i],
        )),
    decreases input.len() - pos,
{
    if rows.len() >= height {
    } else if pos < 0 || pos >= input.len() {
    } else {
        lemma_line_end(input, pos);
        match board_line(line_at(input, pos), width) {
            None => lemma_board_rows_shape(input, line_end(input, pos), width, height, rows),
            Some(Err(e)) => {},
            Some(Ok(row)) => {
                let r2 = rows.push(row);
                let ts = tokens(line_at(input, pos));
                assert(all_board_bytes(row)) by {
                    assert forall|k: int| 0 <= k < row.len() implies is_board_byte(#[trigger] row[k]) by {
                        assert(row[k] == ts[1][k]);
                    }
                }
                assert forall|i: int| 0 <= i < r2.len() implies (#[trigger] r2[i]).len() == width
                    && all_board_bytes(r2[i]) by {
                    if i < rows.len() {
                        assert(r2[i] == rows[i]);
                    }
                }
                lemma_board_rows_shape(input, line_end(input, pos), width, height, r2);
            },
        }
    }
}

proof fn lemma_piece_rows_shape(
    input: Seq<u8>,
    pos: int,
    width: usize,
    height: usize,
    rows: Seq<Seq<u8>>,
)
    requires
        rows.len() <= height,
        forall|i: int| 0 <= i < rows.len() ==> (#[trigger] rows[i]).len() == width,
    ensures
        piece_rows_spec(input, pos, width, height, rows).0 matches Ok(r) ==> r.len() == height && (
        forall|i: int| 0 <= i < r.len() ==> (#[trigger] r[i]).len() == width),
    decreases input.len() - pos,
{
    if rows.len() >= height {
    } else if pos < 0 || pos >= input.len() {
    } else {
        lemma_line_end(input, pos);
        let t = trim(line_at(input, pos));
        if t.len() == width {
            let r2 = rows.push(t);
            assert forall|i: int| 0 <= i < r2.len() implies (#[trigger] r2[i]).len() == width by {
                if i < rows.len() {
                    assert(r2[i] == rows[i]);
                }
            }
            lemma_piece_rows_shape(input, line_end(input, pos), width, height, r2);
        }
    }
}

proof fn lemma_row_cells(row: Seq<u8>, y: int, n: int)
    requires
        0 <= n <= INFINITE_DISTANCE,
        0 <= y < INFINITE_DISTANCE,
    ensures
        row_cells(row, y, n).len() <= n,
        forall|i: int|
            0 <= i < row_cells(row, y, n).len() ==> 0 <= (#[trigger] row_cells(row, y, n)[i]).x < n
                && row_cells(row, y, n)[i].y == y,
    decreases n,
{
    if n > 0 {
        lemma_row_cells(row, y, n - 1);
    }
}

proof fn lemma_rows_cells(rows: Seq<Seq<u8>>, m: int, w: int)
    requires
        0 <= m <= rows.len(),
        m <= INFINITE_DISTANCE,
        0 <= w <= INFINITE_DISTANCE,
        forall|i: int| 0 <= i < rows.len() ==> (#[trigger] rows[i]).len() == w,
    ensures
        rows_cells(rows, m).len() <= m * w,
        forall|i: int|
            0 <= i < rows_cells(rows, m).len() ==> 0 <= (#[trigger] rows_cells(rows, m)[i]).x < w
                && 0 <= rows_cells(rows, m)[i].y < m,
    decreases m,
{
    if m > 0 {
        lemma_rows_cells(rows, m - 1, w);
        lemma_row_cells(rows[m - 1], m - 1, w);
        let a = rows_cells(rows, m - 1);
        let b = row_cells(rows[m - 1], m - 1, w);
        assert(rows_cells(rows, m) == a + b);
        assert forall|i: int| 0 <= i < (a + b).len() implies 0 <= (#[trigger] (a + b)[i]).x < w && 0
            <= (a + b)[i].y < m by {
            if i < a.len() {
                assert((a + b)[i] == a[i]);
            } else {
                assert((a + b)[i] == b[i - a.len()]);
            }
        }
        assert((m - 1) * w + w == m * w) by (nonlinear_arith);
    }
}

/// What a turn read from the protocol always is: a board and a piece with
/// positive sides, the board's rows `width` board bytes long (`.`, `@`, `$`,
/// `a`, `s`), the piece's rows `piece_width` bytes long, and the piece's cells
/// the places of its bytes other than `.`, row by row, at least one of them.
pub open spec fn well_shaped_turn(m: TurnModel) -> bool {
    &&& m.width >= 1 && m.height >= 1
    &&& m.rows.len() == m.height
    &&& forall|y: int| 0 <= y < m.height ==> (#[trigger] m.rows[y]).len() == m.width
        && all_board_bytes(m.rows[y])
    &&& m.piece_width >= 1 && m.piece_height >= 1
    &&& m.piece_rows.len() == m.piece_height
    &&& forall|y: int| 0 <= y < m.piece_height ==> (#[trigger] m.piece_rows[y]).len()
        == m.piece_width
    &&& m.cells == rows_cells(m.piece_rows, m.piece_height as int)
    &&& m.cells.len() > 0
}

/// Every turn that reading the protocol yields is well shaped.
pub proof fn law_read_turns_are_well_shaped(input: Seq<u8>, pos: int)
    ensures
        next_turn_spec(input, pos).0 matches Ok(Some(m)) ==> well_shaped_turn(m),
{
    let (d, p1) = find_dims_spec(input, pos, anfield_prefix());
    lemma_find_dims_positive(input, pos, anfield_prefix());
    if let Ok(Some((w, h))) = d {
        lemma_board_rows_shape(input, p1, w, h, Seq::empty());
        let (b, p2) = board_rows_spec(input, p1, w, h, Seq::empty());
        if let Ok(rows) = b {
            lemma_find_dims_positive(input, p2, piece_prefix());
            let (pd, p3) = find_dims_spec(input, p2, piece_prefix());
            if let Ok(Some((pw, ph))) = pd {
                lemma_piece_rows_shape(input, p3, pw, ph, Seq::empty());
            }
        }
    }
}

/// Some line of `input` from `pos` on begins, once trimmed, with `prefix`.
pub open spec fn line_begins_with_from(input: Seq<u8>, pos: int, prefix: Seq<u8>) -> bool
    decreases input.len() - pos,
{
    if pos < 0 || pos >= input.len() {
        false
    } else {
        proof {
            lemma_line_end(input, pos);
        }
        starts_with(trim(line_at(input, pos)), prefix) || line_begins_with_from(
            input,
            line_end(input, pos),
            prefix,
        )
    }
}

/// Every line of `input` from `pos` on is valid UTF-8.
pub open spec fn lines_valid_from(input: Seq<u8>, pos: int) -> bool
    decreases input.len() - pos,
{
    if pos < 0 || pos >= input.len() {
        true
    } else {
        proof {
            lemma_line_end(input, pos);
        }
        line_valid(input, pos) && lines_valid_from(input, line_end(input, pos))
    }
}

/// Looking for a header finds nothing exactly when no line from `pos` on
/// begins with it and every one is valid UTF-8, and then the whole input has
/// been read.
pub proof fn law_header_search_ends_without_header(input: Seq<u8>, pos: int, prefix: Seq<u8>)
    requires
        0 <= pos <= input.len(),
    ensures
        find_dims_spec(input, pos, prefix).0 matches Ok(None) <==> (!line_begins_with_from(
            input,
            pos,
            prefix,
        ) && lines_valid_from(input, pos)),
        find_dims_spec(input, pos, prefix).0 matches Ok(None) ==> find_dims_spec(input, pos, prefix).1
            == input.len(),
    decreases input.len() - pos,
{
    if pos < input.len() {
        lemma_line_end(input, pos);
        if line_valid(input, pos) && dims_of_line(line_at(input, pos), prefix) is None {
            law_header_search_ends_without_header(input, line_end(input, pos), prefix);
        }
    }
}

/// Reading a turn finds none exactly when no line from `pos` on begins with
/// `Anfield` and every one is valid UTF-8, and then the whole input has been
/// read.
pub proof fn law_no_turn_without_anfield(input: Seq<u8>, pos: int)
    requires
        0 <= pos <= input.len(),
    ensures
        next_turn_spec(input, pos).0 matches Ok(None) <==> (!line_begins_with_from(
            input,
            pos,
            anfield_prefix(),
        ) && lines_valid_from(input, pos)),
        next_turn_spec(input, pos).0 matches Ok(None) ==> next_turn_spec(input, pos).1 == input.len(),
{
    law_header_search_ends_without_header(input, pos, anfield_prefix());
}

/// Some line of `input` from `pos` on is a player header for player 1 or 2.
pub open spec fn header_line_from(input: Seq<u8>, pos: int) -> bool
    decreases input.len() - pos,
{
    if pos < 0 || pos >= input.len() {
        false
    } else {
        proof {
            lemma_line_end(input, pos);
        }
        header_number(line_at(input, pos)) is Some || header_line_from(input, line_end(input, pos))
    }
}

/// Reading the player fails with `PlayerHeaderNotFound` exactly when no line
/// from `pos` on is a player header and every one is valid UTF-8, and it then
/// has read the whole input; its only other failure is `InvalidUtf8`.
pub proof fn law_no_player_without_header(input: Seq<u8>, pos: int)
    requires
        0 <= pos <= input.len(),
    ensures
        read_player_spec(input, pos).0 == Err::<u8, FillerError>(FillerError::PlayerHeaderNotFound)
            <==> (!header_line_from(input, pos) && lines_valid_from(input, pos)),
        read_player_spec(input, pos).0 == Err::<u8, FillerError>(FillerError::PlayerHeaderNotFound)
            ==> read_player_spec(input, pos).1 == input.len(),
        read_player_spec(input, pos).0 is Err ==> (read_player_spec(input, pos).0 == Err::<
            u8,
            FillerError,
        >(FillerError::PlayerHeaderNotFound) || read_player_spec(input, pos).0 == Err::<
            u8,
            FillerError,
        >(FillerError::InvalidUtf8)),
    decreases input.len() - pos,
{
    if pos < input.len() {
        lemma_line_end(input, pos);
        if line_valid(input, pos) && header_number(line_at(input, pos)) is None {
            law_no_player_without_header(input, line_end(input, pos));
        }
    }
}

/// The input ran out before the turn was complete.
pub open spec fn ran_out(r: Result<Option<TurnModel>, FillerError>) -> bool {
    ||| r matches Ok(None)
    ||| r == Err::<Option<TurnModel>, FillerError>(FillerError::PieceHeaderNotFound)
    ||| r == Err::<Option<TurnModel>, FillerError>(FillerError::IncompleteBoard)
    ||| r == Err::<Option<TurnModel>, FillerError>(FillerError::IncompletePiece)
}

/// Every line of `text` is complete: it is empty or ends with a line feed.
pub open spec fn whole_lines(text: Seq<u8>) -> bool {
    text.len() == 0 || text.last() == 10
}

proof fn lemma_line_stable(text: Seq<u8>, more: Seq<u8>, pos: int)
    requires
        0 <= pos < text.len(),
        whole_lines(text),
    ensures
        line_end(text + more, pos) == line_end(text, pos),
        line_at(text + more, pos) == line_at(text, pos),
        line_valid(text + more, pos) == line_valid(text, pos),
    decreases text.len() - pos,
{
    let full = text + more;
    assert(full[pos] == text[pos]);
    if text[pos] != 10 {
        if pos + 1 < text.len() {
            lemma_line_stable(text, more, pos + 1);
        } else {
            assert(text[pos] == text.last());
        }
    }
    lemma_line_end(text, pos);
    assert(full.subrange(pos, line_end(text, pos)) =~= text.subrange(pos, line_end(text, pos)));
}

proof fn lemma_find_dims_stable(text: Seq<u8>, more: Seq<u8>, pos: int, prefix: Seq<u8>)
    requires
        0 <= pos,
        whole_lines(text),
        !(find_dims_spec(text, pos, prefix).0 matches Ok(None)),
    ensures
        find_dims_spec(text + more, pos, prefix) == find_dims_spec(text, pos, prefix),
    decreases text.len() - pos,
{
    lemma_line_end(text, pos);
    lemma_line_stable(text, more, pos);
    if line_valid(text, pos) && dims_of_line(line_at(text, pos), prefix) is None {
        lemma_find_dims_stable(text, more, line_end(text, pos), prefix);
    }
}

proof fn lemma_board_rows_stable(
    text: Seq<u8>,
    more: Seq<u8>,
    pos: int,
    width: usize,
    height: usize,
    rows: Seq<Seq<u8>>,
)
    requires
        0 <= pos,
        whole_lines(text),
        board_rows_spec(text, pos, width, height, rows).0 != Err::<Seq<Seq<u8>>, FillerError>(
            FillerError::IncompleteBoard,
        ),
    ensures
        board_rows_spec(text + more, pos, width, height, rows) == board_rows_spec(
            text,
            pos,
            width,
            height,
            rows,
        ),
    decreases text.len() - pos,
{
    if rows.len() < height {
        lemma_line_end(text, pos);
        lemma_line_stable(text, more, pos);
        if line_valid(text, pos) {
            match board_line(line_at(text, pos), width) {
                None => lemma_board_rows_stable(text, more, line_end(text, pos), width, height, rows),
                Some(Err(e)) => {},
                Some(Ok(row)) => lemma_board_rows_stable(
                    text,
                    more,
                    line_end(text, pos),
                    width,
                    height,
                    rows.push(row),
                ),
            }
        }
    }
}

proof fn lemma_piece_rows_stable(
    text: Seq<u8>,
    more: Seq<u8>,
    pos: int,
    width: usize,
    height: usize,
    rows: Seq<Seq<u8>>,
)
    requires
        0 <= pos,
        whole_lines(text),
        piece_rows_spec(text, pos, width, height, rows).0 != Err::<Seq<Seq<u8>>, FillerError>(
            FillerError::IncompletePiece,
        ),
    ensures
        piece_rows_spec(text + more, pos, width, height, rows) == piece_rows_spec(
            text,
            pos,
            width,
            height,
            rows,
        ),
    decreases text.len() - pos,
{
    if rows.len() < height {
        lemma_line_end(text, pos);
        lemma_line_stable(text, more, pos);
        let t = trim(line_at(text, pos));
        if line_valid(text, pos) && t.len() == width {
            lemma_piece_rows_stable(text, more, line_end(text, pos), width, height, rows.push(t));
        }
    }
}

/// A turn that the bytes received so far hold completely, in whole lines,
/// reads the same however much input follows: more input never changes an
/// answer that did not run out of input.
pub proof fn law_complete_turn_is_final(text: Seq<u8>, more: Seq<u8>, pos: int)
    requires
        0 <= pos,
        whole_lines(text),
        !ran_out(next_turn_spec(text, pos).0),
    ensures
        next_turn_spec(text + more, pos) == next_turn_spec(text, pos),
{
    let (d, p1) = find_dims_spec(text, pos, anfield_prefix());
    lemma_find_dims_stable(text, more, pos, anfield_prefix());
    lemma_find_dims_bounds(text, pos, anfield_prefix());
    if let Ok(Some((w, h))) = d {
        let (b, p2) = board_rows_spec(text, p1, w, h, Seq::empty());
        lemma_board_rows_stable(text, more, p1, w, h, Seq::empty());
        lemma_board_rows_bounds(text, p1, w, h, Seq::empty());
        if let Ok(rows) = b {
            let (pd, p3) = find_dims_spec(text, p2, piece_prefix());
            lemma_find_dims_stable(text, more, p2, piece_prefix());
            lemma_find_dims_bounds(text, p2, piece_prefix());
            if let Ok(Some((pw, ph))) = pd {
                lemma_piece_rows_stable(text, more, p3, pw, ph, Seq::empty());
            }
        }
    }
}

proof fn lemma_find_dims_bounds(text: Seq<u8>, pos: int, prefix: Seq<u8>)
    requires
        0 <= pos,
    ensures
        find_dims_spec(text, pos, prefix).1 >= pos,
    decreases text.len() - pos,
{
    if 0 <= pos < text.len() {
        lemma_line_end(text, pos);
        if dims_of_line(line_at(text, pos), prefix) is None {
            lemma_find_dims_bounds(text, line_end(text, pos), prefix);
        }
    }
}

proof fn lemma_board_rows_bounds(
    text: Seq<u8>,
    pos: int,
    width: usize,
    height: usize,
    rows: Seq<Seq<u8>>,
)
    requires
        0 <= pos,
    ensures
        board_rows_spec(text, pos, width, height, rows).1 >= pos,
    decreases text.len() - pos,
{
    if rows.len() < height && 0 <= pos < text.len() {
        lemma_line_end(text, pos);
        match board_line(line_at(text, pos), width) {
            None => lemma_board_rows_bounds(text, line_end(text, pos), width, height, rows),
            Some(Err(e)) => {},
            Some(Ok(row)) => lemma_board_rows_bounds(text, line_end(text, pos), width, height, rows.push(row)),
        }
    }
}

/// Looking for the player header and not finding it consumes all the input;
/// so once more input arrives, looking again from there finds what looking
/// from the start over all the input would.
pub proof fn law_player_search_resumes(text: Seq<u8>, more: Seq<u8>, pos: int)
    requires
        0 <= pos <= text.len(),
        whole_lines(text),
        read_player_spec(text, pos).0 == Err::<u8, FillerError>(FillerError::PlayerHeaderNotFound),
    ensures
        read_player_spec(text, pos).1 == text.len(),
        read_player_spec(text + more, pos) == read_player_spec(text + more, text.len() as int),
    decreases text.len() - pos,
{
    if pos < text.len() {
        lemma_line_end(text, pos);
        lemma_line_stable(text, more, pos);
        if line_valid(text, pos) && header_number(line_at(text, pos)) is None {
            law_player_search_resumes(text, more, line_end(text, pos));
        }
    }
}


/// `std::str::from_utf8`, which accepts a byte string exactly when it is
/// valid UTF-8; only whether it accepted is kept.
#[verifier::external_body]
fn is_utf8(bytes: &[u8]) -> (ok: bool)
    ensures
        ok == vstd::utf8::valid_utf8(bytes@),
{
    std::str::from_utf8(bytes).is_ok()
}

/// A reader of the game engine's protocol over the bytes received so far.
pub struct Parser {
    input: Vec<u8>,
    pos: usize,
}

impl Parser {
    /// The bytes received so far.
    pub closed spec fn text(&self) -> Seq<u8> {
        self.input@
    }

    /// Where reading goes on.
    pub closed spec fn cursor(&self) -> int {
        self.pos as int
    }

    pub closed spec fn wf(&self) -> bool {
        self.pos <= self.input@.len()
    }

    /// A parser over `input`, reading from its start.
    pub fn new(input: Vec<u8>) -> (p: Parser)
        ensures
            p.wf(),
            p.text() == input@,
            p.cursor() == 0,
    {
        Parser { input, pos: 0 }
    }

    /// Appends bytes that arrived later.
    pub fn feed(&mut self, bytes: &[u8])
        requires
            old(self).wf(),
        ensures
            final(self).wf(),
            final(self).text() == old(self).text() + bytes@,
            final(self).cursor() == old(self).cursor(),
    {
        let mut k: usize = 0;
        let ghost start = self.input@;
        let ghost p0 = self.pos;
        while k < bytes.len()
            invariant
                k <= bytes@.len(),
                self.input@ == start + bytes@.subrange(0, k as int),
                self.pos == p0,
                p0 <= start.len(),
            decreases bytes@.len() - k,
        {
            self.input.push(bytes[k]);
            proof {
                assert(bytes@.subrange(0, k + 1) =~= bytes@.subrange(0, k as int).push(bytes@[k as int]));
            }
            k = k + 1;
        }
        proof {
            assert(bytes@.subrange(0, bytes@.len() as int) =~= bytes@);
        }
    }

    /// The player that the `$$$ ... pN` header announces; lines before it are
    /// skipped.
    pub fn read_player(&mut self) -> (result: Result<Player, FillerError>)
        requires
            old(self).wf(),
        ensures
            final(self).wf(),
            final(self).text() == old(self).text(),
            final(self).cursor() == read_player_spec(old(self).text(), old(self).cursor()).1,
            match read_player_spec(old(self).text(), old(self).cursor()).0 {
                Ok(n) => (result matches Ok(p) && p.side() == n && p.wf()),
                Err(e) => result == Err::<Player, FillerError>(e),
            },
    {
        let ghost text0 = self.text();
        let ghost goal = read_player_spec(text0, self.cursor());
        loop
            invariant
                self.wf(),
                self.text() == text0,
                text0 == old(self).text(),
                goal == read_player_spec(old(self).text(), old(self).cursor()),
                read_player_spec(text0, self.cursor()) == goal,
            decreases text0.len() - self.cursor(),
        {
            let ghost before = self.cursor();
            let line = match self.read_line() {
                None => {
                    return Err(FillerError::PlayerHeaderNotFound);
                },
                Some((l, valid)) => {
                    if !valid {
                        return Err(FillerError::InvalidUtf8);
                    }
                    l
                },
            };
            proof {
                lemma_line_end(text0, before);
            }
            match header_in_line(&line) {
                Some(number) => {
                    return Player::new(number);
                },
                None => {},
            }
        }
    }

    /// The width and height of the next `prefix` header.
    fn find_dimensions(&mut self, prefix: &Vec<u8>) -> (result: Result<Option<(usize, usize)>, FillerError>)
        requires
            old(self).wf(),
        ensures
            final(self).wf(),
            final(self).text() == old(self).text(),
            (result, final(self).cursor()) == find_dims_spec(old(self).text(), old(self).cursor(), prefix@),
    {
        let ghost text0 = self.text();
        let ghost goal = find_dims_spec(text0, self.cursor(), prefix@);
        loop
            invariant
                self.wf(),
                self.text() == text0,
                text0 == old(self).text(),
                goal == find_dims_spec(old(self).text(), old(self).cursor(), prefix@),
                find_dims_spec(text0, self.cursor(), prefix@) == goal,
            decreases text0.len() - self.cursor(),
        {
            let ghost before = self.cursor();
            let line = match self.read_line() {
                None => {
                    return Ok(None);
                },
                Some((l, valid)) => {
                    if !valid {
                        return Err(FillerError::InvalidUtf8);
                    }
                    l
                },
            };
            proof {
                lemma_line_end(text0, before);
            }
            match dims_in_line(&line, prefix) {
                None => {},
                Some(Ok(d)) => {
                    return Ok(Some(d));
                },
                Some(Err(e)) => {
                    return Err(e);
                },
            }
        }
    }

    /// `height` board rows of `width` cells each; other lines are skipped.
    fn read_board_rows(&mut self, width: usize, height: usize) -> (result: Result<Vec<Vec<u8>>, FillerError>)
        requires
            old(self).wf(),
        ensures
            final(self).wf(),
            final(self).text() == old(self).text(),
            final(self).cursor() == board_rows_spec(old(self).text(), old(self).cursor(), width, height, Seq::empty()).1,
            match board_rows_spec(old(self).text(), old(self).cursor(), width, height, Seq::empty()).0 {
                Ok(rows) => (result matches Ok(v) && row_views(v@) == rows),
                Err(e) => result == Err::<Vec<Vec<u8>>, FillerError>(e),
            },
    {
        let ghost text0 = self.text();
        let ghost goal = board_rows_spec(text0, self.cursor(), width, height, Seq::empty());
        let mut rows: Vec<Vec<u8>> = Vec::new();
        assert(row_views(rows@) =~= Seq::<Seq<u8>>::empty());
        while rows.len() < height
            invariant
                self.wf(),
                self.text() == text0,
                text0 == old(self).text(),
                goal == board_rows_spec(old(self).text(), old(self).cursor(), width, height, Seq::empty()),
                board_rows_spec(text0, self.cursor(), width, height, row_views(rows@)) == goal,
            decreases text0.len() - self.cursor(),
        {
            let ghost before = self.cursor();
            let line = match self.read_line() {
                None => {
                    return Err(FillerError::IncompleteBoard);
                },
                Some((l, valid)) => {
                    if !valid {
                        return Err(FillerError::InvalidUtf8);
                    }
                    l
                },
            };
            proof {
                lemma_line_end(text0, before);
            }
            match board_row_in_line(&line, width) {
                None => {},
                Some(Err(e)) => {
                    return Err(e);
                },
                Some(Ok(row)) => {
                    proof {
                        lemma_row_views_push(rows@, row);
                    }
                    rows.push(row);
                },
            }
        }
        Ok(rows)
    }

    /// `height` piece rows of exactly `width` bytes each, and the occupied cells.
    fn read_piece_rows(&mut self, width: usize, height: usize) -> (result: Result<
        (Vec<Vec<u8>>, Vec<Position>),
        FillerError,
    >)
        requires
            old(self).wf(),
        ensures
            final(self).wf(),
            final(self).text() == old(self).text(),
            final(self).cursor() == piece_rows_spec(old(self).text(), old(self).cursor(), width, height, Seq::empty()).1,
            match piece_rows_spec(old(self).text(), old(self).cursor(), width, height, Seq::empty()).0 {
                Ok(rows) => if rows_cells(rows, height as int).len() == 0 {
                    result == Err::<(Vec<Vec<u8>>, Vec<Position>), FillerError>(FillerError::EmptyPiece)
                } else {
                    result matches Ok((v, c)) && row_views(v@) == rows && c@ == rows_cells(rows, height as int)
                },
                Err(e) => result == Err::<(Vec<Vec<u8>>, Vec<Position>), FillerError>(e),
            },
    {
        let ghost text0 = self.text();
        let ghost goal = piece_rows_spec(text0, self.cursor(), width, height, Seq::empty());
        let mut rows: Vec<Vec<u8>> = Vec::new();
        let mut cells: Vec<Position> = Vec::new();
        assert(row_views(rows@) =~= Seq::<Seq<u8>>::empty());
        let mut y: usize = 0;
        while y < height
            invariant
                self.wf(),
                self.text() == text0,
                text0 == old(self).text(),
                goal == piece_rows_spec(old(self).text(), old(self).cursor(), width, height, Seq::empty()),
                piece_rows_spec(text0, self.cursor(), width, height, row_views(rows@)) == goal,
                y <= height,
                rows@.len() == y,
                cells@ == rows_cells(row_views(rows@), y as int),
            decreases height - y,
        {
            let ghost before = self.cursor();
            let line = match self.read_line() {
                None => {
                    return Err(FillerError::IncompletePiece);
                },
                Some((l, valid)) => {
                    if !valid {
                        return Err(FillerError::InvalidUtf8);
                    }
                    l
                },
            };
            proof {
                lemma_line_end(text0, before);
            }
            let (lo, hi) = trim_bounds(line.as_slice());
            if hi - lo != width {
                return Err(FillerError::InvalidPieceRow { got: hi - lo, expected: width });
            }
            let row = copy_range(line.as_slice(), lo, hi);
            let ghost prev = cells@;
            let mut x: usize = 0;
            while x < width
                invariant
                    row@.len() == width,
                    x <= width,
                    cells@ == prev + row_cells(row@, y as int, x as int),
                decreases width - x,
            {
                if row[x] != EMPTY {
                    cells.push(Position { x: x as i32, y: y as i32 });
                    proof {
                        assert(prev + row_cells(row@, y as int, x + 1) =~= (prev + row_cells(row@, y as int, x as int)).push(Position { x: x as i32, y: y as i32 }));
                    }
                }
                x = x + 1;
            }
            proof {
                let old_views = row_views(rows@);
                lemma_row_views_push(rows@, row);
                let new_views = old_views.push(row@);
                lemma_rows_cells_prefix(old_views, new_views, y as int);
                assert(new_views[y as int] == row@);
            }
            rows.push(row);
            y = y + 1;
        }
        if cells.len() == 0 {
            return Err(FillerError::EmptyPiece);
        }
        Ok((rows, cells))
    }

    /// The next turn: the board and the piece to place, or `None` when the input
    /// ends before another board.
    pub fn next_turn(&mut self) -> (result: Result<Option<Turn>, FillerError>)
        requires
            old(self).wf(),
        ensures
            final(self).wf(),
            final(self).text() == old(self).text(),
            final(self).cursor() == next_turn_spec(old(self).text(), old(self).cursor()).1,
            match next_turn_spec(old(self).text(), old(self).cursor()).0 {
                Ok(None) => result matches Ok(None),
                Ok(Some(m)) => (result matches Ok(Some(t)) && t.model() == m),
                Err(e) => result == Err::<Option<Turn>, FillerError>(e),
            },
            result matches Ok(Some(t)) ==> {
                &&& t.board.shaped()
                &&& t.board.width >= 1 && t.board.height >= 1
                &&& t.board.width + t.board.height <= INFINITE_DISTANCE && t.board.width
                    * t.board.height <= usize::MAX ==> t.board.wf()
                &&& t.piece.width + t.piece.height <= INFINITE_DISTANCE ==> t.piece.wf()
            },
    {
        let anfield: Vec<u8> = vec![65, 110, 102, 105, 101, 108, 100];
        assert(anfield@ =~= anfield_prefix());
        proof {
            lemma_find_dims_positive(self.text(), self.cursor(), anfield@);
        }
        let (width, height) = match self.find_dimensions(&anfield) {
            Err(e) => {
                return Err(e);
            },
            Ok(None) => {
                return Ok(None);
            },
            Ok(Some(d)) => d,
        };
        proof {
            lemma_board_rows_shape(self.text(), self.cursor(), width, height, Seq::empty());
        }
        let board_rows = match self.read_board_rows(width, height) {
            Err(e) => {
                return Err(e);
            },
            Ok(rows) => rows,
        };
        let piece_word: Vec<u8> = vec![80, 105, 101, 99, 101];
        assert(piece_word@ =~= piece_prefix());
        proof {
            lemma_find_dims_positive(self.text(), self.cursor(), piece_word@);
        }
        let (piece_width, piece_height) = match self.find_dimensions(&piece_word) {
            Err(e) => {
                return Err(e);
            },
            Ok(None) => {
                return Err(FillerError::PieceHeaderNotFound);
            },
            Ok(Some(d)) => d,
        };
        proof {
            lemma_piece_rows_shape(self.text(), self.cursor(), piece_width, piece_height, Seq::empty());
        }
        let (piece_rows, piece_cells) = match self.read_piece_rows(piece_width, piece_height) {
            Err(e) => {
                return Err(e);
            },
            Ok(parts) => parts,
        };
        let turn = Turn {
            board: Board { width, height, rows: board_rows },
            piece: Piece { width: piece_width, height: piece_height, rows: piece_rows, cells: piece_cells },
        };
        proof {
            assert(turn.model().rows == row_views(turn.board.rows@));
            assert(turn.model().piece_rows == row_views(turn.piece.rows@));
            let bv = row_views(turn.board.rows@);
            assert forall|y: int| 0 <= y < height implies #[trigger] turn.board.rows@[y]@.len() == width by {
                assert(bv[y] == turn.board.rows@[y]@);
            }
            let pv = row_views(turn.piece.rows@);
            if piece_width + piece_height <= INFINITE_DISTANCE {
                lemma_rows_cells(pv, piece_height as int, piece_width as int);
                assert(piece_height * piece_width == piece_width * piece_height) by (nonlinear_arith);
                let c = turn.piece.cells@;
                assert forall|i: int| 0 <= i < c.len() implies {
                    &&& 0 <= #[trigger] c[i].x < piece_width
                    &&& 0 <= c[i].y < piece_height
                } by {
                    assert(c[i] == rows_cells(pv, piece_height as int)[i]);
                }
            }
        }
        Ok(Some(turn))
    }

    /// The next turn when the input holds all of it; otherwise nothing is read
    /// and `None` says that more input is needed.
    pub fn try_next_turn(&mut self) -> (result: Option<Result<Option<Turn>, FillerError>>)
        requires
            old(self).wf(),
        ensures
            final(self).wf(),
            final(self).text() == old(self).text(),
            ran_out(next_turn_spec(old(self).text(), old(self).cursor()).0) ==> (result is None
                && final(self).cursor() == old(self).cursor()),
            !ran_out(next_turn_spec(old(self).text(), old(self).cursor()).0) ==> (result matches Some(
                r,
            ) && final(self).cursor() == next_turn_spec(old(self).text(), old(self).cursor()).1
                && match next_turn_spec(old(self).text(), old(self).cursor()).0 {
                Ok(None) => r matches Ok(None),
                Ok(Some(m)) => (r matches Ok(Some(t)) && t.model() == m),
                Err(e) => r == Err::<Option<Turn>, FillerError>(e),
            }),
    {
        let mark = self.pos;
        let result = self.next_turn();
        let out_of_input = match &result {
            Ok(None) => true,
            Err(FillerError::PieceHeaderNotFound) => true,
            Err(FillerError::IncompleteBoard) => true,
            Err(FillerError::IncompletePiece) => true,
            _ => false,
        };
        if out_of_input {
            self.pos = mark;
            return None;
        }
        Some(result)
    }

    /// The next line without its line ending, with whether the line is valid
    /// UTF-8, or `None` at the end of the input.
    fn read_line(&mut self) -> (line: Option<(Vec<u8>, bool)>)
        requires
            old(self).wf(),
        ensures
            final(self).wf(),
            final(self).text() == old(self).text(),
            old(self).cursor() >= old(self).text().len() ==> (line is None && final(self).cursor()
                == old(self).cursor()),
            old(self).cursor() < old(self).text().len() ==> (line matches Some((l, valid)) && l@
                == line_at(old(self).text(), old(self).cursor()) && valid == line_valid(
                old(self).text(),
                old(self).cursor(),
            ) && final(self).cursor() == line_end(old(self).text(), old(self).cursor())),
    {
        let len = self.input.len();
        let start = self.pos;
        if start >= len {
            return None;
        }
        let mut end = start;
        while end < len && self.input[end] != 10
            invariant
                start <= end <= len,
                len == self.input@.len(),
                start < len,
                line_end(self.input@, start as int) == line_end(self.input@, end as int),
            decreases len - end,
        {
            end = end + 1;
        }
        let next = if end < len {
            end + 1
        } else {
            end
        };
        let mut content_end = next;
        while content_end > start && (self.input[content_end - 1] == 10 || self.input[content_end
            - 1] == 13)
            invariant
                start <= content_end <= next <= len,
                len == self.input@.len(),
                next == line_end(self.input@, start as int),
                chomp(self.input@.subrange(start as int, content_end as int)) == chomp(
                    self.input@.subrange(start as int, next as int),
                ),
            decreases content_end,
        {
            proof {
                assert(self.input@.subrange(start as int, content_end as int).drop_last()
                    =~= self.input@.subrange(start as int, content_end - 1));
            }
            content_end = content_end - 1;
        }
        let line = copy_range(self.input.as_slice(), start, content_end);
        proof {
            let t = self.input@.subrange(start as int, content_end as int);
            assert(chomp(t) == t);
        }
        let valid = is_utf8(vstd::slice::slice_subrange(self.input.as_slice(), start, next));
        self.pos = next;
        Some((line, valid))
    }
}

} // verus!
