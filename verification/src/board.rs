//! Match-3 boards: runs of equal cells, the swaps that create one, their
//! scores, and what a board looks like after a swap has been played.

use vstd::prelude::*;

verus! {

/// A swap of two neighbouring cells with what it is worth.
#[derive(Debug, Clone, Copy, PartialEq, Eq, Hash, Structural)]
pub struct EliminateMove {
    pub from_row: usize,
    pub from_col: usize,
    pub to_row: usize,
    pub to_col: usize,
    pub score: i32,
    pub eliminates: usize,
    pub creates_special: bool,
}

/// Namespace of the match-3 functions.
pub struct EliminateEngine;

/// A board as rows of colour ids; 0 is an empty cell.
pub type Grid = Seq<Seq<u8>>;

/// The rows of a board held in vectors.
pub open spec fn rows_of(board: Seq<Vec<u8>>) -> Grid {
    Seq::new(board.len(), |r: int| board[r]@)
}

/// Number of columns: the length of the first row, 0 for a board without
/// rows.
pub open spec fn width_of(g: Grid) -> int {
    if g.len() == 0 {
        0
    } else {
        g[0].len() as int
    }
}

/// All rows have the same length.
pub open spec fn rectangular(g: Grid) -> bool {
    forall|r: int| 0 <= r < g.len() ==> (#[trigger] g[r]).len() == width_of(g)
}

/// The board is small enough for every score to fit 32 bits.
pub open spec fn scorable(g: Grid) -> bool {
    20 * (g.len() + width_of(g)) + 50 <= i32::MAX
}

/// Number of cells directly left of `(r, c)` that continue its colour.
pub open spec fn run_left(g: Grid, r: int, c: int) -> int
    decreases c,
{
    if c > 0 && g[r][c - 1] == g[r][c] {
        1 + run_left(g, r, c - 1)
    } else {
        0
    }
}

/// Number of cells directly right of `(r, c)` that continue its colour.
pub open spec fn run_right(g: Grid, r: int, c: int) -> int
    decreases width_of(g) - c,
{
    if 0 <= c && c + 1 < width_of(g) && g[r][c + 1] == g[r][c] {
        1 + run_right(g, r, c + 1)
    } else {
        0
    }
}

/// Number of cells directly above `(r, c)` that continue its colour.
pub open spec fn run_up(g: Grid, r: int, c: int) -> int
    decreases r,
{
    if r > 0 && g[r - 1][c] == g[r][c] {
        1 + run_up(g, r - 1, c)
    } else {
        0
    }
}

/// Number of cells directly below `(r, c)` that continue its colour.
pub open spec fn run_down(g: Grid, r: int, c: int) -> int
    decreases g.len() - r,
{
    if 0 <= r && r + 1 < g.len() && g[r + 1][c] == g[r][c] {
        1 + run_down(g, r + 1, c)
    } else {
        0
    }
}

/// Length of the horizontal run of equal cells through `(r, c)`.
pub open spec fn h_run(g: Grid, r: int, c: int) -> int {
    1 + run_left(g, r, c) + run_right(g, r, c)
}

/// Length of the vertical run of equal cells through `(r, c)`.
pub open spec fn v_run(g: Grid, r: int, c: int) -> int {
    1 + run_up(g, r, c) + run_down(g, r, c)
}

/// The cell `(r, c)` is not empty and lies in a run of three or more.
pub open spec fn in_match(g: Grid, r: int, c: int) -> bool {
    g[r][c] != 0 && (h_run(g, r, c) >= 3 || v_run(g, r, c) >= 3)
}

/// Cells cleared through `(r, c)`: the lengths of its runs of three or more,
/// nothing for an empty cell.
pub open spec fn gain(g: Grid, r: int, c: int) -> int {
    if g[r][c] == 0 {
        0
    } else {
        (if h_run(g, r, c) >= 3 {
            h_run(g, r, c)
        } else {
            0
        }) + (if v_run(g, r, c) >= 3 {
            v_run(g, r, c)
        } else {
            0
        })
    }
}

/// The runs through `(r, c)` make a special piece: one of four or more, or
/// two of three or more that cross.
pub open spec fn special(g: Grid, r: int, c: int) -> bool {
    g[r][c] != 0 && (h_run(g, r, c) >= 4 || v_run(g, r, c) >= 4 || (h_run(g, r, c) >= 3 && v_run(
        g,
        r,
        c,
    ) >= 3))
}

/// The board with the cells `(r1, c1)` and `(r2, c2)` exchanged.
pub open spec fn swapped(g: Grid, r1: int, c1: int, r2: int, c2: int) -> Grid {
    Seq::new(
        g.len(),
        |r: int|
            Seq::new(
                g[r].len(),
                |c: int|
                    if r == r1 && c == c1 {
                        g[r2][c2]
                    } else if r == r2 && c == c2 {
                        g[r1][c1]
                    } else {
                        g[r][c]
                    },
            ),
    )
}

/// What the runs through the two given cells of `g` are worth, with the
/// coordinates left at zero; nothing if they clear fewer than three cells.
pub open spec fn worth(g: Grid, r1: int, c1: int, r2: int, c2: int) -> Option<EliminateMove> {
    let total = gain(g, r1, c1) + gain(g, r2, c2);
    let bonus = special(g, r1, c1) || special(g, r2, c2);
    if total >= 3 {
        Some(
            EliminateMove {
                from_row: 0,
                from_col: 0,
                to_row: 0,
                to_col: 0,
                score: (10 * total + if bonus {
                    50int
                } else {
                    0int
                }) as i32,
                eliminates: total as usize,
                creates_special: bonus,
            },
        )
    } else {
        None
    }
}

/// The move that exchanges `(r1, c1)` and `(r2, c2)`, if it is valid: the
/// cells differ, neither is empty, and after the exchange a run of three or
/// more passes through one of them.
pub open spec fn swap_move(g: Grid, r1: int, c1: int, r2: int, c2: int) -> Seq<EliminateMove> {
    if g[r1][c1] != g[r2][c2] && g[r1][c1] != 0 && g[r2][c2] != 0 {
        match worth(swapped(g, r1, c1, r2, c2), r1, c1, r2, c2) {
            Some(m) => seq![
                EliminateMove {
                    from_row: r1 as usize,
                    from_col: c1 as usize,
                    to_row: r2 as usize,
                    to_col: c2 as usize,
                    score: m.score,
                    eliminates: m.eliminates,
                    creates_special: m.creates_special,
                },
            ],
            None => Seq::empty(),
        }
    } else {
        Seq::empty()
    }
}

/// Valid exchanges of `(r, c)` with its right neighbour for `c < n`, by
/// column.
pub open spec fn row_h_moves(g: Grid, r: int, n: int) -> Seq<EliminateMove>
    decreases n,
{
    if n <= 0 {
        Seq::empty()
    } else {
        row_h_moves(g, r, n - 1) + swap_move(g, r, n - 1, r, n)
    }
}

/// Valid horizontal exchanges in the rows before `n`, by row and column.
pub open spec fn h_moves(g: Grid, n: int) -> Seq<EliminateMove>
    decreases n,
{
    if n <= 0 {
        Seq::empty()
    } else {
        h_moves(g, n - 1) + row_h_moves(g, n - 1, width_of(g) - 1)
    }
}

/// Valid exchanges of `(r, c)` with the cell below it for `c < n`, by column.
pub open spec fn row_v_moves(g: Grid, r: int, n: int) -> Seq<EliminateMove>
    decreases n,
{
    if n <= 0 {
        Seq::empty()
    } else {
        row_v_moves(g, r, n - 1) + swap_move(g, r, n - 1, r + 1, n - 1)
    }
}

/// Valid vertical exchanges whose upper cell lies in a row before `n`, by
/// row and column.
pub open spec fn v_moves(g: Grid, n: int) -> Seq<EliminateMove>
    decreases n,
{
    if n <= 0 {
        Seq::empty()
    } else {
        v_moves(g, n - 1) + row_v_moves(g, n - 1, width_of(g))
    }
}

/// Every valid move of the board: the horizontal exchanges by row and
/// column, then the vertical ones.
pub open spec fn all_moves(g: Grid) -> Seq<EliminateMove> {
    h_moves(g, g.len() as int) + v_moves(g, g.len() - 1)
}

/// Playing `m` on `g` leaves a run of three or more through one of the two
/// cells it exchanges.
pub open spec fn makes_match(g: Grid, m: EliminateMove) -> bool {
    let after = swapped(g, m.from_row as int, m.from_col as int, m.to_row as int, m.to_col as int);
    &&& m.from_row < g.len()
    &&& m.to_row < g.len()
    &&& m.from_col < width_of(g)
    &&& m.to_col < width_of(g)
    &&& (in_match(after, m.from_row as int, m.from_col as int) || in_match(
        after,
        m.to_row as int,
        m.to_col as int,
    ))
}

/// A copy of the board with two cells exchanged.
fn swapped_copy(board: &[Vec<u8>], r1: usize, c1: usize, r2: usize, c2: usize) -> (out: Vec<
    Vec<u8>,
>)
    requires
        r1 < board@.len(),
        r2 < board@.len(),
        c1 < board@[r1 as int]@.len(),
        c2 < board@[r2 as int]@.len(),
    ensures
        rows_of(out@) == swapped(rows_of(board@), r1 as int, c1 as int, r2 as int, c2 as int),
{
    let ghost g = rows_of(board@);
    let ghost want = swapped(g, r1 as int, c1 as int, r2 as int, c2 as int);
    let a: u8 = board[r1][c1];
    let b: u8 = board[r2][c2];
    let mut out: Vec<Vec<u8>> = Vec::new();
    let mut r: usize = 0;
    while r < board.len()
        invariant
            r <= board@.len(),
            out@.len() == r,
            g == rows_of(board@),
            want == swapped(g, r1 as int, c1 as int, r2 as int, c2 as int),
            a == g[r1 as int][c1 as int],
            b == g[r2 as int][c2 as int],
            forall|i: int| 0 <= i < r ==> (#[trigger] out@[i])@ == want[i],
        decreases board@.len() - r,
    {
        let src = &board[r];
        let mut row: Vec<u8> = Vec::new();
        let mut c: usize = 0;
        while c < src.len()
            invariant
                c <= src@.len(),
                r < board@.len(),
                src@ == g[r as int],
                row@.len() == c,
                g == rows_of(board@),
                want == swapped(g, r1 as int, c1 as int, r2 as int, c2 as int),
                a == g[r1 as int][c1 as int],
                b == g[r2 as int][c2 as int],
                forall|j: int| 0 <= j < c ==> row@[j] == want[r as int][j],
            decreases src@.len() - c,
        {
            let v: u8 = if r == r1 && c == c1 {
                b
            } else if r == r2 && c == c2 {
                a
            } else {
                src[c]
            };
            row.push(v);
            c = c + 1;
        }
        proof {
            assert(row@ =~= want[r as int]);
        }
        out.push(row);
        r = r + 1;
    }
    proof {
        assert(rows_of(out@) =~= want);
    }
    out
}

/// Lengths of the horizontal and the vertical run through `(row, col)`.
fn run_lengths(board: &[Vec<u8>], row: usize, col: usize) -> (r: (usize, usize))
    requires
        rectangular(rows_of(board@)),
        row < board@.len(),
        col < width_of(rows_of(board@)),
    ensures
        r.0 == h_run(rows_of(board@), row as int, col as int),
        r.1 == v_run(rows_of(board@), row as int, col as int),
        1 <= r.0 <= width_of(rows_of(board@)),
        1 <= r.1 <= board@.len(),
{
    let ghost g = rows_of(board@);
    let rows: usize = board.len();
    proof {
        assert(g[0] == board@[0]@);
        assert(g[row as int] == board@[row as int]@);
    }
    let cols: usize = board[0].len();
    let color: u8 = board[row][col];
    let mut left: usize = col;
    while left > 0 && board[row][left - 1] == color
        invariant
            left <= col < cols,
            row < rows,
            rows == board@.len(),
            g == rows_of(board@),
            rectangular(g),
            cols == width_of(g),
            g[row as int] == board@[row as int]@,
            color == g[row as int][left as int],
            run_left(g, row as int, col as int) == (col - left) + run_left(
                g,
                row as int,
                left as int,
            ),
        decreases left,
    {
        left = left - 1;
    }
    let mut right: usize = col;
    while right + 1 < cols && board[row][right + 1] == color
        invariant
            col <= right < cols,
            row < rows,
            rows == board@.len(),
            g == rows_of(board@),
            rectangular(g),
            cols == width_of(g),
            g[row as int] == board@[row as int]@,
            color == g[row as int][right as int],
            run_right(g, row as int, col as int) == (right - col) + run_right(
                g,
                row as int,
                right as int,
            ),
        decreases cols - right,
    {
        right = right + 1;
    }
    let mut top: usize = row;
    while top > 0 && board[top - 1][col] == color
        invariant
            top <= row < rows,
            col < cols,
            rows == board@.len(),
            g == rows_of(board@),
            rectangular(g),
            cols == width_of(g),
            color == g[top as int][col as int],
            run_up(g, row as int, col as int) == (row - top) + run_up(g, top as int, col as int),
        decreases top,
    {
        proof {
            assert(g[top - 1] == board@[top - 1]@);
        }
        top = top - 1;
    }
    let mut bottom: usize = row;
    while bottom + 1 < rows && board[bottom + 1][col] == color
        invariant
            row <= bottom < rows,
            col < cols,
            rows == board@.len(),
            g == rows_of(board@),
            rectangular(g),
            cols == width_of(g),
            color == g[bottom as int][col as int],
            run_down(g, row as int, col as int) == (bottom - row) + run_down(
                g,
                bottom as int,
                col as int,
            ),
        decreases rows - bottom,
    {
        proof {
            assert(g[bottom + 1] == board@[bottom + 1]@);
        }
        bottom = bottom + 1;
    }
    (right - left + 1, bottom - top + 1)
}


/// Exchanging two cells keeps the shape of the board.
proof fn lemma_swapped_shape(g: Grid, r1: int, c1: int, r2: int, c2: int)
    requires
        rectangular(g),
    ensures
        rectangular(swapped(g, r1, c1, r2, c2)),
        swapped(g, r1, c1, r2, c2).len() == g.len(),
        width_of(swapped(g, r1, c1, r2, c2)) == width_of(g),
{
    let s = swapped(g, r1, c1, r2, c2);
    assert forall|r: int| 0 <= r < s.len() implies (#[trigger] s[r]).len() == width_of(g) by {
        assert(g[r].len() == width_of(g));
    }
    if g.len() > 0 {
        assert(s[0].len() == g[0].len());
    }
}

impl EliminateMove {
    /// A move between two cells, not yet scored.
    pub fn new(from_row: usize, from_col: usize, to_row: usize, to_col: usize) -> (m: EliminateMove)
        ensures
            m == (EliminateMove {
                from_row,
                from_col,
                to_row,
                to_col,
                score: 0,
                eliminates: 0,
                creates_special: false,
            }),
    {
        EliminateMove {
            from_row,
            from_col,
            to_row,
            to_col,
            score: 0,
            eliminates: 0,
            creates_special: false,
        }
    }

    /// `self` is the better move: it creates a special piece and `other`
    /// does not, or they agree on that and it has the higher score, or they
    /// agree on both and it clears more cells.
    pub open spec fn outranks(self, other: EliminateMove) -> bool {
        if self.creates_special != other.creates_special {
            self.creates_special
        } else if self.score != other.score {
            self.score > other.score
        } else {
            self.eliminates > other.eliminates
        }
    }

    /// Whether `self` is the better move of the two.
    pub fn ranks_above(&self, other: &EliminateMove) -> (b: bool)
        ensures
            b == self.outranks(*other),
    {
        if self.creates_special != other.creates_special {
            self.creates_special
        } else if self.score != other.score {
            self.score > other.score
        } else {
            self.eliminates > other.eliminates
        }
    }
}

/// `ms[k]` is a best move of `ms`, and the last of the best.
pub open spec fn is_last_best(ms: Seq<EliminateMove>, k: int) -> bool {
    &&& 0 <= k < ms.len()
    &&& forall|i: int| 0 <= i < ms.len() ==> !(#[trigger] ms[i]).outranks(ms[k])
    &&& forall|i: int| k < i < ms.len() ==> ms[k].outranks(#[trigger] ms[i])
}

/// `sorted` with `m` put in behind every move that it does not outrank.
pub open spec fn insert_ranked(sorted: Seq<EliminateMove>, m: EliminateMove) -> Seq<EliminateMove>
    decreases sorted.len(),
{
    if sorted.len() > 0 && m.outranks(sorted.last()) {
        insert_ranked(sorted.drop_last(), m).push(sorted.last())
    } else {
        sorted.push(m)
    }
}

/// The moves from best to worst, moves of equal rank in their given order.
pub open spec fn ranked(ms: Seq<EliminateMove>) -> Seq<EliminateMove>
    decreases ms.len(),
{
    if ms.len() == 0 {
        Seq::empty()
    } else {
        insert_ranked(ranked(ms.drop_last()), ms.last())
    }
}

/// No move of `s` is outranked by one behind it.
pub open spec fn descending(s: Seq<EliminateMove>) -> bool {
    forall|i: int, j: int| 0 <= i < j < s.len() ==> !(#[trigger] s[j]).outranks(#[trigger] s[i])
}

proof fn lemma_insert_at(sorted: Seq<EliminateMove>, m: EliminateMove, p: int)
    requires
        0 <= p <= sorted.len(),
        forall|i: int| p <= i < sorted.len() ==> m.outranks(#[trigger] sorted[i]),
        p > 0 ==> !m.outranks(sorted[p - 1]),
    ensures
        insert_ranked(sorted, m) == sorted.insert(p, m),
    decreases sorted.len() - p,
{
    if p == sorted.len() {
        assert(sorted.push(m) =~= sorted.insert(p, m));
    } else {
        let rest = sorted.drop_last();
        assert(m.outranks(sorted[sorted.len() - 1]));
        assert forall|i: int| p <= i < rest.len() implies m.outranks(#[trigger] rest[i]) by {
            assert(rest[i] == sorted[i]);
        }
        lemma_insert_at(rest, m, p);
        assert(rest.insert(p, m).push(sorted.last()) =~= sorted.insert(p, m));
    }
}

/// Putting a move into a descending sequence keeps it descending and adds
/// exactly that move.
pub proof fn lemma_insert_ranked(sorted: Seq<EliminateMove>, m: EliminateMove)
    requires
        descending(sorted),
    ensures
        descending(insert_ranked(sorted, m)),
        insert_ranked(sorted, m).to_multiset() == sorted.to_multiset().insert(m),
        insert_ranked(sorted, m).len() == sorted.len() + 1,
    decreases sorted.len(),
{
    broadcast use vstd::seq_lib::group_to_multiset_ensures;

    if sorted.len() > 0 && m.outranks(sorted.last()) {
        let rest = sorted.drop_last();
        let last = sorted.last();
        assert forall|i: int, j: int| 0 <= i < j < rest.len() implies !(#[trigger] rest[j]).outranks(
            #[trigger] rest[i],
        ) by {
            assert(rest[i] == sorted[i] && rest[j] == sorted[j]);
        }
        lemma_insert_ranked(rest, m);
        let inner = insert_ranked(rest, m);
        let out = inner.push(last);
        assert(sorted =~= rest.push(last));
        assert forall|i: int, j: int| 0 <= i < j < out.len() implies !(#[trigger] out[j]).outranks(
            #[trigger] out[i],
        ) by {
            if j == out.len() - 1 {
                assert(inner.to_multiset().count(inner[i]) > 0);
                if inner[i] != m {
                    assert(rest.to_multiset().count(inner[i]) > 0);
                    let k = choose|k: int| 0 <= k < rest.len() && rest[k] == inner[i];
                    assert(rest[k] == sorted[k]);
                    assert(!sorted[sorted.len() - 1].outranks(sorted[k]));
                }
            }
        }
    } else {
        let out = sorted.push(m);
        assert forall|i: int, j: int| 0 <= i < j < out.len() implies !(#[trigger] out[j]).outranks(
            #[trigger] out[i],
        ) by {
            if j == out.len() - 1 {
                assert(out[i] == sorted[i]);
                if sorted.len() > 0 {
                    assert(!m.outranks(sorted[sorted.len() - 1]));
                    assert(!sorted[sorted.len() - 1].outranks(sorted[i]) || i == sorted.len() - 1);
                }
            } else {
                assert(out[i] == sorted[i] && out[j] == sorted[j]);
            }
        }
    }
}

/// Ranking reorders the moves from best to worst and neither adds nor drops
/// one.
pub proof fn lemma_ranked(ms: Seq<EliminateMove>)
    ensures
        descending(ranked(ms)),
        ranked(ms).to_multiset() == ms.to_multiset(),
        ranked(ms).len() == ms.len(),
    decreases ms.len(),
{
    broadcast use vstd::seq_lib::group_to_multiset_ensures;

    if ms.len() > 0 {
        lemma_ranked(ms.drop_last());
        lemma_insert_ranked(ranked(ms.drop_last()), ms.last());
        assert(ms =~= ms.drop_last().push(ms.last()));
    }
}

impl EliminateEngine {
    /// Scores the runs through two cells of a board on which a swap has
    /// been played: 10 for each cell cleared, 50 more for a special piece.
    /// The coordinates of the result are left at zero.
    pub fn evaluate_move(board: &[Vec<u8>], r1: usize, c1: usize, r2: usize, c2: usize) -> (out:
        Option<EliminateMove>)
        requires
            rectangular(rows_of(board@)),
            scorable(rows_of(board@)),
            r1 < board@.len(),
            r2 < board@.len(),
            c1 < width_of(rows_of(board@)),
            c2 < width_of(rows_of(board@)),
        ensures
            out == worth(rows_of(board@), r1 as int, c1 as int, r2 as int, c2 as int),
    {
        let ghost g = rows_of(board@);
        proof {
            assert(g[r1 as int] == board@[r1 as int]@);
            assert(g[r2 as int] == board@[r2 as int]@);
        }
        let mut total: usize = 0;
        let mut bonus: bool = false;
        if board[r1][c1] != 0 {
            let (h, v) = run_lengths(board, r1, c1);
            if h >= 3 {
                total = total + h;
            }
            if v >= 3 {
                total = total + v;
            }
            if h >= 4 || v >= 4 || (h >= 3 && v >= 3) {
                bonus = true;
            }
        }
        assert(total == gain(g, r1 as int, c1 as int));
        assert(bonus == special(g, r1 as int, c1 as int));
        if board[r2][c2] != 0 {
            let (h, v) = run_lengths(board, r2, c2);
            if h >= 3 {
                total = total + h;
            }
            if v >= 3 {
                total = total + v;
            }
            if h >= 4 || v >= 4 || (h >= 3 && v >= 3) {
                bonus = true;
            }
        }
        if total >= 3 {
            let points: i32 = (total as i32) * 10 + if bonus {
                50
            } else {
                0
            };
            Some(
                EliminateMove {
                    from_row: 0,
                    from_col: 0,
                    to_row: 0,
                    to_col: 0,
                    score: points,
                    eliminates: total,
                    creates_special: bonus,
                },
            )
        } else {
            None
        }
    }

    /// Tries the exchange of two neighbouring cells and appends the move to
    /// `moves` if it is valid.
    fn try_swap(
        board: &[Vec<u8>],
        r1: usize,
        c1: usize,
        r2: usize,
        c2: usize,
        moves: &mut Vec<EliminateMove>,
    )
        requires
            rectangular(rows_of(board@)),
            scorable(rows_of(board@)),
            r1 < board@.len(),
            r2 < board@.len(),
            c1 < width_of(rows_of(board@)),
            c2 < width_of(rows_of(board@)),
            forall|i: int|
                0 <= i < old(moves)@.len() ==> makes_match(
                    rows_of(board@),
                    #[trigger] old(moves)@[i],
                ),
        ensures
            final(moves)@ == old(moves)@ + swap_move(
                rows_of(board@),
                r1 as int,
                c1 as int,
                r2 as int,
                c2 as int,
            ),
            forall|i: int|
                0 <= i < final(moves)@.len() ==> makes_match(
                    rows_of(board@),
                    #[trigger] final(moves)@[i],
                ),
    {
        let ghost g = rows_of(board@);
        proof {
            assert(g[r1 as int] == board@[r1 as int]@);
            assert(g[r2 as int] == board@[r2 as int]@);
            assert(g[r1 as int].len() == width_of(g));
            assert(g[r2 as int].len() == width_of(g));
        }
        let a: u8 = board[r1][c1];
        let b: u8 = board[r2][c2];
        if a != b && a != 0 && b != 0 {
            let test = swapped_copy(board, r1, c1, r2, c2);
            proof {
                lemma_swapped_shape(g, r1 as int, c1 as int, r2 as int, c2 as int);
            }
            match Self::evaluate_move(test.as_slice(), r1, c1, r2, c2) {
                Some(m) => {
                    let found = EliminateMove {
                        from_row: r1,
                        from_col: c1,
                        to_row: r2,
                        to_col: c2,
                        score: m.score,
                        eliminates: m.eliminates,
                        creates_special: m.creates_special,
                    };
                    moves.push(found);
                    proof {
                        assert(moves@ =~= old(moves)@ + seq![found]);
                        assert(makes_match(g, found));
                    }
                },
                None => {
                    proof {
                        assert(moves@ =~= old(moves)@ + Seq::<EliminateMove>::empty());
                    }
                },
            }
        } else {
            proof {
                assert(moves@ =~= old(moves)@ + Seq::<EliminateMove>::empty());
            }
        }
    }

    /// Lists every valid move: the exchanges of horizontal neighbours by row
    /// and column, then those of vertical neighbours.
    pub fn find_all_moves(board: &[Vec<u8>]) -> (moves: Vec<EliminateMove>)
        requires
            rectangular(rows_of(board@)),
            scorable(rows_of(board@)),
        ensures
            moves@ == all_moves(rows_of(board@)),
            forall|i: int|
                0 <= i < moves@.len() ==> makes_match(rows_of(board@), #[trigger] moves@[i]),
    {
        let ghost g = rows_of(board@);
        let mut moves: Vec<EliminateMove> = Vec::new();
        let rows: usize = board.len();
        if rows == 0 {
            proof {
                assert(moves@ =~= all_moves(g));
            }
            return moves;
        }
        proof {
            assert(g[0] == board@[0]@);
        }
        let cols: usize = board[0].len();
        let mut row: usize = 0;
        while row < rows
            invariant
                row <= rows,
                rows == board@.len(),
                cols == width_of(g),
                g == rows_of(board@),
                rectangular(g),
                scorable(g),
                moves@ == h_moves(g, row as int),
                forall|i: int| 0 <= i < moves@.len() ==> makes_match(g, #[trigger] moves@[i]),
            decreases rows - row,
        {
            let ghost start = moves@;
            let mut col: usize = 0;
            while col + 1 < cols
                invariant
                    col <= cols,
                    cols > 0 ==> col < cols,
                    row < rows,
                    rows == board@.len(),
                    cols == width_of(g),
                    g == rows_of(board@),
                    rectangular(g),
                    scorable(g),
                    start == h_moves(g, row as int),
                    moves@ == start + row_h_moves(g, row as int, col as int),
                    forall|i: int| 0 <= i < moves@.len() ==> makes_match(g, #[trigger] moves@[i]),
                decreases cols - col,
            {
                Self::try_swap(board, row, col, row, col + 1, &mut moves);
                proof {
                    assert(moves@ =~= start + row_h_moves(g, row as int, col + 1));
                }
                col = col + 1;
            }
            proof {
                if cols == 0 {
                    assert(row_h_moves(g, row as int, cols - 1) =~= Seq::<EliminateMove>::empty());
                    assert(moves@ =~= start + row_h_moves(g, row as int, cols - 1));
                } else {
                    assert(col == cols - 1);
                }
            }
            row = row + 1;
        }
        let ghost flat = moves@;
        let mut row: usize = 0;
        while row + 1 < rows
            invariant
                row < rows,
                rows == board@.len(),
                cols == width_of(g),
                g == rows_of(board@),
                rectangular(g),
                scorable(g),
                flat == h_moves(g, rows as int),
                moves@ == flat + v_moves(g, row as int),
                forall|i: int| 0 <= i < moves@.len() ==> makes_match(g, #[trigger] moves@[i]),
            decreases rows - row,
        {
            let ghost start = moves@;
            let mut col: usize = 0;
            while col < cols
                invariant
                    col <= cols,
                    row + 1 < rows,
                    rows == board@.len(),
                    cols == width_of(g),
                    g == rows_of(board@),
                    rectangular(g),
                    scorable(g),
                    start == flat + v_moves(g, row as int),
                    moves@ == start + row_v_moves(g, row as int, col as int),
                    forall|i: int| 0 <= i < moves@.len() ==> makes_match(g, #[trigger] moves@[i]),
                decreases cols - col,
            {
                Self::try_swap(board, row, col, row + 1, col, &mut moves);
                proof {
                    assert(moves@ =~= start + row_v_moves(g, row as int, col + 1));
                }
                col = col + 1;
            }
            proof {
                assert(moves@ =~= flat + v_moves(g, row + 1));
            }
            row = row + 1;
        }
        proof {
            assert(row == rows - 1);
        }
        moves
    }

    /// The best valid move, if there is any: the one no other outranks, and
    /// among several such the last listed.
    pub fn find_best_move(board: &[Vec<u8>]) -> (out: Option<EliminateMove>)
        requires
            rectangular(rows_of(board@)),
            scorable(rows_of(board@)),
        ensures
            match out {
                None => all_moves(rows_of(board@)).len() == 0,
                Some(m) => exists|k: int| #[trigger]
                    is_last_best(all_moves(rows_of(board@)), k) && m == all_moves(
                        rows_of(board@),
                    )[k],
            },
    {
        let moves = Self::find_all_moves(board);
        if moves.len() == 0 {
            return None;
        }
        let mut best: usize = 0;
        let mut i: usize = 1;
        while i < moves.len()
            invariant
                1 <= i <= moves@.len(),
                best < i,
                forall|j: int| 0 <= j < i ==> !(#[trigger] moves@[j]).outranks(moves@[best as int]),
                forall|j: int|
                    best < j < i ==> moves@[best as int].outranks(#[trigger] moves@[j]),
            decreases moves@.len() - i,
        {
            if !moves[best].ranks_above(&moves[i]) {
                best = i;
            }
            i = i + 1;
        }
        proof {
            assert(is_last_best(moves@, best as int));
        }
        Some(moves[best])
    }

    /// The `n` best valid moves from best to worst, or all of them if there
    /// are fewer; moves of equal rank stay in the order in which
    /// `find_all_moves` lists them.
    pub fn find_best_moves(board: &[Vec<u8>], n: usize) -> (out: Vec<EliminateMove>)
        requires
            rectangular(rows_of(board@)),
            scorable(rows_of(board@)),
        ensures
            out@ == ranked(all_moves(rows_of(board@))).take(
                if n <= all_moves(rows_of(board@)).len() {
                    n as int
                } else {
                    all_moves(rows_of(board@)).len() as int
                },
            ),
    {
        let moves = Self::find_all_moves(board);
        let mut out: Vec<EliminateMove> = Vec::new();
        let mut i: usize = 0;
        while i < moves.len()
            invariant
                i <= moves@.len(),
                out@ == ranked(moves@.take(i as int)),
                out@.len() == i,
            decreases moves@.len() - i,
        {
            let m = moves[i];
            let mut p: usize = out.len();
            while p > 0 && m.ranks_above(&out[p - 1])
                invariant
                    p <= out@.len(),
                    forall|k: int| p <= k < out@.len() ==> m.outranks(#[trigger] out@[k]),
                decreases p,
            {
                p = p - 1;
            }
            proof {
                lemma_insert_at(out@, m, p as int);
                assert(moves@.take(i + 1).drop_last() =~= moves@.take(i as int));
                assert(moves@.take(i + 1).last() == m);
            }
            out.insert(p, m);
            i = i + 1;
        }
        proof {
            assert(moves@.take(moves@.len() as int) =~= moves@);
            lemma_ranked(moves@);
        }
        out.truncate(n);
        proof {
            let all = ranked(moves@);
            if n <= all.len() {
                assert(all.subrange(0, n as int) =~= all.take(n as int));
            } else {
                assert(all =~= all.take(all.len() as int));
            }
        }
        out
    }
}


/// The board with every cell that lies in a run of three or more emptied.
pub open spec fn cleared(g: Grid) -> Grid {
    Seq::new(
        g.len(),
        |r: int|
            Seq::new(
                g[r].len(),
                |c: int|
                    if in_match(g, r, c) {
                        0u8
                    } else {
                        g[r][c]
                    },
            ),
    )
}

/// Column `c` of the board, top first.
pub open spec fn column(g: Grid, c: int) -> Seq<u8> {
    Seq::new(g.len(), |r: int| g[r][c])
}

/// The cells of a column that are not empty, in order.
pub open spec fn solid(col: Seq<u8>) -> Seq<u8>
    decreases col.len(),
{
    if col.len() == 0 {
        Seq::empty()
    } else if col.last() != 0 {
        solid(col.drop_last()).push(col.last())
    } else {
        solid(col.drop_last())
    }
}

/// A column after its cells have fallen: the empty cells on top, the others
/// below them in their order.
pub open spec fn fallen(col: Seq<u8>) -> Seq<u8> {
    let gap = col.len() - solid(col).len();
    Seq::new(
        col.len(),
        |i: int|
            if i < gap {
                0u8
            } else {
                solid(col)[i - gap]
            },
    )
}

/// The board after the cells of every column have fallen.
pub open spec fn settled(g: Grid) -> Grid {
    Seq::new(g.len(), |r: int| Seq::new(width_of(g) as nat, |c: int| fallen(column(g, c))[r]))
}

/// The board after `m` has been played: its two cells exchanged, the runs
/// of three or more cleared once, and the cells fallen once.
pub open spec fn played(g: Grid, m: EliminateMove) -> Grid {
    settled(
        cleared(swapped(g, m.from_row as int, m.from_col as int, m.to_row as int, m.to_col as int)),
    )
}

/// A column has at most as many cells that are not empty as it has cells.
pub proof fn lemma_solid_len(col: Seq<u8>)
    ensures
        solid(col).len() <= col.len(),
    decreases col.len(),
{
    if col.len() > 0 {
        lemma_solid_len(col.drop_last());
    }
}

proof fn lemma_cleared_shape(g: Grid)
    requires
        rectangular(g),
    ensures
        rectangular(cleared(g)),
        cleared(g).len() == g.len(),
        width_of(cleared(g)) == width_of(g),
{
    let s = cleared(g);
    assert forall|r: int| 0 <= r < s.len() implies (#[trigger] s[r]).len() == width_of(g) by {
        assert(g[r].len() == width_of(g));
    }
    if g.len() > 0 {
        assert(s[0].len() == g[0].len());
    }
}

impl EliminateEngine {
    /// Empties every cell that lies in a run of three or more equal cells.
    pub fn remove_matches(board: &[Vec<u8>]) -> (out: Vec<Vec<u8>>)
        requires
            rectangular(rows_of(board@)),
        ensures
            rows_of(out@) == cleared(rows_of(board@)),
    {
        let ghost g = rows_of(board@);
        let ghost want = cleared(g);
        let mut out: Vec<Vec<u8>> = Vec::new();
        let rows: usize = board.len();
        let mut r: usize = 0;
        while r < rows
            invariant
                r <= rows,
                rows == board@.len(),
                g == rows_of(board@),
                want == cleared(g),
                rectangular(g),
                out@.len() == r,
                forall|i: int| 0 <= i < r ==> (#[trigger] out@[i])@ == want[i],
            decreases rows - r,
        {
            proof {
                assert(g[r as int] == board@[r as int]@);
                assert(g[r as int].len() == width_of(g));
            }
            let cols: usize = board[r].len();
            let mut row: Vec<u8> = Vec::new();
            let mut c: usize = 0;
            while c < cols
                invariant
                    c <= cols,
                    r < rows,
                    rows == board@.len(),
                    cols == width_of(g),
                    g == rows_of(board@),
                    g[r as int] == board@[r as int]@,
                    want == cleared(g),
                    rectangular(g),
                    row@.len() == c,
                    forall|j: int| 0 <= j < c ==> row@[j] == want[r as int][j],
                decreases cols - c,
            {
                let v: u8 = board[r][c];
                let mut keep: u8 = v;
                if v != 0 {
                    let (h, w) = run_lengths(board, r, c);
                    if h >= 3 || w >= 3 {
                        keep = 0;
                    }
                }
                row.push(keep);
                c = c + 1;
            }
            proof {
                assert(row@ =~= want[r as int]);
            }
            out.push(row);
            r = r + 1;
        }
        proof {
            assert(rows_of(out@) =~= want);
        }
        out
    }

    /// Lets the cells of every column fall to the bottom, keeping their
    /// order.
    pub fn apply_gravity(board: &[Vec<u8>]) -> (out: Vec<Vec<u8>>)
        requires
            rectangular(rows_of(board@)),
        ensures
            rows_of(out@) == settled(rows_of(board@)),
    {
        let ghost g = rows_of(board@);
        let ghost want = settled(g);
        let rows: usize = board.len();
        if rows == 0 {
            let out: Vec<Vec<u8>> = Vec::new();
            proof {
                assert(rows_of(out@) =~= want);
            }
            return out;
        }
        proof {
            assert(g[0] == board@[0]@);
        }
        let cols: usize = board[0].len();
        let mut heaps: Vec<Vec<u8>> = Vec::new();
        let mut c: usize = 0;
        while c < cols
            invariant
                c <= cols,
                rows == board@.len(),
                cols == width_of(g),
                g == rows_of(board@),
                rectangular(g),
                heaps@.len() == c,
                forall|k: int| 0 <= k < c ==> (#[trigger] heaps@[k])@ == solid(column(g, k)),
            decreases cols - c,
        {
            let ghost col = column(g, c as int);
            let mut kept: Vec<u8> = Vec::new();
            let mut r: usize = 0;
            while r < rows
                invariant
                    r <= rows,
                    c < cols,
                    rows == board@.len(),
                    cols == width_of(g),
                    g == rows_of(board@),
                    rectangular(g),
                    col == column(g, c as int),
                    kept@ == solid(col.take(r as int)),
                decreases rows - r,
            {
                proof {
                    assert(g[r as int] == board@[r as int]@);
                    assert(g[r as int].len() == width_of(g));
                    assert(col.take(r + 1).drop_last() =~= col.take(r as int));
                    assert(col.take(r + 1).last() == g[r as int][c as int]);
                }
                let v: u8 = board[r][c];
                if v != 0 {
                    kept.push(v);
                }
                r = r + 1;
            }
            proof {
                assert(col.take(rows as int) =~= col);
            }
            heaps.push(kept);
            c = c + 1;
        }
        let mut out: Vec<Vec<u8>> = Vec::new();
        let mut r: usize = 0;
        while r < rows
            invariant
                r <= rows,
                rows == board@.len(),
                rows == g.len(),
                cols == width_of(g),
                want == settled(g),
                heaps@.len() == cols,
                forall|k: int| 0 <= k < cols ==> (#[trigger] heaps@[k])@ == solid(column(g, k)),
                out@.len() == r,
                forall|i: int| 0 <= i < r ==> (#[trigger] out@[i])@ == want[i],
            decreases rows - r,
        {
            let mut row: Vec<u8> = Vec::new();
            let mut c: usize = 0;
            while c < cols
                invariant
                    c <= cols,
                    r < rows,
                    rows == g.len(),
                    cols == width_of(g),
                    want == settled(g),
                    heaps@.len() == cols,
                    forall|k: int|
                        0 <= k < cols ==> (#[trigger] heaps@[k])@ == solid(column(g, k)),
                    row@.len() == c,
                    forall|j: int| 0 <= j < c ==> row@[j] == want[r as int][j],
                decreases cols - c,
            {
                proof {
                    lemma_solid_len(column(g, c as int));
                    assert(heaps@[c as int]@ == solid(column(g, c as int)));
                }
                let heap = &heaps[c];
                let gap: usize = rows - heap.len();
                let v: u8 = if r < gap {
                    0
                } else {
                    heap[r - gap]
                };
                row.push(v);
                c = c + 1;
            }
            proof {
                assert(row@ =~= want[r as int]);
            }
            out.push(row);
            r = r + 1;
        }
        proof {
            assert(rows_of(out@) =~= want);
        }
        out
    }

    /// The board after a move: the two cells exchanged, the runs of three or
    /// more cleared, the remaining cells fallen. Runs that form only by the
    /// fall are left.
    pub fn simulate_move(board: &[Vec<u8>], mv: &EliminateMove) -> (out: Vec<Vec<u8>>)
        requires
            rectangular(rows_of(board@)),
            mv.from_row < board@.len(),
            mv.to_row < board@.len(),
            mv.from_col < width_of(rows_of(board@)),
            mv.to_col < width_of(rows_of(board@)),
        ensures
            rows_of(out@) == played(rows_of(board@), *mv),
    {
        let ghost g = rows_of(board@);
        proof {
            assert(g[mv.from_row as int] == board@[mv.from_row as int]@);
            assert(g[mv.to_row as int] == board@[mv.to_row as int]@);
            assert(g[mv.from_row as int].len() == width_of(g));
            assert(g[mv.to_row as int].len() == width_of(g));
            lemma_swapped_shape(
                g,
                mv.from_row as int,
                mv.from_col as int,
                mv.to_row as int,
                mv.to_col as int,
            );
        }
        let turned = swapped_copy(board, mv.from_row, mv.from_col, mv.to_row, mv.to_col);
        let emptied = Self::remove_matches(turned.as_slice());
        proof {
            lemma_cleared_shape(rows_of(turned@));
        }
        Self::apply_gravity(emptied.as_slice())
    }
}

} // verus!
