//! The board: a padded buffer of cells, its encoding as a seed, and the moves
//! that can be played on it.
use vstd::prelude::*;
use vstd::arithmetic::power2::{pow2, lemma_pow2_unfold, lemma_pow2_pos};
use vstd::arithmetic::div_mod::lemma_div_denominator;
use crate::layout::{
    lemma_bit_of_seed,
    MAX_LINES,
    row_width,
    buffer_len,
    slot_of,
    slot_from,
    slot,
    is_slot,
    seed_value,
    bit,
    bits_of,
    peg_count,
    lemma_slot_in_buffer,
    lemma_slot_increasing,
    lemma_slot_row,
    lemma_pow2_fits,
    lemma_seed_value_bound,
    lemma_bits_of_seed,
    lemma_peg_count_update,
    lemma_seed_all_pegs,
    lemma_peg_count_positive,
};

verus! {

/// A seed: bit `i` is set iff cell `i` holds a peg.
pub type Seed = u128;

/// A slot of the buffer: `None` outside the board, else whether it holds a peg.
pub type Cell = Option<bool>;

/// Index of a playable cell, counted from the apex row by row.
pub type CellIndex = usize;

/// The rules a board is played under: its number of rows and whether moves
/// along the two diagonals are allowed.
#[derive(Debug, Clone, Copy, PartialEq, Eq, Structural, Hash, PartialOrd, Ord)]
pub struct PyramideRules {
    pub lines: usize,
    pub diag_allowed: bool,
}

/// The line along which a move jumps.
#[derive(Debug, Clone, Copy, PartialEq, Eq, Structural, Hash)]
pub enum Orientation {
    Horizontal,
    Vertical,
    DiagonalG,
    DiagonalD,
}

/// Which end of the line the jumping peg starts from: `Bas` jumps from the
/// upper (or left) end to the lower (or right) end, `Haut` the other way.
#[derive(Debug, Clone, Copy, PartialEq, Eq, Structural, Hash)]
pub enum Direction {
    Haut,
    Bas,
}

/// A move, given by the cell jumped over, the line and the direction.
#[derive(Debug, Clone, Copy, PartialEq, Eq, Structural, Hash)]
pub struct Coup {
    pub mil: CellIndex,
    pub orientation: Orientation,
    pub dir: Direction,
}

/// Errors reported by the board.
#[derive(Debug, Clone, Copy, PartialEq, Eq, Structural)]
pub enum PyraError {
    /// A cell index at or past the number of playable cells.
    OutOfRange,
    /// A move that is not legal on the board it is played on.
    IllegalMove,
}

/// A board: `lines` rows kept in a padded buffer of `(lines + 1) * (2 * lines + 1)` slots.
#[derive(Debug, Hash)]
pub struct Pyramide {
    pub lines: usize,
    pub cells: Vec<Cell>,
    pub diag_allowed: bool,
}

impl PyramideRules {
    /// Rows that a seed can describe: at least two, at most `MAX_LINES`.
    pub open spec fn wf(self) -> bool {
        2 <= self.lines <= MAX_LINES
    }

    pub fn new(lines: usize, diag_allowed: bool) -> (r: PyramideRules)
        requires
            2 <= lines <= MAX_LINES,
        ensures
            r.lines == lines,
            r.diag_allowed == diag_allowed,
            r.wf(),
    {
        PyramideRules { lines, diag_allowed }
    }
}

pub open spec fn is_diagonal(o: Orientation) -> bool {
    o is DiagonalG || o is DiagonalD
}

/// Offsets (row, column) from the centre of the cell a move takes its peg from,
/// then of the cell it puts it in.
pub open spec fn move_offsets(o: Orientation, d: Direction) -> (int, int, int, int) {
    let (a, b, c, e) = match o {
        Orientation::Horizontal => (0int, -1int, 0int, 1int),
        Orientation::Vertical => (-1int, 0int, 1int, 0int),
        Orientation::DiagonalG => (-1int, -1int, 1int, 1int),
        Orientation::DiagonalD => (-1int, 1int, 1int, -1int),
    };
    match d {
        Direction::Bas => (a, b, c, e),
        Direction::Haut => (c, e, a, b),
    }
}

/// The slot at `dr` rows and `dc` columns from slot `p`, if it lies in the buffer.
pub open spec fn neighbor(n: int, cells: Seq<Cell>, p: int, dr: int, dc: int) -> Cell {
    let k = p + dr * row_width(n) + dc;
    if 0 <= k < cells.len() {
        cells[k]
    } else {
        None
    }
}

/// Buffer slots of the source and destination of a move.
pub open spec fn source_slot(n: int, m: Coup) -> int {
    let (sr, sc, dr, dc) = move_offsets(m.orientation, m.dir);
    slot(n, m.mil as int) + sr * row_width(n) + sc
}

pub open spec fn dest_slot(n: int, m: Coup) -> int {
    let (sr, sc, dr, dc) = move_offsets(m.orientation, m.dir);
    slot(n, m.mil as int) + dr * row_width(n) + dc
}

/// A move is legal when its centre is a playable cell holding a peg, its
/// source holds a peg, its destination is empty, and its line is allowed.
pub open spec fn move_valid_on(n: int, diag_allowed: bool, cells: Seq<Cell>, m: Coup) -> bool {
    let p = slot(n, m.mil as int);
    let (sr, sc, dr, dc) = move_offsets(m.orientation, m.dir);
    &&& m.mil < n * n
    &&& diag_allowed || !is_diagonal(m.orientation)
    &&& 0 <= p < cells.len()
    &&& cells[p] == Some(true)
    &&& neighbor(n, cells, p, sr, sc) == Some(true)
    &&& neighbor(n, cells, p, dr, dc) == Some(false)
}

/// The buffer after a move: centre and source emptied, destination filled.
pub open spec fn cells_after(n: int, cells: Seq<Cell>, m: Coup) -> Seq<Cell> {
    cells.update(slot(n, m.mil as int), Some(false)).update(source_slot(n, m), Some(false)).update(
        dest_slot(n, m),
        Some(true),
    )
}

/// What the playable cells of a buffer hold, in cell-index order.
pub open spec fn pegs_of(n: int, cells: Seq<Cell>) -> Seq<bool> {
    Seq::new((n * n) as nat, |i: int| cells[slot(n, i)] == Some(true))
}

/// The cell index of a playable slot.
pub open spec fn cell_at_slot(n: int, k: int) -> int {
    choose|i: int| 0 <= i < n * n && #[trigger] slot(n, i) == k
}

/// The buffer of the board of `n` rows that seed `v` stands for.
pub open spec fn layout(n: int, v: nat) -> Seq<Cell> {
    Seq::new(
        buffer_len(n) as nat,
        |k: int|
            if is_slot(n, k) {
                Some(bit(v, cell_at_slot(n, k) as nat))
            } else {
                None
            },
    )
}

/// A buffer of the right size whose playable slots are exactly those holding `Some`.
pub open spec fn cells_wf(n: int, cells: Seq<Cell>) -> bool {
    &&& cells.len() == buffer_len(n)
    &&& forall|k: int| 0 <= k < cells.len() ==> (#[trigger] cells[k] is Some <==> is_slot(n, k))
}

/// A move between two seeds: legal on the board of `s`, and leading to `t`.
pub open spec fn is_move(rules: PyramideRules, s: nat, t: nat, m: Coup) -> bool {
    let n = rules.lines as int;
    &&& move_valid_on(n, rules.diag_allowed, layout(n, s), m)
    &&& seed_value(pegs_of(n, cells_after(n, layout(n, s), m))) == t
}

/// Moves that are well formed under the rules, legal on some board or not.
pub open spec fn is_theoretical(rules: PyramideRules, m: Coup) -> bool {
    &&& m.mil < rules.lines * rules.lines
    &&& rules.diag_allowed || !is_diagonal(m.orientation)
}

impl Pyramide {
    pub open spec fn rules(&self) -> PyramideRules {
        PyramideRules { lines: self.lines, diag_allowed: self.diag_allowed }
    }

    /// The playable slots are exactly those holding `Some`.
    pub open spec fn wf(&self) -> bool {
        &&& 2 <= self.lines <= MAX_LINES
        &&& cells_wf(self.lines as int, self.cells@)
    }

    /// Contents of the playable cells in cell-index order.
    pub open spec fn pegs(&self) -> Seq<bool> {
        pegs_of(self.lines as int, self.cells@)
    }

    pub open spec fn valid_move(&self, m: Coup) -> bool {
        move_valid_on(self.lines as int, self.diag_allowed, self.cells@, m)
    }
}

/// Buffer slot of cell `idx` on a board of `lines` rows.
fn slot_index(lines: usize, idx: usize) -> (r: usize)
    requires
        2 <= lines <= MAX_LINES,
        idx < lines * lines,
    ensures
        r == slot(lines as int, idx as int),
        r < buffer_len(lines as int),
{
    let ghost n = lines as int;
    let mut rem: usize = idx;
    let mut row: usize = 0;
    while rem > 2 * row
        invariant
            2 <= lines <= MAX_LINES,
            idx < lines * lines,
            row * row + rem == idx,
            row < lines,
            slot_from(n, rem as nat, row as nat) == slot(n, idx as int),
        decreases rem,
    {
        assert((row + 1) * (row + 1) <= idx) by (nonlinear_arith)
            requires
                row * row + rem == idx,
                rem > 2 * row,
        ;
        if row + 1 >= lines {
            assert((row + 1) * (row + 1) >= lines * lines) by (nonlinear_arith)
                requires
                    row + 1 >= lines,
            ;
        }
        rem = rem - (2 * row + 1);
        row = row + 1;
        assert(row * row + rem == idx) by (nonlinear_arith)
            requires
                (row - 1) * (row - 1) + rem + 2 * (row - 1) + 1 == idx,
        ;
    }
    proof {
        lemma_slot_in_buffer(n, idx as int);
    }
    assert(row * (2 * lines + 1) <= 10 * 23) by (nonlinear_arith)
        requires
            row < lines,
            lines <= 11,
    ;
    row * (2 * lines + 1) + (lines - row) + rem
}

impl Pyramide {
    /// A buffer of the right size with every slot outside the board.
    fn new(lines: usize, diag_allowed: bool) -> (r: Pyramide)
        requires
            2 <= lines <= MAX_LINES,
        ensures
            r.lines == lines,
            r.diag_allowed == diag_allowed,
            r.cells@.len() == buffer_len(lines as int),
            forall|k: int| 0 <= k < r.cells@.len() ==> r.cells@[k] is None,
    {
        assert((lines + 1) * (2 * lines + 1) <= 12 * 23) by (nonlinear_arith)
            requires
                lines <= 11,
        ;
        let size = (lines + 1) * (2 * lines + 1);
        let mut cells: Vec<Cell> = Vec::new();
        let mut k: usize = 0;
        while k < size
            invariant
                k <= size,
                cells@.len() == k,
                forall|j: int| 0 <= j < k ==> cells@[j] is None,
            decreases size - k,
        {
            cells.push(None);
            k = k + 1;
        }
        Pyramide { lines, cells, diag_allowed }
    }

    /// The board that `seed` stands for: cell `i` holds a peg iff bit `i` is set.
    pub fn init_from_seed(lines: usize, seed: Seed, diag_allowed: bool) -> (r: Pyramide)
        requires
            2 <= lines <= MAX_LINES,
        ensures
            r.wf(),
            r.lines == lines,
            r.diag_allowed == diag_allowed,
            r.pegs() == bits_of(seed as nat, (lines * lines) as nat),
    {
        let ghost n = lines as int;
        let mut pyra = Pyramide::new(lines, diag_allowed);
        let max_line = 2 * lines + 1;
        let mut v: u128 = seed;
        let mut index: usize = 0;
        let mut l: usize = 0;
        proof {
            vstd::arithmetic::power2::lemma2_to64();
        }
        while l < lines
            invariant
                n == lines as int,
                2 <= lines <= MAX_LINES,
                pyra.lines == lines,
                pyra.diag_allowed == diag_allowed,
                pyra.cells@.len() == buffer_len(n),
                max_line == 2 * lines + 1,
                l <= lines,
                index == l * l,
                v == seed as nat / pow2(index as nat),
                forall|i: int|
                    0 <= i < index ==> pyra.cells@[#[trigger] slot(n, i)] == Some(
                        bit(seed as nat, i as nat),
                    ),
                forall|k: int|
                    0 <= k < pyra.cells@.len() && #[trigger] pyra.cells@[k] is Some ==> exists|
                        i: int,
                    |
                        0 <= i < index && #[trigger] slot(n, i) == k,
            decreases lines - l,
        {
            assert(max_line * l <= 23 * 10) by (nonlinear_arith)
                requires
                    max_line <= 23,
                    l < lines,
                    lines <= 11,
            ;
            let begin = max_line * l + (lines - l);
            let mut c: usize = 0;
            while c < 2 * l + 1
                invariant
                    n == lines as int,
                    2 <= lines <= MAX_LINES,
                    pyra.lines == lines,
                    pyra.diag_allowed == diag_allowed,
                    pyra.cells@.len() == buffer_len(n),
                    max_line == 2 * lines + 1,
                    l < lines,
                    begin == max_line * l + (lines - l),
                    c <= 2 * l + 1,
                    index == l * l + c,
                    v == seed as nat / pow2(index as nat),
                    forall|i: int|
                        0 <= i < index ==> pyra.cells@[#[trigger] slot(n, i)] == Some(
                            bit(seed as nat, i as nat),
                        ),
                    forall|k: int|
                        0 <= k < pyra.cells@.len() && #[trigger] pyra.cells@[k] is Some ==> exists|
                            i: int,
                        |
                            0 <= i < index && #[trigger] slot(n, i) == k,
                decreases 2 * l + 1 - c,
            {
                assert(index < lines * lines) by (nonlinear_arith)
                    requires
                        index == l * l + c,
                        c < 2 * l + 1,
                        l < lines,
                ;
                assert(begin + c == slot_of(n, l as int, c as int)) by (nonlinear_arith)
                    requires
                        begin == max_line * l + (lines - l),
                        max_line == 2 * lines + 1,
                        n == lines as int,
                        l < lines,
                ;
                assert(buffer_len(n) <= 276 && lines * lines <= 121) by (nonlinear_arith)
                    requires
                        n == lines as int,
                        lines <= 11,
                ;
                proof {
                    lemma_slot_row(n, l as nat, c as nat);
                    lemma_slot_in_buffer(n, index as int);
                    assert forall|i: int| 0 <= i < index implies slot(n, i) != slot(n, index as int) by {
                        lemma_slot_increasing(n, i, index as int);
                    }
                }
                let b = v % 2 == 1;
                let ghost before = pyra.cells@;
                pyra.cells.set(begin + c, Some(b));
                proof {
                    assert(slot(n, index as int) == begin + c);
                    assert(b == bit(seed as nat, index as nat));
                    assert(pyra.cells@[slot(n, index as int)] == Some(bit(seed as nat, index as nat)));
                    assert forall|i: int| 0 <= i < index implies pyra.cells@[#[trigger] slot(n, i)]
                        == before[slot(n, i)] by {
                        lemma_slot_in_buffer(n, i);
                        lemma_slot_increasing(n, i, index as int);
                    }
                    lemma_pow2_pos(index as nat);
                    lemma_div_denominator(seed as int, pow2(index as nat) as int, 2);
                    lemma_pow2_unfold((index + 1) as nat);
                    assert(pow2(index as nat) * 2 == pow2((index + 1) as nat));
                    assert forall|k: int|
                        0 <= k < pyra.cells@.len() && #[trigger] pyra.cells@[k] is Some implies exists|
                            i: int,
                        |
                            0 <= i < index + 1 && #[trigger] slot(n, i) == k by {
                        if k != slot(n, index as int) {
                            assert(before[k] is Some);
                            let i = choose|i: int| 0 <= i < index && #[trigger] slot(n, i) == k;
                            assert(0 <= i < index + 1 && slot(n, i) == k);
                        } else {
                            assert(0 <= index < index + 1 && slot(n, index as int) == k);
                        }
                    }
                }
                v = v / 2;
                index = index + 1;
                c = c + 1;
            }
            assert(index == (l + 1) * (l + 1)) by (nonlinear_arith)
                requires
                    index == l * l + c,
                    c == 2 * l + 1,
            ;
            l = l + 1;
        }
        proof {
            assert forall|k: int| 0 <= k < pyra.cells@.len() implies (#[trigger] pyra.cells@[k] is Some
                <==> is_slot(n, k)) by {
                if is_slot(n, k) {
                    let i = choose|i: int| 0 <= i < n * n && #[trigger] slot(n, i) == k;
                    assert(pyra.cells@[slot(n, i)] == Some(bit(seed as nat, i as nat)));
                }
            }
            assert(pyra.pegs() =~= bits_of(seed as nat, (lines * lines) as nat));
        }
        pyra
    }

    /// The board with a peg in every cell: seed `2^(lines * lines) - 1`.
    pub fn init_full(lines: usize, diag_allowed: bool) -> (r: Pyramide)
        requires
            2 <= lines <= MAX_LINES,
        ensures
            r.wf(),
            r.lines == lines,
            r.diag_allowed == diag_allowed,
            r.pegs() == Seq::new((lines * lines) as nat, |i: int| true),
            seed_value(r.pegs()) + 1 == pow2((lines * lines) as nat),
            peg_count(r.pegs()) == lines * lines,
    {
        assert(lines * lines <= 121) by (nonlinear_arith)
            requires
                lines <= 11,
        ;
        let nn = lines * lines;
        let mut full: u128 = 0;
        let mut i: usize = 0;
        proof {
            vstd::arithmetic::power2::lemma2_to64();
        }
        while i < nn
            invariant
                nn <= 121,
                i <= nn,
                full + 1 == pow2(i as nat),
            decreases nn - i,
        {
            proof {
                lemma_pow2_fits(i as nat);
            }
            full = full * 2 + 1;
            i = i + 1;
        }
        let r = Pyramide::init_from_seed(lines, full, diag_allowed);
        proof {
            let all = Seq::new(nn as nat, |i: int| true);
            lemma_seed_all_pegs(nn as nat);
            lemma_bits_of_seed(all);
        }
        r
    }

    /// Seed of the board: bit `i` set iff cell `i` holds a peg.
    pub fn seed(&self) -> (r: Seed)
        requires
            self.wf(),
        ensures
            r == seed_value(self.pegs()),
    {
        assert(self.lines * self.lines <= 121) by (nonlinear_arith)
            requires
                self.lines <= 11,
        ;
        let nn = self.lines * self.lines;
        let ghost pegs = self.pegs();
        let mut acc: u128 = 0;
        let mut p: u128 = 1;
        let mut i: usize = 0;
        proof {
            vstd::arithmetic::power2::lemma2_to64();
            assert(pegs.take(0) =~= Seq::<bool>::empty());
        }
        while i < nn
            invariant
                self.wf(),
                nn == self.lines * self.lines,
                nn <= 121,
                i <= nn,
                pegs == self.pegs(),
                p == pow2(i as nat),
                acc == seed_value(pegs.take(i as int)),
            decreases nn - i,
        {
            let k = slot_index(self.lines, i);
            proof {
                lemma_seed_value_bound(pegs.take(i as int));
                lemma_pow2_fits(i as nat);
                assert(pegs.take(i + 1).drop_last() =~= pegs.take(i as int));
                assert(pegs[i as int] == (self.cells@[k as int] == Some(true)));
            }
            if matches!(self.cells[k], Some(true)) {
                acc = acc + p;
            }
            p = p * 2;
            i = i + 1;
        }
        proof {
            assert(pegs.take(nn as int) =~= pegs);
        }
        acc
    }

    /// Buffer slot of cell `idx`; `OutOfRange` past the last cell.
    pub fn cell_index_to_vec_index(&self, idx: CellIndex) -> (r: Result<usize, PyraError>)
        requires
            self.wf(),
        ensures
            idx < self.lines * self.lines ==> r is Ok && r->Ok_0 == slot(self.lines as int, idx as int),
            idx >= self.lines * self.lines ==> r == Err::<usize, PyraError>(PyraError::OutOfRange),
    {
        assert(self.lines * self.lines <= 121) by (nonlinear_arith)
            requires
                self.lines <= 11,
        ;
        if idx >= self.lines * self.lines {
            return Err(PyraError::OutOfRange);
        }
        Ok(slot_index(self.lines, idx))
    }
}

/// Offsets of a move's source and destination, as `move_offsets` gives them.
fn offsets(o: Orientation, d: Direction) -> (r: (i64, i64, i64, i64))
    ensures
        (r.0 as int, r.1 as int, r.2 as int, r.3 as int) == move_offsets(o, d),
{
    let (a, b, c, e): (i64, i64, i64, i64) = match o {
        Orientation::Horizontal => (0, -1, 0, 1),
        Orientation::Vertical => (-1, 0, 1, 0),
        Orientation::DiagonalG => (-1, -1, 1, 1),
        Orientation::DiagonalD => (-1, 1, 1, -1),
    };
    match d {
        Direction::Bas => (a, b, c, e),
        Direction::Haut => (c, e, a, b),
    }
}

fn diagonal(o: Orientation) -> (r: bool)
    ensures
        r == is_diagonal(o),
{
    match o {
        Orientation::DiagonalG | Orientation::DiagonalD => true,
        _ => false,
    }
}

/// Distinct cells have distinct slots.
pub proof fn lemma_slot_injective(n: int, i: int, j: int)
    requires
        n >= 0,
        0 <= i < n * n,
        0 <= j < n * n,
        slot(n, i) == slot(n, j),
    ensures
        i == j,
{
    if i < j {
        lemma_slot_increasing(n, i, j);
    } else if j < i {
        lemma_slot_increasing(n, j, i);
    }
}

/// The centre, source and destination of a move are three distinct slots.
proof fn lemma_offsets_distinct(n: int, m: Coup)
    requires
        2 <= n,
    ensures
        slot(n, m.mil as int) != source_slot(n, m),
        slot(n, m.mil as int) != dest_slot(n, m),
        source_slot(n, m) != dest_slot(n, m),
{
    let w = row_width(n);
    let (sr, sc, dr, dc) = move_offsets(m.orientation, m.dir);
    assert(w >= 5);
    assert(sr * w + sc != 0 && dr * w + dc != 0 && (sr - dr) * w + (sc - dc) != 0) by (
    nonlinear_arith)
        requires
            w >= 5,
            (sr, sc, dr, dc) == (0int, -1int, 0int, 1int) || (sr, sc, dr, dc) == (0int, 1int, 0int, -1int)
                || (sr, sc, dr, dc) == (-1int, 0int, 1int, 0int) || (sr, sc, dr, dc) == (
                1int,
                0int,
                -1int,
                0int,
            ) || (sr, sc, dr, dc) == (-1int, -1int, 1int, 1int) || (sr, sc, dr, dc) == (
                1int,
                1int,
                -1int,
                -1int,
            ) || (sr, sc, dr, dc) == (-1int, 1int, 1int, -1int) || (sr, sc, dr, dc) == (
                1int,
                -1int,
                -1int,
                1int,
            ),
    ;
}

/// A legal move removes exactly one peg.
pub proof fn lemma_move_peg_count(n: int, diag_allowed: bool, cells: Seq<Cell>, m: Coup)
    requires
        2 <= n,
        cells_wf(n, cells),
        move_valid_on(n, diag_allowed, cells, m),
    ensures
        cells_wf(n, cells_after(n, cells, m)),
        peg_count(pegs_of(n, cells_after(n, cells, m))) + 1 == peg_count(pegs_of(n, cells)),
        exists|i: int| 0 <= i < n * n && pegs_of(n, cells_after(n, cells, m))[i],
{
    let p = slot(n, m.mil as int);
    let ks = source_slot(n, m);
    let kd = dest_slot(n, m);
    let after = cells_after(n, cells, m);
    assert(cells[ks] is Some && cells[kd] is Some);
    assert(is_slot(n, ks) && is_slot(n, kd));
    let is = choose|i: int| 0 <= i < n * n && #[trigger] slot(n, i) == ks;
    let id = choose|i: int| 0 <= i < n * n && #[trigger] slot(n, i) == kd;
    let ic = m.mil as int;
    lemma_offsets_distinct(n, m);
    assert(is != ic && id != ic && is != id);
    let pegs = pegs_of(n, cells);
    let s1 = pegs.update(ic, false);
    let s2 = s1.update(is, false);
    let s3 = s2.update(id, true);
    assert forall|j: int| 0 <= j < n * n implies #[trigger] pegs_of(n, after)[j] == s3[j] by {
        lemma_slot_in_buffer(n, j);
        if slot(n, j) == p {
            lemma_slot_injective(n, j, ic);
        } else if slot(n, j) == ks {
            lemma_slot_injective(n, j, is);
        } else if slot(n, j) == kd {
            lemma_slot_injective(n, j, id);
        }
    }
    assert(pegs_of(n, after) =~= s3);
    assert(pegs_of(n, after)[id]);
    lemma_peg_count_update(pegs, ic, false);
    lemma_peg_count_update(s1, is, false);
    lemma_peg_count_update(s2, id, true);
}

/// A won board, with a single peg, has no legal move.
pub proof fn lemma_won_board_is_leaf(b: Pyramide, m: Coup)
    requires
        b.wf(),
        peg_count(b.pegs()) == 1,
    ensures
        !b.valid_move(m),
{
    let n = b.lines as int;
    if b.valid_move(m) {
        let ks = source_slot(n, m);
        lemma_offsets_distinct(n, m);
        assert(b.cells@[ks] is Some);
        assert(is_slot(n, ks));
        let is = choose|i: int| 0 <= i < n * n && #[trigger] slot(n, i) == ks;
        let ic = m.mil as int;
        let pegs = b.pegs();
        assert(pegs[ic] && pegs[is]);
        lemma_peg_count_update(pegs, ic, false);
        lemma_peg_count_positive(pegs.update(ic, false), is);
    }
}

/// The buffer of a seed is well formed.
pub proof fn lemma_layout_wf(n: int, v: nat)
    requires
        2 <= n,
    ensures
        cells_wf(n, layout(n, v)),
{
}

/// A well-formed board is the board of its own seed.
pub proof fn lemma_board_layout(n: int, cells: Seq<Cell>)
    requires
        2 <= n,
        cells_wf(n, cells),
    ensures
        cells == layout(n, seed_value(pegs_of(n, cells))),
{
    let pegs = pegs_of(n, cells);
    assert forall|k: int| 0 <= k < cells.len() implies #[trigger] cells[k] == layout(
        n,
        seed_value(pegs),
    )[k] by {
        if is_slot(n, k) {
            let i = cell_at_slot(n, k);
            lemma_bit_of_seed(pegs, i);
        }
    }
    assert(cells =~= layout(n, seed_value(pegs)));
}

impl Clone for Pyramide {
    fn clone(&self) -> (r: Self)
        ensures
            r.lines == self.lines,
            r.diag_allowed == self.diag_allowed,
            r.cells@ == self.cells@,
    {
        let mut cells: Vec<Cell> = Vec::new();
        let mut k: usize = 0;
        while k < self.cells.len()
            invariant
                k <= self.cells@.len(),
                cells@ == self.cells@.take(k as int),
            decreases self.cells@.len() - k,
        {
            cells.push(self.cells[k]);
            k = k + 1;
            assert(cells@ =~= self.cells@.take(k as int));
        }
        assert(cells@ =~= self.cells@);
        Pyramide { lines: self.lines, cells, diag_allowed: self.diag_allowed }
    }
}

impl Pyramide {
    /// The slot at `dr` rows and `dc` columns from slot `p`, `None` outside the buffer.
    fn neighbor_cell(&self, p: usize, dr: i64, dc: i64) -> (r: Cell)
        requires
            self.wf(),
            p < self.cells@.len(),
            -1 <= dr <= 1,
            -1 <= dc <= 1,
        ensures
            r == neighbor(self.lines as int, self.cells@, p as int, dr as int, dc as int),
    {
        assert(self.cells@.len() <= 276) by (nonlinear_arith)
            requires
                self.cells@.len() == (self.lines + 1) * (2 * self.lines + 1),
                self.lines <= 11,
        ;
        let w = (2 * self.lines + 1) as i64;
        assert(-23 <= dr * w <= 23) by (nonlinear_arith)
            requires
                -1 <= dr <= 1,
                0 < w <= 23,
        ;
        let k = p as i64 + dr * w + dc;
        if 0 <= k && k < self.cells.len() as i64 {
            self.cells[k as usize]
        } else {
            None
        }
    }

    /// Whether `coup` is legal on this board.
    pub fn is_coup_valid(&self, coup: &Coup) -> (r: bool)
        requires
            self.wf(),
        ensures
            r == self.valid_move(*coup),
    {
        let idx = match self.cell_index_to_vec_index(coup.mil) {
            Ok(idx) => idx,
            Err(_) => return false,
        };
        proof {
            lemma_slot_in_buffer(self.lines as int, coup.mil as int);
        }
        if !matches!(self.cells[idx], Some(true)) {
            return false;
        }
        if diagonal(coup.orientation) && !self.diag_allowed {
            return false;
        }
        let (sr, sc, dr, dc) = offsets(coup.orientation, coup.dir);
        let src = self.neighbor_cell(idx, sr, sc);
        let dst = self.neighbor_cell(idx, dr, dc);
        matches!(src, Some(true)) && matches!(dst, Some(false))
    }

    /// Whether some legal move jumps over cell `mil`.
    pub fn is_there_a_valid_coup(&self, mil: CellIndex) -> (r: bool)
        requires
            self.wf(),
        ensures
            r == exists|m: Coup| m.mil == mil && #[trigger] self.valid_move(m),
    {
        let orients = [
            Orientation::Horizontal,
            Orientation::Vertical,
            Orientation::DiagonalG,
            Orientation::DiagonalD,
        ];
        let dirs = [Direction::Bas, Direction::Haut];
        let mut a: usize = 0;
        while a < 4
            invariant
                self.wf(),
                orients@ == seq![
                    Orientation::Horizontal,
                    Orientation::Vertical,
                    Orientation::DiagonalG,
                    Orientation::DiagonalD,
                ],
                dirs@ == seq![Direction::Bas, Direction::Haut],
                a <= 4,
                forall|m: Coup|
                    m.mil == mil && #[trigger] self.valid_move(m) ==> !orients@.take(a as int).contains(
                        m.orientation,
                    ),
            decreases 4 - a,
        {
            let mut b: usize = 0;
            while b < 2
                invariant
                    self.wf(),
                    a < 4,
                    orients@ == seq![
                        Orientation::Horizontal,
                        Orientation::Vertical,
                        Orientation::DiagonalG,
                        Orientation::DiagonalD,
                    ],
                    dirs@ == seq![Direction::Bas, Direction::Haut],
                    b <= 2,
                    forall|m: Coup|
                        m.mil == mil && #[trigger] self.valid_move(m) ==> !orients@.take(
                            a as int,
                        ).contains(m.orientation),
                    forall|m: Coup|
                        m.mil == mil && m.orientation == orients@[a as int] && #[trigger] self.valid_move(
                            m,
                        ) ==> !dirs@.take(b as int).contains(m.dir),
                decreases 2 - b,
            {
                let m = Coup { mil, orientation: orients[a], dir: dirs[b] };
                if self.is_coup_valid(&m) {
                    return true;
                }
                proof {
                    assert forall|m2: Coup|
                        m2.mil == mil && m2.orientation == orients@[a as int] && #[trigger] self.valid_move(
                            m2,
                        ) implies !dirs@.take(b + 1).contains(m2.dir) by {
                        if m2.dir == dirs@[b as int] {
                            assert(m2 == m);
                        }
                        assert(dirs@.take(b + 1) =~= dirs@.take(b as int).push(dirs@[b as int]));
                    }
                }
                b = b + 1;
            }
            proof {
                assert forall|m2: Coup| m2.mil == mil && #[trigger] self.valid_move(m2) implies !orients@.take(
                    a + 1,
                ).contains(m2.orientation) by {
                    assert(orients@.take(a + 1) =~= orients@.take(a as int).push(orients@[a as int]));
                    if m2.orientation == orients@[a as int] {
                        assert(dirs@.take(2) =~= dirs@);
                        assert(dirs@.contains(m2.dir)) by {
                            if m2.dir is Bas {
                                assert(dirs@[0] == m2.dir);
                            } else {
                                assert(dirs@[1] == m2.dir);
                            }
                        }
                    }
                }
            }
            a = a + 1;
        }
        proof {
            assert(orients@.take(4) =~= orients@);
            assert forall|m2: Coup| m2.mil == mil implies !#[trigger] self.valid_move(m2) by {
                let o = m2.orientation;
                let k: int = match o {
                    Orientation::Horizontal => 0,
                    Orientation::Vertical => 1,
                    Orientation::DiagonalG => 2,
                    Orientation::DiagonalD => 3,
                };
                assert(orients@[k] == o);
            }
        }
        false
    }

    /// Plays `coup`: the centre and source are emptied and the destination
    /// filled. Fails, leaving the board as it was, when the centre is not a cell
    /// (`OutOfRange`) or the move is not legal (`IllegalMove`).
    pub fn coup(&mut self, coup: &Coup) -> (r: Result<(), PyraError>)
        requires
            old(self).wf(),
        ensures
            final(self).wf(),
            final(self).lines == old(self).lines,
            final(self).diag_allowed == old(self).diag_allowed,
            r is Ok <==> old(self).valid_move(*coup),
            r is Ok ==> final(self).cells@ == cells_after(
                old(self).lines as int,
                old(self).cells@,
                *coup,
            ),
            r is Err ==> final(self).cells@ == old(self).cells@,
            r is Ok ==> peg_count(final(self).pegs()) + 1 == peg_count(old(self).pegs()),
            r == Err::<(), PyraError>(PyraError::OutOfRange) <==> coup.mil >= old(self).lines
                * old(self).lines,
            r == Err::<(), PyraError>(PyraError::IllegalMove) <==> (coup.mil < old(self).lines
                * old(self).lines && !old(self).valid_move(*coup)),
    {
        let idx = match self.cell_index_to_vec_index(coup.mil) {
            Ok(idx) => idx,
            Err(e) => return Err(e),
        };
        if !self.is_coup_valid(coup) {
            return Err(PyraError::IllegalMove);
        }
        let ghost n = self.lines as int;
        let ghost before = self.cells@;
        proof {
            lemma_move_peg_count(n, self.diag_allowed, before, *coup);
        }
        assert(self.cells@.len() <= 276) by (nonlinear_arith)
            requires
                self.cells@.len() == (self.lines + 1) * (2 * self.lines + 1),
                self.lines <= 11,
        ;
        let w = (2 * self.lines + 1) as i64;
        let (sr, sc, dr, dc) = offsets(coup.orientation, coup.dir);
        let src = (idx as i64 + sr * w + sc) as usize;
        let dst = (idx as i64 + dr * w + dc) as usize;
        self.cells.set(idx, Some(false));
        self.cells.set(src, Some(false));
        self.cells.set(dst, Some(true));
        proof {
            assert(self.cells@ =~= cells_after(n, before, *coup));
        }
        Ok(())
    }

    /// Whether the game is won: exactly one peg is left.
    pub fn partie_gagne(&self) -> (r: bool)
        requires
            self.wf(),
        ensures
            r == (peg_count(self.pegs()) == 1),
    {
        assert(self.lines * self.lines <= 121) by (nonlinear_arith)
            requires
                self.lines <= 11,
        ;
        let nn = self.lines * self.lines;
        let ghost pegs = self.pegs();
        let mut count: usize = 0;
        let mut i: usize = 0;
        proof {
            assert(pegs.take(0) =~= Seq::<bool>::empty());
        }
        while i < nn
            invariant
                self.wf(),
                nn == self.lines * self.lines,
                nn <= 121,
                i <= nn,
                pegs == self.pegs(),
                count == peg_count(pegs.take(i as int)),
                count <= i,
            decreases nn - i,
        {
            let k = slot_index(self.lines, i);
            proof {
                assert(pegs.take(i + 1).drop_last() =~= pegs.take(i as int));
            }
            if matches!(self.cells[k], Some(true)) {
                count = count + 1;
            }
            i = i + 1;
        }
        proof {
            assert(pegs.take(nn as int) =~= pegs);
        }
        count == 1
    }

    /// Sets cell `idx` to a peg or a hole; `OutOfRange` past the last cell.
    pub fn update_cell(&mut self, idx: CellIndex, value: Cell) -> (r: Result<(), PyraError>)
        requires
            old(self).wf(),
            value is Some,
        ensures
            final(self).wf(),
            final(self).lines == old(self).lines,
            final(self).diag_allowed == old(self).diag_allowed,
            idx < old(self).lines * old(self).lines ==> r is Ok && final(self).cells@ == old(
                self,
            ).cells@.update(slot(old(self).lines as int, idx as int), value),
            idx >= old(self).lines * old(self).lines ==> r == Err::<(), PyraError>(
                PyraError::OutOfRange,
            ) && final(self).cells@ == old(self).cells@,
    {
        let vec_idx = match self.cell_index_to_vec_index(idx) {
            Ok(vec_idx) => vec_idx,
            Err(e) => return Err(e),
        };
        proof {
            lemma_slot_in_buffer(self.lines as int, idx as int);
            assert(is_slot(self.lines as int, slot(self.lines as int, idx as int)));
        }
        self.cells.set(vec_idx, value);
        Ok(())
    }

    /// Whether cell `idx` holds a peg; `OutOfRange` past the last cell.
    pub fn get_cell(&self, idx: CellIndex) -> (r: Result<bool, PyraError>)
        requires
            self.wf(),
        ensures
            idx < self.lines * self.lines ==> r == Ok::<bool, PyraError>(self.pegs()[idx as int]),
            idx >= self.lines * self.lines ==> r == Err::<bool, PyraError>(PyraError::OutOfRange),
    {
        let vec_idx = match self.cell_index_to_vec_index(idx) {
            Ok(vec_idx) => vec_idx,
            Err(e) => return Err(e),
        };
        proof {
            lemma_slot_in_buffer(self.lines as int, idx as int);
        }
        Ok(matches!(self.cells[vec_idx], Some(true)))
    }
}

/// Walks the playable cells of a board in cell-index order, from cell `index`.
pub struct CellsIterator<'a> {
    pub cells: &'a Vec<Cell>,
    pub lines: usize,
    pub index: CellIndex,
    pub col_index: usize,
    pub cur_line: usize,
}

impl<'a> CellsIterator<'a> {
    /// `index` is column `col_index` of row `cur_line`.
    pub open spec fn wf(&self) -> bool {
        &&& 2 <= self.lines <= MAX_LINES
        &&& self.cells@.len() == buffer_len(self.lines as int)
        &&& self.cur_line <= self.lines
        &&& self.col_index <= 2 * self.cur_line
        &&& self.index == self.cur_line * self.cur_line + self.col_index
        &&& self.cur_line == self.lines ==> self.col_index == 0
    }

    /// The next playable cell, `None` past the last one.
    pub fn next(&mut self) -> (r: Option<Cell>)
        requires
            old(self).wf(),
        ensures
            final(self).wf(),
            final(self).cells@ == old(self).cells@,
            final(self).lines == old(self).lines,
            old(self).index < old(self).lines * old(self).lines ==> r == Some(
                old(self).cells@[slot(old(self).lines as int, old(self).index as int)],
            ) && final(self).index == old(self).index + 1,
            old(self).index >= old(self).lines * old(self).lines ==> r is None && final(self).index
                == old(self).index,
    {
        let ghost n = self.lines as int;
        if self.cur_line < self.lines {
            assert(self.index < self.lines * self.lines) by (nonlinear_arith)
                requires
                    self.index == self.cur_line * self.cur_line + self.col_index,
                    self.col_index <= 2 * self.cur_line,
                    self.cur_line < self.lines,
            ;
            proof {
                lemma_slot_row(n, self.cur_line as nat, self.col_index as nat);
                lemma_slot_in_buffer(n, self.index as int);
            }
            assert(self.cur_line * (2 * self.lines + 1) <= 10 * 23) by (nonlinear_arith)
                requires
                    self.cur_line < self.lines,
                    self.lines <= 11,
            ;
            assert(self.lines * self.lines <= 121) by (nonlinear_arith)
                requires
                    self.lines <= 11,
            ;
            let max_line = self.lines * 2 + 1;
            let recul = (max_line - 1) / 2 - self.cur_line;
            let temp_index = self.cur_line * max_line + recul + self.col_index;
            assert(temp_index == slot_of(n, self.cur_line as int, self.col_index as int)) by (
            nonlinear_arith)
                requires
                    temp_index == self.cur_line * max_line + recul + self.col_index,
                    max_line == 2 * self.lines + 1,
                    recul == self.lines - self.cur_line,
                    n == self.lines,
            ;
            self.col_index = self.col_index + 1;
            self.index = self.index + 1;
            if self.col_index > 2 * self.cur_line {
                self.col_index = 0;
                self.cur_line = self.cur_line + 1;
                assert(self.index == self.cur_line * self.cur_line) by (nonlinear_arith)
                    requires
                        self.index == (self.cur_line - 1) * (self.cur_line - 1) + 2 * (self.cur_line
                            - 1) + 1,
                ;
            }
            Some(self.cells[temp_index])
        } else {
            assert(self.index == self.lines * self.lines);
            None
        }
    }
}

impl Pyramide {
    /// An iterator over the playable cells, from the apex.
    pub fn iter(&self) -> (r: CellsIterator<'_>)
        requires
            self.wf(),
        ensures
            r.wf(),
            r.cells@ == self.cells@,
            r.lines == self.lines,
            r.index == 0,
    {
        CellsIterator { cells: &self.cells, lines: self.lines, index: 0, col_index: 0, cur_line: 0 }
    }

    /// An iterator over the playable cells below the apex, from cell `1`.
    pub fn move_iter(&self) -> (r: CellsIterator<'_>)
        requires
            self.wf(),
        ensures
            r.wf(),
            r.cells@ == self.cells@,
            r.lines == self.lines,
            r.index == 1,
    {
        CellsIterator { cells: &self.cells, lines: self.lines, index: 1, col_index: 0, cur_line: 1 }
    }
}

impl PartialEq for Pyramide {
    fn eq(&self, other: &Self) -> (r: bool) {
        if self.diag_allowed != other.diag_allowed || self.cells.len() != other.cells.len() {
            return false;
        }
        let mut k: usize = 0;
        while k < self.cells.len()
            invariant
                self.cells@.len() == other.cells@.len(),
                k <= self.cells@.len(),
                forall|j: int| 0 <= j < k ==> self.cells@[j] == other.cells@[j],
            decreases self.cells@.len() - k,
        {
            let same = match (self.cells[k], other.cells[k]) {
                (None, None) => true,
                (Some(a), Some(b)) => a == b,
                _ => false,
            };
            if !same {
                return false;
            }
            k = k + 1;
        }
        assert(self.cells@ =~= other.cells@);
        true
    }
}

impl vstd::std_specs::cmp::PartialEqSpecImpl for Pyramide {
    open spec fn obeys_eq_spec() -> bool {
        true
    }

    open spec fn eq_spec(&self, other: &Pyramide) -> bool {
        self.cells@ == other.cells@ && self.diag_allowed == other.diag_allowed
    }
}

} // verus!
