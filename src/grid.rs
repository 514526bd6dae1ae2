use vstd::prelude::*;
use vstd::string::StrSliceExecFns;

use crate::bitset::{bit, bits_set, BitSet};

verus! {

/// Row of the cell with row-major index `i`.
pub open spec fn row_of(i: int) -> int {
    i / 9
}

/// Column of the cell with row-major index `i`.
pub open spec fn col_of(i: int) -> int {
    i % 9
}

/// Box of the cell with row-major index `i`, boxes numbered row-major.
pub open spec fn box_of(i: int) -> int {
    (i / 9) / 3 * 3 + (i % 9) / 3
}

/// Two distinct cells are peers when they share a row, a column or a box.
pub open spec fn peers(i: int, j: int) -> bool {
    i != j && (row_of(i) == row_of(j) || col_of(i) == col_of(j) || box_of(i) == box_of(j))
}

/// Cell `j` of `g` holds the value `v`.
pub open spec fn holds(g: Seq<Option<u8>>, j: int, v: nat) -> bool {
    g[j] is Some && g[j]->0 as nat == v
}

/// Two peers among the first `n` cells hold the same value.
pub open spec fn conflict_below(g: Seq<Option<u8>>, n: int) -> bool {
    exists|i: int, j: int|
        0 <= i < n && 0 <= j < n && peers(i, j) && g[i] is Some && #[trigger] g[i] == #[trigger] g[j]
}

/// Some row, column or box of the grid holds one value twice.
pub open spec fn has_conflict(g: Seq<Option<u8>>) -> bool {
    conflict_below(g, 81)
}

/// Every cell holds a value.
pub open spec fn is_full(g: Seq<Option<u8>>) -> bool {
    forall|i: int| 0 <= i < 81 ==> (#[trigger] g[i]) is Some
}

/// Full and free of conflicts.
pub open spec fn is_solved(g: Seq<Option<u8>>) -> bool {
    is_full(g) && !has_conflict(g)
}

/// Eighty-one cells, each empty or holding a value from 1 to 9.
pub open spec fn valid_cells(g: Seq<Option<u8>>) -> bool {
    &&& g.len() == 81
    &&& forall|i: int| 0 <= i < 81 && (#[trigger] g[i]) is Some ==> 1 <= g[i]->0 <= 9
}

/// No peer of cell `i` holds `v`.
pub open spec fn allowed(g: Seq<Option<u8>>, i: int, v: nat) -> bool {
    forall|j: int| 0 <= j < 81 && #[trigger] peers(i, j) ==> !holds(g, j, v)
}

/// The values from 1 to 9 that no peer of cell `i` holds.
pub open spec fn candidates(g: Seq<Option<u8>>, i: int) -> Set<nat> {
    Set::new(|v: nat| 1 <= v <= 9 && allowed(g, i, v))
}

/// Every given of `puzzle` stands unchanged in `g`.
pub open spec fn completes(puzzle: Seq<Option<u8>>, g: Seq<Option<u8>>) -> bool {
    forall|i: int| 0 <= i < 81 && (#[trigger] puzzle[i]) is Some ==> g[i] == puzzle[i]
}

/// A grid with no value in it has no conflict.
pub proof fn lemma_empty_grid_has_no_conflict(g: Seq<Option<u8>>)
    requires
        forall|i: int| 0 <= i < 81 ==> (#[trigger] g[i]) is None,
    ensures
        !has_conflict(g),
{
}

/// A text whose cells are all filled without a repeated value parses, and
/// the grid it gives is correct.
pub proof fn lemma_parse_filled_valid_text(s: Seq<char>)
    requires
        is_full(parse_cells(s)),
        !has_conflict(parse_cells(s)),
    ensures
        !has_conflict(parse_cells(s)),
        is_solved(parse_cells(s)),
{
}

/// Values held among the first `n` cells by the cells of unit `unit` of kind `which`.
pub open spec fn seen(g: Seq<Option<u8>>, n: int, unit: int, which: int) -> Set<nat> {
    Set::new(|v: nat| exists|j: int| 0 <= j < n && unit_of(which, j) == unit && #[trigger] holds(g, j, v))
}

/// The row (0), column (1) or box (2) of cell `j`.
pub open spec fn unit_of(which: int, j: int) -> int {
    if which == 0 {
        row_of(j)
    } else if which == 1 {
        col_of(j)
    } else {
        box_of(j)
    }
}

/// The value a character stands for: the digits 1 to 9, and nothing else.
pub open spec fn digit_of(ch: char) -> Option<u8> {
    if 49 <= ch as u32 <= 57 {
        Some((ch as u32 - 48) as u8)
    } else {
        None
    }
}

/// Reading the text left to right: the row and column reached, and the
/// cells filled so far. A newline starts the next row; a digit from 1 to 9
/// inside the nine rows and nine columns fills its cell; any other character
/// leaves its cell empty.
pub open spec fn scan(s: Seq<char>) -> (int, int, Seq<Option<u8>>)
    decreases s.len(),
{
    if s.len() == 0 {
        (0, 0, Seq::new(81, |i: int| None))
    } else {
        let prev = scan(s.drop_last());
        let ch = s.last();
        if ch == '\n' {
            (prev.0 + 1, 0, prev.2)
        } else if prev.0 < 9 && prev.1 < 9 && digit_of(ch) is Some {
            (prev.0, prev.1 + 1, prev.2.update(prev.0 * 9 + prev.1, digit_of(ch)))
        } else {
            (prev.0, prev.1 + 1, prev.2)
        }
    }
}

/// The cells that a text describes.
pub open spec fn parse_cells(s: Seq<char>) -> Seq<Option<u8>> {
    scan(s).2
}

/// A cell as three characters: its digit between spaces, or a dot.
pub open spec fn cell_text(c: Option<u8>) -> Seq<char> {
    match c {
        Some(v) => if v == 1 {
            " 1 "@
        } else if v == 2 {
            " 2 "@
        } else if v == 3 {
            " 3 "@
        } else if v == 4 {
            " 4 "@
        } else if v == 5 {
            " 5 "@
        } else if v == 6 {
            " 6 "@
        } else if v == 7 {
            " 7 "@
        } else if v == 8 {
            " 8 "@
        } else {
            " 9 "@
        },
        None => " . "@,
    }
}

/// The first `n` cells of row `r`, a bar before the fourth and the seventh.
pub open spec fn row_text(g: Seq<Option<u8>>, r: int, n: int) -> Seq<char>
    decreases n,
{
    if n <= 0 {
        Seq::empty()
    } else {
        let bar = if n - 1 == 3 || n - 1 == 6 { "|"@ } else { Seq::empty() };
        row_text(g, r, n - 1) + bar + cell_text(g[r * 9 + n - 1])
    }
}

/// The first `n` rows, one per line, with a ruled line above the fourth and the seventh.
pub open spec fn grid_text(g: Seq<Option<u8>>, n: int) -> Seq<char>
    decreases n,
{
    if n <= 0 {
        Seq::empty()
    } else {
        let sep = if n - 1 == 0 {
            Seq::empty()
        } else if n - 1 == 3 || n - 1 == 6 {
            "\n"@ + "---------+---------+---------"@ + "\n"@
        } else {
            "\n"@
        };
        grid_text(g, n - 1) + sep + row_text(g, n - 1, 9)
    }
}

/// A 9 by 9 sudoku board; each cell is empty or holds a value from 1 to 9.
#[derive(Debug, PartialEq, Eq)]
pub struct SudokuGrid {
    cells: Vec<Option<u8>>,
}

impl View for SudokuGrid {
    type V = Seq<Option<u8>>;

    /// The cells in row-major order.
    closed spec fn view(&self) -> Seq<Option<u8>> {
        self.cells@
    }
}

/// The values seen in each row, column and box.
struct UnitSets {
    r: Vec<BitSet>,
    c: Vec<BitSet>,
    b: Vec<BitSet>,
}

impl UnitSets {
    spec fn covers(&self, g: Seq<Option<u8>>, n: int) -> bool {
        &&& self.r@.len() == 9
        &&& self.c@.len() == 9
        &&& self.b@.len() == 9
        &&& forall|u: int| 0 <= u < 9 ==> #[trigger] self.r@[u]@ == seen(g, n, u, 0)
        &&& forall|u: int| 0 <= u < 9 ==> #[trigger] self.c@[u]@ == seen(g, n, u, 1)
        &&& forall|u: int| 0 <= u < 9 ==> #[trigger] self.b@[u]@ == seen(g, n, u, 2)
    }

    fn new() -> (s: UnitSets)
        ensures
            forall|g: Seq<Option<u8>>| #[trigger] s.covers(g, 0),
    {
        let mut r: Vec<BitSet> = Vec::new();
        let mut c: Vec<BitSet> = Vec::new();
        let mut b: Vec<BitSet> = Vec::new();
        let mut k: usize = 0;
        while k < 9
            invariant
                k <= 9,
                r@.len() == k,
                c@.len() == k,
                b@.len() == k,
                forall|u: int| 0 <= u < k ==> #[trigger] r@[u]@ == Set::<nat>::empty(),
                forall|u: int| 0 <= u < k ==> #[trigger] c@[u]@ == Set::<nat>::empty(),
                forall|u: int| 0 <= u < k ==> #[trigger] b@[u]@ == Set::<nat>::empty(),
            decreases 9 - k,
        {
            r.push(BitSet::new());
            c.push(BitSet::new());
            b.push(BitSet::new());
            k = k + 1;
        }
        let s = UnitSets { r, c, b };
        assert forall|g: Seq<Option<u8>>| #[trigger] s.covers(g, 0) by {
            assert forall|u: int| 0 <= u < 9 implies #[trigger] s.r@[u]@ == seen(g, 0, u, 0) by {
                assert(seen(g, 0, u, 0) =~= Set::<nat>::empty());
            }
            assert forall|u: int| 0 <= u < 9 implies #[trigger] s.c@[u]@ == seen(g, 0, u, 1) by {
                assert(seen(g, 0, u, 1) =~= Set::<nat>::empty());
            }
            assert forall|u: int| 0 <= u < 9 implies #[trigger] s.b@[u]@ == seen(g, 0, u, 2) by {
                assert(seen(g, 0, u, 2) =~= Set::<nat>::empty());
            }
        }
        s
    }
}

proof fn lemma_unit_bounds(i: int)
    requires
        0 <= i < 81,
    ensures
        0 <= row_of(i) < 9,
        0 <= col_of(i) < 9,
        0 <= box_of(i) < 9,
        i == row_of(i) * 9 + col_of(i),
{
}

/// Taking in cell `n` adds its value to the sets of its own units and leaves the others alone.
proof fn lemma_seen_step(g: Seq<Option<u8>>, n: int, u: int, which: int)
    requires
        0 <= n < g.len(),
    ensures
        seen(g, n + 1, u, which) == if g[n] is Some && unit_of(which, n) == u {
            seen(g, n, u, which).insert(g[n]->0 as nat)
        } else {
            seen(g, n, u, which)
        },
{
    if g[n] is Some && unit_of(which, n) == u {
        assert(holds(g, n, g[n]->0 as nat));
        assert(seen(g, n + 1, u, which) =~= seen(g, n, u, which).insert(g[n]->0 as nat));
    } else {
        assert(seen(g, n + 1, u, which) =~= seen(g, n, u, which));
    }
}

proof fn lemma_digits_mask()
    ensures
        bits_set(1022) == Set::new(|v: nat| 1 <= v <= 9),
{
    BitSet::lemma_bits(1022);
    assert forall|v: u16| v < 16 implies bit(1022, v) == (1 <= v <= 9) by {
        assert(((1022u16 >> v) & 1u16 == 1u16) == (1 <= v && v <= 9)) by (bit_vector)
            requires v < 16;
    }
    assert(bits_set(1022) =~= Set::new(|v: nat| 1 <= v <= 9));
}

impl SudokuGrid {
    /// Eighty-one cells, each empty or holding a value from 1 to 9.
    pub open spec fn wf(&self) -> bool {
        valid_cells(self@)
    }

    /// An empty grid.
    pub fn new() -> (g: SudokuGrid)
        ensures
            g.wf(),
            forall|i: int| 0 <= i < 81 ==> (#[trigger] g@[i]) is None,
    {
        let mut cells: Vec<Option<u8>> = Vec::new();
        let mut k: usize = 0;
        while k < 81
            invariant
                k <= 81,
                cells@.len() == k,
                forall|i: int| 0 <= i < k ==> (#[trigger] cells@[i]) is None,
            decreases 81 - k,
        {
            cells.push(None);
            k = k + 1;
        }
        SudokuGrid { cells }
    }

    /// Writes `value` at (`row_num`, `col_num`), without looking for conflicts.
    pub fn set(&mut self, row_num: usize, col_num: usize, value: u8) -> (r: Result<(), String>)
        requires
            old(self).wf(),
        ensures
            final(self).wf(),
            r is Err <==> (value < 1 || value > 9 || row_num >= 9 || col_num >= 9),
            r is Ok ==> final(self)@ == old(self)@.update(row_num * 9 + col_num, Some(value)),
            r is Err ==> final(self)@ == old(self)@,
    {
        if value < 1 || value > 9 {
            return Err(String::from_str("value is out of bounds: 1 <= value <= 9"));
        }
        if row_num >= 9 {
            return Err(String::from_str("row is out of bounds: the largest row index is 8"));
        }
        if col_num >= 9 {
            return Err(String::from_str("col is out of bounds: the largest col index is 8"));
        }
        self.cells.set(row_num * 9 + col_num, Some(value));
        Ok(())
    }

    /// Reads a grid from text: nine lines of nine characters, a digit from 1 to
    /// 9 for a filled cell and any other character for an empty one. Fails
    /// when the filled cells already hold a value twice in a row, column or box.
    pub fn from(grid_str: &str) -> (r: Result<SudokuGrid, String>)
        ensures
            r is Ok <==> !has_conflict(parse_cells(grid_str@)),
            r matches Ok(g) ==> g.wf() && g@ == parse_cells(grid_str@),
    {
        let ghost text = grid_str@;
        let mut grid = SudokuGrid::new();
        proof {
            assert(grid@ =~= scan(text.subrange(0, 0)).2);
        }
        let len = grid_str.unicode_len();
        let mut row: usize = 0;
        let mut col: usize = 0;
        let mut i: usize = 0;
        while i < len
            invariant
                len == text.len(),
                text == grid_str@,
                i <= len,
                row <= i,
                col <= i,
                grid.wf(),
                scan(text.subrange(0, i as int)) == (row as int, col as int, grid@),
            decreases len - i,
        {
            let ch = grid_str.get_char(i);
            proof {
                let pre = text.subrange(0, i as int);
                let pre1 = text.subrange(0, i + 1);
                assert(pre1.drop_last() =~= pre);
                assert(pre1.last() == ch);
            }
            if ch == '\n' {
                row = row + 1;
                col = 0;
            } else {
                let code = ch as u32;
                if row < 9 && col < 9 && 49 <= code && code <= 57 {
                    let _ = grid.set(row, col, (code - 48) as u8);
                }
                col = col + 1;
            }
            i = i + 1;
        }
        proof {
            assert(text.subrange(0, len as int) =~= text);
        }
        if grid.has_conflicts() {
            Err(String::from_str("the grid holds a value twice in a row, column or box"))
        } else {
            Ok(grid)
        }
    }

    /// The grid as text: three characters a cell, bars between boxes, and
    /// ruled lines between bands of boxes.
    pub fn render(&self) -> (r: String)
        requires
            self.wf(),
        ensures
            r@ == grid_text(self@, 9),
    {
        let mut out = String::new();
        let mut i: usize = 0;
        while i < 9
            invariant
                self.wf(),
                i <= 9,
                out@ == grid_text(self@, i as int),
            decreases 9 - i,
        {
            let ghost before = out@;
            if i > 0 {
                out.append("\n");
                if i % 3 == 0 {
                    out.append("---------+---------+---------");
                    out.append("\n");
                }
            }
            let ghost with_sep = out@;
            let mut j: usize = 0;
            while j < 9
                invariant
                    self.wf(),
                    i < 9,
                    j <= 9,
                    out@ == with_sep + row_text(self@, i as int, j as int),
                decreases 9 - j,
            {
                let ghost before_cell = out@;
                if j == 3 || j == 6 {
                    out.append("|");
                }
                let c = self.cells[i * 9 + j];
                match c {
                    Some(v) => {
                        if v == 1 {
                            out.append(" 1 ");
                        } else if v == 2 {
                            out.append(" 2 ");
                        } else if v == 3 {
                            out.append(" 3 ");
                        } else if v == 4 {
                            out.append(" 4 ");
                        } else if v == 5 {
                            out.append(" 5 ");
                        } else if v == 6 {
                            out.append(" 6 ");
                        } else if v == 7 {
                            out.append(" 7 ");
                        } else if v == 8 {
                            out.append(" 8 ");
                        } else {
                            out.append(" 9 ");
                        }
                    },
                    None => {
                        out.append(" . ");
                    },
                }
                proof {
                    let bar = if j == 3 || j == 6 { "|"@ } else { Seq::<char>::empty() };
                    assert(out@ =~= before_cell + bar + cell_text(self@[i * 9 + j]));
                    assert(row_text(self@, i as int, j + 1) == row_text(self@, i as int, j as int) + bar
                        + cell_text(self@[i * 9 + j]));
                    assert(out@ =~= with_sep + row_text(self@, i as int, j + 1));
                }
                j = j + 1;
            }
            proof {
                let sep = if i == 0 {
                    Seq::<char>::empty()
                } else if i == 3 || i == 6 {
                    "\n"@ + "---------+---------+---------"@ + "\n"@
                } else {
                    "\n"@
                };
                assert(with_sep =~= before + sep);
                assert(grid_text(self@, i + 1) == grid_text(self@, i as int) + sep + row_text(self@, i as int, 9));
                assert(out@ =~= grid_text(self@, i + 1));
            }
            i = i + 1;
        }
        out
    }

    /// Whether every cell holds a value and no row, column or box holds one twice.
    pub fn is_correct(&self) -> (r: bool)
        requires
            self.wf(),
        ensures
            r == is_solved(self@),
    {
        let mut n: usize = 0;
        while n < 81
            invariant
                self.wf(),
                n <= 81,
                forall|i: int| 0 <= i < n ==> (#[trigger] self@[i]) is Some,
            decreases 81 - n,
        {
            if self.cells[n].is_none() {
                return false;
            }
            n = n + 1;
        }
        !self.has_conflicts()
    }

    /// The values already placed in each row, column and box.
    fn get_grid_nums(&self) -> (s: UnitSets)
        requires
            self.wf(),
        ensures
            s.covers(self@, 81),
    {
        let ghost g = self@;
        let mut seen_sets = UnitSets::new();
        let mut n: usize = 0;
        while n < 81
            invariant
                g == self@,
                valid_cells(g),
                n <= 81,
                seen_sets.covers(g, n as int),
            decreases 81 - n,
        {
            proof {
                lemma_unit_bounds(n as int);
            }
            if let Some(value) = self.cells[n] {
                let ri = n / 9;
                let ci = n % 9;
                let bi = n / 9 / 3 * 3 + n % 9 / 3;
                let mut t = seen_sets.r[ri];
                t.insert(value);
                seen_sets.r.set(ri, t);
                let mut t = seen_sets.c[ci];
                t.insert(value);
                seen_sets.c.set(ci, t);
                let mut t = seen_sets.b[bi];
                t.insert(value);
                seen_sets.b.set(bi, t);
            }
            proof {
                assert forall|u: int| 0 <= u < 9 implies #[trigger] seen_sets.r@[u]@ == seen(g, n + 1, u, 0) by {
                    lemma_seen_step(g, n as int, u, 0);
                }
                assert forall|u: int| 0 <= u < 9 implies #[trigger] seen_sets.c@[u]@ == seen(g, n + 1, u, 1) by {
                    lemma_seen_step(g, n as int, u, 1);
                }
                assert forall|u: int| 0 <= u < 9 implies #[trigger] seen_sets.b@[u]@ == seen(g, n + 1, u, 2) by {
                    lemma_seen_step(g, n as int, u, 2);
                }
            }
            n = n + 1;
        }
        seen_sets
    }

    /// For each empty cell, the values that no peer holds; nothing for a filled cell.
    pub(crate) fn get_constraints(&self) -> (store: Vec<Option<BitSet>>)
        requires
            self.wf(),
        ensures
            store@.len() == 81,
            forall|i: int| 0 <= i < 81 ==> ((#[trigger] store@[i]) is Some <==> self@[i] is None),
            forall|i: int| 0 <= i < 81 && (#[trigger] store@[i]) is Some ==> store@[i]->0@ == candidates(self@, i),
    {
        let ghost g = self@;
        let grid_nums = self.get_grid_nums();
        let mut store: Vec<Option<BitSet>> = Vec::new();
        let valid_mask: u16 = 1022;
        proof {
            lemma_digits_mask();
        }
        let mut n: usize = 0;
        while n < 81
            invariant
                g == self@,
                valid_cells(g),
                n <= 81,
                grid_nums.covers(g, 81),
                store@.len() == n,
                bits_set(valid_mask) == Set::new(|v: nat| 1 <= v <= 9),
                forall|i: int| 0 <= i < n ==> ((#[trigger] store@[i]) is Some <==> g[i] is None),
                forall|i: int| 0 <= i < n && (#[trigger] store@[i]) is Some ==> store@[i]->0@ == candidates(g, i),
            decreases 81 - n,
        {
            proof {
                lemma_unit_bounds(n as int);
            }
            if self.cells[n].is_none() {
                let ri = n / 9;
                let ci = n % 9;
                let bi = n / 9 / 3 * 3 + n % 9 / 3;
                let mut conflicting = BitSet::new();
                conflicting.extend(&grid_nums.r[ri]);
                conflicting.extend(&grid_nums.c[ci]);
                conflicting.extend(&grid_nums.b[bi]);
                conflicting.flip(valid_mask);
                proof {
                    let i = n as int;
                    assert forall|v: nat| #[trigger] conflicting@.contains(v) == candidates(g, i).contains(v) by {
                        if 1 <= v <= 9 && !allowed(g, i, v) {
                            let j = choose|j: int| 0 <= j < 81 && #[trigger] peers(i, j) && holds(g, j, v);
                            if row_of(j) == row_of(i) {
                                assert(seen(g, 81, ri as int, 0).contains(v));
                            } else if col_of(j) == col_of(i) {
                                assert(seen(g, 81, ci as int, 1).contains(v));
                            } else {
                                assert(seen(g, 81, bi as int, 2).contains(v));
                            }
                        }
                        if seen(g, 81, ri as int, 0).contains(v) {
                            let j = choose|j: int| 0 <= j < 81 && unit_of(0, j) == ri && #[trigger] holds(g, j, v);
                            assert(peers(i, j));
                        }
                        if seen(g, 81, ci as int, 1).contains(v) {
                            let j = choose|j: int| 0 <= j < 81 && unit_of(1, j) == ci && #[trigger] holds(g, j, v);
                            assert(peers(i, j));
                        }
                        if seen(g, 81, bi as int, 2).contains(v) {
                            let j = choose|j: int| 0 <= j < 81 && unit_of(2, j) == bi && #[trigger] holds(g, j, v);
                            assert(peers(i, j));
                        }
                    }
                    assert(conflicting@ =~= candidates(g, i));
                }
                store.push(Some(conflicting));
            } else {
                store.push(None);
            }
            n = n + 1;
        }
        store
    }

    /// Whether some row, column or box holds one value twice.
    pub fn has_conflicts(&self) -> (r: bool)
        requires
            self.wf(),
        ensures
            r == has_conflict(self@),
    {
        let ghost g = self@;
        let mut seen_sets = UnitSets::new();
        let mut n: usize = 0;
        while n < 81
            invariant
                g == self@,
                valid_cells(g),
                n <= 81,
                seen_sets.covers(g, n as int),
                !conflict_below(g, n as int),
            decreases 81 - n,
        {
            proof {
                lemma_unit_bounds(n as int);
            }
            let ghost r0 = seen_sets.r@;
            let ghost c0 = seen_sets.c@;
            let ghost b0 = seen_sets.b@;
            if let Some(value) = self.cells[n] {
                let ri = n / 9;
                let ci = n % 9;
                let bi = n / 9 / 3 * 3 + n % 9 / 3;
                let ghost vn = value as nat;
                if seen_sets.r[ri].contains(value) || seen_sets.c[ci].contains(value)
                    || seen_sets.b[bi].contains(value) {
                    proof {
                        let which: int = if seen(g, n as int, ri as int, 0).contains(vn) {
                            0
                        } else if seen(g, n as int, ci as int, 1).contains(vn) {
                            1
                        } else {
                            2
                        };
                        let u: int = unit_of(which, n as int);
                        assert(seen(g, n as int, u, which).contains(vn));
                        let j = choose|j: int|
                            0 <= j < n && unit_of(which, j) == u && #[trigger] holds(g, j, vn);
                        assert(peers(j, n as int));
                        assert(g[j] == g[n as int]);
                        assert(conflict_below(g, 81));
                    }
                    return true;
                }
                proof {
                    assert forall|i: int, j: int|
                        0 <= i < n + 1 && 0 <= j < n + 1 && peers(i, j) && g[i] is Some
                            && #[trigger] g[i] == #[trigger] g[j] implies false by {
                        if i == n as int || j == n as int {
                            let k = if i == n as int { j } else { i };
                            assert(holds(g, k, vn));
                            if row_of(k) == row_of(n as int) {
                                assert(seen(g, n as int, ri as int, 0).contains(vn));
                            } else if col_of(k) == col_of(n as int) {
                                assert(seen(g, n as int, ci as int, 1).contains(vn));
                            } else {
                                assert(seen(g, n as int, bi as int, 2).contains(vn));
                            }
                        } else {
                            assert(conflict_below(g, n as int));
                        }
                    }
                }
                let mut t = seen_sets.r[ri];
                t.insert(value);
                seen_sets.r.set(ri, t);
                let mut t = seen_sets.c[ci];
                t.insert(value);
                seen_sets.c.set(ci, t);
                let mut t = seen_sets.b[bi];
                t.insert(value);
                seen_sets.b.set(bi, t);
            }
            proof {
                assert forall|u: int| 0 <= u < 9 implies #[trigger] seen_sets.r@[u]@ == seen(g, n + 1, u, 0) by {
                    lemma_seen_step(g, n as int, u, 0);
                }
                assert forall|u: int| 0 <= u < 9 implies #[trigger] seen_sets.c@[u]@ == seen(g, n + 1, u, 1) by {
                    lemma_seen_step(g, n as int, u, 1);
                }
                assert forall|u: int| 0 <= u < 9 implies #[trigger] seen_sets.b@[u]@ == seen(g, n + 1, u, 2) by {
                    lemma_seen_step(g, n as int, u, 2);
                }
                if g[n as int] is None {
                    assert forall|i: int, j: int|
                        0 <= i < n + 1 && 0 <= j < n + 1 && peers(i, j) && g[i] is Some
                            && #[trigger] g[i] == #[trigger] g[j] implies false by {
                        assert(conflict_below(g, n as int));
                    }
                }
            }
            n = n + 1;
        }
        false
    }
}

} // verus!
