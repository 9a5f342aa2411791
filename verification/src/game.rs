//! The game state: the 20x10 field of locked cells, the active piece and
//! the score. Commands are applied speculatively to the piece and rolled
//! back whenever a cell would leave the field or land on an occupied cell.

use vstd::prelude::*;

use crate::block::Block;
use crate::block::Color;
use crate::block::cells_of;
use crate::block::in_coord_range;
use crate::block::is_catalog;
use crate::block::lemma_catalog_facts;
use crate::block::rotated;
use crate::block::shifted;

verus! {

/// Rows of the field.
pub const ROWS: usize = 20;

/// Columns of the field.
pub const COLS: usize = 10;

/// Cells of the field: `ROWS * COLS`.
pub const CELLS: usize = 200;

/// A player or gravity command.
#[derive(Debug, PartialEq, Eq, Structural)]
pub enum Control {
    Down,
    Left,
    Right,
    Rotate,
}

/// The game state. The field is stored row-major: the cell at row `y`,
/// column `x` is entry `y * COLS + x`. The score is carried through every
/// transition but no transition increments it; a scoring rule would hook
/// into the clearing pass.
pub struct Tetris {
    pub block: Block,
    pub field: Vec<Color>,
    pub score: i32,
}

/// The locked color at row `y`, column `x` of a row-major field.
pub open spec fn cell(f: Seq<Color>, y: int, x: int) -> Color {
    f[y * 10 + x]
}

/// Every cell of the piece lies inside the field and over a background
/// cell: the position is a legal resting place for the active piece.
pub open spec fn fits(f: Seq<Color>, s: Seq<(int, int)>) -> bool {
    forall|i: int| 0 <= i < s.len() ==> {
        &&& 0 <= (#[trigger] s[i]).0 < 20
        &&& 0 <= s[i].1 < 10
        &&& cell(f, s[i].0, s[i].1) == Color::Black
    }
}

/// Every cell of the piece lies inside the field.
pub open spec fn in_field(s: Seq<(int, int)>) -> bool {
    forall|i: int| 0 <= i < s.len() ==> {
        &&& 0 <= (#[trigger] s[i]).0 < 20
        &&& 0 <= s[i].1 < 10
    }
}

/// The cells a command moves the piece to, before any validation.
pub open spec fn transformed(s: Seq<(int, int)>, op: Control) -> Seq<(int, int)> {
    match op {
        Control::Down => shifted(s, 1, 0),
        Control::Left => shifted(s, 0, -1),
        Control::Right => shifted(s, 0, 1),
        Control::Rotate => rotated(s),
    }
}

impl Tetris {
    /// The state is well formed: the field holds exactly 20 x 10 cells and
    /// the active piece is a non-empty cluster inside the field.
    pub open spec fn wf(&self) -> bool {
        &&& self.field@.len() == 200
        &&& self.block.cells().len() >= 1
        &&& in_field(self.block.cells())
    }

    /// A fresh game: empty field, a random catalog piece, score zero.
    pub fn new() -> (r: Tetris)
        ensures
            r.wf(),
            r.score == 0,
            forall|k: int| 0 <= k < 200 ==> r.field@[k] == Color::Black,
            is_catalog(r.block),
    {
        let mut field: Vec<Color> = Vec::new();
        let mut k: usize = 0;
        while k < CELLS
            invariant
                k <= 200,
                field@.len() == k,
                forall|j: int| 0 <= j < k ==> field@[j] == Color::Black,
            decreases 200 - k,
        {
            field.push(Color::Black);
            k += 1;
        }
        let block = Block::rand();
        proof {
            lemma_catalog_facts(block);
        }
        Tetris { block, field, score: 0 }
    }
}

/// True exactly when the piece may rest at its current cells: all inside
/// the field and all over background.
fn piece_fits(field: &Vec<Color>, cells: &Vec<(i32, i32)>) -> (r: bool)
    requires
        field@.len() == 200,
    ensures
        r == fits(field@, cells_of(cells@)),
{
    let ghost s = cells_of(cells@);
    let n = cells.len();
    for i in 0..n
        invariant
            field@.len() == 200,
            n == cells@.len(),
            s == cells_of(cells@),
            forall|j: int| 0 <= j < i ==> {
                &&& 0 <= (#[trigger] s[j]).0 < 20
                &&& 0 <= s[j].1 < 10
                &&& cell(field@, s[j].0, s[j].1) == Color::Black
            },
    {
        let (y, x) = cells[i];
        proof {
            assert(s[i as int] == (cells@[i as int].0 as int, cells@[i as int].1 as int));
        }
        if !(0 <= y && y < 20 && 0 <= x && x < 10) {
            return false;
        }
        if field[(y as usize) * 10 + (x as usize)] != Color::Black {
            return false;
        }
    }
    true
}

/// Copies the cell list, so a failed move can be rolled back.
fn clone_cells(v: &Vec<(i32, i32)>) -> (r: Vec<(i32, i32)>)
    ensures
        r@ == v@,
{
    let mut r: Vec<(i32, i32)> = Vec::new();
    let n = v.len();
    for i in 0..n
        invariant
            n == v@.len(),
            r@.len() == i,
            forall|j: int| 0 <= j < i ==> r@[j] == v@[j],
    {
        r.push(v[i]);
    }
    proof {
        assert(r@ =~= v@);
    }
    r
}

/// Row `y` is fully occupied: no cell in it is background.
pub open spec fn row_full(f: Seq<Color>, y: int) -> bool {
    forall|x: int| 0 <= x < 10 ==> #[trigger] cell(f, y, x) != Color::Black
}

/// The field after clearing row `y`: every row from 1 through `y` takes
/// the contents of the row above it, and the rest — row 0 included — is
/// left as it was. Row 0 is never refilled with background; after a clear
/// it stays as a stale duplicate of the new row 1.
pub open spec fn clear_row_at(f: Seq<Color>, y: int) -> Seq<Color> {
    Seq::new(200, |k: int| if 10 <= k < (y + 1) * 10 { f[k - 10] } else { f[k] })
}

/// One step of the single top-to-bottom clearing pass: row `y` of the
/// current field is cleared exactly when it is full.
pub open spec fn delete_step(f: Seq<Color>, y: int) -> Seq<Color> {
    if row_full(f, y) {
        clear_row_at(f, y)
    } else {
        f
    }
}

/// The clearing pass over the rows below `y`, in increasing row order.
/// A row that becomes full only through an earlier shift of the same pass
/// is judged in its shifted state, exactly once.
pub open spec fn delete_upto(f: Seq<Color>, y: int) -> Seq<Color>
    decreases y,
{
    if y <= 0 {
        f
    } else {
        delete_step(delete_upto(f, y - 1), y - 1)
    }
}

/// The field after one full clearing pass over all 20 rows.
pub open spec fn delete_spec(f: Seq<Color>) -> Seq<Color> {
    delete_upto(f, 20)
}

/// True exactly when no cell of row `y` is background.
fn row_is_full(field: &Vec<Color>, y: usize) -> (r: bool)
    requires
        field@.len() == 200,
        y < 20,
    ensures
        r == row_full(field@, y as int),
{
    for x in 0..COLS
        invariant
            field@.len() == 200,
            y < 20,
            forall|j: int| 0 <= j < x ==> #[trigger] cell(field@, y as int, j) != Color::Black,
    {
        if field[y * 10 + x] == Color::Black {
            assert(cell(field@, y as int, x as int) == Color::Black);
            return false;
        }
    }
    true
}

/// Shifts every row from 1 through `y` down from the row above it,
/// topmost target row last, leaving row 0 and the rows below `y` alone.
fn shift_rows_down(field: &mut Vec<Color>, y: usize)
    requires
        old(field)@.len() == 200,
        y < 20,
    ensures
        final(field)@ == clear_row_at(old(field)@, y as int),
{
    let ghost f0 = field@;
    let mut yy = y;
    while yy >= 1
        invariant
            field@.len() == 200,
            yy <= y,
            y < 20,
            f0 == old(field)@,
            f0.len() == 200,
            forall|k: int| (yy + 1) * 10 <= k < (y + 1) * 10 ==> #[trigger] field@[k] == f0[k
                - 10],
            forall|k: int| 0 <= k < (yy + 1) * 10 ==> #[trigger] field@[k] == f0[k],
            forall|k: int| (y + 1) * 10 <= k < 200 ==> #[trigger] field@[k] == f0[k],
        decreases yy,
    {
        for x in 0..10usize
            invariant
                field@.len() == 200,
                1 <= yy <= y,
                y < 20,
                f0.len() == 200,
                forall|k: int| (yy + 1) * 10 <= k < (y + 1) * 10 ==> #[trigger] field@[k] == f0[k
                    - 10],
                forall|k: int| yy * 10 <= k < yy * 10 + x ==> #[trigger] field@[k] == f0[k - 10],
                forall|k: int| yy * 10 + x <= k < (yy + 1) * 10 ==> #[trigger] field@[k] == f0[k],
                forall|k: int| 0 <= k < yy * 10 ==> #[trigger] field@[k] == f0[k],
                forall|k: int| (y + 1) * 10 <= k < 200 ==> #[trigger] field@[k] == f0[k],
        {
            let v = field[(yy - 1) * 10 + x];
            field.set(yy * 10 + x, v);
        }
        yy -= 1;
    }
    proof {
        assert(field@ =~= clear_row_at(f0, y as int));
    }
}

impl Tetris {
    /// One clearing pass: walks the rows from top to bottom and, for each
    /// row found fully occupied, shifts every row above it down by one.
    /// The piece and the score are untouched.
    pub fn delete(&mut self)
        requires
            old(self).field@.len() == 200,
        ensures
            final(self).field@ == delete_spec(old(self).field@),
            final(self).block == old(self).block,
            final(self).score == old(self).score,
            final(self).field@.len() == 200,
    {
        let ghost f0 = self.field@;
        for y in 0..ROWS
            invariant
                self.field@.len() == 200,
                self.field@ == delete_upto(f0, y as int),
                self.block == old(self).block,
                self.score == old(self).score,
                f0 == old(self).field@,
        {
            if row_is_full(&self.field, y) {
                shift_rows_down(&mut self.field, y);
            }
        }
    }
}

impl Tetris {
    /// Applies one command speculatively: transform the piece, then keep
    /// the new position only if every cell stays inside the field on a
    /// background cell; otherwise the old cells are restored unchanged.
    /// An illegal move is a silent no-op, not an error.
    pub fn control(&mut self, op: Control)
        requires
            old(self).field@.len() == 200,
            old(self).block.cells().len() >= 1,
            in_coord_range(old(self).block.cells()),
        ensures
            final(self).field@ == old(self).field@,
            final(self).score == old(self).score,
            final(self).block.color == old(self).block.color,
            final(self).block.cells() == (if fits(
                old(self).field@,
                transformed(old(self).block.cells(), op),
            ) {
                transformed(old(self).block.cells(), op)
            } else {
                old(self).block.cells()
            }),
            fits(old(self).field@, old(self).block.cells()) ==> fits(
                final(self).field@,
                final(self).block.cells(),
            ),
            in_field(old(self).block.cells()) ==> final(self).wf(),
    {
        let pre = clone_cells(&self.block.blocks);
        match op {
            Control::Down => self.block.down(),
            Control::Left => self.block.left(),
            Control::Right => self.block.right(),
            Control::Rotate => self.block.rotate(),
        }
        let ok = piece_fits(&self.field, &self.block.blocks);
        if !ok {
            self.block.blocks = pre;
        }
    }
}


/// Some cell of the piece covers row-major field index `k`.
pub open spec fn covers(s: Seq<(int, int)>, k: int) -> bool {
    exists|i: int| 0 <= i < s.len() && (#[trigger] s[i]).0 * 10 + s[i].1 == k
}

/// The field with the piece's color written over each of its cells.
pub open spec fn merged(f: Seq<Color>, s: Seq<(int, int)>, c: Color) -> Seq<Color> {
    Seq::new(200, |k: int| if covers(s, k) { c } else { f[k] })
}

/// Cells inside the field are far inside the range every transform needs.
pub proof fn lemma_in_field_coord_range(s: Seq<(int, int)>)
    requires
        in_field(s),
    ensures
        in_coord_range(s),
{
}

/// Writes the piece's color into the field at every one of its cells.
fn merge_block(field: &mut Vec<Color>, cells: &Vec<(i32, i32)>, c: Color)
    requires
        old(field)@.len() == 200,
        in_field(cells_of(cells@)),
    ensures
        final(field)@ == merged(old(field)@, cells_of(cells@), c),
        final(field)@.len() == 200,
{
    let ghost s = cells_of(cells@);
    let ghost f0 = field@;
    let n = cells.len();
    for i in 0..n
        invariant
            field@.len() == 200,
            n == cells@.len(),
            s == cells_of(cells@),
            s.len() == n,
            in_field(s),
            f0.len() == 200,
            f0 == old(field)@,
            forall|k: int|
                0 <= k < 200 ==> #[trigger] field@[k] == (if covers(s.subrange(0, i as int), k) {
                    c
                } else {
                    f0[k]
                }),
    {
        let (y, x) = cells[i];
        proof {
            assert(s[i as int] == (cells@[i as int].0 as int, cells@[i as int].1 as int));
        }
        field.set((y as usize) * 10 + (x as usize), c);
        proof {
            let ghost ki = s[i as int].0 * 10 + s[i as int].1;
            assert forall|k: int|
                0 <= k < 200 implies #[trigger] field@[k] == (if covers(
                s.subrange(0, i + 1),
                k,
            ) {
                c
            } else {
                f0[k]
            }) by {
                assert(s.subrange(0, i + 1)[i as int] == s[i as int]);
                if k == ki {
                    assert(covers(s.subrange(0, i + 1), k));
                } else {
                    if covers(s.subrange(0, i + 1), k) {
                        let j = choose|j: int|
                            0 <= j < s.subrange(0, i + 1).len() && (#[trigger] s.subrange(
                                0,
                                i + 1,
                            )[j]).0 * 10 + s.subrange(0, i + 1)[j].1 == k;
                        assert(s.subrange(0, i + 1)[j] == s[j]);
                        assert(j < i);
                        assert(s.subrange(0, i as int)[j] == s[j]);
                        assert(covers(s.subrange(0, i as int), k));
                    }
                    if covers(s.subrange(0, i as int), k) {
                        let j = choose|j: int|
                            0 <= j < s.subrange(0, i as int).len() && (#[trigger] s.subrange(
                                0,
                                i as int,
                            )[j]).0 * 10 + s.subrange(0, i as int)[j].1 == k;
                        assert(s.subrange(0, i + 1)[j] == s[j]);
                        assert(covers(s.subrange(0, i + 1), k));
                    }
                }
            }
        }
    }
    proof {
        assert(s.subrange(0, n as int) =~= s);
        assert(field@ =~= merged(f0, s, c));
    }
}

/// Compares two cell lists position by position, in index order.
fn cells_equal(a: &Vec<(i32, i32)>, b: &Vec<(i32, i32)>) -> (r: bool)
    ensures
        r == (a@ == b@),
{
    if a.len() != b.len() {
        return false;
    }
    let n = a.len();
    for i in 0..n
        invariant
            n == a@.len(),
            n == b@.len(),
            forall|j: int| 0 <= j < i ==> a@[j] == b@[j],
    {
        let (ya, xa) = a[i];
        let (yb, xb) = b[i];
        if ya != yb || xa != xb {
            assert(a@[i as int] != b@[i as int]);
            return false;
        }
    }
    proof {
        assert(a@ =~= b@);
    }
    true
}

impl Tetris {
    /// The gravity tick. Tries to move the piece down one row exactly as a
    /// command would; if the cells come back unchanged, the piece cannot
    /// fall: its color is locked into the field at each of its cells, a
    /// fresh random piece becomes active, and one clearing pass runs.
    /// No movement is the only lock test; nothing checks that the fresh
    /// piece spawns over free cells.
    pub fn fall(&mut self)
        requires
            old(self).wf(),
        ensures
            final(self).wf(),
            final(self).score == old(self).score,
            ({
                let down = shifted(old(self).block.cells(), 1, 0);
                if fits(old(self).field@, down) {
                    &&& final(self).field@ == old(self).field@
                    &&& final(self).block.color == old(self).block.color
                    &&& final(self).block.cells() == down
                } else {
                    &&& final(self).field@ == delete_spec(
                        merged(old(self).field@, old(self).block.cells(), old(self).block.color),
                    )
                    &&& is_catalog(final(self).block)
                }
            }),
    {
        proof {
            lemma_in_field_coord_range(old(self).block.cells());
        }
        let pre = clone_cells(&self.block.blocks);
        self.control(Control::Down);
        let moved = !cells_equal(&self.block.blocks, &pre);
        proof {
            let down = shifted(old(self).block.cells(), 1, 0);
            assert(down[0].0 == old(self).block.cells()[0].0 + 1);
            if fits(old(self).field@, down) {
                assert(self.block.cells() == down);
                assert(down != old(self).block.cells());
                assert(moved);
            } else {
                assert(self.block.cells() == old(self).block.cells());
                assert(cells_of(self.block.blocks@) == cells_of(pre@));
                assert forall|j: int|
                    0 <= j < self.block.blocks@.len() implies self.block.blocks@[j] == pre@[j] by {
                    assert(cells_of(self.block.blocks@)[j] == cells_of(pre@)[j]);
                }
                assert(self.block.blocks@ =~= pre@);
                assert(!moved);
            }
        }
        if !moved {
            proof {
                assert(cells_of(self.block.blocks@) == old(self).block.cells());
                assert(!fits(
                    old(self).field@,
                    shifted(old(self).block.cells(), 1, 0),
                ));
            }
            let color = self.block.color;
            merge_block(&mut self.field, &self.block.blocks, color);
            self.block = Block::rand();
            proof {
                lemma_catalog_facts(self.block);
            }
            self.delete();
        }
    }
}


/// The number of occupied (non-background) cells among field indices
/// `[lo, hi)`.
pub open spec fn count_range(f: Seq<Color>, lo: int, hi: int) -> int
    decreases hi - lo,
{
    if lo >= hi {
        0
    } else {
        count_range(f, lo, hi - 1) + if f[hi - 1] != Color::Black {
            1int
        } else {
            0int
        }
    }
}

/// The number of occupied cells in the whole field.
pub open spec fn count_nonblack(f: Seq<Color>) -> int {
    count_range(f, 0, 200)
}

proof fn lemma_count_split(f: Seq<Color>, lo: int, mid: int, hi: int)
    requires
        lo <= mid <= hi,
    ensures
        count_range(f, lo, hi) == count_range(f, lo, mid) + count_range(f, mid, hi),
    decreases hi - mid,
{
    if mid < hi {
        lemma_count_split(f, lo, mid, hi - 1);
    }
}

proof fn lemma_count_congruent(f: Seq<Color>, g: Seq<Color>, lo: int, hi: int)
    requires
        forall|k: int| lo <= k < hi ==> f[k] == g[k],
    ensures
        count_range(f, lo, hi) == count_range(g, lo, hi),
    decreases hi - lo,
{
    if lo < hi {
        lemma_count_congruent(f, g, lo, hi - 1);
    }
}

proof fn lemma_count_shifted(f: Seq<Color>, g: Seq<Color>, lo: int, hi: int)
    requires
        forall|k: int| lo <= k < hi ==> g[k] == f[k - 10],
    ensures
        count_range(g, lo, hi) == count_range(f, lo - 10, hi - 10),
    decreases hi - lo,
{
    if lo < hi {
        lemma_count_shifted(f, g, lo, hi - 1);
    }
}

proof fn lemma_count_all_nonblack(f: Seq<Color>, lo: int, hi: int)
    requires
        lo <= hi,
        forall|k: int| lo <= k < hi ==> f[k] != Color::Black,
    ensures
        count_range(f, lo, hi) == hi - lo,
    decreases hi - lo,
{
    if lo < hi {
        lemma_count_all_nonblack(f, lo, hi - 1);
    }
}

proof fn lemma_count_all_black(f: Seq<Color>, lo: int, hi: int)
    requires
        forall|k: int| lo <= k < hi ==> f[k] == Color::Black,
    ensures
        count_range(f, lo, hi) == 0,
    decreases hi - lo,
{
    if lo < hi {
        lemma_count_all_black(f, lo, hi - 1);
    }
}

proof fn lemma_delete_upto_id(f: Seq<Color>, y: int)
    requires
        0 <= y <= 20,
        forall|z: int| 0 <= z < y ==> !row_full(f, z),
    ensures
        delete_upto(f, y) == f,
    decreases y,
{
    if y > 0 {
        lemma_delete_upto_id(f, y - 1);
    }
}

proof fn lemma_delete_upto_stable(f: Seq<Color>, g: Seq<Color>, lo: int, hi: int)
    requires
        0 <= lo <= hi,
        delete_upto(f, lo) == g,
        forall|z: int| lo <= z < hi ==> !row_full(g, z),
    ensures
        delete_upto(f, hi) == g,
    decreases hi - lo,
{
    if hi > lo {
        lemma_delete_upto_stable(f, g, lo, hi - 1);
    }
}

/// Rows 1 through `r` of `g` hold what stood one row higher in `f`, and
/// every other row of `g` — row 0 included — still holds its old cells.
pub open spec fn rows_shifted_down(f: Seq<Color>, g: Seq<Color>, r: int) -> bool {
    &&& forall|y: int, x: int|
        1 <= y <= r && 0 <= x < 10 ==> #[trigger] cell(g, y, x) == cell(f, y - 1, x)
    &&& forall|y: int, x: int|
        (y == 0 || r < y < 20) && 0 <= x < 10 ==> #[trigger] cell(g, y, x) == cell(f, y, x)
}

/// No cell of row `y` is occupied.
pub open spec fn row_blank(f: Seq<Color>, y: int) -> bool {
    forall|x: int| 0 <= x < 10 ==> #[trigger] cell(f, y, x) == Color::Black
}

/// Row `r` is the only full row of the field.
pub open spec fn only_full_row(f: Seq<Color>, r: int) -> bool {
    &&& row_full(f, r)
    &&& forall|y: int| 0 <= y < 20 && y != r ==> !row_full(f, y)
}

/// A field with exactly one full row `r` and a fully background top row:
/// one clearing pass clears exactly that row. Every row from 1 through
/// `r` takes the contents of the row above it, every other row keeps its
/// contents, and the number of occupied cells drops by exactly ten.
pub proof fn lemma_single_row_clear(f: Seq<Color>, r: int)
    requires
        f.len() == 200,
        0 <= r < 20,
        only_full_row(f, r),
        row_blank(f, 0),
    ensures
        delete_spec(f) == clear_row_at(f, r),
        rows_shifted_down(f, delete_spec(f), r),
        count_nonblack(delete_spec(f)) == count_nonblack(f) - 10,
{
    let g = clear_row_at(f, r);
    assert(cell(f, 0, 0) == Color::Black);
    assert(r != 0);

    lemma_delete_upto_id(f, r);
    assert(delete_upto(f, r + 1) == g);
    assert forall|z: int| r + 1 <= z < 20 implies !row_full(g, z) by {
        assert forall|x: int| 0 <= x < 10 implies #[trigger] cell(g, z, x) == cell(f, z, x) by {
            assert(z * 10 + x >= (r + 1) * 10) by (nonlinear_arith)
                requires
                    z >= r + 1,
                    x >= 0,
            ;
        }
        assert(!row_full(f, z));
        let x0 = choose|x: int| 0 <= x < 10 && #[trigger] cell(f, z, x) == Color::Black;
        assert(cell(g, z, x0) == Color::Black);
    }
    lemma_delete_upto_stable(f, g, r + 1, 20);
    assert(delete_spec(f) == g);

    assert forall|y: int, x: int|
        1 <= y <= r && 0 <= x < 10 implies #[trigger] cell(g, y, x) == cell(f, y - 1, x) by {
        assert(10 <= y * 10 + x < (r + 1) * 10) by (nonlinear_arith)
            requires
                1 <= y <= r,
                0 <= x < 10,
        ;
    }
    assert forall|y: int, x: int|
        (y == 0 || r < y < 20) && 0 <= x < 10 implies #[trigger] cell(g, y, x) == cell(
        f,
        y,
        x,
    ) by {
        if y == 0 {
        } else {
            assert(y * 10 + x >= (r + 1) * 10) by (nonlinear_arith)
                requires
                    y >= r + 1,
                    x >= 0,
            ;
        }
    }

    // Occupied cells: row 0 contributes nothing twice, row r's ten cells go.
    assert forall|k: int| 0 <= k < 10 implies g[k] == f[k] && f[k] == Color::Black by {
        assert(cell(f, 0, k) == Color::Black);
    }
    assert forall|k: int| 10 <= k < (r + 1) * 10 implies g[k] == f[k - 10] by {}
    assert forall|k: int| (r + 1) * 10 <= k < 200 implies g[k] == f[k] by {}
    assert forall|k: int| r * 10 <= k < (r + 1) * 10 implies f[k] != Color::Black by {
        assert(cell(f, r, k - r * 10) != Color::Black);
        assert(r * 10 + (k - r * 10) == k);
    }

    lemma_count_split(g, 0, 10, 200);
    lemma_count_split(g, 10, (r + 1) * 10, 200);
    lemma_count_all_black(g, 0, 10);
    lemma_count_shifted(f, g, 10, (r + 1) * 10);
    lemma_count_congruent(f, g, (r + 1) * 10, 200);

    lemma_count_split(f, 0, r * 10, 200);
    lemma_count_split(f, r * 10, (r + 1) * 10, 200);
    lemma_count_all_nonblack(f, r * 10, (r + 1) * 10);
}


} // verus!
