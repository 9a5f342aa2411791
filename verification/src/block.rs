//! The falling piece: a color and a cluster of (row, column) cells, with
//! translation and rotation transforms. A piece carries no bounds checking
//! of its own; the game state validates every transform against the field.

use vstd::prelude::*;

verus! {

use vstd::arithmetic::div_mod::lemma_fundamental_div_mod;
use vstd::arithmetic::div_mod::lemma_fundamental_div_mod_converse;
use vstd::arithmetic::div_mod::lemma_div_is_ordered;
use vstd::arithmetic::div_mod::lemma_div_pos_is_pos;
use vstd::arithmetic::div_mod::lemma_hoist_over_denominator;
use vstd::arithmetic::div_mod::lemma_mod_division_less_than_divisor;
use vstd::arithmetic::div_mod::lemma_mod_multiples_vanish;

/// A cell color. `Black` is the empty/background value; every other color
/// marks an occupied cell and identifies the piece that left it.
#[derive(PartialEq, Eq, Structural, Copy, Clone, Debug)]
pub enum Color {
    Black,
    Red,
    Green,
    Blue,
    Yellow,
    Cyan,
    Magenta,
    White,
}

/// A movable cluster of cells: a color and the occupied (row, column)
/// coordinates, already in field space.
pub struct Block {
    pub color: Color,
    pub blocks: Vec<(i32, i32)>,
}

/// Coordinates whose magnitude stays under this bound leave every transform
/// room to produce its result without overflowing `i32`.
pub const COORD_BOUND: i32 = 0x2000_0000;

/// The cells of a piece as a sequence of mathematical integer pairs.
pub open spec fn cells_of(s: Seq<(i32, i32)>) -> Seq<(int, int)> {
    s.map_values(|c: (i32, i32)| (c.0 as int, c.1 as int))
}

/// Every coordinate is small enough for the transforms to stay within `i32`.
pub open spec fn in_coord_range(s: Seq<(int, int)>) -> bool {
    forall|i: int| 0 <= i < s.len() ==> {
        &&& -(COORD_BOUND as int) <= (#[trigger] s[i]).0 <= COORD_BOUND as int
        &&& -(COORD_BOUND as int) <= s[i].1 <= COORD_BOUND as int
    }
}

/// All cells translated by (`dy`, `dx`).
pub open spec fn shifted(s: Seq<(int, int)>, dy: int, dx: int) -> Seq<(int, int)> {
    s.map_values(|c: (int, int)| (c.0 + dy, c.1 + dx))
}

impl Block {
    /// The piece's cells as mathematical integer pairs.
    pub open spec fn cells(&self) -> Seq<(int, int)> {
        cells_of(self.blocks@)
    }

    /// Builds a piece from an explicit color and cell list. No validation:
    /// the caller guarantees whatever shape it needs.
    pub fn new(c: Color, b: Vec<(i32, i32)>) -> (r: Block)
        ensures
            r.color == c,
            r.blocks@ == b@,
    {
        Block { color: c, blocks: b }
    }

    /// Moves every cell down one row.
    pub fn down(&mut self)
        requires
            in_coord_range(old(self).cells()),
        ensures
            final(self).color == old(self).color,
            final(self).cells() == shifted(old(self).cells(), 1, 0),
    {
        shift_cells(&mut self.blocks, 1, 0);
    }

    /// Moves every cell left one column.
    pub fn left(&mut self)
        requires
            in_coord_range(old(self).cells()),
        ensures
            final(self).color == old(self).color,
            final(self).cells() == shifted(old(self).cells(), 0, -1),
    {
        shift_cells(&mut self.blocks, 0, -1);
    }

    /// Moves every cell right one column.
    pub fn right(&mut self)
        requires
            in_coord_range(old(self).cells()),
        ensures
            final(self).color == old(self).color,
            final(self).cells() == shifted(old(self).cells(), 0, 1),
    {
        shift_cells(&mut self.blocks, 0, 1);
    }
}

/// Translates every cell by (`dy`, `dx`), each at most one step.
fn shift_cells(v: &mut Vec<(i32, i32)>, dy: i32, dx: i32)
    requires
        -1 <= dy <= 1,
        -1 <= dx <= 1,
        in_coord_range(cells_of(old(v)@)),
    ensures
        cells_of(final(v)@) == shifted(cells_of(old(v)@), dy as int, dx as int),
{
    let ghost orig = v@;
    let n = v.len();
    for i in 0..n
        invariant
            n == orig.len(),
            v@.len() == n,
            orig == old(v)@,
            -1 <= dy <= 1,
            -1 <= dx <= 1,
            in_coord_range(cells_of(orig)),
            forall|j: int| 0 <= j < i ==> (#[trigger] v@[j]).0 == orig[j].0 + dy && v@[j].1
                == orig[j].1 + dx,
            forall|j: int| i <= j < n ==> #[trigger] v@[j] == orig[j],
    {
        let (y, x) = v[i];
        proof {
            assert(cells_of(orig)[i as int] == (orig[i as int].0 as int, orig[i as int].1 as int));
        }
        v.set(i, (y + dy, x + dx));
    }
    proof {
        assert(cells_of(v@) =~= shifted(cells_of(orig), dy as int, dx as int));
    }
}

/// Sum of the row coordinates of a cell list.
pub open spec fn sum_rows(s: Seq<(int, int)>) -> int
    decreases s.len(),
{
    if s.len() == 0 {
        0
    } else {
        sum_rows(s.drop_last()) + s.last().0
    }
}

/// Sum of the column coordinates of a cell list.
pub open spec fn sum_cols(s: Seq<(int, int)>) -> int
    decreases s.len(),
{
    if s.len() == 0 {
        0
    } else {
        sum_cols(s.drop_last()) + s.last().1
    }
}

/// `p / q` rounded to the nearest integer, with ties rounded half away
/// from zero; the divisor must be positive. This is the deterministic
/// rounding every rotation uses.
pub open spec fn round_div(p: int, q: int) -> int
    recommends
        q >= 1,
{
    if p >= 0 {
        (2 * p + q) / (2 * q)
    } else {
        -((2 * (-p) + q) / (2 * q))
    }
}

/// A 90-degree rotation of all cells about the piece's centroid (the
/// arithmetic mean of the coordinates), applied to all cells
/// simultaneously. With sin = 1 and cos = 0 the standard rotation formula
/// gives, for a cell (y, x) and centroid (cy, cx),
/// `new_row = round(cy + (x - cx))` and `new_col = round(cx - (y - cy))`,
/// each resulting coordinate rounded independently to the nearest
/// integer, ties away from zero. Over a common denominator of n cells
/// those operands are `(sum_rows - sum_cols + n*x) / n` and
/// `(sum_rows + sum_cols - n*y) / n`.
pub open spec fn rotated(s: Seq<(int, int)>) -> Seq<(int, int)> {
    let n = s.len() as int;
    let p = sum_rows(s) - sum_cols(s);
    let q = sum_rows(s) + sum_cols(s);
    Seq::new(s.len(), |i: int| (round_div(p + n * s[i].1, n), round_div(q - n * s[i].0, n)))
}

/// `(m * d + e) / d == m` whenever the remainder `e` lies below `d`.
proof fn lemma_div_multiple_plus_rem(m: int, d: int, e: int)
    requires
        d >= 1,
        0 <= e < d,
    ensures
        (m * d + e) / d == m,
{
    lemma_fundamental_div_mod_converse(m * d + e, d, m, e);
}

/// The rounded quotient of `p / q` stays inside any symmetric bracket
/// `[-m, m]` that contains `p / q` itself.
pub proof fn lemma_round_div_bound(p: int, q: int, m: int)
    requires
        q >= 1,
        m >= 0,
        -(m * q) <= p <= m * q,
    ensures
        -m <= round_div(p, q) <= m,
{
    if p >= 0 {
        lemma_div_pos_is_pos(2 * p + q, 2 * q);
        assert(2 * p + q <= m * (2 * q) + (2 * q - 1)) by (nonlinear_arith)
            requires
                p <= m * q,
                q >= 1,
        ;
        lemma_div_is_ordered(2 * p + q, m * (2 * q) + (2 * q - 1), 2 * q);
        lemma_div_multiple_plus_rem(m, 2 * q, 2 * q - 1);
    } else {
        lemma_div_pos_is_pos(2 * (-p) + q, 2 * q);
        assert(2 * (-p) + q <= m * (2 * q) + (2 * q - 1)) by (nonlinear_arith)
            requires
                -(m * q) <= p,
                q >= 1,
        ;
        lemma_div_is_ordered(2 * (-p) + q, m * (2 * q) + (2 * q - 1), 2 * q);
        lemma_div_multiple_plus_rem(m, 2 * q, 2 * q - 1);
    }
}

/// `p / q` rounded to nearest, ties away from zero, in executable form.
fn round_div_exec(p: i128, q: i128) -> (r: i128)
    requires
        1 <= q <= 0x1_0000_0000_0000_0000,
        -(q * 0x6000_0000) <= p <= q * 0x6000_0000,
    ensures
        r == round_div(p as int, q as int),
        -0x6000_0000 <= r <= 0x6000_0000,
{
    proof {
        lemma_round_div_bound(p as int, q as int, 0x6000_0000);
        assert(q * 0x6000_0000 <= 0x1_0000_0000_0000_0000 * 0x6000_0000) by (nonlinear_arith)
            requires
                q <= 0x1_0000_0000_0000_0000,
        ;
    }
    if p >= 0 {
        let d: u128 = (2 * (p as u128) + (q as u128)) / (2 * (q as u128));
        d as i128
    } else {
        let d: u128 = (2 * ((-p) as u128) + (q as u128)) / (2 * (q as u128));
        -(d as i128)
    }
}

impl Block {
    /// Rotates all cells 90 degrees about the piece's centroid, each new
    /// coordinate rounded to the nearest integer with ties away from zero.
    pub fn rotate(&mut self)
        requires
            old(self).cells().len() >= 1,
            in_coord_range(old(self).cells()),
        ensures
            final(self).color == old(self).color,
            final(self).cells() == rotated(old(self).cells()),
    {
        let ghost s = self.cells();
        let n = self.blocks.len();
        let mut sy: i128 = 0;
        let mut sx: i128 = 0;
        for i in 0..n
            invariant
                n == self.blocks@.len(),
                s == self.cells(),
                self == old(self),
                in_coord_range(s),
                sy == sum_rows(s.subrange(0, i as int)),
                sx == sum_cols(s.subrange(0, i as int)),
                -(i * 0x2000_0000) <= sy <= i * 0x2000_0000,
                -(i * 0x2000_0000) <= sx <= i * 0x2000_0000,
        {
            let (y, x) = self.blocks[i];
            proof {
                assert(s[i as int] == (self.blocks@[i as int].0 as int, self.blocks@[i as int].1
                    as int));
                assert(s.subrange(0, i + 1).drop_last() =~= s.subrange(0, i as int));
                assert(s.subrange(0, i + 1).last() == s[i as int]);
            }
            sy = sy + y as i128;
            sx = sx + x as i128;
        }
        proof {
            assert(s.subrange(0, n as int) =~= s);
        }
        let p = sy - sx;
        let q = sy + sx;
        let nn = n as i128;
        let ghost pp = sum_rows(s) - sum_cols(s);
        let ghost qq = sum_rows(s) + sum_cols(s);
        let mut i: usize = 0;
        while i < n
            invariant
                n == self.blocks@.len(),
                i <= n,
                1 <= n,
                self.color == old(self).color,
                in_coord_range(s),
                s.len() == n,
                nn == n as i128,
                p == pp,
                q == qq,
                -(nn * 0x4000_0000) <= p <= nn * 0x4000_0000,
                -(nn * 0x4000_0000) <= q <= nn * 0x4000_0000,
                forall|j: int| 0 <= j < i ==> (#[trigger] self.blocks@[j]).0 == round_div(
                    pp + n * s[j].1,
                    n as int,
                ) && self.blocks@[j].1 == round_div(qq - n * s[j].0, n as int),
                forall|j: int| i <= j < n ==> (#[trigger] self.blocks@[j]).0 == s[j].0
                    && self.blocks@[j].1 == s[j].1,
            decreases n - i,
        {
            let (y, x) = self.blocks[i];
            proof {
                assert(s[i as int] == (self.blocks@[i as int].0 as int, self.blocks@[i as int].1
                    as int));
                assert(-(nn * 0x2000_0000) <= nn * (x as i128) <= nn * 0x2000_0000)
                    by (nonlinear_arith)
                    requires
                        nn >= 1,
                        -0x2000_0000 <= x as i128 <= 0x2000_0000,
                ;
                assert(-(nn * 0x2000_0000) <= nn * (y as i128) <= nn * 0x2000_0000)
                    by (nonlinear_arith)
                    requires
                        nn >= 1,
                        -0x2000_0000 <= y as i128 <= 0x2000_0000,
                ;
            }
            let ny = round_div_exec(p + nn * (x as i128), nn);
            let nx = round_div_exec(q - nn * (y as i128), nn);
            self.blocks.set(i, (ny as i32, nx as i32));
            i += 1;
        }
        proof {
            assert(cells_of(self.blocks@) =~= rotated(s));
        }
    }
}

/// The scaled quotient `p / q` lands exactly halfway between two
/// integers: the tie case of round-half-away-from-zero.
pub open spec fn is_tie(p: int, q: int) -> bool {
    (2 * p + q) % (2 * q) == 0
}

/// Rounding `p / q` to the nearest integer with ties upward; the ladder
/// every rounding fact below climbs, since it translates cleanly.
spec fn half_up(p: int, q: int) -> int {
    (2 * p + q) / (2 * q)
}

spec fn tie01(p: int, q: int) -> int {
    if is_tie(p, q) {
        1
    } else {
        0
    }
}

/// Translating the dividend by a multiple of the divisor translates the
/// upward rounding by the same amount and keeps tie-ness.
proof fn lemma_half_up_shift(p: int, k: int, q: int)
    requires
        q >= 1,
    ensures
        half_up(p + k * q, q) == half_up(p, q) + k,
        is_tie(p + k * q, q) == is_tie(p, q),
{
    let d = 2 * q;
    assert(2 * (p + k * q) + q == d * k + (2 * p + q)) by (nonlinear_arith)
        requires
            d == 2 * q,
    ;
    lemma_mod_multiples_vanish(k, 2 * p + q, d);
    lemma_hoist_over_denominator(2 * p + q, k, d as nat);
    assert((2 * p + q) + k * d == d * k + (2 * p + q)) by (nonlinear_arith);
}

/// Negating the dividend negates the upward rounding, except on a tie,
/// where it overshoots by exactly one; tie-ness itself is kept.
proof fn lemma_half_up_neg(p: int, q: int)
    requires
        q >= 1,
    ensures
        half_up(-p, q) == -half_up(p, q) + tie01(p, q),
        is_tie(-p, q) == is_tie(p, q),
{
    let d = 2 * q;
    let u = 2 * p + q;
    lemma_fundamental_div_mod(u, d);
    lemma_mod_division_less_than_divisor(u, d);
    let qd = u / d;
    let r = u % d;
    assert(2 * (-p) + q == -u + d);
    if r == 0 {
        assert(-u + d == (-qd + 1) * d + 0) by (nonlinear_arith)
            requires
                u == d * qd,
        ;
        lemma_fundamental_div_mod_converse(-u + d, d, -qd + 1, 0);
    } else {
        assert(-u + d == (-qd) * d + (d - r)) by (nonlinear_arith)
            requires
                u == d * qd + r,
        ;
        lemma_fundamental_div_mod_converse(-u + d, d, -qd, d - r);
    }
}

/// The rounding every rotation uses, written through the upward one: the
/// two agree except on negative ties, where away-from-zero is one lower.
proof fn lemma_rd_half_up(p: int, q: int)
    requires
        q >= 1,
    ensures
        round_div(p, q) == half_up(p, q) - (if is_tie(p, q) && p < 0 {
            1int
        } else {
            0int
        }),
{
    if p < 0 {
        lemma_half_up_neg(p, q);
    }
}

/// `round_div` on a dividend translated by `k * q`, expanded over the
/// untranslated upward rounding.
proof fn lemma_rd_affine(p: int, k: int, q: int)
    requires
        q >= 1,
    ensures
        round_div(p + k * q, q) == half_up(p, q) + k - (if is_tie(p, q) && p + k * q < 0 {
            1int
        } else {
            0int
        }),
{
    lemma_rd_half_up(p + k * q, q);
    lemma_half_up_shift(p, k, q);
}

/// Sums of a sequence whose cells are an affine image of another's.
proof fn lemma_sum_affine(s: Seq<(int, int)>, t: Seq<(int, int)>, a: int, b: int)
    requires
        t.len() == s.len(),
        forall|i: int| 0 <= i < s.len() ==> #[trigger] t[i] == (s[i].1 + a, b - s[i].0),
    ensures
        sum_rows(t) == sum_cols(s) + s.len() * a,
        sum_cols(t) == s.len() * b - sum_rows(s),
    decreases s.len(),
{
    if s.len() > 0 {
        let n = s.len() as int;
        let sd = s.drop_last();
        let td = t.drop_last();
        assert forall|i: int| 0 <= i < sd.len() implies #[trigger] td[i] == (sd[i].1 + a, b
            - sd[i].0) by {
            assert(td[i] == t[i]);
            assert(sd[i] == s[i]);
        }
        lemma_sum_affine(sd, td, a, b);
        assert(sum_rows(td) == sum_cols(sd) + (n - 1) * a);
        assert(sum_cols(td) == (n - 1) * b - sum_rows(sd));
        assert(t[n - 1] == (s[n - 1].1 + a, b - s[n - 1].0));
        assert(sum_rows(t) == sum_rows(td) + t[n - 1].0);
        assert(sum_cols(t) == sum_cols(td) + t[n - 1].1);
        assert(sum_rows(s) == sum_rows(sd) + s[n - 1].0);
        assert(sum_cols(s) == sum_cols(sd) + s[n - 1].1);
        assert((n - 1) * a + a == n * a) by (nonlinear_arith);
        assert((n - 1) * b + b == n * b) by (nonlinear_arith);
        assert(sum_rows(t) == sum_cols(s) + n * a);
        assert(sum_cols(t) == n * b - sum_rows(s));
    } else {
        assert(s.len() == 0 && t.len() == 0);
        assert(sum_rows(t) == 0);
        assert(sum_cols(t) == 0);
        assert(sum_rows(s) == 0);
        assert(sum_cols(s) == 0);
        assert(s.len() * a == 0) by (nonlinear_arith)
            requires
                s.len() == 0,
        ;
        assert(s.len() * b == 0) by (nonlinear_arith)
            requires
                s.len() == 0,
        ;
    }
}

/// One rotation of a piece whose centroid sums avoid rounding ties: with
/// nothing on a tie, every cell moves by the same two upward-rounded
/// sums, and the rotated piece's centroid sums avoid ties again with the
/// same rounded values.
proof fn lemma_rotated_tie_free(s: Seq<(int, int)>)
    requires
        s.len() >= 1,
        !is_tie(sum_rows(s) - sum_cols(s), s.len() as int),
        !is_tie(sum_rows(s) + sum_cols(s), s.len() as int),
    ensures
        rotated(s).len() == s.len(),
        forall|i: int| 0 <= i < s.len() ==> #[trigger] rotated(s)[i] == (
            s[i].1 + half_up(sum_rows(s) - sum_cols(s), s.len() as int),
            half_up(sum_rows(s) + sum_cols(s), s.len() as int) - s[i].0,
        ),
        !is_tie(sum_rows(rotated(s)) - sum_cols(rotated(s)), s.len() as int),
        !is_tie(sum_rows(rotated(s)) + sum_cols(rotated(s)), s.len() as int),
        half_up(sum_rows(rotated(s)) - sum_cols(rotated(s)), s.len() as int) == half_up(
            sum_rows(s) - sum_cols(s),
            s.len() as int,
        ),
        half_up(sum_rows(rotated(s)) + sum_cols(rotated(s)), s.len() as int) == half_up(
            sum_rows(s) + sum_cols(s),
            s.len() as int,
        ),
{
    let n = s.len() as int;
    let p = sum_rows(s) - sum_cols(s);
    let q = sum_rows(s) + sum_cols(s);
    let a = half_up(p, n);
    let b = half_up(q, n);
    let t = rotated(s);
    assert forall|i: int| 0 <= i < s.len() implies #[trigger] t[i] == (s[i].1 + a, b
        - s[i].0) by {
        lemma_rd_affine(p, s[i].1, n);
        lemma_rd_affine(q, -s[i].0, n);
        assert(p + s[i].1 * n == p + n * s[i].1) by (nonlinear_arith);
        assert(q + (-s[i].0) * n == q - n * s[i].0) by (nonlinear_arith);
    }
    lemma_sum_affine(s, t, a, b);
    let p1 = sum_rows(t) - sum_cols(t);
    let q1 = sum_rows(t) + sum_cols(t);
    assert(p1 == q + (a - b) * n && q1 == -p + (a + b) * n) by (nonlinear_arith)
        requires
            sum_rows(t) == sum_cols(s) + n * a,
            sum_cols(t) == n * b - sum_rows(s),
            p1 == sum_rows(t) - sum_cols(t),
            q1 == sum_rows(t) + sum_cols(t),
            p == sum_rows(s) - sum_cols(s),
            q == sum_rows(s) + sum_cols(s),
    ;
    lemma_half_up_shift(q, a - b, n);
    lemma_half_up_shift(-p, a + b, n);
    lemma_half_up_neg(p, n);
}

/// Four rotations of a piece whose two centroid sums are not rounding
/// ties restore every cell to exactly its original coordinates — well
/// within the one-unit drift tolerance — and so keep the cell count; the
/// color is never touched by rotation. A piece that puts a centroid sum
/// on a tie stays out: its away-from-zero roundings are not translation
/// invariant, and a two-cell piece with both sums on ties can drift a
/// coordinate by two.
pub proof fn lemma_rotate_four_times(s: Seq<(int, int)>)
    requires
        s.len() >= 1,
        !is_tie(sum_rows(s) - sum_cols(s), s.len() as int),
        !is_tie(sum_rows(s) + sum_cols(s), s.len() as int),
    ensures
        rotated(rotated(rotated(rotated(s)))) == s,
{
    let n = s.len() as int;
    let a = half_up(sum_rows(s) - sum_cols(s), n);
    let b = half_up(sum_rows(s) + sum_cols(s), n);
    let s1 = rotated(s);
    let s2 = rotated(s1);
    let s3 = rotated(s2);
    let s4 = rotated(s3);
    lemma_rotated_tie_free(s);
    lemma_rotated_tie_free(s1);
    lemma_rotated_tie_free(s2);
    lemma_rotated_tie_free(s3);
    assert forall|i: int| 0 <= i < s.len() implies s4[i] == s[i] by {
        assert(s1[i] == (s[i].1 + a, b - s[i].0));
        assert(s2[i] == (s1[i].1 + a, b - s1[i].0));
        assert(s3[i] == (s2[i].1 + a, b - s2[i].0));
        assert(s4[i] == (s3[i].1 + a, b - s3[i].0));
    }
    assert(s4 =~= s);
}

/// The fixed catalog of seven tetromino shapes, each a literal list of
/// (row, column) offsets that doubles as the shape's initial placement.
pub open spec fn shape_cells(i: int) -> Seq<(int, int)> {
    if i == 0 {
        seq![(0, 0), (0, 1), (1, 0), (1, 1)]
    } else if i == 1 {
        seq![(0, 0), (0, 1), (0, 2), (1, 1), (2, 1)]
    } else if i == 2 {
        seq![(0, 0), (0, 1), (0, 2), (0, 3)]
    } else if i == 3 {
        seq![(0, 0), (0, 1), (0, 2), (0, 3), (1, 3)]
    } else if i == 4 {
        seq![(0, 0), (0, 1), (0, 2), (0, 3), (1, 0)]
    } else if i == 5 {
        seq![(0, 0), (0, 1), (1, 1), (1, 2)]
    } else {
        seq![(1, 0), (1, 1), (0, 1), (0, 2)]
    }
}

/// The fixed palette of six piece colors; background and `White` stay out.
pub open spec fn palette_color(i: int) -> Color {
    if i == 0 {
        Color::Red
    } else if i == 1 {
        Color::Green
    } else if i == 2 {
        Color::Blue
    } else if i == 3 {
        Color::Yellow
    } else if i == 4 {
        Color::Cyan
    } else {
        Color::Magenta
    }
}

/// A piece as `rand` produces it: one catalog shape and one palette color.
pub open spec fn is_catalog(b: Block) -> bool {
    &&& exists|s: int| 0 <= s < 7 && b.cells() == shape_cells(s)
    &&& exists|c: int| 0 <= c < 6 && b.color == palette_color(c)
}

/// Every catalog piece has 4 or 5 cells, all of them inside the upper-left
/// corner of the field, so a fresh piece always spawns in bounds.
pub proof fn lemma_catalog_facts(b: Block)
    requires
        is_catalog(b),
    ensures
        4 <= b.cells().len() <= 5,
        forall|i: int| 0 <= i < b.cells().len() ==> {
            &&& 0 <= (#[trigger] b.cells()[i]).0 < 3
            &&& 0 <= b.cells()[i].1 < 4
        },
        b.color != Color::Black,
        b.color != Color::White,
{
    let s = choose|s: int| 0 <= s < 7 && b.cells() == shape_cells(s);
    assert(b.cells() == shape_cells(s));
    let c = choose|c: int| 0 <= c < 6 && b.color == palette_color(c);
    assert(b.color == palette_color(c));
}

/// Relies on `rand::random_range` over `0..n`: a uniformly drawn index
/// below `n`, from the thread-local generator. The draw panics only on an
/// empty range, which the precondition rules out; nothing beyond the bound
/// can be promised of a random result.
#[verifier::external_body]
fn random_index(n: usize) -> (r: usize)
    requires
        1 <= n,
    ensures
        r < n,
{
    rand::random_range(0..n)
}

impl Block {
    /// A fresh piece: shape drawn uniformly from the seven-entry catalog,
    /// color drawn uniformly and independently from the six-entry palette.
    pub fn rand() -> (r: Block)
        ensures
            is_catalog(r),
    {
        let si = random_index(7);
        let ci = random_index(6);
        let cells: Vec<(i32, i32)> = if si == 0 {
            vec![(0, 0), (0, 1), (1, 0), (1, 1)]
        } else if si == 1 {
            vec![(0, 0), (0, 1), (0, 2), (1, 1), (2, 1)]
        } else if si == 2 {
            vec![(0, 0), (0, 1), (0, 2), (0, 3)]
        } else if si == 3 {
            vec![(0, 0), (0, 1), (0, 2), (0, 3), (1, 3)]
        } else if si == 4 {
            vec![(0, 0), (0, 1), (0, 2), (0, 3), (1, 0)]
        } else if si == 5 {
            vec![(0, 0), (0, 1), (1, 1), (1, 2)]
        } else {
            vec![(1, 0), (1, 1), (0, 1), (0, 2)]
        };
        let color = if ci == 0 {
            Color::Red
        } else if ci == 1 {
            Color::Green
        } else if ci == 2 {
            Color::Blue
        } else if ci == 3 {
            Color::Yellow
        } else if ci == 4 {
            Color::Cyan
        } else {
            Color::Magenta
        };
        let r = Block { color, blocks: cells };
        proof {
            assert(r.cells() =~= shape_cells(si as int));
            assert(r.color == palette_color(ci as int));
        }
        r
    }
}

/// `move_left` then `move_right` restores the original cells exactly, and
/// the other way round as well.
pub proof fn lemma_left_right_identity(s: Seq<(int, int)>)
    ensures
        shifted(shifted(s, 0, -1), 0, 1) == s,
        shifted(shifted(s, 0, 1), 0, -1) == s,
{
    assert(shifted(shifted(s, 0, -1), 0, 1) =~= s);
    assert(shifted(shifted(s, 0, 1), 0, -1) =~= s);
}

} // verus!
