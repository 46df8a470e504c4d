//! The shape of a footprint, for whoever draws the piece: where its middle
//! lies, whether it is symmetric about it, and how far it reaches. Nothing
//! here has any bearing on the rules.
//!
//! The middle of a footprint is the mean of its offsets. It is kept as the
//! two sums and the count, so that all of this stays within the integers.

use crate::piece::{on_board, Piece};
use vstd::arithmetic::div_mod::{
    lemma_fundamental_div_mod, lemma_fundamental_div_mod_converse, lemma_mod_bound,
};
use vstd::prelude::*;
use vstd::set_lib::{lemma_int_range, lemma_len_subset, set_int_range};

verus! {

/// The sum of the first components of `s`.
pub open spec fn sum_x(s: Seq<(i8, i8)>) -> int
    decreases s.len(),
{
    if s.len() == 0 {
        0
    } else {
        sum_x(s.drop_last()) + s.last().0
    }
}

/// The sum of the second components of `s`.
pub open spec fn sum_y(s: Seq<(i8, i8)>) -> int
    decreases s.len(),
{
    if s.len() == 0 {
        0
    } else {
        sum_y(s.drop_last()) + s.last().1
    }
}

/// `m` is the mirror image of `o` about the middle `(sx / n, sy / n)`, along
/// the row or along the column.
pub open spec fn mirrors(o: (int, int), m: (int, int), sx: int, sy: int, n: int) -> bool {
    ||| (n * (o.0 + m.0) == 2 * sx && o.1 == m.1)
    ||| (n * (o.1 + m.1) == 2 * sy && o.0 == m.0)
}

/// Every offset of `fp` has a mirror image in `fp` about the middle
/// `(sx / n, sy / n)`, along one axis at least.
pub open spec fn symmetric(fp: Set<(int, int)>, sx: int, sy: int, n: int) -> bool {
    forall|o: (int, int)| #[trigger]
        fp.contains(o) ==> exists|m: (int, int)| #[trigger] fp.contains(m) && mirrors(o, m, sx, sy, n)
}

/// `r` is the greatest first component among the offsets of `fp` on row
/// `row`, or nothing if there is none on that row.
pub open spec fn is_reach_on_row(fp: Set<(int, int)>, row: int, r: Option<i8>) -> bool {
    match r {
        Some(m) => fp.contains((m as int, row)) && forall|o: (int, int)| #[trigger]
            fp.contains(o) && o.1 == row ==> o.0 <= m,
        None => forall|o: (int, int)| #[trigger] fp.contains(o) ==> o.1 != row,
    }
}

/// `r` is the greatest second component among the offsets of `fp` on column
/// `column`, or nothing if there is none on that column.
pub open spec fn is_reach_on_column(fp: Set<(int, int)>, column: int, r: Option<i8>) -> bool {
    match r {
        Some(m) => fp.contains((column, m as int)) && forall|o: (int, int)| #[trigger]
            fp.contains(o) && o.0 == column ==> o.1 <= m,
        None => forall|o: (int, int)| #[trigger] fp.contains(o) ==> o.0 != column,
    }
}

/// `m` is the greatest of `o.0 + w * o.1` over the offsets `o` of `fp`.
pub open spec fn is_diagonal_reach(fp: Set<(int, int)>, w: int, m: int) -> bool {
    &&& exists|o: (int, int)| #[trigger] fp.contains(o) && o.0 + w * o.1 == m
    &&& forall|o: (int, int)| #[trigger] fp.contains(o) ==> o.0 + w * o.1 <= m
}

/// The shape of a footprint.
#[derive(Clone, Copy, PartialEq, Eq, Debug)]
pub struct Shape {
    /// The sum of the first components of the offsets.
    pub sum_x: i32,
    /// The sum of the second components of the offsets.
    pub sum_y: i32,
    /// The number of offsets.
    pub count: i32,
    /// Whether every offset has a mirror image about the middle.
    pub symmetric: bool,
    /// The greatest first component on the row of the middle, rounded down.
    pub reach_on_middle_row: Option<i8>,
    /// The greatest second component on the column of the middle, rounded down.
    pub reach_on_middle_column: Option<i8>,
    /// The greatest sum of the two components.
    pub reach_up_right: i16,
    /// The greatest difference of the first component and the second.
    pub reach_down_right: i16,
}

/// A piece that stands on the board covers at most sixty-four squares, each
/// within seven of its anchor.
pub proof fn lemma_footprint_is_small(p: Piece)
    requires
        p.wf(),
    ensures
        1 <= p.squares_occupied@.len() <= 64,
        forall|i: int|
            0 <= i < p.squares_occupied@.len() ==> -7 <= (#[trigger] p.squares_occupied@[i]).0 <= 7
                && -7 <= p.squares_occupied@[i].1 <= 7,
{
    let s = p.squares_occupied@;
    assert(p@.footprint.contains((0, 0)));
    assert forall|i: int| 0 <= i < s.len() implies on_board(p.x + (#[trigger] s[i]).0, p.y + s[i].1) by {
        assert(p@.footprint.contains((s[i].0 as int, s[i].1 as int)));
    }
    let t = Seq::new(s.len(), |i: int| (p.x + s[i].0) * 8 + (p.y + s[i].1));
    assert forall|i: int, j: int| 0 <= i < t.len() && 0 <= j < t.len() && i != j implies t[i]
        != t[j] by {
        assert(on_board(p.x + s[i].0, p.y + s[i].1));
        assert(on_board(p.x + s[j].0, p.y + s[j].1));
        assert(s[i] != s[j]);
    }
    t.unique_seq_to_set();
    lemma_int_range(0, 64);
    assert forall|v: int| t.to_set().contains(v) implies set_int_range(0, 64).contains(v) by {
        let i = choose|i: int| 0 <= i < t.len() && t[i] == v;
        assert(on_board(p.x + s[i].0, p.y + s[i].1));
    }
    lemma_len_subset(t.to_set(), set_int_range(0, 64));
}

/// The sums of offsets that lie within seven of the anchor.
proof fn lemma_sums_are_small(s: Seq<(i8, i8)>)
    requires
        forall|i: int| 0 <= i < s.len() ==> -7 <= (#[trigger] s[i]).0 <= 7 && -7 <= s[i].1 <= 7,
    ensures
        -7 * s.len() <= sum_x(s) <= 7 * s.len(),
        -7 * s.len() <= sum_y(s) <= 7 * s.len(),
    decreases s.len(),
{
    if s.len() > 0 {
        lemma_sums_are_small(s.drop_last());
    }
}

impl Piece {
    /// The sums of the offsets of the piece, component by component.
    pub fn offset_sums(&self) -> (r: (i32, i32))
        requires
            self.wf(),
        ensures
            r.0 == sum_x(self.squares_occupied@),
            r.1 == sum_y(self.squares_occupied@),
    {
        let ghost s = self.squares_occupied@;
        proof {
            lemma_footprint_is_small(*self);
        }
        let mut sx: i32 = 0;
        let mut sy: i32 = 0;
        let mut i: usize = 0;
        while i < self.squares_occupied.len()
            invariant
                i <= self.squares_occupied.len(),
                s == self.squares_occupied@,
                s.len() <= 64,
                forall|j: int| 0 <= j < s.len() ==> -7 <= (#[trigger] s[j]).0 <= 7 && -7 <= s[j].1 <= 7,
                sx == sum_x(s.take(i as int)),
                sy == sum_y(s.take(i as int)),
                -7 * i <= sx <= 7 * i,
                -7 * i <= sy <= 7 * i,
            decreases self.squares_occupied.len() - i,
        {
            proof {
                assert(s.take(i + 1).drop_last() == s.take(i as int));
                assert(s.take(i + 1).last() == s[i as int]);
            }
            let o = self.squares_occupied[i];
            sx = sx + o.0 as i32;
            sy = sy + o.1 as i32;
            i += 1;
        }
        proof {
            assert(s.take(s.len() as int) == s);
        }
        (sx, sy)
    }

    /// Whether some offset of the piece mirrors `(ox, oy)` about the middle
    /// `(sx / n, sy / n)`.
    fn has_mirror(&self, ox: i8, oy: i8, sx: i32, sy: i32, n: i32) -> (r: bool)
        requires
            self.wf(),
            -7 <= ox <= 7,
            -7 <= oy <= 7,
            -448 <= sx <= 448,
            -448 <= sy <= 448,
            0 <= n <= 64,
        ensures
            r == exists|m: (int, int)| #[trigger]
                self@.footprint.contains(m) && mirrors((ox as int, oy as int), m, sx as int, sy as int, n as int),
    {
        let ghost s = self.squares_occupied@;
        proof {
            lemma_footprint_is_small(*self);
        }
        let mut i: usize = 0;
        while i < self.squares_occupied.len()
            invariant
                i <= self.squares_occupied.len(),
                s == self.squares_occupied@,
                -7 <= ox <= 7,
                -7 <= oy <= 7,
                -448 <= sx <= 448,
                -448 <= sy <= 448,
                0 <= n <= 64,
                forall|j: int| 0 <= j < s.len() ==> -7 <= (#[trigger] s[j]).0 <= 7 && -7 <= s[j].1 <= 7,
                forall|j: int|
                    0 <= j < i ==> !mirrors(
                        (ox as int, oy as int),
                        ((#[trigger] s[j]).0 as int, s[j].1 as int),
                        sx as int,
                        sy as int,
                        n as int,
                    ),
            decreases self.squares_occupied.len() - i,
        {
            let m = self.squares_occupied[i];
            let ax: i32 = ox as i32 + m.0 as i32;
            let ay: i32 = oy as i32 + m.1 as i32;
            assert(-896 <= n * ax <= 896 && -896 <= n * ay <= 896) by (nonlinear_arith)
                requires
                    0 <= n <= 64,
                    -14 <= ax <= 14,
                    -14 <= ay <= 14,
            ;
            if (n * ax == 2 * sx && oy == m.1) || (n * ay == 2 * sy && ox == m.0) {
                proof {
                    assert(self@.footprint.contains((m.0 as int, m.1 as int)));
                }
                return true;
            }
            i += 1;
        }
        proof {
            assert forall|m: (int, int)| #[trigger] self@.footprint.contains(m) implies !mirrors(
                (ox as int, oy as int),
                m,
                sx as int,
                sy as int,
                n as int,
            ) by {
                let j = choose|j: int| 0 <= j < s.len() && (#[trigger] s[j]).0 == m.0 && s[j].1 == m.1;
                assert(m == (s[j].0 as int, s[j].1 as int));
            }
        }
        false
    }

    /// Whether the footprint is symmetric about its middle: every offset has
    /// a mirror image among the offsets, along the row or along the column.
    pub fn is_symmetric(&self) -> (r: bool)
        requires
            self.wf(),
        ensures
            r == symmetric(
                self@.footprint,
                sum_x(self.squares_occupied@),
                sum_y(self.squares_occupied@),
                self.squares_occupied@.len() as int,
            ),
    {
        let ghost s = self.squares_occupied@;
        proof {
            lemma_footprint_is_small(*self);
            lemma_sums_are_small(s);
        }
        let (sx, sy) = self.offset_sums();
        let n: i32 = self.squares_occupied.len() as i32;
        let mut i: usize = 0;
        while i < self.squares_occupied.len()
            invariant
                i <= self.squares_occupied.len(),
                self.wf(),
                s == self.squares_occupied@,
                n == s.len(),
                n <= 64,
                sx == sum_x(s),
                sy == sum_y(s),
                -448 <= sx <= 448,
                -448 <= sy <= 448,
                forall|j: int| 0 <= j < s.len() ==> -7 <= (#[trigger] s[j]).0 <= 7 && -7 <= s[j].1 <= 7,
                forall|j: int|
                    0 <= j < i ==> exists|m: (int, int)| #[trigger]
                        self@.footprint.contains(m) && mirrors(
                            ((#[trigger] s[j]).0 as int, s[j].1 as int),
                            m,
                            sx as int,
                            sy as int,
                            n as int,
                        ),
            decreases self.squares_occupied.len() - i,
        {
            let o = self.squares_occupied[i];
            if !self.has_mirror(o.0, o.1, sx, sy, n) {
                proof {
                    assert(self@.footprint.contains((o.0 as int, o.1 as int)));
                }
                return false;
            }
            i += 1;
        }
        proof {
            assert forall|o: (int, int)| #[trigger] self@.footprint.contains(o) implies exists|
                m: (int, int),
            | #[trigger]
                self@.footprint.contains(m) && mirrors(o, m, sx as int, sy as int, n as int) by {
                let j = choose|j: int| 0 <= j < s.len() && (#[trigger] s[j]).0 == o.0 && s[j].1 == o.1;
                assert(o == (s[j].0 as int, s[j].1 as int));
            }
        }
        true
    }

    /// The greatest first component among the offsets on row `row`.
    pub fn reach_on_row(&self, row: i32) -> (r: Option<i8>)
        ensures
            is_reach_on_row(self@.footprint, row as int, r),
    {
        let ghost s = self.squares_occupied@;
        let mut best: Option<i8> = None;
        let mut i: usize = 0;
        while i < self.squares_occupied.len()
            invariant
                i <= self.squares_occupied.len(),
                s == self.squares_occupied@,
                match best {
                    Some(m) => (exists|j: int| 0 <= j < i && (#[trigger] s[j]).0 == m && s[j].1 == row)
                        && forall|j: int| 0 <= j < i && (#[trigger] s[j]).1 == row ==> s[j].0 <= m,
                    None => forall|j: int| 0 <= j < i ==> (#[trigger] s[j]).1 != row,
                },
            decreases self.squares_occupied.len() - i,
        {
            let o = self.squares_occupied[i];
            if o.1 as i32 == row {
                match best {
                    Some(m) => {
                        if o.0 > m {
                            best = Some(o.0);
                        }
                    },
                    None => {
                        best = Some(o.0);
                    },
                }
            }
            i += 1;
        }
        proof {
            match best {
                Some(m) => {
                    let j = choose|j: int| 0 <= j < s.len() && (#[trigger] s[j]).0 == m && s[j].1 == row;
                    assert(self@.footprint.contains((m as int, row as int)));
                    assert forall|o: (int, int)| #[trigger]
                        self@.footprint.contains(o) && o.1 == row implies o.0 <= m by {
                        let k = choose|k: int|
                            0 <= k < s.len() && (#[trigger] s[k]).0 == o.0 && s[k].1 == o.1;
                    }
                },
                None => {
                    assert forall|o: (int, int)| #[trigger] self@.footprint.contains(o) implies o.1
                        != row by {
                        let k = choose|k: int|
                            0 <= k < s.len() && (#[trigger] s[k]).0 == o.0 && s[k].1 == o.1;
                    }
                },
            }
        }
        best
    }

    /// The greatest second component among the offsets on column `column`.
    pub fn reach_on_column(&self, column: i32) -> (r: Option<i8>)
        ensures
            is_reach_on_column(self@.footprint, column as int, r),
    {
        let ghost s = self.squares_occupied@;
        let mut best: Option<i8> = None;
        let mut i: usize = 0;
        while i < self.squares_occupied.len()
            invariant
                i <= self.squares_occupied.len(),
                s == self.squares_occupied@,
                match best {
                    Some(m) => (exists|j: int| 0 <= j < i && (#[trigger] s[j]).1 == m && s[j].0 == column)
                        && forall|j: int| 0 <= j < i && (#[trigger] s[j]).0 == column ==> s[j].1 <= m,
                    None => forall|j: int| 0 <= j < i ==> (#[trigger] s[j]).0 != column,
                },
            decreases self.squares_occupied.len() - i,
        {
            let o = self.squares_occupied[i];
            if o.0 as i32 == column {
                match best {
                    Some(m) => {
                        if o.1 > m {
                            best = Some(o.1);
                        }
                    },
                    None => {
                        best = Some(o.1);
                    },
                }
            }
            i += 1;
        }
        proof {
            match best {
                Some(m) => {
                    let j = choose|j: int| 0 <= j < s.len() && (#[trigger] s[j]).1 == m && s[j].0 == column;
                    assert(self@.footprint.contains((column as int, m as int)));
                    assert forall|o: (int, int)| #[trigger]
                        self@.footprint.contains(o) && o.0 == column implies o.1 <= m by {
                        let k = choose|k: int|
                            0 <= k < s.len() && (#[trigger] s[k]).0 == o.0 && s[k].1 == o.1;
                    }
                },
                None => {
                    assert forall|o: (int, int)| #[trigger] self@.footprint.contains(o) implies o.0
                        != column by {
                        let k = choose|k: int|
                            0 <= k < s.len() && (#[trigger] s[k]).0 == o.0 && s[k].1 == o.1;
                    }
                },
            }
        }
        best
    }

    /// The greatest of `o.0 + o.1` over the offsets `o` if `up` holds, of
    /// `o.0 - o.1` if not.
    pub fn diagonal_reach(&self, up: bool) -> (r: i16)
        requires
            self.squares_occupied@.len() > 0,
        ensures
            is_diagonal_reach(self@.footprint, if up { 1int } else { -1int }, r as int),
    {
        let ghost s = self.squares_occupied@;
        let ghost w = if up { 1int } else { -1int };
        let first = self.squares_occupied[0];
        let mut best: i16 = if up {
            first.0 as i16 + first.1 as i16
        } else {
            first.0 as i16 - first.1 as i16
        };
        let mut i: usize = 1;
        while i < self.squares_occupied.len()
            invariant
                1 <= i <= self.squares_occupied.len(),
                s == self.squares_occupied@,
                w == (if up { 1int } else { -1int }),
                exists|j: int| 0 <= j < i && (#[trigger] s[j]).0 + w * s[j].1 == best,
                forall|j: int| 0 <= j < i ==> (#[trigger] s[j]).0 + w * s[j].1 <= best,
            decreases self.squares_occupied.len() - i,
        {
            let o = self.squares_occupied[i];
            let v: i16 = if up {
                o.0 as i16 + o.1 as i16
            } else {
                o.0 as i16 - o.1 as i16
            };
            if v > best {
                best = v;
            }
            i += 1;
        }
        proof {
            let j = choose|j: int| 0 <= j < s.len() && (#[trigger] s[j]).0 + w * s[j].1 == best;
            assert(self@.footprint.contains((s[j].0 as int, s[j].1 as int)));
            assert forall|o: (int, int)| #[trigger] self@.footprint.contains(o) implies o.0 + w * o.1
                <= best by {
                let k = choose|k: int| 0 <= k < s.len() && (#[trigger] s[k]).0 == o.0 && s[k].1 == o.1;
                assert(s[k].0 + w * s[k].1 <= best);
            }
        }
        best
    }

    /// The shape of the footprint: the sums and the count that give its
    /// middle, whether it is symmetric about it, and how far it reaches along
    /// the row and the column of the middle and along the two diagonals.
    pub fn shape(&self) -> (r: Shape)
        requires
            self.wf(),
        ensures
            r.sum_x == sum_x(self.squares_occupied@),
            r.sum_y == sum_y(self.squares_occupied@),
            r.count == self.squares_occupied@.len(),
            r.count >= 1,
            r.symmetric == symmetric(self@.footprint, r.sum_x as int, r.sum_y as int, r.count as int),
            is_reach_on_row(self@.footprint, r.sum_y as int / r.count as int, r.reach_on_middle_row),
            is_reach_on_column(
                self@.footprint,
                r.sum_x as int / r.count as int,
                r.reach_on_middle_column,
            ),
            is_diagonal_reach(self@.footprint, 1, r.reach_up_right as int),
            is_diagonal_reach(self@.footprint, -1, r.reach_down_right as int),
    {
        proof {
            lemma_footprint_is_small(*self);
            lemma_sums_are_small(self.squares_occupied@);
        }
        let (sx, sy) = self.offset_sums();
        let n: i32 = self.squares_occupied.len() as i32;
        let row = floor_div(sy, n);
        let column = floor_div(sx, n);
        Shape {
            sum_x: sx,
            sum_y: sy,
            count: n,
            symmetric: self.is_symmetric(),
            reach_on_middle_row: self.reach_on_row(row),
            reach_on_middle_column: self.reach_on_column(column),
            reach_up_right: self.diagonal_reach(true),
            reach_down_right: self.diagonal_reach(false),
        }
    }
}

/// `a / n` rounded down.
pub fn floor_div(a: i32, n: i32) -> (q: i32)
    requires
        n > 0,
        -1000000 <= a <= 1000000,
        n <= 1000000,
    ensures
        q == a as int / n as int,
{
    if a >= 0 {
        a / n
    } else {
        // rounding `-a / n` up and changing the sign rounds `a / n` down
        let b: i32 = -a + (n - 1);
        let t: i32 = b / n;
        proof {
            let r = b as int % n as int;
            lemma_fundamental_div_mod(b as int, n as int);
            lemma_mod_bound(b as int, n as int);
            assert(n * t == t * n) by (nonlinear_arith);
            assert(a as int == (-t) * n + (n - 1 - r)) by (nonlinear_arith)
                requires
                    b == -a + (n - 1),
                    b == t * n + r,
            ;
            lemma_fundamental_div_mod_converse(a as int, n as int, -(t as int), n - 1 - r);
        }
        -t
    }
}

} // verus!
