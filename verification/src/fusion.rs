//! How a piece grows when it captures: it keeps the squares it lands on and
//! takes in those one step behind them, on the line it travelled.

use crate::moves::stays_on_board;
use crate::piece::{copy_offsets, offsets_have, offsets_of, on_board, Piece, PieceView};
use vstd::prelude::*;

verus! {

/// `1`, `-1` or `0`, as `t` is positive, negative or zero.
pub open spec fn sign(t: int) -> int {
    if t > 0 {
        1
    } else if t < 0 {
        -1
    } else {
        0
    }
}

/// The travel `(tx, ty)` follows a row, a column or a diagonal.
pub open spec fn on_line(tx: int, ty: int) -> bool {
    !(tx == 0 && ty == 0) && (tx == 0 || ty == 0 || tx == ty || tx == -ty)
}

/// The footprint `fp` together with the squares one step behind each of its
/// squares, against the direction of the travel `(tx, ty)`.
pub open spec fn with_trail(fp: Set<(int, int)>, tx: int, ty: int) -> Set<(int, int)> {
    Set::new(|o: (int, int)| fp.contains(o) || fp.contains((o.0 + sign(tx), o.1 + sign(ty))))
}

/// `h` is missing from `fp` while its four neighbours belong to it.
pub open spec fn is_hole(fp: Set<(int, int)>, h: (int, int)) -> bool {
    &&& !fp.contains(h)
    &&& fp.contains((h.0 - 1, h.1))
    &&& fp.contains((h.0 + 1, h.1))
    &&& fp.contains((h.0, h.1 + 1))
    &&& fp.contains((h.0, h.1 - 1))
}

/// The footprint with its holes filled.
pub open spec fn filled(fp: Set<(int, int)>) -> Set<(int, int)> {
    Set::new(|h: (int, int)| fp.contains(h) || is_hole(fp, h))
}

/// The footprint grown by a capture made by travelling `(tx, ty)`, before its
/// holes are filled: with its trail if the travel follows a line, as it was if
/// not.
pub open spec fn grown(fp: Set<(int, int)>, tx: int, ty: int) -> Set<(int, int)> {
    if on_line(tx, ty) {
        with_trail(fp, tx, ty)
    } else {
        fp
    }
}

/// The footprint of a piece that has captured by travelling `(tx, ty)`: on a
/// line it takes in its trail, and in any case its holes are filled.
pub open spec fn fused(fp: Set<(int, int)>, tx: int, ty: int) -> Set<(int, int)> {
    filled(grown(fp, tx, ty))
}

/// A capture never takes a square away from the footprint.
pub proof fn lemma_fused_grows(fp: Set<(int, int)>, tx: int, ty: int)
    ensures
        fp.subset_of(fused(fp, tx, ty)),
{
}

/// After a capture no square is missing between four squares of the
/// footprint.
pub proof fn lemma_fused_has_no_hole(fp: Set<(int, int)>, tx: int, ty: int)
    ensures
        forall|h: (int, int)| !is_hole(fused(fp, tx, ty), h),
{
    let g = grown(fp, tx, ty);
    assert forall|h: (int, int)| !is_hole(filled(g), h) by {
        if is_hole(filled(g), h) {
            // One neighbour of `h` was itself a hole of `g`, so `h`, its
            // neighbour, belonged to `g`.
            assert(!g.contains(h) && !is_hole(g, h));
            if !g.contains((h.0 - 1, h.1)) {
                assert(is_hole(g, (h.0 - 1, h.1)));
                assert(g.contains(((h.0 - 1) + 1, h.1)));
            } else if !g.contains((h.0 + 1, h.1)) {
                assert(is_hole(g, (h.0 + 1, h.1)));
                assert(g.contains(((h.0 + 1) - 1, h.1)));
            } else if !g.contains((h.0, h.1 + 1)) {
                assert(is_hole(g, (h.0, h.1 + 1)));
                assert(g.contains((h.0, (h.1 + 1) - 1)));
            } else {
                assert(is_hole(g, (h.0, h.1 - 1)));
                assert(g.contains((h.0, (h.1 - 1) + 1)));
            }
        }
    }
}

/// A piece that stands on the board, and would do so shifted by `(tx, ty)`,
/// still does with the footprint of a capture once its anchor has followed.
pub proof fn lemma_fused_stays_on_board(p: PieceView, tx: int, ty: int)
    requires
        p.wf(),
        stays_on_board(p, tx, ty),
    ensures
        (PieceView { footprint: fused(p.footprint, tx, ty), x: p.x + tx, y: p.y + ty, ..p }).wf(),
{
    let g = grown(p.footprint, tx, ty);
    let q = PieceView { footprint: fused(p.footprint, tx, ty), x: p.x + tx, y: p.y + ty, ..p };
    assert forall|o: (int, int)| g.contains(o) implies on_board(q.x + o.0, q.y + o.1) by {
        if p.footprint.contains(o) {
        } else {
            let b = (o.0 + sign(tx), o.1 + sign(ty));
            assert(p.footprint.contains(b));
            assert(on_board(p.x + b.0, p.y + b.1));
            assert(on_board(p.x + b.0 + tx, p.y + b.1 + ty));
        }
    }
    assert forall|o: (int, int)| #[trigger] q.footprint.contains(o) implies on_board(
        q.x + o.0,
        q.y + o.1,
    ) by {
        if !g.contains(o) {
            assert(is_hole(g, o));
            assert(on_board(q.x + (o.0 - 1), q.y + o.1));
            assert(on_board(q.x + (o.0 + 1), q.y + o.1));
        }
    }
    assert(p.footprint.contains((0, 0)));
}

/// What `push` does to the set of offsets.
pub proof fn lemma_offsets_push(s: Seq<(i8, i8)>, v: (i8, i8))
    ensures
        offsets_of(s.push(v)) == offsets_of(s).insert((v.0 as int, v.1 as int)),
        s.no_duplicates() && !offsets_of(s).contains((v.0 as int, v.1 as int)) ==> s.push(
            v,
        ).no_duplicates(),
{
    let t = s.push(v);
    assert forall|o: (int, int)|
        offsets_of(t).contains(o) <==> offsets_of(s).insert((v.0 as int, v.1 as int)).contains(
            o,
        ) by {
        if offsets_of(t).contains(o) {
            let i = choose|i: int| 0 <= i < t.len() && (#[trigger] t[i]).0 == o.0 && t[i].1 == o.1;
            if i < s.len() {
                assert(s[i].0 == o.0 && s[i].1 == o.1);
            }
        }
        if offsets_of(s).contains(o) {
            let i = choose|i: int| 0 <= i < s.len() && (#[trigger] s[i]).0 == o.0 && s[i].1 == o.1;
            assert(t[i].0 == o.0 && t[i].1 == o.1);
        }
        if o == (v.0 as int, v.1 as int) {
            assert(t[s.len() as int].0 == o.0 && t[s.len() as int].1 == o.1);
        }
    }
    assert(offsets_of(t) =~= offsets_of(s).insert((v.0 as int, v.1 as int)));
    if s.no_duplicates() && !offsets_of(s).contains((v.0 as int, v.1 as int)) {
        assert forall|i: int, j: int| 0 <= i < t.len() && 0 <= j < t.len() && i != j implies t[i]
            != t[j] by {
            if i < s.len() && j == s.len() {
                assert(s[i].0 != v.0 || s[i].1 != v.1);
            }
            if j < s.len() && i == s.len() {
                assert(s[j].0 != v.0 || s[j].1 != v.1);
            }
        }
    }
}

/// Every offset of `s` lies within `b` of the anchor on both axes.
pub open spec fn offsets_within(s: Seq<(i8, i8)>, b: int) -> bool {
    forall|i: int| 0 <= i < s.len() ==> -b <= (#[trigger] s[i]).0 <= b && -b <= s[i].1 <= b
}

/// Adds to `v` the square one step behind each of its squares, against the
/// direction `(gx, gy)`.
fn add_trail(v: &mut Vec<(i8, i8)>, gx: i8, gy: i8)
    requires
        -1 <= gx <= 1,
        -1 <= gy <= 1,
        old(v)@.no_duplicates(),
        offsets_within(old(v)@, 7),
    ensures
        final(v)@.no_duplicates(),
        offsets_within(final(v)@, 8),
        offsets_of(final(v)@) == Set::new(
            |o: (int, int)|
                offsets_of(old(v)@).contains(o) || offsets_of(old(v)@).contains(
                    (o.0 + gx, o.1 + gy),
                ),
        ),
{
    let ghost orig = v@;
    let ghost fp = offsets_of(orig);
    let ghost goal = Set::new(|o: (int, int)| fp.contains(o) || fp.contains((o.0 + gx, o.1 + gy)));
    let n = v.len();
    let mut i: usize = 0;
    while i < n
        invariant
            i <= n,
            n == orig.len(),
            n <= v@.len(),
            -1 <= gx <= 1,
            -1 <= gy <= 1,
            fp == offsets_of(orig),
            goal == Set::new(|o: (int, int)| fp.contains(o) || fp.contains((o.0 + gx, o.1 + gy))),
            offsets_within(orig, 7),
            forall|j: int| 0 <= j < n ==> v@[j] == orig[j],
            v@.no_duplicates(),
            offsets_within(v@, 8),
            offsets_of(v@).subset_of(goal),
            fp.subset_of(offsets_of(v@)),
            forall|j: int|
                0 <= j < i ==> offsets_of(v@).contains(
                    ((#[trigger] orig[j]).0 - gx, orig[j].1 - gy),
                ),
        decreases n - i,
    {
        let o = v[i];
        let c: (i8, i8) = (o.0 - gx, o.1 - gy);
        let ghost before = v@;
        proof {
            assert(o == orig[i as int]);
            assert(orig[i as int].0 == o.0 && orig[i as int].1 == o.1);
            assert(fp.contains((o.0 as int, o.1 as int)));
            assert(goal.contains((c.0 as int, c.1 as int)));
        }
        if !offsets_have(v, c.0 as i16, c.1 as i16) {
            proof {
                lemma_offsets_push(before, c);
            }
            v.push(c);
        }
        i += 1;
    }
    proof {
        assert forall|o: (int, int)| goal.contains(o) implies offsets_of(v@).contains(o) by {
            if !fp.contains(o) {
                let j = choose|j: int|
                    0 <= j < orig.len() && (#[trigger] orig[j]).0 == o.0 + gx && orig[j].1 == o.1
                        + gy;
                assert(offsets_of(v@).contains((orig[j].0 - gx, orig[j].1 - gy)));
            }
        }
        assert(offsets_of(v@) =~= goal);
    }
}

/// Adds to `v` every square that is missing between four of its squares.
fn fill_holes(v: &mut Vec<(i8, i8)>)
    requires
        old(v)@.no_duplicates(),
        offsets_within(old(v)@, 8),
    ensures
        final(v)@.no_duplicates(),
        offsets_within(final(v)@, 8),
        offsets_of(final(v)@) == filled(offsets_of(old(v)@)),
{
    let snapshot = copy_offsets(v);
    let ghost orig = v@;
    let ghost g = offsets_of(orig);
    let n = snapshot.len();
    let mut i: usize = 0;
    while i < n
        invariant
            i <= n,
            n == orig.len(),
            snapshot@ == orig,
            g == offsets_of(orig),
            offsets_within(orig, 8),
            v@.no_duplicates(),
            offsets_within(v@, 8),
            offsets_of(v@).subset_of(filled(g)),
            g.subset_of(offsets_of(v@)),
            forall|j: int|
                0 <= j < i && is_hole(g, ((#[trigger] orig[j]).0 + 1, orig[j].1 as int))
                    ==> offsets_of(v@).contains((orig[j].0 + 1, orig[j].1 as int)),
        decreases n - i,
    {
        let o = snapshot[i];
        let hx: i16 = o.0 as i16 + 1;
        let hy: i16 = o.1 as i16;
        let ghost before = v@;
        let hole = !offsets_have(&snapshot, hx, hy) && offsets_have(&snapshot, hx + 1, hy)
            && offsets_have(&snapshot, hx, hy + 1) && offsets_have(&snapshot, hx, hy - 1);
        proof {
            assert(g.contains((o.0 as int, o.1 as int)));
            assert(g.contains((hx - 1, hy as int)));
            assert(hole == is_hole(g, (hx as int, hy as int)));
        }
        if hole && !offsets_have(v, hx, hy) {
            proof {
                // The right-hand neighbour is an offset, so the hole is in range.
                let j = choose|j: int|
                    0 <= j < orig.len() && (#[trigger] orig[j]).0 == hx + 1 && orig[j].1 == hy;
                assert(hx + 1 <= 8);
                lemma_offsets_push(before, (hx as i8, hy as i8));
            }
            v.push((hx as i8, hy as i8));
        }
        i += 1;
    }
    proof {
        assert forall|h: (int, int)| filled(g).contains(h) implies offsets_of(v@).contains(h) by {
            if is_hole(g, h) {
                let j = choose|j: int|
                    0 <= j < orig.len() && (#[trigger] orig[j]).0 == h.0 - 1 && orig[j].1 == h.1;
                assert(h == (orig[j].0 + 1, orig[j].1 as int));
            }
        }
        assert(offsets_of(v@) =~= filled(g));
    }
}

impl Piece {
    /// Grows the piece for a capture made by going from its anchor to
    /// `(x, y)`. To be called once for a capturing move, before the anchor is
    /// set to `(x, y)`. Nothing but the footprint changes.
    pub fn consume_piece(&mut self, x: u8, y: u8)
        requires
            old(self).wf(),
            !(x == old(self).x && y == old(self).y),
        ensures
            final(self)@ == (PieceView {
                footprint: fused(old(self)@.footprint, x - old(self).x, y - old(self).y),
                ..old(self)@
            }),
            final(self).squares_occupied@.no_duplicates(),
    {
        let tx: i16 = x as i16 - self.x as i16;
        let ty: i16 = y as i16 - self.y as i16;
        proof {
            assert(self@.footprint.contains((0, 0)));
            assert forall|i: int| 0 <= i < self.squares_occupied@.len() implies -7 <= (
            #[trigger] self.squares_occupied@[i]).0 <= 7 && -7 <= self.squares_occupied@[i].1
                <= 7 by {
                let o = self.squares_occupied@[i];
                assert(self@.footprint.contains((o.0 as int, o.1 as int)));
            }
        }
        if tx == 0 || ty == 0 || tx == ty || tx == -ty {
            let gx: i8 = if tx > 0 {
                1
            } else if tx < 0 {
                -1
            } else {
                0
            };
            let gy: i8 = if ty > 0 {
                1
            } else if ty < 0 {
                -1
            } else {
                0
            };
            add_trail(&mut self.squares_occupied, gx, gy);
            proof {
                assert(self@.footprint =~= with_trail(old(self)@.footprint, tx as int, ty as int));
            }
        }
        fill_holes(&mut self.squares_occupied);
    }
}

} // verus!
