//! Two pieces never cover a common square: when a move keeps it so.
//!
//! A move lands only where none of the mover's side stands, what it lands on
//! is taken, and the trail it takes in was free or its own. The one thing
//! that can bring two pieces onto one square is the filling of a hole, since
//! the square in the middle of four may be held; the law below therefore asks
//! that the holes that are filled be free.

use crate::applier::{
    bystander_after, castling_of, follows_castle, is_castling, mover_after, moved_position,
    promoted, rook_column, side_of,
};
use crate::fusion::{filled, grown, is_hole, on_line, sign};
use crate::game::{index_after, pieces_after};
use crate::moves::{
    can_land, castle_ok, forward, is_castle_rook, is_move, lands_clear, lemma_clear_can_land, reach,
    scaled, way_clear_at,
};
use crate::occupancy::{occupied, occupied_by};
use crate::oracle::{has_target, is_target, move_valid, without};
use crate::piece::{PieceColour, PieceType, PieceView};
use vstd::prelude::*;

verus! {

/// No two pieces of `ps` cover a common square.
pub open spec fn no_overlap(ps: Seq<PieceView>) -> bool {
    forall|i: int, j: int, x: int, y: int|
        0 <= i < j < ps.len() ==> !((#[trigger] ps[i].occupies(x, y)) && (#[trigger] ps[j].occupies(
            x,
            y,
        )))
}

/// Every piece of `ps` stands on the board.
pub open spec fn all_on_board(ps: Seq<PieceView>) -> bool {
    forall|i: int| 0 <= i < ps.len() ==> (#[trigger] ps[i]).wf()
}

/// The piece at index `src` is still there after the piece at index `i` has
/// gone to `(nx, ny)`.
pub open spec fn stays(ps: Seq<PieceView>, i: int, nx: int, ny: int, src: int) -> bool {
    src == i || !is_target(ps[src], ps[i], nx, ny)
}

/// What the piece at index `src` is after the piece at index `i` has gone to
/// `(nx, ny)`.
pub open spec fn piece_after(ps: Seq<PieceView>, i: int, nx: int, ny: int, src: int) -> PieceView {
    if src == i {
        mover_after(ps[i], nx, ny, ps)
    } else {
        bystander_after(ps[src], ps[i], nx)
    }
}

/// The index at which the piece at index `src` stands afterwards, if it
/// stays: the number of pieces before it that stay.
pub open spec fn rank(ps: Seq<PieceView>, i: int, nx: int, ny: int, src: int) -> int {
    moved_position(ps, i, nx, ny, src).len() as int
}

/// The squares that a capture fills in are free: whatever hole the footprint
/// of `p` has once its trail is added, nobody holds that square.
pub open spec fn filled_holes_are_free(p: PieceView, nx: int, ny: int, ps: Seq<PieceView>) -> bool {
    forall|h: (int, int)| #[trigger]
        is_hole(grown(p.footprint, nx - p.x, ny - p.y), h) ==> !occupied(ps, nx + h.0, ny + h.1)
}

/// Which pieces are there after a move, and where: each piece that stays
/// stands at its rank, and at each index stands a piece that stayed.
pub proof fn lemma_moved_position_places(ps: Seq<PieceView>, i: int, nx: int, ny: int, k: int)
    requires
        0 <= i < ps.len(),
        0 <= k <= ps.len(),
    ensures
        forall|src: int|
            0 <= src < k && #[trigger] stays(ps, i, nx, ny, src) ==> rank(ps, i, nx, ny, src)
                < moved_position(ps, i, nx, ny, k).len() && moved_position(ps, i, nx, ny, k)[rank(
                ps,
                i,
                nx,
                ny,
                src,
            )] == piece_after(ps, i, nx, ny, src),
        forall|j: int|
            #![trigger moved_position(ps, i, nx, ny, k)[j]]
            0 <= j < moved_position(ps, i, nx, ny, k).len() ==> exists|src: int|
                0 <= src < k && #[trigger] stays(ps, i, nx, ny, src) && rank(ps, i, nx, ny, src)
                    == j && moved_position(ps, i, nx, ny, k)[j] == piece_after(
                    ps,
                    i,
                    nx,
                    ny,
                    src,
                ),
    decreases k,
{
    if k > 0 {
        lemma_moved_position_places(ps, i, nx, ny, k - 1);
        let before = moved_position(ps, i, nx, ny, k - 1);
        let now = moved_position(ps, i, nx, ny, k);
        assert forall|src: int| 0 <= src < k && #[trigger] stays(ps, i, nx, ny, src) implies rank(
            ps,
            i,
            nx,
            ny,
            src,
        ) < now.len() && now[rank(ps, i, nx, ny, src)] == piece_after(ps, i, nx, ny, src) by {
            if src < k - 1 {
                assert(now[rank(ps, i, nx, ny, src)] == before[rank(ps, i, nx, ny, src)]);
            }
        }
        assert forall|j: int| 0 <= j < now.len() implies exists|src: int|
            0 <= src < k && #[trigger] stays(ps, i, nx, ny, src) && rank(ps, i, nx, ny, src) == j
                && #[trigger] now[j] == piece_after(ps, i, nx, ny, src) by {
            if j < before.len() {
                assert(now[j] == before[j]);
                let src = choose|src: int|
                    0 <= src < k - 1 && #[trigger] stays(ps, i, nx, ny, src) && rank(
                        ps,
                        i,
                        nx,
                        ny,
                        src,
                    ) == j && before[j] == piece_after(ps, i, nx, ny, src);
                assert(0 <= src < k);
            } else {
                assert(stays(ps, i, nx, ny, k - 1) && rank(ps, i, nx, ny, k - 1) == j);
            }
        }
    }
}

/// A piece of `ps` other than `p` is one of the pieces without `p`.
pub proof fn lemma_without_keeps_the_others(ps: Seq<PieceView>, p: PieceView, k: int)
    requires
        0 <= k < ps.len(),
        ps[k] != p,
    ensures
        without(ps, p).contains(ps[k]),
    decreases ps.len(),
{
    let front = ps.drop_last();
    if k == ps.len() - 1 {
        let w = without(front, p).push(ps.last());
        assert(w[w.len() - 1] == ps[k]);
    } else {
        lemma_without_keeps_the_others(front, p, k);
        let j = choose|j: int| 0 <= j < without(front, p).len() && without(front, p)[j] == front[k];
        if ps.last() != p {
            assert(without(front, p).push(ps.last())[j] == ps[k]);
        }
    }
}

/// A move that the rules admit lands where none of the mover's own side
/// stands, and on the board.
pub proof fn lemma_valid_move_lands(p: PieceView, nx: int, ny: int, ps: Seq<PieceView>)
    requires
        move_valid(p, nx, ny, ps),
    ensures
        can_land(p, nx - p.x, ny - p.y, without(ps, p)),
{
    let others = without(ps, p);
    let dx = nx - p.x;
    let dy = ny - p.y;
    if is_move(p, dx, dy, others) {
        if p.piece_type == PieceType::Pawn {
            if lands_clear(p, dx, dy, others) {
                lemma_clear_can_land(p, dx, dy, others);
            }
        }
        if p.piece_type == PieceType::King && (dx == 2 || dx == -2) {
            assert(2 * 1 == 2 && 2 * (-1) == -2);
            lemma_clear_can_land(p, dx, dy, others);
        }
    }
}

/// On a move of two squares or more along a line, the squares one step short
/// of where the piece lands are free.
pub proof fn lemma_valid_move_leaves_a_free_trail(
    p: PieceView,
    nx: int,
    ny: int,
    ps: Seq<PieceView>,
)
    requires
        move_valid(p, nx, ny, ps),
        on_line(nx - p.x, ny - p.y),
        reach(nx - p.x, ny - p.y) >= 2,
    ensures
        lands_clear(
            p,
            nx - p.x - sign(nx - p.x),
            ny - p.y - sign(ny - p.y),
            without(ps, p),
        ),
{
    let others = without(ps, p);
    let dx = nx - p.x;
    let dy = ny - p.y;
    let r = reach(dx, dy);
    assert(scaled(dx, r - 1) == dx - sign(dx));
    assert(scaled(dy, r - 1) == dy - sign(dy));
    match p.piece_type {
        PieceType::Queen | PieceType::Bishop | PieceType::Rook => {
            assert(way_clear_at(p, dx, dy, r - 1, others));
        },
        PieceType::King => {
            assert(2 * 1 == 2 && 2 * (-1) == -2);
        },
        _ => {},
    }
}

/// The mover, once set down, covers no square of a piece that stays where it
/// was, if no two pieces overlapped before and the holes that are filled are
/// free.
pub proof fn lemma_mover_meets_no_bystander(
    ps: Seq<PieceView>,
    i: int,
    nx: int,
    ny: int,
    s: int,
    x: int,
    y: int,
)
    requires
        0 <= i < ps.len(),
        0 <= s < ps.len(),
        s != i,
        all_on_board(ps),
        no_overlap(ps),
        move_valid(ps[i], nx, ny, ps),
        filled_holes_are_free(ps[i], nx, ny, ps),
        stays(ps, i, nx, ny, s),
    ensures
        !(mover_after(ps[i], nx, ny, ps).occupies(x, y) && ps[s].occupies(x, y)),
{
    let p = ps[i];
    let q = ps[s];
    let m = mover_after(p, nx, ny, ps);
    let dx = nx - p.x;
    let dy = ny - p.y;
    let others = without(ps, p);
    if m.occupies(x, y) && q.occupies(x, y) {
        let o = (x - nx, y - ny);
        assert(m.footprint.contains(o));
        // `p` covers its anchor and `q` does not, so `q` is another piece
        assert(p.footprint.contains((0, 0)));
        assert(p.occupies(p.x, p.y));
        if s < i {
            assert(!(ps[s].occupies(p.x, p.y) && ps[i].occupies(p.x, p.y)));
        } else {
            assert(!(ps[i].occupies(p.x, p.y) && ps[s].occupies(p.x, p.y)));
        }
        assert(q != p);
        lemma_without_keeps_the_others(ps, p, s);
        let k = choose|k: int| 0 <= k < others.len() && others[k] == q;
        lemma_valid_move_lands(p, nx, ny, ps);
        if p.footprint.contains(o) {
            // a square the mover lands on: a foe there is taken, a friend
            // there bars the move
            if q.colour == p.colour {
                assert(others[k].colour == p.colour && others[k].occupies(
                    p.x + o.0 + dx,
                    p.y + o.1 + dy,
                ));
                assert(occupied_by(others, p.colour, p.x + o.0 + dx, p.y + o.1 + dy));
            } else {
                assert(q.occupies(nx + o.0, ny + o.1));
                assert(is_target(q, p, nx, ny));
            }
        } else {
            assert(has_target(p, nx, ny, ps));
            let g = grown(p.footprint, dx, dy);
            assert(m.footprint == filled(g));
            if g.contains(o) {
                // a square of the trail
                let b = (o.0 + sign(dx), o.1 + sign(dy));
                assert(p.footprint.contains(b));
                if reach(dx, dy) >= 2 {
                    lemma_valid_move_leaves_a_free_trail(p, nx, ny, ps);
                    assert(others[k].occupies(
                        p.x + b.0 + (dx - sign(dx)),
                        p.y + b.1 + (dy - sign(dy)),
                    ));
                    assert(occupied(
                        others,
                        p.x + b.0 + (dx - sign(dx)),
                        p.y + b.1 + (dy - sign(dy)),
                    ));
                } else {
                    // one step: the trail is where the mover stood
                    assert(dx == sign(dx) && dy == sign(dy));
                    assert(p.occupies(x, y));
                    if s < i {
                        assert(!(ps[s].occupies(x, y) && ps[i].occupies(x, y)));
                    } else {
                        assert(!(ps[i].occupies(x, y) && ps[s].occupies(x, y)));
                    }
                }
            } else {
                // a hole that was filled
                assert(is_hole(g, o));
                assert(ps[s].occupies(nx + o.0, ny + o.1));
                assert(occupied(ps, nx + o.0, ny + o.1));
            }
        }
    }
}

/// A move that is no castling keeps the pieces apart: if no two pieces
/// covered a common square before, and the holes that the capture fills are
/// free, then no two pieces cover a common square afterwards, whether or not
/// the mover is promoted.
pub proof fn lemma_move_keeps_pieces_apart(ps: Seq<PieceView>, i: int, nx: int, ny: int)
    requires
        0 <= i < ps.len(),
        all_on_board(ps),
        no_overlap(ps),
        move_valid(ps[i], nx, ny, ps),
        castling_of(ps[i], nx) is None,
        filled_holes_are_free(ps[i], nx, ny, ps),
    ensures
        no_overlap(pieces_after(ps, i, nx, ny)),
        no_overlap(
            pieces_after(ps, i, nx, ny).update(
                index_after(ps, i, nx, ny),
                promoted(mover_after(ps[i], nx, ny, ps)),
            ),
        ),
{
    let n = ps.len() as int;
    let after = pieces_after(ps, i, nx, ny);
    lemma_moved_position_places(ps, i, nx, ny, n);
    assert forall|a: int, b: int, x: int, y: int| 0 <= a < b < after.len() implies !((
    #[trigger] after[a].occupies(x, y)) && (#[trigger] after[b].occupies(x, y))) by {
        let sa = choose|src: int|
            0 <= src < n && #[trigger] stays(ps, i, nx, ny, src) && rank(ps, i, nx, ny, src) == a
                && after[a] == piece_after(ps, i, nx, ny, src);
        let sb = choose|src: int|
            0 <= src < n && #[trigger] stays(ps, i, nx, ny, src) && rank(ps, i, nx, ny, src) == b
                && after[b] == piece_after(ps, i, nx, ny, src);
        assert(sa != sb);
        if sa == i {
            lemma_mover_meets_no_bystander(ps, i, nx, ny, sb, x, y);
        } else if sb == i {
            lemma_mover_meets_no_bystander(ps, i, nx, ny, sa, x, y);
        } else {
            if sa < sb {
                assert(!(ps[sa].occupies(x, y) && ps[sb].occupies(x, y)));
            } else {
                assert(!(ps[sb].occupies(x, y) && ps[sa].occupies(x, y)));
            }
        }
    }
    let m = index_after(ps, i, nx, ny);
    let last = after.update(m, promoted(mover_after(ps[i], nx, ny, ps)));
    assert(stays(ps, i, nx, ny, i));
    assert(after[m] == mover_after(ps[i], nx, ny, ps));
    assert forall|a: int, b: int, x: int, y: int| 0 <= a < b < last.len() implies !((
    #[trigger] last[a].occupies(x, y)) && (#[trigger] last[b].occupies(x, y))) by {
        assert(last[a].occupies(x, y) == after[a].occupies(x, y));
        assert(last[b].occupies(x, y) == after[b].occupies(x, y));
    }
}

/// The row on which the king and the rooks of colour `c` start.
pub open spec fn home_row(c: PieceColour) -> int {
    match c {
        PieceColour::White => 0,
        PieceColour::Black => 7,
    }
}

/// Every piece of `ps` that has not moved covers its anchor square alone.
pub open spec fn unmoved_cover_one_square(ps: Seq<PieceView>) -> bool {
    forall|k: int|
        0 <= k < ps.len() && !(#[trigger] ps[k]).has_moved ==> ps[k].footprint == set![(0int, 0int)]
}

/// The king at index `i` and the rooks with which it may castle stand where
/// they started: the king on column 3 of its home row, the rooks on that row.
pub open spec fn castlers_at_home(ps: Seq<PieceView>, i: int) -> bool {
    &&& ps[i].x == 3
    &&& ps[i].y == home_row(ps[i].colour)
    &&& forall|k: int|
        0 <= k < ps.len() && (is_castle_rook(#[trigger] ps[k], ps[i].colour, -1) || is_castle_rook(
            ps[k],
            ps[i].colour,
            1,
        )) ==> ps[k].y == ps[i].y
}

/// A castling keeps the pieces apart: if no two pieces covered a common
/// square before, the pieces that have not moved cover one square each, and
/// king and rook stand where they started, then no two pieces cover a common
/// square afterwards, and nothing was taken.
pub proof fn lemma_castling_keeps_pieces_apart(ps: Seq<PieceView>, i: int, nx: int, ny: int)
    requires
        0 <= i < ps.len(),
        all_on_board(ps),
        no_overlap(ps),
        unmoved_cover_one_square(ps),
        move_valid(ps[i], nx, ny, ps),
        is_castling(ps[i], nx),
        castlers_at_home(ps, i),
    ensures
        !has_target(ps[i], nx, ny, ps),
        pieces_after(ps, i, nx, ny).len() == ps.len(),
        no_overlap(pieces_after(ps, i, nx, ny)),
{
    let n = ps.len() as int;
    let p = ps[i];
    let others = without(ps, p);
    let s = if nx < p.x { -1int } else { 1int };
    let c = castling_of(p, nx);
    assert(2 * 1 == 2 && 2 * (-1) == -2);
    assert(castle_ok(p, s, others));
    assert(ny == p.y && nx == p.x + 2 * s);
    assert(p.footprint.contains((0, 0)));
    assert(p.occupies(p.x, p.y));
    assert(lands_clear(p, s, 0, others));
    assert(lands_clear(p, 2 * s, 0, others));
    // a piece other than the king stands neither where the king lands nor on
    // the square that it crosses
    assert forall|k: int| 0 <= k < n && k != i implies !(#[trigger] ps[k]).occupies(nx, ny)
        && !ps[k].occupies(p.x + s, p.y) by {
        if k < i {
            assert(!(ps[k].occupies(p.x, p.y) && ps[i].occupies(p.x, p.y)));
        } else {
            assert(!(ps[i].occupies(p.x, p.y) && ps[k].occupies(p.x, p.y)));
        }
        assert(ps[k] != p);
        lemma_without_keeps_the_others(ps, p, k);
        let j = choose|j: int| 0 <= j < others.len() && others[j] == ps[k];
        if ps[k].occupies(nx, ny) {
            assert(others[j].occupies(p.x + 0 + 2 * s, p.y + 0 + 0));
            assert(occupied(others, p.x + 0 + 2 * s, p.y + 0 + 0));
        }
        if ps[k].occupies(p.x + s, p.y) {
            assert(others[j].occupies(p.x + 0 + s, p.y + 0 + 0));
            assert(occupied(others, p.x + 0 + s, p.y + 0 + 0));
        }
    }
    // nothing is taken: nobody stands where the king lands, and the row
    // behind it is off the board
    assert forall|k: int| 0 <= k < n implies !is_target(#[trigger] ps[k], p, nx, ny) by {
        if is_target(ps[k], p, nx, ny) {
            let o = choose|o: (int, int)| #[trigger]
                p.footprint.contains(o) && (ps[k].occupies(nx + o.0, ny + o.1) || (
                ps[k].can_en_passant && ps[k].occupies(
                    nx + o.0,
                    ny + o.1 - forward(p.colour),
                )));
            assert(o == (0int, 0int));
            assert(k != i);
            let row = ny - forward(p.colour);
            if ps[k].occupies(nx, row) {
                assert(ps[k].footprint.contains((nx - ps[k].x, row - ps[k].y)));
            }
        }
    }
    assert(!has_target(p, nx, ny, ps));
    lemma_moved_position_places(ps, i, nx, ny, n);
    lemma_nothing_taken_keeps_the_ranks(ps, i, nx, ny, n);
    let after = pieces_after(ps, i, nx, ny);
    assert forall|a: int, b: int, x: int, y: int| 0 <= a < b < after.len() implies !((
    #[trigger] after[a].occupies(x, y)) && (#[trigger] after[b].occupies(x, y))) by {
        lemma_nothing_taken_keeps_the_ranks(ps, i, nx, ny, a);
        lemma_nothing_taken_keeps_the_ranks(ps, i, nx, ny, b);
        assert(stays(ps, i, nx, ny, a) && stays(ps, i, nx, ny, b));
        assert(rank(ps, i, nx, ny, a) == a && rank(ps, i, nx, ny, b) == b);
        assert(after[a] == piece_after(ps, i, nx, ny, a));
        assert(after[b] == piece_after(ps, i, nx, ny, b));
        if after[a].occupies(x, y) && after[b].occupies(x, y) {
            // each piece covers one known square or stands where it stood
            lemma_place_after_castling(ps, i, nx, ny, a, x, y);
            lemma_place_after_castling(ps, i, nx, ny, b, x, y);
            assert(!(ps[a].occupies(x, y) && ps[b].occupies(x, y)));
            assert(!(ps[a].occupies(p.x + s - rook_column(c->0) + ps[a].x, y) && ps[b].occupies(
                p.x + s - rook_column(c->0) + ps[a].x,
                y,
            )));
        }
    }
}

/// Where nothing is taken, every piece stays at its index.
proof fn lemma_nothing_taken_keeps_the_ranks(ps: Seq<PieceView>, i: int, nx: int, ny: int, k: int)
    requires
        0 <= i < ps.len(),
        0 <= k <= ps.len(),
        forall|j: int| 0 <= j < ps.len() ==> !is_target(#[trigger] ps[j], ps[i], nx, ny),
    ensures
        moved_position(ps, i, nx, ny, k).len() == k,
    decreases k,
{
    if k > 0 {
        lemma_nothing_taken_keeps_the_ranks(ps, i, nx, ny, k - 1);
        assert(!is_target(ps[k - 1], ps[i], nx, ny));
    }
}

/// After a castling from the home squares, a piece covers `(x, y)` only if it
/// is the king on its landing square, a rook that followed on the square the
/// king crossed, or a piece that covered `(x, y)` before and is neither.
proof fn lemma_place_after_castling(
    ps: Seq<PieceView>,
    i: int,
    nx: int,
    ny: int,
    k: int,
    x: int,
    y: int,
)
    requires
        0 <= i < ps.len(),
        0 <= k < ps.len(),
        all_on_board(ps),
        unmoved_cover_one_square(ps),
        move_valid(ps[i], nx, ny, ps),
        is_castling(ps[i], nx),
        castlers_at_home(ps, i),
        !has_target(ps[i], nx, ny, ps),
        piece_after(ps, i, nx, ny, k).occupies(x, y),
    ensures
        k == i ==> x == nx && y == ny,
        k != i && follows_castle(ps[k], castling_of(ps[i], nx)) ==> x == ps[i].x + (if nx
            < ps[i].x {
            -1int
        } else {
            1int
        }) && y == ps[i].y && ps[k].occupies(x - rook_column(castling_of(ps[i], nx)->0) + ps[k].x, y),
        k != i && !follows_castle(ps[k], castling_of(ps[i], nx)) ==> ps[k].occupies(x, y),
{
    let p = ps[i];
    let c = castling_of(p, nx);
    assert(2 * 1 == 2 && 2 * (-1) == -2);
    assert(!p.has_moved);
    assert(p.footprint == set![(0int, 0int)]);
    if k == i {
        let m = mover_after(p, nx, ny, ps);
        assert(m.footprint.contains((x - nx, y - ny)));
    } else if follows_castle(ps[k], c) {
        assert(ps[k].footprint == set![(0int, 0int)]);
        let r = piece_after(ps, i, nx, ny, k);
        assert(r.footprint.contains((x - r.x, y - r.y)));
        assert(r.x == rook_column(c->0));
        assert(is_castle_rook(ps[k], p.colour, side_of(c->0)));
        assert(ps[k].y == p.y);
        assert(ps[k].footprint.contains((0, 0)));
    }
}

} // verus!
