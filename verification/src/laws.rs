//! What holds of the rules whatever the position: the order in which the
//! pieces are listed never matters, every square of a piece attacks on its
//! own, and castling depends on king and rook not having moved.

use crate::applier::{bystander_after, is_double_step, moved_position, mover_after, promoted};
use crate::game::{accepts, after_attempt, index_after, pieces_after, GameView};
use crate::moves::{
    can_land, castle_ok, defended, is_capture, is_castle_rook, is_move, lands_clear, ray_ok, reach,
    way_clear_at,
};
use crate::occupancy::{is_aligned, occupied, occupied_by, path_clear, way_held_at};
use crate::oracle::{
    after_move, has_target, in_check, in_checkmate, is_target, move_valid, playable, without,
};
use crate::piece::{on_board, PieceColour, PieceType, PieceView};
use vstd::prelude::*;
use vstd::seq_lib::{to_multiset_build, to_multiset_contains, to_multiset_len, to_multiset_remove};

verus! {

/// `a` and `b` list the same pieces, each as often, in any order.
pub open spec fn rearranged(a: Seq<PieceView>, b: Seq<PieceView>) -> bool {
    a.to_multiset() == b.to_multiset()
}

/// Two lists of the same pieces have the same length and the same members.
pub proof fn lemma_rearranged_members(a: Seq<PieceView>, b: Seq<PieceView>)
    requires
        rearranged(a, b),
    ensures
        a.len() == b.len(),
        forall|q: PieceView| a.contains(q) <==> b.contains(q),
{
    to_multiset_len(a);
    to_multiset_len(b);
    assert forall|q: PieceView| a.contains(q) <==> b.contains(q) by {
        to_multiset_contains(a, q);
        to_multiset_contains(b, q);
    }
}

/// Whether a square is held, and by which colour, does not depend on the
/// order of the pieces.
pub proof fn lemma_occupancy_rearranged(a: Seq<PieceView>, b: Seq<PieceView>)
    requires
        rearranged(a, b),
    ensures
        forall|x: int, y: int|
            #![trigger occupied(a, x, y)]
            #![trigger occupied(b, x, y)]
            occupied(a, x, y) == occupied(b, x, y),
        forall|c: PieceColour, x: int, y: int|
            #![trigger occupied_by(a, c, x, y)]
            #![trigger occupied_by(b, c, x, y)]
            occupied_by(a, c, x, y) == occupied_by(b, c, x, y),
{
    lemma_rearranged_members(a, b);
    assert forall|x: int, y: int|
        #![trigger occupied(a, x, y)]
        #![trigger occupied(b, x, y)]
        occupied(a, x, y) == occupied(b, x, y) by {
        if occupied(a, x, y) {
            let i = choose|i: int| 0 <= i < a.len() && (#[trigger] a[i]).occupies(x, y);
            assert(a.contains(a[i]));
            let j = choose|j: int| 0 <= j < b.len() && b[j] == a[i];
            assert(b[j].occupies(x, y));
        }
        if occupied(b, x, y) {
            let i = choose|i: int| 0 <= i < b.len() && (#[trigger] b[i]).occupies(x, y);
            assert(b.contains(b[i]));
            let j = choose|j: int| 0 <= j < a.len() && a[j] == b[i];
            assert(a[j].occupies(x, y));
        }
    }
    assert forall|c: PieceColour, x: int, y: int|
        #![trigger occupied_by(a, c, x, y)]
        #![trigger occupied_by(b, c, x, y)]
        occupied_by(a, c, x, y) == occupied_by(b, c, x, y) by {
        if occupied_by(a, c, x, y) {
            let i = choose|i: int|
                0 <= i < a.len() && (#[trigger] a[i]).colour == c && a[i].occupies(x, y);
            assert(a.contains(a[i]));
            let j = choose|j: int| 0 <= j < b.len() && b[j] == a[i];
            assert(b[j].colour == c && b[j].occupies(x, y));
        }
        if occupied_by(b, c, x, y) {
            let i = choose|i: int|
                0 <= i < b.len() && (#[trigger] b[i]).colour == c && b[i].occupies(x, y);
            assert(b.contains(b[i]));
            let j = choose|j: int| 0 <= j < a.len() && a[j] == b[i];
            assert(a[j].colour == c && a[j].occupies(x, y));
        }
    }
}

/// Where a piece can land, and where its way is free, does not depend on the
/// order of the other pieces.
pub proof fn lemma_landing_rearranged(p: PieceView, a: Seq<PieceView>, b: Seq<PieceView>)
    requires
        rearranged(a, b),
    ensures
        forall|dx: int, dy: int|
            #![trigger can_land(p, dx, dy, a)]
            #![trigger can_land(p, dx, dy, b)]
            can_land(p, dx, dy, a) == can_land(p, dx, dy, b),
        forall|dx: int, dy: int|
            #![trigger lands_clear(p, dx, dy, a)]
            #![trigger lands_clear(p, dx, dy, b)]
            lands_clear(p, dx, dy, a) == lands_clear(p, dx, dy, b),
        forall|dx: int, dy: int|
            #![trigger ray_ok(p, dx, dy, a)]
            #![trigger ray_ok(p, dx, dy, b)]
            ray_ok(p, dx, dy, a) == ray_ok(p, dx, dy, b),
{
    lemma_occupancy_rearranged(a, b);
    assert forall|dx: int, dy: int|
        #![trigger can_land(p, dx, dy, a)]
        #![trigger can_land(p, dx, dy, b)]
        can_land(p, dx, dy, a) == can_land(p, dx, dy, b) by {}
    assert forall|dx: int, dy: int|
        #![trigger lands_clear(p, dx, dy, a)]
        #![trigger lands_clear(p, dx, dy, b)]
        lands_clear(p, dx, dy, a) == lands_clear(p, dx, dy, b) by {}
    assert forall|dx: int, dy: int|
        #![trigger ray_ok(p, dx, dy, a)]
        #![trigger ray_ok(p, dx, dy, b)]
        ray_ok(p, dx, dy, a) == ray_ok(p, dx, dy, b) by {
        assert forall|k: int|
            way_clear_at(p, dx, dy, k, a) == way_clear_at(p, dx, dy, k, b) by {}
    }
}

/// One direction of [`lemma_defended_rearranged`].
proof fn lemma_defended_carries_over(
    sx: int,
    sy: int,
    c: PieceColour,
    a: Seq<PieceView>,
    b: Seq<PieceView>,
)
    requires
        rearranged(a, b),
        defended(sx, sy, c, a),
    ensures
        defended(sx, sy, c, b),
    decreases a.len(), 0int,
{
    let (i, o) = choose|i: int, o: (int, int)|
        0 <= i < a.len() && (#[trigger] a[i].footprint.contains(o)) && a[i].colour == c
            && !a[i].occupies(sx, sy) && is_capture(
            a[i],
            sx - a[i].x - o.0,
            sy - a[i].y - o.1,
            a.remove(i),
        );
    lemma_rearranged_members(a, b);
    assert(a.contains(a[i]));
    let j = choose|j: int| 0 <= j < b.len() && b[j] == a[i];
    to_multiset_remove(a, i);
    to_multiset_remove(b, j);
    a.remove_ensures(i);
    lemma_capture_rearranged(a[i], sx - a[i].x - o.0, sy - a[i].y - o.1, a.remove(i), b.remove(j));
    assert(b[j].footprint.contains(o) && b[j].colour == c && !b[j].occupies(sx, sy) && is_capture(
        b[j],
        sx - b[j].x - o.0,
        sy - b[j].y - o.1,
        b.remove(j),
    ));
}

/// Whether a side attacks a square does not depend on the order of the
/// pieces.
pub proof fn lemma_defended_rearranged(
    sx: int,
    sy: int,
    c: PieceColour,
    a: Seq<PieceView>,
    b: Seq<PieceView>,
)
    requires
        rearranged(a, b),
    ensures
        defended(sx, sy, c, a) == defended(sx, sy, c, b),
    decreases a.len(), 1int,
{
    lemma_rearranged_members(a, b);
    if defended(sx, sy, c, a) {
        lemma_defended_carries_over(sx, sy, c, a, b);
    }
    if defended(sx, sy, c, b) {
        lemma_defended_carries_over(sx, sy, c, b, a);
    }
}

/// Whether a king may castle does not depend on the order of the other
/// pieces.
pub proof fn lemma_castle_rearranged(p: PieceView, s: int, a: Seq<PieceView>, b: Seq<PieceView>)
    requires
        rearranged(a, b),
    ensures
        castle_ok(p, s, a) == castle_ok(p, s, b),
    decreases a.len(), 2int,
{
    lemma_rearranged_members(a, b);
    lemma_landing_rearranged(p, a, b);
    let rook_a = exists|i: int| 0 <= i < a.len() && is_castle_rook(#[trigger] a[i], p.colour, s);
    let rook_b = exists|i: int| 0 <= i < b.len() && is_castle_rook(#[trigger] b[i], p.colour, s);
    if rook_a {
        let i = choose|i: int| 0 <= i < a.len() && is_castle_rook(#[trigger] a[i], p.colour, s);
        assert(a.contains(a[i]));
        let j = choose|j: int| 0 <= j < b.len() && b[j] == a[i];
        assert(is_castle_rook(b[j], p.colour, s));
    }
    if rook_b {
        let i = choose|i: int| 0 <= i < b.len() && is_castle_rook(#[trigger] b[i], p.colour, s);
        assert(b.contains(b[i]));
        let j = choose|j: int| 0 <= j < a.len() && a[j] == b[i];
        assert(is_castle_rook(a[j], p.colour, s));
    }
    assert(rook_a == rook_b);
    let enemy = p.colour.spec_opposite();
    assert forall|o: (int, int)| #[trigger] p.footprint.contains(o) implies ({
        &&& defended(p.x + o.0, p.y + o.1, enemy, a) == defended(p.x + o.0, p.y + o.1, enemy, b)
        &&& defended(p.x + o.0 + s, p.y + o.1, enemy, a) == defended(
            p.x + o.0 + s,
            p.y + o.1,
            enemy,
            b,
        )
        &&& defended(p.x + o.0 + 2 * s, p.y + o.1, enemy, a) == defended(
            p.x + o.0 + 2 * s,
            p.y + o.1,
            enemy,
            b,
        )
    }) by {
        lemma_defended_rearranged(p.x + o.0, p.y + o.1, enemy, a, b);
        lemma_defended_rearranged(p.x + o.0 + s, p.y + o.1, enemy, a, b);
        lemma_defended_rearranged(p.x + o.0 + 2 * s, p.y + o.1, enemy, a, b);
    }
}

/// The moves of a piece do not depend on the order of the other pieces.
pub proof fn lemma_move_rearranged(
    p: PieceView,
    dx: int,
    dy: int,
    a: Seq<PieceView>,
    b: Seq<PieceView>,
)
    requires
        rearranged(a, b),
    ensures
        is_move(p, dx, dy, a) == is_move(p, dx, dy, b),
    decreases a.len(), 3int,
{
    lemma_rearranged_members(a, b);
    lemma_landing_rearranged(p, a, b);
    if p.piece_type == PieceType::King {
        lemma_castle_rearranged(p, -1, a, b);
        lemma_castle_rearranged(p, 1, a, b);
    }
}

/// The capturing moves of a piece do not depend on the order of the other
/// pieces.
pub proof fn lemma_capture_rearranged(
    p: PieceView,
    dx: int,
    dy: int,
    a: Seq<PieceView>,
    b: Seq<PieceView>,
)
    requires
        rearranged(a, b),
    ensures
        is_capture(p, dx, dy, a) == is_capture(p, dx, dy, b),
    decreases a.len(), 4int,
{
    lemma_rearranged_members(a, b);
    lemma_landing_rearranged(p, a, b);
    if p.piece_type != PieceType::Pawn {
        lemma_move_rearranged(p, dx, dy, a, b);
    }
}

/// How often a piece occurs among the pieces other than `p`: never if it is
/// `p`, else as often as before.
pub proof fn lemma_without_counts(s: Seq<PieceView>, p: PieceView)
    ensures
        forall|q: PieceView|
            #[trigger] without(s, p).to_multiset().count(q) == (if q == p {
                0nat
            } else {
                s.to_multiset().count(q)
            }),
    decreases s.len(),
{
    if s.len() == 0 {
        assert(without(s, p) =~= Seq::<PieceView>::empty());
        s.to_multiset_ensures();
        without(s, p).to_multiset_ensures();
        assert forall|q: PieceView|
            #[trigger] without(s, p).to_multiset().count(q) == (if q == p {
                0nat
            } else {
                s.to_multiset().count(q)
            }) by {
            assert(!s.contains(q));
            assert(!without(s, p).contains(q));
        }
    } else {
        let front = s.drop_last();
        lemma_without_counts(front, p);
        assert(s =~= front.push(s.last()));
        to_multiset_build(front, s.last());
        if s.last() != p {
            to_multiset_build(without(front, p), s.last());
        }
    }
}

/// Leaving a piece out of two lists of the same pieces leaves lists of the
/// same pieces.
pub proof fn lemma_without_rearranged(a: Seq<PieceView>, b: Seq<PieceView>, p: PieceView)
    requires
        rearranged(a, b),
    ensures
        rearranged(without(a, p), without(b, p)),
{
    lemma_without_counts(a, p);
    lemma_without_counts(b, p);
    assert(without(a, p).to_multiset() =~= without(b, p).to_multiset());
}

/// What a piece takes on a square does not depend on the order of the other
/// pieces.
pub proof fn lemma_target_rearranged(
    p: PieceView,
    nx: int,
    ny: int,
    a: Seq<PieceView>,
    b: Seq<PieceView>,
)
    requires
        rearranged(a, b),
    ensures
        has_target(p, nx, ny, a) == has_target(p, nx, ny, b),
{
    lemma_rearranged_members(a, b);
    if has_target(p, nx, ny, a) {
        let i = choose|i: int| 0 <= i < a.len() && is_target(#[trigger] a[i], p, nx, ny);
        assert(a.contains(a[i]));
        let j = choose|j: int| 0 <= j < b.len() && b[j] == a[i];
        assert(is_target(b[j], p, nx, ny));
    }
    if has_target(p, nx, ny, b) {
        let i = choose|i: int| 0 <= i < b.len() && is_target(#[trigger] b[i], p, nx, ny);
        assert(b.contains(b[i]));
        let j = choose|j: int| 0 <= j < a.len() && a[j] == b[i];
        assert(is_target(a[j], p, nx, ny));
    }
}

/// Whether a piece may go to a square does not depend on the order in which
/// the pieces of the board are listed.
pub proof fn lemma_move_valid_rearranged(
    p: PieceView,
    nx: int,
    ny: int,
    a: Seq<PieceView>,
    b: Seq<PieceView>,
)
    requires
        rearranged(a, b),
    ensures
        move_valid(p, nx, ny, a) == move_valid(p, nx, ny, b),
{
    lemma_without_rearranged(a, b, p);
    let oa = without(a, p);
    let ob = without(b, p);
    lemma_move_rearranged(p, nx - p.x, ny - p.y, oa, ob);
    lemma_capture_rearranged(p, nx - p.x, ny - p.y, oa, ob);
    lemma_target_rearranged(p, nx, ny, oa, ob);
}

/// Whether a side is in check does not depend on the order in which the
/// pieces of the board are listed.
pub proof fn lemma_in_check_rearranged(c: PieceColour, a: Seq<PieceView>, b: Seq<PieceView>)
    requires
        rearranged(a, b),
    ensures
        in_check(c, a) == in_check(c, b),
{
    lemma_rearranged_members(a, b);
    let enemy = c.spec_opposite();
    if in_check(c, a) {
        let (i, o) = choose|i: int, o: (int, int)|
            0 <= i < a.len() && (#[trigger] a[i].footprint.contains(o)) && a[i].piece_type
                == PieceType::King && a[i].colour == c && defended(
                a[i].x + o.0,
                a[i].y + o.1,
                enemy,
                a,
            );
        assert(a.contains(a[i]));
        let j = choose|j: int| 0 <= j < b.len() && b[j] == a[i];
        lemma_defended_rearranged(a[i].x + o.0, a[i].y + o.1, enemy, a, b);
        assert(b[j].footprint.contains(o));
    }
    if in_check(c, b) {
        let (i, o) = choose|i: int, o: (int, int)|
            0 <= i < b.len() && (#[trigger] b[i].footprint.contains(o)) && b[i].piece_type
                == PieceType::King && b[i].colour == c && defended(
                b[i].x + o.0,
                b[i].y + o.1,
                enemy,
                b,
            );
        assert(b.contains(b[i]));
        let j = choose|j: int| 0 <= j < a.len() && a[j] == b[i];
        lemma_defended_rearranged(b[i].x + o.0, b[i].y + o.1, enemy, a, b);
        assert(a[j].footprint.contains(o));
    }
}

/// A king's move of two columns is a castling, and nothing else: it is a move
/// exactly when the king may castle to that side. A king that has moved has
/// no such move, nor has one without a rook of its colour that has not moved
/// on the outer column of that side.
pub proof fn lemma_castling_needs_unmoved_king_and_rook(p: PieceView, s: int, others: Seq<PieceView>)
    requires
        p.piece_type == PieceType::King,
        s == 1 || s == -1,
    ensures
        is_move(p, 2 * s, 0, others) <==> castle_ok(p, s, others),
        p.has_moved ==> !is_move(p, 2 * s, 0, others),
        (forall|i: int|
            0 <= i < others.len() && (#[trigger] others[i]).colour == p.colour && others[i].piece_type
                == PieceType::Rook && others[i].x == (if s < 0 {
                0int
            } else {
                7int
            }) ==> others[i].has_moved) ==> !is_move(p, 2 * s, 0, others),
{
}

/// A king on one square that has not moved castles towards a rook of its
/// colour that has not moved, if the two squares it crosses and lands on are on
/// the board and free, and neither they nor its own square are attacked.
pub proof fn lemma_castling_on_free_and_safe_squares(
    p: PieceView,
    s: int,
    rook: int,
    others: Seq<PieceView>,
)
    requires
        p.piece_type == PieceType::King,
        s == 1 || s == -1,
        !p.has_moved,
        p.footprint == set![(0int, 0int)],
        0 <= rook < others.len(),
        is_castle_rook(others[rook], p.colour, s),
        on_board(p.x + s, p.y),
        on_board(p.x + 2 * s, p.y),
        !occupied(others, p.x + s, p.y),
        !occupied(others, p.x + 2 * s, p.y),
        !defended(p.x, p.y, p.colour.spec_opposite(), others),
        !defended(p.x + s, p.y, p.colour.spec_opposite(), others),
        !defended(p.x + 2 * s, p.y, p.colour.spec_opposite(), others),
    ensures
        is_move(p, 2 * s, 0, others),
{
    assert forall|o: (int, int)| #[trigger] p.footprint.contains(o) implies o == (0int, 0int) by {}
    assert(lands_clear(p, s, 0, others));
    assert(lands_clear(p, 2 * s, 0, others));
    assert(castle_ok(p, s, others));
}

/// Each square of a piece attacks on its own: a square that a capturing move
/// of the piece reaches from any one of its squares is attacked by its side,
/// unless the piece covers it.
pub proof fn lemma_every_square_attacks(
    ps: Seq<PieceView>,
    i: int,
    o: (int, int),
    dx: int,
    dy: int,
)
    requires
        0 <= i < ps.len(),
        ps[i].footprint.contains(o),
        is_capture(ps[i], dx, dy, ps.remove(i)),
        !ps[i].occupies(ps[i].x + o.0 + dx, ps[i].y + o.1 + dy),
    ensures
        defended(ps[i].x + o.0 + dx, ps[i].y + o.1 + dy, ps[i].colour, ps),
{
    let sx = ps[i].x + o.0 + dx;
    let sy = ps[i].y + o.1 + dy;
    assert(sx - ps[i].x - o.0 == dx && sy - ps[i].y - o.1 == dy);
}

/// Each piece after a move is the mover or a piece that stayed: at most `k`
/// remain of the first `k`; the mover alone may carry the flags of a double
/// step, and carries them exactly if it is a pawn that advanced two rows; no
/// piece covers fewer squares than before.
pub proof fn lemma_moved_position_flags(ps: Seq<PieceView>, i: int, nx: int, ny: int, k: int)
    requires
        0 <= i < ps.len(),
        0 <= k <= ps.len(),
    ensures
        moved_position(ps, i, nx, ny, k).len() <= k,
        i < k ==> index_after(ps, i, nx, ny) < moved_position(ps, i, nx, ny, k).len()
            && moved_position(ps, i, nx, ny, k)[index_after(ps, i, nx, ny)] == mover_after(
            ps[i],
            nx,
            ny,
            ps,
        ),
        forall|j: int|
            0 <= j < moved_position(ps, i, nx, ny, k).len() && !(i < k && j == index_after(
                ps,
                i,
                nx,
                ny,
            )) ==> {
                let q = #[trigger] moved_position(ps, i, nx, ny, k)[j];
                !q.can_en_passant && !q.just_moved && exists|m: int|
                    0 <= m < k && q.footprint == (#[trigger] ps[m]).footprint
            },
    decreases k,
{
    if k > 0 {
        lemma_moved_position_flags(ps, i, nx, ny, k - 1);
        let before = moved_position(ps, i, nx, ny, k - 1);
        let now = moved_position(ps, i, nx, ny, k);
        assert forall|j: int|
            0 <= j < now.len() && !(i < k && j == index_after(ps, i, nx, ny)) implies ({
            let q = #[trigger] now[j];
            !q.can_en_passant && !q.just_moved && exists|m: int|
                0 <= m < k && q.footprint == (#[trigger] ps[m]).footprint
        }) by {
            if j < before.len() {
                assert(now[j] == before[j]);
                let m = choose|m: int|
                    0 <= m < k - 1 && before[j].footprint == (#[trigger] ps[m]).footprint;
                assert(0 <= m < k);
            } else {
                assert(now[j] == bystander_after(ps[k - 1], ps[i], nx));
                assert(now[j].footprint == ps[k - 1].footprint);
            }
        }
    }
}

/// After an accepted move the mover carries the flags of a double step
/// exactly if it is a pawn that advanced two rows, and no other piece carries
/// them: what could be taken in passing before can no longer be.
pub proof fn lemma_flags_after_accepted_move(g: GameView, piece: int, nx: int, ny: int)
    requires
        accepts(g, piece, nx, ny),
    ensures
        ({
            let after = after_attempt(g, piece, nx, ny).pieces;
            let m = index_after(g.pieces, piece, nx, ny);
            &&& 0 <= m < after.len()
            &&& after[m].can_en_passant == is_double_step(g.pieces[piece], ny)
            &&& after[m].just_moved == is_double_step(g.pieces[piece], ny)
            &&& after[m].has_moved
            &&& forall|j: int|
                0 <= j < after.len() && j != m ==> !(#[trigger] after[j]).can_en_passant
                    && !after[j].just_moved
        }),
{
    let ps = g.pieces;
    lemma_moved_position_flags(ps, piece, nx, ny, ps.len() as int);
    let between = pieces_after(ps, piece, nx, ny);
    let after = after_attempt(g, piece, nx, ny).pieces;
    let m = index_after(ps, piece, nx, ny);
    assert forall|j: int| 0 <= j < after.len() && j != m implies !(#[trigger] after[j]).can_en_passant
        && !after[j].just_moved by {
        assert(after[j] == between[j]);
    }
}

/// A move takes no square away from the piece that makes it.
pub proof fn lemma_mover_keeps_its_squares(p: PieceView, nx: int, ny: int, ps: Seq<PieceView>)
    ensures
        p.footprint.subset_of(mover_after(p, nx, ny, ps).footprint),
        p.footprint.subset_of(promoted(mover_after(p, nx, ny, ps)).footprint),
{
}

/// On a sliding move no square of the piece meets anything on its way: the
/// path of each square, from where it stands to where it lands, is clear of
/// the other pieces.
pub proof fn lemma_sliding_move_has_clear_paths(
    p: PieceView,
    dx: int,
    dy: int,
    others: Seq<PieceView>,
    o: (int, int),
)
    requires
        ray_ok(p, dx, dy, others),
        is_aligned(dx, dy),
        p.footprint.contains(o),
    ensures
        path_clear(others, p.x + o.0, p.y + o.1, p.x + o.0 + dx, p.y + o.1 + dy),
{
    let fx = p.x + o.0;
    let fy = p.y + o.1;
    assert(fx + dx - fx == dx && fy + dy - fy == dy);
    assert forall|k: int| 1 <= k < reach(dx, dy) implies !#[trigger] way_held_at(
        others,
        fx,
        fy,
        dx,
        dy,
        k,
    ) by {
        assert(way_clear_at(p, dx, dy, k, others));
    }
}

/// In a game that is not over, the side to move is mated exactly if the game
/// accepts no move, whichever piece and square are tried.
pub proof fn lemma_mate_means_no_accepted_move(g: GameView)
    requires
        g.mated is None,
    ensures
        in_checkmate(g.turn, g.pieces) <==> forall|piece: int, nx: int, ny: int|
            !#[trigger] accepts(g, piece, nx, ny),
{
    if in_checkmate(g.turn, g.pieces) {
        assert forall|piece: int, nx: int, ny: int| !#[trigger] accepts(g, piece, nx, ny) by {
            if accepts(g, piece, nx, ny) {
                assert(playable(g.pieces[piece], nx, ny, g.pieces));
            }
        }
    }
    if forall|piece: int, nx: int, ny: int| !#[trigger] accepts(g, piece, nx, ny) {
        assert forall|i: int, nx: int, ny: int|
            0 <= i < g.pieces.len() && g.pieces[i].colour == g.turn implies !#[trigger] playable(
            g.pieces[i],
            nx,
            ny,
            g.pieces,
        ) by {
            assert(!accepts(g, i, nx, ny));
        }
    }
}

/// How often a piece occurs after `p` has gone to `(nx, ny)`: `p` set down
/// there as often as `p` occurred, and any other piece as often as before
/// unless it covered that square.
pub proof fn lemma_after_move_counts(s: Seq<PieceView>, p: PieceView, nx: int, ny: int)
    ensures
        forall|q: PieceView|
            #[trigger] after_move(s, p, nx, ny).to_multiset().count(q) == (if q == p.moved_to(
                nx,
                ny,
            ) {
                s.to_multiset().count(p)
            } else {
                0nat
            }) + (if q != p && !q.occupies(nx, ny) {
                s.to_multiset().count(q)
            } else {
                0nat
            }),
    decreases s.len(),
{
    if s.len() == 0 {
        assert(after_move(s, p, nx, ny) =~= Seq::<PieceView>::empty());
        assert forall|q: PieceView|
            #[trigger] after_move(s, p, nx, ny).to_multiset().count(q) == (if q == p.moved_to(
                nx,
                ny,
            ) {
                s.to_multiset().count(p)
            } else {
                0nat
            }) + (if q != p && !q.occupies(nx, ny) {
                s.to_multiset().count(q)
            } else {
                0nat
            }) by {
            to_multiset_contains(s, q);
            to_multiset_contains(s, p);
            to_multiset_contains(after_move(s, p, nx, ny), q);
            assert(!s.contains(q) && !s.contains(p));
            assert(!after_move(s, p, nx, ny).contains(q));
        }
    } else {
        let front = s.drop_last();
        lemma_after_move_counts(front, p, nx, ny);
        assert(s =~= front.push(s.last()));
        to_multiset_build(front, s.last());
        if s.last() == p {
            to_multiset_build(after_move(front, p, nx, ny), p.moved_to(nx, ny));
        } else if !s.last().occupies(nx, ny) {
            to_multiset_build(after_move(front, p, nx, ny), s.last());
        }
    }
}

/// Trying a move on two lists of the same pieces gives lists of the same
/// pieces.
pub proof fn lemma_after_move_rearranged(
    a: Seq<PieceView>,
    b: Seq<PieceView>,
    p: PieceView,
    nx: int,
    ny: int,
)
    requires
        rearranged(a, b),
    ensures
        rearranged(after_move(a, p, nx, ny), after_move(b, p, nx, ny)),
{
    lemma_after_move_counts(a, p, nx, ny);
    lemma_after_move_counts(b, p, nx, ny);
    assert(after_move(a, p, nx, ny).to_multiset() =~= after_move(b, p, nx, ny).to_multiset());
}

/// Whether a move may be played does not depend on the order in which the
/// pieces of the board are listed.
pub proof fn lemma_playable_rearranged(
    p: PieceView,
    nx: int,
    ny: int,
    a: Seq<PieceView>,
    b: Seq<PieceView>,
)
    requires
        rearranged(a, b),
    ensures
        playable(p, nx, ny, a) == playable(p, nx, ny, b),
{
    lemma_move_valid_rearranged(p, nx, ny, a, b);
    lemma_after_move_rearranged(a, b, p, nx, ny);
    lemma_in_check_rearranged(p.colour, after_move(a, p, nx, ny), after_move(b, p, nx, ny));
}

/// Whether a side is mated does not depend on the order in which the pieces
/// of the board are listed.
pub proof fn lemma_checkmate_rearranged(c: PieceColour, a: Seq<PieceView>, b: Seq<PieceView>)
    requires
        rearranged(a, b),
    ensures
        in_checkmate(c, a) == in_checkmate(c, b),
{
    lemma_rearranged_members(a, b);
    if in_checkmate(c, a) {
        assert forall|i: int, nx: int, ny: int|
            0 <= i < b.len() && b[i].colour == c implies !#[trigger] playable(b[i], nx, ny, b) by {
            assert(b.contains(b[i]));
            let j = choose|j: int| 0 <= j < a.len() && a[j] == b[i];
            assert(!playable(a[j], nx, ny, a));
            lemma_playable_rearranged(b[i], nx, ny, a, b);
        }
    }
    if in_checkmate(c, b) {
        assert forall|i: int, nx: int, ny: int|
            0 <= i < a.len() && a[i].colour == c implies !#[trigger] playable(a[i], nx, ny, a) by {
            assert(a.contains(a[i]));
            let j = choose|j: int| 0 <= j < b.len() && b[j] == a[i];
            assert(!playable(b[j], nx, ny, b));
            lemma_playable_rearranged(a[i], nx, ny, a, b);
        }
    }
}

} // verus!
