//! What a move does to the pieces: the mover is set down, what it takes goes
//! and is fused into it, a castling rook follows its king, and the flags of
//! the pawns' double step are set anew.

use crate::fusion::{fused, lemma_fused_stays_on_board};
use crate::layout::unmoved_are_single;
use crate::moves::{is_castle_rook, lemma_move_bounds, lemma_move_stays_on_board, stays_on_board};
use crate::oracle::{has_target, is_target, move_valid, without};
use crate::piece::{all_wf, board, on_board, Piece, PieceColour, PieceType, PieceView};
use vstd::prelude::*;

verus! {

/// Which way a king castles.
#[derive(Clone, Copy, PartialEq, Eq, Structural, Debug)]
pub enum CastleEvent {
    /// Towards column 0.
    Queenside(PieceColour),
    /// Towards column 7.
    Kingside(PieceColour),
}

/// The pawn `p` advances two rows by going to row `ny`.
pub open spec fn is_double_step(p: PieceView, ny: int) -> bool {
    p.piece_type == PieceType::Pawn && (ny - p.y == 2 || ny - p.y == -2)
}

/// The king `p` castles by going to column `nx`.
pub open spec fn is_castling(p: PieceView, nx: int) -> bool {
    p.piece_type == PieceType::King && (nx - p.x == 2 || nx - p.x == -2)
}

/// The castling that `p` performs by going to column `nx`, if it is one.
pub open spec fn castling_of(p: PieceView, nx: int) -> Option<CastleEvent> {
    if !is_castling(p, nx) {
        None
    } else if nx < p.x {
        Some(CastleEvent::Queenside(p.colour))
    } else {
        Some(CastleEvent::Kingside(p.colour))
    }
}

/// The side of a castling: `-1` towards column 0, `1` towards column 7.
pub open spec fn side_of(c: CastleEvent) -> int {
    match c {
        CastleEvent::Queenside(_) => -1,
        CastleEvent::Kingside(_) => 1,
    }
}

/// The colour that castles.
pub open spec fn colour_of(c: CastleEvent) -> PieceColour {
    match c {
        CastleEvent::Queenside(colour) => colour,
        CastleEvent::Kingside(colour) => colour,
    }
}

/// The column on which the rook stands after the castling.
pub open spec fn rook_column(c: CastleEvent) -> int {
    match c {
        CastleEvent::Queenside(_) => 2,
        CastleEvent::Kingside(_) => 4,
    }
}

/// The rook `q` follows the castling `c`.
pub open spec fn follows_castle(q: PieceView, c: Option<CastleEvent>) -> bool {
    c is Some && is_castle_rook(q, colour_of(c->0), side_of(c->0))
}

/// A rook after the castling `c`: on its new column, and moved.
pub open spec fn castled_rook(q: PieceView, c: CastleEvent) -> PieceView {
    PieceView { x: rook_column(c), has_moved: true, ..q }
}

/// The rook that follows the castling `c` is set on its new column, any other
/// piece is left as it is.
pub open spec fn after_castle(q: PieceView, c: Option<CastleEvent>) -> PieceView {
    if follows_castle(q, c) {
        castled_rook(q, c->0)
    } else {
        q
    }
}

/// A piece whose double-step flags are lowered.
pub open spec fn flags_cleared(q: PieceView) -> PieceView {
    PieceView { just_moved: false, can_en_passant: false, ..q }
}

/// The piece `p` once it has gone to `(nx, ny)` on the board `ps`: fused with
/// what it took, marked as moved, and flagged if it is a pawn that advanced
/// two rows.
pub open spec fn mover_after(p: PieceView, nx: int, ny: int, ps: Seq<PieceView>) -> PieceView {
    PieceView {
        x: nx,
        y: ny,
        footprint: if has_target(p, nx, ny, ps) {
            fused(p.footprint, nx - p.x, ny - p.y)
        } else {
            p.footprint
        },
        has_moved: true,
        just_moved: is_double_step(p, ny),
        can_en_passant: is_double_step(p, ny),
        ..p
    }
}

/// A piece `q` that stays on the board while `p` goes to column `nx`.
pub open spec fn bystander_after(q: PieceView, p: PieceView, nx: int) -> PieceView {
    flags_cleared(after_castle(q, castling_of(p, nx)))
}

/// The first `k` pieces of `ps` after the piece at index `i` has gone to
/// `(nx, ny)`: those it takes are gone, the others keep their order.
pub open spec fn moved_position(ps: Seq<PieceView>, i: int, nx: int, ny: int, k: int) -> Seq<
    PieceView,
>
    decreases k,
{
    if k <= 0 {
        Seq::empty()
    } else if k - 1 == i {
        moved_position(ps, i, nx, ny, k - 1).push(mover_after(ps[i], nx, ny, ps))
    } else if is_target(ps[k - 1], ps[i], nx, ny) {
        moved_position(ps, i, nx, ny, k - 1)
    } else {
        moved_position(ps, i, nx, ny, k - 1).push(bystander_after(ps[k - 1], ps[i], nx))
    }
}

/// The row on which a pawn of colour `c` is promoted.
pub open spec fn far_row(c: PieceColour) -> int {
    match c {
        PieceColour::White => 7,
        PieceColour::Black => 0,
    }
}

/// A pawn that covers a square of its far row becomes a queen; nothing else
/// changes.
pub open spec fn promoted(p: PieceView) -> PieceView {
    if p.piece_type == PieceType::Pawn && p.occupies_row(far_row(p.colour)) {
        PieceView { piece_type: PieceType::Queen, ..p }
    } else {
        p
    }
}

/// A move that the rules admit keeps the mover on the board, fused or not.
pub proof fn lemma_mover_after_wf(p: PieceView, nx: int, ny: int, ps: Seq<PieceView>)
    requires
        p.wf(),
        move_valid(p, nx, ny, ps),
    ensures
        mover_after(p, nx, ny, ps).wf(),
        !(nx == p.x && ny == p.y),
        on_board(nx, ny),
{
    let others = without(ps, p);
    lemma_move_bounds(p, nx - p.x, ny - p.y, others);
    lemma_move_stays_on_board(p, nx - p.x, ny - p.y, others);
    lemma_fused_stays_on_board(p, nx - p.x, ny - p.y);
    assert(p.footprint.contains((0, 0)));
    assert(stays_on_board(p, nx - p.x, ny - p.y));
    let m = mover_after(p, nx, ny, ps);
    if !has_target(p, nx, ny, ps) {
        assert forall|o: (int, int)| #[trigger] m.footprint.contains(o) implies on_board(
            m.x + o.0,
            m.y + o.1,
        ) by {
            assert(on_board(p.x + o.0 + (nx - p.x), p.y + o.1 + (ny - p.y)));
        }
    } else {
        assert(m.footprint == fused(p.footprint, nx - p.x, ny - p.y));
        assert(m.x == p.x + (nx - p.x) && m.y == p.y + (ny - p.y));
    }
}

impl Piece {
    /// Lowers the flags of the double step.
    pub fn clear_flags(&mut self)
        ensures
            final(self)@ == flags_cleared(old(self)@),
            final(self).squares_occupied@ == old(self).squares_occupied@,
    {
        self.just_moved = false;
        self.can_en_passant = false;
    }

    /// Whether this is a pawn that covers a square of its far row.
    pub fn promotion_due(&self) -> (r: bool)
        ensures
            r == (promoted(self@) != self@),
    {
        let row: u8 = match self.colour {
            PieceColour::White => 7,
            PieceColour::Black => 0,
        };
        self.piece_type == PieceType::Pawn && self.occupies_row(row)
    }

    /// Makes a queen of a pawn that covers a square of its far row.
    pub fn promote(&mut self)
        ensures
            final(self)@ == promoted(old(self)@),
            final(self).squares_occupied@ == old(self).squares_occupied@,
    {
        if self.promotion_due() {
            self.piece_type = PieceType::Queen;
        }
    }

    /// Sets the rook on the column where the castling `event` puts it, if it
    /// is the rook of that castling: of that colour, not moved yet and on the
    /// outer column of that side.
    pub fn follow_castle(&mut self, event: &CastleEvent)
        ensures
            final(self)@ == after_castle(old(self)@, Some(*event)),
            final(self).squares_occupied@ == old(self).squares_occupied@,
    {
        let (colour, from, to): (PieceColour, u8, u8) = match event {
            CastleEvent::Queenside(c) => (*c, 0, 2),
            CastleEvent::Kingside(c) => (*c, 7, 4),
        };
        if self.colour == colour && self.piece_type == PieceType::Rook && !self.has_moved && self.x
            == from {
            self.x = to;
            self.has_moved = true;
        }
    }
}

/// Sets the rook of the castling `event` on its new column and marks it as
/// moved. No other piece changes.
pub fn castle(event: &CastleEvent, pieces: &mut Vec<Piece>)
    ensures
        final(pieces)@.len() == old(pieces)@.len(),
        forall|i: int|
            0 <= i < old(pieces)@.len() ==> (#[trigger] final(pieces)@[i])@ == after_castle(
                old(pieces)@[i]@,
                Some(*event),
            ),
{
    let ghost before = pieces@;
    let mut i: usize = 0;
    while i < pieces.len()
        invariant
            i <= pieces.len(),
            pieces@.len() == before.len(),
            forall|j: int|
                0 <= j < i ==> (#[trigger] pieces@[j])@ == after_castle(before[j]@, Some(*event)),
            forall|j: int| i <= j < before.len() ==> (#[trigger] pieces@[j])@ == before[j]@,
        decreases pieces.len() - i,
    {
        let mut q = pieces[i].clone();
        q.follow_castle(event);
        pieces.set(i, q);
        i += 1;
    }
}

/// Lowers the flags of the double step on every piece but the one at index
/// `mover`.
pub fn disable_en_passant(pieces: &mut Vec<Piece>, mover: usize)
    ensures
        final(pieces)@.len() == old(pieces)@.len(),
        forall|i: int|
            0 <= i < old(pieces)@.len() ==> (#[trigger] final(pieces)@[i])@ == (if i == mover {
                old(pieces)@[i]@
            } else {
                flags_cleared(old(pieces)@[i]@)
            }),
{
    let ghost before = pieces@;
    let mut i: usize = 0;
    while i < pieces.len()
        invariant
            i <= pieces.len(),
            pieces@.len() == before.len(),
            forall|j: int|
                0 <= j < i ==> (#[trigger] pieces@[j])@ == (if j == mover {
                    before[j]@
                } else {
                    flags_cleared(before[j]@)
                }),
            forall|j: int| i <= j < before.len() ==> (#[trigger] pieces@[j])@ == before[j]@,
        decreases pieces.len() - i,
    {
        if i != mover {
            let mut q = pieces[i].clone();
            q.clear_flags();
            pieces.set(i, q);
        }
        i += 1;
    }
}

/// Makes a queen of every pawn that covers a square of its far row.
pub fn promote_pawns(pieces: &mut Vec<Piece>)
    ensures
        final(pieces)@.len() == old(pieces)@.len(),
        forall|i: int|
            0 <= i < old(pieces)@.len() ==> (#[trigger] final(pieces)@[i])@ == promoted(
                old(pieces)@[i]@,
            ),
{
    let ghost before = pieces@;
    let mut i: usize = 0;
    while i < pieces.len()
        invariant
            i <= pieces.len(),
            pieces@.len() == before.len(),
            forall|j: int| 0 <= j < i ==> (#[trigger] pieces@[j])@ == promoted(before[j]@),
            forall|j: int| i <= j < before.len() ==> (#[trigger] pieces@[j])@ == before[j]@,
        decreases pieces.len() - i,
    {
        if pieces[i].promotion_due() {
            let mut q = pieces[i].clone();
            q.promote();
            pieces.set(i, q);
        }
        i += 1;
    }
}

/// The pieces after the piece at index `piece` has gone to `destination`, and
/// the index at which that piece then stands. The move must be one that the
/// rules of movement admit.
pub fn apply_move(pieces: &Vec<Piece>, piece: usize, destination: (u8, u8)) -> (r: (
    Vec<Piece>,
    usize,
))
    requires
        all_wf(pieces@),
        unmoved_are_single(pieces@),
        piece < pieces.len(),
        move_valid(
            pieces@[piece as int]@,
            destination.0 as int,
            destination.1 as int,
            board(pieces@),
        ),
    ensures
        board(r.0@) == moved_position(
            board(pieces@),
            piece as int,
            destination.0 as int,
            destination.1 as int,
            pieces@.len() as int,
        ),
        r.1 == moved_position(
            board(pieces@),
            piece as int,
            destination.0 as int,
            destination.1 as int,
            piece as int,
        ).len(),
        r.1 < r.0@.len(),
        r.0@[r.1 as int]@ == mover_after(
            pieces@[piece as int]@,
            destination.0 as int,
            destination.1 as int,
            board(pieces@),
        ),
        all_wf(r.0@),
        unmoved_are_single(r.0@),
{
    let ghost ps = board(pieces@);
    let ghost nx = destination.0 as int;
    let ghost ny = destination.1 as int;
    let p = &pieces[piece];
    proof {
        lemma_mover_after_wf(p@, nx, ny, ps);
    }
    let dx: i16 = destination.0 as i16 - p.x as i16;
    let dy: i16 = destination.1 as i16 - p.y as i16;
    let castling: Option<CastleEvent> = if p.piece_type == PieceType::King && (dx == 2 || dx == -2) {
        if dx < 0 {
            Some(CastleEvent::Queenside(p.colour))
        } else {
            Some(CastleEvent::Kingside(p.colour))
        }
    } else {
        None
    };
    let double = p.piece_type == PieceType::Pawn && (dy == 2 || dy == -2);
    let mut mover = p.clone();
    if p.takes_at(destination.0 as i16, destination.1 as i16, pieces) {
        mover.consume_piece(destination.0, destination.1);
    }
    mover.x = destination.0;
    mover.y = destination.1;
    mover.has_moved = true;
    mover.just_moved = double;
    mover.can_en_passant = double;
    assert(mover@ == mover_after(p@, nx, ny, ps));
    assert(mover.wf());

    let mut out: Vec<Piece> = Vec::new();
    let mut idx: usize = 0;
    let mut k: usize = 0;
    while k < pieces.len()
        invariant
            k <= pieces.len(),
            piece < pieces.len(),
            ps == board(pieces@),
            nx == destination.0,
            ny == destination.1,
            p == pieces@[piece as int],
            all_wf(pieces@),
            unmoved_are_single(pieces@),
            castling == castling_of(p@, nx),
            mover@ == mover_after(p@, nx, ny, ps),
            mover.wf(),
            mover.has_moved,
            out@.len() <= k,
            board(out@) == moved_position(ps, piece as int, nx, ny, k as int),
            all_wf(out@),
            unmoved_are_single(out@),
            k > piece ==> idx < out@.len() && out@[idx as int]@ == mover@ && idx == moved_position(
                ps,
                piece as int,
                nx,
                ny,
                piece as int,
            ).len(),
        decreases pieces.len() - k,
    {
        let ghost before = out@;
        proof {
            assert(ps[k as int] == pieces@[k as int]@);
            assert(pieces@[k as int].wf());
        }
        if k == piece {
            idx = out.len();
            let m = mover.clone();
            out.push(m);
            proof {
                assert(forall|j: int| 0 <= j < before.len() ==> out@[j] == before[j]);
                assert(board(out@) =~= board(before).push(mover@));
            }
        } else if !p.takes(&pieces[k], destination.0 as i16, destination.1 as i16) {
            let mut q = pieces[k].clone();
            match castling {
                Some(event) => {
                    q.follow_castle(&event);
                },
                None => {},
            }
            q.clear_flags();
            proof {
                let q0 = pieces@[k as int];
                assert(q@ == bystander_after(q0@, p@, nx));
                assert(q.squares_occupied@ == q0.squares_occupied@);
                if follows_castle(q0@, castling) {
                    assert(q0@.footprint == set![(0int, 0int)]);
                    assert(q0@.footprint.contains((0, 0)));
                    assert(on_board(q0@.x + 0, q0@.y + 0));
                }
                assert(q.wf());
            }
            out.push(q);
            proof {
                assert(forall|j: int| 0 <= j < before.len() ==> out@[j] == before[j]);
                assert(board(out@) =~= board(before).push(q@));
            }
        }
        k += 1;
    }
    (out, idx)
}

} // verus!
