//! The thirty-two pieces as they stand when a game begins.

use crate::piece::{all_wf, board, Piece, PieceColour, PieceType, PieceView};
use vstd::prelude::*;

verus! {

/// A piece that has not moved, on `(x, y)`.
pub open spec fn start(piece_type: PieceType, colour: PieceColour, x: int, y: int) -> PieceView {
    PieceView::fresh(piece_type, colour, x, y)
}

/// The pieces at the start of a game: kings on column 3, queens on column 4,
/// White on rows 0 and 1, Black on rows 7 and 6.
pub open spec fn standard_layout() -> Seq<PieceView> {
    seq![
        start(PieceType::King, PieceColour::White, 3, 0),
        start(PieceType::King, PieceColour::Black, 3, 7),
        start(PieceType::Queen, PieceColour::White, 4, 0),
        start(PieceType::Queen, PieceColour::Black, 4, 7),
        start(PieceType::Rook, PieceColour::White, 0, 0),
        start(PieceType::Rook, PieceColour::White, 7, 0),
        start(PieceType::Rook, PieceColour::Black, 0, 7),
        start(PieceType::Rook, PieceColour::Black, 7, 7),
        start(PieceType::Knight, PieceColour::White, 1, 0),
        start(PieceType::Knight, PieceColour::White, 6, 0),
        start(PieceType::Knight, PieceColour::Black, 1, 7),
        start(PieceType::Knight, PieceColour::Black, 6, 7),
        start(PieceType::Bishop, PieceColour::White, 2, 0),
        start(PieceType::Bishop, PieceColour::White, 5, 0),
        start(PieceType::Bishop, PieceColour::Black, 2, 7),
        start(PieceType::Bishop, PieceColour::Black, 5, 7),
        start(PieceType::Pawn, PieceColour::White, 0, 1),
        start(PieceType::Pawn, PieceColour::White, 1, 1),
        start(PieceType::Pawn, PieceColour::White, 2, 1),
        start(PieceType::Pawn, PieceColour::White, 3, 1),
        start(PieceType::Pawn, PieceColour::White, 4, 1),
        start(PieceType::Pawn, PieceColour::White, 5, 1),
        start(PieceType::Pawn, PieceColour::White, 6, 1),
        start(PieceType::Pawn, PieceColour::White, 7, 1),
        start(PieceType::Pawn, PieceColour::Black, 0, 6),
        start(PieceType::Pawn, PieceColour::Black, 1, 6),
        start(PieceType::Pawn, PieceColour::Black, 2, 6),
        start(PieceType::Pawn, PieceColour::Black, 3, 6),
        start(PieceType::Pawn, PieceColour::Black, 4, 6),
        start(PieceType::Pawn, PieceColour::Black, 5, 6),
        start(PieceType::Pawn, PieceColour::Black, 6, 6),
        start(PieceType::Pawn, PieceColour::Black, 7, 6),
    ]
}

/// Every piece of `pieces` that has not moved covers its anchor square alone.
pub open spec fn unmoved_are_single(pieces: Seq<Piece>) -> bool {
    forall|i: int|
        0 <= i < pieces.len() && !(#[trigger] pieces[i]).has_moved ==> pieces[i]@.footprint
            == set![(0int, 0int)]
}

/// Adds to `pieces` a piece that has not moved.
fn spawn_piece(pieces: &mut Vec<Piece>, piece_type: PieceType, colour: PieceColour, x: u8, y: u8)
    requires
        x <= 7,
        y <= 7,
        all_wf(old(pieces)@),
        unmoved_are_single(old(pieces)@),
    ensures
        board(final(pieces)@) == board(old(pieces)@).push(start(piece_type, colour, x as int, y as int)),
        all_wf(final(pieces)@),
        unmoved_are_single(final(pieces)@),
{
    let ghost before = pieces@;
    let p = Piece::new(piece_type, colour, x, y);
    pieces.push(p);
    proof {
        assert(forall|i: int| 0 <= i < before.len() ==> pieces@[i] == before[i]);
        assert(board(pieces@) =~= board(before).push(start(piece_type, colour, x as int, y as int)));
    }
}

/// The pieces of a new game, in the order of [`standard_layout`].
pub fn create_pieces() -> (pieces: Vec<Piece>)
    ensures
        board(pieces@) == standard_layout(),
        all_wf(pieces@),
        unmoved_are_single(pieces@),
{
    let mut pieces: Vec<Piece> = Vec::new();
    assert(board(pieces@) =~= Seq::empty());
    spawn_piece(&mut pieces, PieceType::King, PieceColour::White, 3, 0);
    spawn_piece(&mut pieces, PieceType::King, PieceColour::Black, 3, 7);
    spawn_piece(&mut pieces, PieceType::Queen, PieceColour::White, 4, 0);
    spawn_piece(&mut pieces, PieceType::Queen, PieceColour::Black, 4, 7);
    spawn_piece(&mut pieces, PieceType::Rook, PieceColour::White, 0, 0);
    spawn_piece(&mut pieces, PieceType::Rook, PieceColour::White, 7, 0);
    spawn_piece(&mut pieces, PieceType::Rook, PieceColour::Black, 0, 7);
    spawn_piece(&mut pieces, PieceType::Rook, PieceColour::Black, 7, 7);
    spawn_piece(&mut pieces, PieceType::Knight, PieceColour::White, 1, 0);
    spawn_piece(&mut pieces, PieceType::Knight, PieceColour::White, 6, 0);
    spawn_piece(&mut pieces, PieceType::Knight, PieceColour::Black, 1, 7);
    spawn_piece(&mut pieces, PieceType::Knight, PieceColour::Black, 6, 7);
    spawn_piece(&mut pieces, PieceType::Bishop, PieceColour::White, 2, 0);
    spawn_piece(&mut pieces, PieceType::Bishop, PieceColour::White, 5, 0);
    spawn_piece(&mut pieces, PieceType::Bishop, PieceColour::Black, 2, 7);
    spawn_piece(&mut pieces, PieceType::Bishop, PieceColour::Black, 5, 7);
    let mut x: u8 = 0;
    while x < 8
        invariant
            x <= 8,
            all_wf(pieces@),
            unmoved_are_single(pieces@),
            board(pieces@) == standard_layout().take(16 + x),
        decreases 8 - x,
    {
        spawn_piece(&mut pieces, PieceType::Pawn, PieceColour::White, x, 1);
        assert(board(pieces@) =~= standard_layout().take(16 + x + 1));
        x += 1;
    }
    let mut x: u8 = 0;
    while x < 8
        invariant
            x <= 8,
            all_wf(pieces@),
            unmoved_are_single(pieces@),
            board(pieces@) == standard_layout().take(24 + x),
        decreases 8 - x,
    {
        spawn_piece(&mut pieces, PieceType::Pawn, PieceColour::Black, x, 6);
        assert(board(pieces@) =~= standard_layout().take(24 + x + 1));
        x += 1;
    }
    assert(standard_layout().take(32) =~= standard_layout());
    pieces
}

} // verus!
