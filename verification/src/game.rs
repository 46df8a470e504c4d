//! The game: whose turn it is, what is selected, and what an attempted move
//! does.

use crate::applier::{
    apply_move, castling_of, mover_after, moved_position, promoted, CastleEvent,
};
use crate::layout::{create_pieces, standard_layout, unmoved_are_single};
use crate::oracle::{
    after_move, has_target, in_check, in_checkmate, is_colour_in_check, is_colour_in_checkmate,
    is_target, move_valid, playable, position_after,
};
use crate::piece::{all_wf, board, Piece, PieceColour, PieceType, PieceView};
use vstd::prelude::*;

verus! {

/// A side has been mated.
#[derive(Clone, Copy, PartialEq, Eq, Structural, Debug)]
pub struct CheckmateEvent(pub PieceColour);

/// A piece has been taken and is to leave the board; it is named by the
/// index that it had before the move.
#[derive(Clone, Copy, PartialEq, Eq, Structural, Debug)]
pub struct ConsumeEvent {
    pub piece: usize,
}

/// The side to move.
#[derive(Clone, Copy, PartialEq, Eq, Structural, Debug)]
pub struct PlayerTurn(pub PieceColour);

impl Default for PlayerTurn {
    fn default() -> (r: PlayerTurn)
        ensures
            r == PlayerTurn(PieceColour::White),
    {
        PlayerTurn(PieceColour::White)
    }
}

/// A square of the board.
#[derive(Clone, Copy, PartialEq, Eq, Structural, Debug)]
pub struct Square {
    pub x: u8,
    pub y: u8,
}

impl Square {
    /// Whether the square is a light one: the sum of its coordinates is even.
    pub fn is_white(&self) -> (r: bool)
        ensures
            r == ((self.x + self.y) % 2 == 0),
    {
        (self.x as u16 + self.y as u16) % 2 == 0
    }
}

/// The square that was clicked last, if it is still selected.
#[derive(Clone, Copy, PartialEq, Eq, Structural, Debug)]
pub struct SelectedSquare {
    pub square: Option<Square>,
}

/// The index of the piece that is selected, if one is.
#[derive(Clone, Copy, PartialEq, Eq, Structural, Debug)]
pub struct SelectedPiece {
    pub piece: Option<usize>,
}

/// How an attempted move ended.
#[derive(Clone, Copy, PartialEq, Eq, Structural, Debug)]
pub enum MoveOutcome {
    /// The move was not made and nothing changed.
    Rejected,
    /// The piece moved and took nothing.
    Moved,
    /// The piece moved and took at least one piece.
    MovedWithCapture,
    /// The king castled.
    Castled(CastleEvent),
    /// The move was made and the side now to move is mated.
    Checkmate(PieceColour),
}

/// Why a move is not accepted.
#[derive(Clone, Copy, PartialEq, Eq, Structural, Debug)]
pub enum Rejection {
    /// A side is mated; the game is over.
    GameOver,
    /// There is no piece with that index.
    NoPieceSelected,
    /// The piece belongs to the side that is not to move.
    WrongTurn,
    /// The rules of movement do not let the piece go there.
    GeometricallyIllegal,
    /// The move would leave the mover's own king in check.
    LeavesKingInCheck,
}

/// Where the game stands.
#[derive(Clone, Copy, PartialEq, Eq, Structural, Debug)]
pub enum GameState {
    WhiteToMove,
    BlackToMove,
    /// The side given is mated; no move is accepted any more.
    Checkmate(PieceColour),
}

/// What a game is, mathematically.
pub struct GameView {
    pub pieces: Seq<PieceView>,
    pub turn: PieceColour,
    pub mated: Option<PieceColour>,
    pub selected_piece: Option<usize>,
    pub selected_square: Option<Square>,
}

/// The game accepts the move of the piece at index `piece` to `(nx, ny)`:
/// nobody is mated, the piece exists and belongs to the side to move, and the
/// move may be played.
pub open spec fn accepts(g: GameView, piece: int, nx: int, ny: int) -> bool {
    &&& g.mated is None
    &&& 0 <= piece < g.pieces.len()
    &&& g.pieces[piece].colour == g.turn
    &&& playable(g.pieces[piece], nx, ny, g.pieces)
}

/// Why the game does not accept the move of the piece at index `piece` to
/// `(nx, ny)`, or nothing if it does. The first reason that holds is given, in
/// the order of the variants.
pub open spec fn rejection_of(g: GameView, piece: int, nx: int, ny: int) -> Option<Rejection> {
    if g.mated is Some {
        Some(Rejection::GameOver)
    } else if !(0 <= piece < g.pieces.len()) {
        Some(Rejection::NoPieceSelected)
    } else if g.pieces[piece].colour != g.turn {
        Some(Rejection::WrongTurn)
    } else if !move_valid(g.pieces[piece], nx, ny, g.pieces) {
        Some(Rejection::GeometricallyIllegal)
    } else if in_check(g.turn, after_move(g.pieces, g.pieces[piece], nx, ny)) {
        Some(Rejection::LeavesKingInCheck)
    } else {
        None
    }
}

/// The pieces once the piece at index `i` has gone to `(nx, ny)`, before a
/// pawn is promoted.
pub open spec fn pieces_after(ps: Seq<PieceView>, i: int, nx: int, ny: int) -> Seq<PieceView> {
    moved_position(ps, i, nx, ny, ps.len() as int)
}

/// The index at which the piece that moved stands afterwards: that of before,
/// less the pieces before it that it took.
pub open spec fn index_after(ps: Seq<PieceView>, i: int, nx: int, ny: int) -> int {
    moved_position(ps, i, nx, ny, i).len() as int
}

/// The game after an accepted move: the pieces have changed, the mover is
/// promoted if it is a pawn on its far row, the turn has passed, the side now
/// to move is mated or not, and nothing is selected. Mate is judged before
/// the promotion.
pub open spec fn after_attempt(g: GameView, piece: int, nx: int, ny: int) -> GameView {
    let between = pieces_after(g.pieces, piece, nx, ny);
    let next = g.turn.spec_opposite();
    GameView {
        pieces: between.update(
            index_after(g.pieces, piece, nx, ny),
            promoted(mover_after(g.pieces[piece], nx, ny, g.pieces)),
        ),
        turn: next,
        mated: if in_checkmate(next, between) {
            Some(next)
        } else {
            None
        },
        selected_piece: None,
        selected_square: None,
    }
}

/// What an accepted move reports: mate before castling, castling before a
/// capture.
pub open spec fn outcome_of(g: GameView, piece: int, nx: int, ny: int) -> MoveOutcome {
    let p = g.pieces[piece];
    let next = g.turn.spec_opposite();
    if in_checkmate(next, pieces_after(g.pieces, piece, nx, ny)) {
        MoveOutcome::Checkmate(next)
    } else if castling_of(p, nx) is Some {
        MoveOutcome::Castled(castling_of(p, nx)->0)
    } else if has_target(p, nx, ny, g.pieces) {
        MoveOutcome::MovedWithCapture
    } else {
        MoveOutcome::Moved
    }
}

/// The last piece of colour `c` in `ps` that covers `(sx, sy)`, by its index.
pub open spec fn pick(ps: Seq<PieceView>, c: PieceColour, sx: int, sy: int) -> Option<usize>
    decreases ps.len(),
{
    if ps.len() == 0 {
        None
    } else if ps.last().colour == c && ps.last().occupies(sx, sy) {
        Some((ps.len() - 1) as usize)
    } else {
        pick(ps.drop_last(), c, sx, sy)
    }
}

/// The game after a click on `square`: the selected piece goes there if the
/// game accepts that; if not, the square is selected, and with it the piece of
/// the side to move that covers it, if there is one.
pub open spec fn after_click(g: GameView, square: Square) -> GameView {
    if g.selected_piece is Some && accepts(
        g,
        g.selected_piece->0 as int,
        square.x as int,
        square.y as int,
    ) {
        after_attempt(g, g.selected_piece->0 as int, square.x as int, square.y as int)
    } else {
        GameView {
            selected_square: Some(square),
            selected_piece: pick(g.pieces, g.turn, square.x as int, square.y as int),
            ..g
        }
    }
}

/// The index of the last piece of colour `colour` that covers `square`.
pub fn pick_piece(pieces: &Vec<Piece>, colour: PieceColour, square: Square) -> (r: Option<usize>)
    ensures
        r == pick(board(pieces@), colour, square.x as int, square.y as int),
{
    let ghost ps = board(pieces@);
    let mut i: usize = pieces.len();
    proof {
        assert(ps.take(i as int) == ps);
    }
    while i > 0
        invariant
            i <= pieces.len(),
            ps == board(pieces@),
            pick(ps, colour, square.x as int, square.y as int) == pick(
                ps.take(i as int),
                colour,
                square.x as int,
                square.y as int,
            ),
        decreases i,
    {
        proof {
            assert(ps.take(i as int).drop_last() == ps.take(i - 1));
            assert(ps.take(i as int).last() == ps[i - 1]);
        }
        i -= 1;
        if pieces[i].colour == colour && pieces[i].occupies_square((square.x, square.y)) {
            return Some(i);
        }
    }
    None
}

/// How a square is to be shown.
#[derive(Clone, Copy, PartialEq, Eq, Structural, Debug)]
pub enum Highlight {
    /// The pointer is over the square, or the selected piece would cover it
    /// if it stood where the pointer is.
    Hovered,
    /// The square is the selected one.
    Selected,
    /// The selected piece covers the square.
    UnderSelectedPiece,
    /// A light square, not marked in any way.
    Light,
    /// A dark square, not marked in any way.
    Dark,
}

/// The piece that is selected, if the selection names a piece that exists.
pub open spec fn selected_of(g: GameView) -> Option<PieceView> {
    if g.selected_piece is Some && g.selected_piece->0 < g.pieces.len() {
        Some(g.pieces[g.selected_piece->0 as int])
    } else {
        None
    }
}

/// How `square` is to be shown while the pointer is over `hovered`: what lies
/// under the pointer comes first, then the selected square, then the squares
/// of the selected piece, then the plain colour of the square.
pub open spec fn highlight_of(g: GameView, square: Square, hovered: Option<Square>) -> Highlight {
    let under_pointer = hovered is Some && (match selected_of(g) {
        Some(p) => p.moved_to(hovered->0.x as int, hovered->0.y as int).occupies(
            square.x as int,
            square.y as int,
        ),
        None => hovered->0 == square,
    });
    if under_pointer {
        Highlight::Hovered
    } else if g.selected_square == Some(square) {
        Highlight::Selected
    } else if selected_of(g) is Some && selected_of(g)->0.occupies(square.x as int, square.y as int) {
        Highlight::UnderSelectedPiece
    } else if (square.x + square.y) % 2 == 0 {
        Highlight::Light
    } else {
        Highlight::Dark
    }
}

/// A game of the fusion variant.
pub struct Game {
    pieces: Vec<Piece>,
    turn: PlayerTurn,
    mated: Option<CheckmateEvent>,
    selected_square: SelectedSquare,
    selected_piece: SelectedPiece,
}

impl View for Game {
    type V = GameView;

    closed spec fn view(&self) -> GameView {
        GameView {
            pieces: board(self.pieces@),
            turn: self.turn.0,
            mated: match self.mated {
                Some(e) => Some(e.0),
                None => None,
            },
            selected_piece: self.selected_piece.piece,
            selected_square: self.selected_square.square,
        }
    }
}

impl Game {
    /// Every piece is well formed, and those that have not moved cover one
    /// square.
    pub closed spec fn inv(&self) -> bool {
        all_wf(self.pieces@) && unmoved_are_single(self.pieces@)
    }

    /// A new game: the standard layout, White to move, nothing selected.
    pub fn new_game() -> (g: Game)
        ensures
            g.inv(),
            g@ == (GameView {
                pieces: standard_layout(),
                turn: PieceColour::White,
                mated: None,
                selected_piece: None,
                selected_square: None,
            }),
    {
        Game {
            pieces: create_pieces(),
            turn: PlayerTurn(PieceColour::White),
            mated: None,
            selected_square: SelectedSquare { square: None },
            selected_piece: SelectedPiece { piece: None },
        }
    }

    /// A game that starts from `pieces` with `turn` to move, if every piece is
    /// well formed and those that have not moved cover one square. The side to
    /// move may be mated from the start.
    pub fn from_pieces(pieces: Vec<Piece>, turn: PieceColour) -> (r: Option<Game>)
        ensures
            r is Some <==> all_wf(pieces@) && unmoved_are_single(pieces@),
            r is Some ==> r->0.inv() && r->0@ == (GameView {
                pieces: board(pieces@),
                turn,
                mated: if in_checkmate(turn, board(pieces@)) {
                    Some(turn)
                } else {
                    None
                },
                selected_piece: None,
                selected_square: None,
            }),
    {
        let mut i: usize = 0;
        while i < pieces.len()
            invariant
                i <= pieces.len(),
                forall|j: int| 0 <= j < i ==> (#[trigger] pieces@[j]).wf(),
                forall|j: int|
                    0 <= j < i && !(#[trigger] pieces@[j]).has_moved ==> pieces@[j]@.footprint
                        == set![(0int, 0int)],
            decreases pieces.len() - i,
        {
            if !pieces[i].is_wf() {
                return None;
            }
            if !pieces[i].has_moved && !pieces[i].is_single() {
                return None;
            }
            i += 1;
        }
        let mated = if is_colour_in_checkmate(turn, &pieces) {
            Some(CheckmateEvent(turn))
        } else {
            None
        };
        Some(
            Game {
                pieces,
                turn: PlayerTurn(turn),
                mated,
                selected_square: SelectedSquare { square: None },
                selected_piece: SelectedPiece { piece: None },
            },
        )
    }

    /// The pieces on the board.
    pub fn pieces(&self) -> (r: &Vec<Piece>)
        requires
            self.inv(),
        ensures
            board(r@) == self@.pieces,
            all_wf(r@),
            unmoved_are_single(r@),
    {
        &self.pieces
    }

    /// The side to move.
    pub fn active_colour(&self) -> (r: PieceColour)
        ensures
            r == self@.turn,
    {
        self.turn.0
    }

    /// Where the game stands.
    pub fn state(&self) -> (r: GameState)
        ensures
            r == (match self@.mated {
                Some(c) => GameState::Checkmate(c),
                None => match self@.turn {
                    PieceColour::White => GameState::WhiteToMove,
                    PieceColour::Black => GameState::BlackToMove,
                },
            }),
    {
        match self.mated {
            Some(e) => GameState::Checkmate(e.0),
            None => match self.turn.0 {
                PieceColour::White => GameState::WhiteToMove,
                PieceColour::Black => GameState::BlackToMove,
            },
        }
    }

    /// The index of the selected piece.
    pub fn selected_piece(&self) -> (r: Option<usize>)
        ensures
            r == self@.selected_piece,
    {
        self.selected_piece.piece
    }

    /// The selected square.
    pub fn selected_square(&self) -> (r: Option<Square>)
        ensures
            r == self@.selected_square,
    {
        self.selected_square.square
    }

    /// The pieces that the piece at index `piece` takes by going to
    /// `destination`, in the order of the board: one event for each, and for
    /// no other piece.
    pub fn consumed_by(&self, piece: usize, destination: (u8, u8)) -> (r: Vec<ConsumeEvent>)
        ensures
            piece >= self@.pieces.len() ==> r@.len() == 0,
            forall|j: int|
                0 <= j < self@.pieces.len() && piece < self@.pieces.len() ==> (is_target(
                    #[trigger] self@.pieces[j],
                    self@.pieces[piece as int],
                    destination.0 as int,
                    destination.1 as int,
                ) <==> exists|k: int| 0 <= k < r@.len() && (#[trigger] r@[k]).piece == j),
            forall|k: int| 0 <= k < r@.len() ==> (#[trigger] r@[k]).piece < self@.pieces.len(),
            forall|k: int, m: int| 0 <= k < m < r@.len() ==> r@[k].piece < r@[m].piece,
    {
        let ghost ps = board(self.pieces@);
        let mut out: Vec<ConsumeEvent> = Vec::new();
        if piece >= self.pieces.len() {
            return out;
        }
        let mover = &self.pieces[piece];
        let mut j: usize = 0;
        while j < self.pieces.len()
            invariant
                j <= self.pieces.len(),
                piece < self.pieces.len(),
                ps == board(self.pieces@),
                mover == self.pieces@[piece as int],
                forall|i: int|
                    0 <= i < j ==> (is_target(
                        #[trigger] ps[i],
                        ps[piece as int],
                        destination.0 as int,
                        destination.1 as int,
                    ) <==> exists|k: int| 0 <= k < out@.len() && (#[trigger] out@[k]).piece == i),
                forall|k: int| 0 <= k < out@.len() ==> (#[trigger] out@[k]).piece < j,
                forall|k: int, m: int| 0 <= k < m < out@.len() ==> out@[k].piece < out@[m].piece,
            decreases self.pieces.len() - j,
        {
            let ghost before = out@;
            let taken = mover.takes(&self.pieces[j], destination.0 as i16, destination.1 as i16);
            if taken {
                out.push(ConsumeEvent { piece: j });
            }
            proof {
                assert(ps[j as int] == self.pieces@[j as int]@);
                assert forall|i: int| 0 <= i < j + 1 implies (is_target(
                    #[trigger] ps[i],
                    ps[piece as int],
                    destination.0 as int,
                    destination.1 as int,
                ) <==> exists|k: int| 0 <= k < out@.len() && (#[trigger] out@[k]).piece == i) by {
                    if i < j {
                        if exists|k: int| 0 <= k < before.len() && (#[trigger] before[k]).piece == i {
                            let k = choose|k: int|
                                0 <= k < before.len() && (#[trigger] before[k]).piece == i;
                            assert(out@[k].piece == i);
                        }
                        if exists|k: int| 0 <= k < out@.len() && (#[trigger] out@[k]).piece == i {
                            let k = choose|k: int|
                                0 <= k < out@.len() && (#[trigger] out@[k]).piece == i;
                            assert(k < before.len());
                            assert(before[k].piece == i);
                        }
                    } else {
                        if taken {
                            assert(out@[before.len() as int].piece == i);
                        } else {
                            assert(out@ == before);
                        }
                    }
                }
            }
            j += 1;
        }
        out
    }

    /// How `square` is to be shown while the pointer is over `hovered`.
    pub fn highlight(&self, square: Square, hovered: Option<Square>) -> (r: Highlight)
        ensures
            r == highlight_of(self@, square, hovered),
    {
        let selected: Option<&Piece> = match self.selected_piece.piece {
            Some(i) => if i < self.pieces.len() {
                Some(&self.pieces[i])
            } else {
                None
            },
            None => None,
        };
        let under_pointer = match hovered {
            Some(h) => match selected {
                Some(p) => p.has_offset(
                    square.x as i16 - h.x as i16,
                    square.y as i16 - h.y as i16,
                ),
                None => h.x == square.x && h.y == square.y,
            },
            None => false,
        };
        if under_pointer {
            return Highlight::Hovered;
        }
        let is_selected = match self.selected_square.square {
            Some(s) => s.x == square.x && s.y == square.y,
            None => false,
        };
        if is_selected {
            return Highlight::Selected;
        }
        let covered = match selected {
            Some(p) => p.occupies_square((square.x, square.y)),
            None => false,
        };
        if covered {
            Highlight::UnderSelectedPiece
        } else if square.is_white() {
            Highlight::Light
        } else {
            Highlight::Dark
        }
    }

    /// Whether the piece at index `piece` may be played to `destination`,
    /// whoever is to move.
    pub fn is_move_playable(&self, piece: usize, destination: (u8, u8)) -> (r: bool)
        ensures
            r == (piece < self@.pieces.len() && playable(
                self@.pieces[piece as int],
                destination.0 as int,
                destination.1 as int,
                self@.pieces,
            )),
    {
        if piece >= self.pieces.len() {
            return false;
        }
        self.pieces[piece].is_move_playable(destination, &self.pieces)
    }

    /// Why the move of the piece at index `piece` to `destination` would be
    /// rejected, or nothing if it would be accepted.
    pub fn why_rejected(&self, piece: usize, destination: (u8, u8)) -> (r: Option<Rejection>)
        ensures
            r == rejection_of(self@, piece as int, destination.0 as int, destination.1 as int),
            r is None <==> accepts(
                self@,
                piece as int,
                destination.0 as int,
                destination.1 as int,
            ),
    {
        if self.mated.is_some() {
            return Some(Rejection::GameOver);
        }
        if piece >= self.pieces.len() {
            return Some(Rejection::NoPieceSelected);
        }
        let p = &self.pieces[piece];
        if p.colour != self.turn.0 {
            return Some(Rejection::WrongTurn);
        }
        if !p.is_move_valid(destination, &self.pieces) {
            return Some(Rejection::GeometricallyIllegal);
        }
        let pieces_after_move = position_after(&self.pieces, p, destination);
        if is_colour_in_check(self.turn.0, &pieces_after_move) {
            return Some(Rejection::LeavesKingInCheck);
        }
        None
    }

    /// Plays the piece at index `piece` to `destination` if the game accepts
    /// that, and says how it ended. A move that is not accepted changes
    /// nothing.
    pub fn attempt_move(&mut self, piece: usize, destination: (u8, u8)) -> (outcome: MoveOutcome)
        requires
            old(self).inv(),
        ensures
            final(self).inv(),
            !accepts(old(self)@, piece as int, destination.0 as int, destination.1 as int) ==> outcome
                == MoveOutcome::Rejected && final(self)@ == old(self)@,
            accepts(old(self)@, piece as int, destination.0 as int, destination.1 as int) ==> outcome
                == outcome_of(old(self)@, piece as int, destination.0 as int, destination.1 as int)
                && final(self)@ == after_attempt(
                old(self)@,
                piece as int,
                destination.0 as int,
                destination.1 as int,
            ),
    {
        if self.mated.is_some() || piece >= self.pieces.len() {
            return MoveOutcome::Rejected;
        }
        if self.pieces[piece].colour != self.turn.0 {
            return MoveOutcome::Rejected;
        }
        if !self.pieces[piece].is_move_playable(destination, &self.pieces) {
            return MoveOutcome::Rejected;
        }
        let p = &self.pieces[piece];
        let captured = p.takes_at(destination.0 as i16, destination.1 as i16, &self.pieces);
        let dx: i16 = destination.0 as i16 - p.x as i16;
        let castling: Option<CastleEvent> = if p.piece_type == PieceType::King && (dx == 2 || dx
            == -2) {
            if dx < 0 {
                Some(CastleEvent::Queenside(p.colour))
            } else {
                Some(CastleEvent::Kingside(p.colour))
            }
        } else {
            None
        };
        let (mut next, idx) = apply_move(&self.pieces, piece, destination);
        let turn = self.turn.0.opposite();
        let mated = is_colour_in_checkmate(turn, &next);
        let ghost between = next@;
        let mut mover = next[idx].clone();
        mover.promote();
        next.set(idx, mover);
        proof {
            assert(board(next@) =~= board(between).update(idx as int, mover@));
            assert forall|j: int| 0 <= j < next@.len() implies (#[trigger] next@[j]).wf() by {
                if j != idx {
                    assert(next@[j] == between[j]);
                } else {
                    assert(between[j].wf());
                }
            }
            assert(next@[idx as int].has_moved);
            assert forall|j: int|
                0 <= j < next@.len() && !(#[trigger] next@[j]).has_moved implies next@[j]@.footprint
                == set![(0int, 0int)] by {
                assert(next@[j] == between[j]);
            }
        }
        self.pieces = next;
        self.turn = PlayerTurn(turn);
        self.mated = if mated {
            Some(CheckmateEvent(turn))
        } else {
            None
        };
        self.selected_piece = SelectedPiece { piece: None };
        self.selected_square = SelectedSquare { square: None };
        if mated {
            MoveOutcome::Checkmate(turn)
        } else {
            match castling {
                Some(event) => MoveOutcome::Castled(event),
                None => if captured {
                    MoveOutcome::MovedWithCapture
                } else {
                    MoveOutcome::Moved
                },
            }
        }
    }

    /// Handles a click on `square`: plays the selected piece there if the game
    /// accepts that; if not, selects the square and the piece of the side to
    /// move that covers it.
    pub fn select_square(&mut self, square: Square) -> (outcome: MoveOutcome)
        requires
            old(self).inv(),
        ensures
            final(self).inv(),
            final(self)@ == after_click(old(self)@, square),
            outcome == (if old(self)@.selected_piece is Some && accepts(
                old(self)@,
                old(self)@.selected_piece->0 as int,
                square.x as int,
                square.y as int,
            ) {
                outcome_of(
                    old(self)@,
                    old(self)@.selected_piece->0 as int,
                    square.x as int,
                    square.y as int,
                )
            } else {
                MoveOutcome::Rejected
            }),
    {
        match self.selected_piece.piece {
            Some(piece) => {
                let outcome = self.attempt_move(piece, (square.x, square.y));
                match outcome {
                    MoveOutcome::Rejected => {},
                    _ => {
                        return outcome;
                    },
                }
            },
            None => {},
        }
        self.selected_square = SelectedSquare { square: Some(square) };
        self.selected_piece = SelectedPiece { piece: pick_piece(&self.pieces, self.turn.0, square) };
        MoveOutcome::Rejected
    }
}

} // verus!
