//! Whether a move may be played, whether a side is in check, and whether it
//! is mated.
//!
//! A move is tried on a copy of the pieces; the pieces themselves are never
//! touched.

use crate::moves::{
    defended, forward, is_capture, is_move, lemma_move_bounds, lemma_move_stays_on_board, list_has,
    square_attacked,
};
use crate::piece::{all_wf, board, Piece, PieceColour, PieceType, PieceView};
use vstd::prelude::*;

verus! {

/// The pieces of `ps` other than `p`, in their order.
pub open spec fn without(ps: Seq<PieceView>, p: PieceView) -> Seq<PieceView>
    decreases ps.len(),
{
    if ps.len() == 0 {
        Seq::empty()
    } else if ps.last() == p {
        without(ps.drop_last(), p)
    } else {
        without(ps.drop_last(), p).push(ps.last())
    }
}

/// The pieces after `p` has gone to `(nx, ny)`: `p` stands there, whatever
/// else covered that square is gone, and the rest is as it was.
pub open spec fn after_move(ps: Seq<PieceView>, p: PieceView, nx: int, ny: int) -> Seq<PieceView>
    decreases ps.len(),
{
    if ps.len() == 0 {
        Seq::empty()
    } else if ps.last() == p {
        after_move(ps.drop_last(), p, nx, ny).push(p.moved_to(nx, ny))
    } else if ps.last().occupies(nx, ny) {
        after_move(ps.drop_last(), p, nx, ny)
    } else {
        after_move(ps.drop_last(), p, nx, ny).push(ps.last())
    }
}

/// `q` is an enemy of `p` that `p` takes by going to `(nx, ny)`: it stands
/// under one of `p`'s squares there, or it may be taken in passing and stands
/// one row behind one of them.
pub open spec fn is_target(q: PieceView, p: PieceView, nx: int, ny: int) -> bool {
    &&& q.colour == p.colour.spec_opposite()
    &&& exists|o: (int, int)| #[trigger]
        p.footprint.contains(o) && (q.occupies(nx + o.0, ny + o.1) || (q.can_en_passant
            && q.occupies(nx + o.0, ny + o.1 - forward(p.colour))))
}

/// Some piece of `others` is taken when `p` goes to `(nx, ny)`.
pub open spec fn has_target(p: PieceView, nx: int, ny: int, others: Seq<PieceView>) -> bool {
    exists|i: int| 0 <= i < others.len() && is_target(#[trigger] others[i], p, nx, ny)
}

/// `p` may go to `(nx, ny)` by the rules of movement: by one of its moves, or,
/// for a pawn, by a diagonal step that takes something.
pub open spec fn move_valid(p: PieceView, nx: int, ny: int, ps: Seq<PieceView>) -> bool {
    let others = without(ps, p);
    ||| is_move(p, nx - p.x, ny - p.y, others)
    ||| (p.piece_type == PieceType::Pawn && is_capture(p, nx - p.x, ny - p.y, others) && has_target(
        p,
        nx,
        ny,
        others,
    ))
}

/// A square of a king of colour `c` is attacked by the other side.
pub open spec fn in_check(c: PieceColour, ps: Seq<PieceView>) -> bool {
    exists|i: int, o: (int, int)|
        0 <= i < ps.len() && (#[trigger] ps[i].footprint.contains(o)) && ps[i].piece_type
            == PieceType::King && ps[i].colour == c && defended(
            ps[i].x + o.0,
            ps[i].y + o.1,
            c.spec_opposite(),
            ps,
        )
}

/// `p` may go to `(nx, ny)` and its king is not in check afterwards.
pub open spec fn playable(p: PieceView, nx: int, ny: int, ps: Seq<PieceView>) -> bool {
    move_valid(p, nx, ny, ps) && !in_check(p.colour, after_move(ps, p, nx, ny))
}

/// No piece of colour `c` has a move that may be played.
pub open spec fn in_checkmate(c: PieceColour, ps: Seq<PieceView>) -> bool {
    forall|i: int, nx: int, ny: int|
        0 <= i < ps.len() && ps[i].colour == c ==> !#[trigger] playable(ps[i], nx, ny, ps)
}

/// A copy of the pieces other than `p`.
pub fn pieces_without(pieces: &Vec<Piece>, p: &Piece) -> (r: Vec<Piece>)
    ensures
        board(r@) == without(board(pieces@), p@),
{
    let ghost ps = board(pieces@);
    let mut out: Vec<Piece> = Vec::new();
    let mut i: usize = 0;
    while i < pieces.len()
        invariant
            i <= pieces.len(),
            ps == board(pieces@),
            board(out@) == without(ps.take(i as int), p@),
        decreases pieces.len() - i,
    {
        proof {
            assert(ps.take(i + 1).drop_last() == ps.take(i as int));
            assert(ps.take(i + 1).last() == ps[i as int]);
        }
        let ghost before = board(out@);
        if !pieces[i].same_as(p) {
            out.push(pieces[i].clone());
            proof {
                assert(board(out@) == before.push(ps[i as int]));
            }
        }
        i += 1;
    }
    proof {
        assert(ps.take(pieces.len() as int) == ps);
    }
    out
}

/// A copy of the pieces as they stand once `p` has gone to `new_position`.
pub fn position_after(pieces: &Vec<Piece>, p: &Piece, new_position: (u8, u8)) -> (r: Vec<Piece>)
    ensures
        board(r@) == after_move(board(pieces@), p@, new_position.0 as int, new_position.1 as int),
{
    let ghost ps = board(pieces@);
    let ghost nx = new_position.0 as int;
    let ghost ny = new_position.1 as int;
    let mut out: Vec<Piece> = Vec::new();
    let mut i: usize = 0;
    while i < pieces.len()
        invariant
            i <= pieces.len(),
            ps == board(pieces@),
            nx == new_position.0,
            ny == new_position.1,
            board(out@) == after_move(ps.take(i as int), p@, nx, ny),
        decreases pieces.len() - i,
    {
        proof {
            assert(ps.take(i + 1).drop_last() == ps.take(i as int));
            assert(ps.take(i + 1).last() == ps[i as int]);
        }
        let ghost before = board(out@);
        if pieces[i].same_as(p) {
            let mut moved = pieces[i].clone();
            moved.x = new_position.0;
            moved.y = new_position.1;
            out.push(moved);
            proof {
                assert(moved@ == p@.moved_to(nx, ny));
                assert(board(out@) == before.push(p@.moved_to(nx, ny)));
            }
        } else if !pieces[i].occupies_square(new_position) {
            out.push(pieces[i].clone());
            proof {
                assert(board(out@) == before.push(ps[i as int]));
            }
        }
        i += 1;
    }
    proof {
        assert(ps.take(pieces.len() as int) == ps);
    }
    out
}

/// Whether a king of colour `colour` has a square that the other side
/// attacks.
pub fn is_colour_in_check(colour: PieceColour, pieces: &Vec<Piece>) -> (r: bool)
    ensures
        r == in_check(colour, board(pieces@)),
{
    let ghost ps = board(pieces@);
    let enemy = colour.opposite();
    let mut i: usize = 0;
    while i < pieces.len()
        invariant
            i <= pieces.len(),
            ps == board(pieces@),
            enemy == colour.spec_opposite(),
            forall|j: int, o: (int, int)|
                0 <= j < i ==> !((#[trigger] ps[j].footprint.contains(o)) && ps[j].piece_type
                    == PieceType::King && ps[j].colour == colour && defended(
                    ps[j].x + o.0,
                    ps[j].y + o.1,
                    enemy,
                    ps,
                )),
        decreases pieces.len() - i,
    {
        let piece = &pieces[i];
        if piece.piece_type == PieceType::King && piece.colour == colour {
            let n = piece.squares_occupied.len();
            let mut k: usize = 0;
            while k < n
                invariant
                    k <= n,
                    n == piece.squares_occupied.len(),
                    i < pieces.len(),
                    piece == pieces@[i as int],
                    piece.piece_type == PieceType::King,
                    piece.colour == colour,
                    enemy == colour.spec_opposite(),
                    ps == board(pieces@),
                    forall|j: int|
                        0 <= j < k ==> !defended(
                            piece.x + (#[trigger] piece.squares_occupied@[j]).0,
                            piece.y + piece.squares_occupied@[j].1,
                            enemy,
                            ps,
                        ),
                decreases n - k,
            {
                let o = piece.squares_occupied[k];
                if square_attacked(piece.x as i16 + o.0 as i16, piece.y as i16 + o.1 as i16, enemy, pieces) {
                    proof {
                        assert(ps[i as int] == piece@);
                        assert(ps[i as int].footprint.contains((o.0 as int, o.1 as int)));
                    }
                    return true;
                }
                k += 1;
            }
        }
        i += 1;
    }
    false
}

impl Piece {
    /// Whether this piece takes `q` by going to `(nx, ny)`.
    pub fn takes(&self, q: &Piece, nx: i16, ny: i16) -> (r: bool)
        requires
            -256 <= nx <= 256,
            -256 <= ny <= 256,
        ensures
            r == is_target(q@, self@, nx as int, ny as int),
    {
        if q.colour != self.colour.opposite() {
            return false;
        }
        let f: i16 = match self.colour {
            PieceColour::White => 1,
            PieceColour::Black => -1,
        };
        let n = self.squares_occupied.len();
        let mut k: usize = 0;
        while k < n
            invariant
                k <= n,
                n == self.squares_occupied.len(),
                q.colour == self.colour.spec_opposite(),
                f == forward(self.colour),
                -256 <= nx <= 256,
                -256 <= ny <= 256,
                forall|j: int|
                    0 <= j < k ==> {
                        let o = #[trigger] self.squares_occupied@[j];
                        !(q@.occupies(nx + o.0, ny + o.1) || (q.can_en_passant && q@.occupies(
                            nx + o.0,
                            ny + o.1 - f,
                        )))
                    },
            decreases n - k,
        {
            let o = self.squares_occupied[k];
            let ax: i16 = nx + o.0 as i16;
            let ay: i16 = ny + o.1 as i16;
            if q.covers(ax, ay) || (q.can_en_passant && q.covers(ax, ay - f)) {
                proof {
                    assert(self@.footprint.contains((o.0 as int, o.1 as int)));
                }
                return true;
            }
            k += 1;
        }
        false
    }

    /// Whether some piece of `others` is taken when this piece goes to
    /// `(nx, ny)`.
    pub fn takes_at(&self, nx: i16, ny: i16, others: &Vec<Piece>) -> (r: bool)
        requires
            -256 <= nx <= 256,
            -256 <= ny <= 256,
        ensures
            r == has_target(self@, nx as int, ny as int, board(others@)),
    {
        let ghost ps = board(others@);
        let mut i: usize = 0;
        while i < others.len()
            invariant
                i <= others.len(),
                ps == board(others@),
                -256 <= nx <= 256,
                -256 <= ny <= 256,
                forall|j: int| 0 <= j < i ==> !is_target(#[trigger] ps[j], self@, nx as int, ny as int),
            decreases others.len() - i,
        {
            if self.takes(&others[i], nx, ny) {
                proof {
                    assert(is_target(ps[i as int], self@, nx as int, ny as int));
                }
                return true;
            }
            proof {
                assert(ps[i as int] == others@[i as int]@);
            }
            i += 1;
        }
        false
    }

    /// Whether the rules of movement let the piece go to `new_position`.
    /// `pieces` is the whole board; the piece itself is left out of it before
    /// its moves are taken.
    pub fn is_move_valid(&self, new_position: (u8, u8), pieces: &Vec<Piece>) -> (r: bool)
        ensures
            r == move_valid(self@, new_position.0 as int, new_position.1 as int, board(pieces@)),
    {
        let others = pieces_without(pieces, self);
        let dx: i16 = new_position.0 as i16 - self.x as i16;
        let dy: i16 = new_position.1 as i16 - self.y as i16;
        let moves = self.valid_moves(&others);
        proof {
            if is_move(self@, dx as int, dy as int, board(others@)) {
                lemma_move_bounds(self@, dx as int, dy as int, board(others@));
                assert(moves@.contains((dx as i8, dy as i8)));
            }
        }
        if list_has(&moves, dx, dy) {
            proof {
                let e = choose|e: (i8, i8)| #[trigger] moves@.contains(e) && e.0 == dx && e.1 == dy;
                assert(moves@.contains((e.0, e.1)));
            }
            return true;
        }
        if self.piece_type != PieceType::Pawn {
            return false;
        }
        let captures = self.valid_captures(&others);
        proof {
            if is_capture(self@, dx as int, dy as int, board(others@)) {
                lemma_move_bounds(self@, dx as int, dy as int, board(others@));
                assert(captures@.contains((dx as i8, dy as i8)));
            }
        }
        if !list_has(&captures, dx, dy) {
            return false;
        }
        proof {
            let e = choose|e: (i8, i8)| #[trigger] captures@.contains(e) && e.0 == dx && e.1 == dy;
            assert(captures@.contains((e.0, e.1)));
        }
        self.takes_at(new_position.0 as i16, new_position.1 as i16, &others)
    }

    /// Like `is_move_valid`, and the piece's own king must not be in check
    /// once the move is made.
    pub fn is_move_playable(&self, new_position: (u8, u8), pieces: &Vec<Piece>) -> (r: bool)
        ensures
            r == playable(self@, new_position.0 as int, new_position.1 as int, board(pieces@)),
    {
        if !self.is_move_valid(new_position, pieces) {
            return false;
        }
        let pieces_after_move = position_after(pieces, self, new_position);
        !is_colour_in_check(self.colour, &pieces_after_move)
    }
}

impl Piece {
    /// Whether the piece has a move that may be played: each of its moves is
    /// tried, and for a pawn each diagonal step that takes something, until
    /// one leaves its king out of check.
    pub fn has_playable_move(&self, pieces: &Vec<Piece>) -> (r: bool)
        requires
            self.wf(),
        ensures
            r == exists|nx: int, ny: int| playable(self@, nx, ny, board(pieces@)),
    {
        let ghost ps = board(pieces@);
        let others = pieces_without(pieces, self);
        let ghost os = board(others@);
        let moves = self.valid_moves(&others);
        let mut k: usize = 0;
        while k < moves.len()
            invariant
                k <= moves.len(),
                self.wf(),
                ps == board(pieces@),
                os == board(others@),
                os == without(ps, self@),
                forall|dx: i8, dy: i8|
                    #[trigger] moves@.contains((dx, dy)) <==> is_move(self@, dx as int, dy as int, os),
                forall|j: int|
                    0 <= j < k ==> in_check(
                        self.colour,
                        after_move(
                            ps,
                            self@,
                            self.x + (#[trigger] moves@[j]).0,
                            self.y + moves@[j].1,
                        ),
                    ),
            decreases moves.len() - k,
        {
            let d = moves[k];
            proof {
                assert(moves@.contains(moves@[k as int]));
                assert(moves@.contains((d.0, d.1)));
                lemma_move_stays_on_board(self@, d.0 as int, d.1 as int, os);
                assert(self@.footprint.contains((0, 0)));
            }
            let nx: u8 = (self.x as i16 + d.0 as i16) as u8;
            let ny: u8 = (self.y as i16 + d.1 as i16) as u8;
            let pieces_after_move = position_after(pieces, self, (nx, ny));
            if !is_colour_in_check(self.colour, &pieces_after_move) {
                proof {
                    assert(playable(self@, nx as int, ny as int, ps));
                }
                return true;
            }
            k += 1;
        }
        proof {
            assert forall|nx: int, ny: int| is_move(self@, nx - self.x, ny - self.y, os) implies in_check(
                self.colour,
                after_move(ps, self@, nx, ny),
            ) by {
                let dx = nx - self.x;
                let dy = ny - self.y;
                lemma_move_bounds(self@, dx, dy, os);
                assert(moves@.contains((dx as i8, dy as i8)));
                let j = choose|j: int| 0 <= j < moves@.len() && moves@[j] == (dx as i8, dy as i8);
                assert(self.x + moves@[j].0 == nx);
            }
        }
        if self.piece_type != PieceType::Pawn {
            proof {
                assert forall|nx: int, ny: int| !playable(self@, nx, ny, ps) by {}
            }
            return false;
        }
        let captures = self.valid_captures(&others);
        let mut k: usize = 0;
        while k < captures.len()
            invariant
                k <= captures.len(),
                self.wf(),
                ps == board(pieces@),
                os == board(others@),
                os == without(ps, self@),
                forall|dx: i8, dy: i8|
                    #[trigger] captures@.contains((dx, dy)) <==> is_capture(
                        self@,
                        dx as int,
                        dy as int,
                        os,
                    ),
                forall|j: int|
                    0 <= j < k ==> {
                        let nx = self.x + (#[trigger] captures@[j]).0;
                        let ny = self.y + captures@[j].1;
                        has_target(self@, nx, ny, os) ==> in_check(
                            self.colour,
                            after_move(ps, self@, nx, ny),
                        )
                    },
            decreases captures.len() - k,
        {
            let d = captures[k];
            proof {
                assert(captures@.contains(captures@[k as int]));
                assert(captures@.contains((d.0, d.1)));
                lemma_move_stays_on_board(self@, d.0 as int, d.1 as int, os);
                assert(self@.footprint.contains((0, 0)));
            }
            let nx: u8 = (self.x as i16 + d.0 as i16) as u8;
            let ny: u8 = (self.y as i16 + d.1 as i16) as u8;
            if self.takes_at(nx as i16, ny as i16, &others) {
                let pieces_after_move = position_after(pieces, self, (nx, ny));
                if !is_colour_in_check(self.colour, &pieces_after_move) {
                    proof {
                        assert(playable(self@, nx as int, ny as int, ps));
                    }
                    return true;
                }
            }
            k += 1;
        }
        proof {
            assert forall|nx: int, ny: int| !playable(self@, nx, ny, ps) by {
                let dx = nx - self.x;
                let dy = ny - self.y;
                if is_capture(self@, dx, dy, os) && has_target(self@, nx, ny, os) {
                    lemma_move_bounds(self@, dx, dy, os);
                    assert(captures@.contains((dx as i8, dy as i8)));
                    let j = choose|j: int|
                        0 <= j < captures@.len() && captures@[j] == (dx as i8, dy as i8);
                    assert(self.x + captures@[j].0 == nx);
                }
            }
        }
        false
    }
}

/// Whether the side `colour` is mated: none of its pieces has a move that may
/// be played. Whether the side is in check now is not asked.
pub fn is_colour_in_checkmate(colour: PieceColour, pieces: &Vec<Piece>) -> (r: bool)
    requires
        all_wf(pieces@),
    ensures
        r == in_checkmate(colour, board(pieces@)),
{
    let ghost ps = board(pieces@);
    let mut i: usize = 0;
    while i < pieces.len()
        invariant
            i <= pieces.len(),
            all_wf(pieces@),
            ps == board(pieces@),
            forall|j: int, nx: int, ny: int|
                0 <= j < i && ps[j].colour == colour ==> !#[trigger] playable(ps[j], nx, ny, ps),
        decreases pieces.len() - i,
    {
        if pieces[i].colour == colour {
            if pieces[i].has_playable_move(pieces) {
                proof {
                    let (nx, ny) = choose|nx: int, ny: int| playable(pieces@[i as int]@, nx, ny, ps);
                    assert(playable(ps[i as int], nx, ny, ps));
                }
                return false;
            }
        }
        i += 1;
    }
    true
}

} // verus!
