//! Which moves a piece has, and which squares a side attacks.
//!
//! A move is a pair `(dx, dy)` by which the whole footprint is shifted. The
//! rules are the spec functions of this file; the generators below are proved
//! to return exactly the moves that the rules admit.

use crate::occupancy::{occupied, occupied_by, square_held, square_held_by};
use crate::piece::{board, on_board, Piece, PieceColour, PieceType, PieceView};
use vstd::prelude::*;

verus! {

/// Every square of `p`, shifted by `(dx, dy)`, is on the board and not held by
/// a piece of `p`'s own colour.
pub open spec fn can_land(p: PieceView, dx: int, dy: int, others: Seq<PieceView>) -> bool {
    forall|o: (int, int)| #[trigger]
        p.footprint.contains(o) ==> on_board(p.x + o.0 + dx, p.y + o.1 + dy) && !occupied_by(
            others,
            p.colour,
            p.x + o.0 + dx,
            p.y + o.1 + dy,
        )
}

/// Every square of `p`, shifted by `(dx, dy)`, is on the board and held by
/// nobody.
pub open spec fn lands_clear(p: PieceView, dx: int, dy: int, others: Seq<PieceView>) -> bool {
    forall|o: (int, int)| #[trigger]
        p.footprint.contains(o) ==> on_board(p.x + o.0 + dx, p.y + o.1 + dy) && !occupied(
            others,
            p.x + o.0 + dx,
            p.y + o.1 + dy,
        )
}

/// `k` steps in the direction in which `d` points: `k`, `-k` or `0`.
pub open spec fn scaled(d: int, k: int) -> int {
    if d > 0 {
        k
    } else if d < 0 {
        -k
    } else {
        0
    }
}

/// The number of steps that the move `(dx, dy)` takes along its line.
pub open spec fn reach(dx: int, dy: int) -> int {
    let ax = if dx < 0 { -dx } else { dx };
    let ay = if dy < 0 { -dy } else { dy };
    if ax > ay {
        ax
    } else {
        ay
    }
}

/// One of the eight moves to a neighbouring square.
pub open spec fn is_king_step(dx: int, dy: int) -> bool {
    -1 <= dx <= 1 && -1 <= dy <= 1 && !(dx == 0 && dy == 0)
}

/// One of the eight knight jumps.
pub open spec fn is_knight_jump(dx: int, dy: int) -> bool {
    ||| ((dx == 1 || dx == -1) && (dy == 2 || dy == -2))
    ||| ((dx == 2 || dx == -2) && (dy == 1 || dy == -1))
}

/// A move of one to seven squares along a row or a column.
pub open spec fn is_straight(dx: int, dy: int) -> bool {
    -7 <= dx <= 7 && -7 <= dy <= 7 && ((dx == 0) != (dy == 0))
}

/// A move of one to seven squares along a diagonal.
pub open spec fn is_diagonal(dx: int, dy: int) -> bool {
    -7 <= dx <= 7 && dx != 0 && (dy == dx || dy == -dx)
}

/// The `k`-th square set on the way of the move `(dx, dy)` is free for the
/// whole footprint.
pub open spec fn way_clear_at(p: PieceView, dx: int, dy: int, k: int, others: Seq<PieceView>) -> bool {
    lands_clear(p, scaled(dx, k), scaled(dy, k), others)
}

/// A sliding move: nothing stands on the way, and the piece can land. The
/// first square set that is not free ends the ray; the piece may still land
/// there if none of its own side is in it.
pub open spec fn ray_ok(p: PieceView, dx: int, dy: int, others: Seq<PieceView>) -> bool {
    &&& can_land(p, dx, dy, others)
    &&& forall|k: int| 1 <= k < reach(dx, dy) ==> #[trigger] way_clear_at(p, dx, dy, k, others)
}

/// The direction in which pawns of colour `c` advance: up for White, down for
/// Black.
pub open spec fn forward(c: PieceColour) -> int {
    match c {
        PieceColour::White => 1,
        PieceColour::Black => -1,
    }
}

/// The row on which the pawns of colour `c` start.
pub open spec fn pawn_row(c: PieceColour) -> int {
    match c {
        PieceColour::White => 1,
        PieceColour::Black => 6,
    }
}

/// A pawn's advance: one square onto free squares, or two from its starting
/// row over free squares.
pub open spec fn pawn_advance(p: PieceView, dx: int, dy: int, others: Seq<PieceView>) -> bool {
    let f = forward(p.colour);
    &&& dx == 0
    &&& lands_clear(p, 0, f, others)
    &&& (dy == f || (dy == 2 * f && p.y == pawn_row(p.colour) && lands_clear(p, 0, 2 * f, others)))
}

/// A pawn's diagonal step. Whether there is anything to capture is not asked
/// here.
pub open spec fn pawn_capture(p: PieceView, dx: int, dy: int, others: Seq<PieceView>) -> bool {
    (dx == 1 || dx == -1) && dy == forward(p.colour) && can_land(p, dx, dy, others)
}

/// `r` is a rook with which a king of colour `c` may castle towards side `s`
/// (`-1` towards column 0, `1` towards column 7).
pub open spec fn is_castle_rook(r: PieceView, c: PieceColour, s: int) -> bool {
    &&& r.colour == c
    &&& r.piece_type == PieceType::Rook
    &&& !r.has_moved
    &&& r.x == (if s < 0 { 0int } else { 7int })
}

/// A piece of colour `c` in `ps` attacks `(sx, sy)`: the square is not its
/// own, and one of its capturing moves brings one of its squares there. The
/// move is judged against the pieces other than the attacker.
pub open spec fn defended(sx: int, sy: int, c: PieceColour, ps: Seq<PieceView>) -> bool
    decreases ps.len(), 0int,
{
    exists|i: int, o: (int, int)|
        0 <= i < ps.len() && (#[trigger] ps[i].footprint.contains(o)) && ps[i].colour == c
            && !ps[i].occupies(sx, sy) && is_capture(
            ps[i],
            sx - ps[i].x - o.0,
            sy - ps[i].y - o.1,
            ps.remove(i),
        )
}

/// The king `p` may castle towards side `s`: it has not moved, a rook of its
/// colour that has not moved stands on the outer column of that side, none of
/// the squares it stands on, crosses or lands on is attacked, and those it
/// crosses and lands on are on the board and free.
pub open spec fn castle_ok(p: PieceView, s: int, others: Seq<PieceView>) -> bool
    decreases others.len(), 1int,
{
    &&& !p.has_moved
    &&& exists|i: int| 0 <= i < others.len() && is_castle_rook(#[trigger] others[i], p.colour, s)
    &&& lands_clear(p, s, 0, others)
    &&& lands_clear(p, 2 * s, 0, others)
    &&& forall|o: (int, int)| #[trigger]
        p.footprint.contains(o) ==> {
            &&& !defended(p.x + o.0, p.y + o.1, p.colour.spec_opposite(), others)
            &&& !defended(p.x + o.0 + s, p.y + o.1, p.colour.spec_opposite(), others)
            &&& !defended(p.x + o.0 + 2 * s, p.y + o.1, p.colour.spec_opposite(), others)
        }
}

/// `(dx, dy)` is a move of `p` when `others` are the other pieces on the
/// board.
pub open spec fn is_move(p: PieceView, dx: int, dy: int, others: Seq<PieceView>) -> bool
    decreases others.len(), 2int,
{
    match p.piece_type {
        PieceType::King => {
            ||| (is_king_step(dx, dy) && can_land(p, dx, dy, others))
            ||| (dx == -2 && dy == 0 && castle_ok(p, -1, others))
            ||| (dx == 2 && dy == 0 && castle_ok(p, 1, others))
        },
        PieceType::Queen => (is_straight(dx, dy) || is_diagonal(dx, dy)) && ray_ok(p, dx, dy, others),
        PieceType::Bishop => is_diagonal(dx, dy) && ray_ok(p, dx, dy, others),
        PieceType::Rook => is_straight(dx, dy) && ray_ok(p, dx, dy, others),
        PieceType::Knight => is_knight_jump(dx, dy) && can_land(p, dx, dy, others),
        PieceType::Pawn => pawn_advance(p, dx, dy, others),
    }
}

/// `(dx, dy)` is a move by which `p` may capture: a pawn's diagonal step, any
/// move of another piece.
pub open spec fn is_capture(p: PieceView, dx: int, dy: int, others: Seq<PieceView>) -> bool
    decreases others.len(), 3int,
{
    match p.piece_type {
        PieceType::Pawn => pawn_capture(p, dx, dy, others),
        _ => is_move(p, dx, dy, others),
    }
}

/// The move `(dx, dy)` runs in the direction `(ux, uy)`.
pub open spec fn on_ray(dx: int, dy: int, ux: int, uy: int) -> bool {
    &&& 1 <= reach(dx, dy) <= 7
    &&& dx == scaled(ux, reach(dx, dy))
    &&& dy == scaled(uy, reach(dx, dy))
}

/// Squares that nobody holds are not held by one's own side.
pub proof fn lemma_clear_can_land(p: PieceView, dx: int, dy: int, others: Seq<PieceView>)
    requires
        lands_clear(p, dx, dy, others),
    ensures
        can_land(p, dx, dy, others),
{
    assert forall|o: (int, int)| #[trigger] p.footprint.contains(o) implies on_board(
        p.x + o.0 + dx,
        p.y + o.1 + dy,
    ) && !occupied_by(others, p.colour, p.x + o.0 + dx, p.y + o.1 + dy) by {
        if occupied_by(others, p.colour, p.x + o.0 + dx, p.y + o.1 + dy) {
            let i = choose|i: int|
                0 <= i < others.len() && (#[trigger] others[i]).colour == p.colour
                    && others[i].occupies(p.x + o.0 + dx, p.y + o.1 + dy);
            assert(others[i].occupies(p.x + o.0 + dx, p.y + o.1 + dy));
        }
    }
}

/// No move and no capture leads further than seven squares along either
/// axis.
pub proof fn lemma_move_bounds(p: PieceView, dx: int, dy: int, others: Seq<PieceView>)
    requires
        is_move(p, dx, dy, others) || is_capture(p, dx, dy, others),
    ensures
        -7 <= dx <= 7,
        -7 <= dy <= 7,
        !(dx == 0 && dy == 0),
{
}

/// Every square of `p`, shifted by `(dx, dy)`, is on the board.
pub open spec fn stays_on_board(p: PieceView, dx: int, dy: int) -> bool {
    forall|o: (int, int)| #[trigger]
        p.footprint.contains(o) ==> on_board(p.x + o.0 + dx, p.y + o.1 + dy)
}

/// No move and no capture takes a square of the piece off the board.
pub proof fn lemma_move_stays_on_board(p: PieceView, dx: int, dy: int, others: Seq<PieceView>)
    requires
        is_move(p, dx, dy, others) || is_capture(p, dx, dy, others),
    ensures
        stays_on_board(p, dx, dy),
{
    if dx == 2 || dx == -2 {
        assert(2 * 1 == 2 && 2 * (-1) == -2);
    }
}

/// What `push` does to membership and to the absence of duplicates.
pub proof fn lemma_push_member(s: Seq<(i8, i8)>, v: (i8, i8))
    ensures
        forall|e: (i8, i8)| #[trigger] s.push(v).contains(e) <==> s.contains(e) || e == v,
        s.no_duplicates() && !s.contains(v) ==> s.push(v).no_duplicates(),
{
    let t = s.push(v);
    assert forall|e: (i8, i8)| #[trigger] t.contains(e) <==> s.contains(e) || e == v by {
        if s.contains(e) {
            let i = choose|i: int| 0 <= i < s.len() && s[i] == e;
            assert(t[i] == e);
        }
        if e == v {
            assert(t[s.len() as int] == e);
        }
    }
    if s.no_duplicates() && !s.contains(v) {
        assert forall|i: int, j: int| 0 <= i < t.len() && 0 <= j < t.len() && i != j implies t[i]
            != t[j] by {
            if i < s.len() {
                assert(s.contains(s[i]));
            }
            if j < s.len() {
                assert(s.contains(s[j]));
            }
        }
    }
}

/// A copy of `pieces` without the piece at index `i`.
pub fn all_but(pieces: &Vec<Piece>, i: usize) -> (r: Vec<Piece>)
    requires
        i < pieces.len(),
    ensures
        board(r@) == board(pieces@).remove(i as int),
        r@.len() == pieces@.len() - 1,
{
    let mut out: Vec<Piece> = Vec::new();
    let mut j: usize = 0;
    while j < pieces.len()
        invariant
            i < pieces.len(),
            j <= pieces.len(),
            out@.len() == (if j <= i { j as int } else { j - 1 }),
            forall|k: int| 0 <= k < out@.len() ==> (#[trigger] out@[k])@ == pieces@[if k < i { k } else { k + 1 }]@,
        decreases pieces.len() - j,
    {
        if j != i {
            out.push(pieces[j].clone());
        }
        j += 1;
    }
    proof {
        assert(board(out@) =~= board(pieces@).remove(i as int));
    }
    out
}

/// Whether `moves` holds the pair `(dx, dy)`.
pub fn list_has(moves: &Vec<(i8, i8)>, dx: i16, dy: i16) -> (r: bool)
    ensures
        r == exists|e: (i8, i8)| #[trigger] moves@.contains(e) && e.0 == dx && e.1 == dy,
{
    let mut i: usize = 0;
    while i < moves.len()
        invariant
            i <= moves.len(),
            forall|j: int| 0 <= j < i ==> !((#[trigger] moves@[j]).0 == dx && moves@[j].1 == dy),
        decreases moves.len() - i,
    {
        let e = moves[i];
        if e.0 as i16 == dx && e.1 as i16 == dy {
            assert(moves@.contains(moves@[i as int]));
            return true;
        }
        i += 1;
    }
    false
}

/// Whether a rook stands ready for a king of colour `colour` to castle
/// towards side `s`.
pub fn has_castle_rook(colour: PieceColour, s: i8, pieces: &Vec<Piece>) -> (r: bool)
    ensures
        r == exists|i: int|
            0 <= i < board(pieces@).len() && is_castle_rook(
                #[trigger] board(pieces@)[i],
                colour,
                s as int,
            ),
{
    let column: u8 = if s < 0 { 0 } else { 7 };
    let mut i: usize = 0;
    while i < pieces.len()
        invariant
            i <= pieces.len(),
            column == (if s < 0 { 0int } else { 7int }),
            forall|j: int| 0 <= j < i ==> !is_castle_rook(#[trigger] board(pieces@)[j], colour, s as int),
        decreases pieces.len() - i,
    {
        let q = &pieces[i];
        if q.colour == colour && q.piece_type == PieceType::Rook && !q.has_moved && q.x == column {
            assert(is_castle_rook(board(pieces@)[i as int], colour, s as int));
            return true;
        }
        i += 1;
    }
    false
}

impl Piece {
    /// Whether the piece, shifted by `(dx, dy)`, stays on the board and meets
    /// none of its own side among `pieces`.
    pub fn can_land_on(&self, dx: i8, dy: i8, pieces: &Vec<Piece>) -> (r: bool)
        ensures
            r == can_land(self@, dx as int, dy as int, board(pieces@)),
    {
        let mut i: usize = 0;
        while i < self.squares_occupied.len()
            invariant
                i <= self.squares_occupied.len(),
                forall|j: int|
                    0 <= j < i ==> {
                        let o = #[trigger] self.squares_occupied@[j];
                        on_board(self.x + o.0 + dx, self.y + o.1 + dy) && !occupied_by(
                            board(pieces@),
                            self.colour,
                            self.x + o.0 + dx,
                            self.y + o.1 + dy,
                        )
                    },
            decreases self.squares_occupied.len() - i,
        {
            let o = self.squares_occupied[i];
            let ax: i16 = self.x as i16 + o.0 as i16 + dx as i16;
            let ay: i16 = self.y as i16 + o.1 as i16 + dy as i16;
            if ax < 0 || ax > 7 || ay < 0 || ay > 7 || square_held_by(ax, ay, self.colour, pieces) {
                assert(self@.footprint.contains((o.0 as int, o.1 as int)));
                return false;
            }
            i += 1;
        }
        true
    }

    /// Whether the piece, shifted by `(dx, dy)`, stays on the board and meets
    /// none of `pieces`.
    pub fn can_pass_over(&self, dx: i8, dy: i8, pieces: &Vec<Piece>) -> (r: bool)
        ensures
            r == lands_clear(self@, dx as int, dy as int, board(pieces@)),
    {
        let mut i: usize = 0;
        while i < self.squares_occupied.len()
            invariant
                i <= self.squares_occupied.len(),
                forall|j: int|
                    0 <= j < i ==> {
                        let o = #[trigger] self.squares_occupied@[j];
                        on_board(self.x + o.0 + dx, self.y + o.1 + dy) && !occupied(
                            board(pieces@),
                            self.x + o.0 + dx,
                            self.y + o.1 + dy,
                        )
                    },
            decreases self.squares_occupied.len() - i,
        {
            let o = self.squares_occupied[i];
            let ax: i16 = self.x as i16 + o.0 as i16 + dx as i16;
            let ay: i16 = self.y as i16 + o.1 as i16 + dy as i16;
            if ax < 0 || ax > 7 || ay < 0 || ay > 7 || square_held(ax, ay, pieces) {
                assert(self@.footprint.contains((o.0 as int, o.1 as int)));
                return false;
            }
            i += 1;
        }
        true
    }

    /// Adds `(dx, dy)` to `moves` if the piece can land there.
    fn try_step(&self, dx: i8, dy: i8, pieces: &Vec<Piece>, moves: &mut Vec<(i8, i8)>)
        ensures
            forall|e: (i8, i8)| #[trigger]
                final(moves)@.contains(e) <==> old(moves)@.contains(e) || (e == (dx, dy) && can_land(
                    self@,
                    dx as int,
                    dy as int,
                    board(pieces@),
                )),
            old(moves)@.no_duplicates() && !old(moves)@.contains((dx, dy)) ==> final(moves)@.no_duplicates(),
    {
        if self.can_land_on(dx, dy, pieces) {
            proof {
                lemma_push_member(moves@, (dx, dy));
            }
            moves.push((dx, dy));
        }
    }

    /// Adds to `moves` the moves of the ray that leaves in direction
    /// `(ux, uy)`: square after square while the way is free, and the first
    /// blocked one too if the piece may land there.
    fn cast_ray(&self, ux: i8, uy: i8, pieces: &Vec<Piece>, moves: &mut Vec<(i8, i8)>)
        requires
            is_king_step(ux as int, uy as int),
        ensures
            forall|e: (i8, i8)| #[trigger]
                final(moves)@.contains(e) <==> old(moves)@.contains(e) || (on_ray(
                    e.0 as int,
                    e.1 as int,
                    ux as int,
                    uy as int,
                ) && ray_ok(self@, e.0 as int, e.1 as int, board(pieces@))),
            old(moves)@.no_duplicates() && (forall|e: (i8, i8)| #[trigger]
                old(moves)@.contains(e) ==> !on_ray(e.0 as int, e.1 as int, ux as int, uy as int))
                ==> final(moves)@.no_duplicates(),
    {
        let ghost others = board(pieces@);
        let ghost before = moves@;
        let mut m: i8 = 1;
        let mut cx: i8 = ux;
        let mut cy: i8 = uy;
        let mut open = true;
        while open && m <= 7
            invariant
                is_king_step(ux as int, uy as int),
                others == board(pieces@),
                1 <= m <= 8,
                cx == scaled(ux as int, m as int),
                cy == scaled(uy as int, m as int),
                open ==> forall|k: int|
                    1 <= k < m ==> #[trigger] way_clear_at(self@, ux as int, uy as int, k, others),
                open ==> forall|e: (i8, i8)| #[trigger]
                    moves@.contains(e) <==> before.contains(e) || (on_ray(
                        e.0 as int,
                        e.1 as int,
                        ux as int,
                        uy as int,
                    ) && reach(e.0 as int, e.1 as int) < m),
                !open ==> forall|e: (i8, i8)| #[trigger]
                    moves@.contains(e) <==> before.contains(e) || (on_ray(
                        e.0 as int,
                        e.1 as int,
                        ux as int,
                        uy as int,
                    ) && ray_ok(self@, e.0 as int, e.1 as int, others)),
                before.no_duplicates() && (forall|e: (i8, i8)| #[trigger]
                    before.contains(e) ==> !on_ray(e.0 as int, e.1 as int, ux as int, uy as int))
                    ==> moves@.no_duplicates(),
            decreases 8 - m + (if open { 1int } else { 0int }),
        {
            let ghost prev = moves@;
            let clear = self.can_pass_over(cx, cy, pieces);
            let lands = if clear { true } else { self.can_land_on(cx, cy, pieces) };
            proof {
                if clear {
                    lemma_clear_can_land(self@, cx as int, cy as int, others);
                }
                lemma_push_member(prev, (cx, cy));
                assert(on_ray(cx as int, cy as int, ux as int, uy as int));
                assert(reach(cx as int, cy as int) == m);
            }
            if lands {
                moves.push((cx, cy));
            }
            proof {
                // What holds of the squares of this ray up to the `m`-th.
                assert forall|e: (i8, i8)|
                    on_ray(e.0 as int, e.1 as int, ux as int, uy as int) && reach(
                        e.0 as int,
                        e.1 as int,
                    ) <= m implies (ray_ok(self@, e.0 as int, e.1 as int, others) <==> (reach(
                    e.0 as int,
                    e.1 as int,
                ) < m || lands)) by {
                    let r = reach(e.0 as int, e.1 as int);
                    assert forall|k: int| 1 <= k < r implies #[trigger] way_clear_at(
                        self@,
                        e.0 as int,
                        e.1 as int,
                        k,
                        others,
                    ) by {
                        assert(way_clear_at(self@, ux as int, uy as int, k, others));
                    }
                    if r < m {
                        assert(way_clear_at(self@, ux as int, uy as int, r, others));
                        lemma_clear_can_land(self@, e.0 as int, e.1 as int, others);
                    } else {
                        assert(e == (cx, cy));
                    }
                }
                if !clear {
                    // Nothing beyond a blocked square set is reached.
                    assert forall|e: (i8, i8)|
                        on_ray(e.0 as int, e.1 as int, ux as int, uy as int) && reach(
                            e.0 as int,
                            e.1 as int,
                        ) > m implies !ray_ok(self@, e.0 as int, e.1 as int, others) by {
                        assert(!way_clear_at(self@, e.0 as int, e.1 as int, m as int, others));
                    }
                }
                assert(way_clear_at(self@, ux as int, uy as int, m as int, others) == clear);
            }
            if clear {
                m = m + 1;
                cx = cx + ux;
                cy = cy + uy;
            } else {
                open = false;
            }
        }
        proof {
            if open {
                assert forall|e: (i8, i8)|
                    on_ray(e.0 as int, e.1 as int, ux as int, uy as int) implies ray_ok(
                    self@,
                    e.0 as int,
                    e.1 as int,
                    others,
                ) by {
                    let r = reach(e.0 as int, e.1 as int);
                    assert forall|k: int| 1 <= k < r implies #[trigger] way_clear_at(
                        self@,
                        e.0 as int,
                        e.1 as int,
                        k,
                        others,
                    ) by {
                        assert(way_clear_at(self@, ux as int, uy as int, k, others));
                    }
                    assert(way_clear_at(self@, ux as int, uy as int, r, others));
                    lemma_clear_can_land(self@, e.0 as int, e.1 as int, others);
                }
            }
        }
    }
}

/// Whether a piece of colour `colour` attacks the square `(sx, sy)`, which may
/// lie off the board. Each piece is tried in turn, its capturing moves taken
/// against all the others, and each of its squares as the one that arrives.
pub fn square_attacked(sx: i16, sy: i16, colour: PieceColour, pieces: &Vec<Piece>) -> (r: bool)
    requires
        -1024 <= sx <= 1024,
        -1024 <= sy <= 1024,
    ensures
        r == defended(sx as int, sy as int, colour, board(pieces@)),
    decreases pieces@.len(), 0int,
{
    let ghost ps = board(pieces@);
    let mut i: usize = 0;
    while i < pieces.len()
        invariant
            i <= pieces.len(),
            ps == board(pieces@),
            -1024 <= sx <= 1024,
            -1024 <= sy <= 1024,
            forall|j: int, o: (int, int)|
                0 <= j < i ==> !((#[trigger] ps[j].footprint.contains(o)) && ps[j].colour == colour
                    && !ps[j].occupies(sx as int, sy as int) && is_capture(
                    ps[j],
                    sx - ps[j].x - o.0,
                    sy - ps[j].y - o.1,
                    ps.remove(j),
                )),
        decreases pieces.len() - i,
    {
        let piece = &pieces[i];
        if piece.colour == colour && !piece.covers(sx, sy) {
            let others = all_but(pieces, i);
            let captures = piece.valid_captures(&others);
            let n = piece.squares_occupied.len();
            let mut k: usize = 0;
            while k < n
                invariant
                    k <= n,
                    n == piece.squares_occupied.len(),
                    i < pieces.len(),
                    piece == pieces@[i as int],
                    piece.colour == colour,
                    !piece@.occupies(sx as int, sy as int),
                    ps == board(pieces@),
                    board(others@) == ps.remove(i as int),
                    -1024 <= sx <= 1024,
                    -1024 <= sy <= 1024,
                    forall|dx: i8, dy: i8|
                        #[trigger] captures@.contains((dx, dy)) <==> is_capture(
                            piece@,
                            dx as int,
                            dy as int,
                            board(others@),
                        ),
                    forall|j: int|
                        0 <= j < k ==> !is_capture(
                            piece@,
                            sx - piece.x - (#[trigger] piece.squares_occupied@[j]).0,
                            sy - piece.y - piece.squares_occupied@[j].1,
                            board(others@),
                        ),
                decreases n - k,
            {
                let o = piece.squares_occupied[k];
                let tx: i16 = sx - piece.x as i16 - o.0 as i16;
                let ty: i16 = sy - piece.y as i16 - o.1 as i16;
                let hit = list_has(&captures, tx, ty);
                proof {
                    if is_capture(piece@, tx as int, ty as int, board(others@)) {
                        lemma_move_bounds(piece@, tx as int, ty as int, board(others@));
                        assert(captures@.contains((tx as i8, ty as i8)));
                    }
                }
                if hit {
                    proof {
                        let e = choose|e: (i8, i8)| #[trigger]
                            captures@.contains(e) && e.0 == tx && e.1 == ty;
                        assert(captures@.contains((e.0, e.1)));
                        assert(ps[i as int] == piece@);
                        assert(ps[i as int].footprint.contains((o.0 as int, o.1 as int)));
                        assert(is_capture(
                            ps[i as int],
                            sx - ps[i as int].x - o.0,
                            sy - ps[i as int].y - o.1,
                            ps.remove(i as int),
                        ));
                    }
                    return true;
                }
                k += 1;
            }
        }
        i += 1;
    }
    false
}

/// Whether a piece of colour `colour` attacks `pos`. A piece does not attack
/// a square that it covers itself, and each of its squares attacks on its
/// own.
pub fn is_square_defended(pos: (u8, u8), colour: PieceColour, pieces: &Vec<Piece>) -> (r: bool)
    ensures
        r == defended(pos.0 as int, pos.1 as int, colour, board(pieces@)),
{
    square_attacked(pos.0 as i16, pos.1 as i16, colour, pieces)
}

impl Piece {
    /// Whether this king may castle towards side `s`.
    pub fn can_castle(&self, s: i8, pieces: &Vec<Piece>) -> (r: bool)
        requires
            s == 1 || s == -1,
        ensures
            r == castle_ok(self@, s as int, board(pieces@)),
        decreases pieces@.len(), 1int,
    {
        if self.has_moved {
            return false;
        }
        if !has_castle_rook(self.colour, s, pieces) {
            return false;
        }
        if !self.can_pass_over(s, 0, pieces) {
            return false;
        }
        if !self.can_pass_over(2 * s, 0, pieces) {
            return false;
        }
        let enemy = self.colour.opposite();
        let ghost others = board(pieces@);
        let mut i: usize = 0;
        while i < self.squares_occupied.len()
            invariant
                i <= self.squares_occupied.len(),
                s == 1 || s == -1,
                enemy == self.colour.spec_opposite(),
                others == board(pieces@),
                forall|j: int|
                    0 <= j < i ==> {
                        let o = #[trigger] self.squares_occupied@[j];
                        &&& !defended(self.x + o.0, self.y + o.1, enemy, others)
                        &&& !defended(self.x + o.0 + s, self.y + o.1, enemy, others)
                        &&& !defended(self.x + o.0 + 2 * s, self.y + o.1, enemy, others)
                    },
            decreases self.squares_occupied.len() - i,
        {
            let o = self.squares_occupied[i];
            let ax: i16 = self.x as i16 + o.0 as i16;
            let ay: i16 = self.y as i16 + o.1 as i16;
            if square_attacked(ax, ay, enemy, pieces) || square_attacked(ax + s as i16, ay, enemy, pieces)
                || square_attacked(ax + 2 * (s as i16), ay, enemy, pieces) {
                assert(self@.footprint.contains((o.0 as int, o.1 as int)));
                return false;
            }
            i += 1;
        }
        true
    }

    /// The moves of the piece when `pieces` are the other pieces on the
    /// board: exactly those that [`is_move`] admits, each once.
    pub fn valid_moves(&self, pieces: &Vec<Piece>) -> (moves: Vec<(i8, i8)>)
        ensures
            forall|dx: i8, dy: i8|
                #[trigger] moves@.contains((dx, dy)) <==> is_move(
                    self@,
                    dx as int,
                    dy as int,
                    board(pieces@),
                ),
            moves@.no_duplicates(),
        decreases pieces@.len(), 2int,
    {
        let mut moves: Vec<(i8, i8)> = Vec::new();
        match self.piece_type {
            PieceType::King => {
                self.try_step(-1, -1, pieces, &mut moves);
                self.try_step(0, -1, pieces, &mut moves);
                self.try_step(1, -1, pieces, &mut moves);
                self.try_step(-1, 0, pieces, &mut moves);
                self.try_step(1, 0, pieces, &mut moves);
                self.try_step(-1, 1, pieces, &mut moves);
                self.try_step(0, 1, pieces, &mut moves);
                self.try_step(1, 1, pieces, &mut moves);
                if self.can_castle(-1, pieces) {
                    proof {
                        lemma_push_member(moves@, (-2i8, 0i8));
                    }
                    moves.push((-2, 0));
                }
                if self.can_castle(1, pieces) {
                    proof {
                        lemma_push_member(moves@, (2i8, 0i8));
                    }
                    moves.push((2, 0));
                }
            },
            PieceType::Queen => {
                self.cast_ray(-1, -1, pieces, &mut moves);
                self.cast_ray(0, -1, pieces, &mut moves);
                self.cast_ray(1, -1, pieces, &mut moves);
                self.cast_ray(-1, 0, pieces, &mut moves);
                self.cast_ray(1, 0, pieces, &mut moves);
                self.cast_ray(-1, 1, pieces, &mut moves);
                self.cast_ray(0, 1, pieces, &mut moves);
                self.cast_ray(1, 1, pieces, &mut moves);
            },
            PieceType::Bishop => {
                self.cast_ray(-1, -1, pieces, &mut moves);
                self.cast_ray(1, -1, pieces, &mut moves);
                self.cast_ray(-1, 1, pieces, &mut moves);
                self.cast_ray(1, 1, pieces, &mut moves);
            },
            PieceType::Knight => {
                self.try_step(-1, -2, pieces, &mut moves);
                self.try_step(-1, 2, pieces, &mut moves);
                self.try_step(1, -2, pieces, &mut moves);
                self.try_step(1, 2, pieces, &mut moves);
                self.try_step(-2, -1, pieces, &mut moves);
                self.try_step(-2, 1, pieces, &mut moves);
                self.try_step(2, -1, pieces, &mut moves);
                self.try_step(2, 1, pieces, &mut moves);
            },
            PieceType::Rook => {
                self.cast_ray(-1, 0, pieces, &mut moves);
                self.cast_ray(1, 0, pieces, &mut moves);
                self.cast_ray(0, -1, pieces, &mut moves);
                self.cast_ray(0, 1, pieces, &mut moves);
            },
            PieceType::Pawn => {
                let f: i8 = match self.colour {
                    PieceColour::White => 1,
                    PieceColour::Black => -1,
                };
                let home: u8 = match self.colour {
                    PieceColour::White => 1,
                    PieceColour::Black => 6,
                };
                if self.can_pass_over(0, f, pieces) {
                    proof {
                        lemma_push_member(moves@, (0i8, f));
                    }
                    moves.push((0, f));
                    if self.y == home && self.can_pass_over(0, 2 * f, pieces) {
                        proof {
                            lemma_push_member(moves@, (0i8, (2 * f) as i8));
                        }
                        moves.push((0, 2 * f));
                    }
                }
            },
        }
        moves
    }

    /// The moves by which the piece may capture when `pieces` are the other
    /// pieces on the board: exactly those that [`is_capture`] admits, each
    /// once. For a pawn these are its diagonal steps, whether or not anything
    /// stands there; for any other piece they are its moves.
    pub fn valid_captures(&self, pieces: &Vec<Piece>) -> (moves: Vec<(i8, i8)>)
        ensures
            forall|dx: i8, dy: i8|
                #[trigger] moves@.contains((dx, dy)) <==> is_capture(
                    self@,
                    dx as int,
                    dy as int,
                    board(pieces@),
                ),
            moves@.no_duplicates(),
        decreases pieces@.len(), 3int,
    {
        match self.piece_type {
            PieceType::Pawn => {
                let f: i8 = match self.colour {
                    PieceColour::White => 1,
                    PieceColour::Black => -1,
                };
                let mut moves: Vec<(i8, i8)> = Vec::new();
                self.try_step(-1, f, pieces, &mut moves);
                self.try_step(1, f, pieces, &mut moves);
                moves
            },
            _ => self.valid_moves(pieces),
        }
    }
}

} // verus!
