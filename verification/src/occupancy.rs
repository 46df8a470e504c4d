//! Who stands where: the board is never stored, every question about a square
//! is answered from the pieces' footprints.

use crate::moves::{reach, scaled};
use crate::piece::{board, Piece, PieceColour, PieceView};
use vstd::prelude::*;

verus! {

/// Some piece of `ps` covers `(sx, sy)`.
pub open spec fn occupied(ps: Seq<PieceView>, sx: int, sy: int) -> bool {
    exists|i: int| 0 <= i < ps.len() && (#[trigger] ps[i]).occupies(sx, sy)
}

/// Some piece of colour `c` in `ps` covers `(sx, sy)`.
pub open spec fn occupied_by(ps: Seq<PieceView>, c: PieceColour, sx: int, sy: int) -> bool {
    exists|i: int| 0 <= i < ps.len() && (#[trigger] ps[i]).colour == c && ps[i].occupies(sx, sy)
}

/// Whether some piece covers the square `(sx, sy)`, which may lie off the
/// board.
pub fn square_held(sx: i16, sy: i16, pieces: &Vec<Piece>) -> (r: bool)
    requires
        -1024 <= sx <= 1024,
        -1024 <= sy <= 1024,
    ensures
        r == occupied(board(pieces@), sx as int, sy as int),
{
    let mut i: usize = 0;
    while i < pieces.len()
        invariant
            i <= pieces.len(),
            -1024 <= sx <= 1024,
            -1024 <= sy <= 1024,
            forall|j: int| 0 <= j < i ==> !(#[trigger] board(pieces@)[j]).occupies(sx as int, sy as int),
        decreases pieces.len() - i,
    {
        if pieces[i].covers(sx, sy) {
            assert(board(pieces@)[i as int].occupies(sx as int, sy as int));
            return true;
        }
        i += 1;
    }
    false
}

/// Whether some piece of colour `colour` covers the square `(sx, sy)`, which
/// may lie off the board.
pub fn square_held_by(sx: i16, sy: i16, colour: PieceColour, pieces: &Vec<Piece>) -> (r: bool)
    requires
        -1024 <= sx <= 1024,
        -1024 <= sy <= 1024,
    ensures
        r == occupied_by(board(pieces@), colour, sx as int, sy as int),
{
    let mut i: usize = 0;
    while i < pieces.len()
        invariant
            i <= pieces.len(),
            -1024 <= sx <= 1024,
            -1024 <= sy <= 1024,
            forall|j: int|
                0 <= j < i ==> !((#[trigger] board(pieces@)[j]).colour == colour && board(
                    pieces@,
                )[j].occupies(sx as int, sy as int)),
        decreases pieces.len() - i,
    {
        if pieces[i].colour == colour && pieces[i].covers(sx, sy) {
            assert(board(pieces@)[i as int].colour == colour && board(pieces@)[i as int].occupies(
                sx as int,
                sy as int,
            ));
            return true;
        }
        i += 1;
    }
    false
}

/// Whether any piece covers `pos`. Every square of every footprint counts,
/// not the anchors alone.
pub fn is_square_occupied(pos: (u8, u8), pieces: &Vec<Piece>) -> (r: bool)
    ensures
        r == occupied(board(pieces@), pos.0 as int, pos.1 as int),
{
    square_held(pos.0 as i16, pos.1 as i16, pieces)
}

/// The piece at index `i` is the first of `ps` that covers `(sx, sy)`.
pub open spec fn is_first_at(ps: Seq<PieceView>, i: int, sx: int, sy: int) -> bool {
    &&& 0 <= i < ps.len()
    &&& ps[i].occupies(sx, sy)
    &&& forall|j: int| 0 <= j < i ==> !(#[trigger] ps[j]).occupies(sx, sy)
}

/// The index of the first piece that covers `pos`.
pub fn piece_index_at(pos: (u8, u8), pieces: &Vec<Piece>) -> (r: Option<usize>)
    ensures
        match r {
            Some(i) => is_first_at(board(pieces@), i as int, pos.0 as int, pos.1 as int),
            None => !occupied(board(pieces@), pos.0 as int, pos.1 as int),
        },
{
    let mut i: usize = 0;
    while i < pieces.len()
        invariant
            i <= pieces.len(),
            forall|j: int|
                0 <= j < i ==> !(#[trigger] board(pieces@)[j]).occupies(pos.0 as int, pos.1 as int),
        decreases pieces.len() - i,
    {
        if pieces[i].occupies_square(pos) {
            return Some(i);
        }
        i += 1;
    }
    None
}

/// The first piece that covers `pos`.
pub fn piece_at(pos: (u8, u8), pieces: &Vec<Piece>) -> (r: Option<&Piece>)
    ensures
        match r {
            Some(p) => exists|i: int|
                is_first_at(board(pieces@), i, pos.0 as int, pos.1 as int) && *p == pieces@[i],
            None => !occupied(board(pieces@), pos.0 as int, pos.1 as int),
        },
{
    match piece_index_at(pos, pieces) {
        Some(i) => {
            assert(is_first_at(board(pieces@), i as int, pos.0 as int, pos.1 as int));
            Some(&pieces[i])
        },
        None => None,
    }
}

/// The colour of the first piece that covers `pos`.
pub fn colour_at(pos: (u8, u8), pieces: &Vec<Piece>) -> (r: Option<PieceColour>)
    ensures
        match r {
            Some(c) => exists|i: int|
                is_first_at(board(pieces@), i, pos.0 as int, pos.1 as int) && board(pieces@)[i].colour
                    == c,
            None => !occupied(board(pieces@), pos.0 as int, pos.1 as int),
        },
{
    match piece_index_at(pos, pieces) {
        Some(i) => {
            assert(is_first_at(board(pieces@), i as int, pos.0 as int, pos.1 as int));
            Some(pieces[i].colour)
        },
        None => None,
    }
}

/// The travel `(dx, dy)` stays on a row, a column or a diagonal; no travel at
/// all counts.
pub open spec fn is_aligned(dx: int, dy: int) -> bool {
    dx == 0 || dy == 0 || dx == dy || dx == -dy
}

/// The `k`-th square on the way from `(fx, fy)` in the direction of
/// `(dx, dy)` is held by a piece of `ps`.
pub open spec fn way_held_at(ps: Seq<PieceView>, fx: int, fy: int, dx: int, dy: int, k: int) -> bool {
    occupied(ps, fx + scaled(dx, k), fy + scaled(dy, k))
}

/// The squares strictly between `(fx, fy)` and `(tx, ty)`, which lie on one
/// line, are held by nobody. The two ends are not looked at.
pub open spec fn path_clear(ps: Seq<PieceView>, fx: int, fy: int, tx: int, ty: int) -> bool {
    &&& is_aligned(tx - fx, ty - fy)
    &&& forall|k: int|
        1 <= k < reach(tx - fx, ty - fy) ==> !#[trigger] way_held_at(ps, fx, fy, tx - fx, ty - fy, k)
}

/// Whether `from` and `to` lie on one row, column or diagonal and no square
/// strictly between them is covered by any piece, with any square of its
/// footprint.
pub fn is_path_clear(from: (u8, u8), to: (u8, u8), pieces: &Vec<Piece>) -> (r: bool)
    ensures
        r == path_clear(board(pieces@), from.0 as int, from.1 as int, to.0 as int, to.1 as int),
{
    let dx: i16 = to.0 as i16 - from.0 as i16;
    let dy: i16 = to.1 as i16 - from.1 as i16;
    if !(dx == 0 || dy == 0 || dx == dy || dx == -dy) {
        return false;
    }
    let ux: i16 = if dx > 0 {
        1
    } else if dx < 0 {
        -1
    } else {
        0
    };
    let uy: i16 = if dy > 0 {
        1
    } else if dy < 0 {
        -1
    } else {
        0
    };
    let ax: i16 = if dx < 0 { -dx } else { dx };
    let ay: i16 = if dy < 0 { -dy } else { dy };
    let n: i16 = if ax > ay { ax } else { ay };
    let ghost ps = board(pieces@);
    let mut k: i16 = 1;
    let mut cx: i16 = from.0 as i16 + ux;
    let mut cy: i16 = from.1 as i16 + uy;
    while k < n
        invariant
            1 <= k,
            k <= n || n == 0,
            n == reach(dx as int, dy as int),
            n <= 255,
            dx == to.0 - from.0,
            dy == to.1 - from.1,
            ux == scaled(dx as int, 1),
            uy == scaled(dy as int, 1),
            cx == from.0 + scaled(dx as int, k as int),
            cy == from.1 + scaled(dy as int, k as int),
            ps == board(pieces@),
            forall|j: int|
                1 <= j < k ==> !#[trigger] way_held_at(
                    ps,
                    from.0 as int,
                    from.1 as int,
                    dx as int,
                    dy as int,
                    j,
                ),
        decreases n - k,
    {
        if square_held(cx, cy, pieces) {
            assert(way_held_at(ps, from.0 as int, from.1 as int, dx as int, dy as int, k as int));
            return false;
        }
        k = k + 1;
        cx = cx + ux;
        cy = cy + uy;
    }
    true
}

} // verus!
