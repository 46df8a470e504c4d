//! The pieces: colour, kind, and the footprint a piece holds on the board.
//!
//! A piece has an anchor square and a set of offsets from it. Every rule in
//! this crate is stated over the [`PieceView`] of a piece, in which the
//! footprint is a mathematical set, so the order in which a piece stores its
//! offsets never matters.

use vstd::prelude::*;

verus! {

/// The two sides.
#[derive(Clone, Copy, PartialEq, Eq, Structural, Debug)]
pub enum PieceColour {
    White,
    Black,
}

impl PieceColour {
    /// The other side, as a specification.
    pub open spec fn spec_opposite(&self) -> PieceColour {
        match self {
            PieceColour::White => PieceColour::Black,
            PieceColour::Black => PieceColour::White,
        }
    }

    /// The other side.
    #[verifier::when_used_as_spec(spec_opposite)]
    pub fn opposite(&self) -> (r: PieceColour)
        ensures
            r == self.spec_opposite(),
    {
        match self {
            PieceColour::White => PieceColour::Black,
            PieceColour::Black => PieceColour::White,
        }
    }
}

/// `opposite` undoes itself and never returns its argument.
pub proof fn lemma_opposite_involution(c: PieceColour)
    ensures
        c.spec_opposite().spec_opposite() == c,
        c.spec_opposite() != c,
{
}

/// The six kinds of piece.
#[derive(Clone, Copy, PartialEq, Eq, Structural, Debug)]
pub enum PieceType {
    King,
    Queen,
    Bishop,
    Knight,
    Rook,
    Pawn,
}

/// Whether `(x, y)` is one of the sixty-four squares.
pub open spec fn on_board(x: int, y: int) -> bool {
    0 <= x <= 7 && 0 <= y <= 7
}

/// The offsets stored in `s`, as a set of integer pairs.
pub open spec fn offsets_of(s: Seq<(i8, i8)>) -> Set<(int, int)> {
    Set::new(
        |o: (int, int)|
            exists|i: int| 0 <= i < s.len() && (#[trigger] s[i]).0 == o.0 && s[i].1 == o.1,
    )
}

/// Whether `v` holds the offset `(dx, dy)`.
pub fn offsets_have(v: &Vec<(i8, i8)>, dx: i16, dy: i16) -> (r: bool)
    ensures
        r == offsets_of(v@).contains((dx as int, dy as int)),
{
    let mut i: usize = 0;
    while i < v.len()
        invariant
            i <= v.len(),
            forall|j: int| 0 <= j < i ==> !((#[trigger] v@[j]).0 == dx && v@[j].1 == dy),
        decreases v.len() - i,
    {
        let o = v[i];
        if o.0 as i16 == dx && o.1 as i16 == dy {
            return true;
        }
        i += 1;
    }
    false
}

/// A copy of `v`.
pub fn copy_offsets(v: &Vec<(i8, i8)>) -> (r: Vec<(i8, i8)>)
    ensures
        r@ == v@,
{
    let mut out: Vec<(i8, i8)> = Vec::new();
    let mut i: usize = 0;
    while i < v.len()
        invariant
            i <= v.len(),
            out@ == v@.take(i as int),
        decreases v.len() - i,
    {
        let o = v[i];
        out.push((o.0, o.1));
        i += 1;
    }
    assert(out@ == v@);
    out
}

/// What a piece is, mathematically: its anchor, the set of offsets it covers
/// and its flags.
pub struct PieceView {
    pub colour: PieceColour,
    pub piece_type: PieceType,
    pub x: int,
    pub y: int,
    pub footprint: Set<(int, int)>,
    pub has_moved: bool,
    pub just_moved: bool,
    pub can_en_passant: bool,
}

impl PieceView {
    /// The piece stands on the board with every square of its footprint, and
    /// its anchor is one of them.
    pub open spec fn wf(self) -> bool {
        &&& self.footprint.contains((0, 0))
        &&& forall|o: (int, int)| #[trigger]
            self.footprint.contains(o) ==> on_board(self.x + o.0, self.y + o.1)
    }

    /// The piece covers the square `(sx, sy)`.
    pub open spec fn occupies(self, sx: int, sy: int) -> bool {
        self.footprint.contains((sx - self.x, sy - self.y))
    }

    /// The piece covers some square of row `row`.
    pub open spec fn occupies_row(self, row: int) -> bool {
        exists|o: (int, int)| #[trigger] self.footprint.contains(o) && self.y + o.1 == row
    }

    /// The same piece with its anchor on `(nx, ny)`.
    pub open spec fn moved_to(self, nx: int, ny: int) -> PieceView {
        PieceView { x: nx, y: ny, ..self }
    }

    /// A piece that has just been set on `(x, y)`: one square, no flag raised.
    pub open spec fn fresh(piece_type: PieceType, colour: PieceColour, x: int, y: int) -> PieceView {
        PieceView {
            colour,
            piece_type,
            x,
            y,
            footprint: set![(0int, 0int)],
            has_moved: false,
            just_moved: false,
            can_en_passant: false,
        }
    }
}

/// `occupies` says that some offset of the footprint leads from the anchor to
/// the square.
pub proof fn lemma_occupies_by_offset(p: PieceView, sx: int, sy: int)
    ensures
        p.occupies(sx, sy) <==> exists|o: (int, int)| #[trigger]
            p.footprint.contains(o) && p.x + o.0 == sx && p.y + o.1 == sy,
{
    if p.occupies(sx, sy) {
        assert(p.footprint.contains((sx - p.x, sy - p.y)));
    }
    if exists|o: (int, int)| #[trigger]
        p.footprint.contains(o) && p.x + o.0 == sx && p.y + o.1 == sy {
        let o = choose|o: (int, int)| #[trigger]
            p.footprint.contains(o) && p.x + o.0 == sx && p.y + o.1 == sy;
        assert(o == (sx - p.x, sy - p.y));
    }
}

/// A piece on the board.
#[derive(Debug)]
pub struct Piece {
    pub colour: PieceColour,
    pub piece_type: PieceType,
    /// Column of the anchor square.
    pub x: u8,
    /// Row of the anchor square.
    pub y: u8,
    /// Offsets from the anchor that the piece covers; none occurs twice.
    pub squares_occupied: Vec<(i8, i8)>,
    pub has_moved: bool,
    pub just_moved: bool,
    pub can_en_passant: bool,
}

impl View for Piece {
    type V = PieceView;

    open spec fn view(&self) -> PieceView {
        PieceView {
            colour: self.colour,
            piece_type: self.piece_type,
            x: self.x as int,
            y: self.y as int,
            footprint: offsets_of(self.squares_occupied@),
            has_moved: self.has_moved,
            just_moved: self.just_moved,
            can_en_passant: self.can_en_passant,
        }
    }
}

/// The views of a sequence of pieces, in the same order.
pub open spec fn board(pieces: Seq<Piece>) -> Seq<PieceView> {
    Seq::new(pieces.len(), |i: int| pieces[i]@)
}

/// Every piece of the sequence is well formed.
pub open spec fn all_wf(pieces: Seq<Piece>) -> bool {
    forall|i: int| 0 <= i < pieces.len() ==> (#[trigger] pieces[i]).wf()
}

impl Clone for Piece {
    fn clone(&self) -> (r: Piece)
        ensures
            r@ == self@,
            r.squares_occupied@ == self.squares_occupied@,
    {
        let offsets = copy_offsets(&self.squares_occupied);
        Piece {
            colour: self.colour,
            piece_type: self.piece_type,
            x: self.x,
            y: self.y,
            squares_occupied: offsets,
            has_moved: self.has_moved,
            just_moved: self.just_moved,
            can_en_passant: self.can_en_passant,
        }
    }
}

impl Piece {
    /// The offsets are stored once each, and the piece stands on the board.
    pub open spec fn wf(&self) -> bool {
        &&& self.squares_occupied@.no_duplicates()
        &&& self@.wf()
    }

    /// A piece of the given kind and colour on `(x, y)`, covering that square
    /// alone, which has not moved.
    pub fn new(piece_type: PieceType, colour: PieceColour, x: u8, y: u8) -> (p: Piece)
        ensures
            p@ == PieceView::fresh(piece_type, colour, x as int, y as int),
            p.squares_occupied@ == seq![(0i8, 0i8)],
            on_board(x as int, y as int) ==> p.wf(),
    {
        let mut offsets: Vec<(i8, i8)> = Vec::new();
        offsets.push((0, 0));
        let p = Piece {
            colour,
            piece_type,
            x,
            y,
            squares_occupied: offsets,
            has_moved: false,
            just_moved: false,
            can_en_passant: false,
        };
        proof {
            assert(p.squares_occupied@ == seq![(0i8, 0i8)]);
            assert(p.squares_occupied@[0] == (0i8, 0i8));
            assert(p@.footprint =~= set![(0int, 0int)]);
        }
        p
    }

    /// Whether the offset `(dx, dy)` belongs to the footprint.
    pub fn has_offset(&self, dx: i16, dy: i16) -> (r: bool)
        ensures
            r == self@.footprint.contains((dx as int, dy as int)),
    {
        offsets_have(&self.squares_occupied, dx, dy)
    }

    /// Whether the piece covers the square `(sx, sy)`, which may lie off the
    /// board.
    pub fn covers(&self, sx: i16, sy: i16) -> (r: bool)
        requires
            -1024 <= sx <= 1024,
            -1024 <= sy <= 1024,
        ensures
            r == self@.occupies(sx as int, sy as int),
    {
        self.has_offset(sx - self.x as i16, sy - self.y as i16)
    }

    /// Whether the piece covers `square`.
    pub fn occupies_square(&self, square: (u8, u8)) -> (r: bool)
        ensures
            r == self@.occupies(square.0 as int, square.1 as int),
    {
        self.covers(square.0 as i16, square.1 as i16)
    }

    /// Whether the piece covers a square of row `row`.
    pub fn occupies_row(&self, row: u8) -> (r: bool)
        ensures
            r == self@.occupies_row(row as int),
    {
        let mut i: usize = 0;
        while i < self.squares_occupied.len()
            invariant
                i <= self.squares_occupied.len(),
                forall|j: int|
                    0 <= j < i ==> self.y + (#[trigger] self.squares_occupied@[j]).1 != row,
            decreases self.squares_occupied.len() - i,
        {
            let o = self.squares_occupied[i];
            if self.y as i16 + o.1 as i16 == row as i16 {
                proof {
                    assert(self@.footprint.contains((o.0 as int, o.1 as int)));
                }
                return true;
            }
            i += 1;
        }
        false
    }

    /// Whether the two pieces are the same: same anchor, colour, kind and
    /// flags, and the same squares covered.
    pub fn same_as(&self, other: &Piece) -> (r: bool)
        ensures
            r == (self@ == other@),
    {
        if !(self.colour == other.colour && self.piece_type == other.piece_type && self.x == other.x
            && self.y == other.y && self.has_moved == other.has_moved && self.just_moved
            == other.just_moved && self.can_en_passant == other.can_en_passant) {
            return false;
        }
        if !self.within(other) {
            return false;
        }
        if !other.within(self) {
            return false;
        }
        proof {
            assert(self@.footprint =~= other@.footprint);
        }
        true
    }

    /// Whether every offset of this piece is one of `other`'s.
    pub fn within(&self, other: &Piece) -> (r: bool)
        ensures
            r == self@.footprint.subset_of(other@.footprint),
    {
        let mut i: usize = 0;
        while i < self.squares_occupied.len()
            invariant
                i <= self.squares_occupied.len(),
                forall|j: int|
                    0 <= j < i ==> other@.footprint.contains(
                        (
                            (#[trigger] self.squares_occupied@[j]).0 as int,
                            self.squares_occupied@[j].1 as int,
                        ),
                    ),
            decreases self.squares_occupied.len() - i,
        {
            let o = self.squares_occupied[i];
            if !other.has_offset(o.0 as i16, o.1 as i16) {
                proof {
                    assert(self@.footprint.contains((o.0 as int, o.1 as int)));
                }
                return false;
            }
            i += 1;
        }
        true
    }

    /// Whether the piece covers its anchor square and nothing else.
    pub fn is_single(&self) -> (r: bool)
        ensures
            r == (self@.footprint == set![(0int, 0int)]),
    {
        if self.squares_occupied.len() == 0 {
            proof {
                assert(!self@.footprint.contains((0, 0)));
                assert(set![(0int, 0int)].contains((0, 0)));
            }
            return false;
        }
        let mut i: usize = 0;
        while i < self.squares_occupied.len()
            invariant
                i <= self.squares_occupied.len(),
                forall|j: int|
                    0 <= j < i ==> (#[trigger] self.squares_occupied@[j]).0 == 0
                        && self.squares_occupied@[j].1 == 0,
            decreases self.squares_occupied.len() - i,
        {
            let o = self.squares_occupied[i];
            if o.0 != 0 || o.1 != 0 {
                proof {
                    assert(self@.footprint.contains((o.0 as int, o.1 as int)));
                    assert(!set![(0int, 0int)].contains((o.0 as int, o.1 as int)));
                }
                return false;
            }
            i += 1;
        }
        proof {
            assert(self.squares_occupied@[0].0 == 0 && self.squares_occupied@[0].1 == 0);
            assert(self@.footprint =~= set![(0int, 0int)]);
        }
        true
    }

    /// Whether the piece is well formed: see [`Piece::wf`].
    pub fn is_wf(&self) -> (r: bool)
        ensures
            r == self.wf(),
    {
        let n = self.squares_occupied.len();
        let mut has_anchor = false;
        let mut i: usize = 0;
        while i < n
            invariant
                n == self.squares_occupied.len(),
                i <= n,
                has_anchor == exists|j: int|
                    0 <= j < i && (#[trigger] self.squares_occupied@[j]).0 == 0
                        && self.squares_occupied@[j].1 == 0,
                forall|j: int|
                    0 <= j < i ==> on_board(
                        self.x + (#[trigger] self.squares_occupied@[j]).0,
                        self.y + self.squares_occupied@[j].1,
                    ),
                forall|j: int, k: int|
                    0 <= j < k < i ==> self.squares_occupied@[j] != self.squares_occupied@[k],
            decreases n - i,
        {
            let o = self.squares_occupied[i];
            let ax: i16 = self.x as i16 + o.0 as i16;
            let ay: i16 = self.y as i16 + o.1 as i16;
            if ax < 0 || ax > 7 || ay < 0 || ay > 7 {
                proof {
                    assert(self@.footprint.contains((o.0 as int, o.1 as int)));
                }
                return false;
            }
            let mut k: usize = 0;
            while k < i
                invariant
                    n == self.squares_occupied.len(),
                    k <= i < n,
                    o == self.squares_occupied@[i as int],
                    forall|j: int| 0 <= j < k ==> self.squares_occupied@[j] != o,
                decreases i - k,
            {
                let e = self.squares_occupied[k];
                if e.0 == o.0 && e.1 == o.1 {
                    return false;
                }
                k += 1;
            }
            if o.0 == 0 && o.1 == 0 {
                has_anchor = true;
            }
            i += 1;
        }
        proof {
            if has_anchor {
                assert(self@.footprint.contains((0, 0)));
            }
        }
        has_anchor
    }
}

} // verus!
