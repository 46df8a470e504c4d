use fusion_chess::layout::create_pieces;
use fusion_chess::moves::is_square_defended;
use fusion_chess::occupancy::{
    colour_at, is_path_clear, is_square_occupied, piece_at, piece_index_at,
};
use fusion_chess::oracle::{
    is_colour_in_check, is_colour_in_checkmate, pieces_without, position_after,
};
use fusion_chess::piece::{Piece, PieceColour, PieceType};

fn sorted(mut moves: Vec<(i8, i8)>) -> Vec<(i8, i8)> {
    moves.sort();
    moves
}

fn find(pieces: &Vec<Piece>, x: u8, y: u8) -> usize {
    for (i, p) in pieces.iter().enumerate() {
        if p.x == x && p.y == y {
            return i;
        }
    }
    panic!("no piece with its anchor on ({}, {})", x, y);
}

fn moved(piece_type: PieceType, colour: PieceColour, x: u8, y: u8) -> Piece {
    let mut p = Piece::new(piece_type, colour, x, y);
    p.has_moved = true;
    p
}

fn moves_of(pieces: &Vec<Piece>, i: usize) -> Vec<(i8, i8)> {
    let others = pieces_without(pieces, &pieces[i]);
    sorted(pieces[i].valid_moves(&others))
}

#[test]
fn opposite_swaps_the_colours() {
    assert_eq!(PieceColour::White.opposite(), PieceColour::Black);
    assert_eq!(PieceColour::Black.opposite(), PieceColour::White);
    assert_eq!(PieceColour::White.opposite().opposite(), PieceColour::White);
}

#[test]
fn new_piece_covers_its_anchor_only() {
    let p = Piece::new(PieceType::Bishop, PieceColour::Black, 2, 7);
    assert_eq!(p.squares_occupied, vec![(0, 0)]);
    assert!(!p.has_moved && !p.just_moved && !p.can_en_passant);
    assert!(p.occupies_square((2, 7)));
    assert!(!p.occupies_square((2, 6)));
    assert!(p.occupies_row(7));
    assert!(!p.occupies_row(6));
    assert!(p.is_wf());
    assert!(p.is_single());
}

#[test]
fn a_piece_off_the_board_is_not_well_formed() {
    let mut p = Piece::new(PieceType::Rook, PieceColour::White, 0, 0);
    p.squares_occupied.push((-1, 0));
    assert!(!p.is_wf());
    let mut q = Piece::new(PieceType::Rook, PieceColour::White, 0, 0);
    q.squares_occupied.push((0, 0));
    assert!(!q.is_wf());
    let mut r = Piece::new(PieceType::Rook, PieceColour::White, 3, 3);
    r.squares_occupied = vec![(1, 0)];
    assert!(!r.is_wf());
}

#[test]
fn occupancy_counts_every_square_of_a_footprint() {
    let mut p = moved(PieceType::Rook, PieceColour::White, 3, 3);
    p.squares_occupied.push((1, 0));
    p.squares_occupied.push((0, -1));
    let pieces = vec![p];
    assert!(is_square_occupied((3, 3), &pieces));
    assert!(is_square_occupied((4, 3), &pieces));
    assert!(is_square_occupied((3, 2), &pieces));
    assert!(!is_square_occupied((2, 3), &pieces));
    assert!(pieces[0].occupies_row(2));
    assert!(!pieces[0].occupies_row(4));
}

#[test]
fn same_as_ignores_the_order_of_the_offsets() {
    let mut a = Piece::new(PieceType::Queen, PieceColour::White, 4, 4);
    a.squares_occupied = vec![(0, 0), (1, 1), (-1, 0)];
    let mut b = Piece::new(PieceType::Queen, PieceColour::White, 4, 4);
    b.squares_occupied = vec![(-1, 0), (0, 0), (1, 1)];
    assert!(a.same_as(&b));
    b.squares_occupied.push((0, 1));
    assert!(!a.same_as(&b));
    assert!(a.within(&b));
    assert!(!b.within(&a));
    let mut c = a.clone();
    assert!(a.same_as(&c));
    c.has_moved = true;
    assert!(!a.same_as(&c));
}

#[test]
fn rook_in_the_corner_has_no_move_at_the_start() {
    let pieces = create_pieces();
    let rook = find(&pieces, 0, 0);
    assert_eq!(pieces[rook].piece_type, PieceType::Rook);
    assert_eq!(moves_of(&pieces, rook), vec![]);
}

#[test]
fn knight_has_two_moves_at_the_start() {
    let pieces = create_pieces();
    let knight = find(&pieces, 1, 0);
    assert_eq!(pieces[knight].piece_type, PieceType::Knight);
    assert_eq!(moves_of(&pieces, knight), vec![(-1, 2), (1, 2)]);
    assert!(pieces[knight].is_move_valid((0, 2), &pieces));
    assert!(pieces[knight].is_move_valid((2, 2), &pieces));
    assert!(!pieces[knight].is_move_valid((3, 1), &pieces));
    assert!(!pieces[knight].is_move_valid((1, 2), &pieces));
}

#[test]
fn pawns_advance_one_or_two_rows_from_home() {
    let pieces = create_pieces();
    let white = find(&pieces, 4, 1);
    assert_eq!(moves_of(&pieces, white), vec![(0, 1), (0, 2)]);
    let black = find(&pieces, 4, 6);
    assert_eq!(moves_of(&pieces, black), vec![(0, -2), (0, -1)]);
}

#[test]
fn pawn_is_blocked_by_any_piece_ahead() {
    let pieces = vec![
        Piece::new(PieceType::Pawn, PieceColour::White, 2, 1),
        moved(PieceType::Knight, PieceColour::Black, 2, 2),
    ];
    assert_eq!(moves_of(&pieces, 0), vec![]);
    let pieces = vec![
        Piece::new(PieceType::Pawn, PieceColour::White, 2, 1),
        moved(PieceType::Knight, PieceColour::White, 2, 3),
    ];
    assert_eq!(moves_of(&pieces, 0), vec![(0, 1)]);
    let pieces = vec![moved(PieceType::Pawn, PieceColour::White, 2, 2)];
    assert_eq!(moves_of(&pieces, 0), vec![(0, 1)]);
    let pieces = vec![moved(PieceType::Pawn, PieceColour::Black, 2, 0)];
    assert_eq!(moves_of(&pieces, 0), vec![]);
}

#[test]
fn pawn_captures_are_its_two_diagonal_steps() {
    let pieces = vec![
        moved(PieceType::Pawn, PieceColour::White, 3, 3),
        moved(PieceType::Knight, PieceColour::White, 2, 4),
    ];
    let others = pieces_without(&pieces, &pieces[0]);
    assert_eq!(sorted(pieces[0].valid_captures(&others)), vec![(1, 1)]);
    let edge = vec![moved(PieceType::Pawn, PieceColour::Black, 0, 3)];
    assert_eq!(sorted(edge[0].valid_captures(&vec![])), vec![(1, -1)]);
    // a step that takes nothing is no move
    assert!(!pieces[0].is_move_valid((4, 4), &pieces));
}

#[test]
fn pawn_takes_on_the_diagonal_and_in_passing() {
    let mut runner = moved(PieceType::Pawn, PieceColour::Black, 4, 4);
    runner.can_en_passant = true;
    runner.just_moved = true;
    let pieces = vec![
        moved(PieceType::Pawn, PieceColour::White, 3, 4),
        runner,
        moved(PieceType::Rook, PieceColour::Black, 2, 5),
    ];
    assert!(pieces[0].is_move_valid((2, 5), &pieces));
    assert!(pieces[0].is_move_valid((4, 5), &pieces));
    assert!(pieces[0].is_move_valid((3, 5), &pieces));
    let mut calm = pieces.clone();
    calm[1].can_en_passant = false;
    assert!(!calm[0].is_move_valid((4, 5), &calm));
}

#[test]
fn rook_ray_stops_at_the_first_piece() {
    let pieces = vec![
        moved(PieceType::Rook, PieceColour::White, 3, 3),
        moved(PieceType::Pawn, PieceColour::White, 3, 5),
        moved(PieceType::Pawn, PieceColour::Black, 5, 3),
        moved(PieceType::Pawn, PieceColour::Black, 6, 3),
    ];
    assert_eq!(
        moves_of(&pieces, 0),
        sorted(vec![
            (0, 1),
            (1, 0),
            (2, 0),
            (-1, 0),
            (-2, 0),
            (-3, 0),
            (0, -1),
            (0, -2),
            (0, -3)
        ])
    );
}

#[test]
fn bishop_and_queen_on_an_empty_board() {
    let bishop = vec![moved(PieceType::Bishop, PieceColour::White, 0, 0)];
    assert_eq!(
        moves_of(&bishop, 0),
        vec![(1, 1), (2, 2), (3, 3), (4, 4), (5, 5), (6, 6), (7, 7)]
    );
    let queen = vec![moved(PieceType::Queen, PieceColour::Black, 3, 3)];
    assert_eq!(moves_of(&queen, 0).len(), 27);
    let king = vec![moved(PieceType::King, PieceColour::Black, 0, 7)];
    assert_eq!(moves_of(&king, 0), vec![(0, -1), (1, -1), (1, 0)]);
    let knight = vec![moved(PieceType::Knight, PieceColour::Black, 3, 3)];
    assert_eq!(moves_of(&knight, 0).len(), 8);
}

#[test]
fn a_wide_piece_moves_only_where_all_of_it_fits() {
    let mut rook = moved(PieceType::Rook, PieceColour::White, 3, 0);
    rook.squares_occupied.push((1, 0));
    let pieces = vec![
        rook,
        moved(PieceType::Pawn, PieceColour::Black, 4, 2),
        moved(PieceType::Pawn, PieceColour::White, 0, 0),
    ];
    // upwards the second square meets the pawn after one step; to the right
    // the piece ends on column 6 so that its second square stays on the board;
    // to the left its own pawn stops it
    assert_eq!(
        moves_of(&pieces, 0),
        sorted(vec![(0, 1), (0, 2), (1, 0), (2, 0), (3, 0), (-1, 0), (-2, 0)])
    );
}

#[test]
fn ray_is_closed_where_a_square_meets_a_friend_and_another_a_foe() {
    let mut rook = moved(PieceType::Rook, PieceColour::White, 3, 0);
    rook.squares_occupied.push((1, 0));
    let pieces = vec![
        rook,
        moved(PieceType::Pawn, PieceColour::Black, 3, 2),
        moved(PieceType::Pawn, PieceColour::White, 4, 2),
    ];
    let up: Vec<(i8, i8)> = moves_of(&pieces, 0).into_iter().filter(|m| m.0 == 0).collect();
    assert_eq!(up, vec![(0, 1)]);
    let mut swapped = pieces.clone();
    swapped[0].squares_occupied = vec![(1, 0), (0, 0)];
    swapped.swap(1, 2);
    let up: Vec<(i8, i8)> = moves_of(&swapped, 0).into_iter().filter(|m| m.0 == 0).collect();
    assert_eq!(up, vec![(0, 1)]);
}

#[test]
fn move_validity_does_not_depend_on_the_order_of_the_pieces() {
    let mut pieces = create_pieces();
    // open the position a little
    pieces.retain(|p| !(p.piece_type == PieceType::Pawn && (p.x == 3 || p.x == 4)));
    let mut shuffled = pieces.clone();
    shuffled.reverse();
    shuffled.swap(3, 11);
    shuffled.swap(0, 20);
    for p in pieces.iter() {
        for x in 0..8u8 {
            for y in 0..8u8 {
                assert_eq!(
                    p.is_move_valid((x, y), &pieces),
                    p.is_move_valid((x, y), &shuffled),
                    "piece on ({}, {}) to ({}, {})",
                    p.x,
                    p.y,
                    x,
                    y
                );
            }
        }
    }
}

#[test]
fn king_castles_when_the_way_is_free_and_safe() {
    let pieces = vec![
        Piece::new(PieceType::King, PieceColour::White, 3, 0),
        Piece::new(PieceType::Rook, PieceColour::White, 0, 0),
        Piece::new(PieceType::Rook, PieceColour::White, 7, 0),
        Piece::new(PieceType::King, PieceColour::Black, 3, 7),
    ];
    let moves = moves_of(&pieces, 0);
    assert!(moves.contains(&(-2, 0)));
    assert!(moves.contains(&(2, 0)));
    assert_eq!(moves.len(), 7);
    assert!(pieces[0].can_castle(-1, &pieces_without(&pieces, &pieces[0])));

    let mut king_moved = pieces.clone();
    king_moved[0].has_moved = true;
    let moves = moves_of(&king_moved, 0);
    assert!(!moves.contains(&(-2, 0)) && !moves.contains(&(2, 0)));

    let mut rook_moved = pieces.clone();
    rook_moved[1].has_moved = true;
    let moves = moves_of(&rook_moved, 0);
    assert!(!moves.contains(&(-2, 0)));
    assert!(moves.contains(&(2, 0)));
}

#[test]
fn king_does_not_castle_through_a_piece_or_an_attack() {
    let mut pieces = vec![
        Piece::new(PieceType::King, PieceColour::White, 3, 0),
        Piece::new(PieceType::Rook, PieceColour::White, 0, 0),
        Piece::new(PieceType::Rook, PieceColour::White, 7, 0),
        moved(PieceType::Knight, PieceColour::White, 1, 0),
        moved(PieceType::Rook, PieceColour::Black, 4, 6),
    ];
    // the knight stands on the landing square of the one side, the black rook
    // attacks the crossing square of the other
    let moves = moves_of(&pieces, 0);
    assert!(!moves.contains(&(-2, 0)));
    assert!(!moves.contains(&(2, 0)));
    pieces[4].x = 6;
    let moves = moves_of(&pieces, 0);
    assert!(moves.contains(&(2, 0)));
    pieces[4].x = 3;
    let moves = moves_of(&pieces, 0);
    assert!(!moves.contains(&(2, 0)));
}

#[test]
fn a_piece_does_not_defend_its_own_square() {
    let pieces = vec![
        moved(PieceType::Rook, PieceColour::White, 0, 0),
        moved(PieceType::Rook, PieceColour::White, 0, 5),
    ];
    // a square that a piece of the same side holds is reached by no capture
    assert!(!is_square_defended((0, 5), PieceColour::White, &pieces));
    assert!(is_square_defended((0, 3), PieceColour::White, &pieces));
    assert!(is_square_defended((0, 7), PieceColour::White, &pieces));
    assert!(!is_square_defended((0, 3), PieceColour::Black, &pieces));
    let alone = vec![moved(PieceType::Rook, PieceColour::White, 0, 0)];
    assert!(!is_square_defended((0, 0), PieceColour::White, &alone));
    assert!(is_square_defended((0, 7), PieceColour::White, &alone));
    assert!(!is_square_defended((1, 1), PieceColour::White, &alone));
}

#[test]
fn a_pawn_defends_its_diagonals_and_not_the_square_ahead() {
    let pieces = vec![moved(PieceType::Pawn, PieceColour::White, 3, 3)];
    assert!(is_square_defended((2, 4), PieceColour::White, &pieces));
    assert!(is_square_defended((4, 4), PieceColour::White, &pieces));
    assert!(!is_square_defended((3, 4), PieceColour::White, &pieces));
}

#[test]
fn every_square_of_a_fused_bishop_attacks() {
    let mut bishop = Piece::new(PieceType::Bishop, PieceColour::White, 2, 0);
    bishop.consume_piece(4, 2);
    assert_eq!(sorted(bishop.squares_occupied.clone()), vec![(-1, -1), (0, 0)]);
    bishop.x = 4;
    bishop.y = 2;
    bishop.has_moved = true;
    assert!(bishop.is_wf());
    assert!(bishop.occupies_square((4, 2)));
    assert!(bishop.occupies_square((3, 1)));
    let pieces = vec![bishop];
    // reached by the anchor square only
    assert!(is_square_defended((5, 1), PieceColour::White, &pieces));
    // reached by the fused square only
    assert!(is_square_defended((2, 2), PieceColour::White, &pieces));
    assert!(is_square_defended((4, 0), PieceColour::White, &pieces));
    // on the piece's own diagonal, beyond both squares
    assert!(is_square_defended((6, 4), PieceColour::White, &pieces));
    // its own squares and squares off its diagonals
    assert!(!is_square_defended((3, 1), PieceColour::White, &pieces));
    assert!(!is_square_defended((4, 2), PieceColour::White, &pieces));
    assert!(!is_square_defended((4, 3), PieceColour::White, &pieces));
}

#[test]
fn check_is_an_attack_on_any_square_of_the_king() {
    let pieces = vec![
        moved(PieceType::King, PieceColour::White, 3, 0),
        moved(PieceType::Rook, PieceColour::Black, 3, 7),
        moved(PieceType::King, PieceColour::Black, 7, 7),
    ];
    assert!(is_colour_in_check(PieceColour::White, &pieces));
    assert!(!is_colour_in_check(PieceColour::Black, &pieces));
    let mut screened = pieces.clone();
    screened.push(moved(PieceType::Pawn, PieceColour::White, 3, 4));
    assert!(!is_colour_in_check(PieceColour::White, &screened));
    let mut wide = pieces.clone();
    wide[0].x = 2;
    assert!(!is_colour_in_check(PieceColour::White, &wide));
    wide[0].squares_occupied.push((1, 0));
    assert!(is_colour_in_check(PieceColour::White, &wide));
}

#[test]
fn a_pinned_piece_has_valid_moves_that_may_not_be_played() {
    let pieces = vec![
        moved(PieceType::King, PieceColour::White, 3, 0),
        moved(PieceType::Bishop, PieceColour::White, 3, 1),
        moved(PieceType::Rook, PieceColour::Black, 3, 7),
        moved(PieceType::King, PieceColour::Black, 7, 7),
    ];
    assert!(pieces[1].is_move_valid((4, 2), &pieces));
    assert!(!pieces[1].is_move_playable((4, 2), &pieces));
    assert!(pieces[0].is_move_playable((2, 0), &pieces));
    assert!(!pieces[0].is_move_playable((3, 0), &pieces));
    assert!(pieces[1].has_playable_move(&pieces) == false);
    assert!(pieces[0].has_playable_move(&pieces));
}

#[test]
fn trying_a_move_leaves_the_pieces_alone() {
    let pieces = create_pieces();
    let knight = find(&pieces, 1, 0);
    let after = position_after(&pieces, &pieces[knight], (2, 2));
    assert_eq!(after.len(), 32);
    assert_eq!(after[knight].x, 2);
    assert_eq!(after[knight].y, 2);
    assert_eq!(pieces[knight].x, 1);
    assert_eq!(pieces[knight].y, 0);
    for (a, b) in pieces.iter().zip(create_pieces().iter()) {
        assert!(a.same_as(b));
    }
    let queen = find(&pieces, 4, 0);
    let after = position_after(&pieces, &pieces[queen], (4, 6));
    assert_eq!(after.len(), 31);
    assert!(!after.iter().any(|p| p.colour == PieceColour::Black && p.x == 4 && p.y == 6));
}

#[test]
fn fools_mate_mates_white_and_not_black() {
    let mut pieces = create_pieces();
    let i = find(&pieces, 2, 1);
    pieces[i].y = 2;
    pieces[i].has_moved = true;
    let i = find(&pieces, 3, 6);
    pieces[i].y = 4;
    pieces[i].has_moved = true;
    let i = find(&pieces, 1, 1);
    pieces[i].y = 3;
    pieces[i].has_moved = true;
    let i = find(&pieces, 4, 7);
    pieces[i].x = 0;
    pieces[i].y = 3;
    pieces[i].has_moved = true;
    assert!(is_colour_in_check(PieceColour::White, &pieces));
    assert!(is_colour_in_checkmate(PieceColour::White, &pieces));
    assert!(!is_colour_in_checkmate(PieceColour::Black, &pieces));
    assert!(!is_colour_in_check(PieceColour::Black, &pieces));
    // the order in which the pieces are listed makes no difference
    pieces.reverse();
    pieces.swap(2, 17);
    assert!(is_colour_in_check(PieceColour::White, &pieces));
    assert!(is_colour_in_checkmate(PieceColour::White, &pieces));
    assert!(!is_colour_in_checkmate(PieceColour::Black, &pieces));
}

#[test]
fn nobody_is_mated_at_the_start() {
    let pieces = create_pieces();
    assert!(!is_colour_in_checkmate(PieceColour::White, &pieces));
    assert!(!is_colour_in_checkmate(PieceColour::Black, &pieces));
}

#[test]
fn a_pawn_capture_can_lift_a_mate() {
    // the king in the corner is checked by a rook that only the pawn can take
    let pieces = vec![
        moved(PieceType::King, PieceColour::White, 0, 0),
        moved(PieceType::Pawn, PieceColour::White, 1, 1),
        moved(PieceType::Pawn, PieceColour::White, 1, 0),
        moved(PieceType::Rook, PieceColour::Black, 0, 2),
        moved(PieceType::Rook, PieceColour::Black, 7, 1),
        moved(PieceType::King, PieceColour::Black, 7, 7),
    ];
    assert!(is_colour_in_check(PieceColour::White, &pieces));
    assert!(pieces[1].is_move_playable((0, 2), &pieces));
    assert!(!is_colour_in_checkmate(PieceColour::White, &pieces));
}

#[test]
fn first_piece_on_a_square_is_found() {
    let mut wide = moved(PieceType::Rook, PieceColour::Black, 2, 2);
    wide.squares_occupied.push((1, 0));
    let pieces = vec![
        moved(PieceType::Pawn, PieceColour::White, 0, 0),
        wide,
        moved(PieceType::Pawn, PieceColour::White, 3, 2),
    ];
    assert_eq!(piece_index_at((3, 2), &pieces), Some(1));
    assert_eq!(piece_index_at((2, 2), &pieces), Some(1));
    assert_eq!(piece_index_at((0, 0), &pieces), Some(0));
    assert_eq!(piece_index_at((4, 2), &pieces), None);
    assert_eq!(colour_at((3, 2), &pieces), Some(PieceColour::Black));
    assert_eq!(colour_at((0, 0), &pieces), Some(PieceColour::White));
    assert_eq!(colour_at((7, 7), &pieces), None);
    assert_eq!(piece_at((3, 2), &pieces).map(|p| p.piece_type), Some(PieceType::Rook));
    assert!(piece_at((5, 5), &pieces).is_none());
}

#[test]
fn path_is_clear_when_nothing_stands_strictly_between() {
    let mut wide = moved(PieceType::Rook, PieceColour::Black, 2, 2);
    wide.squares_occupied.push((1, 0));
    let pieces = vec![wide, moved(PieceType::Pawn, PieceColour::White, 5, 5)];
    // along a row, a column and both diagonals
    assert!(is_path_clear((0, 0), (7, 0), &pieces));
    assert!(!is_path_clear((0, 2), (7, 2), &pieces));
    assert!(!is_path_clear((3, 0), (3, 7), &pieces));
    assert!(is_path_clear((4, 0), (4, 7), &pieces));
    assert!(!is_path_clear((0, 0), (7, 7), &pieces));
    assert!(!is_path_clear((7, 7), (0, 0), &pieces));
    assert!(is_path_clear((0, 7), (7, 0), &pieces));
    // the ends do not count
    assert!(is_path_clear((2, 2), (2, 7), &pieces));
    assert!(is_path_clear((0, 0), (2, 2), &pieces));
    assert!(is_path_clear((5, 5), (7, 7), &pieces));
    assert!(is_path_clear((4, 4), (5, 5), &pieces));
    assert!(is_path_clear((4, 4), (4, 4), &pieces));
    // off any line there is no path
    assert!(!is_path_clear((0, 0), (1, 2), &pieces));
    assert!(!is_path_clear((0, 0), (7, 6), &pieces));
}
