use fusion_chess::applier::{apply_move, castle, disable_en_passant, promote_pawns, CastleEvent};
use fusion_chess::game::{
    pick_piece, CheckmateEvent, ConsumeEvent, Game, GameState, Highlight, MoveOutcome, PlayerTurn,
    Rejection, Square,
};
use fusion_chess::layout::create_pieces;
use fusion_chess::piece::{Piece, PieceColour, PieceType};

fn at(game: &Game, x: u8, y: u8) -> usize {
    for (i, p) in game.pieces().iter().enumerate() {
        if p.x == x && p.y == y {
            return i;
        }
    }
    panic!("no piece with its anchor on ({}, {})", x, y);
}

fn play(game: &mut Game, from: (u8, u8), to: (u8, u8)) -> MoveOutcome {
    let i = at(game, from.0, from.1);
    game.attempt_move(i, to)
}

fn moved(piece_type: PieceType, colour: PieceColour, x: u8, y: u8) -> Piece {
    let mut p = Piece::new(piece_type, colour, x, y);
    p.has_moved = true;
    p
}

fn sorted(mut offsets: Vec<(i8, i8)>) -> Vec<(i8, i8)> {
    offsets.sort();
    offsets
}

fn assert_standard(pieces: &Vec<Piece>) {
    assert_eq!(pieces.len(), 32);
    let back = [
        PieceType::Rook,
        PieceType::Knight,
        PieceType::Bishop,
        PieceType::King,
        PieceType::Queen,
        PieceType::Bishop,
        PieceType::Knight,
        PieceType::Rook,
    ];
    for x in 0..8u8 {
        for (y, colour, kind) in [
            (0u8, PieceColour::White, back[x as usize]),
            (1, PieceColour::White, PieceType::Pawn),
            (6, PieceColour::Black, PieceType::Pawn),
            (7, PieceColour::Black, back[x as usize]),
        ] {
            let found: Vec<&Piece> = pieces.iter().filter(|p| p.x == x && p.y == y).collect();
            assert_eq!(found.len(), 1);
            assert_eq!(found[0].colour, colour);
            assert_eq!(found[0].piece_type, kind);
        }
    }
    for p in pieces {
        assert_eq!(p.squares_occupied, vec![(0, 0)]);
        assert!(!p.has_moved && !p.just_moved && !p.can_en_passant);
    }
}

#[test]
fn new_game_is_the_standard_layout() {
    let game = Game::new_game();
    assert_standard(game.pieces());
    assert_eq!(game.active_colour(), PieceColour::White);
    assert_eq!(game.state(), GameState::WhiteToMove);
    assert_eq!(game.selected_piece(), None);
    assert_eq!(game.selected_square(), None);
    assert_standard(&create_pieces());
}

#[test]
fn new_game_after_moves_is_the_standard_layout_again() {
    let mut game = Game::new_game();
    assert_eq!(play(&mut game, (4, 1), (4, 3)), MoveOutcome::Moved);
    assert_eq!(play(&mut game, (3, 6), (3, 4)), MoveOutcome::Moved);
    assert_eq!(play(&mut game, (4, 3), (3, 4)), MoveOutcome::MovedWithCapture);
    assert_eq!(game.pieces().len(), 31);
    game = Game::new_game();
    assert_standard(game.pieces());
    assert_eq!(game.active_colour(), PieceColour::White);
    assert_eq!(game.state(), GameState::WhiteToMove);
}

#[test]
fn default_turn_is_white() {
    assert_eq!(PlayerTurn::default(), PlayerTurn(PieceColour::White));
}

#[test]
fn squares_alternate_in_colour() {
    assert!(Square { x: 0, y: 0 }.is_white());
    assert!(!Square { x: 0, y: 1 }.is_white());
    assert!(!Square { x: 7, y: 0 }.is_white());
    assert!(Square { x: 7, y: 7 }.is_white());
    assert!(!Square { x: 255, y: 0 }.is_white());
    assert!(Square { x: 255, y: 255 }.is_white());
}

#[test]
fn double_step_may_be_taken_in_passing_for_one_turn() {
    let mut game = Game::new_game();
    assert_eq!(play(&mut game, (4, 1), (4, 3)), MoveOutcome::Moved);
    let pawn = at(&game, 4, 3);
    assert!(game.pieces()[pawn].can_en_passant);
    assert!(game.pieces()[pawn].just_moved);
    assert!(game.pieces()[pawn].has_moved);
    assert_eq!(game.active_colour(), PieceColour::Black);
    assert_eq!(play(&mut game, (0, 6), (0, 5)), MoveOutcome::Moved);
    for p in game.pieces() {
        assert!(!p.can_en_passant);
        assert!(!p.just_moved);
    }
    assert_eq!(game.active_colour(), PieceColour::White);
}

#[test]
fn single_step_raises_no_flag() {
    let mut game = Game::new_game();
    assert_eq!(play(&mut game, (4, 1), (4, 2)), MoveOutcome::Moved);
    let pawn = at(&game, 4, 2);
    assert!(!game.pieces()[pawn].can_en_passant);
    assert!(!game.pieces()[pawn].just_moved);
    assert!(game.pieces()[pawn].has_moved);
}

#[test]
fn pawn_takes_in_passing() {
    let mut game = Game::new_game();
    assert_eq!(play(&mut game, (4, 1), (4, 3)), MoveOutcome::Moved);
    assert_eq!(play(&mut game, (0, 6), (0, 5)), MoveOutcome::Moved);
    assert_eq!(play(&mut game, (4, 3), (4, 4)), MoveOutcome::Moved);
    assert_eq!(play(&mut game, (3, 6), (3, 4)), MoveOutcome::Moved);
    // the black pawn passed (3, 5); the white pawn takes it there
    assert_eq!(play(&mut game, (4, 4), (3, 5)), MoveOutcome::MovedWithCapture);
    assert_eq!(game.pieces().len(), 31);
    assert!(!game.pieces().iter().any(|p| p.colour == PieceColour::Black && p.occupies_square((3, 4))));
    let pawn = at(&game, 3, 5);
    assert_eq!(sorted(game.pieces()[pawn].squares_occupied.clone()), vec![(0, 0), (1, -1)]);
    assert!(game.pieces()[pawn].occupies_square((4, 4)));
}

#[test]
fn wrong_turn_is_rejected_and_changes_nothing() {
    let mut game = Game::new_game();
    assert_eq!(play(&mut game, (4, 6), (4, 5)), MoveOutcome::Rejected);
    assert_standard(game.pieces());
    assert_eq!(game.active_colour(), PieceColour::White);
}

#[test]
fn illegal_move_is_rejected_and_changes_nothing() {
    let mut game = Game::new_game();
    assert_eq!(play(&mut game, (0, 0), (0, 3)), MoveOutcome::Rejected);
    assert_eq!(play(&mut game, (4, 1), (4, 4)), MoveOutcome::Rejected);
    assert_eq!(play(&mut game, (4, 1), (5, 2)), MoveOutcome::Rejected);
    assert_eq!(game.attempt_move(99, (0, 0)), MoveOutcome::Rejected);
    assert_standard(game.pieces());
    assert_eq!(game.active_colour(), PieceColour::White);
}

#[test]
fn move_that_leaves_the_king_in_check_is_rejected() {
    let pieces = vec![
        moved(PieceType::King, PieceColour::White, 3, 0),
        moved(PieceType::Bishop, PieceColour::White, 3, 1),
        moved(PieceType::Rook, PieceColour::Black, 3, 7),
        moved(PieceType::King, PieceColour::Black, 7, 7),
    ];
    let mut game = Game::from_pieces(pieces, PieceColour::White).unwrap();
    assert!(!game.is_move_playable(1, (4, 2)));
    assert_eq!(game.attempt_move(1, (4, 2)), MoveOutcome::Rejected);
    assert_eq!(game.pieces()[1].x, 3);
    assert_eq!(game.active_colour(), PieceColour::White);
    assert!(game.is_move_playable(0, (2, 0)));
    assert!(!game.is_move_playable(7, (2, 0)));
    assert_eq!(game.attempt_move(0, (2, 0)), MoveOutcome::Moved);
}

#[test]
fn fools_mate_ends_the_game() {
    let mut game = Game::new_game();
    assert_eq!(play(&mut game, (2, 1), (2, 2)), MoveOutcome::Moved);
    assert_eq!(play(&mut game, (3, 6), (3, 4)), MoveOutcome::Moved);
    assert_eq!(play(&mut game, (1, 1), (1, 3)), MoveOutcome::Moved);
    assert_eq!(play(&mut game, (4, 7), (0, 3)), MoveOutcome::Checkmate(PieceColour::White));
    assert_eq!(game.state(), GameState::Checkmate(PieceColour::White));
    assert_eq!(game.active_colour(), PieceColour::White);
    // nothing is accepted any more
    let before: Vec<(u8, u8)> = game.pieces().iter().map(|p| (p.x, p.y)).collect();
    assert_eq!(play(&mut game, (0, 1), (0, 2)), MoveOutcome::Rejected);
    assert_eq!(play(&mut game, (0, 6), (0, 5)), MoveOutcome::Rejected);
    let after: Vec<(u8, u8)> = game.pieces().iter().map(|p| (p.x, p.y)).collect();
    assert_eq!(before, after);
    assert_eq!(game.state(), GameState::Checkmate(PieceColour::White));
}

#[test]
fn bishop_fuses_with_what_it_takes() {
    let pieces = vec![
        moved(PieceType::King, PieceColour::White, 3, 0),
        Piece::new(PieceType::Bishop, PieceColour::White, 2, 0),
        moved(PieceType::Knight, PieceColour::Black, 4, 2),
        moved(PieceType::King, PieceColour::Black, 7, 7),
    ];
    let mut game = Game::from_pieces(pieces, PieceColour::White).unwrap();
    assert_eq!(game.attempt_move(1, (4, 2)), MoveOutcome::MovedWithCapture);
    assert_eq!(game.pieces().len(), 3);
    let bishop = &game.pieces()[1];
    assert_eq!((bishop.x, bishop.y), (4, 2));
    assert_eq!(sorted(bishop.squares_occupied.clone()), vec![(-1, -1), (0, 0)]);
    assert!(bishop.has_moved);
    assert!(bishop.occupies_square((3, 1)));
    assert!(bishop.is_wf());
}

#[test]
fn capture_before_the_mover_shifts_its_index() {
    let pieces = vec![
        moved(PieceType::Knight, PieceColour::Black, 4, 2),
        moved(PieceType::King, PieceColour::White, 3, 0),
        Piece::new(PieceType::Bishop, PieceColour::White, 2, 0),
        moved(PieceType::King, PieceColour::Black, 7, 7),
    ];
    let (after, index) = apply_move(&pieces, 2, (4, 2));
    assert_eq!(index, 1);
    assert_eq!(after.len(), 3);
    assert_eq!(after[index].piece_type, PieceType::Bishop);
    assert_eq!((after[index].x, after[index].y), (4, 2));
    assert_eq!(after[0].piece_type, PieceType::King);
}

#[test]
fn a_wide_piece_takes_all_that_it_lands_on() {
    let mut rook = moved(PieceType::Rook, PieceColour::White, 3, 0);
    rook.squares_occupied.push((1, 0));
    let pieces = vec![
        rook,
        moved(PieceType::Pawn, PieceColour::Black, 3, 3),
        moved(PieceType::Pawn, PieceColour::Black, 4, 3),
        moved(PieceType::King, PieceColour::White, 0, 0),
        moved(PieceType::King, PieceColour::Black, 7, 7),
    ];
    let mut game = Game::from_pieces(pieces, PieceColour::White).unwrap();
    assert_eq!(game.attempt_move(0, (3, 3)), MoveOutcome::MovedWithCapture);
    assert_eq!(game.pieces().len(), 3);
    assert_eq!(
        sorted(game.pieces()[0].squares_occupied.clone()),
        sorted(vec![(0, 0), (1, 0), (0, -1), (1, -1)])
    );
}

#[test]
fn castling_moves_the_rook_too() {
    let pieces = vec![
        Piece::new(PieceType::King, PieceColour::White, 3, 0),
        Piece::new(PieceType::Rook, PieceColour::White, 0, 0),
        Piece::new(PieceType::Rook, PieceColour::White, 7, 0),
        Piece::new(PieceType::King, PieceColour::Black, 3, 7),
        Piece::new(PieceType::Rook, PieceColour::Black, 7, 7),
    ];
    let mut game = Game::from_pieces(pieces.clone(), PieceColour::White).unwrap();
    assert_eq!(
        game.attempt_move(0, (1, 0)),
        MoveOutcome::Castled(CastleEvent::Queenside(PieceColour::White))
    );
    assert_eq!((game.pieces()[0].x, game.pieces()[0].y), (1, 0));
    assert!(game.pieces()[0].has_moved);
    assert_eq!((game.pieces()[1].x, game.pieces()[1].y), (2, 0));
    assert!(game.pieces()[1].has_moved);
    assert_eq!((game.pieces()[2].x, game.pieces()[2].y), (7, 0));
    assert!(!game.pieces()[2].has_moved);
    assert_eq!(game.pieces()[0].squares_occupied, vec![(0, 0)]);
    assert_eq!(
        game.attempt_move(3, (5, 7)),
        MoveOutcome::Castled(CastleEvent::Kingside(PieceColour::Black))
    );
    assert_eq!((game.pieces()[3].x, game.pieces()[3].y), (5, 7));
    assert_eq!((game.pieces()[4].x, game.pieces()[4].y), (4, 7));
    assert!(game.pieces()[4].has_moved);
}

#[test]
fn castle_moves_only_the_rook_of_that_side() {
    let mut pieces = vec![
        Piece::new(PieceType::Rook, PieceColour::White, 0, 0),
        Piece::new(PieceType::Rook, PieceColour::White, 7, 0),
        Piece::new(PieceType::Rook, PieceColour::Black, 0, 7),
        moved(PieceType::Rook, PieceColour::White, 0, 4),
        Piece::new(PieceType::Bishop, PieceColour::White, 0, 3),
    ];
    castle(&CastleEvent::Queenside(PieceColour::White), &mut pieces);
    let places: Vec<(u8, u8, bool)> = pieces.iter().map(|p| (p.x, p.y, p.has_moved)).collect();
    assert_eq!(
        places,
        vec![(2, 0, true), (7, 0, false), (0, 7, false), (0, 4, true), (0, 3, false)]
    );
    castle(&CastleEvent::Kingside(PieceColour::White), &mut pieces);
    assert_eq!((pieces[1].x, pieces[1].has_moved), (4, true));
    assert_eq!(pieces[2].x, 0);
}

#[test]
fn flags_are_lowered_on_all_but_the_mover() {
    let mut pieces = create_pieces();
    for p in pieces.iter_mut() {
        p.just_moved = true;
        p.can_en_passant = true;
    }
    disable_en_passant(&mut pieces, 5);
    for (i, p) in pieces.iter().enumerate() {
        assert_eq!(p.just_moved, i == 5);
        assert_eq!(p.can_en_passant, i == 5);
    }
}

#[test]
fn pawn_on_its_far_row_becomes_a_queen() {
    let pieces = vec![
        moved(PieceType::Pawn, PieceColour::White, 0, 6),
        moved(PieceType::King, PieceColour::White, 3, 0),
        moved(PieceType::King, PieceColour::Black, 7, 5),
        moved(PieceType::Pawn, PieceColour::Black, 5, 1),
    ];
    let mut game = Game::from_pieces(pieces, PieceColour::White).unwrap();
    assert_eq!(game.attempt_move(0, (0, 7)), MoveOutcome::Moved);
    assert_eq!(game.pieces()[0].piece_type, PieceType::Queen);
    assert_eq!(game.attempt_move(3, (5, 0)), MoveOutcome::Moved);
    assert_eq!(game.pieces()[3].piece_type, PieceType::Queen);
    assert_eq!(game.pieces()[3].colour, PieceColour::Black);
}

#[test]
fn promote_pawns_leaves_the_others() {
    let mut wide = moved(PieceType::Pawn, PieceColour::White, 3, 6);
    wide.squares_occupied.push((1, 1));
    let mut pieces = vec![
        moved(PieceType::Pawn, PieceColour::White, 0, 7),
        moved(PieceType::Pawn, PieceColour::White, 1, 6),
        moved(PieceType::Pawn, PieceColour::Black, 2, 7),
        moved(PieceType::Pawn, PieceColour::Black, 2, 0),
        moved(PieceType::Rook, PieceColour::White, 7, 7),
        wide,
    ];
    assert!(pieces[0].promotion_due());
    assert!(!pieces[1].promotion_due());
    assert!(pieces[5].promotion_due());
    promote_pawns(&mut pieces);
    let kinds: Vec<PieceType> = pieces.iter().map(|p| p.piece_type).collect();
    assert_eq!(
        kinds,
        vec![
            PieceType::Queen,
            PieceType::Pawn,
            PieceType::Pawn,
            PieceType::Queen,
            PieceType::Rook,
            PieceType::Queen
        ]
    );
}

#[test]
fn from_pieces_refuses_pieces_that_are_not_well_formed() {
    let mut off = moved(PieceType::Rook, PieceColour::White, 0, 0);
    off.squares_occupied.push((-1, 0));
    assert!(Game::from_pieces(vec![off], PieceColour::White).is_none());
    let mut wide = Piece::new(PieceType::Rook, PieceColour::White, 0, 0);
    wide.squares_occupied.push((1, 0));
    assert!(Game::from_pieces(vec![wide.clone()], PieceColour::White).is_none());
    wide.has_moved = true;
    assert!(Game::from_pieces(vec![wide], PieceColour::White).is_some());
    assert!(Game::from_pieces(vec![], PieceColour::Black).is_some());
}

#[test]
fn from_pieces_sees_a_mate_that_stands() {
    let pieces = vec![
        moved(PieceType::King, PieceColour::White, 0, 0),
        moved(PieceType::Rook, PieceColour::Black, 0, 7),
        moved(PieceType::Rook, PieceColour::Black, 1, 7),
        moved(PieceType::King, PieceColour::Black, 7, 7),
    ];
    let game = Game::from_pieces(pieces, PieceColour::White).unwrap();
    assert_eq!(game.state(), GameState::Checkmate(PieceColour::White));
    let game = Game::new_game();
    let game = Game::from_pieces(game.pieces().clone(), PieceColour::Black).unwrap();
    assert_eq!(game.state(), GameState::BlackToMove);
}

#[test]
fn clicks_select_and_then_move() {
    let mut game = Game::new_game();
    assert_eq!(game.select_square(Square { x: 4, y: 3 }), MoveOutcome::Rejected);
    assert_eq!(game.selected_square(), Some(Square { x: 4, y: 3 }));
    assert_eq!(game.selected_piece(), None);
    // a piece of the other side is not selected
    assert_eq!(game.select_square(Square { x: 4, y: 6 }), MoveOutcome::Rejected);
    assert_eq!(game.selected_piece(), None);
    assert_eq!(game.select_square(Square { x: 4, y: 1 }), MoveOutcome::Rejected);
    let pawn = at(&game, 4, 1);
    assert_eq!(game.selected_piece(), Some(pawn));
    // a click on a square it cannot reach selects what stands there
    assert_eq!(game.select_square(Square { x: 1, y: 0 }), MoveOutcome::Rejected);
    let knight = at(&game, 1, 0);
    assert_eq!(game.selected_piece(), Some(knight));
    assert_eq!(game.select_square(Square { x: 2, y: 2 }), MoveOutcome::Moved);
    assert_eq!(game.selected_piece(), None);
    assert_eq!(game.selected_square(), None);
    assert_eq!(game.active_colour(), PieceColour::Black);
    assert_eq!((game.pieces()[knight].x, game.pieces()[knight].y), (2, 2));
}

#[test]
fn pick_takes_the_last_piece_of_the_colour_on_the_square() {
    let mut wide = moved(PieceType::Rook, PieceColour::White, 2, 2);
    wide.squares_occupied.push((1, 0));
    let pieces = vec![
        wide,
        moved(PieceType::Pawn, PieceColour::Black, 3, 2),
        moved(PieceType::Pawn, PieceColour::White, 3, 2),
    ];
    assert_eq!(pick_piece(&pieces, PieceColour::White, Square { x: 3, y: 2 }), Some(2));
    assert_eq!(pick_piece(&pieces, PieceColour::Black, Square { x: 3, y: 2 }), Some(1));
    assert_eq!(pick_piece(&pieces, PieceColour::White, Square { x: 2, y: 2 }), Some(0));
    assert_eq!(pick_piece(&pieces, PieceColour::Black, Square { x: 2, y: 2 }), None);
}

#[test]
fn highlight_follows_pointer_selection_and_square_colour() {
    let mut game = Game::new_game();
    let a = Square { x: 0, y: 2 };
    let b = Square { x: 1, y: 2 };
    assert_eq!(game.highlight(a, None), Highlight::Light);
    assert_eq!(game.highlight(b, None), Highlight::Dark);
    assert_eq!(game.highlight(a, Some(a)), Highlight::Hovered);
    assert_eq!(game.highlight(a, Some(b)), Highlight::Light);
    game.select_square(a);
    assert_eq!(game.highlight(a, None), Highlight::Selected);
    assert_eq!(game.highlight(a, Some(a)), Highlight::Hovered);
    assert_eq!(game.highlight(b, None), Highlight::Dark);
    // with the knight selected, its own square is marked, and the pointer
    // marks the square where it would stand
    game.select_square(Square { x: 1, y: 0 });
    assert_eq!(game.highlight(Square { x: 1, y: 0 }, None), Highlight::Selected);
    game.select_square(Square { x: 5, y: 5 });
    assert_eq!(game.selected_piece(), None);
}

#[test]
fn highlight_shows_the_whole_footprint_of_the_selected_piece() {
    let mut wide = moved(PieceType::Rook, PieceColour::White, 2, 2);
    wide.squares_occupied.push((1, 0));
    let pieces = vec![
        wide,
        moved(PieceType::King, PieceColour::White, 0, 0),
        moved(PieceType::King, PieceColour::Black, 7, 7),
    ];
    let mut game = Game::from_pieces(pieces, PieceColour::White).unwrap();
    game.select_square(Square { x: 3, y: 2 });
    assert_eq!(game.selected_piece(), Some(0));
    assert_eq!(game.highlight(Square { x: 3, y: 2 }, None), Highlight::Selected);
    assert_eq!(game.highlight(Square { x: 2, y: 2 }, None), Highlight::UnderSelectedPiece);
    assert_eq!(game.highlight(Square { x: 4, y: 2 }, None), Highlight::Light);
    // the pointer on (2, 5): the piece would cover (2, 5) and (3, 5)
    let pointer = Some(Square { x: 2, y: 5 });
    assert_eq!(game.highlight(Square { x: 2, y: 5 }, pointer), Highlight::Hovered);
    assert_eq!(game.highlight(Square { x: 3, y: 5 }, pointer), Highlight::Hovered);
    assert_eq!(game.highlight(Square { x: 4, y: 5 }, pointer), Highlight::Dark);
    assert_eq!(game.highlight(Square { x: 2, y: 2 }, pointer), Highlight::UnderSelectedPiece);
}

#[test]
fn checkmate_event_names_the_mated_side() {
    let e = CheckmateEvent(PieceColour::Black);
    assert_eq!(e.0, PieceColour::Black);
    assert_ne!(e, CheckmateEvent(PieceColour::White));
}

#[test]
fn each_rejection_has_its_reason() {
    let pieces = vec![
        moved(PieceType::King, PieceColour::White, 3, 0),
        moved(PieceType::Bishop, PieceColour::White, 3, 1),
        moved(PieceType::Rook, PieceColour::Black, 3, 7),
        moved(PieceType::King, PieceColour::Black, 7, 7),
    ];
    let game = Game::from_pieces(pieces, PieceColour::White).unwrap();
    assert_eq!(game.why_rejected(9, (0, 0)), Some(Rejection::NoPieceSelected));
    assert_eq!(game.why_rejected(2, (3, 6)), Some(Rejection::WrongTurn));
    assert_eq!(game.why_rejected(1, (3, 2)), Some(Rejection::GeometricallyIllegal));
    assert_eq!(game.why_rejected(1, (3, 1)), Some(Rejection::GeometricallyIllegal));
    assert_eq!(game.why_rejected(1, (4, 2)), Some(Rejection::LeavesKingInCheck));
    assert_eq!(game.why_rejected(0, (2, 0)), None);

    let mated = Game::from_pieces(
        vec![
            moved(PieceType::King, PieceColour::White, 0, 0),
            moved(PieceType::Rook, PieceColour::Black, 0, 7),
            moved(PieceType::Rook, PieceColour::Black, 1, 7),
            moved(PieceType::King, PieceColour::Black, 7, 7),
        ],
        PieceColour::White,
    )
    .unwrap();
    assert_eq!(mated.why_rejected(0, (1, 1)), Some(Rejection::GameOver));
    assert_eq!(mated.why_rejected(9, (1, 1)), Some(Rejection::GameOver));
}

#[test]
fn what_a_move_takes_is_listed_by_index() {
    let mut rook = moved(PieceType::Rook, PieceColour::White, 3, 0);
    rook.squares_occupied.push((1, 0));
    let mut runner = moved(PieceType::Pawn, PieceColour::Black, 3, 2);
    runner.can_en_passant = true;
    let pieces = vec![
        moved(PieceType::Pawn, PieceColour::Black, 4, 3),
        rook,
        moved(PieceType::Pawn, PieceColour::White, 0, 3),
        runner,
        moved(PieceType::Pawn, PieceColour::Black, 3, 3),
        moved(PieceType::King, PieceColour::White, 0, 0),
        moved(PieceType::King, PieceColour::Black, 7, 7),
    ];
    let game = Game::from_pieces(pieces, PieceColour::White).unwrap();
    // both squares land on a pawn, and the pawn behind may be taken in passing
    assert_eq!(
        game.consumed_by(1, (3, 3)),
        vec![ConsumeEvent { piece: 0 }, ConsumeEvent { piece: 3 }, ConsumeEvent { piece: 4 }]
    );
    assert_eq!(game.consumed_by(1, (3, 1)), vec![]);
    assert_eq!(game.consumed_by(40, (3, 3)), vec![]);
    // a piece takes none of its own side
    assert_eq!(game.consumed_by(5, (0, 3)), vec![]);
}

#[test]
fn any_piece_takes_a_pawn_in_passing() {
    let mut runner = moved(PieceType::Pawn, PieceColour::Black, 5, 4);
    runner.can_en_passant = true;
    runner.just_moved = true;
    let pieces = vec![
        moved(PieceType::Rook, PieceColour::White, 0, 5),
        runner,
        moved(PieceType::King, PieceColour::White, 0, 0),
        moved(PieceType::King, PieceColour::Black, 7, 7),
    ];
    let mut game = Game::from_pieces(pieces, PieceColour::White).unwrap();
    assert_eq!(game.attempt_move(0, (5, 5)), MoveOutcome::MovedWithCapture);
    assert_eq!(game.pieces().len(), 3);
    assert_eq!(sorted(game.pieces()[0].squares_occupied.clone()), vec![(-1, 0), (0, 0)]);
}

fn overlapping(pieces: &Vec<Piece>) -> bool {
    for x in 0..8u8 {
        for y in 0..8u8 {
            if pieces.iter().filter(|p| p.occupies_square((x, y))).count() > 1 {
                return true;
            }
        }
    }
    false
}

#[test]
fn pieces_stay_apart_through_captures_and_castling() {
    let mut game = Game::new_game();
    let script: [((u8, u8), (u8, u8), MoveOutcome); 14] = [
        ((4, 1), (4, 3), MoveOutcome::Moved),
        ((3, 6), (3, 4), MoveOutcome::Moved),
        ((4, 3), (3, 4), MoveOutcome::MovedWithCapture),
        ((4, 7), (3, 6), MoveOutcome::Moved),
        ((1, 0), (0, 2), MoveOutcome::Moved),
        ((3, 6), (3, 4), MoveOutcome::MovedWithCapture),
        ((1, 1), (1, 2), MoveOutcome::Moved),
        ((1, 7), (2, 5), MoveOutcome::Moved),
        ((2, 0), (1, 1), MoveOutcome::Moved),
        ((1, 6), (1, 5), MoveOutcome::Moved),
        ((3, 0), (1, 0), MoveOutcome::Castled(CastleEvent::Queenside(PieceColour::White))),
        ((2, 7), (1, 6), MoveOutcome::Moved),
        ((7, 1), (7, 2), MoveOutcome::Moved),
        ((3, 7), (1, 7), MoveOutcome::Castled(CastleEvent::Queenside(PieceColour::Black))),
    ];
    for (from, to, expected) in script {
        assert_eq!(play(&mut game, from, to), expected, "{:?} to {:?}", from, to);
        assert!(!overlapping(game.pieces()), "after {:?} to {:?}", from, to);
        for p in game.pieces() {
            assert!(p.is_wf());
        }
    }
    let king = at(&game, 1, 0);
    assert_eq!(game.pieces()[king].piece_type, PieceType::King);
    let rook = at(&game, 2, 0);
    assert_eq!(game.pieces()[rook].piece_type, PieceType::Rook);
    let queen = at(&game, 3, 4);
    assert_eq!(sorted(game.pieces()[queen].squares_occupied.clone()), vec![(0, 0), (0, 1)]);
}

#[test]
fn a_long_game_keeps_every_piece_well_formed() {
    let mut game = Game::new_game();
    let mut seed: u32 = 12345;
    let mut next = || {
        seed = seed.wrapping_mul(1664525).wrapping_add(1013904223);
        (seed >> 16) as usize
    };
    let mut played = 0;
    for _ in 0..4000 {
        if played == 24 || game.state() == GameState::Checkmate(game.active_colour()) {
            break;
        }
        let piece = next() % game.pieces().len();
        let to = ((next() % 8) as u8, (next() % 8) as u8);
        let turn = game.active_colour();
        let mover_squares = game.pieces()[piece].squares_occupied.len();
        let accepted = game.why_rejected(piece, to).is_none();
        let taken = game.consumed_by(piece, to).len();
        let count = game.pieces().len();
        let outcome = game.attempt_move(piece, to);
        assert_eq!(outcome != MoveOutcome::Rejected, accepted);
        if !accepted {
            assert_eq!(game.active_colour(), turn);
            assert_eq!(game.pieces().len(), count);
            continue;
        }
        played += 1;
        assert_eq!(game.active_colour(), turn.opposite());
        assert_eq!(game.pieces().len(), count - taken);
        match outcome {
            MoveOutcome::Moved => assert_eq!(taken, 0),
            MoveOutcome::MovedWithCapture => assert!(taken > 0),
            _ => {}
        }
        let mover = game.pieces().iter().find(|p| p.occupies_square(to)).unwrap();
        assert!(mover.squares_occupied.len() >= mover_squares);
        assert!(mover.has_moved);
        let flagged: Vec<&Piece> = game.pieces().iter().filter(|p| p.can_en_passant).collect();
        assert!(flagged.len() <= 1);
        for p in game.pieces() {
            assert!(p.is_wf());
            assert!(p.has_moved || p.is_single());
            assert_eq!(p.just_moved, p.can_en_passant);
        }
    }
    assert!(played >= 10);
}
