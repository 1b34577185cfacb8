use chess_moves::{Game, MoveError, Owner, Piece};

fn occupants(g: &Game) -> Vec<Option<(Piece, Owner)>> {
    let mut v = Vec::new();
    for x in 0..8 {
        for y in 0..8 {
            v.push(g.get_tile((x, y)).unwrap().occupant);
        }
    }
    v
}

#[test]
fn get_tile_defined_exactly_on_the_board() {
    let g = Game::empty();
    for x in 0..8 {
        for y in 0..8 {
            let t = g.get_tile((x, y)).expect("in-bounds square");
            assert_eq!(t.pos, (x, y));
            assert!(t.occupant.is_none());
        }
    }
    assert!(g.get_tile((8, 0)).is_none());
    assert!(g.get_tile((0, 8)).is_none());
    assert!(g.get_tile((usize::MAX, 3)).is_none());
    assert!(g.get_tile((3, usize::MAX)).is_none());
}

#[test]
fn get_mut_tile_same_bounds() {
    let mut g = Game::empty();
    assert!(g.get_mut_tile((8, 8)).is_none());
    let t = g.get_mut_tile((2, 5)).expect("in-bounds square");
    t.shade = Some(Owner::Black);
    assert_eq!(g.get_tile((2, 5)).unwrap().shade, Some(Owner::Black));
}

#[test]
fn empty_game_starts_with_white() {
    let g = Game::empty();
    assert_eq!(g.turn, Owner::White);
    assert_eq!(g.white_king, None);
    assert_eq!(g.black_king, None);
    assert_eq!(g.squares.len(), 64);
}

#[test]
fn place_off_board_is_refused() {
    let mut g = Game::empty();
    assert_eq!(g.place(Piece::Rook, Owner::White, (8, 0)), Err(MoveError::OutOfBounds));
    assert_eq!(g.place(Piece::Rook, Owner::White, (0, 9)), Err(MoveError::OutOfBounds));
    assert!(occupants(&g).iter().all(|o| o.is_none()));
}

#[test]
fn place_sets_occupant_and_king_cache() {
    let mut g = Game::empty();
    assert_eq!(g.place(Piece::King, Owner::White, (4, 7)), Ok(()));
    assert_eq!(g.place(Piece::Queen, Owner::Black, (3, 0)), Ok(()));
    assert_eq!(g.get_tile((4, 7)).unwrap().occupant, Some((Piece::King, Owner::White)));
    assert_eq!(g.get_tile((3, 0)).unwrap().occupant, Some((Piece::Queen, Owner::Black)));
    assert_eq!(g.white_king, Some((4, 7)));
    assert_eq!(g.black_king, None);
}

#[test]
fn second_king_replaces_the_first() {
    let mut g = Game::empty();
    g.place(Piece::King, Owner::White, (4, 7)).unwrap();
    g.place(Piece::King, Owner::White, (3, 3)).unwrap();
    assert_eq!(g.get_tile((4, 7)).unwrap().occupant, None);
    assert_eq!(g.get_tile((3, 3)).unwrap().occupant, Some((Piece::King, Owner::White)));
    assert_eq!(g.white_king, Some((3, 3)));
}

#[test]
fn overwriting_a_king_clears_its_cache() {
    let mut g = Game::empty();
    g.place(Piece::King, Owner::Black, (4, 0)).unwrap();
    g.place(Piece::Pawn, Owner::White, (4, 0)).unwrap();
    assert_eq!(g.black_king, None);
    g.place(Piece::King, Owner::Black, (2, 2)).unwrap();
    assert_eq!(g.clear((2, 2)), Ok(()));
    assert_eq!(g.black_king, None);
    assert_eq!(g.get_tile((2, 2)).unwrap().occupant, None);
    assert_eq!(g.clear((2, 8)), Err(MoveError::OutOfBounds));
}

#[test]
fn move_piece_relocates_and_captures() {
    let mut g = Game::empty();
    g.place(Piece::Rook, Owner::White, (0, 0)).unwrap();
    g.place(Piece::King, Owner::Black, (0, 5)).unwrap();
    g.move_piece((0, 0), (0, 5));
    assert_eq!(g.get_tile((0, 0)).unwrap().occupant, None);
    assert_eq!(g.get_tile((0, 5)).unwrap().occupant, Some((Piece::Rook, Owner::White)));
    assert_eq!(g.black_king, None);
    assert_eq!(g.turn, Owner::White);
}

#[test]
fn move_piece_tracks_the_king() {
    let mut g = Game::empty();
    g.place(Piece::King, Owner::White, (4, 7)).unwrap();
    g.move_piece((4, 7), (5, 6));
    assert_eq!(g.white_king, Some((5, 6)));
    g.move_piece((5, 6), (5, 6));
    assert_eq!(g.get_tile((5, 6)).unwrap().occupant, Some((Piece::King, Owner::White)));
}

#[test]
fn tile_blank_is_empty() {
    let t = chess_moves::Tile::blank();
    assert!(t.moves.is_empty());
    assert_eq!(t.pos, (0, 0));
    assert!(t.occupant.is_none());
    assert!(t.shade.is_none());
}

#[test]
fn general_move_shifts_and_marks_off_board() {
    assert_eq!(Game::general_move((3, 3), (1, 2)), (4, 5));
    assert_eq!(Game::general_move((3, 3), (-2, -1)), (1, 2));
    assert_eq!(Game::general_move((0, 0), (-1, 0)), (usize::MAX, 0));
    assert_eq!(Game::general_move((7, 0), (1, -1)), (8, usize::MAX));
}

#[test]
fn opponent_swaps_sides() {
    assert_eq!(Owner::White.opponent(), Owner::Black);
    assert_eq!(Owner::Black.opponent(), Owner::White);
}
