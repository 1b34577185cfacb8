use chess_moves::{Game, MoveError, Owner, Piece};

fn board(pieces: &[(Piece, Owner, (usize, usize))]) -> Game {
    let mut g = Game::empty();
    for &(p, o, pos) in pieces {
        g.place(p, o, pos).unwrap();
    }
    g
}

fn sorted(mut v: Vec<(usize, usize)>) -> Vec<(usize, usize)> {
    v.sort();
    v
}

fn occupants(g: &Game) -> Vec<Option<(Piece, Owner)>> {
    let mut v = Vec::new();
    for x in 0..8 {
        for y in 0..8 {
            v.push(g.get_tile((x, y)).unwrap().occupant);
        }
    }
    v
}

#[test]
fn rook_stops_at_the_captured_pawn() {
    let g = board(&[(Piece::Rook, Owner::White, (0, 0)), (Piece::Pawn, Owner::Black, (0, 3))]);
    let c = g.compute_candidates((0, 0));
    for p in [(0, 1), (0, 2), (0, 3)] {
        assert!(c.contains(&p));
    }
    for y in 4..8 {
        assert!(!c.contains(&(0, y)));
    }
    let mut expected = vec![(0, 1), (0, 2), (0, 3)];
    for x in 1..8 {
        expected.push((x, 0));
    }
    assert_eq!(sorted(c), sorted(expected));
}

#[test]
fn knight_near_the_edge() {
    let g = board(&[(Piece::Knight, Owner::White, (1, 0))]);
    assert_eq!(sorted(g.compute_candidates((1, 0))), vec![(0, 2), (2, 2), (3, 1)]);
}

#[test]
fn pawn_steps_forward_and_captures_diagonally() {
    let g = board(&[
        (Piece::Pawn, Owner::White, (4, 6)),
        (Piece::Pawn, Owner::Black, (3, 5)),
        (Piece::Pawn, Owner::Black, (5, 5)),
    ]);
    assert_eq!(sorted(g.compute_candidates((4, 6))), vec![(3, 5), (4, 5), (5, 5)]);
}

#[test]
fn black_pawn_moves_toward_higher_rank() {
    let g = board(&[(Piece::Pawn, Owner::Black, (2, 1)), (Piece::Pawn, Owner::White, (3, 2))]);
    assert_eq!(sorted(g.compute_candidates((2, 1))), vec![(2, 2), (3, 2)]);
}

#[test]
fn pawn_blocked_ahead_and_no_empty_diagonal() {
    let g = board(&[(Piece::Pawn, Owner::White, (4, 6)), (Piece::Pawn, Owner::Black, (4, 5))]);
    assert!(g.compute_candidates((4, 6)).is_empty());
}

#[test]
fn move_from_empty_square_is_invalid_source() {
    let mut g = board(&[(Piece::Rook, Owner::White, (0, 0))]);
    let before = occupants(&g);
    assert_eq!(g.validate_and_move((3, 3), (3, 4)), Err(MoveError::InvalidSource));
    assert_eq!(occupants(&g), before);
    assert_eq!(g.turn, Owner::White);
    assert_eq!(g.validate_and_move((9, 0), (0, 0)), Err(MoveError::InvalidSource));
}

#[test]
fn no_candidate_lands_on_own_piece() {
    let g = board(&[
        (Piece::Queen, Owner::White, (3, 3)),
        (Piece::Pawn, Owner::White, (3, 4)),
        (Piece::Pawn, Owner::White, (4, 4)),
        (Piece::Pawn, Owner::Black, (2, 2)),
        (Piece::King, Owner::White, (4, 3)),
        (Piece::Knight, Owner::White, (5, 4)),
    ]);
    for src in [(3, 3), (4, 3), (5, 4)] {
        for p in g.compute_candidates(src) {
            assert_ne!(p, src);
            if let Some((_, o)) = g.get_tile(p).unwrap().occupant {
                assert_eq!(o, Owner::Black);
            }
        }
    }
    let q = g.compute_candidates((3, 3));
    assert!(q.contains(&(2, 2)));
    assert!(!q.contains(&(1, 1)));
    assert!(!q.contains(&(3, 5)));
}

#[test]
fn bishop_stops_before_own_piece() {
    let g = board(&[(Piece::Bishop, Owner::Black, (2, 0)), (Piece::Rook, Owner::Black, (4, 2))]);
    assert_eq!(sorted(g.compute_candidates((2, 0))), vec![(0, 2), (1, 1), (3, 1)]);
}

#[test]
fn queen_in_the_corner_covers_three_lines() {
    let g = board(&[(Piece::Queen, Owner::White, (0, 0))]);
    assert_eq!(g.compute_candidates((0, 0)).len(), 21);
}

#[test]
fn king_in_the_middle_has_eight_steps() {
    let g = board(&[(Piece::King, Owner::Black, (3, 3))]);
    assert_eq!(
        sorted(g.compute_candidates((3, 3))),
        vec![(2, 2), (2, 3), (2, 4), (3, 2), (3, 4), (4, 2), (4, 3), (4, 4)]
    );
}

#[test]
fn empty_or_off_board_square_has_no_candidates() {
    let g = board(&[(Piece::King, Owner::Black, (3, 3))]);
    assert!(g.compute_candidates((0, 0)).is_empty());
    assert!(g.compute_candidates((8, 3)).is_empty());
}

#[test]
fn calc_moves_caches_on_the_tile() {
    let mut g = board(&[(Piece::Knight, Owner::White, (1, 0))]);
    g.calc_moves((1, 0));
    assert_eq!(sorted(g.get_tile((1, 0)).unwrap().moves.clone()), vec![(0, 2), (2, 2), (3, 1)]);
    assert_eq!(g.get_tile((1, 0)).unwrap().occupant, Some((Piece::Knight, Owner::White)));
}

#[test]
fn refused_destination_twice_changes_nothing() {
    let mut g = board(&[(Piece::Rook, Owner::White, (0, 0)), (Piece::Pawn, Owner::Black, (0, 3))]);
    let before = occupants(&g);
    let r1 = g.validate_and_move((0, 0), (0, 4));
    assert_eq!(r1, Err(MoveError::InvalidDest));
    assert_eq!(occupants(&g), before);
    let r2 = g.validate_and_move((0, 0), (0, 4));
    assert_eq!(r2, r1);
    assert_eq!(occupants(&g), before);
    assert_eq!(g.turn, Owner::White);
    assert_eq!(g.validate_and_move((0, 0), (1, 1)), Err(MoveError::InvalidDest));
    assert_eq!(g.validate_and_move((0, 0), (0, 99)), Err(MoveError::InvalidDest));
}

#[test]
fn turn_alternates_on_each_accepted_move_only() {
    let mut g = board(&[
        (Piece::King, Owner::White, (4, 7)),
        (Piece::King, Owner::Black, (4, 0)),
        (Piece::Pawn, Owner::White, (0, 6)),
        (Piece::Pawn, Owner::Black, (7, 1)),
    ]);
    assert_eq!(g.turn, Owner::White);
    assert_eq!(g.validate_and_move((0, 6), (0, 5)), Ok(()));
    assert_eq!(g.turn, Owner::Black);
    assert_eq!(g.validate_and_move((7, 1), (7, 3)), Err(MoveError::InvalidDest));
    assert_eq!(g.turn, Owner::Black);
    assert_eq!(g.validate_and_move((7, 1), (7, 2)), Ok(()));
    assert_eq!(g.turn, Owner::White);
    assert_eq!(g.get_tile((0, 5)).unwrap().occupant, Some((Piece::Pawn, Owner::White)));
    assert_eq!(g.get_tile((0, 6)).unwrap().occupant, None);
}

#[test]
fn pinned_piece_may_not_expose_its_king() {
    let mut g = board(&[
        (Piece::King, Owner::White, (4, 7)),
        (Piece::Rook, Owner::White, (4, 6)),
        (Piece::Rook, Owner::Black, (4, 0)),
    ]);
    let before = occupants(&g);
    assert_eq!(g.validate_and_move((4, 6), (3, 6)), Err(MoveError::Check));
    assert_eq!(occupants(&g), before);
    assert_eq!(g.turn, Owner::White);
    assert_eq!(g.validate_and_move((4, 6), (4, 1)), Ok(()));
    assert_eq!(g.turn, Owner::Black);
}

#[test]
fn king_may_not_step_into_attack() {
    let mut g = board(&[(Piece::King, Owner::White, (4, 7)), (Piece::Rook, Owner::Black, (3, 0))]);
    assert_eq!(g.validate_and_move((4, 7), (3, 7)), Err(MoveError::Check));
    assert_eq!(g.validate_and_move((4, 7), (5, 7)), Ok(()));
    assert_eq!(g.white_king, Some((5, 7)));
}

#[test]
fn capture_of_the_attacker_is_allowed() {
    let mut g = board(&[(Piece::King, Owner::White, (4, 7)), (Piece::Queen, Owner::Black, (4, 6))]);
    assert!(g.is_attacked((4, 7), Owner::Black));
    assert_eq!(g.validate_and_move((4, 7), (4, 6)), Ok(()));
    assert_eq!(g.get_tile((4, 6)).unwrap().occupant, Some((Piece::King, Owner::White)));
    assert!(!g.is_attacked((4, 6), Owner::Black));
}

#[test]
fn pawn_attacks_only_diagonally() {
    let g = board(&[(Piece::Pawn, Owner::Black, (3, 3)), (Piece::King, Owner::White, (3, 4))]);
    assert!(!g.is_attacked((3, 4), Owner::Black));
    let g = board(&[(Piece::Pawn, Owner::Black, (3, 3)), (Piece::King, Owner::White, (4, 4))]);
    assert!(g.is_attacked((4, 4), Owner::Black));
}
