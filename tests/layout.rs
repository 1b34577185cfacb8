use chess_moves::layout::{parse_decimal, parse_record};
use chess_moves::{text_is, Game, MoveError, Owner, Piece};

fn rec(p: &str, x: usize, y: usize, o: &str) -> (String, usize, usize, String) {
    (p.to_string(), x, y, o.to_string())
}

#[test]
fn names_are_matched_exactly() {
    assert_eq!(Piece::from_name("pawn"), Some(Piece::Pawn));
    assert_eq!(Piece::from_name("rook"), Some(Piece::Rook));
    assert_eq!(Piece::from_name("knight"), Some(Piece::Knight));
    assert_eq!(Piece::from_name("bishop"), Some(Piece::Bishop));
    assert_eq!(Piece::from_name("queen"), Some(Piece::Queen));
    assert_eq!(Piece::from_name("king"), Some(Piece::King));
    assert_eq!(Piece::from_name("King"), None);
    assert_eq!(Piece::from_name("kings"), None);
    assert_eq!(Piece::from_name(""), None);
    assert_eq!(Owner::from_name("black"), Some(Owner::Black));
    assert_eq!(Owner::from_name("white"), Some(Owner::White));
    assert_eq!(Owner::from_name("White"), None);
}

#[test]
fn text_is_compares_whole_text() {
    assert!(text_is("queen", "queen"));
    assert!(!text_is("queen", "quee"));
    assert!(!text_is("queen", "queer"));
    assert!(text_is("", ""));
}

#[test]
fn build_game_places_records_in_order() {
    let records = vec![
        rec("king", 4, 7, "white"),
        rec("king", 4, 0, "black"),
        rec("pawn", 3, 6, "white"),
        rec("knight", 1, 0, "black"),
    ];
    let g = Game::build_game(&records).unwrap();
    assert_eq!(g.turn, Owner::White);
    assert_eq!(g.white_king, Some((4, 7)));
    assert_eq!(g.black_king, Some((4, 0)));
    assert_eq!(g.get_tile((3, 6)).unwrap().occupant, Some((Piece::Pawn, Owner::White)));
    assert_eq!(g.get_tile((1, 0)).unwrap().occupant, Some((Piece::Knight, Owner::Black)));
    assert_eq!(g.get_tile((0, 0)).unwrap().occupant, None);
}

#[test]
fn unknown_names_leave_the_square_empty() {
    let records = vec![
        rec("rook", 0, 0, "white"),
        rec("dragon", 0, 0, "white"),
        rec("rook", 7, 7, "green"),
    ];
    let g = Game::build_game(&records).unwrap();
    assert_eq!(g.get_tile((0, 0)).unwrap().occupant, None);
    assert_eq!(g.get_tile((7, 7)).unwrap().occupant, None);
}

#[test]
fn build_game_refuses_off_board_records() {
    let records = vec![rec("rook", 0, 0, "white"), rec("pawn", 8, 1, "black")];
    assert!(matches!(Game::build_game(&records), Err(MoveError::OutOfBounds)));
}

#[test]
fn build_game_from_no_records_is_empty() {
    let g = Game::build_game(&Vec::new()).unwrap();
    for x in 0..8 {
        for y in 0..8 {
            assert!(g.get_tile((x, y)).unwrap().occupant.is_none());
        }
    }
}

#[test]
fn parse_record_reads_four_fields() {
    assert_eq!(
        parse_record("knight,1,0,white"),
        Some(("knight".to_string(), 1, 0, "white".to_string()))
    );
    assert_eq!(
        parse_record("pawn,12,3,black,extra"),
        Some(("pawn".to_string(), 12, 3, "black".to_string()))
    );
    assert_eq!(parse_record(",0,7,"), Some((String::new(), 0, 7, String::new())));
}

#[test]
fn parse_record_refuses_malformed_lines() {
    assert_eq!(parse_record(""), None);
    assert_eq!(parse_record("pawn,1,2"), None);
    assert_eq!(parse_record("pawn,x,2,white"), None);
    assert_eq!(parse_record("pawn,1,,white"), None);
    assert_eq!(parse_record("pawn,-1,2,white"), None);
    assert_eq!(parse_record("pawn, 1,2,white"), None);
}

#[test]
fn parse_decimal_values() {
    assert_eq!(parse_decimal("0"), Some(0));
    assert_eq!(parse_decimal("007"), Some(7));
    assert_eq!(parse_decimal("1234"), Some(1234));
    assert_eq!(parse_decimal("18446744073709551615"), Some(usize::MAX));
    assert_eq!(parse_decimal("18446744073709551616"), None);
    assert_eq!(parse_decimal("99999999999999999999x"), None);
    assert_eq!(parse_decimal(""), None);
    assert_eq!(parse_decimal("4a"), None);
}

#[test]
fn names_round_trip() {
    for p in [Piece::Pawn, Piece::Rook, Piece::Knight, Piece::Bishop, Piece::Queen, Piece::King] {
        assert_eq!(Piece::from_name(p.name()), Some(p));
    }
    for o in [Owner::Black, Owner::White] {
        assert_eq!(Owner::from_name(o.name()), Some(o));
    }
    assert_eq!(Piece::Knight.name(), "knight");
    assert_eq!(Owner::White.name(), "white");
}

#[test]
fn error_messages() {
    assert_eq!(MoveError::InvalidSource.message(), "source tile invalid");
    assert_eq!(MoveError::InvalidDest.message(), "destination tile invalid");
    assert_eq!(MoveError::Check.message(), "puts owner's king in check");
    assert_eq!(MoveError::OutOfBounds.message(), "position off the board");
}

#[test]
fn layout_lines_build_a_game() {
    let lines = ["king,4,7,white", "rook,0,7,white", "king,4,0,black"];
    let records: Vec<_> = lines.iter().map(|l| parse_record(l).unwrap()).collect();
    let g = Game::build_game(&records).unwrap();
    assert_eq!(g.get_tile((0, 7)).unwrap().occupant, Some((Piece::Rook, Owner::White)));
    assert_eq!(g.black_king, Some((4, 0)));
}
