use rookandroll::board::Board;

#[test]
fn test_fens() {
    let good_fens = [
        "rnbqkbnr/pppppppp/8/8/8/8/PPPPPPPP/RNBQKBNR w KQkq - 0 1",
        "rnbqkbnr/pppppppp/8/8/4P3/8/PPPP1PPP/RNBQKBNR b KQkq e3 0 1",
        "rnbqkbnr/pp1ppppp/8/2p5/4P3/8/PPPP1PPP/RNBQKBNR w KQkq c6 0 2",
        "rnbqkbnr/pp1ppppp/8/2p5/4P3/5N2/PPPP1PPP/RNBQKB1R b KQkq - 1 2 ",
        "rnbqkbnr/pp1ppppp/8/2p5/4P3/5N2/PPPP1PPP/RNBQKB1R b KQkq - 1",
        "     rnbqkbnr/pp1ppppp/8/2p5/4P3/5N2/PPPP1PPP/RNBQKB1R b KQkq -      ",
    ];

    for fen in good_fens {
        let board = Board::new_fen(fen);
        assert!(board.is_ok());
        println!("{}", fen);
    }

    let bad_fens = [
        "rnbqkbnr/pppppppp/8/8/8/8/PPPPPPPP/RNBQKBNR KQkq - 0 1",
        "rnbaqkbnr/pppppppp/8/8/4P3/8/PPPP1PPP/RNBQKBNR b KQkq e3 0 1",
        "rnbqkbnr/pp1ppppp/8/2p5/4P3/8/PPPP1PPP/RNBQKBNR w KaQkq c6 0 2",
        "rnbqkbnr/pp1ppppp/8/2p5/4P3/5N2/PPPP1PPP/RNBQKB1R b KQkq r5 1 2 ",
        "rnbqkbnr/pp1ppppp/8/2p5/4P3/5N2/PPPP1PPP/RNBQKB1R b KQkq - -1 2 ",
    ];

    for fen in bad_fens {
        println!("{}", fen);
        assert!(Board::new_fen(fen).is_err());
    }
}

#[test]
fn decoded_fields() {
    let b = Board::new_fen("rnbqkbnr/pppppppp/8/8/4P3/8/PPPP1PPP/RNBQKBNR b KQkq e3 0 1").unwrap();
    assert_eq!(b.ctm, 1);
    assert_eq!(b.castle_state, 0b1111);
    assert_eq!(b.ep, 20);
    assert_eq!(b.halfmove, 0);
    // the pushed pawn stands on e4, square 28
    assert_eq!(b.pieces[0] & (1u64 << 28), 1u64 << 28);
    assert_eq!(b.util[2] & (1u64 << 12), 0);
    assert_eq!(b.hash, 0);
}

#[test]
fn partial_castle_rights() {
    let b = Board::new_fen("r3k2r/8/8/8/8/8/8/R3K2R w Kq - 0 1").unwrap();
    assert_eq!(b.castle_state, 0b1001);
    let b = Board::new_fen("r3k2r/8/8/8/8/8/8/R3K2R w - - 0 1").unwrap();
    assert_eq!(b.castle_state, 0b0000);
    // rights out of order are refused
    assert!(Board::new_fen("r3k2r/8/8/8/8/8/8/R3K2R w qK - 0 1").is_err());
}

#[test]
fn king_count_is_checked() {
    // two white kings
    assert!(Board::new_fen("8/8/8/8/8/8/8/KK5k w - - 0 1").is_err());
    // no black king
    assert!(Board::new_fen("8/8/8/8/8/8/8/K7 w - - 0 1").is_err());
}

#[test]
fn en_passant_must_fit_side_to_move() {
    // a rank-3 target belongs to black's turn, not white's
    assert!(Board::new_fen("rnbqkbnr/pppppppp/8/8/4P3/8/PPPP1PPP/RNBQKBNR w KQkq e3 0 1").is_err());
    assert!(Board::new_fen("rnbqkbnr/pp1ppppp/8/2p5/4P3/8/PPPP1PPP/RNBQKBNR b KQkq c6 0 2").is_err());
}

#[test]
fn placement_off_the_board_is_refused() {
    // the top rank skips eight files and then tries to place a ninth
    assert!(Board::new_fen("8p/8/8/8/8/8/8/Kk6 w - - 0 1").is_err());
}

#[test]
fn halfmove_clock() {
    let b = Board::new_fen("8/8/8/8/8/8/8/Kk6 w - - 37 1").unwrap();
    assert_eq!(b.halfmove, 37);
    // absent clock reads as zero
    let b = Board::new_fen("8/8/8/8/8/8/8/Kk6 w - -").unwrap();
    assert_eq!(b.halfmove, 0);
    // a clock too large to represent is refused
    assert!(Board::new_fen("8/8/8/8/8/8/8/Kk6 w - - 99999999999999999999999 1").is_err());
}

#[test]
fn error_carries_the_record() {
    let e = rookandroll::fen::InvalidFenError::new("not a fen");
    let _ = format!("{:?}", e);
}
