use rookandroll::board::Board;
use rookandroll::movegen::ALL_SQUARES;
use rookandroll::movegen::BishopAttackIterator;
use rookandroll::movegen::BishopQuietIterator;
use rookandroll::movegen::NO_SQUARES;
use rookandroll::movegen::get_xpiece;
use rookandroll::moves::Move;
use rookandroll::moves::MoveType;

#[test]
fn bishop_moves_iter() {
    let b = Board::new_fen("r3k2r/Pppp1ppp/1b3nbN/nP6/BBP1P3/q4N2/Pp1P2PP/R2Q1RK1 w kq -").unwrap();
    let mut wquiet = BishopQuietIterator::new(&b, NO_SQUARES, ALL_SQUARES);
    let mut moves: Vec<Move> = Vec::new();
    while let Some(m) = wquiet.next_quiet() {
        moves.push(m);
    }
    moves.iter().for_each(|m| println!("{}", m.as_uci_string()));
    assert_eq!(moves.len(), 7);

    let mut wattack = BishopAttackIterator::new(&b, NO_SQUARES, ALL_SQUARES);
    let mut wcaps: usize = 0;
    while wattack.next_attack().is_some() {
        wcaps += 1;
    }
    assert_eq!(wcaps, 2);

    let b = Board::new_fen("r3k2r/Pppp1ppp/1b3nbN/nP6/BBP1P3/q4N2/Pp1P2PP/R2Q1RK1 b kq -").unwrap();

    let mut bquiet = BishopQuietIterator::new(&b, NO_SQUARES, ALL_SQUARES);
    let mut bquiets: usize = 0;
    while bquiet.next_quiet().is_some() {
        bquiets += 1;
    }
    assert_eq!(bquiets, 6);

    let mut battack = BishopAttackIterator::new(&b, NO_SQUARES, ALL_SQUARES);
    let mut bcaps: usize = 0;
    while battack.next_attack().is_some() {
        bcaps += 1;
    }
    assert_eq!(bcaps, 3);
}

#[test]
fn empty_target_yields_nothing() {
    // an empty target mask silences the producers on any board
    let b = Board::new_fen("r3k2r/Pppp1ppp/1b3nbN/nP6/BBP1P3/q4N2/Pp1P2PP/R2Q1RK1 w kq -").unwrap();
    let mut quiet = BishopQuietIterator::new(&b, NO_SQUARES, NO_SQUARES);
    assert!(quiet.next_quiet().is_none());
    let mut attack = BishopAttackIterator::new(&b, NO_SQUARES, NO_SQUARES);
    assert!(attack.next_attack().is_none());
}

#[test]
fn blocked_bishops_yield_nothing() {
    // in the initial position both bishops of either side are boxed in
    let b = Board::new_fen("rnbqkbnr/pppppppp/8/8/8/8/PPPPPPPP/RNBQKBNR w KQkq - 0 1").unwrap();
    let mut quiet = BishopQuietIterator::new(&b, NO_SQUARES, ALL_SQUARES);
    assert!(quiet.next_quiet().is_none());
    let mut attack = BishopAttackIterator::new(&b, NO_SQUARES, ALL_SQUARES);
    assert!(attack.next_attack().is_none());
}

#[test]
fn lone_bishop_exact_moves() {
    let b = Board::new_fen("8/8/8/3B4/8/8/8/K6k w - -").unwrap();
    let mut quiet = BishopQuietIterator::new(&b, NO_SQUARES, ALL_SQUARES);
    let first = quiet.next_quiet().unwrap();
    // destinations come lowest square first
    assert_eq!(first.as_uci_string(), "d5a2");
    assert_eq!(first.piece, 6);
    assert_eq!(first.xpiece, 0);
    assert_eq!(first.move_type, MoveType::Quiet);
    let mut quiets: usize = 1;
    while quiet.next_quiet().is_some() {
        quiets += 1;
    }
    // the black king on h1 blocks that ray's last square
    assert_eq!(quiets, 12);

    let mut attack = BishopAttackIterator::new(&b, NO_SQUARES, ALL_SQUARES);
    let cap = attack.next_attack().unwrap();
    assert_eq!(cap.as_uci_string(), "d5h1");
    assert_eq!(cap.xpiece, 11);
    assert_eq!(cap.move_type, MoveType::Cap);
    assert!(attack.next_attack().is_none());
}

#[test]
fn pinned_bishop_is_excluded() {
    // two white bishops; marking c5 pinned leaves only d5's moves
    let b = Board::new_fen("8/8/8/2BB4/8/8/8/K6k w - -").unwrap();
    let mut it = BishopQuietIterator::new(&b, 1u64 << 34, ALL_SQUARES);
    let mut seen: usize = 0;
    while let Some(m) = it.next_quiet() {
        assert_eq!(m.from, 35);
        seen += 1;
    }
    assert!(seen > 0);

    // and d5's own moves are the same as with no pin at all
    let mut unpinned = BishopQuietIterator::new(&b, NO_SQUARES, ALL_SQUARES);
    let mut from_d5: Vec<Move> = Vec::new();
    while let Some(m) = unpinned.next_quiet() {
        if m.from == 35 {
            from_d5.push(m);
        }
    }
    let mut pinned = BishopQuietIterator::new(&b, 1u64 << 34, ALL_SQUARES);
    let mut from_d5_pinned: Vec<Move> = Vec::new();
    while let Some(m) = pinned.next_quiet() {
        from_d5_pinned.push(m);
    }
    assert_eq!(from_d5, from_d5_pinned);
}

#[test]
fn capture_target_mask_filters() {
    // restricting the target to the queen's square leaves only that capture
    let b = Board::new_fen("r3k2r/Pppp1ppp/1b3nbN/nP6/BBP1P3/q4N2/Pp1P2PP/R2Q1RK1 w kq -").unwrap();
    let mut attack = BishopAttackIterator::new(&b, NO_SQUARES, 1u64 << 16);
    let cap = attack.next_attack().unwrap();
    assert_eq!(cap.as_uci_string(), "b4a3");
    assert_eq!(cap.xpiece, 9);
    assert!(attack.next_attack().is_none());
}

#[test]
fn resolves_occupants() {
    let b = Board::new_fen("rnbqkbnr/pppppppp/8/8/8/8/PPPPPPPP/RNBQKBNR w KQkq - 0 1").unwrap();
    assert_eq!(get_xpiece(&b, 0), Some(4));
    assert_eq!(get_xpiece(&b, 4), Some(10));
    assert_eq!(get_xpiece(&b, 60), Some(11));
    assert_eq!(get_xpiece(&b, 28), None);
}

#[test]
fn move_equality_and_text() {
    let a = Move::new(12, 19, 6, 0, MoveType::Quiet);
    let b = Move::new(12, 19, 6, 0, MoveType::Quiet);
    assert_eq!(a, b);
    let c = Move::new(12, 19, 6, 3, MoveType::Cap);
    assert_ne!(a, c);
    assert_eq!(a.as_uci_string(), "e2d3");
    assert_eq!(Move::new(0, 63, 6, 0, MoveType::Quiet).as_uci_string(), "a1h8");
}

#[test]
fn bishop_attack_bitboards() {
    // a1 on an empty board: the long diagonal above it
    assert_eq!(rookandroll::attacks::bishop_moves(0, 0), 0x8040_2010_0804_0200);
    // a blocker on c3 cuts the ray there, and c3 itself stays attackable
    assert_eq!(
        rookandroll::attacks::bishop_moves(1u64 << 18, 0),
        (1u64 << 9) | (1u64 << 18)
    );
}
