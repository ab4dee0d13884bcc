use go_capture::{
    find_first_delim, get_index, process_chain, resolve_capture, row_label_index, update_board,
    Board, Cell, Coord, Game, GoError, Player,
};

fn count_stones(board: &Board) -> usize {
    board
        .snapshot()
        .iter()
        .filter(|c| matches!(c, Cell::Stone(_)))
        .count()
}

#[test]
fn board_new_rejects_degenerate_sizes() {
    assert_eq!(Board::new(0).err(), Some(GoError::InvalidBoardSize));
    assert_eq!(Board::new(256).err(), Some(GoError::InvalidBoardSize));
    let b = Board::new(5).unwrap();
    assert_eq!(b.size(), 5);
    for row in 1..=5usize {
        for col in 1..=5usize {
            assert_eq!(b.get(Coord(row, col)).unwrap(), Cell::Empty);
        }
    }
}

#[test]
fn out_of_bounds_is_a_typed_failure() {
    let mut b = Board::new(5).unwrap();
    assert_eq!(b.get(Coord(0, 1)).err(), Some(GoError::InvalidCoordinate));
    assert_eq!(b.get(Coord(1, 6)).err(), Some(GoError::InvalidCoordinate));
    assert_eq!(
        b.set(Coord(6, 1), Cell::Stone(Player::Black)).err(),
        Some(GoError::InvalidCoordinate)
    );
    assert_eq!(
        update_board(&mut b, Coord(0, 0), Player::Black).err(),
        Some(GoError::InvalidCoordinate)
    );
    // the failed writes left the board untouched
    assert_eq!(count_stones(&b), 0);
}

#[test]
fn get_index_is_row_major() {
    assert_eq!(get_index(19, Coord(1, 1)), 0);
    assert_eq!(get_index(19, Coord(1, 19)), 18);
    assert_eq!(get_index(19, Coord(2, 1)), 19);
    assert_eq!(get_index(19, Coord(19, 19)), 360);
}

#[test]
fn corner_capture_scenario() {
    // Black (1,1); White (1,2); White (2,1): the last move captures one stone.
    let mut b = Board::new(5).unwrap();
    assert_eq!(update_board(&mut b, Coord(1, 1), Player::Black).unwrap(), vec![]);
    assert_eq!(update_board(&mut b, Coord(1, 2), Player::White).unwrap(), vec![]);
    assert_eq!(update_board(&mut b, Coord(2, 1), Player::White).unwrap(), vec![1]);
    assert_eq!(b.get(Coord(1, 1)).unwrap(), Cell::Empty);
    assert_eq!(b.get(Coord(1, 2)).unwrap(), Cell::Stone(Player::White));
    assert_eq!(b.get(Coord(2, 1)).unwrap(), Cell::Stone(Player::White));
}

#[test]
fn edge_neighbors_are_not_liberties() {
    // A corner stone has only two in-bounds neighbors; once both hold the
    // opposing color it is captured.
    let mut b = Board::new(5).unwrap();
    update_board(&mut b, Coord(5, 5), Player::Black).unwrap();
    update_board(&mut b, Coord(5, 4), Player::White).unwrap();
    let caps = update_board(&mut b, Coord(4, 5), Player::White).unwrap();
    assert_eq!(caps, vec![1]);
    assert_eq!(b.get(Coord(5, 5)).unwrap(), Cell::Empty);
}

#[test]
fn multi_group_capture_reports_in_scan_order() {
    // Two disjoint single-stone Black groups die from one White placement;
    // the sizes come in row-major scan order.
    let mut b = Board::new(5).unwrap();
    update_board(&mut b, Coord(1, 1), Player::Black).unwrap();
    update_board(&mut b, Coord(1, 3), Player::Black).unwrap();
    update_board(&mut b, Coord(2, 1), Player::White).unwrap();
    update_board(&mut b, Coord(2, 3), Player::White).unwrap();
    update_board(&mut b, Coord(1, 4), Player::White).unwrap();
    let caps = update_board(&mut b, Coord(1, 2), Player::White).unwrap();
    assert_eq!(caps, vec![1, 1]);
    assert_eq!(b.get(Coord(1, 1)).unwrap(), Cell::Empty);
    assert_eq!(b.get(Coord(1, 3)).unwrap(), Cell::Empty);
    assert_eq!(b.get(Coord(1, 2)).unwrap(), Cell::Stone(Player::White));
}

#[test]
fn self_capture_is_resolved_not_rejected() {
    // A Black stone placed into a fully White-surrounded point is removed by
    // the same unconditional pass.
    let mut b = Board::new(5).unwrap();
    update_board(&mut b, Coord(1, 2), Player::White).unwrap();
    update_board(&mut b, Coord(3, 2), Player::White).unwrap();
    update_board(&mut b, Coord(2, 1), Player::White).unwrap();
    update_board(&mut b, Coord(2, 3), Player::White).unwrap();
    let caps = update_board(&mut b, Coord(2, 2), Player::Black).unwrap();
    assert_eq!(caps, vec![1]);
    assert_eq!(b.get(Coord(2, 2)).unwrap(), Cell::Empty);
    assert_eq!(count_stones(&b), 4);
}

#[test]
fn bigger_group_capture_counts_all_stones() {
    // A two-stone Black chain dies at once and is reported as one group of 2.
    let mut b = Board::new(5).unwrap();
    update_board(&mut b, Coord(1, 1), Player::Black).unwrap();
    update_board(&mut b, Coord(1, 2), Player::Black).unwrap();
    update_board(&mut b, Coord(2, 1), Player::White).unwrap();
    update_board(&mut b, Coord(2, 2), Player::White).unwrap();
    let caps = update_board(&mut b, Coord(1, 3), Player::White).unwrap();
    assert_eq!(caps, vec![2]);
    assert_eq!(b.get(Coord(1, 1)).unwrap(), Cell::Empty);
    assert_eq!(b.get(Coord(1, 2)).unwrap(), Cell::Empty);
}

#[test]
fn occupied_count_drops_by_captured_total() {
    let mut b = Board::new(5).unwrap();
    update_board(&mut b, Coord(1, 1), Player::Black).unwrap();
    update_board(&mut b, Coord(1, 2), Player::White).unwrap();
    let before = count_stones(&b);
    // the placement adds one stone, then the capture removes the group
    let caps = update_board(&mut b, Coord(2, 1), Player::White).unwrap();
    let total: u16 = caps.iter().sum();
    assert_eq!(count_stones(&b), before + 1 - total as usize);
}

#[test]
fn resolve_twice_is_a_no_op() {
    let mut b = Board::new(5).unwrap();
    update_board(&mut b, Coord(1, 1), Player::Black).unwrap();
    update_board(&mut b, Coord(1, 2), Player::White).unwrap();
    update_board(&mut b, Coord(2, 1), Player::White).unwrap();
    let snap = b.snapshot();
    let again = resolve_capture(&mut b);
    assert_eq!(again, Vec::<u16>::new());
    assert_eq!(b.snapshot(), snap);
}

#[test]
fn snapshot_round_trip_reproduces_captures() {
    let mut b = Board::new(5).unwrap();
    update_board(&mut b, Coord(1, 1), Player::Black).unwrap();
    update_board(&mut b, Coord(1, 2), Player::White).unwrap();
    let mut copy = Board::from_snapshot(b.snapshot(), b.size()).unwrap();
    assert_eq!(copy.snapshot(), b.snapshot());
    let caps_orig = update_board(&mut b, Coord(2, 1), Player::White).unwrap();
    let caps_copy = update_board(&mut copy, Coord(2, 1), Player::White).unwrap();
    assert_eq!(caps_orig, caps_copy);
    assert_eq!(copy.snapshot(), b.snapshot());
}

#[test]
fn from_snapshot_checks_the_length() {
    let cells = vec![Cell::Empty; 24];
    assert_eq!(
        Board::from_snapshot(cells, 5).err(),
        Some(GoError::InvalidBoardSize)
    );
    assert_eq!(
        Board::from_snapshot(Vec::new(), 0).err(),
        Some(GoError::InvalidBoardSize)
    );
}

#[test]
fn board_reset_clears_everything() {
    let mut b = Board::new(3).unwrap();
    update_board(&mut b, Coord(2, 2), Player::Black).unwrap();
    b.reset();
    assert_eq!(count_stones(&b), 0);
    assert_eq!(b.size(), 3);
}

#[test]
fn display_grid_matches_symbols() {
    let mut b = Board::new(2).unwrap();
    update_board(&mut b, Coord(1, 2), Player::Black).unwrap();
    update_board(&mut b, Coord(2, 1), Player::White).unwrap();
    assert_eq!(b.to_string(), "\n. x \no . ");
}

#[test]
fn player_symbols_and_alternation() {
    assert_eq!(Player::White.symbol(), 'o');
    assert_eq!(Player::Black.symbol(), 'x');
    assert_eq!(Player::White.other(), Player::Black);
    assert_eq!(Player::Black.other(), Player::White);
}

#[test]
fn row_labels_skip_the_letter_i() {
    assert_eq!(row_label_index('A'), Some(1));
    assert_eq!(row_label_index('H'), Some(8));
    assert_eq!(row_label_index('I'), None);
    assert_eq!(row_label_index('J'), Some(9));
    assert_eq!(row_label_index('T'), Some(19));
    assert_eq!(row_label_index('a'), None);
}

#[test]
fn game_alternates_and_captures() {
    let mut g = Game::new(5).unwrap();
    assert_eq!(g.current_player(), Player::Black);
    assert_eq!(g.play(Coord(1, 1)).unwrap(), vec![]); // Black
    assert_eq!(g.current_player(), Player::White);
    assert_eq!(g.play(Coord(1, 2)).unwrap(), vec![]); // White
    g.pass(); // Black passes
    assert_eq!(g.current_player(), Player::White);
    assert_eq!(g.play(Coord(2, 1)).unwrap(), vec![1]); // White captures
    assert_eq!(g.board.get(Coord(1, 1)).unwrap(), Cell::Empty);
}

#[test]
fn game_reset_restores_the_start() {
    let mut g = Game::new(5).unwrap();
    g.play(Coord(3, 3)).unwrap();
    g.reset();
    assert_eq!(g.current_player(), Player::Black);
    assert_eq!(count_stones(&g.board), 0);
    assert_eq!(Game::new(0).err(), Some(GoError::InvalidBoardSize));
}

#[test]
fn delimiter_order_decides_the_match() {
    let buf = b"abc)def\nrest";
    assert_eq!(find_first_delim(buf, &[b')', b'\n']), Some(3));
    // the first delimiter that occurs anywhere wins, even at a later position
    assert_eq!(find_first_delim(buf, &[b'\n', b')']), Some(7));
    assert_eq!(find_first_delim(buf, &[b'#']), None);
    assert_eq!(find_first_delim(b"", &[b')']), None);
}

#[test]
fn process_chain_finds_group_and_liberties() {
    let mut b = Board::new(3).unwrap();
    b.set(Coord(1, 1), Cell::Stone(Player::Black)).unwrap();
    b.set(Coord(1, 2), Cell::Stone(Player::Black)).unwrap();
    b.set(Coord(2, 1), Cell::Stone(Player::White)).unwrap();
    let (chain, libs) = process_chain(&b, Coord(1, 1));
    let mut chain_v: Vec<(usize, usize)> = chain.iter().map(|c| (c.0, c.1)).collect();
    chain_v.sort();
    assert_eq!(chain_v, vec![(1, 1), (1, 2)]);
    let mut libs_v: Vec<(usize, usize)> = libs.iter().map(|c| (c.0, c.1)).collect();
    libs_v.sort();
    assert_eq!(libs_v, vec![(1, 3), (2, 2)]);
}
