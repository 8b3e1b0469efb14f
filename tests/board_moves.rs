use tile_tree::board::{hex_digit, hex_value, Board, Dir};

fn board(size: usize, cells: &[u8]) -> Board {
    Board::new(size, cells.to_vec()).expect("valid board")
}

#[test]
fn new_finds_the_empty_slot() {
    let b = board(3, &[1, 2, 3, 4, 0, 5, 6, 7, 8]);
    assert_eq!(b.empty, 4);
    assert_eq!(b.empty_position(), (1, 1));
    assert_eq!(b.get(2, 0), 6);
}

#[test]
fn new_rejects_wrong_cell_count() {
    assert!(Board::new(3, vec![0, 1, 2, 3]).is_none());
}

#[test]
fn new_rejects_missing_empty_slot() {
    assert!(Board::new(2, vec![1, 2, 3, 4]).is_none());
}

#[test]
fn new_rejects_two_empty_slots() {
    assert!(Board::new(2, vec![0, 2, 3, 0]).is_none());
}

#[test]
fn new_rejects_zero_size() {
    assert!(Board::new(0, vec![]).is_none());
}

#[test]
fn move_swaps_the_empty_slot_with_its_neighbour() {
    let mut b = board(3, &[1, 2, 3, 4, 0, 5, 6, 7, 8]);
    assert!(b.move_empty(Dir::Up));
    assert_eq!(b.cells, vec![1, 0, 3, 4, 2, 5, 6, 7, 8]);
    assert_eq!(b.empty, 1);
    assert!(b.move_empty(Dir::Left));
    assert_eq!(b.cells, vec![0, 1, 3, 4, 2, 5, 6, 7, 8]);
    assert_eq!(b.empty_position(), (0, 0));
}

#[test]
fn move_off_the_grid_is_refused_without_change() {
    let mut b = board(2, &[0, 1, 2, 3]);
    let before = b.duplicate();
    assert!(!b.move_empty(Dir::Up));
    assert!(!b.move_empty(Dir::Left));
    assert_eq!(b, before);
    let mut c = board(2, &[1, 2, 3, 0]);
    assert!(!c.move_empty(Dir::Right));
    assert!(!c.move_empty(Dir::Down));
    assert_eq!(c.cells, vec![1, 2, 3, 0]);
}

#[test]
fn move_then_opposite_move_restores_the_board() {
    for d in [Dir::Left, Dir::Up, Dir::Right, Dir::Down] {
        let start = board(3, &[1, 2, 3, 4, 0, 5, 6, 7, 8]);
        let mut b = start.duplicate();
        assert!(b.move_empty(d));
        assert_ne!(b, start);
        assert!(b.move_empty(d.opposite()));
        assert_eq!(b, start);
    }
}

#[test]
fn every_legal_move_keeps_exactly_one_empty_cell() {
    let mut b = board(3, &[1, 2, 3, 4, 0, 5, 6, 7, 8]);
    let moves = [Dir::Up, Dir::Left, Dir::Down, Dir::Down, Dir::Right, Dir::Right, Dir::Up, Dir::Left];
    for d in moves {
        b.move_empty(d);
        let zeros: Vec<usize> = (0..9).filter(|&i| b.cells[i] == 0).collect();
        assert_eq!(zeros, vec![b.empty]);
    }
}

#[test]
fn apply_moves_replays_a_legal_sequence() {
    let mut b = board(3, &[1, 2, 3, 4, 0, 5, 6, 7, 8]);
    assert!(b.apply_moves(&vec![Dir::Right, Dir::Down, Dir::Left]));
    assert_eq!(b.cells, vec![1, 2, 3, 4, 5, 8, 6, 0, 7]);
    assert_eq!(b.empty, 7);
}

#[test]
fn apply_moves_refuses_an_illegal_sequence_whole() {
    let mut b = board(3, &[1, 2, 3, 4, 0, 5, 6, 7, 8]);
    let before = b.duplicate();
    assert!(!b.apply_moves(&vec![Dir::Right, Dir::Right, Dir::Down]));
    assert_eq!(b, before);
}

#[test]
fn swap_and_resync_follow_the_empty_slot() {
    let mut b = board(2, &[1, 0, 2, 3]);
    b.swap(1, 3);
    assert_eq!(b.cells, vec![1, 3, 2, 0]);
    assert_eq!(b.empty, 1);
    assert!(b.resync_empty());
    assert_eq!(b.empty, 3);
}

#[test]
fn set_writes_one_cell() {
    let mut b = board(2, &[1, 0, 2, 3]);
    b.set(1, 0, 9);
    assert_eq!(b.cells, vec![1, 0, 9, 3]);
}

#[test]
fn directions_and_letters() {
    assert_eq!(Dir::from_char('L'), Some(Dir::Left));
    assert_eq!(Dir::from_char('D'), Some(Dir::Down));
    assert_eq!(Dir::from_char('x'), None);
    assert_eq!(Dir::Up.to_char(), 'U');
    assert_eq!(Dir::Right.to_char(), 'R');
    assert_eq!(Dir::from_index(2), Dir::Right);
    assert_eq!(Dir::Down.index(), 3);
    assert_eq!(Dir::Left.opposite(), Dir::Right);
}

#[test]
fn hex_digits_both_ways() {
    assert_eq!(hex_value('0'), Some(0));
    assert_eq!(hex_value('9'), Some(9));
    assert_eq!(hex_value('a'), Some(10));
    assert_eq!(hex_value('F'), Some(15));
    assert_eq!(hex_value('g'), None);
    assert_eq!(hex_digit(11), 'b');
    assert_eq!(hex_digit(7), '7');
}

#[test]
fn replay_fails_from_the_first_illegal_move_on() {
    let start = board(3, &[1, 2, 3, 4, 0, 5, 6, 7, 8]);
    // Up, Up leaves the grid at the second move.
    let moves = vec![Dir::Right, Dir::Up, Dir::Up, Dir::Left, Dir::Down];
    for k in 0..=moves.len() {
        let mut b = start.duplicate();
        let ok = b.apply_moves(&moves[..k].to_vec());
        assert_eq!(ok, k <= 2, "prefix of length {}", k);
    }
}
