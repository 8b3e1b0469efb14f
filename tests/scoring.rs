use tile_tree::board::Board;
use tile_tree::score::{component_labels, forward_links, max_tree_size, score, FULL_SCORE};

fn board(size: usize, cells: &[u8]) -> Board {
    Board::new(size, cells.to_vec()).expect("valid board")
}

// Connector bits: Left 1, Up 2, Right 4, Down 8.
const SNAKE: [u8; 9] = [4, 5, 9, 12, 5, 3, 6, 1, 0];

#[test]
fn spanning_snake_is_a_perfect_tree() {
    let b = board(3, &SNAKE);
    assert_eq!(max_tree_size(&b), 8);
    assert_eq!(score(&b, 10, 10), FULL_SCORE * 10);
    assert_eq!(score(&b, 0, 10), 2 * FULL_SCORE * 10);
    assert_eq!(score(&b, 5, 10), 7_500_000);
    assert_eq!(score(&b, 0, 0), 2 * FULL_SCORE);
}

#[test]
fn closing_a_four_cycle_drops_the_score() {
    let mut cells = SNAKE;
    cells[1] = 13;
    cells[4] = 7;
    let b = board(3, &cells);
    assert_eq!(max_tree_size(&b), 0);
    assert_eq!(score(&b, 0, 10), 0);
    assert!(score(&b, 10, 10) < score(&board(3, &SNAKE), 10, 10));
}

#[test]
fn all_connectors_set_forms_cycles() {
    let b = board(3, &[15, 15, 15, 15, 15, 15, 15, 15, 0]);
    assert_eq!(max_tree_size(&b), 0);
    assert_eq!(score(&b, 0, 5), 0);
}

#[test]
fn partial_trees_score_proportionally() {
    // A 2x2 cycle in the corner, and two trees of two tiles each.
    let b = board(3, &[12, 9, 8, 6, 3, 2, 4, 1, 0]);
    assert_eq!(max_tree_size(&b), 2);
    assert_eq!(score(&b, 0, 10), 1_250_000);
}

#[test]
fn one_way_connectors_do_not_join() {
    // (0,0) points right but (0,1) does not point back.
    let b = board(2, &[4, 8, 1, 0]);
    assert_eq!(max_tree_size(&b), 1);
    assert_eq!(score(&b, 0, 4), 500000 * 4 / 3);
}

#[test]
fn score_ignores_how_the_board_was_reached() {
    let a = board(3, &SNAKE);
    let mut b = board(3, &SNAKE);
    assert!(b.move_empty(tile_tree::board::Dir::Up));
    assert!(b.move_empty(tile_tree::board::Dir::Down));
    assert_eq!(score(&a, 3, 9), score(&b, 3, 9));
    assert_eq!(score(&a, 3, 9), score(&a, 3, 9));
}

#[test]
fn labels_agree_with_connectivity() {
    let b = board(3, &[12, 9, 8, 6, 3, 2, 4, 1, 0]);
    let (labels, count) = component_labels(&b);
    assert_eq!(count, 4);
    assert_eq!(labels[0], labels[4]);
    assert_eq!(labels[2], labels[5]);
    assert_ne!(labels[0], labels[2]);
    assert_eq!(labels[6], labels[7]);
    assert_ne!(labels[8], labels[7]);
}

#[test]
fn forward_links_count_right_and_down_edges() {
    let b = board(3, &[12, 9, 8, 6, 3, 2, 4, 1, 0]);
    assert_eq!(forward_links(&b, 0), 2);
    assert_eq!(forward_links(&b, 1), 1);
    assert_eq!(forward_links(&b, 4), 0);
}

#[test]
fn fewer_moves_always_score_higher_on_a_perfect_tree() {
    let b = board(3, &SNAKE);
    assert!(score(&b, 0, 1_000_000) > score(&b, 1, 1_000_000));
    assert!(score(&b, 999_999, 1_000_000) > score(&b, 1_000_000, 1_000_000));
    assert_eq!(score(&b, 1_000_000, 1_000_000), FULL_SCORE * 1_000_000);
}

#[test]
fn a_perfect_tree_beats_any_smaller_tree_under_one_budget() {
    let perfect = board(3, &SNAKE);
    let partial = board(3, &[12, 9, 8, 6, 3, 2, 4, 1, 0]);
    assert!(score(&perfect, 7, 7) > score(&partial, 0, 7));
}

#[test]
fn an_extra_edge_closing_a_square_spoils_the_tree() {
    let tree = board(3, &[12, 13, 9, 10, 2, 2, 6, 1, 0]);
    let cyclic = board(3, &[12, 13, 9, 14, 3, 2, 6, 1, 0]);
    assert_eq!(max_tree_size(&tree), 8);
    assert_eq!(score(&tree, 10, 10), FULL_SCORE * 10);
    assert_eq!(max_tree_size(&cyclic), 0);
    assert!(score(&cyclic, 10, 10) < FULL_SCORE * 10);
}
