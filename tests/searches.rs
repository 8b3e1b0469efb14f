use rand_pcg::Mcg128Xsl64;
use tile_tree::anneal::{
    copy_moves, draw_mutation, evaluate, mutate, mutation_allowed, mutation_for, Mutation, PermutationSearch,
    SequenceSearch,
};
use tile_tree::beam::{fingerprint, same_cells, select_top, BeamSearch};
use tile_tree::board::{Board, Dir};
use tile_tree::greedy::{drag_tile, greedy, move_empty_to_goal, move_tile};
use tile_tree::path::{find_path, search_tiles};
use tile_tree::score::score;

fn board(size: usize, cells: &[u8]) -> Board {
    Board::new(size, cells.to_vec()).expect("valid board")
}

fn walk_cells(size: usize, start: usize, path: &[Dir]) -> Vec<usize> {
    let mut cells = vec![];
    let (mut h, mut w) = (start / size, start % size);
    for d in path {
        match d {
            Dir::Left => w -= 1,
            Dir::Up => h -= 1,
            Dir::Right => w += 1,
            Dir::Down => h += 1,
        }
        assert!(h < size && w < size);
        cells.push(h * size + w);
    }
    cells
}

#[test]
fn find_path_is_shortest_on_an_open_grid() {
    let b = board(3, &[1, 2, 3, 4, 5, 6, 7, 8, 0]);
    let fixed = vec![false; 9];
    let path = find_path(&b, 0, 8, &fixed).unwrap();
    assert_eq!(path.len(), 4);
    assert_eq!(*walk_cells(3, 0, &path).last().unwrap(), 8);
}

#[test]
fn find_path_never_enters_a_fixed_cell() {
    let b = board(3, &[1, 2, 3, 4, 5, 6, 7, 8, 0]);
    let mut fixed = vec![false; 9];
    fixed[1] = true;
    fixed[4] = true;
    let path = find_path(&b, 0, 2, &fixed).unwrap();
    let cells = walk_cells(3, 0, &path);
    assert_eq!(*cells.last().unwrap(), 2);
    assert!(cells.iter().all(|&c| !fixed[c]));
    assert_eq!(path.len(), 6);
}

#[test]
fn find_path_reports_an_unreachable_goal() {
    let b = board(3, &[1, 2, 3, 4, 5, 6, 7, 8, 0]);
    let mut fixed = vec![false; 9];
    fixed[1] = true;
    fixed[3] = true;
    assert!(find_path(&b, 0, 8, &fixed).is_none());
}

#[test]
fn find_path_to_the_start_is_empty() {
    let b = board(2, &[1, 2, 3, 0]);
    let fixed = vec![false; 4];
    assert_eq!(find_path(&b, 3, 3, &fixed).unwrap().len(), 0);
}

#[test]
fn search_tiles_lists_reachable_matches_nearest_first() {
    let b = board(3, &[5, 1, 5, 1, 5, 1, 5, 1, 0]);
    let mut fixed = vec![false; 9];
    let found = search_tiles(&b, 5, 4, &fixed).unwrap();
    assert_eq!(found[0], 4);
    let mut sorted = found.clone();
    sorted.sort();
    assert_eq!(sorted, vec![0, 2, 4, 6]);
    fixed[1] = true;
    fixed[3] = true;
    let found = search_tiles(&b, 5, 8, &fixed).unwrap();
    let mut sorted = found.clone();
    sorted.sort();
    assert_eq!(sorted, vec![2, 4, 6]);
    assert!(search_tiles(&b, 9, 8, &fixed).is_none());
}

#[test]
fn move_empty_to_goal_records_its_moves() {
    let mut b = board(3, &[1, 2, 3, 4, 5, 6, 7, 8, 0]);
    let start = b.duplicate();
    let fixed = vec![false; 9];
    let mut moves = vec![Dir::Up];
    moves.clear();
    assert!(move_empty_to_goal(&mut b, 0, &mut moves, &fixed));
    assert_eq!(b.empty, 0);
    assert_eq!(moves.len(), 4);
    let mut replay = start.duplicate();
    assert!(replay.apply_moves(&moves));
    assert_eq!(replay, b);
}

#[test]
fn move_tile_brings_a_matching_tile_to_the_goal() {
    let mut b = board(3, &[1, 2, 3, 4, 5, 6, 7, 8, 0]);
    let start = b.duplicate();
    let target = board(3, &[8, 2, 3, 4, 5, 6, 7, 1, 0]);
    let fixed = vec![false; 9];
    let mut moves = vec![];
    assert!(move_tile(&mut b, &target, 0, 0, &mut moves, &fixed));
    assert_eq!(b.cells[0], 8);
    let mut replay = start.duplicate();
    assert!(replay.apply_moves(&moves));
    assert_eq!(replay, b);
}

#[test]
fn move_tile_leaves_fixed_tiles_alone() {
    let mut b = board(3, &[1, 2, 3, 4, 5, 6, 7, 8, 0]);
    let target = board(3, &[1, 2, 3, 4, 5, 6, 8, 7, 0]);
    let mut fixed = vec![false; 9];
    fixed[0] = true;
    fixed[1] = true;
    fixed[2] = true;
    let mut moves = vec![];
    assert!(move_tile(&mut b, &target, 6, 6, &mut moves, &fixed));
    assert_eq!(b.cells[6], 8);
    assert_eq!(b.cells[0], 1);
}

#[test]
fn greedy_moves_replay_to_the_board_it_leaves() {
    let mut b = board(4, &[1, 2, 3, 4, 5, 6, 7, 8, 9, 10, 11, 12, 13, 14, 15, 0]);
    let start = b.duplicate();
    let target = board(4, &[15, 14, 13, 12, 11, 10, 9, 8, 7, 6, 5, 4, 3, 2, 1, 0]);
    let (moves, _complete) = greedy(&mut b, &target);
    let mut replay = start.duplicate();
    assert!(replay.apply_moves(&moves));
    assert_eq!(replay, b);
    assert_eq!(b.cells[0], 15);
}

#[test]
fn greedy_reaches_a_solvable_target() {
    let target = board(3, &[1, 2, 3, 4, 5, 6, 7, 8, 0]);
    let mut b = target.duplicate();
    assert!(b.apply_moves(&vec![Dir::Up, Dir::Left, Dir::Up, Dir::Left, Dir::Down, Dir::Right]));
    let start = b.duplicate();
    let (moves, complete) = greedy(&mut b, &target);
    assert!(complete);
    for h in 0..3 {
        for w in 0..3 {
            if !(w == 2 && h >= 1) {
                assert_eq!(b.cells[h * 3 + w], target.cells[h * 3 + w]);
            }
        }
    }
    let mut replay = start.duplicate();
    assert!(replay.apply_moves(&moves));
    assert_eq!(replay, b);
}

#[test]
fn mutations_change_the_sequence_as_named() {
    let s = vec![Dir::Left, Dir::Up, Dir::Right];
    assert_eq!(mutate(&s, Mutation::Swap(0, 2)).unwrap(), vec![Dir::Right, Dir::Up, Dir::Left]);
    assert_eq!(mutate(&s, Mutation::Replace(1, Dir::Down)).unwrap(), vec![Dir::Left, Dir::Down, Dir::Right]);
    assert_eq!(mutate(&s, Mutation::Remove(0)).unwrap(), vec![Dir::Up, Dir::Right]);
    assert_eq!(mutate(&s, Mutation::Insert(1, Dir::Down)).unwrap(), vec![Dir::Left, Dir::Down, Dir::Up, Dir::Right]);
    assert_eq!(mutate(&s, Mutation::Push(Dir::Down)).unwrap(), vec![Dir::Left, Dir::Up, Dir::Right, Dir::Down]);
    assert_eq!(mutate(&s, Mutation::Pop).unwrap(), vec![Dir::Left, Dir::Up]);
    assert_eq!(mutate(&s, Mutation::Keep).unwrap(), s);
    assert!(mutate(&s, Mutation::Remove(3)).is_none());
    assert_eq!(copy_moves(&s), s);
}

#[test]
fn drawn_mutations_respect_the_budget() {
    let mut rng = Mcg128Xsl64::new(7);
    for _ in 0..500 {
        assert!(draw_mutation(&mut rng, 4, 4).map_or(true, |m| m != Mutation::Keep));
        if let Some(m) = draw_mutation(&mut rng, 4, 4) {
            let s = vec![Dir::Up; 4];
            let t = mutate(&s, m).unwrap();
            assert!(t.len() <= 4);
            assert!(!matches!(m, Mutation::Push(_) | Mutation::Insert(_, _)));
        }
    }
}

#[test]
fn weak_seeds_are_not_refined() {
    let b = board(3, &[12, 9, 8, 6, 3, 2, 4, 1, 0]);
    let search = SequenceSearch::new(&b, 10, &vec![]).unwrap();
    assert_eq!(search.score, 1_250_000);
    assert!(!search.seed_worth_refining());
}

#[test]
fn evaluate_refuses_illegal_or_overlong_moves() {
    let b = board(3, &[4, 5, 9, 12, 5, 3, 6, 1, 0]);
    assert_eq!(evaluate(&b, 4, &vec![Dir::Right]), None);
    assert_eq!(evaluate(&b, 1, &vec![Dir::Up, Dir::Down]), None);
    assert_eq!(evaluate(&b, 4, &vec![Dir::Up, Dir::Down]), Some(3_000_000));
}

#[test]
fn sequence_search_keeps_only_legal_candidates() {
    let b = board(3, &[4, 5, 9, 12, 5, 3, 6, 1, 0]);
    assert!(SequenceSearch::new(&b, 10, &vec![Dir::Down]).is_none());
    let mut search = SequenceSearch::new(&b, 10, &vec![Dir::Up, Dir::Down]).unwrap();
    assert_eq!(search.score, 9_000_000);
    assert!(search.seed_worth_refining());
    let mut rng = Mcg128Xsl64::new(1);
    for _ in 0..200 {
        if let Some((cand, s)) = search.propose(&mut rng) {
            let mut replay = b.duplicate();
            assert!(replay.apply_moves(&cand));
            assert_eq!(score(&replay, cand.len(), 10), s);
            search.commit(cand, s, true);
        }
    }
    let mut replay = b.duplicate();
    assert!(replay.apply_moves(&search.best));
    assert!(search.best_score >= 9_000_000);
}

#[test]
fn permutation_search_exchanges_two_tiles() {
    let b = board(3, &[4, 5, 0, 12, 5, 3, 6, 1, 9]);
    let mut search = PermutationSearch::new(&b, 10);
    assert_eq!(search.board.empty, 8);
    assert_eq!(search.board.cells, vec![4, 5, 9, 12, 5, 3, 6, 1, 0]);
    assert!(search.is_perfect());
    let mut rng = Mcg128Xsl64::new(3);
    for _ in 0..100 {
        let p = search.propose(&mut rng);
        assert!(p.a < p.b && p.b < 8);
        let before = search.board.cells.clone();
        search.decide(p, true);
        let mut expected = before.clone();
        expected.swap(p.a, p.b);
        assert_eq!(search.board.cells, expected);
        assert_eq!(search.board.cells[8], 0);
        assert_eq!(search.score, p.new_score);
    }
    assert_eq!(search.best_score, 10_000_000);
}

#[test]
fn fingerprints_and_cell_comparison() {
    assert_eq!(fingerprint(&vec![1, 2]), 33);
    assert_eq!(fingerprint(&vec![]), 0);
    assert!(same_cells(&vec![1, 2, 3], &vec![1, 2, 3]));
    assert!(!same_cells(&vec![1, 2, 3], &vec![1, 2, 4]));
    assert!(!same_cells(&vec![1, 2], &vec![1, 2, 3]));
}

#[test]
fn beam_search_records_each_board_once() {
    let b = board(3, &[4, 5, 9, 12, 5, 3, 6, 0, 1]);
    let mut search = BeamSearch::new(&b, 5, 6);
    let mut rng = Mcg128Xsl64::new(0);
    while search.expand_layer(&mut rng) {}
    for i in 0..search.records.len() {
        for j in i + 1..search.records.len() {
            assert_ne!(search.records[i].board.cells, search.records[j].board.cells);
        }
    }
    let moves = search.best_moves();
    let mut replay = b.duplicate();
    assert!(replay.apply_moves(&moves));
    assert_eq!(replay, search.records[search.best].board);
    assert_eq!(score(&replay, moves.len(), 6), search.best_score);
    assert_eq!(moves, vec![Dir::Right]);
}

#[test]
fn beam_search_keeps_the_best_children() {
    // Moving the empty slot right completes the spanning snake; left does not.
    let b = board(3, &[4, 5, 9, 12, 5, 3, 6, 0, 1]);
    let mut search = BeamSearch::new(&b, 1, 6);
    let mut rng = Mcg128Xsl64::new(5);
    assert!(search.expand_layer(&mut rng));
    assert_eq!(search.frontier.len(), 1);
    let kept = &search.records[search.frontier[0]].board;
    assert_eq!(kept.cells, vec![4, 5, 9, 12, 5, 3, 6, 1, 0]);
    let path = search.path_to(search.frontier[0]);
    assert_eq!(path, vec![Dir::Right]);
}

#[test]
fn select_top_keeps_the_highest_priorities() {
    let cands = vec![(5, 0), (9, 1), (1, 2), (7, 3), (3, 4)];
    let (mut kept, mut dropped) = select_top(cands.clone(), 2);
    kept.sort();
    dropped.sort();
    assert_eq!(kept, vec![(7, 3), (9, 1)]);
    assert_eq!(dropped, vec![(1, 2), (3, 4), (5, 0)]);
    let (kept, dropped) = select_top(cands, 10);
    assert_eq!(kept.len(), 5);
    assert!(dropped.is_empty());
    let (kept, dropped) = select_top(vec![], 3);
    assert!(kept.is_empty() && dropped.is_empty());
}

#[test]
fn mutations_are_always_drawn_in_the_middle_range() {
    let mut rng = Mcg128Xsl64::new(11);
    let mut drawn = 0;
    for _ in 0..300 {
        if draw_mutation(&mut rng, 6, 10).is_some() {
            drawn += 1;
        }
    }
    assert_eq!(drawn, 300);
    assert_eq!(mutation_for(0, 1, 2, Dir::Up), Mutation::Swap(1, 2));
    assert!(!mutation_allowed(0, 1, 10));
    assert!(mutation_allowed(5, 0, 0));
}

#[test]
fn drag_tile_reports_a_blocked_drag() {
    // The tile at 4 must move left to 3, but the empty slot at 8 cannot reach
    // 3 once 4 and the fixed cells 5 and 7 are out of bounds.
    let b = board(3, &[1, 2, 3, 4, 5, 6, 7, 8, 0]);
    let mut fixed = vec![false; 9];
    fixed[5] = true;
    fixed[7] = true;
    assert!(drag_tile(&b, 4, &vec![Dir::Left], &fixed).is_none());
    let open = vec![false; 9];
    let (moves, moved) = drag_tile(&b, 4, &vec![Dir::Left], &open).unwrap();
    assert_eq!(moved.cells[3], 5);
    let mut replay = b.duplicate();
    assert!(replay.apply_moves(&moves));
    assert_eq!(replay, moved);
}

#[test]
fn beam_layers_record_every_child() {
    let b = board(3, &[4, 5, 9, 12, 5, 3, 6, 0, 1]);
    let mut search = BeamSearch::new(&b, 2, 3);
    let mut rng = Mcg128Xsl64::new(2);
    assert!(search.expand_layer(&mut rng));
    // Up, Left and Right are legal from the bottom middle.
    assert_eq!(search.records.len(), 4);
    assert_eq!(search.frontier.len(), 2);
    assert!(search.frontier.iter().all(|&i| i >= 1));
    while search.expand_layer(&mut rng) {}
    assert!(search.frontier.is_empty());
    let moves = search.best_moves();
    let mut seen = vec![b.cells.clone()];
    let mut replay = b.duplicate();
    for d in &moves {
        assert!(replay.move_empty(*d));
        assert!(!seen.contains(&replay.cells));
        seen.push(replay.cells.clone());
    }
}
