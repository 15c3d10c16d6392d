use minesweeper::Game;

/// The swap targets that a random source returning `r` every time yields:
/// step `i` swaps with `floor(r * i)`.
fn picks_from(total: usize, r: f64) -> Vec<usize> {
    (0..total).map(|i| (r * i as f64) as usize).collect()
}

fn mines_of(g: &Game) -> Vec<(usize, usize)> {
    let mut v = Vec::new();
    for i in 0..g.get_num_rows() {
        for j in 0..g.get_num_cols() {
            if g.get_cell_state(i, j).2 {
                v.push((i, j));
            }
        }
    }
    v
}

fn sorted(v: &Vec<(usize, usize)>) -> Vec<(usize, usize)> {
    let mut w = v.clone();
    w.sort();
    w
}

/// A 1x5 strip with its one mine in the middle: counts 0 1 M 1 0.
fn strip_with_middle_mine() -> Game {
    Game::new(1, 5, 1, &vec![0, 0, 1, 0, 0])
}

#[test]
fn two_by_two_without_mines_cascades_and_wins() {
    let mut g = Game::new(2, 2, 0, &picks_from(4, 0.5));
    assert!(mines_of(&g).is_empty());
    let changed = sorted(g.dig_cell(1, 0));
    assert_eq!(changed, vec![(0, 0), (0, 1), (1, 0), (1, 1)]);
    for i in 0..2 {
        for j in 0..2 {
            assert_eq!(g.get_cell_state(i, j), (false, false, false, 0));
        }
    }
    assert!(g.is_over());
    assert!(g.is_victory());
    assert_eq!(g.count_remaining_cells(), 0);
}

#[test]
fn one_by_one_all_mined_loses() {
    let mut g = Game::new(1, 1, 1, &picks_from(1, 0.3));
    assert_eq!(mines_of(&g), vec![(0, 0)]);
    let changed = g.dig_cell(0, 0).clone();
    assert_eq!(changed, vec![(0, 0)]);
    assert!(g.is_over());
    assert!(!g.is_victory());
    assert_eq!(g.get_cell_state(0, 0), (false, false, true, 0));
}

#[test]
fn three_by_three_single_mine_counts() {
    // Steps floor(0.99 * i) carry the one mine to the last position.
    let picks = picks_from(9, 0.99);
    assert_eq!(picks, vec![0, 0, 1, 2, 3, 4, 5, 6, 7]);
    let g = Game::new(3, 3, 1, &picks);
    assert_eq!(mines_of(&g), vec![(2, 2)]);
    let expected: [[u8; 3]; 3] = [[0, 0, 0], [0, 1, 1], [0, 1, 0]];
    for i in 0..3 {
        for j in 0..3 {
            assert_eq!(g.get_cell_state(i, j).3, expected[i][j]);
            assert!(g.get_cell_state(i, j).0);
            assert!(!g.get_cell_state(i, j).1);
        }
    }
    assert!(!g.is_over());
    assert_eq!(g.count_remaining_cells(), 8);
}

#[test]
fn three_by_three_center_mine_counts() {
    // One mine, swapped to index 4 (the centre) and left there.
    let g = Game::new(3, 3, 1, &vec![0, 0, 1, 2, 3, 0, 0, 0, 0]);
    assert_eq!(mines_of(&g), vec![(1, 1)]);
    for i in 0..3 {
        for j in 0..3 {
            let want = if (i, j) == (1, 1) { 0 } else { 1 };
            assert_eq!(g.get_cell_state(i, j).3, want);
        }
    }
}

#[test]
fn shuffle_swaps_with_picked_index() {
    // Two mines at indices 0 and 1; step 2 swaps 2 with 0, step 3 swaps 3 with 1.
    let g = Game::new(2, 2, 2, &vec![0, 1, 0, 1]);
    assert_eq!(mines_of(&g), vec![(1, 0), (1, 1)]);
    assert_eq!(g.get_cell_state(0, 0).3, 2);
    assert_eq!(g.get_cell_state(1, 0).3, 1);
}

#[test]
fn mine_count_is_kept_by_shuffle() {
    let picks = picks_from(20, 0.73);
    let g = Game::new(4, 5, 7, &picks);
    assert_eq!(mines_of(&g).len(), 7);
    assert_eq!(g.get_num_rows(), 4);
    assert_eq!(g.get_num_cols(), 5);
    assert_eq!(g.count_remaining_cells(), 13);
}

#[test]
fn digging_a_mine_reveals_the_whole_board() {
    let mut g = strip_with_middle_mine();
    g.dig_cell(0, 4);
    g.toggle_flag(0, 0);
    let changed = sorted(g.dig_cell(0, 2));
    assert_eq!(changed, vec![(0, 0), (0, 1), (0, 2)]);
    for j in 0..5 {
        let (hidden, flagged, _, _) = g.get_cell_state(0, j);
        assert!(!hidden);
        assert!(!flagged);
    }
    assert!(g.is_over());
    assert!(!g.is_victory());
}

#[test]
fn cascade_stops_at_numbered_cells() {
    let mut g = strip_with_middle_mine();
    assert_eq!(mines_of(&g), vec![(0, 2)]);
    let changed = sorted(g.dig_cell(0, 0));
    assert_eq!(changed, vec![(0, 0), (0, 1)]);
    assert!(!g.get_cell_state(0, 0).0);
    assert!(!g.get_cell_state(0, 1).0);
    assert!(g.get_cell_state(0, 2).0);
    assert!(g.get_cell_state(0, 3).0);
    assert!(g.get_cell_state(0, 4).0);
    assert!(!g.is_over());
    assert_eq!(g.count_remaining_cells(), 2);
}

#[test]
fn numbered_cell_reveals_only_itself() {
    let mut g = strip_with_middle_mine();
    assert_eq!(g.dig_cell(0, 3).clone(), vec![(0, 3)]);
    assert_eq!(g.count_remaining_cells(), 3);
}

#[test]
fn cascade_reveals_flagged_cells_and_clears_flags() {
    let mut g = Game::new(3, 3, 0, &picks_from(9, 0.0));
    g.toggle_flag(2, 2);
    assert!(g.get_cell_state(2, 2).1);
    let changed = g.dig_cell(0, 0).clone();
    assert_eq!(changed.len(), 9);
    assert_eq!(changed[0], (0, 0));
    assert_eq!(g.get_cell_state(2, 2), (false, false, false, 0));
    assert!(g.is_victory());
}

#[test]
fn winning_after_last_safe_cell() {
    let mut g = strip_with_middle_mine();
    g.dig_cell(0, 0);
    assert!(!g.is_over());
    g.dig_cell(0, 4);
    assert_eq!(g.count_remaining_cells(), 0);
    assert!(g.is_over());
    assert!(g.is_victory());
}

#[test]
fn redigging_a_revealed_cell_reports_it_again() {
    let mut g = strip_with_middle_mine();
    g.dig_cell(0, 3);
    assert_eq!(g.dig_cell(0, 3).clone(), vec![(0, 3)]);
    assert!(!g.is_over());
}

#[test]
fn flag_toggles_on_hidden_cell() {
    let mut g = strip_with_middle_mine();
    assert_eq!(g.toggle_flag(0, 1).clone(), vec![(0, 1)]);
    assert_eq!(g.get_cell_state(0, 1), (true, true, false, 1));
    assert_eq!(g.toggle_flag(0, 1).clone(), vec![(0, 1)]);
    assert_eq!(g.get_cell_state(0, 1), (true, false, false, 1));
    assert!(!g.is_over());
}

#[test]
fn flag_on_revealed_cell_is_a_no_op() {
    let mut g = strip_with_middle_mine();
    g.dig_cell(0, 1);
    assert!(g.toggle_flag(0, 1).is_empty());
    assert_eq!(g.get_cell_state(0, 1), (false, false, false, 1));
}

#[test]
fn replay_hides_everything_and_keeps_layout() {
    let mut g = strip_with_middle_mine();
    g.toggle_flag(0, 4);
    g.dig_cell(0, 2);
    assert!(g.is_over());
    g.replay();
    assert!(!g.is_over());
    assert!(!g.is_victory());
    assert_eq!(mines_of(&g), vec![(0, 2)]);
    let counts = [0u8, 1, 0, 1, 0];
    for j in 0..5 {
        let (hidden, flagged, _, n) = g.get_cell_state(0, j);
        assert!(hidden);
        assert!(!flagged);
        assert_eq!(n, counts[j]);
    }
    assert_eq!(g.count_remaining_cells(), 4);
}

#[test]
fn replay_keeps_flags_of_hidden_cells() {
    let mut g = strip_with_middle_mine();
    g.toggle_flag(0, 4);
    g.dig_cell(0, 0);
    g.replay();
    assert_eq!(g.get_cell_state(0, 4), (true, true, false, 0));
    assert_eq!(g.get_cell_state(0, 0), (true, false, false, 0));
}

#[test]
fn every_cell_mined_first_dig_loses() {
    let mut g = Game::new(2, 3, 6, &picks_from(6, 0.4));
    assert_eq!(mines_of(&g).len(), 6);
    assert_eq!(g.get_cell_state(0, 0).3, 3);
    assert_eq!(g.get_cell_state(0, 1).3, 5);
    assert_eq!(g.count_remaining_cells(), 0);
    let changed = sorted(g.dig_cell(1, 1));
    assert_eq!(changed.len(), 6);
    assert!(g.is_over());
    assert!(!g.is_victory());
}

#[test]
fn fresh_board_counts_every_safe_cell_as_remaining() {
    let g = Game::new(2, 2, 0, &picks_from(4, 0.0));
    assert_eq!(g.count_remaining_cells(), 4);
    let h = Game::new(3, 3, 1, &picks_from(9, 0.99));
    assert_eq!(h.count_remaining_cells(), 8);
}

#[test]
fn flag_toggle_keeps_remaining_count() {
    let mut g = strip_with_middle_mine();
    let before = g.count_remaining_cells();
    g.toggle_flag(0, 0);
    assert_eq!(g.count_remaining_cells(), before);
}

#[test]
fn dug_cell_is_reported_first() {
    let mut g = Game::new(3, 3, 1, &picks_from(9, 0.99));
    let changed = g.dig_cell(1, 0).clone();
    assert_eq!(changed[0], (1, 0));
    assert_eq!(changed.len(), 8);
    let mut g = Game::new(3, 3, 1, &picks_from(9, 0.99));
    let changed = g.dig_cell(2, 2).clone();
    assert_eq!(changed[0], (2, 2));
    assert_eq!(changed.len(), 9);
}

#[test]
fn replay_restores_remaining_count_of_fresh_board() {
    let mut g = Game::new(3, 3, 1, &picks_from(9, 0.99));
    // (1, 1) touches the mine, so it is revealed alone.
    g.dig_cell(1, 1);
    assert_eq!(g.count_remaining_cells(), 7);
    g.replay();
    assert_eq!(g.count_remaining_cells(), 8);
    g.replay();
    assert_eq!(g.count_remaining_cells(), 8);
}
