use twenty48::board::{Action, Board, Status};

fn board(l: usize, w: usize, goal: u32, cells: Vec<u32>) -> Board {
    Board::from_cells(l, w, goal, cells).expect("valid board")
}

#[test]
fn merge_then_spawn_on_one_row() {
    let mut b = board(1, 4, 2048, vec![2, 2, 0, 0]);
    assert_eq!(b.act(Action::Left), Status::Valid);
    let c = b.cells().clone();
    assert_eq!(c[0], 4);
    let spawned: Vec<u32> = c[1..].iter().copied().filter(|&v| v != 0).collect();
    assert_eq!(spawned.len(), 1);
    assert!(spawned[0] == 2 || spawned[0] == 4);
}

#[test]
fn packed_row_is_invalid_and_unchanged() {
    let mut b = board(1, 4, 2048, vec![2, 4, 2, 4]);
    assert_eq!(b.act(Action::Left), Status::Invalid);
    assert_eq!(b.cells(), &vec![2, 4, 2, 4]);
}

#[test]
fn merge_reaching_goal_wins_without_spawn() {
    let mut b = board(1, 2, 2048, vec![1024, 1024]);
    assert_eq!(b.act(Action::Left), Status::Win);
    assert_eq!(b.cells(), &vec![2048, 0]);
}

#[test]
fn win_leaves_empty_cells_empty() {
    let mut b = board(1, 4, 2048, vec![1024, 1024, 0, 0]);
    assert_eq!(b.act(Action::Left), Status::Win);
    assert_eq!(b.cells(), &vec![2048, 0, 0, 0]);
}

#[test]
fn win_stops_the_rest_of_the_move() {
    let mut b = board(2, 2, 2048, vec![1024, 1024, 0, 2]);
    assert_eq!(b.act(Action::Left), Status::Win);
    assert_eq!(b.cells(), &vec![2048, 0, 0, 2]);
}

#[test]
fn win_before_slide_keeps_tile_in_place() {
    let mut b = board(1, 4, 2048, vec![0, 0, 1024, 1024]);
    assert_eq!(b.act(Action::Left), Status::Win);
    assert_eq!(b.cells(), &vec![0, 0, 2048, 0]);
}

#[test]
fn down_merges_toward_bottom() {
    let mut b = board(2, 1, 2048, vec![1024, 1024]);
    assert_eq!(b.act(Action::Down), Status::Win);
    assert_eq!(b.cells(), &vec![0, 2048]);
}

#[test]
fn up_merges_toward_top() {
    let mut b = board(3, 1, 64, vec![0, 32, 32]);
    assert_eq!(b.act(Action::Up), Status::Win);
    assert_eq!(b.cells(), &vec![0, 64, 0]);
}

#[test]
fn right_merges_toward_right() {
    let mut b = board(1, 3, 8, vec![4, 4, 0]);
    assert_eq!(b.act(Action::Right), Status::Win);
    assert_eq!(b.cells(), &vec![0, 8, 0]);
}

#[test]
fn left_standard_merge_and_slide() {
    let mut b = board(1, 4, 2048, vec![2, 2, 4, 0]);
    assert_eq!(b.act(Action::Left), Status::Valid);
    let c = b.cells().clone();
    assert_eq!(&c[0..2], &[4, 4]);
    assert!(c[2] == 0 || c[3] == 0);
    let total: u32 = c.iter().sum();
    assert!(total == 10 || total == 12);
}

#[test]
fn merged_tile_does_not_merge_again() {
    let mut b = board(1, 4, 2048, vec![2, 2, 4, 8]);
    assert_eq!(b.act(Action::Left), Status::Valid);
    let c = b.cells().clone();
    assert_eq!(&c[0..3], &[4, 4, 8]);
    assert!(c[3] == 2 || c[3] == 4);
}

#[test]
fn up_slides_every_column() {
    let mut b = board(2, 2, 2048, vec![0, 0, 2, 4]);
    assert_eq!(b.act(Action::Up), Status::Valid);
    let c = b.cells().clone();
    assert_eq!(&c[0..2], &[2, 4]);
    assert_eq!(c[2..].iter().filter(|&&v| v != 0).count(), 1);
}

#[test]
fn right_slides_and_merges_from_the_right() {
    let mut b = board(1, 4, 2048, vec![2, 2, 2, 0]);
    assert_eq!(b.act(Action::Right), Status::Valid);
    let c = b.cells().clone();
    assert_eq!(&c[2..4], &[2, 4]);
    assert_eq!(c[0..2].iter().filter(|&&v| v != 0).count(), 1);
}

#[test]
fn sum_is_kept_by_move() {
    let mut b = board(2, 3, 2048, vec![2, 0, 2, 4, 4, 8]);
    assert_eq!(b.act(Action::Left), Status::Valid);
    let total: u32 = b.cells().iter().sum();
    assert!(total == 20 + 2 || total == 20 + 4);
}

#[test]
fn noop_is_invalid() {
    let mut b = board(2, 2, 2048, vec![2, 0, 0, 2]);
    assert_eq!(b.act(Action::Noop), Status::Invalid);
    assert_eq!(b.cells(), &vec![2, 0, 0, 2]);
}

#[test]
fn full_board_without_moves_is_invalid() {
    let mut b = board(2, 2, 2048, vec![2, 4, 4, 2]);
    for a in [Action::Up, Action::Down, Action::Left, Action::Right] {
        assert_eq!(b.act(a), Status::Invalid);
    }
    assert_eq!(b.cells(), &vec![2, 4, 4, 2]);
}

#[test]
fn full_board_with_merge_is_valid() {
    let mut b = board(1, 2, 2048, vec![2, 2]);
    assert_eq!(b.act(Action::Left), Status::Valid);
    let c = b.cells().clone();
    assert_eq!(c[0], 4);
    assert!(c[1] == 2 || c[1] == 4);
}

#[test]
fn new_board_has_one_tile() {
    let b = Board::new(4, 4, 2048);
    assert_eq!(b.length(), 4);
    assert_eq!(b.width(), 4);
    assert_eq!(b.goal(), 2048);
    let tiles: Vec<u32> = b.cells().iter().copied().filter(|&v| v != 0).collect();
    assert_eq!(b.cells().len(), 16);
    assert_eq!(tiles.len(), 1);
    assert!(tiles[0] == 2 || tiles[0] == 4);
}

#[test]
fn spawn_picks_cells_uniformly() {
    let trials = 8000;
    let mut counts = [0usize; 4];
    let mut fours = 0usize;
    for _ in 0..trials {
        let b = Board::new(1, 4, 2048);
        let c = b.cells();
        let i = c.iter().position(|&v| v != 0).expect("one tile");
        counts[i] += 1;
        if c[i] == 4 {
            fours += 1;
        }
    }
    for n in counts {
        assert!(n > 1700 && n < 2300, "{:?}", counts);
    }
    assert!(fours > 3600 && fours < 4400);
}

#[test]
fn spawn_fills_the_only_empty_cell() {
    let mut b = board(1, 3, 2048, vec![2, 2, 4]);
    assert_eq!(b.act(Action::Left), Status::Valid);
    let c = b.cells().clone();
    assert_eq!(&c[0..2], &[4, 4]);
    assert!(c[2] == 2 || c[2] == 4);
}

#[test]
fn from_cells_rejects_bad_shapes() {
    assert!(Board::from_cells(0, 2, 2048, vec![]).is_none());
    assert!(Board::from_cells(2, 0, 2048, vec![]).is_none());
    assert!(Board::from_cells(2, 2, 2048, vec![0, 0, 0]).is_none());
    assert!(Board::from_cells(2, 2, 2000, vec![0, 0, 0, 0]).is_none());
    assert!(Board::from_cells(usize::MAX, 2, 2048, vec![0, 0]).is_none());
    assert!(Board::from_cells(2, 2, 2048, vec![3, 0, 0, 0]).is_none());
    assert!(Board::from_cells(2, 2, 2048, vec![0, 0, 0, 0]).is_some());
}

#[test]
fn tiles_fit_detects_large_tiles() {
    assert!(board(1, 2, 2048, vec![0x4000_0000, 2]).tiles_fit());
    assert!(!board(1, 2, 2048, vec![0x8000_0000, 2]).tiles_fit());
}

#[test]
fn renders_bordered_grid() {
    let b = board(2, 2, 2048, vec![2, 0, 1024, 65536]);
    let want = " ----------- \n|    2|     |\n|-----|-----|\n| 1024|65536|\n ----------- ";
    assert_eq!(b.to_string(), want);
}

#[test]
fn renders_single_row() {
    let b = board(1, 3, 2048, vec![0, 16, 0]);
    assert_eq!(b.to_string(), " ----------------- \n|     |   16|     |\n ----------------- ");
}

#[test]
fn renders_wide_value_whole() {
    let b = board(1, 1, 2048, vec![131072]);
    assert_eq!(b.to_string(), " ----- \n|131072|\n ----- ");
}

#[test]
fn spawn_with_keeps_last_true_draw() {
    let mut b = board(1, 4, 2048, vec![2, 0, 0, 0]);
    assert!(!b.spawn_with(&vec![true, false, true], false));
    assert_eq!(b.cells(), &vec![2, 0, 0, 2]);
}

#[test]
fn spawn_with_first_empty_cell_and_four() {
    let mut b = board(1, 4, 2048, vec![2, 0, 0, 0]);
    assert!(!b.spawn_with(&vec![true, false, false], true));
    assert_eq!(b.cells(), &vec![2, 4, 0, 0]);
}

#[test]
fn spawn_with_no_true_draw_changes_nothing() {
    let mut b = board(2, 2, 2048, vec![0, 2, 0, 4]);
    assert!(b.spawn_with(&vec![false, false], true));
    assert_eq!(b.cells(), &vec![0, 2, 0, 4]);
}

#[test]
fn spawn_with_on_full_board_reports_full() {
    let mut b = board(1, 4, 2048, vec![2, 4, 2, 4]);
    assert!(b.spawn_with(&vec![], false));
    assert_eq!(b.cells(), &vec![2, 4, 2, 4]);
}
