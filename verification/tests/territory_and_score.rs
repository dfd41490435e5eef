use go_engine::board_state::BoardState;
use go_engine::colour::{Colour, Outcome};
use go_engine::coordinate::Coordinate;
use go_engine::game_state::{count_stones, legal_move_at, GameState, KOMI_HALF_POINTS};
use go_engine::region::{flood, touches_colour};
use go_engine::territory::{empty_regions, one_sided};
use std::collections::HashSet;

const B: Colour = Colour::Black;
const W: Colour = Colour::White;
const E: Colour = Colour::Empty;

fn sorted(set: &HashSet<usize>) -> Vec<usize> {
    let mut cells: Vec<usize> = set.iter().copied().collect();
    cells.sort();
    cells
}

fn board_of(size: usize, stones: &[(usize, Colour)]) -> BoardState {
    let mut board = BoardState::new(size);
    for (cell, colour) in stones {
        board = board.add_stone(Coordinate::Index(*cell), *colour).unwrap();
    }
    board
}

#[test]
fn surrounded_area_on_a_full_three_by_three() {
    // filled alternately but for cell 1, which only Black borders
    let grid = vec![B, E, B, W, B, W, B, W, B];
    let board = BoardState::new(3);
    assert_eq!(board.get_surrounded_area(&grid, Colour::Black), 1);
    assert_eq!(board.get_surrounded_area(&grid, Colour::White), 0);
    assert_eq!(board.get_colour_territory(&grid), (1, 0));
}

#[test]
fn an_area_that_both_colours_touch_belongs_to_nobody() {
    let grid = vec![B, E, W, E, E, E, E, E, E];
    let board = BoardState::new(3);
    assert_eq!(board.get_surrounded_area(&grid, Colour::Black), 0);
    assert_eq!(board.get_surrounded_area(&grid, Colour::White), 0);
    assert_eq!(board.get_colour_territory(&grid), (0, 0));
    assert!(board.get_territory(&grid, Colour::Black).is_empty());
}

#[test]
fn an_empty_board_is_nobodys_territory() {
    let grid = vec![E; 9];
    let board = BoardState::new(3);
    assert_eq!(board.get_surrounded_area(&grid, Colour::Black), 0);
    assert_eq!(board.get_surrounded_area(&grid, Colour::White), 0);
    assert_eq!(board.get_surrounded_area(&grid, Colour::Empty), 0);
    // no stone of the other colour touches it, so it is listed for both
    let areas = board.get_territory(&grid, Colour::Black);
    assert_eq!(areas.len(), 1);
    assert_eq!(areas[0].get_points().len(), 9);
}

#[test]
fn a_wall_splits_the_board() {
    //  . B . W .
    //  . B . W .
    //  . B . W .        columns 0: Black's, 2: nobody's, 4: White's
    //  . B . W .
    //  . B . W .
    let mut grid = vec![E; 25];
    for row in 0..5 {
        grid[row * 5 + 1] = B;
        grid[row * 5 + 3] = W;
    }
    let board = BoardState::new(5);
    assert_eq!(board.get_surrounded_area(&grid, Colour::Black), 5);
    assert_eq!(board.get_surrounded_area(&grid, Colour::White), 5);
    assert_eq!(board.get_colour_territory(&grid), (5, 5));
    let black = board.get_territory(&grid, Colour::Black);
    assert_eq!(black.len(), 1);
    assert_eq!(sorted(black[0].get_points()), vec![0, 5, 10, 15, 20]);
    assert_eq!(black[0].get_colour(), Colour::Empty);
    assert_eq!(black[0]._get_id(), 777);
    let white = board.get_territory(&grid, Colour::White);
    assert_eq!(white.len(), 1);
    assert_eq!(sorted(white[0].get_points()), vec![4, 9, 14, 19, 24]);
    let regions = empty_regions(&grid, 5);
    assert_eq!(regions.len(), 3);
    assert_eq!(sorted(regions[0].get_points()), vec![0, 5, 10, 15, 20]);
    assert_eq!(sorted(regions[1].get_points()), vec![2, 7, 12, 17, 22]);
    assert_eq!(sorted(regions[2].get_points()), vec![4, 9, 14, 19, 24]);
    assert!(one_sided(&regions[0], &grid, 5));
    assert!(!one_sided(&regions[1], &grid, 5));
    assert!(one_sided(&regions[2], &grid, 5));
}

#[test]
fn flood_fill_finds_the_area_around_a_cell() {
    let mut grid = vec![E; 25];
    for row in 0..5 {
        grid[row * 5 + 2] = B;
    }
    assert_eq!(sorted(&flood(&grid, 5, 0)), vec![0, 1, 5, 6, 10, 11, 15, 16, 20, 21]);
    assert_eq!(sorted(&flood(&grid, 5, 24)), vec![3, 4, 8, 9, 13, 14, 18, 19, 23, 24]);
    // from a stone: the stone itself and the empty cells it touches onward
    assert_eq!(flood(&grid, 5, 12).len(), 21);
    let area = flood(&grid, 5, 0);
    assert!(touches_colour(&area, &grid, 5, Colour::Black));
    assert!(!touches_colour(&area, &grid, 5, Colour::White));
    let board = BoardState::new(5);
    let group = board.create_empty_group(&grid, Coordinate::Position((0, 0)));
    assert_eq!(group.get_colour(), Colour::Empty);
    assert_eq!(sorted(group.get_points()), vec![0, 1, 5, 6, 10, 11, 15, 16, 20, 21]);
}

#[test]
fn important_points_need_five_stones() {
    let board = board_of(5, &[(2, B), (7, B), (12, B), (17, B)]);
    assert!(!board.check_all_important_points_played());
    assert!(!GameState::is_game_over(&board));
    let board = board.add_stone(Coordinate::Index(22), B).unwrap();
    assert!(board.check_all_important_points_played());
    assert!(GameState::is_game_over(&board));
}

#[test]
fn a_contested_area_is_an_important_point() {
    let board = board_of(5, &[(2, B), (7, B), (12, B), (17, B), (22, B), (0, W)]);
    assert!(!board.check_all_important_points_played());
    assert!(!GameState::is_game_over(&board));
}

#[test]
fn stones_are_counted_by_colour() {
    assert_eq!(count_stones(&vec![B, E, B, W, B, W, B, W, B]), (5, 3));
    assert_eq!(count_stones(&vec![E; 4]), (0, 0));
    assert_eq!(count_stones(&Vec::new()), (0, 0));
}

#[test]
fn white_wins_an_empty_board_by_komi() {
    assert_eq!(KOMI_HALF_POINTS, 1);
    let game = GameState::new(3);
    assert_eq!(game.calculate_total_completed_score(), (Colour::White, 1));
    assert_eq!(GameState::determine_outcome(&game.board_state), Outcome::WhiteWin);
}

#[test]
fn one_black_stone_owns_the_board() {
    let mut game = GameState::new(3);
    assert!(game.play_move(Coordinate::Index(4)));
    // 1 stone + 8 empty cells against nothing, less half a point
    assert_eq!(game.calculate_total_completed_score(), (Colour::Black, 17));
    assert_eq!(GameState::determine_outcome(&game.board_state), Outcome::BlackWin);
}

#[test]
fn equal_scores_go_to_white() {
    // Black wall on column 1, White wall on column 3: 10 each
    let mut stones = Vec::new();
    for row in 0..5 {
        stones.push((row * 5 + 1, B));
        stones.push((row * 5 + 3, W));
    }
    let board = board_of(5, &stones);
    assert_eq!(GameState::determine_outcome(&board), Outcome::WhiteWin);
    let mut game = GameState::new(5);
    game.board_state = board;
    assert_eq!(game.calculate_total_completed_score(), (Colour::White, 1));
}

#[test]
fn legal_moves_leave_out_stones_and_suicide() {
    //  . W .
    //  W . .      Black may not play 0 (suicide) nor on the stones
    //  . . .
    let board = board_of(3, &[(1, W), (3, W)]);
    let mut game = GameState::new(3);
    game.board_state = board;
    let black: Vec<usize> =
        game.get_all_possible_moves(Colour::Black).iter().map(|m| m.get_index()).collect();
    assert_eq!(black, vec![2, 4, 5, 6, 7, 8]);
    let white: Vec<usize> =
        game.get_all_possible_moves(Colour::White).iter().map(|m| m.get_index()).collect();
    assert_eq!(white, vec![0, 2, 4, 5, 6, 7, 8]);
    assert!(game._moves_to_play());
    assert!(legal_move_at(&game.board_state, Colour::Black, 0).is_none());
    assert!(matches!(legal_move_at(&game.board_state, Colour::White, 0), Some(Coordinate::Index(0))));
    assert!(legal_move_at(&game.board_state, Colour::White, 9).is_none());
}

#[test]
fn parallel_and_sequential_move_lists_agree() {
    let board = board_of(5, &[(1, W), (5, W), (12, B), (13, B), (7, W), (18, W)]);
    let mut game = GameState::new(5);
    game.board_state = board;
    for colour in [Colour::Black, Colour::White] {
        let one: Vec<usize> =
            game.get_all_possible_moves(colour).iter().map(|m| m.get_index()).collect();
        let other: Vec<usize> = GameState::get_all_possible_moves_for_board(&game.board_state, colour)
            .iter()
            .map(|m| m.get_index())
            .collect();
        assert_eq!(one, other);
        assert!(!one.is_empty());
        assert!(one.len() < 25);
    }
}

#[test]
fn useful_points_are_played_when_only_own_territory_is_left() {
    // Black wall on column 2 alone: every empty area touches Black only.
    let board = board_of(5, &[(2, B), (7, B), (12, B), (17, B), (22, B)]);
    assert!(GameState::check_useful_points_played(&board, Colour::Black));
    // White's legal moves all lie in areas that touch Black
    assert!(!GameState::check_useful_points_played(&board, Colour::White));
}

#[test]
fn random_moves_come_from_the_list() {
    let game = GameState::new(3);
    assert!(game.play_random_move(&[]).is_none());
    let moves = vec![Coordinate::Index(2), Coordinate::Index(5), Coordinate::Index(7)];
    for _ in 0..50 {
        let picked = game.play_random_move(&moves).unwrap().get_index();
        assert!(picked == 2 || picked == 5 || picked == 7);
    }
    let one = vec![Coordinate::Index(6)];
    assert_eq!(game.play_random_move(&one).unwrap().get_index(), 6);
}

#[test]
fn a_full_board_has_no_territory() {
    let grid = vec![B, W, B, W, B, W, B, W, B];
    let board = BoardState::new(3);
    assert!(board.get_territory(&grid, Colour::Black).is_empty());
    assert!(board.get_territory(&grid, Colour::White).is_empty());
    assert_eq!(board.get_colour_territory(&grid), (0, 0));
}
