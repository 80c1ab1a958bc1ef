use board_plugin::board::{Board, BoardError, GameStatus, MarkResult, RevealResult};
use board_plugin::coordinates::Coordinates;
use board_plugin::tile_map::{GenerationError, Tile, TileMap};

fn at(x: u16, y: u16) -> Coordinates {
    Coordinates { x, y }
}

fn layout(width: u16, height: u16, mines: &[(u16, u16)]) -> Vec<bool> {
    let mut v = vec![false; width as usize * height as usize];
    for &(x, y) in mines {
        v[y as usize * width as usize + x as usize] = true;
    }
    v
}

fn count_neighbour_mines(m: &TileMap, x: i32, y: i32) -> u8 {
    let mut n = 0;
    for dy in -1..=1 {
        for dx in -1..=1 {
            if dx == 0 && dy == 0 {
                continue;
            }
            let (nx, ny) = (x + dx, y + dy);
            if nx >= 0 && ny >= 0 && nx < m.width as i32 && ny < m.height as i32 {
                if m.map[(ny * m.width as i32 + nx) as usize] == Tile::Mine {
                    n += 1;
                }
            }
        }
    }
    n
}

fn revealed_list(r: Result<RevealResult, BoardError>) -> Vec<(Coordinates, Tile)> {
    match r {
        Ok(RevealResult::Revealed(list)) => list,
        other => panic!("expected a reveal, got {:?}", other),
    }
}

#[test]
fn one_by_three_without_mines_is_won_in_one_reveal() {
    let m = TileMap::generate(3, 1, 0, 7).unwrap();
    assert_eq!(m.map, vec![Tile::Empty, Tile::Empty, Tile::Empty]);
    let mut b = Board::new(m);
    let list = revealed_list(b.reveal_at(at(0, 0)));
    assert_eq!(
        list,
        vec![(at(0, 0), Tile::Empty), (at(1, 0), Tile::Empty), (at(2, 0), Tile::Empty)]
    );
    assert_eq!(b.status(), GameStatus::Won);
    assert_eq!(b.remaining_covered_count(), 0);
    assert!(b.is_completed());
}

#[test]
fn single_centre_mine_numbers_its_ring_and_does_not_flood() {
    let m = TileMap::from_layout(3, 3, &layout(3, 3, &[(1, 1)]));
    assert_eq!(m.bomb_count, 1);
    for y in 0..3u16 {
        for x in 0..3u16 {
            let t = m.tile_at(at(x, y));
            if x == 1 && y == 1 {
                assert_eq!(t, Tile::Mine);
            } else {
                assert_eq!(t, Tile::Neighbor(1));
            }
        }
    }
    let mut b = Board::new(m);
    let list = revealed_list(b.reveal_at(at(0, 0)));
    assert_eq!(list, vec![(at(0, 0), Tile::Neighbor(1))]);
    assert_eq!(b.status(), GameStatus::InProgress);
    assert_eq!(b.remaining_covered_count(), 8);
}

#[test]
fn generation_rejects_a_grid_full_of_mines() {
    assert_eq!(
        TileMap::generate(5, 5, 25, 1).unwrap_err(),
        GenerationError::InvalidGenerationParameters
    );
    assert_eq!(
        TileMap::generate(5, 5, 26, 1).unwrap_err(),
        GenerationError::InvalidGenerationParameters
    );
    assert_eq!(
        TileMap::generate(0, 4, 0, 1).unwrap_err(),
        GenerationError::InvalidGenerationParameters
    );
    assert!(Board::generate(5, 5, 25, 1).is_err());
    assert!(TileMap::generate(5, 5, 24, 1).is_ok());
}

#[test]
fn generated_grids_hold_exact_counts() {
    for seed in 0..20u64 {
        let m = TileMap::generate(9, 7, 12, seed).unwrap();
        assert_eq!(m.map.len(), 63);
        assert_eq!(m.bomb_count, 12);
        assert_eq!(m.map.iter().filter(|t| **t == Tile::Mine).count(), 12);
        for y in 0..7 {
            for x in 0..9 {
                let t = m.map[y * 9 + x];
                let n = count_neighbour_mines(&m, x as i32, y as i32);
                match t {
                    Tile::Mine => {}
                    Tile::Empty => assert_eq!(n, 0),
                    Tile::Neighbor(k) => {
                        assert_eq!(k, n);
                        assert!(k >= 1 && k <= 8);
                    }
                }
            }
        }
    }
}

#[test]
fn generation_is_reproducible_from_the_seed() {
    let a = TileMap::generate(10, 10, 30, 12345).unwrap();
    let b = TileMap::generate(10, 10, 30, 12345).unwrap();
    assert_eq!(a.map, b.map);
    let all_but_one = TileMap::generate(4, 4, 15, 3).unwrap();
    assert_eq!(all_but_one.map.iter().filter(|t| **t == Tile::Mine).count(), 15);
}

#[test]
fn revealing_twice_is_a_no_op() {
    let m = TileMap::from_layout(3, 3, &layout(3, 3, &[(1, 1)]));
    let mut b = Board::new(m);
    assert_eq!(revealed_list(b.reveal_at(at(2, 2))).len(), 1);
    let covered = b.remaining_covered_count();
    assert_eq!(b.reveal_at(at(2, 2)), Ok(RevealResult::AlreadyRevealed));
    assert_eq!(b.remaining_covered_count(), covered);
    assert_eq!(b.try_uncover_tile(at(2, 2)), None);
}

#[test]
fn flood_stops_at_numbered_border_and_never_reveals_mines() {
    // Mines in the right column; the left part is an empty region.
    let m = TileMap::from_layout(5, 4, &layout(5, 4, &[(4, 0), (4, 1), (4, 2), (4, 3)]));
    let mut b = Board::new(m);
    let list = revealed_list(b.reveal_at(at(0, 0)));
    assert_eq!(list.len(), 16);
    assert_eq!(list[0], (at(0, 0), Tile::Empty));
    for (c, t) in &list {
        assert_ne!(*t, Tile::Mine);
        assert!(c.x <= 3);
    }
    let mut seen = list.iter().map(|e| e.0).collect::<Vec<_>>();
    seen.sort_by_key(|c| (c.y, c.x));
    seen.dedup();
    assert_eq!(seen.len(), 16);
    assert_eq!(b.remaining_covered_count(), 4);
    assert_eq!(b.status(), GameStatus::Won);
}

#[test]
fn flood_skips_marked_cells() {
    let m = TileMap::from_layout(4, 1, &layout(4, 1, &[]));
    let mut b = Board::new(m);
    assert_eq!(b.try_toggle_mark(at(2, 0)), Ok(MarkResult::Marked));
    let list = revealed_list(b.reveal_at(at(0, 0)));
    assert_eq!(list, vec![(at(0, 0), Tile::Empty), (at(1, 0), Tile::Empty)]);
    assert_eq!(b.remaining_covered_count(), 2);
    assert_eq!(b.reveal_at(at(2, 0)), Ok(RevealResult::Blocked));
}

#[test]
fn hitting_a_mine_loses_and_ends_the_session() {
    let m = TileMap::from_layout(3, 3, &layout(3, 3, &[(1, 1)]));
    let mut b = Board::new(m);
    let list = revealed_list(b.reveal_at(at(1, 1)));
    assert_eq!(list, vec![(at(1, 1), Tile::Mine)]);
    assert_eq!(b.status(), GameStatus::Lost);
    assert_eq!(b.reveal_at(at(0, 0)), Err(BoardError::SessionTerminated));
    assert_eq!(b.try_toggle_mark(at(0, 0)), Err(BoardError::SessionTerminated));
    assert_eq!(b.remaining_covered_count(), 8);
}

#[test]
fn winning_needs_every_safe_cell_revealed() {
    let m = TileMap::from_layout(2, 2, &layout(2, 2, &[(0, 0)]));
    let mut b = Board::new(m);
    revealed_list(b.reveal_at(at(1, 0)));
    revealed_list(b.reveal_at(at(0, 1)));
    assert_eq!(b.status(), GameStatus::InProgress);
    assert!(!b.is_completed());
    revealed_list(b.reveal_at(at(1, 1)));
    assert_eq!(b.status(), GameStatus::Won);
    assert_eq!(b.reveal_at(at(0, 0)), Err(BoardError::SessionTerminated));
}

#[test]
fn mark_then_unmark_restores_the_cell() {
    let m = TileMap::from_layout(3, 3, &layout(3, 3, &[(1, 1)]));
    let mut b = Board::new(m);
    assert!(b.tile_to_uncover(at(0, 2)));
    assert_eq!(b.try_toggle_mark(at(0, 2)), Ok(MarkResult::Marked));
    assert!(!b.tile_to_uncover(at(0, 2)));
    assert_eq!(b.reveal_at(at(0, 2)), Ok(RevealResult::Blocked));
    assert_eq!(b.try_toggle_mark(at(0, 2)), Ok(MarkResult::Unmarked));
    assert!(b.tile_to_uncover(at(0, 2)));
    assert_eq!(b.remaining_covered_count(), 9);
    assert_eq!(revealed_list(b.reveal_at(at(0, 2))), vec![(at(0, 2), Tile::Neighbor(1))]);
}

#[test]
fn marking_a_revealed_cell_is_refused() {
    let m = TileMap::from_layout(3, 3, &layout(3, 3, &[(1, 1)]));
    let mut b = Board::new(m);
    revealed_list(b.reveal_at(at(0, 0)));
    assert_eq!(b.try_toggle_mark(at(0, 0)), Ok(MarkResult::NotCovered));
}

#[test]
fn out_of_bounds_requests_are_refused() {
    let m = TileMap::from_layout(3, 2, &layout(3, 2, &[(0, 0)]));
    let mut b = Board::new(m);
    assert_eq!(b.reveal_at(at(3, 0)), Err(BoardError::OutOfBounds));
    assert_eq!(b.reveal_at(at(0, 2)), Err(BoardError::OutOfBounds));
    assert_eq!(b.try_toggle_mark(at(5, 5)), Err(BoardError::OutOfBounds));
    assert!(!b.tile_to_uncover(at(3, 1)));
    assert_eq!(b.remaining_covered_count(), 6);
}

#[test]
fn safe_square_is_clipped_and_row_major() {
    let m = TileMap::from_layout(3, 3, &layout(3, 3, &[]));
    assert_eq!(m.safe_square_at(at(0, 0)), vec![at(1, 0), at(0, 1), at(1, 1)]);
    assert_eq!(
        m.safe_square_at(at(1, 1)),
        vec![at(0, 0), at(1, 0), at(2, 0), at(0, 1), at(2, 1), at(0, 2), at(1, 2), at(2, 2)]
    );
    assert_eq!(m.safe_square_at(at(2, 2)), vec![at(1, 1), at(2, 1), at(1, 2)]);
}

#[test]
fn adjacent_covered_tiles_leaves_out_revealed_cells() {
    let m = TileMap::from_layout(3, 3, &layout(3, 3, &[(2, 2)]));
    let mut b = Board::new(m);
    assert_eq!(b.try_uncover_tile(at(1, 0)), Some(Tile::Empty));
    assert_eq!(b.adjacent_covered_tiles(at(0, 0)), vec![at(0, 1), at(1, 1)]);
    assert_eq!(b.try_toggle_mark(at(0, 1)), Ok(MarkResult::Marked));
    assert_eq!(b.adjacent_covered_tiles(at(0, 0)), vec![at(1, 1)]);
}

#[test]
fn try_uncover_tile_respects_marks_and_records_a_mine() {
    let m = TileMap::from_layout(2, 1, &layout(2, 1, &[(1, 0)]));
    let mut b = Board::new(m);
    assert_eq!(b.try_uncover_tile(at(2, 0)), None);
    assert_eq!(b.try_toggle_mark(at(1, 0)), Ok(MarkResult::Marked));
    assert_eq!(b.try_uncover_tile(at(1, 0)), None);
    assert_eq!(b.remaining_covered_count(), 2);
    assert_eq!(b.try_toggle_mark(at(1, 0)), Ok(MarkResult::Unmarked));
    assert_eq!(b.try_uncover_tile(at(1, 0)), Some(Tile::Mine));
    assert_eq!(b.status(), GameStatus::Lost);
    assert_eq!(b.remaining_covered_count(), 1);
    assert_eq!(b.try_uncover_tile(at(0, 0)), None);
    assert_eq!(b.remaining_covered_count(), 1);
}

#[test]
fn a_lost_board_is_not_completed() {
    let m = TileMap::from_layout(2, 1, &layout(2, 1, &[(0, 0)]));
    let mut b = Board::new(m);
    revealed_list(b.reveal_at(at(0, 0)));
    assert_eq!(b.remaining_covered_count(), 1);
    assert_eq!(b.status(), GameStatus::Lost);
    assert!(!b.is_completed());
}

#[test]
fn safe_start_is_the_first_empty_cell() {
    let m = TileMap::from_layout(3, 3, &layout(3, 3, &[(0, 0)]));
    assert_eq!(m.pick_safe_start(), Some(at(2, 0)));
    let none = TileMap::from_layout(3, 3, &layout(3, 3, &[(1, 1)]));
    assert_eq!(none.pick_safe_start(), None);
}

#[test]
fn uncover_tiles_advances_one_level() {
    let m = TileMap::from_layout(3, 1, &layout(3, 1, &[]));
    let mut b = Board::new(m);
    let mut revealed = Vec::new();
    let next = b.uncover_tiles(&vec![at(0, 0)], &mut revealed);
    assert_eq!(revealed, vec![(at(0, 0), Tile::Empty)]);
    assert_eq!(next, vec![at(1, 0)]);
    let next = b.uncover_tiles(&next, &mut revealed);
    assert_eq!(next, vec![at(2, 0)]);
    let next = b.uncover_tiles(&next, &mut revealed);
    assert!(next.is_empty());
    assert_eq!(revealed.len(), 3);
}

#[test]
fn count_adjacent_counts_clipped_neighbours() {
    let l = layout(3, 3, &[(0, 0), (2, 2), (1, 0)]);
    assert_eq!(board_plugin::tile_map::count_adjacent(&l, 3, 3, 1, 1), 3);
    assert_eq!(board_plugin::tile_map::count_adjacent(&l, 3, 3, 0, 1), 2);
    assert_eq!(board_plugin::tile_map::count_adjacent(&l, 3, 3, 2, 0), 1);
}

#[test]
fn coordinates_arithmetic_saturates_at_zero() {
    assert_eq!(at(3, 4).add(at(1, 2)), at(4, 6));
    assert_eq!(at(3, 4).sub(at(5, 1)), at(0, 3));
    assert_eq!(at(0, 5).add_delta(-1, 1), at(0, 6));
    assert_eq!(at(2, 0).add_delta(1, -1), at(3, 0));
    assert_eq!(at(65535, 1).add_delta(1, -1), at(65535, 0));
}

#[test]
fn place_mines_places_exactly_the_count() {
    let l = board_plugin::tile_map::place_mines(10, 9, 99);
    assert_eq!(l.len(), 10);
    assert_eq!(l.iter().filter(|b| **b).count(), 9);
    let none = board_plugin::tile_map::place_mines(4, 0, 99);
    assert_eq!(none, vec![false; 4]);
}

#[test]
fn create_board_opens_on_the_safe_start() {
    for seed in 0..10u64 {
        let b = Board::create_board(6, 6, 4, seed, true).unwrap();
        assert_ne!(b.status(), GameStatus::Lost);
        let start = b.tile_map.pick_safe_start().unwrap();
        assert!(!b.tile_to_uncover(start));
        assert!(b.remaining_covered_count() < 36);
        let closed = Board::create_board(6, 6, 4, seed, false).unwrap();
        assert_eq!(closed.remaining_covered_count(), 36);
        assert_eq!(closed.tile_map.map, b.tile_map.map);
    }
    assert_eq!(
        Board::create_board(2, 2, 4, 0, true).unwrap_err(),
        GenerationError::InvalidGenerationParameters
    );
}
