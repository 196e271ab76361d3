use cytogon::{Grid2, IVec2, Rule2, RuleBitset2, UVec2};

fn pattern2(x: i32, y: i32) -> bool {
    (x * 7 + y * 13 + x * y) % 5 < 2
}

fn patterned(size: UVec2) -> Grid2 {
    let mut grid = Grid2::new(size);
    grid.fill(false);
    for y in 0..size.y as i32 {
        for x in 0..size.x as i32 {
            grid.set_cell(IVec2::new(x, y), pattern2(x, y));
        }
    }
    grid
}

#[test]
fn grid2_blocks_and_fill() {
    assert_eq!(Grid2::get_bitblock_count(UVec2::new(8, 8)), 1);
    assert_eq!(Grid2::get_bitblock_count(UVec2::new(9, 8)), 2);
    assert_eq!(Grid2::get_bitblock_count(UVec2::new(17, 9)), 6);
    assert_eq!(Grid2::get_bitblock_count(UVec2::new(0, 9)), 0);
    let mut grid = Grid2::new(UVec2::new(9, 2));
    assert_eq!(grid.data.len(), 0);
    grid.fill(true);
    // Rows 0 and 1 of the first block, and the first cell of those rows in the second.
    assert_eq!(grid.data, vec![0xFFFFu64, 0x0101u64]);
    grid.fill(false);
    assert_eq!(grid.data, vec![0u64, 0u64]);
    let mut full = Grid2::new(UVec2::new(16, 8));
    full.fill(true);
    assert_eq!(full.data, vec![!0u64, !0u64]);
}

#[test]
fn grid2_addressing_round_trip() {
    let size = UVec2::new(19, 11);
    let grid = Grid2::new(size);
    let mut seen = std::collections::HashSet::new();
    for y in 0..11u32 {
        for x in 0..19u32 {
            let (index, bit) = grid.slot(x, y);
            assert_eq!(index as u32, (y / 8) * 3 + x / 8);
            assert_eq!(bit as u32, (y % 8) * 8 + x % 8);
            let (bx, by) = (index as u32 % 3, index as u32 / 3);
            assert_eq!(8 * bx + bit as u32 % 8, x);
            assert_eq!(8 * by + bit as u32 / 8, y);
            assert!(seen.insert((index, bit)));
        }
    }
}

#[test]
fn grid2_set_cell_then_cell() {
    let size = UVec2::new(10, 9);
    let mut grid = Grid2::new(size);
    grid.fill(false);
    for y in 0..9 {
        for x in 0..10 {
            let pos = IVec2::new(x, y);
            grid.set_cell(pos, true);
            assert_eq!(grid.cell(pos), Some(true));
            grid.set_cell(pos, false);
            assert_eq!(grid.cell(pos), Some(false));
            grid.set_cell(pos, pattern2(x, y));
        }
    }
    for y in 0..9 {
        for x in 0..10 {
            assert_eq!(grid.cell(IVec2::new(x, y)), Some(pattern2(x, y)));
        }
    }
    let before = grid.data.clone();
    grid.set_cell(IVec2::new(10, 0), true);
    grid.set_cell(IVec2::new(0, 9), true);
    grid.set_cell(IVec2::new(-1, 3), true);
    assert_eq!(grid.data, before);
    assert_eq!(grid.cell(IVec2::new(10, 0)), None);
    assert_eq!(grid.cell(IVec2::new(0, -1)), None);
}

#[test]
fn grid2_separable_agrees_with_reference() {
    for size in [
        UVec2::new(1, 1),
        UVec2::new(3, 3),
        UVec2::new(8, 8),
        UVec2::new(9, 17),
        UVec2::new(24, 5),
        UVec2::new(16, 16),
    ] {
        let grid = patterned(size);
        let separable = grid.count_neighbors_separable();
        assert_eq!(separable.len(), grid.data.len() * 64);
        for y in 0..size.y as i32 {
            for x in 0..size.x as i32 {
                let pos = IVec2::new(x, y);
                let (block, bit) = grid.slot(x as u32, y as u32);
                let expected = grid.count_neighbors(pos, false);
                assert_eq!(separable[block * 64 + bit as usize], expected);
                let mut by_hand = 0;
                for dy in -1..=1 {
                    for dx in -1..=1 {
                        if (dx, dy) != (0, 0)
                            && grid.cell(IVec2::new(x + dx, y + dy)) == Some(true)
                        {
                            by_hand += 1;
                        }
                    }
                }
                assert_eq!(expected, by_hand);
            }
        }
    }
}

#[test]
fn grid2_single_cell_counts() {
    // One alive cell at the corner of four blocks.
    let mut grid = Grid2::new(UVec2::new(16, 16));
    grid.fill(false);
    grid.set_cell(IVec2::new(7, 7), true);
    let counts = grid.count_neighbors_separable();
    for y in 0..16i32 {
        for x in 0..16i32 {
            let (block, bit) = grid.slot(x as u32, y as u32);
            let near = (x - 7).abs() <= 1 && (y - 7).abs() <= 1 && (x, y) != (7, 7);
            assert_eq!(counts[block * 64 + bit as usize], near as u8);
        }
    }
}

#[test]
fn grid2_reference_with_alive_default() {
    let mut grid = Grid2::new(UVec2::new(3, 3));
    grid.fill(false);
    grid.set_cell(IVec2::new(1, 1), true);
    assert_eq!(grid.count_neighbors(IVec2::new(1, 1), false), 0);
    assert_eq!(grid.count_neighbors(IVec2::new(1, 1), true), 0);
    // Corner: the center, and 5 positions beyond the grid.
    assert_eq!(grid.count_neighbors(IVec2::new(0, 0), false), 1);
    assert_eq!(grid.count_neighbors(IVec2::new(0, 0), true), 6);
    // Edge: the center, and 3 positions beyond the grid.
    assert_eq!(grid.count_neighbors(IVec2::new(1, 0), true), 4);
    assert_eq!(grid.count_neighbors(IVec2::new(-5, -5), true), 8);
    assert_eq!(grid.count_neighbors(IVec2::new(i32::MIN, i32::MAX), false), 0);
}

#[test]
fn grid2_apply_rule() {
    let size = UVec2::new(13, 10);
    let mut grid = patterned(size);
    let old = grid.clone();
    let rule = Rule2::smooth();
    grid.apply_rule(&rule);
    for y in 0..10 {
        for x in 0..13 {
            let pos = IVec2::new(x, y);
            let count = old.count_neighbors(pos, false);
            let expected = rule.next(old.cell(pos).unwrap(), count);
            assert_eq!(grid.cell(pos), Some(expected));
        }
    }
    let mut again = old.clone();
    again.smooth();
    assert_eq!(again.data, grid.data);
}

#[test]
fn grid2_blinker() {
    // Conway's rule: born with 3 neighbors, survives with 2 or 3.
    let life = Rule2::new(RuleBitset2::from_range(3, 4), RuleBitset2::from_range(2, 4));
    let mut grid = Grid2::new(UVec2::new(5, 5));
    grid.fill(false);
    for x in 1..=3 {
        grid.set_cell(IVec2::new(x, 2), true);
    }
    grid.apply_rule(&life);
    for y in 0..5 {
        for x in 0..5 {
            assert_eq!(grid.cell(IVec2::new(x, y)), Some(x == 2 && (1..=3).contains(&y)));
        }
    }
    grid.apply_rule(&life);
    for y in 0..5 {
        for x in 0..5 {
            assert_eq!(grid.cell(IVec2::new(x, y)), Some(y == 2 && (1..=3).contains(&x)));
        }
    }
}

#[test]
fn grid2_alive_border() {
    let mut grid = Grid2::new(UVec2::new(6, 4));
    grid.fill(false);
    grid.apply_rule_border(&Rule2::smooth(), true);
    for y in 0..4 {
        for x in 0..6 {
            let on_border = x == 0 || y == 0 || x == 5 || y == 3;
            assert_eq!(grid.cell(IVec2::new(x, y)), Some(on_border));
        }
    }
    let mut empty = Grid2::new(UVec2::new(0, 3));
    empty.fill(true);
    empty.apply_rule_border(&Rule2::smooth(), true);
    assert_eq!(empty.data.len(), 0);
}

#[test]
fn grid2_fill_rand_from_draws() {
    let size = UVec2::new(9, 3);
    let blocks = Grid2::get_bitblock_count(size);
    assert_eq!(blocks, 2);
    let draws: Vec<bool> = (0..blocks * 64).map(|i| i % 5 < 2).collect();
    let mut grid = Grid2::new(size);
    grid.fill_rand(&draws);
    for y in 0..3u32 {
        for x in 0..9u32 {
            let (block, bit) = grid.slot(x, y);
            assert_eq!(
                grid.cell(IVec2::new(x as i32, y as i32)),
                Some(draws[block * 64 + bit as usize])
            );
        }
    }
    let all = vec![true; blocks * 64];
    grid.fill_rand(&all);
    assert_eq!(grid.data, vec![0xFF_FFFFu64, 0x01_0101u64]);
}

#[test]
fn grid2_unfilled_beyond_range() {
    let mut grid = Grid2::new(UVec2::new(8, 8));
    assert_eq!(grid.cell(IVec2::new(8, 0)), None);
    assert_eq!(grid.cell(IVec2::new(0, -1)), None);
    grid.set_cell(IVec2::new(0, 8), true);
    grid.set_cell(IVec2::new(-1, -1), true);
    assert_eq!(grid.data.len(), 0);
    assert_eq!(grid.size, UVec2::new(8, 8));
}

#[test]
fn grid2_pass_y_sums_counters_up_to_85() {
    let nb = cytogon::UVec3::new(2, 2, 1);
    let index = |x: u32, y: u32| -> usize {
        (64 * ((y / 8) * 2 + x / 8) + 8 * (y % 8) + x % 8) as usize
    };
    let mut bytes = vec![0u8; 256];
    for y in 0..16u32 {
        for x in 0..16u32 {
            bytes[index(x, y)] = ((x * 29 + y * 41 + x * y) % 86) as u8;
        }
    }
    for y in 7..=9 {
        bytes[index(5, y)] = 85;
    }
    let src: Vec<u64> = bytes
        .chunks(8)
        .map(|c| u64::from_le_bytes([c[0], c[1], c[2], c[3], c[4], c[5], c[6], c[7]]))
        .collect();
    let mut dst = vec![0u64; src.len()];
    Grid2::acc_y(&src, &mut dst, nb);
    let sums: Vec<u8> = dst.iter().flat_map(|w| w.to_le_bytes()).collect();
    let at = |x: i64, y: i64| -> u32 {
        if y < 0 || y >= 16 {
            0
        } else {
            bytes[index(x as u32, y as u32)] as u32
        }
    };
    for y in 0..16i64 {
        for x in 0..16i64 {
            assert_eq!(
                sums[index(x as u32, y as u32)] as u32,
                at(x, y - 1) + at(x, y) + at(x, y + 1)
            );
        }
    }
    assert_eq!(sums[index(5, 8)], 255);
}
