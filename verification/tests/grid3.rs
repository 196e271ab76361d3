use cytogon::{Grid3, IVec3, Rule3, UVec3};

fn index(pos: IVec3, size: UVec3) -> usize {
    let index = pos.z as u32 * size.y * size.x + pos.y as u32 * size.x + pos.x as u32;
    index as usize
}

#[test]
fn bit_to_byte() {
    assert_eq!(Grid3::bit_to_byte(0), 0);
    assert_eq!(Grid3::bit_to_byte(1), 1);
    assert_eq!(Grid3::bit_to_byte(0b00_01_00_11), 0x0000_0001_0000_0101u64);
    assert_eq!(Grid3::bit_to_byte(0b10_00_00_01), 0x0100_0000_0000_0001u64);
    assert_eq!(Grid3::bit_to_byte(0b11_11_11_11), 0x0101_0101_0101_0101u64);
}

#[test]
fn resolve() {
    let size = UVec3::new(8, 8, 8);
    let grid = Grid3::new(size);
    assert_eq!(grid.resolve_bit(IVec3::new(0, 0, 0)), Some((0, 1u64 << 0)));
    assert_eq!(grid.resolve_bit(IVec3::new(1, 1, 1)), Some((0, 1u64 << 21)));
    assert_eq!(grid.resolve_bit(IVec3::new(4, 0, 0)), Some((1, 1u64 << 0)));
    assert_eq!(grid.resolve_bit(IVec3::new(4, 4, 4)), Some((7, 1u64 << 0)));
    assert_eq!(grid.resolve_bit(IVec3::new(7, 7, 7)), Some((7, 1u64 << 63)));
}

#[test]
fn count_neighbors_separable() {
    // 8x8x8 grid (2x2x2 blocks)
    let size = UVec3::new(8, 8, 8);
    let mut grid = Grid3::new(size);
    grid.fill(false);

    // Grid corner
    {
        let mut grid = grid.clone();

        // Set only 1 cell #0 at (0,0,0)
        grid.set_cell(IVec3::new(0, 0, 0), true);

        // Check counts
        let counts = grid.count_neighbors_separable_m(false);
        // All 26 Moore neighbors around (0,0,0)
        for i in [
            // Z = 0; 0 == (0,0,0), we don't count self in neighbors
            1, 4, 5, // Z = 1
            16, 17, 20, 21,
        ] {
            assert_eq!(counts[i], 1);
        }
        for i in [0, 2, 3, 6, 7, 8, 9, 10, 11, 12, 13, 14, 15, 18, 19] {
            assert_eq!(counts[i], 0);
        }
        // All other blocks except the first are empty
        for i in 22..512 {
            assert_eq!(counts[i], 0);
        }
    }

    // Inside 1 block, no spilling over other blocks
    {
        let mut grid = grid.clone();

        // Set only 1 cell #21 at (1,1,1)
        grid.set_cell(IVec3::new(1, 1, 1), true);

        // Check counts
        let counts = grid.count_neighbors_separable_m(false);
        // All 26 Moore neighbors around (1,1,1)
        for i in [
            // Z = 0
            0, 1, 2, 4, 5, 6, 8, 9, 10,
            // Z = 1; 21 == (1,1,1), we don't count self in neighbors
            16, 17, 18, 20, 22, 24, 25, 26, // Z = 2
            32, 33, 34, 36, 37, 38, 40, 41, 42,
        ] {
            assert_eq!(counts[i], 1);
        }
        for i in [
            3, 7, 11, 12, 13, 14, 15, 19, 21, 23, 27, 28, 29, 30, 31, 35, 39,
        ] {
            assert_eq!(counts[i], 0);
        }
        // All other blocks except the first are empty
        for i in 43..512 {
            assert_eq!(counts[i], 0);
        }
    }

    // Last bit of 1 block, spilling over all 7 other neighbor blocks
    {
        let mut grid = grid.clone();

        // Set only 1 cell #63 at (3,3,3)
        grid.set_cell(IVec3::new(3, 3, 3), true);

        // Check counts
        let counts = grid.count_neighbors_separable_m(false);
        // All 26 Moore neighbors around (3,3,3)
        let cells = [
            // Z = 2
            42, 43, 46, 47,
            // Z = 3; 63 == (3,3,3), we don't count self in neighbors
            58, 59, 62,
            // Second block, on X+ side: X=0, Y=3:4, Z=3:4
            104, 108, 120, 124,
            // Third block, on Y+ side: X=3:4, Y=0, Z=3:4
            162, 163, 178, 179,
            // Fourth block, on X+Y+ side: X=Y=0, Z=3:4
            224, 240,
            // Fifth block, on Z+ side: X=3:4 Y=3:4, Z=0
            266, 267, 270, 271,
            // Sixth block, on X+Z+ side: X=0 Y=3:4, Z=0
            328, 332,
            // Seventh block, on Y+Z+ side: X=3:4 Y=0, Z=0
            386, 387,
            // Eighth block, on X+Y+Z+ side: X=Y=Z=0
            448,
        ];
        for i in &cells {
            assert_eq!(counts[*i], 1);
        }
        for i in 0..448 {
            assert_eq!(counts[i], cells.contains(&i) as u8);
        }
        for i in 449..512 {
            assert_eq!(counts[i], 0);
        }
    }
}

#[test]
fn neighbors3() {
    // 3x3x3 grid with alive cell in center
    let size = UVec3::new(3, 3, 3);
    let mut grid = Grid3::new(size);
    grid.fill(false);
    grid.set_cell(IVec3::new(1, 1, 1), true);

    let counts_false = grid.count_neighbors(false);
    let counts_true = grid.count_neighbors(true);

    for k in -1..=1 {
        for j in -1..=1 {
            for i in -1..=1 {
                let pos = IVec3::new(i + 1, j + 1, k + 1);
                if pos == IVec3::new(1, 1, 1) {
                    // center: no neighbor
                    assert_eq!(counts_false[index(pos, size)], 0);
                } else if i * j * k != 0 {
                    // corner: neighbor is center, and optionally out-of-bound values if
                    // default=true
                    assert_eq!(counts_false[index(pos, size)], 1);
                    assert_eq!(counts_true[index(pos, size)], 20);
                } else if i * j != 0 || i * k != 0 || j * k != 0 {
                    // edge center: neighbor is center, and optionally out-of-bound values if
                    // default=true
                    assert_eq!(counts_false[index(pos, size)], 1);
                    assert_eq!(counts_true[index(pos, size)], 16);
                } else {
                    // face center: neighbor is center, and optionally out-of-bound values if
                    // default=true
                    assert_eq!(counts_false[index(pos, size)], 1);
                    assert_eq!(counts_true[index(pos, size)], 10);
                }
            }
        }
    }
}

#[test]
fn smooth3_4x4x4() {
    // 4x4x4 full grid
    let size = UVec3::new(4, 4, 4);
    let mut grid = Grid3::new(size);

    grid.fill(true);
    assert_eq!(grid.data.len(), 1);
    assert_eq!(grid.data[0], !0u64);

    // Smoothing will shave off the edges
    grid.apply_rule(&Rule3::smooth());
    for k in 0..4 {
        for j in 0..4 {
            for i in 0..4 {
                let value = grid.cell(IVec3::new(i as i32, j as i32, k as i32)).unwrap();
                let x_border = i == 0 || i == 3;
                let y_border = j == 0 || j == 3;
                let z_border = k == 0 || k == 3;
                if (x_border && y_border) || (y_border && z_border) || (z_border && x_border) {
                    assert!(!value);
                } else {
                    assert!(value);
                }
            }
        }
    }
}

#[test]
fn smooth3_8x8x8() {
    // 8x8x8 full grid
    let size = UVec3::new(8, 8, 8);
    let mut grid = Grid3::new(size);

    grid.fill(true);
    assert_eq!(grid.data.len(), 8);
    for i in 0..8 {
        assert_eq!(grid.data[i], !0u64);
    }

    // Smoothing will shave off the edges
    grid.apply_rule(&Rule3::smooth());
    for k in 0..8 {
        for j in 0..8 {
            for i in 0..8 {
                let value = grid.cell(IVec3::new(i as i32, j as i32, k as i32)).unwrap();
                let x_border = i == 0 || i == 7;
                let y_border = j == 0 || j == 7;
                let z_border = k == 0 || k == 7;
                if (x_border && y_border) || (y_border && z_border) || (z_border && x_border) {
                    if value {
                        println!("{} {} {}", i, j, k);
                    }
                    assert!(!value);
                } else {
                    assert!(value);
                }
            }
        }
    }
}

#[test]
fn lib_smooth3_4x4x4() {
    let mut grid = Grid3::new(UVec3::new(4, 4, 4));
    grid.fill(true);
    grid.smooth();
    for k in 0..4 {
        for j in 0..4 {
            for i in 0..4 {
                let value = grid.cell(IVec3::new(i, j, k)).unwrap();
                let borders =
                    [i, j, k].iter().filter(|c| **c == 0 || **c == 3).count();
                assert_eq!(value, borders < 2);
            }
        }
    }
}

#[test]
fn lib_smooth3_8x8x8() {
    let mut grid = Grid3::new(UVec3::new(8, 8, 8));
    grid.fill(true);
    grid.smooth_ref();
    for k in 0..8 {
        for j in 0..8 {
            for i in 0..8 {
                let value = grid.cell(IVec3::new(i, j, k)).unwrap();
                let borders =
                    [i, j, k].iter().filter(|c| **c == 0 || **c == 7).count();
                assert_eq!(value, borders < 2);
            }
        }
    }
}

#[test]
fn bit_to_byte_all_low_bytes() {
    for b in 0u64..256 {
        let bytes = Grid3::bit_to_byte(b).to_le_bytes();
        for j in 0..8 {
            assert_eq!(bytes[j] as u64, (b >> j) & 1);
        }
        // Only the low 8 bits count.
        assert_eq!(Grid3::bit_to_byte(b | 0xABCD_EF00), Grid3::bit_to_byte(b));
    }
}

#[test]
fn decompress_block_bytes_are_bits() {
    for b in [0u64, 1, !0u64, 0x8000_0000_0000_0001, 0x0123_4567_89AB_CDEF] {
        let lanes = Grid3::decompress_block(b);
        for q in 0..64 {
            let byte = lanes[q / 8].to_le_bytes()[q % 8];
            assert_eq!(byte as u64, (b >> q) & 1);
        }
    }
}

#[test]
fn addressing_round_trip() {
    // A size that is no multiple of the block size, so that there are fringe blocks.
    let size = UVec3::new(5, 6, 9);
    let grid = Grid3::new(size);
    assert_eq!(Grid3::get_bitblock_count(size), 2 * 2 * 3);
    let mut seen = std::collections::HashSet::new();
    for z in 0..9 {
        for y in 0..6 {
            for x in 0..5 {
                let (index, bit) = grid.resolve(IVec3::new(x, y, z)).unwrap();
                assert!(index < 12);
                assert!(bit < 64);
                // Decode block and bit back to the position.
                let (bx, by, bz) = (index % 2, (index / 2) % 2, index / 4);
                let (lx, ly, lz) = (bit % 4, (bit / 4) % 4, bit / 16);
                assert_eq!(4 * bx as i32 + lx as i32, x);
                assert_eq!(4 * by as i32 + ly as i32, y);
                assert_eq!(4 * bz as i32 + lz as i32, z);
                assert!(seen.insert((index, bit)));
            }
        }
    }
    assert_eq!(grid.resolve(IVec3::new(5, 0, 0)), None);
    assert_eq!(grid.resolve(IVec3::new(0, -1, 0)), None);
    assert_eq!(grid.resolve(IVec3::new(0, 0, 9)), None);
}

#[test]
fn set_cell_then_cell() {
    let size = UVec3::new(5, 3, 7);
    let mut grid = Grid3::new(size);
    grid.fill(false);
    for z in 0..7 {
        for y in 0..3 {
            for x in 0..5 {
                let pos = IVec3::new(x, y, z);
                grid.set_cell(pos, true);
                assert_eq!(grid.cell(pos), Some(true));
                grid.set_cell(pos, false);
                assert_eq!(grid.cell(pos), Some(false));
                grid.set_cell(pos, (x + y + z) % 2 == 0);
            }
        }
    }
    for z in 0..7 {
        for y in 0..3 {
            for x in 0..5 {
                assert_eq!(grid.cell(IVec3::new(x, y, z)), Some((x + y + z) % 2 == 0));
            }
        }
    }
    // Out of range: reads give nothing, writes change nothing.
    let before = grid.data.clone();
    grid.set_cell(IVec3::new(5, 0, 0), true);
    grid.set_cell(IVec3::new(-1, 0, 0), true);
    grid.set_cell(IVec3::new(0, 3, 0), true);
    assert_eq!(grid.data, before);
    assert_eq!(grid.cell(IVec3::new(0, 0, 7)), None);
    assert_eq!(grid.cell(IVec3::new(-1, -1, -1)), None);
}

#[test]
fn fill_keeps_fringe_zero() {
    let mut grid = Grid3::new(UVec3::new(5, 4, 2));
    grid.fill(true);
    assert_eq!(grid.data.len(), 2);
    // First block: x and y full, z in 0..2.
    assert_eq!(grid.data[0], 0x0000_0000_FFFF_FFFFu64);
    // Second block: x == 4 only, z in 0..2.
    assert_eq!(grid.data[1], 0x0000_0000_1111_1111u64);
    grid.fill(false);
    assert_eq!(grid.data, vec![0u64, 0u64]);
    grid.fill(true);
    assert_eq!(grid.cell(IVec3::new(4, 3, 1)), Some(true));
}

#[test]
fn zero_sized_grids() {
    for size in [UVec3::new(0, 4, 4), UVec3::new(4, 0, 4), UVec3::new(4, 4, 0), UVec3::new(0, 0, 0)]
    {
        let mut grid = Grid3::new(size);
        grid.fill(true);
        assert_eq!(grid.data.len(), 0);
        assert_eq!(grid.cell(IVec3::new(0, 0, 0)), None);
        grid.apply_rule(&Rule3::smooth());
        grid.apply_rule_border(&Rule3::smooth(), true);
        assert_eq!(grid.data.len(), 0);
        assert_eq!(grid.count_neighbors_separable_m(false).len(), 0);
        assert_eq!(grid.count_neighbors(true).len(), 0);
    }
}

fn pattern(x: i32, y: i32, z: i32) -> bool {
    (x * 7 + y * 13 + z * 29 + x * y * z) % 5 < 2
}

#[test]
fn separable_agrees_with_reference() {
    for size in [
        UVec3::new(1, 1, 1),
        UVec3::new(3, 3, 3),
        UVec3::new(4, 4, 4),
        UVec3::new(5, 6, 7),
        UVec3::new(9, 2, 13),
        UVec3::new(8, 8, 8),
    ] {
        let mut grid = Grid3::new(size);
        grid.fill(false);
        for z in 0..size.z as i32 {
            for y in 0..size.y as i32 {
                for x in 0..size.x as i32 {
                    grid.set_cell(IVec3::new(x, y, z), pattern(x, y, z));
                }
            }
        }
        let separable = grid.count_neighbors_separable_m(false);
        let reference = grid.count_neighbors_ref(false);
        let by_cell = grid.count_neighbors(false);
        assert_eq!(reference, by_cell);
        for z in 0..size.z as i32 {
            for y in 0..size.y as i32 {
                for x in 0..size.x as i32 {
                    let pos = IVec3::new(x, y, z);
                    let (block, bit) = grid.resolve(pos).unwrap();
                    let expected = grid.count_neighbors_single(pos, false);
                    assert_eq!(separable[block * 64 + bit as usize], expected);
                    assert_eq!(reference[index(pos, size)], expected);
                    // Count by hand.
                    let mut by_hand = 0;
                    for dz in -1..=1 {
                        for dy in -1..=1 {
                            for dx in -1..=1 {
                                if (dx, dy, dz) != (0, 0, 0)
                                    && grid.cell(IVec3::new(x + dx, y + dy, z + dz))
                                        == Some(true)
                                {
                                    by_hand += 1;
                                }
                            }
                        }
                    }
                    assert_eq!(expected, by_hand);
                }
            }
        }
    }
}

#[test]
fn reference_counts_with_alive_default() {
    let mut grid = Grid3::new(UVec3::new(2, 2, 2));
    grid.fill(true);
    // Every cell of a full 2x2x2 grid has 7 neighbors inside and 19 outside.
    for count in grid.count_neighbors_ref(false) {
        assert_eq!(count, 7);
    }
    for count in grid.count_neighbors(true) {
        assert_eq!(count, 26);
    }
    assert_eq!(grid.count_neighbors_single(IVec3::new(-1, -1, -1), false), 1);
    assert_eq!(grid.count_neighbors_single(IVec3::new(-1, -1, -1), true), 26);
    assert_eq!(grid.count_neighbors_single(IVec3::new(100, 0, 0), true), 26);
    assert_eq!(grid.count_neighbors_single(IVec3::new(i32::MAX, i32::MIN, 0), false), 0);
}

#[test]
fn apply_rule_with_alive_border() {
    // With the border forced alive a full cube stays full: its faces are forced, and the
    // cells inside have 26 neighbors.
    let mut grid = Grid3::new(UVec3::new(4, 4, 4));
    grid.fill(true);
    grid.apply_rule_border(&Rule3::smooth(), true);
    assert_eq!(grid.data[0], !0u64);

    // An empty 5x5x5 grid gets its shell, and nothing is born inside: the cell in the middle
    // has no alive neighbor in the old generation.
    let mut grid = Grid3::new(UVec3::new(5, 5, 5));
    grid.fill(false);
    grid.apply_rule_border(&Rule3::smooth(), true);
    for z in 0..5 {
        for y in 0..5 {
            for x in 0..5 {
                let on_border = [x, y, z].iter().any(|c| *c == 0 || *c == 4);
                assert_eq!(grid.cell(IVec3::new(x, y, z)), Some(on_border));
            }
        }
    }
    // Without the flag nothing changes in an empty grid.
    let mut grid = Grid3::new(UVec3::new(5, 5, 5));
    grid.fill(false);
    grid.apply_rule_ref(&Rule3::smooth());
    assert!(grid.data.iter().all(|b| *b == 0));
}

#[test]
fn apply_rule_reads_old_generation() {
    // Blinker-like check: the step is the same as one computed from a snapshot by hand.
    let size = UVec3::new(6, 5, 7);
    let mut grid = Grid3::new(size);
    grid.fill(false);
    for z in 0..7 {
        for y in 0..5 {
            for x in 0..6 {
                grid.set_cell(IVec3::new(x, y, z), !pattern(x, y, z));
            }
        }
    }
    let old = grid.clone();
    let rule = Rule3::smooth();
    grid.apply_rule(&rule);
    for z in 0..7 {
        for y in 0..5 {
            for x in 0..6 {
                let pos = IVec3::new(x, y, z);
                let count = old.count_neighbors_single(pos, false);
                let expected = rule.next(old.cell(pos).unwrap(), count);
                assert_eq!(grid.cell(pos), Some(expected));
            }
        }
    }
}

#[test]
fn fill_rand_from_draws() {
    let size = UVec3::new(5, 4, 4);
    let blocks = Grid3::get_bitblock_count(size);
    assert_eq!(blocks, 2);
    let draws: Vec<bool> = (0..blocks * 64).map(|i| i % 3 == 0).collect();
    let mut grid = Grid3::new(size);
    grid.fill_rand(&draws);
    let mut again = Grid3::new(size);
    again.fill_rand(&draws);
    assert_eq!(grid.data, again.data);
    for z in 0..4 {
        for y in 0..4 {
            for x in 0..5 {
                let (block, bit) = grid.resolve(IVec3::new(x, y, z)).unwrap();
                assert_eq!(
                    grid.cell(IVec3::new(x, y, z)),
                    Some(draws[block * 64 + bit as usize])
                );
            }
        }
    }
    // The fringe of the second block stays dead whatever was drawn for it.
    assert_eq!(grid.data[1] & !0x1111_1111_1111_1111u64, 0);
    let all = vec![true; blocks * 64];
    grid.fill_rand(&all);
    assert_eq!(grid.data, vec![!0u64, 0x1111_1111_1111_1111u64]);
}

#[test]
fn unfilled_grid_beyond_range() {
    // Before the first fill there are no blocks; beyond the grid that does not matter.
    let mut grid = Grid3::new(UVec3::new(4, 4, 4));
    assert_eq!(grid.data.len(), 0);
    assert_eq!(grid.cell(IVec3::new(4, 0, 0)), None);
    assert_eq!(grid.cell(IVec3::new(0, -1, 0)), None);
    grid.set_cell(IVec3::new(0, 0, 4), true);
    grid.set_cell(IVec3::new(-1, 0, 0), false);
    assert_eq!(grid.data.len(), 0);
    assert_eq!(grid.size, UVec3::new(4, 4, 4));
    assert_eq!(grid.resolve(IVec3::new(9, 9, 9)), None);
    assert_eq!(grid.resolve_bit(IVec3::new(0, 0, -3)), None);
}

fn counter_index(nb: UVec3, x: u32, y: u32, z: u32) -> usize {
    let block = ((z / 4) * nb.y + y / 4) * nb.x + x / 4;
    (64 * block + x % 4 + 4 * (y % 4) + 16 * (z % 4)) as usize
}

fn lanes_of(bytes: &[u8]) -> Vec<u64> {
    bytes
        .chunks(8)
        .map(|c| u64::from_le_bytes([c[0], c[1], c[2], c[3], c[4], c[5], c[6], c[7]]))
        .collect()
}

fn bytes_of(lanes: &[u64]) -> Vec<u8> {
    lanes.iter().flat_map(|w| w.to_le_bytes()).collect()
}

fn wide_counter(x: u32, y: u32, z: u32) -> u8 {
    ((x * 31 + y * 17 + z * 53 + x * y + 7 * z * x) % 86) as u8
}

#[test]
fn passes_sum_counters_up_to_85() {
    let nb = UVec3::new(2, 3, 2);
    let (w, h, d) = (4 * nb.x, 4 * nb.y, 4 * nb.z);
    let mut bytes = vec![0u8; (64 * nb.x * nb.y * nb.z) as usize];
    for z in 0..d {
        for y in 0..h {
            for x in 0..w {
                bytes[counter_index(nb, x, y, z)] = wide_counter(x, y, z);
            }
        }
    }
    // The largest counter, three times over along both axes.
    for (x, y, z) in [(3, 3, 3), (3, 4, 3), (3, 5, 3), (3, 4, 4), (3, 4, 5)] {
        bytes[counter_index(nb, x, y, z)] = 85;
    }
    let at = |x: i64, y: i64, z: i64| -> u32 {
        if x < 0 || y < 0 || z < 0 || x >= w as i64 || y >= h as i64 || z >= d as i64 {
            0
        } else {
            bytes[counter_index(nb, x as u32, y as u32, z as u32)] as u32
        }
    };
    let src = lanes_of(&bytes);
    let mut along_y = vec![0u64; src.len()];
    Grid3::acc_y(&src, &mut along_y, nb);
    let mut along_z = vec![0u64; src.len()];
    Grid3::acc_z(&src, &mut along_z, nb);
    assert_eq!(bytes_of(&src), bytes);
    let sums_y = bytes_of(&along_y);
    let sums_z = bytes_of(&along_z);
    for z in 0..d as i64 {
        for y in 0..h as i64 {
            for x in 0..w as i64 {
                let i = counter_index(nb, x as u32, y as u32, z as u32);
                assert_eq!(sums_y[i] as u32, at(x, y - 1, z) + at(x, y, z) + at(x, y + 1, z));
                assert_eq!(sums_z[i] as u32, at(x, y, z - 1) + at(x, y, z) + at(x, y, z + 1));
            }
        }
    }
    assert_eq!(sums_y[counter_index(nb, 3, 4, 3)], 255);
    assert_eq!(sums_z[counter_index(nb, 3, 4, 4)], 255);
}

#[test]
fn pass_x_counts_rows_of_bits() {
    let nb = UVec3::new(3, 1, 1);
    let blocks = vec![0x8000_0000_0000_0009u64, 0x1, 0x8];
    let mut lanes = vec![0u64; 24];
    Grid3::acc_x(&blocks, &mut lanes, nb);
    let sums = bytes_of(&lanes);
    let bit = |x: i64, y: i64, z: i64| -> u8 {
        if x < 0 || x >= 12 {
            0
        } else {
            let q = (x % 4) + 4 * y + 16 * z;
            ((blocks[(x / 4) as usize] >> q) & 1) as u8
        }
    };
    for z in 0..4 {
        for y in 0..4 {
            for x in 0..12 {
                let i = counter_index(nb, x as u32, y as u32, z as u32);
                assert_eq!(sums[i], bit(x - 1, y, z) + bit(x, y, z) + bit(x + 1, y, z));
            }
        }
    }
    assert_eq!(sums[counter_index(nb, 3, 0, 0)], 2);
    assert_eq!(sums[counter_index(nb, 4, 0, 0)], 2);
}
