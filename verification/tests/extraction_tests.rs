use ndarray::Array2;
use overlapping_wfc::compatibility::CompatibilityMap;
use overlapping_wfc::grid::Grid;
use overlapping_wfc::overlappingmodel::{ModelError, OverlappingModel};
use overlapping_wfc::symmetry::{all_orientations, generate_rotations_and_reflections};
use overlapping_wfc::texturesource::{tally, TextureSource};

fn color(r: u8, g: u8, b: u8) -> usize {
    ((r as usize) << 16) | ((g as usize) << 8) | (b as usize)
}

fn grid(shape: (usize, usize), data: Vec<usize>) -> Grid {
    Grid::from_shape_vec(shape, data).unwrap()
}

fn from_array(a: Array2<usize>) -> Grid {
    let shape = a.dim();
    Grid::from_shape_vec(shape, a.iter().cloned().collect()).unwrap()
}

fn rows(g: &Grid) -> Vec<Vec<usize>> {
    g.to_rows()
}

#[test]
fn build_block_frequency_map_test_1() {
    let array = grid(
        (3, 3),
        vec![
            color(0, 0, 0),
            color(1, 1, 1),
            color(1, 1, 1),
            color(0, 0, 0),
            color(0, 0, 1),
            color(0, 0, 1),
            color(0, 0, 1),
            color(0, 0, 1),
            color(0, 0, 2),
        ],
    );
    let p_test = OverlappingModel::build_block_frequency_map(&array, 2).unwrap();
    assert_eq!(p_test.len(), 4);
}

#[test]
fn build_block_frequency_map_test_2() {
    let array: Array2<usize> = Array2::eye(10);
    let array = from_array(array);
    let p_test = OverlappingModel::build_block_frequency_map(&array, 2).unwrap();
    let p_count: usize = p_test.iter().map(|&(_, u)| u).sum();
    assert_eq!(p_count, 81);
}

#[test]
fn frequency_map_lists_patterns_by_first_occurrence() {
    let seed = grid((2, 4), vec![1, 2, 1, 2, 3, 4, 3, 4]);
    let map = OverlappingModel::build_block_frequency_map(&seed, 2).unwrap();
    assert_eq!(map.len(), 2);
    assert_eq!(rows(&map[0].0), vec![vec![1, 2], vec![3, 4]]);
    assert_eq!(map[0].1, 2);
    assert_eq!(rows(&map[1].0), vec![vec![2, 1], vec![4, 3]]);
    assert_eq!(map[1].1, 1);
}

#[test]
fn states_and_counts_of_rectangular_patches() {
    let source = TextureSource {
        img: grid((2, 3), vec![1, 2, 1, 1, 2, 1]),
    };
    let (states, counts) = source.states_and_counts((1, 2)).unwrap();
    let seen: Vec<Vec<Vec<usize>>> = states.iter().map(rows).collect();
    assert_eq!(seen, vec![vec![vec![1, 2]], vec![vec![2, 1]]]);
    assert_eq!(counts, vec![2, 2]);
    let (whole, once) = source.states_and_counts((2, 3)).unwrap();
    assert_eq!(whole.len(), 1);
    assert_eq!(once, vec![1]);
}

#[test]
fn patch_larger_than_the_image_is_rejected() {
    let source = TextureSource {
        img: grid((2, 3), vec![1, 2, 1, 1, 2, 1]),
    };
    assert_eq!(
        source.states_and_counts((3, 1)).err(),
        Some(ModelError::PatternExtractionEmpty)
    );
    assert_eq!(
        source.states_and_counts((1, 4)).err(),
        Some(ModelError::PatternExtractionEmpty)
    );
    assert_eq!(
        source.states_and_counts((3, 3)).err(),
        Some(ModelError::PatternExtractionEmpty)
    );
    assert!(source.states_and_counts((2, 3)).is_ok());
    assert_eq!(
        OverlappingModel::build_block_frequency_map(&source.img, 3).err(),
        Some(ModelError::PatternExtractionEmpty)
    );
    assert_eq!(
        OverlappingModel::build_augmented_block_frequency_map(&source.img, 3).err(),
        Some(ModelError::PatternExtractionEmpty)
    );
    assert_eq!(
        OverlappingModel::extract_patterns(&source.img, 3, false).err(),
        Some(ModelError::PatternExtractionEmpty)
    );
    assert_eq!(
        OverlappingModel::extract_patterns(&source.img, 3, true).err(),
        Some(ModelError::PatternExtractionEmpty)
    );
    assert!(OverlappingModel::build_block_frequency_map(&source.img, 2).is_ok());
    let empty = TextureSource {
        img: grid((0, 0), vec![]),
    };
    assert_eq!(
        empty.states_and_counts((1, 1)).err(),
        Some(ModelError::PatternExtractionEmpty)
    );
}

#[test]
fn windows_come_in_row_major_order() {
    let source = TextureSource {
        img: grid((3, 3), vec![1, 2, 3, 4, 5, 6, 7, 8, 9]),
    };
    let (states, counts) = source.states_and_counts((2, 2)).unwrap();
    let seen: Vec<Vec<Vec<usize>>> = states.iter().map(rows).collect();
    assert_eq!(
        seen,
        vec![
            vec![vec![1, 2], vec![4, 5]],
            vec![vec![2, 3], vec![5, 6]],
            vec![vec![4, 5], vec![7, 8]],
            vec![vec![5, 6], vec![8, 9]],
        ]
    );
    assert_eq!(counts, vec![1, 1, 1, 1]);
}

#[test]
fn tally_counts_repeats() {
    let blocks = vec![
        grid((1, 1), vec![5]),
        grid((1, 1), vec![6]),
        grid((1, 1), vec![5]),
        grid((1, 1), vec![5]),
        grid((1, 1), vec![7]),
        grid((1, 1), vec![6]),
    ];
    let (patterns, counts) = tally(blocks);
    let seen: Vec<Vec<Vec<usize>>> = patterns.iter().map(rows).collect();
    assert_eq!(seen, vec![vec![vec![5]], vec![vec![6]], vec![vec![7]]]);
    assert_eq!(counts, vec![3, 2, 1]);
    let (nothing, no_counts) = tally(vec![]);
    assert!(nothing.is_empty());
    assert!(no_counts.is_empty());
}

#[test]
fn eight_orientations_of_a_block() {
    let block = grid((2, 2), vec![1, 2, 3, 4]);
    let all: Vec<Vec<Vec<usize>>> = generate_rotations_and_reflections(block)
        .iter()
        .map(rows)
        .collect();
    assert_eq!(
        all,
        vec![
            vec![vec![1, 2], vec![3, 4]],
            vec![vec![3, 1], vec![4, 2]],
            vec![vec![4, 3], vec![2, 1]],
            vec![vec![2, 4], vec![1, 3]],
            vec![vec![2, 1], vec![4, 3]],
            vec![vec![1, 3], vec![2, 4]],
            vec![vec![3, 4], vec![1, 2]],
            vec![vec![4, 2], vec![3, 1]],
        ]
    );
}

#[test]
fn all_orientations_keeps_block_order() {
    let blocks = vec![grid((1, 1), vec![1]), grid((1, 1), vec![2])];
    let all = all_orientations(blocks, 1);
    assert_eq!(all.len(), 16);
    for k in 0..8 {
        assert_eq!(rows(&all[k]), vec![vec![1]]);
        assert_eq!(rows(&all[8 + k]), vec![vec![2]]);
    }
}

#[test]
fn symmetry_doubling_of_a_chiral_block() {
    let seed = grid((3, 3), vec![1, 2, 3, 4, 5, 6, 7, 8, 9]);
    let plain = OverlappingModel::build_block_frequency_map(&seed, 3).unwrap();
    assert_eq!(plain.len(), 1);
    assert_eq!(plain[0].1, 1);
    let augmented = OverlappingModel::build_augmented_block_frequency_map(&seed, 3).unwrap();
    assert_eq!(augmented.len(), 8);
    for (_, weight) in augmented.iter() {
        assert!(*weight >= 1);
    }
    let total: usize = augmented.iter().map(|&(_, u)| u).sum();
    assert_eq!(total, 8);
}

#[test]
fn symmetric_block_collects_the_weight_of_its_orientations() {
    let seed = grid((2, 2), vec![7, 7, 7, 7]);
    let augmented = OverlappingModel::build_augmented_block_frequency_map(&seed, 2).unwrap();
    assert_eq!(augmented.len(), 1);
    assert_eq!(augmented[0].1, 8);
}

fn turn(g: &Vec<Vec<usize>>) -> Vec<Vec<usize>> {
    let n = g.len();
    (0..n)
        .map(|y| (0..n).map(|x| g[n - 1 - x][y]).collect())
        .collect()
}

fn mirror(g: &Vec<Vec<usize>>) -> Vec<Vec<usize>> {
    g.iter()
        .map(|row| row.iter().rev().cloned().collect())
        .collect()
}

#[test]
fn augmented_table_is_closed_under_orientations() {
    let seed = grid(
        (4, 5),
        vec![1, 2, 2, 3, 1, 1, 1, 2, 3, 3, 2, 1, 1, 1, 3, 3, 2, 1, 2, 2],
    );
    let model = OverlappingModel::from_seed_image(&seed, (4, 4), 2, true).unwrap();
    let table: Vec<Vec<Vec<usize>>> = model.states().iter().map(rows).collect();
    assert_eq!(table.len(), model.state_counts().len());
    for pattern in table.iter() {
        let mut g = pattern.clone();
        for _ in 0..4 {
            assert!(table.contains(&g));
            assert!(table.contains(&mirror(&g)));
            g = turn(&g);
        }
        assert_eq!(&g, pattern);
    }
    let total: usize = model.state_counts().iter().sum();
    assert_eq!(total, 8 * 3 * 4);
}

#[test]
fn weights_are_positive_and_match_patterns() {
    let seed = grid((3, 4), vec![1, 1, 2, 1, 1, 1, 2, 1, 2, 2, 1, 1]);
    for augment in [false, true] {
        let model = OverlappingModel::from_seed_image(&seed, (3, 3), 2, augment).unwrap();
        assert_eq!(model.states().len(), model.state_counts().len());
        assert_eq!(model.num_states(), model.states().len());
        assert!(model.state_counts().iter().all(|w| *w >= 1));
        assert_eq!(model.state_size(), 2);
        assert_eq!(model.dim(), (3, 3));
        let table: Vec<Vec<Vec<usize>>> = model.states().iter().map(rows).collect();
        for i in 0..table.len() {
            for j in 0..i {
                assert_ne!(table[i], table[j]);
            }
        }
    }
}

#[test]
fn seed_smaller_than_pattern_is_rejected() {
    let seed = grid((1, 3), vec![1, 2, 3]);
    let r = OverlappingModel::from_seed_image(&seed, (1, 5), 2, false);
    assert_eq!(r.err(), Some(ModelError::PatternExtractionEmpty));
    let narrow = grid((3, 1), vec![1, 2, 3]);
    let r = OverlappingModel::from_seed_image(&narrow, (5, 5), 2, true);
    assert_eq!(r.err(), Some(ModelError::PatternExtractionEmpty));
    let empty = grid((0, 0), vec![]);
    let r = OverlappingModel::from_seed_image(&empty, (2, 2), 1, false);
    assert_eq!(r.err(), Some(ModelError::PatternExtractionEmpty));
    let exact = grid((2, 2), vec![1, 2, 3, 4]);
    assert!(OverlappingModel::from_seed_image(&exact, (2, 2), 2, false).is_ok());
}

#[test]
fn compatibility_is_reflexive_only_at_origin() {
    let seed = grid((3, 4), vec![1, 1, 2, 1, 1, 1, 2, 1, 2, 2, 1, 1]);
    let model = OverlappingModel::from_seed_image(&seed, (3, 3), 2, true).unwrap();
    let table = model.compatibility_map();
    let p = model.num_states();
    for i in 0..p {
        for j in 0..p {
            assert_eq!(table.allows(i, (0, 0), j), i == j);
        }
    }
}

#[test]
fn compatibility_is_symmetric() {
    let seed = grid((3, 4), vec![1, 1, 2, 1, 1, 1, 2, 1, 2, 2, 1, 1]);
    let model = OverlappingModel::from_seed_image(&seed, (3, 3), 2, false).unwrap();
    let table = model.compatibility_map();
    let p = model.num_states();
    for i in 0..p {
        for j in 0..p {
            for dy in -1isize..2 {
                for dx in -1isize..2 {
                    assert_eq!(
                        table.allows(i, (dy, dx), j),
                        table.allows(j, (-dy, -dx), i)
                    );
                }
            }
        }
    }
}

#[test]
fn compatibility_table_compares_overlaps() {
    let states = vec![
        grid((2, 2), vec![1, 2, 1, 2]),
        grid((2, 2), vec![2, 3, 2, 3]),
    ];
    let table = CompatibilityMap::generate(&states, (2, 2));
    assert!(table.allows(0, (0, 1), 1));
    assert!(!table.allows(1, (0, 1), 0));
    assert!(table.allows(1, (0, -1), 0));
    assert!(!table.allows(0, (0, -1), 1));
    assert!(table.allows(0, (1, 0), 0));
    assert!(table.allows(0, (-1, 0), 0));
    assert!(!table.allows(0, (1, 0), 1));
    assert!(table.allows(0, (1, 1), 1));
    assert!(table.allows(0, (-1, 1), 1));
    assert!(!table.allows(0, (0, 2), 1));
    assert!(!table.allows(0, (2, 0), 0));
    assert!(!table.allows(2, (0, 0), 0));
    assert!(!table.allows(0, (0, 0), 2));
    assert!(table.allows(0, (0, 0), 0));
    assert!(!table.allows(0, (0, 0), 1));
    let row = table.row(0, 0, 1);
    assert_eq!(row.len(), 2);
    assert_eq!(row.get(0), Some(false));
    assert_eq!(row.get(1), Some(true));
}
