use bit_vec::BitVec;
use overlapping_wfc::possibilitycell::{PossibilityCell, UNDECIDED_PIXEL};
use overlapping_wfc::grid::Grid;
use overlapping_wfc::utils::{mass_intersect, masked_weighted_choice, masked_weighted_choice_at};
use rand::rngs::StdRng;
use rand::SeedableRng;

#[test]
fn mass_intersect_empty_test() {
    let test_vec = vec![];
    let output = mass_intersect(test_vec);
    assert_eq!(output, None);
}

#[test]
fn mass_intersect_single_test() {
    let test_vec = vec![BitVec::from_elem(10, true)];
    let output = mass_intersect(test_vec);
    let result = Some(BitVec::from_elem(10, true));
    assert_eq!(output, result);
}

#[test]
fn mass_intersect_multi_test() {
    let mut test_vec = vec![];
    let test1 = BitVec::from_elem(8, true);
    let test2 = BitVec::from_bytes(&[0b11110000]);
    let test3 = BitVec::from_bytes(&[0b11110011]);
    test_vec.push(test1);
    test_vec.push(test2);
    test_vec.push(test3);
    let output = mass_intersect(test_vec);
    let result = Some(BitVec::from_bytes(&[0b11110000]));
    assert_eq!(output, result);
}

#[test]
fn mass_intersect_is_order_independent() {
    let a = BitVec::from_bytes(&[0b10101010]);
    let b = BitVec::from_bytes(&[0b11001100]);
    let c = BitVec::from_bytes(&[0b11110000]);
    let expected = Some(BitVec::from_bytes(&[0b10000000]));
    assert_eq!(mass_intersect(vec![a.clone(), b.clone(), c.clone()]), expected);
    assert_eq!(mass_intersect(vec![c, a, b]), expected);
}

fn mask(bits: &[bool]) -> BitVec {
    let mut v = BitVec::from_elem(bits.len(), false);
    for (i, b) in bits.iter().enumerate() {
        v.set(i, *b);
    }
    v
}

#[test]
fn weighted_pick_lays_weights_end_to_end() {
    let counts = [3usize, 1, 1];
    let all = mask(&[true, true, true]);
    let picks: Vec<Option<usize>> = (0..6)
        .map(|k| PossibilityCell::masked_weighted_pick(&counts, &all, k))
        .collect();
    assert_eq!(
        picks,
        vec![Some(0), Some(0), Some(0), Some(1), Some(2), None]
    );
}

#[test]
fn weighted_pick_skips_masked_indices() {
    let counts = [3usize, 5, 2, 4];
    let m = mask(&[false, true, false, true]);
    assert_eq!(PossibilityCell::masked_sum(&counts, &m), 9);
    assert_eq!(PossibilityCell::masked_weighted_pick(&counts, &m, 0), Some(1));
    assert_eq!(PossibilityCell::masked_weighted_pick(&counts, &m, 4), Some(1));
    assert_eq!(PossibilityCell::masked_weighted_pick(&counts, &m, 5), Some(3));
    assert_eq!(PossibilityCell::masked_weighted_pick(&counts, &m, 8), Some(3));
    assert_eq!(PossibilityCell::masked_weighted_pick(&counts, &m, 9), None);
}

#[test]
fn weighted_pick_passes_over_zero_weights() {
    let counts = [0usize, 2, 0, 1];
    let all = mask(&[true, true, true, true]);
    assert_eq!(PossibilityCell::masked_weighted_pick(&counts, &all, 0), Some(1));
    assert_eq!(PossibilityCell::masked_weighted_pick(&counts, &all, 1), Some(1));
    assert_eq!(PossibilityCell::masked_weighted_pick(&counts, &all, 2), Some(3));
    assert_eq!(PossibilityCell::masked_weighted_pick(&counts, &all, 3), None);
}

#[test]
fn weighted_choice_of_nothing_is_none() {
    let mut rng = StdRng::seed_from_u64(1);
    let counts = [3usize, 1];
    let none = mask(&[false, false]);
    assert_eq!(
        PossibilityCell::masked_weighted_choice(&counts, &none, &mut rng),
        None
    );
    let items: Vec<(char, usize)> = vec![('a', 3), ('b', 1)];
    assert_eq!(masked_weighted_choice(&items, &none, &mut rng), None);
}

#[test]
fn weighted_choice_on_items() {
    let items: Vec<(char, usize)> = vec![('a', 3), ('b', 1), ('c', 1)];
    let all = mask(&[true, true, true]);
    assert_eq!(masked_weighted_choice_at(&items, &all, 0), Some(0));
    assert_eq!(masked_weighted_choice_at(&items, &all, 2), Some(0));
    assert_eq!(masked_weighted_choice_at(&items, &all, 3), Some(1));
    assert_eq!(masked_weighted_choice_at(&items, &all, 4), Some(2));
    assert_eq!(masked_weighted_choice_at(&items, &all, 5), None);
    let mut rng = StdRng::seed_from_u64(7);
    for _ in 0..100 {
        let i = masked_weighted_choice(&items, &mask(&[false, true, true]), &mut rng).unwrap();
        assert!(i == 1 || i == 2);
    }
}

#[test]
fn weighted_choice_follows_the_weights() {
    let counts = [6usize, 1, 3, 10];
    let m = mask(&[true, true, true, false]);
    let mut rng = StdRng::seed_from_u64(20240229);
    let runs = 20000usize;
    let mut hits = [0usize; 4];
    for _ in 0..runs {
        let i = PossibilityCell::masked_weighted_choice(&counts, &m, &mut rng).unwrap();
        hits[i] += 1;
    }
    assert_eq!(hits[3], 0);
    let expected = [0.6f64, 0.1, 0.3];
    for i in 0..3 {
        let freq = hits[i] as f64 / runs as f64;
        assert!((freq - expected[i]).abs() < 0.02);
    }
}

#[test]
fn collapse_follows_the_weights() {
    let counts = [1usize, 3];
    let mut rng = StdRng::seed_from_u64(99);
    let runs = 8000usize;
    let mut second = 0usize;
    for _ in 0..runs {
        let mut cell = PossibilityCell::new(2);
        cell.collapse(&counts, &mut rng);
        assert!(cell.decided());
        if cell.chosen() == Some(1) {
            second += 1;
        }
    }
    let freq = second as f64 / runs as f64;
    assert!((freq - 0.75).abs() < 0.03);
}

#[test]
fn cell_starts_full() {
    let cell = PossibilityCell::new(5);
    assert_eq!(cell.possible_states.len(), 5);
    assert!(cell.possible_states.all());
    assert!(cell.consistent());
    assert!(!cell.decided());
    assert_eq!(cell.popcount(), 5);
    assert_eq!(cell.chosen(), None);
}

#[test]
fn cell_without_states_is_a_contradiction() {
    let cell = PossibilityCell::new(0);
    assert!(!cell.consistent());
    assert!(!cell.decided());
    assert_eq!(cell.live_weights(&[]), Vec::<usize>::new());
}

#[test]
fn cell_collapse_to_keeps_one_bit() {
    let counts = [2usize, 5, 1];
    let mut cell = PossibilityCell::new(3);
    cell.collapse_to(&counts, 6);
    assert_eq!(cell.possible_states, mask(&[false, true, false]));
    assert!(cell.decided());
    assert_eq!(cell.chosen(), Some(1));
    assert_eq!(cell.popcount(), 1);
    let mut other = PossibilityCell::new(3);
    other.collapse_to(&counts, 7);
    assert_eq!(other.chosen(), Some(2));
    let mut untouched = PossibilityCell::new(3);
    untouched.collapse_to(&counts, 8);
    assert_eq!(untouched.possible_states, mask(&[true, true, true]));
}

#[test]
fn cell_intersect_reports_change() {
    let mut cell = PossibilityCell::new(4);
    assert!(!cell.intersect_with(&mask(&[true, true, true, true])));
    assert!(cell.intersect_with(&mask(&[true, false, true, false])));
    assert_eq!(cell.possible_states, mask(&[true, false, true, false]));
    assert!(!cell.intersect_with(&mask(&[true, true, true, false])));
    assert!(cell.intersect_with(&mask(&[false, true, false, true])));
    assert!(!cell.consistent());
    assert_eq!(cell.popcount(), 0);
}

#[test]
fn cell_live_weights_lists_allowed_weights() {
    let mut cell = PossibilityCell::new(4);
    cell.intersect_with(&mask(&[true, false, true, true]));
    assert_eq!(cell.live_weights(&[7, 8, 9, 10]), vec![7, 9, 10]);
}

#[test]
fn cell_shows_top_left_pixel_or_sentinel() {
    let states = vec![
        Grid::from_shape_vec((2, 2), vec![11, 12, 13, 14]).unwrap(),
        Grid::from_shape_vec((2, 2), vec![21, 22, 23, 24]).unwrap(),
    ];
    let mut cell = PossibilityCell::new(2);
    assert_eq!(cell.to_output_state(&states), UNDECIDED_PIXEL);
    assert_eq!(UNDECIDED_PIXEL, (255 << 16) | 128);
    cell.intersect_with(&mask(&[false, true]));
    assert_eq!(cell.to_output_state(&states), 21);
    cell.intersect_with(&mask(&[true, false]));
    assert_eq!(cell.to_output_state(&states), UNDECIDED_PIXEL);
}

#[test]
fn lengths_of_cells_and_masks() {
    assert_eq!(PossibilityCell::new(7).len(), 7);
    assert_eq!(PossibilityCell::new(0).len(), 0);
    assert_eq!(overlapping_wfc::bitset::length(&mask(&[true, false, true])), 3);
    assert_eq!(overlapping_wfc::bitset::length(&BitVec::new()), 0);
}

#[test]
fn weights_beyond_one_word_are_summed_in_full() {
    let counts = [usize::MAX, usize::MAX, 1];
    let all = mask(&[true, true, true]);
    let word = usize::MAX as u128;
    assert_eq!(PossibilityCell::masked_sum(&counts, &all), 2 * word + 1);
    assert_eq!(PossibilityCell::masked_weighted_pick(&counts, &all, word - 1), Some(0));
    assert_eq!(PossibilityCell::masked_weighted_pick(&counts, &all, word), Some(1));
    assert_eq!(PossibilityCell::masked_weighted_pick(&counts, &all, 2 * word), Some(2));
    assert_eq!(PossibilityCell::masked_weighted_pick(&counts, &all, 2 * word + 1), None);
    let items: Vec<((), usize)> = vec![((), usize::MAX), ((), usize::MAX)];
    let both = mask(&[true, true]);
    assert_eq!(masked_weighted_choice_at(&items, &both, word), Some(1));
    assert_eq!(masked_weighted_choice_at(&items, &both, 2 * word), None);
    let mut rng = StdRng::seed_from_u64(11);
    let mut seen = [false, false, false];
    for _ in 0..200 {
        let mut cell = PossibilityCell::new(3);
        cell.collapse(&counts, &mut rng);
        assert_eq!(cell.len(), 3);
        assert_eq!(cell.popcount(), 1);
        seen[cell.chosen().unwrap()] = true;
    }
    assert!(seen[0] && seen[1]);
}

#[test]
fn collapse_keeps_one_bit_that_was_set() {
    let counts = [4usize, 1, 7, 2];
    let mut rng = StdRng::seed_from_u64(5);
    for _ in 0..100 {
        let mut cell = PossibilityCell::new(4);
        cell.intersect_with(&mask(&[false, true, true, false]));
        cell.collapse(&counts, &mut rng);
        assert_eq!(cell.len(), 4);
        assert_eq!(cell.popcount(), 1);
        let chosen = cell.chosen().unwrap();
        assert!(chosen == 1 || chosen == 2);
    }
    let mut empty = PossibilityCell::new(4);
    empty.intersect_with(&mask(&[false, false, false, false]));
    empty.collapse(&counts, &mut rng);
    assert_eq!(empty.popcount(), 0);
    assert_eq!(empty.len(), 4);
}

#[test]
fn cloned_cell_holds_the_same_bits_and_lives_on_its_own() {
    let mut cell = PossibilityCell::new(4);
    cell.intersect_with(&mask(&[true, false, true, true]));
    let copy = cell.clone();
    assert_eq!(copy, cell);
    assert_eq!(copy.possible_states, mask(&[true, false, true, true]));
    cell.intersect_with(&mask(&[false, false, true, false]));
    assert_eq!(copy.popcount(), 3);
    assert_eq!(cell.popcount(), 1);
}
