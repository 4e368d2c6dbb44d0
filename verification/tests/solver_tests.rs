use bit_vec::BitVec;
use overlapping_wfc::grid::Grid;
use overlapping_wfc::offset::Offset2D;
use overlapping_wfc::overlappingmodel::{ModelError, OverlappingModel};
use overlapping_wfc::possibilitycell::UNDECIDED_PIXEL;
use overlapping_wfc::wave::Wave;
use rand::rngs::StdRng;
use rand::{RngExt, SeedableRng};

const A: usize = 10;
const B: usize = 20;
const C: usize = 30;

fn grid(shape: (usize, usize), data: Vec<usize>) -> Grid {
    Grid::from_shape_vec(shape, data).unwrap()
}

fn entropy(weights: &[usize]) -> Option<f64> {
    if weights.is_empty() {
        return None;
    }
    if weights.len() == 1 {
        return Some(0.);
    }
    let total: f64 = weights.iter().map(|w| *w as f64).sum();
    let sum: f64 = weights
        .iter()
        .map(|w| {
            let x = *w as f64 / total;
            x * x.ln()
        })
        .sum();
    Some(-sum)
}

fn keys(model: &OverlappingModel, rng: &mut StdRng) -> Vec<Vec<Option<u64>>> {
    let (h, w) = model.dim();
    let mut out = Vec::new();
    for y in 0..h {
        let mut row = Vec::new();
        for x in 0..w {
            let live = model.cell(y, x).live_weights(model.state_counts());
            let key = match entropy(&live) {
                Some(u) if u > 0. => {
                    let noised = u + rng.random::<f64>();
                    if noised.is_nan() {
                        None
                    } else {
                        Some(noised.to_bits())
                    }
                }
                _ => Some(0),
            };
            row.push(key);
        }
        out.push(row);
    }
    out
}

fn flat_keys(model: &OverlappingModel, key: Option<u64>) -> Vec<Vec<Option<u64>>> {
    let (h, w) = model.dim();
    vec![vec![key; w]; h]
}

fn snapshot(model: &OverlappingModel) -> Vec<Vec<BitVec>> {
    let (h, w) = model.dim();
    (0..h)
        .map(|y| {
            (0..w)
                .map(|x| model.cell(y, x).possible_states.clone())
                .collect()
        })
        .collect()
}

fn is_subset(a: &BitVec, b: &BitVec) -> bool {
    a.len() == b.len() && a.iter().zip(b.iter()).all(|(p, q)| !p || q)
}

fn narrowed(after: &Vec<Vec<BitVec>>, before: &Vec<Vec<BitVec>>) -> bool {
    after.len() == before.len()
        && after.iter().zip(before.iter()).all(|(ra, rb)| {
            ra.len() == rb.len() && ra.iter().zip(rb.iter()).all(|(a, b)| is_subset(a, b))
        })
}

fn run(model: &mut OverlappingModel, rng: &mut StdRng) -> Result<(), ModelError> {
    loop {
        let before = snapshot(model);
        let k = keys(model, rng);
        let step = model.collapse_and_propagate(&k, rng);
        assert!(narrowed(&snapshot(model), &before));
        match step {
            Ok(None) => return Ok(()),
            Ok(Some(c)) => {
                assert!(model.cell(c.0, c.1).decided());
            }
            Err(e) => return Err(e),
        }
    }
}

fn locally_consistent(model: &OverlappingModel) -> bool {
    let (h, w) = model.dim();
    let n = model.state_size() as isize;
    let p = model.num_states();
    let table = model.compatibility_map();
    for y in 0..h {
        for x in 0..w {
            for dy in (1 - n)..n {
                for dx in (1 - n)..n {
                    let ty = y as isize + dy;
                    let tx = x as isize + dx;
                    if !model.valid_coord((ty, tx)) {
                        continue;
                    }
                    let here = &model.cell(y, x).possible_states;
                    let there = &model.cell(ty as usize, tx as usize).possible_states;
                    for i in 0..p {
                        if here.get(i) == Some(true) {
                            let supported = (0..p).any(|j| {
                                there.get(j) == Some(true) && table.allows(i, (dy, dx), j)
                            });
                            if !supported {
                                return false;
                            }
                        }
                    }
                }
            }
        }
    }
    true
}

fn windows_are_patterns(model: &OverlappingModel) -> bool {
    let out = model.to_pixels().to_rows();
    let (h, w) = model.dim();
    let n = model.state_size();
    let table: Vec<Vec<Vec<usize>>> = model.states().iter().map(|g| g.to_rows()).collect();
    for y in 0..(h + 1 - n) {
        for x in 0..(w + 1 - n) {
            let window: Vec<Vec<usize>> = (0..n)
                .map(|dy| (0..n).map(|dx| out[y + dy][x + dx]).collect())
                .collect();
            if !table.contains(&window) {
                return false;
            }
        }
    }
    true
}

fn checkerboard(h: usize, w: usize) -> Grid {
    let mut data = Vec::new();
    for y in 0..h {
        for x in 0..w {
            data.push(if (y + x) % 2 == 0 { A } else { B });
        }
    }
    grid((h, w), data)
}

#[test]
fn monochrome_seed_fills_the_output() {
    let seed = grid((2, 2), vec![A, A, A, A]);
    let mut model = OverlappingModel::from_seed_image(&seed, (5, 5), 2, false).unwrap();
    assert_eq!(model.num_states(), 1);
    assert_eq!(model.state_counts(), &vec![1]);
    let mut rng = StdRng::seed_from_u64(3);
    assert_eq!(run(&mut model, &mut rng), Ok(()));
    assert_eq!(model.to_pixels().to_rows(), vec![vec![A; 5]; 5]);
    assert_eq!(model.first_contradiction(), None);
}

#[test]
fn monochrome_seed_of_three_by_three_has_weight_four() {
    let seed = grid((3, 3), vec![A; 9]);
    let model = OverlappingModel::from_seed_image(&seed, (5, 5), 2, false).unwrap();
    assert_eq!(model.num_states(), 1);
    assert_eq!(model.state_counts(), &vec![4]);
}

#[test]
fn checkerboard_seed_gives_a_checkerboard() {
    let seed = checkerboard(4, 4);
    for s in 0..20u64 {
        let mut model = OverlappingModel::from_seed_image(&seed, (6, 6), 2, false).unwrap();
        assert_eq!(model.num_states(), 2);
        assert_eq!(model.state_counts(), &vec![5, 4]);
        let mut rng = StdRng::seed_from_u64(s);
        assert_eq!(run(&mut model, &mut rng), Ok(()));
        let out = model.to_pixels().to_rows();
        let first = out[0][0];
        assert!(first == A || first == B);
        let other = if first == A { B } else { A };
        for y in 0..6 {
            for x in 0..6 {
                let expected = if (y + x) % 2 == 0 { first } else { other };
                assert_eq!(out[y][x], expected);
            }
        }
        for y in 0..6 {
            for x in 0..6 {
                assert!(model.cell(y, x).decided());
            }
        }
        assert!(locally_consistent(&model));
        assert!(windows_are_patterns(&model));
    }
}

#[test]
fn checkerboard_comes_out_in_both_phases() {
    let seed = checkerboard(4, 4);
    let mut seen_a = false;
    let mut seen_b = false;
    for s in 0..40u64 {
        let mut model = OverlappingModel::from_seed_image(&seed, (6, 6), 2, false).unwrap();
        let mut rng = StdRng::seed_from_u64(s);
        run(&mut model, &mut rng).unwrap();
        let first = model.to_pixels().to_rows()[0][0];
        seen_a = seen_a || first == A;
        seen_b = seen_b || first == B;
    }
    assert!(seen_a && seen_b);
}

#[test]
fn impossible_extension_is_a_contradiction() {
    let seed = grid((2, 3), vec![A, B, C, A, B, C]);
    for s in 0..10u64 {
        let mut model = OverlappingModel::from_seed_image(&seed, (2, 5), 2, false).unwrap();
        assert_eq!(model.num_states(), 2);
        let mut rng = StdRng::seed_from_u64(s);
        match run(&mut model, &mut rng) {
            Err(ModelError::NoValidStates((y, x))) => {
                assert!(y < 2 && x < 5);
                assert!(!model.cell(y, x).consistent());
                assert!(model.first_contradiction().is_some());
                let picture = model.to_pixels().to_rows();
                assert_eq!(picture[y][x], UNDECIDED_PIXEL);
                let decided = picture
                    .iter()
                    .flatten()
                    .filter(|p| **p != UNDECIDED_PIXEL)
                    .count();
                assert!(decided >= 1);
            }
            other => panic!("{:?}", other),
        }
    }
}

#[test]
fn noise_breaks_entropy_ties() {
    let seed = grid((3, 3), vec![1, 2, 3, 4, 5, 6, 7, 8, 9]);
    let model = OverlappingModel::from_seed_image(&seed, (4, 4), 2, false).unwrap();
    assert!(model.state_counts().iter().all(|w| *w == 1));
    let plain = flat_keys(&model, Some(17));
    assert_eq!(
        model.find_lowest_nonzero_entropy_coordinates(&plain),
        Ok((0, 0))
    );
    let mut chosen = Vec::new();
    for s in 0..30u64 {
        let mut rng = StdRng::seed_from_u64(s);
        let k = keys(&model, &mut rng);
        let c = model.find_lowest_nonzero_entropy_coordinates(&k).unwrap();
        assert_eq!(model.cell(c.0, c.1).popcount(), 4);
        if !chosen.contains(&c) {
            chosen.push(c);
        }
    }
    assert!(chosen.len() > 1);
}

#[test]
fn choice_takes_least_key_and_first_among_equals() {
    let seed = checkerboard(4, 4);
    let model = OverlappingModel::from_seed_image(&seed, (2, 3), 2, false).unwrap();
    let k = vec![
        vec![Some(9), Some(4), Some(7)],
        vec![Some(4), Some(3), Some(3)],
    ];
    assert_eq!(model.find_lowest_nonzero_entropy_coordinates(&k), Ok((1, 1)));
    let k = vec![
        vec![Some(9), Some(2), Some(7)],
        vec![Some(2), Some(3), Some(3)],
    ];
    assert_eq!(model.find_lowest_nonzero_entropy_coordinates(&k), Ok((0, 1)));
    let k = vec![
        vec![Some(u64::MAX), Some(u64::MAX), Some(u64::MAX)],
        vec![Some(u64::MAX), Some(u64::MAX), Some(u64::MAX)],
    ];
    assert_eq!(model.find_lowest_nonzero_entropy_coordinates(&k), Ok((0, 0)));
}

#[test]
fn choice_ignores_decided_sites() {
    let seed = checkerboard(4, 4);
    let mut model = OverlappingModel::from_seed_image(&seed, (1, 3), 2, false).unwrap();
    assert_eq!(model.collapse_to((0, 1), 0), Some(0));
    let k = vec![vec![Some(5), None, Some(4)]];
    assert_eq!(model.find_lowest_nonzero_entropy_coordinates(&k), Ok((0, 2)));
}

#[test]
fn choice_reports_missing_key() {
    let seed = checkerboard(4, 4);
    let model = OverlappingModel::from_seed_image(&seed, (2, 2), 2, false).unwrap();
    let k = vec![vec![Some(1), Some(0)], vec![None, Some(0)]];
    assert_eq!(
        model.find_lowest_nonzero_entropy_coordinates(&k),
        Err(ModelError::UnexpectedNaN((1, 0)))
    );
    let mut model = model;
    let mut rng = StdRng::seed_from_u64(1);
    let before = snapshot(&model);
    assert_eq!(
        model.collapse_and_propagate(&k, &mut rng),
        Err(ModelError::UnexpectedNaN((1, 0)))
    );
    assert_eq!(snapshot(&model), before);
}

#[test]
fn choice_reports_first_contradiction() {
    let seed = grid((2, 3), vec![A, B, C, A, B, C]);
    let mut model = OverlappingModel::from_seed_image(&seed, (1, 4), 2, false).unwrap();
    assert_eq!(
        model.observe((0, 0), 1),
        Err(ModelError::NoValidStates((0, 1)))
    );
    let k = flat_keys(&model, None);
    assert_eq!(
        model.find_lowest_nonzero_entropy_coordinates(&k),
        Err(ModelError::NoValidStates((0, 1)))
    );
    let mut rng = StdRng::seed_from_u64(5);
    assert_eq!(
        model.collapse_and_propagate(&k, &mut rng),
        Err(ModelError::NoValidStates((0, 1)))
    );
}

#[test]
fn choice_reports_all_decided() {
    let seed = grid((2, 2), vec![A, A, A, A]);
    let mut model = OverlappingModel::from_seed_image(&seed, (3, 3), 2, false).unwrap();
    let k = flat_keys(&model, Some(0));
    assert_eq!(
        model.find_lowest_nonzero_entropy_coordinates(&k),
        Err(ModelError::AllStatesDecided)
    );
    let mut rng = StdRng::seed_from_u64(5);
    assert_eq!(model.collapse_and_propagate(&k, &mut rng), Ok(None));
}

#[test]
fn observe_is_determined_by_the_choice() {
    let seed = checkerboard(4, 4);
    let mut model = OverlappingModel::from_seed_image(&seed, (3, 3), 2, false).unwrap();
    assert_eq!(model.state_counts(), &vec![5, 4]);
    assert_eq!(model.observe((1, 1), 5), Ok(Some((1, 1))));
    for y in 0..3 {
        for x in 0..3 {
            let expected = if (y + x) % 2 == 0 { 1 } else { 0 };
            assert_eq!(model.cell(y, x).chosen(), Some(expected));
        }
    }
    let mut other = OverlappingModel::from_seed_image(&seed, (3, 3), 2, false).unwrap();
    assert_eq!(other.observe((1, 1), 4), Ok(Some((1, 1))));
    assert_eq!(other.cell(1, 1).chosen(), Some(0));
    assert_eq!(other.cell(0, 1).chosen(), Some(1));
    let mut third = OverlappingModel::from_seed_image(&seed, (3, 3), 2, false).unwrap();
    let before = snapshot(&third);
    assert_eq!(third.observe((1, 1), 9), Ok(Some((1, 1))));
    assert_eq!(snapshot(&third), before);
}

#[test]
fn collapse_to_marks_the_site_only() {
    let seed = checkerboard(4, 4);
    let mut model = OverlappingModel::from_seed_image(&seed, (3, 3), 2, false).unwrap();
    assert_eq!(model.collapse_to((2, 0), 7), Some(1));
    for y in 0..3 {
        for x in 0..3 {
            let expected = if (y, x) == (2, 0) { 1 } else { 2 };
            assert_eq!(model.cell(y, x).popcount(), expected);
        }
    }
    assert_eq!(model.collapse_to((0, 0), 9), None);
    assert_eq!(model.cell(0, 0).popcount(), 2);
}

#[test]
fn pick_a_point_decides_an_allowed_pattern() {
    let seed = grid((3, 3), vec![1, 2, 3, 4, 5, 6, 7, 8, 9]);
    for s in 0..20u64 {
        let mut model = OverlappingModel::from_seed_image(&seed, (3, 3), 2, false).unwrap();
        let mut rng = StdRng::seed_from_u64(s);
        let i = model.pick_a_point_and_collapse((1, 2), &mut rng).unwrap();
        assert!(i < 4);
        assert_eq!(model.cell(1, 2).chosen(), Some(i));
        assert_eq!(model.cell(0, 0).popcount(), 4);
    }
}

#[test]
fn propagation_reaches_quiescence_and_is_idempotent() {
    let seed = grid(
        (4, 5),
        vec![1, 2, 2, 3, 1, 1, 1, 2, 3, 3, 2, 1, 1, 1, 3, 3, 2, 1, 2, 2],
    );
    let mut model = OverlappingModel::from_seed_image(&seed, (5, 5), 2, true).unwrap();
    let untouched = snapshot(&model);
    assert_eq!(model.propagate_changes(), None);
    assert_eq!(snapshot(&model), untouched);
    model.collapse_to((2, 2), 3).unwrap();
    let collapsed = snapshot(&model);
    assert_eq!(model.propagate_changes(), None);
    let once = snapshot(&model);
    assert!(narrowed(&once, &collapsed));
    assert_ne!(once, collapsed);
    model.enqueue((2, 2));
    assert_eq!(model.propagate_changes(), None);
    assert_eq!(snapshot(&model), once);
    for y in 0..5 {
        for x in 0..5 {
            model.enqueue((y, x));
        }
    }
    assert_eq!(model.propagate_changes(), None);
    let all = snapshot(&model);
    assert!(narrowed(&all, &once));
    assert!(locally_consistent(&model));
    assert_eq!(model.propagate_changes(), None);
    assert_eq!(snapshot(&model), all);
}

#[test]
fn update_from_a_site_narrows_its_neighbourhood() {
    let seed = grid((2, 3), vec![A, B, C, A, B, C]);
    let mut model = OverlappingModel::from_seed_image(&seed, (1, 5), 2, false).unwrap();
    model.collapse_to((0, 2), 0).unwrap();
    assert_eq!(model.update_states_from_position((0, 2)), Some((0, 1)));
    assert_eq!(model.cell(0, 0).popcount(), 2);
    assert_eq!(model.cell(0, 1).popcount(), 0);
    assert_eq!(model.cell(0, 2).chosen(), Some(0));
    assert_eq!(model.cell(0, 3).chosen(), Some(1));
    assert_eq!(model.cell(0, 4).popcount(), 2);
}

#[test]
fn permitted_states_are_the_union_of_rows() {
    let seed = grid((2, 3), vec![A, B, C, A, B, C]);
    let mut model = OverlappingModel::from_seed_image(&seed, (1, 5), 2, false).unwrap();
    let right = model.states_permitted_from_position_by_offset((0, 2), Offset2D(0, 1));
    assert_eq!(right.get(0), Some(false));
    assert_eq!(right.get(1), Some(true));
    let left = model.states_permitted_from_position_by_offset((0, 2), Offset2D(0, -1));
    assert_eq!(left.get(0), Some(true));
    assert_eq!(left.get(1), Some(false));
    let here = model.states_permitted_from_position_by_offset((0, 2), Offset2D(0, 0));
    assert_eq!(here.get(0), Some(true));
    assert_eq!(here.get(1), Some(true));
    model.collapse_to((0, 2), 1).unwrap();
    let right = model.states_permitted_from_position_by_offset((0, 2), Offset2D(0, 1));
    assert!(right.none());
}

#[test]
fn drain_stops_at_the_first_contradiction() {
    let seed = grid((2, 3), vec![A, B, C, A, B, C]);
    let mut model = OverlappingModel::from_seed_image(&seed, (1, 5), 2, false).unwrap();
    model.collapse_to((0, 2), 0).unwrap();
    assert_eq!(model.propagate_changes(), Some((0, 1)));
    assert_eq!(model.cell(0, 0).popcount(), 2);
    assert_eq!(model.cell(0, 1).popcount(), 0);
    assert_eq!(model.cell(0, 2).chosen(), Some(0));
    assert_eq!(model.cell(0, 3).chosen(), Some(1));
    assert_eq!(model.cell(0, 4).popcount(), 2);
    assert_eq!(model.first_contradiction(), Some((0, 1)));
    assert_eq!(
        model.to_pixels().to_rows(),
        vec![vec![UNDECIDED_PIXEL, UNDECIDED_PIXEL, A, B, UNDECIDED_PIXEL]]
    );
}

#[test]
fn propagation_without_support_far_away_stays_put() {
    let seed = grid((2, 3), vec![A, A, B, A, A, B]);
    let mut model = OverlappingModel::from_seed_image(&seed, (2, 4), 2, false).unwrap();
    assert_eq!(model.num_states(), 2);
    assert_eq!(model.observe((0, 0), 0), Ok(Some((0, 0))));
    assert_eq!(model.cell(0, 0).chosen(), Some(0));
    assert_eq!(model.cell(0, 1).popcount(), 2);
    assert!(!locally_consistent(&model));
}

#[test]
fn single_pattern_that_disagrees_with_itself() {
    let seed = grid((2, 2), vec![1, 2, 3, 4]);
    let mut model = OverlappingModel::from_seed_image(&seed, (3, 3), 2, false).unwrap();
    let mut rng = StdRng::seed_from_u64(0);
    assert_eq!(run(&mut model, &mut rng), Ok(()));
    assert_eq!(model.to_pixels().to_rows(), vec![vec![1; 3]; 3]);
    assert!(!windows_are_patterns(&model));
}

#[test]
fn successful_runs_are_consistent_and_contained() {
    let seed = grid(
        (4, 5),
        vec![1, 2, 2, 3, 1, 1, 1, 2, 3, 3, 2, 1, 1, 1, 3, 3, 2, 1, 2, 2],
    );
    let mut successes = 0;
    for s in 0..40u64 {
        let mut model = OverlappingModel::from_seed_image(&seed, (6, 7), 2, true).unwrap();
        assert!(model.num_states() >= 2);
        let mut rng = StdRng::seed_from_u64(s);
        match run(&mut model, &mut rng) {
            Ok(()) => {
                successes += 1;
                for y in 0..6 {
                    for x in 0..7 {
                        assert_eq!(model.cell(y, x).popcount(), 1);
                    }
                }
                assert!(locally_consistent(&model));
                assert!(windows_are_patterns(&model));
            }
            Err(ModelError::NoValidStates((y, x))) => {
                assert!(!model.cell(y, x).consistent());
                assert!(model.first_contradiction().is_some());
            }
            Err(e) => panic!("{:?}", e),
        }
    }
    assert!(successes > 0);
}

#[test]
fn same_seed_gives_the_same_picture() {
    let seed = grid(
        (4, 5),
        vec![1, 2, 2, 3, 1, 1, 1, 2, 3, 3, 2, 1, 1, 1, 3, 3, 2, 1, 2, 2],
    );
    let mut pictures = Vec::new();
    for _ in 0..2 {
        let mut model = OverlappingModel::from_seed_image(&seed, (5, 5), 2, true).unwrap();
        let mut rng = StdRng::seed_from_u64(1234);
        let outcome = run(&mut model, &mut rng);
        pictures.push((outcome, model.to_pixels().to_rows()));
    }
    assert_eq!(pictures[0], pictures[1]);
}

#[test]
fn picture_of_a_fresh_wave_is_undecided() {
    let seed = checkerboard(4, 4);
    let model = OverlappingModel::from_seed_image(&seed, (2, 3), 2, false).unwrap();
    let picture = model.to_pixels();
    assert_eq!(picture.dim(), (2, 3));
    assert_eq!(picture.to_rows(), vec![vec![UNDECIDED_PIXEL; 3]; 2]);
}

#[test]
fn valid_coord_checks_both_axes() {
    let seed = checkerboard(4, 4);
    let model = OverlappingModel::from_seed_image(&seed, (2, 3), 2, false).unwrap();
    assert!(model.valid_coord((0, 0)));
    assert!(model.valid_coord((1, 2)));
    assert!(!model.valid_coord((2, 0)));
    assert!(!model.valid_coord((0, 3)));
    assert!(!model.valid_coord((-1, 0)));
    assert!(!model.valid_coord((0, -1)));
}

#[test]
fn wave_cells_are_addressed_by_row_and_column() {
    let mut wave = Wave::new(2, 3, 4).unwrap();
    assert_eq!(wave.dim(), (2, 3));
    let mut mask = BitVec::from_elem(4, true);
    mask.set(2, false);
    assert!(wave.cell_mut(1, 2).intersect_with(&mask));
    for y in 0..2 {
        for x in 0..3 {
            let expected = if (y, x) == (1, 2) { 3 } else { 4 };
            assert_eq!(wave.cell(y, x).popcount(), expected);
        }
    }
    assert!(Wave::new(usize::MAX, 2, 1).is_none());
    assert_eq!(Wave::new(0, 3, 1).unwrap().dim(), (0, 3));
}

#[test]
fn patterns_of_side_one_do_not_constrain() {
    let seed = grid((2, 2), vec![A, B, C, A]);
    let mut model = OverlappingModel::from_seed_image(&seed, (3, 4), 1, false).unwrap();
    assert_eq!(model.num_states(), 3);
    assert_eq!(model.state_counts(), &vec![2, 1, 1]);
    assert_eq!(model.observe((1, 1), 2), Ok(Some((1, 1))));
    assert_eq!(model.cell(1, 1).chosen(), Some(1));
    for y in 0..3 {
        for x in 0..4 {
            if (y, x) != (1, 1) {
                assert_eq!(model.cell(y, x).popcount(), 3);
            }
        }
    }
    let mut rng = StdRng::seed_from_u64(8);
    assert_eq!(run(&mut model, &mut rng), Ok(()));
    let out = model.to_pixels().to_rows();
    assert_eq!(out[1][1], B);
    assert!(out.iter().flatten().all(|p| *p == A || *p == B || *p == C));
}

#[test]
fn larger_patterns_on_a_larger_wave() {
    let mut data = Vec::new();
    for y in 0..8usize {
        for x in 0..8usize {
            data.push(if (x / 2 + y / 2) % 2 == 0 { A } else { B });
        }
    }
    let seed = grid((8, 8), data);
    let mut finished = 0;
    for s in 0..6u64 {
        let mut model = OverlappingModel::from_seed_image(&seed, (12, 12), 3, true).unwrap();
        let mut rng = StdRng::seed_from_u64(s);
        match run(&mut model, &mut rng) {
            Ok(()) => {
                finished += 1;
                assert!(locally_consistent(&model));
                assert!(windows_are_patterns(&model));
            }
            Err(ModelError::NoValidStates((y, x))) => {
                assert!(!model.cell(y, x).consistent());
            }
            Err(e) => panic!("{:?}", e),
        }
    }
    assert!(finished > 0);
}

#[test]
fn update_reports_the_first_site_emptied_in_reading_order() {
    let seed = grid((2, 3), vec![A, B, C, A, B, C]);
    let mut model = OverlappingModel::from_seed_image(&seed, (2, 5), 2, false).unwrap();
    model.collapse_to((0, 2), 0).unwrap();
    assert_eq!(model.update_states_from_position((0, 2)), Some((0, 1)));
    assert_eq!(model.cell(0, 1).popcount(), 0);
    assert_eq!(model.cell(1, 1).popcount(), 0);
    assert_eq!(model.cell(0, 3).chosen(), Some(1));
    assert_eq!(model.cell(1, 2).chosen(), Some(0));
    assert_eq!(model.cell(1, 3).chosen(), Some(1));
    assert_eq!(model.cell(0, 0).popcount(), 2);
    assert_eq!(model.cell(1, 4).popcount(), 2);
    assert_eq!(model.first_contradiction(), Some((0, 1)));
}

#[test]
fn update_from_a_site_that_is_not_dirty() {
    let seed = checkerboard(4, 4);
    let mut model = OverlappingModel::from_seed_image(&seed, (3, 3), 2, false).unwrap();
    let before = snapshot(&model);
    assert_eq!(model.update_states_from_position((1, 1)), None);
    assert_eq!(snapshot(&model), before);
    assert_eq!(model.propagate_changes(), None);
    assert_eq!(snapshot(&model), before);
}
