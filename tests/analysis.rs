use ltspice::{
    find_peaks, find_value_near_freq, first_above, index_of_max, index_of_min, keys_of,
    maximum_penalty_term, minimum_penalty_term, next_value_around, order_key, peaks_near,
    PeakType, PenaltyTerm, SimulationError,
};

fn keys(values: &[f64]) -> Vec<i64> {
    let bits: Vec<u64> = values.iter().map(|v| v.to_bits()).collect();
    keys_of(&bits)
}

#[test]
fn keys_follow_value_order() {
    let values = [-1.0e300, -2.5, -1.0, -1.0e-300, 0.0, 1.0e-300, 1.0, 2.5, 1.0e300];
    let k = keys(&values);
    for i in 1..k.len() {
        assert!(k[i - 1] < k[i]);
    }
    assert_eq!(order_key((-0.0f64).to_bits()), order_key(0.0f64.to_bits()));
    assert_eq!(order_key(0.0f64.to_bits()), 0);
    assert_eq!(order_key(1.0f64.to_bits()), 0x3ff0_0000_0000_0000);
    assert_eq!(order_key((-1.0f64).to_bits()), -0x3ff0_0000_0000_0000);
}

#[test]
fn peaks_of_two_humps() {
    let k = keys(&[0.0, 1.0, 3.0, 1.0, 0.0, 2.0, 5.0, 2.0, 0.0]);
    assert_eq!(find_peaks(&k, Some(PeakType::Maximum)), vec![2, 6]);
    assert_eq!(find_peaks(&k, Some(PeakType::Minimum)), vec![4]);
}

#[test]
fn peaks_of_alternating_series() {
    let k = keys(&[0.0, 2.0, 0.0, 3.0, 0.0]);
    assert_eq!(find_peaks(&k, Some(PeakType::Maximum)), vec![1, 3]);
    assert_eq!(find_peaks(&k, Some(PeakType::Minimum)), vec![2]);
    assert_eq!(find_peaks(&k, None), vec![1, 2, 3]);
}

#[test]
fn plateaus_and_edges_are_not_peaks() {
    let k = keys(&[5.0, 1.0, 3.0, 3.0, 1.0, 5.0]);
    assert_eq!(find_peaks(&k, Some(PeakType::Maximum)), Vec::<usize>::new());
    assert_eq!(find_peaks(&k, Some(PeakType::Minimum)), vec![1, 4]);
    assert_eq!(find_peaks(&keys(&[1.0, 2.0]), None), Vec::<usize>::new());
    assert_eq!(find_peaks(&Vec::new(), None), Vec::<usize>::new());
}

#[test]
fn extremes_take_first_occurrence() {
    let k = keys(&[1.0, 4.0, -2.0, 4.0, -2.0]);
    assert_eq!(index_of_max(&k), Some(1));
    assert_eq!(index_of_min(&k), Some(2));
    assert_eq!(index_of_max(&Vec::new()), None);
    assert_eq!(index_of_min(&Vec::new()), None);
}

#[test]
fn frequency_lookup_finds_first_at_or_above() {
    let f = keys(&[10.0, 100.0, 1000.0, 10000.0]);
    assert_eq!(find_value_near_freq(&f, order_key(500.0f64.to_bits())), Ok(2));
    assert_eq!(find_value_near_freq(&f, order_key(100.0f64.to_bits())), Ok(1));
    assert_eq!(
        find_value_near_freq(&f, order_key(20000.0f64.to_bits())),
        Err(SimulationError::FrequencyNotFound)
    );
    assert_eq!(first_above(&f, order_key(100.0f64.to_bits())), Some(2));
    assert_eq!(first_above(&f, order_key(10000.0f64.to_bits())), None);
}

/// The keys of how far each value lies beyond `values[start]`: above it when
/// `rising`, below it otherwise.
fn excess(values: &[f64], start: usize, rising: bool) -> Vec<i64> {
    let base = values[start];
    let e: Vec<f64> = values.iter().map(|v| if rising { v - base } else { base - v }).collect();
    keys(&e)
}

fn offset(x: f64) -> i64 {
    order_key(x.to_bits())
}

#[test]
fn crossings_on_either_side() {
    let values = [0.0, 9.0, 5.0, 10.0, 7.0, 6.0, 12.0, 0.0];
    // A fall of more than 2 below 10, around index 3.
    assert_eq!(next_value_around(&excess(&values, 3, false), 3, offset(2.0)), Ok((Some(2), Some(4))));
    // A rise of more than 1 above 7, around index 4.
    assert_eq!(next_value_around(&excess(&values, 4, true), 4, offset(1.0)), Ok((Some(3), Some(6))));
}

#[test]
fn crossings_reach_the_boundaries() {
    let values = [0.0, 20.0, 20.0, 20.0, 0.0];
    assert_eq!(next_value_around(&excess(&values, 2, false), 2, offset(8.0)), Ok((Some(0), Some(4))));
    let values = [10.0, 0.0, 0.0];
    assert_eq!(next_value_around(&excess(&values, 2, true), 2, offset(3.0)), Ok((Some(0), None)));
    let values = [0.0, 0.0, 10.0];
    assert_eq!(next_value_around(&excess(&values, 0, true), 0, offset(3.0)), Ok((None, Some(2))));
    let values = [1.0, 2.0, 1.0];
    assert_eq!(next_value_around(&excess(&values, 1, true), 1, offset(3.0)), Ok((None, None)));
}

#[test]
fn crossing_start_beyond_data_is_refused() {
    let values = [1.0, 2.0, 1.0];
    assert_eq!(
        next_value_around(&excess(&values, 0, true), 3, offset(3.0)),
        Err(SimulationError::IndexOutOfRange)
    );
}

#[test]
fn penalty_terms_follow_crossing_sides() {
    assert_eq!(
        maximum_penalty_term(5, Some(3), Some(8)),
        Some(PenaltyTerm { weight: 10, low: 3, high: 8, within_100_hz: false })
    );
    assert_eq!(maximum_penalty_term(5, None, Some(8)), None);
    assert_eq!(maximum_penalty_term(5, Some(3), None), None);
    assert_eq!(
        minimum_penalty_term(5, Some(3), Some(8)),
        Some(PenaltyTerm { weight: 10, low: 3, high: 8, within_100_hz: false })
    );
    assert_eq!(
        minimum_penalty_term(5, Some(3), None),
        Some(PenaltyTerm { weight: 20, low: 3, high: 5, within_100_hz: true })
    );
    assert_eq!(minimum_penalty_term(5, None, Some(8)), None);
}

#[test]
fn peaks_near_a_center() {
    assert_eq!(peaks_near(&vec![1, 3, 4, 5, 6, 9], 4), vec![3, 4, 5]);
    assert_eq!(peaks_near(&vec![0, 1, 2], 0), vec![0, 1]);
}
