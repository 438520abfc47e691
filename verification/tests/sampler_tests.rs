use fnplot::label::synthesize_label;
use fnplot::sampler::{candidate_indices, filter_points, Sampler};

fn in_display_range(y: f64, y_min: f64, y_max: f64) -> bool {
    y_min <= y && y < y_max
}

#[test]
fn candidate_count_and_spacing() {
    let indices = candidate_indices(1500);
    assert_eq!(indices.len(), 1501);
    for (k, i) in indices.iter().enumerate() {
        assert_eq!(*i, k);
    }
}

#[test]
fn single_interval_has_two_candidates() {
    let indices = candidate_indices(1);
    assert_eq!(indices, vec![0, 1]);
}

#[test]
fn all_in_range_points_are_retained() {
    let mut points: Vec<(f64, f64)> = Vec::new();
    let mut verdicts: Vec<bool> = Vec::new();
    for i in candidate_indices(1500) {
        let x = (i as f64 / 1500.0).mul_add(10.0 - (-10.0), -10.0);
        let y = 0.0_f64;
        points.push((x, y));
        verdicts.push(in_display_range(y, -10.0, 50.0));
    }
    let kept = filter_points(&points, &verdicts);
    assert_eq!(kept.len(), 1501);
    assert_eq!(kept, points);
    for (x, y) in &kept {
        assert!(*x >= -10.0 && *x <= 10.0);
        assert_eq!(*y, 0.0);
    }
}

#[test]
fn out_of_range_points_are_dropped_in_order() {
    let points = vec![(0.0, 5.0), (1.0, 100.0), (2.0, -3.0), (3.0, 7.0)];
    let verdicts: Vec<bool> = points
        .iter()
        .map(|(_, y)| in_display_range(*y, 0.0, 10.0))
        .collect();
    let kept = filter_points(&points, &verdicts);
    assert_eq!(kept, vec![(0.0, 5.0), (3.0, 7.0)]);
}

#[test]
fn nan_and_infinite_values_are_dropped() {
    let points = vec![(0.0, f64::NAN), (1.0, f64::INFINITY), (2.0, 1.0)];
    let verdicts: Vec<bool> = points
        .iter()
        .map(|(_, y)| in_display_range(*y, 0.0, 10.0))
        .collect();
    let kept = filter_points(&points, &verdicts);
    assert_eq!(kept, vec![(2.0, 1.0)]);
}

#[test]
fn upper_bound_is_exclusive_lower_inclusive() {
    let points = vec![(0.0, 0.0), (1.0, 10.0), (2.0, 9.999)];
    let verdicts: Vec<bool> = points
        .iter()
        .map(|(_, y)| in_display_range(*y, 0.0, 10.0))
        .collect();
    let kept = filter_points(&points, &verdicts);
    assert_eq!(kept, vec![(0.0, 0.0), (2.0, 9.999)]);
}

#[test]
fn sampler_walks_every_candidate_once() {
    let mut sampler: Sampler<(f64, f64)> = Sampler::new(3);
    let mut seen: Vec<usize> = Vec::new();
    while let Some(i) = sampler.next_index() {
        seen.push(i);
        sampler.record((i as f64, 0.0), true);
    }
    assert_eq!(seen, vec![0, 1, 2, 3]);
    assert_eq!(sampler.next_index(), None);
    assert_eq!(sampler.retained().len(), 4);
}

#[test]
fn sampler_retains_in_candidate_order() {
    let mut sampler: Sampler<(f64, f64)> = Sampler::new(4);
    let ys = [5.0, 100.0, -3.0, 7.0, f64::NAN];
    while let Some(i) = sampler.next_index() {
        let point = (i as f64, ys[i]);
        sampler.record(point, in_display_range(ys[i], 0.0, 10.0));
    }
    assert_eq!(sampler.retained(), &vec![(0.0, 5.0), (3.0, 7.0)]);
}

#[test]
fn constant_zero_scenario() {
    let f = |_x: f64| 0.0_f64;
    let (x_min, x_max) = (-10.0, 10.0);
    let (y_min, y_max) = (-10.0, 50.0);
    let n: usize = 1500;

    let mut sampler: Sampler<(f64, f64)> = Sampler::new(n);
    while let Some(i) = sampler.next_index() {
        let x = (i as f64 / n as f64).mul_add(x_max - x_min, x_min);
        let y = f(x);
        sampler.record((x, y), in_display_range(y, y_min, y_max));
    }

    let points = sampler.retained();
    assert_eq!(points.len(), 1501);
    let mut previous_x = f64::NEG_INFINITY;
    for (x, y) in points {
        assert!(*x > previous_x);
        previous_x = *x;
        assert_eq!(*y, 0.0);
    }
    assert_eq!(points[0].0, -10.0);
    assert_eq!(points[1500].0, 10.0);

    let expr: Vec<char> = "|x| 0.0".chars().collect();
    let label: String = synthesize_label(&expr, &Vec::new()).iter().collect();
    assert_eq!(label, "y = 0.0");
}
