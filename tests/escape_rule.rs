use mandelbrot::escape::EscapeState;

/// Runs the escape rule on the orbit of `c = cr + ci i` in double precision.
fn escape_count(cr: f64, ci: f64, max_iterations: u16) -> u16 {
    let mut state = EscapeState::start(max_iterations);
    let (mut zr, mut zi) = (cr, ci);
    while let EscapeState::Pending { .. } = state {
        state = state.step(max_iterations, zr * zr + zi * zi >= 4.0);
        let next_re = zr * zr - zi * zi + cr;
        zi = zr * zi + zi * zr + ci;
        zr = next_re;
    }
    state.count().unwrap()
}

#[test]
fn zero_budget_is_done_at_once() {
    assert_eq!(EscapeState::start(0), EscapeState::Done { count: 0 });
    assert_eq!(EscapeState::start(0).count(), Some(0));
}

#[test]
fn positive_budget_starts_with_first_iterate() {
    assert_eq!(EscapeState::start(1), EscapeState::Pending { iteration: 0 });
    assert_eq!(EscapeState::start(256), EscapeState::Pending { iteration: 0 });
    assert_eq!(EscapeState::start(256).count(), None);
}

#[test]
fn hit_reports_index_of_tested_iterate() {
    let s = EscapeState::Pending { iteration: 4 };
    assert_eq!(s.step(10, true), EscapeState::Done { count: 4 });
}

#[test]
fn miss_moves_to_next_iterate() {
    let s = EscapeState::Pending { iteration: 4 };
    assert_eq!(s.step(10, false), EscapeState::Pending { iteration: 5 });
}

#[test]
fn miss_on_last_iterate_saturates_at_budget() {
    let s = EscapeState::Pending { iteration: 9 };
    assert_eq!(s.step(10, false), EscapeState::Done { count: 10 });
    assert_eq!(EscapeState::start(1).step(1, false), EscapeState::Done { count: 1 });
}

#[test]
fn largest_budget_saturates() {
    assert_eq!(escape_count(0.0, 0.0, u16::MAX), u16::MAX);
}

#[test]
fn origin_never_escapes() {
    for max in [1u16, 2, 7, 50, 256] {
        assert_eq!(escape_count(0.0, 0.0, max), max);
    }
}

#[test]
fn three_escapes_on_first_test() {
    for max in [1u16, 2, 7, 50, 256] {
        assert_eq!(escape_count(3.0, 0.0, max), 0);
    }
}

#[test]
fn zero_budget_gives_zero_for_any_sample() {
    for (re, im) in [(0.0, 0.0), (3.0, 0.0), (-0.75, 0.1), (-2.5, 1.5)] {
        assert_eq!(escape_count(re, im, 0), 0);
    }
}

#[test]
fn orbits_on_the_boundary_circle() {
    // -2 lies on the circle of radius 2, which already counts as escaped.
    assert_eq!(escape_count(-2.0, 0.0, 50), 0);
    // 1 -> 2: iterate 1 reaches the circle.
    assert_eq!(escape_count(1.0, 0.0, 50), 1);
    // i -> -1 + i -> -i -> -1 + i: bounded, saturates.
    assert_eq!(escape_count(0.0, 1.0, 50), 50);
}
