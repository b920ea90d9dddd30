use genetic::{train, Individual};
use std::cell::Cell;
use std::sync::atomic::{AtomicU64, Ordering};

static STATE: AtomicU64 = AtomicU64::new(0x9E37_79B9_7F4A_7C15);

/// The next number of a fixed pseudo-random sequence, uniform in `[0, 1)`.
fn next_unit() -> f32 {
    let next = STATE
        .load(Ordering::Relaxed)
        .wrapping_mul(6364136223846793005)
        .wrapping_add(1442695040888963407);
    STATE.store(next, Ordering::Relaxed);
    (next >> 40) as f32 / 16_777_216.0
}

/// Maps a loss to an integer that orders as the loss does.
fn loss_key(loss: f32) -> u64 {
    assert!(!loss.is_nan());
    let bits = (loss + 0.0).to_bits();
    let ordered = if bits & 0x8000_0000 != 0 { !bits } else { bits | 0x8000_0000 };
    ordered as u64
}

#[derive(Debug, Clone)]
struct Line {
    slope: f32,
    intercept: f32,
    step: f32,
}

impl Individual for Line {
    fn reproduce(&self, other: &Self) -> Self {
        Line {
            slope: (self.slope + other.slope) / 2.0,
            intercept: (self.intercept + other.intercept) / 2.0,
            step: (self.step + other.step) / 2.0,
        }
    }

    fn make_random() -> Self {
        Line { slope: next_unit(), intercept: next_unit(), step: 4.0 }
    }

    fn mutate(&mut self) {
        self.slope += (2.0 * next_unit() - 1.0) * self.step;
        self.intercept += (2.0 * next_unit() - 1.0) * self.step;
        self.step *= 0.85;
    }
}

fn mean_squared_error(line: &Line, points: &[(f32, f32)]) -> f32 {
    let mut total = 0.0;
    for (x, y) in points {
        let predicted = x * line.slope + line.intercept;
        total += (predicted - y) * (predicted - y);
    }
    total / points.len() as f32
}

#[test]
fn loss_keys_order_as_losses_do() {
    let losses =
        [f32::NEG_INFINITY, -3.5, -0.0, 0.0, 1.0e-30, 0.01, 0.1, 1.0, 7.25, 3.0e38, f32::INFINITY];
    for a in losses {
        for b in losses {
            assert_eq!(a <= b, loss_key(a) <= loss_key(b), "{} and {}", a, b);
        }
    }
}

#[test]
fn line_through_noiseless_points_is_found() {
    let points: Vec<(f32, f32)> = (0..10).map(|x| (x as f32, 2.0 * x as f32 + 3.0)).collect();
    let evaluations = Cell::new(0usize);
    let best: Line = train(200, 200, loss_key(0.01), |line: &Line| {
        evaluations.set(evaluations.get() + 1);
        loss_key(mean_squared_error(line, &points))
    });
    assert!(mean_squared_error(&best, &points) <= 0.01);
    assert!((best.slope - 2.0).abs() < 0.05, "slope {}", best.slope);
    assert!((best.intercept - 3.0).abs() < 0.2, "intercept {}", best.intercept);
    assert!(evaluations.get() < 200 * 200);
    assert_eq!(evaluations.get() % 200, 0);
}

#[test]
fn infinite_target_stops_after_one_generation() {
    let points: Vec<(f32, f32)> = (0..10).map(|x| (x as f32, 2.0 * x as f32 + 3.0)).collect();
    let evaluations = Cell::new(0usize);
    let _best: Line = train(200, 200, loss_key(f32::INFINITY), |line: &Line| {
        evaluations.set(evaluations.get() + 1);
        loss_key(mean_squared_error(line, &points))
    });
    assert_eq!(evaluations.get(), 200);
}
