use rand::Rng;
use rand::SeedableRng;
use rand::rngs::SmallRng;
use reservoir_sampling::{fill, l, UniformRandomSource, VecCursor};

/// The floating-point draws of Algorithm L over a real generator: keeps the
/// running acceptance value `w` in (0, 1), redrawing a uniform of exactly
/// zero so no logarithm is taken at zero.
struct AlgoLDraws<R: Rng> {
    rng: R,
    w: f64,
}

impl<R: Rng> AlgoLDraws<R> {
    fn new(rng: R) -> Self {
        AlgoLDraws { rng, w: 0.5 }
    }

    fn uniform(&mut self) -> f64 {
        loop {
            let u: f64 = self.rng.random();
            if u > 0.0 {
                return u;
            }
        }
    }
}

impl<R: Rng> UniformRandomSource for AlgoLDraws<R> {
    fn start(&mut self, k: usize) {
        self.w = (self.uniform().ln() / k as f64).exp();
    }

    fn next_skip(&mut self) -> usize {
        (self.uniform().ln() / (1.0 - self.w).ln()).floor() as usize
    }

    fn pick_slot(&mut self, k: usize) -> usize {
        self.rng.random_range(0..k)
    }

    fn accept(&mut self, k: usize) {
        self.w *= (self.uniform().ln() / k as f64).exp();
    }
}

/// A draw source that replays fixed skip and slot scripts; it makes a
/// sampling pass fully predictable without any floating point.
struct ScriptedDraws {
    skips: Vec<usize>,
    slots: Vec<usize>,
    next_skip_at: usize,
    next_slot_at: usize,
}

impl UniformRandomSource for ScriptedDraws {
    fn start(&mut self, _k: usize) {}

    fn next_skip(&mut self) -> usize {
        let r = self.skips[self.next_skip_at];
        self.next_skip_at += 1;
        r
    }

    fn pick_slot(&mut self, k: usize) -> usize {
        let r = self.slots[self.next_slot_at];
        self.next_slot_at += 1;
        r % k
    }

    fn accept(&mut self, _k: usize) {}
}

/// A draw source that must never be consulted; every method panics.
struct NoDraws;

impl UniformRandomSource for NoDraws {
    fn start(&mut self, _k: usize) {
        panic!("draw requested");
    }

    fn next_skip(&mut self) -> usize {
        panic!("draw requested");
    }

    fn pick_slot(&mut self, _k: usize) -> usize {
        panic!("draw requested");
    }

    fn accept(&mut self, _k: usize) {
        panic!("draw requested");
    }
}

fn range_cursor(lo: i64, hi: i64) -> VecCursor<i64> {
    VecCursor::new((lo..hi).collect())
}

#[test]
fn fill_short() {
    let mut cursor = VecCursor::new((0usize..5).collect::<Vec<_>>());
    let result = fill(&mut cursor, 7);
    assert_eq!(result, (0usize..5).collect::<Vec<_>>());
}

#[test]
fn fill_long() {
    let mut cursor = VecCursor::new((0usize..100).collect::<Vec<_>>());
    let result = fill(&mut cursor, 7);
    assert_eq!(result, (0usize..7).collect::<Vec<_>>());
}

#[test]
fn not_enough_population() {
    let mut rng = AlgoLDraws::new(rand::rng());
    let mut cursor = VecCursor::new((0usize..5).collect::<Vec<_>>());
    let result = l(&mut cursor, 7, &mut rng);
    assert_eq!(result, (0usize..5).collect::<Vec<_>>());
}

#[test]
fn sufficient_population_size() {
    let mut rng = AlgoLDraws::new(rand::rng());
    let mut cursor = range_cursor(-100, 100);
    let result = l(&mut cursor, 7, &mut rng);
    assert!(result.iter().all(|&v| -100 <= v && v < 100));
    assert_eq!(result.len(), 7);
}

#[test]
fn zero_size_draws_nothing() {
    // A target size of zero returns empty without one random draw.
    let mut rng = NoDraws;
    let mut cursor = range_cursor(0, 50);
    let result = l(&mut cursor, 0, &mut rng);
    assert_eq!(result.len(), 0);
}

#[test]
fn scripted_replacements() {
    // With scripted draws the whole pass is predictable: seed [0,1,2], then
    // skip 1 and put 4 in slot 2, put 5 in slot 0, skip 3 and put 9 in
    // slot 1, and stop when the next skip runs past the stream.
    let mut rng = ScriptedDraws {
        skips: vec![1, 0, 3, 100],
        slots: vec![2, 0, 1],
        next_skip_at: 0,
        next_slot_at: 0,
    };
    let mut cursor = VecCursor::new((0u64..10).collect::<Vec<_>>());
    let result = l(&mut cursor, 3, &mut rng);
    assert_eq!(result, vec![5u64, 9, 4]);
}

#[test]
fn seeded_runs_identical() {
    // The same seed over the same stream yields bit-identical samples.
    let mut first = Vec::new();
    let mut second = Vec::new();
    for out in [&mut first, &mut second] {
        let mut rng = AlgoLDraws::new(SmallRng::seed_from_u64(2024));
        let mut cursor = range_cursor(0, 10000);
        *out = l(&mut cursor, 25, &mut rng);
    }
    assert_eq!(first, second);
    assert_eq!(first.len(), 25);
}

#[test]
fn seeded_range_sample_is_fixed() {
    // Regression oracle: a fixed seed over [0, 100) with size 7 pins the
    // exact subset.
    let mut rng = AlgoLDraws::new(SmallRng::seed_from_u64(7));
    let mut cursor = range_cursor(0, 100);
    let result = l(&mut cursor, 7, &mut rng);
    assert!(result.iter().all(|&v| 0 <= v && v < 100));
    assert_eq!(result, vec![60, 27, 68, 88, 97, 8, 11]);
    let mut rng2 = AlgoLDraws::new(SmallRng::seed_from_u64(7));
    let mut cursor2 = range_cursor(0, 100);
    assert_eq!(l(&mut cursor2, 7, &mut rng2), result);
}
