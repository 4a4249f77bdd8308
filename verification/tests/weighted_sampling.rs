use rand::Rng;
use rand::SeedableRng;
use rand::rngs::SmallRng;
use reservoir_sampling::{a_exp_j, SampleError, VecCursor, WeightedRandomSource};

/// Bits of the largest double below one.
const BELOW_ONE: u64 = 0x3FEF_FFFF_FFFF_FFFF;

/// The floating-point draws of A-ExpJ over a real generator: keeps the
/// running budget `x`, redraws a uniform of exactly zero, and moves a key
/// that rounds onto a bound of (0, 1) to the nearest double inside it.
struct AExpJDraws<R: Rng> {
    rng: R,
    x: f64,
}

impl<R: Rng> AExpJDraws<R> {
    fn new(rng: R) -> Self {
        AExpJDraws { rng, x: 0.0 }
    }

    fn uniform(&mut self) -> f64 {
        loop {
            let u: f64 = self.rng.random();
            if u > 0.0 {
                return u;
            }
        }
    }

    fn clamp_key(k: f64) -> u64 {
        if !(k > 0.0) {
            1
        } else if k >= 1.0 {
            BELOW_ONE
        } else {
            k.to_bits()
        }
    }
}

impl<R: Rng> WeightedRandomSource for AExpJDraws<R> {
    fn initial_key(&mut self, weight: u64) -> u64 {
        let w = f64::from_bits(weight);
        let u = self.uniform();
        Self::clamp_key(u.powf(1.0 / w))
    }

    fn start_budget(&mut self, min_key: u64) {
        let t = f64::from_bits(min_key);
        self.x = self.uniform().ln() / t.ln();
    }

    fn spend(&mut self, weight: u64) -> bool {
        self.x -= f64::from_bits(weight);
        self.x <= 0.0
    }

    fn replacement_key(&mut self, min_key: u64, weight: u64) -> u64 {
        let w = f64::from_bits(weight);
        let t = f64::from_bits(min_key).powf(w);
        let r = if t < 1.0 {
            self.rng.random_range(t..1.0)
        } else {
            f64::from_bits(BELOW_ONE)
        };
        Self::clamp_key(r.powf(1.0 / w))
    }
}

/// A draw source that replays fixed key and budget scripts.
struct ScriptedWeightedDraws {
    keys: Vec<u64>,
    spends: Vec<bool>,
    next_key_at: usize,
    next_spend_at: usize,
}

impl WeightedRandomSource for ScriptedWeightedDraws {
    fn initial_key(&mut self, _weight: u64) -> u64 {
        let r = self.keys[self.next_key_at];
        self.next_key_at += 1;
        r
    }

    fn start_budget(&mut self, _min_key: u64) {}

    fn spend(&mut self, _weight: u64) -> bool {
        let r = self.spends[self.next_spend_at];
        self.next_spend_at += 1;
        r
    }

    fn replacement_key(&mut self, _min_key: u64, _weight: u64) -> u64 {
        let r = self.keys[self.next_key_at];
        self.next_key_at += 1;
        r
    }
}

fn weighted_stream<T>(weight: f64, items: Vec<T>) -> VecCursor<(u64, T)> {
    let bits = weight.to_bits();
    VecCursor::new(items.into_iter().map(|item| (bits, item)).collect())
}

#[test]
fn sfasdfa() {
    // There is nothing in the stream.
    let mut stream = VecCursor::new(Vec::<(u64, u8)>::new());
    let mut rng = AExpJDraws::new(rand::rng());
    let samples = a_exp_j(&mut stream, 4, &mut rng).unwrap();
    assert!(samples.len() == 0);
}

#[test]
fn empty() {
    // There is nothing in the stream.
    let mut stream = weighted_stream(0.5, "".chars().collect::<Vec<_>>());
    let mut rng = AExpJDraws::new(rand::rng());
    let samples = a_exp_j(&mut stream, 4, &mut rng).unwrap();
    assert!(samples.len() == 0);
}

#[test]
fn none() {
    // Asking for ZERO sample.
    let mut stream = weighted_stream(0.5, (0..10).collect::<Vec<_>>());
    let mut rng = AExpJDraws::new(rand::rng());
    let samples = a_exp_j(&mut stream, 0, &mut rng).unwrap();
    assert!(samples.len() == 0);
}

#[test]
fn lib_not_enough_population() {
    // Asking for more samples than there are items in the stream.
    let mut stream = weighted_stream(0.5, (0..5).collect::<Vec<_>>());
    let mut rng = AExpJDraws::new(rand::rng());
    let samples = a_exp_j(&mut stream, 7, &mut rng).unwrap();
    assert!(samples.len() == 5);
}

#[test]
fn lib_sufficient_population_size() {
    // A normal use case scenario where m < n.
    let mut stream = weighted_stream(0.5, (0..10).collect::<Vec<_>>());
    let mut rng = AExpJDraws::new(rand::rng());
    let samples = a_exp_j(&mut stream, 7, &mut rng).unwrap();
    assert!(samples.len() == 7);
}

#[test]
fn samuel_larkin() {
    let mut stream = weighted_stream(0.5, "SamuelLarkin".chars().collect::<Vec<_>>());
    let samples = a_exp_j(&mut stream, 4, &mut AExpJDraws::new(rand::rng())).unwrap();
    println!("SAMPLES: {:?}", samples);
    assert!(samples.len() == 4);
}

#[test]
fn short_stream_returns_everything() {
    // A stream shorter than the target comes back whole, as a permutation.
    let mut stream = weighted_stream(2.5, vec!["a", "b", "c"]);
    let mut rng = AExpJDraws::new(SmallRng::seed_from_u64(3));
    let mut samples = a_exp_j(&mut stream, 10, &mut rng).unwrap();
    samples.sort();
    assert_eq!(samples, vec!["a", "b", "c"]);
}

#[test]
fn zero_weight_rejected() {
    let mut stream = VecCursor::new(vec![
        ((0.5f64).to_bits(), 'a'),
        ((0.0f64).to_bits(), 'b'),
        ((0.5f64).to_bits(), 'c'),
    ]);
    let mut rng = AExpJDraws::new(rand::rng());
    assert_eq!(a_exp_j(&mut stream, 2, &mut rng), Err(SampleError::InvalidWeight));
}

#[test]
fn negative_weight_rejected() {
    let mut stream = VecCursor::new(vec![((-1.5f64).to_bits(), 'a')]);
    let mut rng = AExpJDraws::new(rand::rng());
    assert_eq!(a_exp_j(&mut stream, 3, &mut rng), Err(SampleError::InvalidWeight));
}

#[test]
fn non_finite_weight_rejected() {
    // A weight past the seed phase is still validated before any key math.
    let mut stream = VecCursor::new(vec![
        ((0.5f64).to_bits(), 'a'),
        ((0.5f64).to_bits(), 'b'),
        (f64::NAN.to_bits(), 'c'),
    ]);
    let mut rng = AExpJDraws::new(rand::rng());
    assert_eq!(a_exp_j(&mut stream, 2, &mut rng), Err(SampleError::InvalidWeight));
    let mut stream2 = VecCursor::new(vec![
        ((0.5f64).to_bits(), 'a'),
        (f64::INFINITY.to_bits(), 'b'),
    ]);
    let mut rng2 = AExpJDraws::new(rand::rng());
    assert_eq!(a_exp_j(&mut stream2, 1, &mut rng2), Err(SampleError::InvalidWeight));
}

#[test]
fn zero_size_draws_nothing_weighted() {
    // A target size of zero returns empty without touching the weights,
    // even invalid ones.
    let mut stream = VecCursor::new(vec![((0.0f64).to_bits(), 'a')]);
    let mut rng = AExpJDraws::new(rand::rng());
    let samples = a_exp_j(&mut stream, 0, &mut rng).unwrap();
    assert_eq!(samples.len(), 0);
}

#[test]
fn scripted_replacement_protocol() {
    // Keys and budget verdicts replayed from a script pin the exact result:
    // seed 'a' with key 20 and 'b' with key 10; 'c' passes, 'd' displaces
    // the minimum ('b') with key 15, 'e' passes.  Heap order puts 'd' first.
    let mut stream = weighted_stream(0.5, vec!['a', 'b', 'c', 'd', 'e']);
    let mut rng = ScriptedWeightedDraws {
        keys: vec![20, 10, 15],
        spends: vec![false, true, false],
        next_key_at: 0,
        next_spend_at: 0,
    };
    let samples = a_exp_j(&mut stream, 2, &mut rng).unwrap();
    assert_eq!(samples, vec!['d', 'a']);
}

#[test]
fn seeded_weighted_runs_identical() {
    // The same seed over the same weighted stream yields identical samples.
    let mut first = Vec::new();
    let mut second = Vec::new();
    for out in [&mut first, &mut second] {
        let mut stream = weighted_stream(0.25, (0..5000).collect::<Vec<_>>());
        let mut rng = AExpJDraws::new(SmallRng::seed_from_u64(99));
        *out = a_exp_j(&mut stream, 12, &mut rng).unwrap();
    }
    assert_eq!(first, second);
    assert_eq!(first.len(), 12);
}

#[test]
fn seeded_letters_sample_is_fixed() {
    // Regression oracle: the twelve letters with weight 0.5, size 4 and a
    // fixed seed give four distinct letters of the input, the same on every
    // run.
    let mut stream = weighted_stream(0.5, "SamuelLarkin".chars().collect::<Vec<_>>());
    let mut rng = AExpJDraws::new(SmallRng::seed_from_u64(2));
    let samples = a_exp_j(&mut stream, 4, &mut rng).unwrap();
    assert!(samples.iter().all(|c| "SamuelLarkin".contains(*c)));
    assert_eq!(samples, vec!['e', 'L', 'r', 'n']);
    let mut stream2 = weighted_stream(0.5, "SamuelLarkin".chars().collect::<Vec<_>>());
    let mut rng2 = AExpJDraws::new(SmallRng::seed_from_u64(2));
    assert_eq!(a_exp_j(&mut stream2, 4, &mut rng2).unwrap(), samples);
}
