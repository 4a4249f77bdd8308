use rand::Rng;
use rand::SeedableRng;
use rand::rngs::SmallRng;
use reservoir_sampling::{l, UniformRandomSource, VecCursor};

struct AlgoLDraws<R: Rng> {
    rng: R,
    w: f64,
}

impl<R: Rng> AlgoLDraws<R> {
    fn new(rng: R) -> Self {
        AlgoLDraws { rng, w: 0.5 }
    }

    fn uniform(&mut self) -> f64 {
        loop {
            let u: f64 = self.rng.random();
            if u > 0.0 {
                return u;
            }
        }
    }
}

impl<R: Rng> UniformRandomSource for AlgoLDraws<R> {
    fn start(&mut self, k: usize) {
        self.w = (self.uniform().ln() / k as f64).exp();
    }

    fn next_skip(&mut self) -> usize {
        (self.uniform().ln() / (1.0 - self.w).ln()).floor() as usize
    }

    fn pick_slot(&mut self, k: usize) -> usize {
        self.rng.random_range(0..k)
    }

    fn accept(&mut self, k: usize) {
        self.w *= (self.uniform().ln() / k as f64).exp();
    }
}

fn ln_gamma(x: f64) -> f64 {
    // Lanczos approximation, good to about 1e-10 for x > 0.
    let coefficients = [
        76.18009172947146,
        -86.50532032941677,
        24.01409824083091,
        -1.231739572450155,
        0.1208650973866179e-2,
        -0.5395239384953e-5,
    ];
    let mut y = x;
    let tmp = x + 5.5;
    let tmp = tmp - (x + 0.5) * tmp.ln();
    let mut ser = 1.000000000190015;
    for c in coefficients {
        y += 1.0;
        ser += c / y;
    }
    -tmp + (2.5066282746310005 * ser / x).ln()
}

/// Regularized lower incomplete gamma function P(a, x).
fn gamma_li(a: f64, x: f64) -> f64 {
    if x <= 0.0 {
        return 0.0;
    }
    let gln = ln_gamma(a);
    if x < a + 1.0 {
        // Series representation.
        let mut ap = a;
        let mut sum = 1.0 / a;
        let mut del = sum;
        for _ in 0..500 {
            ap += 1.0;
            del *= x / ap;
            sum += del;
            if del.abs() < sum.abs() * 1.0e-14 {
                break;
            }
        }
        sum * (-x + a * x.ln() - gln).exp()
    } else {
        // Continued fraction for Q(a, x).
        let tiny = 1.0e-300;
        let mut b = x + 1.0 - a;
        let mut c = 1.0 / tiny;
        let mut d = 1.0 / b;
        let mut h = d;
        for i in 1..500 {
            let an = -(i as f64) * (i as f64 - a);
            b += 2.0;
            d = an * d + b;
            if d.abs() < tiny {
                d = tiny;
            }
            c = b + an / c;
            if c.abs() < tiny {
                c = tiny;
            }
            d = 1.0 / d;
            let del = d * c;
            h *= del;
            if (del - 1.0).abs() < 1.0e-14 {
                break;
            }
        }
        1.0 - (-x + a * x.ln() - gln).exp() * h
    }
}

fn chi_distance(dataset: &[i32]) -> f64 {
    let expected = f64::from(dataset.iter().sum::<i32>()) / dataset.len() as f64;
    dataset
        .iter()
        .fold(0., |acc, &elt| acc + (elt as f64 - expected).powf(2.))
        / expected
}

fn chi2_probability(dof: f64, distance: f64) -> f64 {
    1. - gamma_li(dof * 0.5, distance * 0.5)
}

fn chi2_uniform(dataset: &[i32], significance: f64) -> bool {
    let d = chi_distance(&dataset);
    chi2_probability(dataset.len() as f64 - 1., d) > significance
}

#[test]
fn test_chi() {
    let mut rng = AlgoLDraws::new(rand::rng());
    let mut cursor = VecCursor::new((0i32..1000000).collect::<Vec<_>>());
    let sample = l(&mut cursor, 7, &mut rng);
    assert!(sample.iter().all(|&v| 0 <= v && v < 1000000));

    let dsets = vec![
        vec![199809, 200665, 199607, 200270, 199649],
        vec![522573, 244456, 139979, 71531, 21461],
        vec![5735, 8609, 5317, 2975, 3307, 7487, 3451],
    ];

    for ds in dsets {
        println!("Data set: {:?}", ds);
        let d = chi_distance(&ds);
        println!("Distance: {:.6}", d);
        println!("Chi2 probability: {:.6}", chi2_probability(ds.len() as f64 - 1., d));
        println!("Uniform? {}", chi2_uniform(&ds, 0.05));
    }

    // Inclusion frequencies over many seeded runs: bucket the sampled
    // values of [0, n) and hold the bucket counts to a chi-squared
    // uniformity test, as every index should be retained with equal
    // probability.
    let n = 1000000i32;
    let buckets = 10usize;
    let trials = 60u64;
    let mut counts = vec![0i32; buckets];
    for trial in 0..trials {
        let mut rng = AlgoLDraws::new(SmallRng::seed_from_u64(trial));
        let mut cursor = VecCursor::new((0i32..n).collect::<Vec<_>>());
        let sample = l(&mut cursor, 7, &mut rng);
        assert_eq!(sample.len(), 7);
        for v in sample {
            counts[(v as usize) / (n as usize / buckets)] += 1;
        }
    }
    println!("Data set: {:?}", counts.as_slice());
    let d = chi_distance(counts.as_slice());
    println!("Distance: {:.6}", d);
    println!("Chi2 probability: {:.6}", chi2_probability(counts.len() as f64 - 1., d));
    println!("Uniform? {}", chi2_uniform(counts.as_slice(), 0.05));
    assert!(chi2_uniform(counts.as_slice(), 0.05));
}
