//! The detector on the machine's own binary32 arithmetic.

use llm_probe::arithmetic::Arithmetic;
use llm_probe::detector::{Detector, DetectorConfig};
use llm_probe::order::{peak, sort_descending, top_two};
use llm_probe::uncertainty::{
    uncertainty_from_logits, uncertainty_from_top_logprobs, TokenUncertainty, TAIL_FLOOR,
};
use llm_probe::float;

struct Machine;

impl Arithmetic for Machine {
    fn plus(&self, a: u32, b: u32) -> u32 {
        (f32::from_bits(a) + f32::from_bits(b)).to_bits()
    }
    fn minus(&self, a: u32, b: u32) -> u32 {
        (f32::from_bits(a) - f32::from_bits(b)).to_bits()
    }
    fn times(&self, a: u32, b: u32) -> u32 {
        (f32::from_bits(a) * f32::from_bits(b)).to_bits()
    }
    fn over(&self, a: u32, b: u32) -> u32 {
        (f32::from_bits(a) / f32::from_bits(b)).to_bits()
    }
    fn exp(&self, a: u32) -> u32 {
        f32::from_bits(a).exp().to_bits()
    }
    fn ln(&self, a: u32) -> u32 {
        f32::from_bits(a).ln().to_bits()
    }
    fn count(&self, n: usize) -> u32 {
        (n as f32).to_bits()
    }
    fn narrow(&self, wide: u64) -> u32 {
        (f64::from_bits(wide) as f32).to_bits()
    }
}

fn bits(s: &[f32]) -> Vec<u32> {
    s.iter().map(|x| x.to_bits()).collect()
}

fn num(a: u32) -> f32 {
    f32::from_bits(a)
}

fn approx_eq(a: f32, b: f32, eps: f32) -> bool {
    (a - b).abs() < eps
}

#[test]
fn logits_one_hot_is_certain() {
    let mut l = vec![0.0f32; 64];
    l[7] = 50.0;
    let u = uncertainty_from_logits(&Machine, &bits(&l), 7);
    assert!(num(u.entropy) < 1e-3);
    assert!(approx_eq(num(u.max_prob), 1.0, 1e-3));
    assert!(num(u.risk(&Machine)) < 1e-3);
}

#[test]
fn logits_uniform_is_maximally_uncertain() {
    let v = 64usize;
    let l = vec![0.0f32; v];
    let u = uncertainty_from_logits(&Machine, &bits(&l), 0);
    assert!(approx_eq(num(u.entropy), (v as f32).ln(), 1e-3));
    assert!(approx_eq(num(u.max_prob), 1.0 / v as f32, 1e-4));
}

#[test]
fn top_logprobs_matches_exact_when_mass_covered() {
    // A distribution fully described by its top-4: exact and approx agree.
    let probs = [0.7f32, 0.2, 0.07, 0.03];
    let lps: Vec<f32> = probs.iter().map(|p| p.ln()).collect();
    let ua = uncertainty_from_top_logprobs(&Machine, lps[0].to_bits(), &bits(&lps));
    let exact: f32 = probs.iter().map(|p| -p * p.ln()).sum();
    assert!(approx_eq(num(ua.entropy), exact, 1e-3), "{} vs {exact}", num(ua.entropy));
    assert!(approx_eq(num(ua.max_prob), 0.7, 1e-4));
    assert!(approx_eq(num(ua.margin), 0.5, 1e-4));
}

#[test]
fn top_logprobs_tail_is_lower_bound() {
    // Top-2 of a wide distribution: approx entropy must be <= true entropy
    // of (0.4, 0.3, uniform 30% tail over many tokens).
    let lps = [0.4f32.ln(), 0.3f32.ln()];
    let ua = uncertainty_from_top_logprobs(&Machine, lps[0].to_bits(), &bits(&lps));
    let true_wide: f32 = -(0.4f32 * 0.4f32.ln() + 0.3 * 0.3f32.ln())
        + 0.3 * (100.0f32).ln() - 0.3 * 0.3f32.ln(); // tail spread over 100
    assert!(num(ua.entropy) <= true_wide);
    assert!(num(ua.entropy) > 0.5); // and still clearly nonzero
}

#[test]
fn detector_flags_uncertain_generations() {
    let mut d = Detector::new(DetectorConfig::default());
    let mut sharp = vec![0.0f32; 32];
    sharp[1] = 40.0;
    d.observe_logits(&Machine, &bits(&sharp), 1);
    d.observe_logits(&Machine, &bits(&vec![0.0f32; 32]), 0); // uniform → risky
    let r = d.report(&Machine, true);
    assert_eq!(r.n_tokens, 2);
    assert_eq!(r.peak_token, Some(1));
    assert!(approx_eq(num(r.risky_fraction), 0.5, 1e-5));
    assert_eq!(r.mode, "logits");
    assert!(r.per_token.is_some());
}

#[test]
fn detector_top_logprobs_mode_marked_approximate() {
    let mut d = Detector::new(DetectorConfig::default());
    d.observe_top_logprobs(&Machine, 0.9f32.ln().to_bits(), &bits(&[0.9f32.ln(), 0.05f32.ln()]));
    let r = d.report(&Machine, false);
    assert_eq!(r.mode, "top_logprobs");
    assert!(!r.flagged);
    assert!(r.per_token.is_none());
}

#[test]
fn empty_report_is_zero() {
    let d = Detector::new(DetectorConfig::default());
    assert!(d.is_empty());
    let r = d.report(&Machine, false);
    assert_eq!(r.n_tokens, 0);
    assert!(!r.flagged);
    assert_eq!(r.risk_score, 0.0f32.to_bits());
    assert_eq!(r.mean_entropy, 0.0f32.to_bits());
    assert_eq!(r.risky_fraction, 0.0f32.to_bits());
    assert_eq!(r.peak_token, None);
    assert_eq!(r.mode, "logits");
    assert!(r.per_token.is_none());
}

#[test]
fn empty_report_lists_no_tokens() {
    let d = Detector::new(DetectorConfig::default());
    let r = d.report(&Machine, true);
    assert_eq!(r.per_token.map(|t| t.len()), Some(0));
}

#[test]
fn default_bars() {
    let cfg = DetectorConfig::default();
    assert_eq!(cfg.entropy_threshold, 2.0f32.to_bits());
    assert_eq!(cfg.max_prob_threshold, 0.4f32.to_bits());
    assert_eq!(cfg.risk_flag_threshold, 0.5f32.to_bits());
}

#[test]
fn constants_encode_their_numbers() {
    assert_eq!(float::ZERO, 0.0f32.to_bits());
    assert_eq!(float::NEGATIVE_ZERO, (-0.0f32).to_bits());
    assert_eq!(float::ONE, 1.0f32.to_bits());
    assert_eq!(float::INFINITY, f32::INFINITY.to_bits());
    assert_eq!(float::NEGATIVE_INFINITY, f32::NEG_INFINITY.to_bits());
    assert_eq!(float::WIDE_NEGATIVE_INFINITY, f64::NEG_INFINITY.to_bits());
    assert_eq!(TAIL_FLOOR, 1e-6f32.to_bits());
}

/// The comparisons on encodings agree with those of the machine.
#[test]
fn order_agrees_with_machine() {
    let sample = [
        f32::NAN,
        -f32::NAN,
        f32::NEG_INFINITY,
        -1.5,
        -1e-40,
        -0.0,
        0.0,
        1e-40,
        0.4,
        1.0,
        1.5,
        f32::MAX,
        f32::INFINITY,
    ];
    for a in sample {
        assert_eq!(float::test_nan(a.to_bits()), a.is_nan());
        let clamped = num(float::clamp_unit(a.to_bits()));
        assert_eq!(clamped.to_bits(), a.clamp(0.0, 1.0).to_bits());
        for b in sample {
            let (x, y) = (a.to_bits(), b.to_bits());
            assert_eq!(float::less(x, y), a < b, "{a} {b}");
            assert_eq!(float::reaches(x, y), a >= b, "{a} {b}");
            assert_eq!(float::precedes(x, y), a.total_cmp(&b).is_lt(), "{a} {b}");
            let (hi, lo) = (num(float::max(x, y)), num(float::min(x, y)));
            assert!(hi == a.max(b) || (hi.is_nan() && a.is_nan() && b.is_nan()), "{a} {b}");
            assert!(lo == a.min(b) || (lo.is_nan() && a.is_nan() && b.is_nan()), "{a} {b}");
        }
    }
}

#[test]
fn sorting_is_descending_and_keeps_everything() {
    let s = bits(&[0.2, 0.7, -0.0, 0.7, 0.0, f32::NAN]);
    let r = sort_descending(s);
    assert_eq!(r, bits(&[f32::NAN, 0.7, 0.7, 0.2, 0.0, -0.0]));
    assert_eq!(sort_descending(Vec::new()), Vec::<u32>::new());
}

#[test]
fn two_largest_count_a_repeated_number_twice() {
    assert_eq!(top_two(&bits(&[0.3, 0.5, 0.5, f32::NAN])), (0.5f32.to_bits(), 0.5f32.to_bits()));
    assert_eq!(top_two(&bits(&[0.3])), (0.3f32.to_bits(), f32::NEG_INFINITY.to_bits()));
}

#[test]
fn peak_is_the_last_of_equals() {
    assert_eq!(peak(&bits(&[1.0, 2.0, 2.0, 0.5])), Some(2));
    assert_eq!(peak(&[]), None);
}

#[test]
fn largest_skips_what_is_not_a_number() {
    assert_eq!(float::max_of(&bits(&[f32::NAN, -2.0, -1.0])), (-1.0f32).to_bits());
    assert_eq!(float::max_of(&[]), f32::NEG_INFINITY.to_bits());
}

/// Two equal logits: each probability is 1/2, the entropy is ln 2.
#[test]
fn two_equal_logits() {
    let u = uncertainty_from_logits(&Machine, &bits(&[3.0, 3.0]), 1);
    assert_eq!(num(u.max_prob), 0.5);
    assert_eq!(num(u.margin), 0.0);
    assert!(approx_eq(num(u.entropy), 2.0f32.ln(), 1e-6));
    assert!(approx_eq(num(u.chosen_logprob), 0.5f32.ln(), 1e-6));
    assert_eq!(num(u.risk(&Machine)), 0.5);
}

#[test]
fn no_logits_say_nothing() {
    let u = uncertainty_from_logits(&Machine, &[], 0);
    assert_eq!(num(u.entropy), 0.0);
    assert_eq!(num(u.max_prob), 0.0);
    assert_eq!(num(u.margin), 0.0);
    assert_eq!(num(u.chosen_logprob), f32::NEG_INFINITY);
}

#[test]
fn token_past_the_logits_is_impossible() {
    let u = uncertainty_from_logits(&Machine, &bits(&[1.0, 2.0]), 2);
    assert_eq!(num(u.chosen_logprob), f32::NEG_INFINITY);
    assert!(num(u.margin) > 0.0);
}

/// Only the emitted token is known: it and the rest are the two outcomes.
#[test]
fn chosen_logprob_alone() {
    let u = uncertainty_from_top_logprobs(&Machine, 0.5f32.ln().to_bits(), &[]);
    assert_eq!(num(u.max_prob), 0.5);
    assert_eq!(num(u.margin), 0.0);
    assert!(approx_eq(num(u.entropy), 2.0f32.ln(), 1e-6));
    assert_eq!(u.chosen_logprob, 0.5f32.ln().to_bits());
    let certain = uncertainty_from_top_logprobs(&Machine, 0.0f32.to_bits(), &[]);
    assert_eq!(num(certain.entropy), 0.0);
    assert_eq!(num(certain.max_prob), 1.0);
    let impossible = uncertainty_from_top_logprobs(&Machine, f32::NEG_INFINITY.to_bits(), &[]);
    assert_eq!(num(impossible.entropy), 0.0);
    assert_eq!(num(impossible.max_prob), 0.0);
}

#[test]
fn order_of_top_logprobs_is_irrelevant() {
    let listed = [0.5f32.ln(), 0.2f32.ln(), 0.1f32.ln(), 0.05f32.ln()];
    let relisted = [listed[2], listed[0], listed[3], listed[1]];
    let a = uncertainty_from_top_logprobs(&Machine, listed[0].to_bits(), &bits(&listed));
    let b = uncertainty_from_top_logprobs(&Machine, listed[0].to_bits(), &bits(&relisted));
    assert_eq!(a, b);
}

#[test]
fn single_top_logprob_has_no_second() {
    let u = uncertainty_from_top_logprobs(&Machine, 0.25f32.ln().to_bits(), &bits(&[0.25f32.ln()]));
    assert!(approx_eq(num(u.max_prob), 0.25, 1e-6));
    assert!(approx_eq(num(u.margin), 0.25, 1e-6));
    let expected = -(0.25f32 * 0.25f32.ln()) - 0.75 * 0.75f32.ln();
    assert!(approx_eq(num(u.entropy), expected, 1e-6));
}

#[test]
fn risk_stays_in_unit() {
    let at = |p: f32| TokenUncertainty {
        entropy: 0,
        max_prob: p.to_bits(),
        margin: 0,
        chosen_logprob: 0,
    };
    assert_eq!(num(at(1.25).risk(&Machine)), 0.0);
    assert_eq!(num(at(-0.5).risk(&Machine)), 1.0);
    assert_eq!(num(at(0.25).risk(&Machine)), 0.75);
}

/// A response whose tokens are all guesses is flagged, and its figures are the
/// means of its tokens.
#[test]
fn mean_of_tokens() {
    let mut d = Detector::new(DetectorConfig::default());
    d.observe_logits(&Machine, &bits(&[0.0, 0.0]), 0);
    d.observe_logits(&Machine, &bits(&[0.0, 0.0, 0.0, 0.0]), 0);
    let r = d.report(&Machine, false);
    assert_eq!(num(r.risk_score), 0.625);
    assert!(r.flagged);
    assert!(approx_eq(num(r.mean_entropy), 1.5 * 2.0f32.ln(), 1e-6));
    assert_eq!(num(r.risky_fraction), 0.5);
    assert_eq!(r.peak_token, Some(1));
}

#[test]
fn one_approximate_token_marks_the_report() {
    let mut d = Detector::new(DetectorConfig::default());
    d.observe_logits(&Machine, &bits(&[0.0, 9.0]), 1);
    d.observe_top_logprobs(&Machine, 0.0f32.to_bits(), &[]);
    d.observe_logits(&Machine, &bits(&[0.0, 9.0]), 1);
    let r = d.report(&Machine, true);
    assert_eq!(r.mode, "top_logprobs");
    assert_eq!(r.n_tokens, 3);
    assert_eq!(r.per_token.unwrap().len(), 3);
}

#[test]
fn figures_of_a_long_report_stay_in_unit() {
    let mut d = Detector::new(DetectorConfig::default());
    for _ in 0..2000 {
        d.observe_top_logprobs(&Machine, (-90.0f32).to_bits(), &bits(&[-90.0, -91.0]));
    }
    let r = d.report(&Machine, false);
    assert_eq!(r.n_tokens, 2000);
    assert_eq!(num(r.risk_score), 1.0);
    assert_eq!(num(r.risky_fraction), 1.0);
    assert!(r.flagged);
}

#[test]
fn one_logit_is_certain() {
    let u = uncertainty_from_logits(&Machine, &bits(&[3.0]), 0);
    assert_eq!(num(u.entropy), 0.0);
    assert_eq!(num(u.max_prob), 1.0);
    assert_eq!(num(u.margin), 1.0);
    assert_eq!(num(u.chosen_logprob), 0.0);
}

#[test]
fn improbable_token_keeps_its_logprob() {
    let l = bits(&[0.0, -200.0, f32::NEG_INFINITY]);
    let u = uncertainty_from_logits(&Machine, &l, 1);
    assert!(approx_eq(num(u.chosen_logprob), -200.0, 1e-3));
    let u = uncertainty_from_logits(&Machine, &l, 2);
    assert_eq!(num(u.chosen_logprob), f32::NEG_INFINITY);
    let u = uncertainty_from_logits(&Machine, &bits(&[0.0, f32::NAN]), 0);
    assert_eq!(num(u.chosen_logprob), f32::NEG_INFINITY);
}

#[test]
fn empty_report_is_flagged_at_a_bar_of_zero() {
    let cfg = DetectorConfig { risk_flag_threshold: 0.0f32.to_bits(), ..DetectorConfig::default() };
    let r = Detector::new(cfg).report(&Machine, false);
    assert_eq!(num(r.risk_score), 0.0);
    assert!(r.flagged);
}

#[test]
fn emitted_token_changes_only_its_logprob() {
    let l = bits(&[1.0, 2.5, -0.5]);
    let u = uncertainty_from_logits(&Machine, &l, 1);
    let v = uncertainty_from_logits(&Machine, &l, 3);
    assert_eq!((u.entropy, u.max_prob, u.margin), (v.entropy, v.max_prob, v.margin));
    assert_eq!(num(v.chosen_logprob), f32::NEG_INFINITY);
    let tops = bits(&[-0.5, -1.5]);
    let u = uncertainty_from_top_logprobs(&Machine, (-0.5f32).to_bits(), &tops);
    let v = uncertainty_from_top_logprobs(&Machine, (-7.0f32).to_bits(), &tops);
    assert_eq!((u.entropy, u.max_prob, u.margin), (v.entropy, v.max_prob, v.margin));
    assert_eq!((num(u.chosen_logprob), num(v.chosen_logprob)), (-0.5, -7.0));
}

#[test]
fn common_shift_changes_nothing() {
    let l = [0.5f32, -1.25, 3.0, -0.0, 0.0];
    let moved: Vec<f32> = l.iter().map(|x| x + 16.0).collect();
    for chosen in 0..l.len() {
        assert_eq!(
            uncertainty_from_logits(&Machine, &bits(&l), chosen),
            uncertainty_from_logits(&Machine, &bits(&moved), chosen)
        );
    }
}

#[test]
fn softmax_probability_stays_in_unit() {
    for l in [
        vec![f32::NAN, 1.0],
        vec![f32::INFINITY, 1.0],
        vec![f32::NEG_INFINITY; 3],
        vec![f32::MAX, f32::MIN],
        vec![0.1; 1000],
    ] {
        let u = uncertainty_from_logits(&Machine, &bits(&l), 0);
        assert!((0.0..=1.0).contains(&num(u.max_prob)), "{l:?}");
    }
}

#[test]
fn risk_falls_as_probability_grows() {
    let mut last = 1.0f32;
    for p in [0.0f32, 0.1, 0.4, 0.9, 1.0, 1.5] {
        let u = TokenUncertainty { entropy: 0, max_prob: p.to_bits(), margin: 0, chosen_logprob: 0 };
        let r = num(u.risk(&Machine));
        assert!(r <= last);
        last = r;
    }
    assert_eq!(last, 0.0);
}

#[test]
fn unusable_logits_say_nothing() {
    for l in [
        vec![f32::NAN, 1.0],
        vec![1.0, f32::INFINITY],
        vec![f32::NEG_INFINITY, f32::NEG_INFINITY],
        vec![],
    ] {
        for chosen in 0..3 {
            let u = uncertainty_from_logits(&Machine, &bits(&l), chosen);
            assert_eq!((num(u.entropy), num(u.max_prob), num(u.margin)), (0.0, 0.0, 0.0), "{l:?}");
            assert_eq!(num(u.chosen_logprob), f32::NEG_INFINITY);
        }
    }
}

/// The log-probabilities that the softmax of some logits gives.
fn log_softmax(l: &[f32]) -> Vec<f32> {
    let max = l.iter().cloned().fold(f32::NEG_INFINITY, f32::max);
    let total: f32 = l.iter().map(|x| (x - max).exp()).sum();
    l.iter().map(|x| (x - max) - total.ln()).collect()
}

#[test]
fn folding_never_raises_the_entropy() {
    let l: Vec<f32> = (0..12).map(|i| ((i * i) % 7) as f32 * 0.9 - i as f32 * 0.3).collect();
    let lps = log_softmax(&l);
    let exact = num(uncertainty_from_logits(&Machine, &bits(&l), 3).entropy);
    for mask in 0u32..(1 << l.len()) {
        let tops: Vec<f32> = (0..l.len()).filter(|i| mask >> i & 1 == 1).map(|i| lps[i]).collect();
        let u = uncertainty_from_top_logprobs(&Machine, lps[3].to_bits(), &bits(&tops));
        assert!(num(u.entropy) <= exact + 1e-3, "{mask:b}");
    }
}

#[test]
fn modes_agree_when_everything_is_listed() {
    for l in [vec![0.0f32], vec![1.0, -2.0], vec![0.5; 40], vec![3.0, 2.5, -30.0, 2.5, -300.0]] {
        let lps = log_softmax(&l);
        let a = uncertainty_from_logits(&Machine, &bits(&l), 0);
        let b = uncertainty_from_top_logprobs(&Machine, lps[0].to_bits(), &bits(&lps));
        assert!(approx_eq(num(a.entropy), num(b.entropy), 1e-3), "{l:?}");
        assert!(approx_eq(num(a.max_prob), num(b.max_prob), 1e-3), "{l:?}");
        assert!(approx_eq(num(a.margin), num(b.margin), 1e-3), "{l:?}");
    }
}

#[test]
fn risk_is_what_is_left() {
    for (p, risk) in [(0.25f32, 0.75f32), (1.0, 0.0), (1.5, 0.0), (0.0, 1.0), (-0.5, 1.0)] {
        let u = TokenUncertainty { entropy: 0, max_prob: p.to_bits(), margin: 0, chosen_logprob: 0 };
        assert_eq!(num(u.risk(&Machine)), risk);
    }
}

#[test]
fn listing_changes_nothing_else() {
    let report = |listed: bool| {
        let mut d = Detector::new(DetectorConfig::default());
        d.observe_logits(&Machine, &bits(&[1.0, 2.0]), 1);
        d.observe_top_logprobs(&Machine, (-0.5f32).to_bits(), &bits(&[-0.5, -2.0]));
        d.report(&Machine, listed)
    };
    let (a, b) = (report(true), report(false));
    assert_eq!(a.per_token.as_ref().map(|t| t.len()), Some(2));
    assert_eq!(b.per_token, None);
    assert_eq!(
        (a.risk_score, a.mean_entropy, a.risky_fraction, a.peak_token, a.n_tokens, a.flagged, a.mode),
        (b.risk_score, b.mean_entropy, b.risky_fraction, b.peak_token, b.n_tokens, b.flagged, b.mode)
    );
}
