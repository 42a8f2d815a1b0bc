//! The uncertainty of one generation: token by token, then as a report.

use crate::arithmetic::{count_is, mean, mean_is, quotient_is, Arithmetic};
use crate::float::{at_most, below, less, reaches, total_rank, Bits, NEGATIVE_ZERO, ZERO};
use crate::order::{is_peak, peak};
use crate::uncertainty::{
    from_logits_is, from_top_logprobs_is, risk_is, uncertainty_from_logits,
    uncertainty_from_top_logprobs, TokenUncertainty,
};
use vstd::prelude::*;

verus! {

/// The bars that the detector measures against. All three are binary32
/// encodings.
#[derive(Debug, Clone, Copy, PartialEq, Eq, Structural)]
pub struct DetectorConfig {
    /// A token is risky when its entropy, in nats, exceeds this.
    pub entropy_threshold: Bits,
    /// A token is risky when its largest probability falls below this.
    pub max_prob_threshold: Bits,
    /// A response is flagged when its mean risk reaches this.
    pub risk_flag_threshold: Bits,
}

/// The bars that apply unless others are given: 2.0 nats, about a choice among
/// seven tokens or more; a largest probability of 0.4; a mean risk of 0.5.
pub open spec fn default_config() -> DetectorConfig {
    DetectorConfig {
        entropy_threshold: 0x4000_0000,
        max_prob_threshold: 0x3ecc_cccd,
        risk_flag_threshold: 0x3f00_0000,
    }
}

impl Default for DetectorConfig {
    fn default() -> (r: Self)
        ensures
            r == default_config(),
    {
        DetectorConfig {
            entropy_threshold: 0x4000_0000,
            max_prob_threshold: 0x3ecc_cccd,
            risk_flag_threshold: 0x3f00_0000,
        }
    }
}

/// The summary of a response, with the tokens behind it where they were asked
/// for.
#[derive(Debug, Clone)]
pub struct Report {
    /// Mean risk of the tokens.
    pub risk_score: Bits,
    /// Mean entropy of the tokens, in nats; a lower bound in top-logprobs mode.
    pub mean_entropy: Bits,
    /// Fraction of the tokens that are risky.
    pub risky_fraction: Bits,
    /// Index of the most uncertain token.
    pub peak_token: Option<usize>,
    /// Number of tokens.
    pub n_tokens: usize,
    /// Whether the mean risk reaches the bar.
    pub flagged: bool,
    /// `"logits"` where every token came with its logits, else `"top_logprobs"`.
    pub mode: &'static str,
    /// The tokens.
    pub per_token: Option<Vec<TokenUncertainty>>,
}

/// Accumulates the uncertainty of the tokens of one generation.
pub struct Detector {
    cfg: DetectorConfig,
    tokens: Vec<TokenUncertainty>,
    risky: usize,
    approx: bool,
}

/// A token is risky: its entropy exceeds one bar, or its largest probability
/// falls below the other.
pub open spec fn is_risky(cfg: DetectorConfig, u: TokenUncertainty) -> bool {
    below(cfg.entropy_threshold, u.entropy) || below(u.max_prob, cfg.max_prob_threshold)
}

/// How many of the tokens are risky.
pub open spec fn risky_count(cfg: DetectorConfig, tokens: Seq<TokenUncertainty>) -> nat
    decreases tokens.len(),
{
    if tokens.len() == 0 {
        0
    } else {
        risky_count(cfg, tokens.drop_last()) + if is_risky(cfg, tokens.last()) {
            1nat
        } else {
            0
        }
    }
}

/// The entropies of the tokens.
pub open spec fn entropies(tokens: Seq<TokenUncertainty>) -> Seq<Bits> {
    tokens.map_values(|u: TokenUncertainty| u.entropy)
}

/// `r` can hold the risk of each token.
pub open spec fn risks_are<A: Arithmetic>(
    ar: &A,
    tokens: Seq<TokenUncertainty>,
    r: Seq<Bits>,
) -> bool {
    r.len() == tokens.len() && forall|i: int|
        #![trigger r[i]]
        0 <= i < tokens.len() ==> risk_is(ar, tokens[i], r[i])
}

/// `r` can be the mean risk of the tokens.
pub open spec fn mean_risk_is<A: Arithmetic>(
    ar: &A,
    tokens: Seq<TokenUncertainty>,
    r: Bits,
) -> bool {
    exists|risks: Seq<Bits>| #[trigger]
        risks_are(ar, tokens, risks) && mean_is(ar, NEGATIVE_ZERO, risks, r)
}

/// `r` can be the fraction of `n` that `part` is.
pub open spec fn fraction_is<A: Arithmetic>(ar: &A, part: usize, n: usize, r: Bits) -> bool {
    exists|a: Bits, b: Bits| #[trigger]
        count_is(ar, part, a) && #[trigger] count_is(ar, n, b) && quotient_is(ar, a, b, r)
}

/// The name of the mode in which tokens were observed.
pub open spec fn mode_name(approx: bool) -> Seq<char> {
    if approx {
        "top_logprobs"@
    } else {
        "logits"@
    }
}

/// `r` can be the report on these tokens.
pub open spec fn report_is<A: Arithmetic>(
    ar: &A,
    cfg: DetectorConfig,
    tokens: Seq<TokenUncertainty>,
    approx: bool,
    include_per_token: bool,
    r: Report,
) -> bool {
    &&& r.n_tokens == tokens.len()
    &&& r.mode@ == mode_name(approx)
    &&& match r.per_token {
        Some(listed) => include_per_token && listed@ == tokens,
        None => !include_per_token,
    }
    &&& r.flagged == at_most(cfg.risk_flag_threshold, r.risk_score)
    &&& if tokens.len() == 0 {
        &&& r.risk_score == ZERO
        &&& r.mean_entropy == ZERO
        &&& r.risky_fraction == ZERO
        &&& r.peak_token is None
    } else {
        &&& mean_risk_is(ar, tokens, r.risk_score)
        &&& mean_is(ar, NEGATIVE_ZERO, entropies(tokens), r.mean_entropy)
        &&& fraction_is(ar, risky_count(cfg, tokens) as usize, r.n_tokens, r.risky_fraction)
        &&& r.peak_token is Some
        &&& is_peak(entropies(tokens), r.peak_token->0 as int)
    }
}

impl Detector {
    /// The bars of the detector.
    pub closed spec fn config(self) -> DetectorConfig {
        self.cfg
    }

    /// The tokens observed so far, in order.
    pub closed spec fn observed(self) -> Seq<TokenUncertainty> {
        self.tokens@
    }

    /// Some token was observed through its top log-probabilities only.
    pub closed spec fn approximate(self) -> bool {
        self.approx
    }

    /// The running count of risky tokens is right.
    #[verifier::type_invariant]
    spec fn wf(self) -> bool {
        self.risky == risky_count(self.cfg, self.tokens@)
    }

    /// A detector that has observed nothing.
    pub fn new(cfg: DetectorConfig) -> (r: Self)
        ensures
            r.config() == cfg,
            r.observed() == Seq::<TokenUncertainty>::empty(),
            !r.approximate(),
    {
        Detector { cfg, tokens: Vec::new(), risky: 0, approx: false }
    }

    /// Observes one token through its full logits.
    pub fn observe_logits<A: Arithmetic>(&mut self, ar: &A, logits: &[Bits], chosen: usize)
        ensures
            final(self).config() == old(self).config(),
            final(self).approximate() == old(self).approximate(),
            exists|u: TokenUncertainty| #[trigger]
                from_logits_is(ar, logits@, chosen, u) && final(self).observed() == old(
                    self,
                ).observed().push(u),
    {
        let u = uncertainty_from_logits(ar, logits, chosen);
        self.push(u);
    }

    /// Observes one token through its own log-probability and the largest ones
    /// of its distribution, in any order.
    pub fn observe_top_logprobs<A: Arithmetic>(
        &mut self,
        ar: &A,
        chosen_logprob: Bits,
        top_logprobs: &[Bits],
    )
        ensures
            final(self).config() == old(self).config(),
            final(self).approximate(),
            exists|u: TokenUncertainty| #[trigger]
                from_top_logprobs_is(ar, chosen_logprob, top_logprobs@, u) && final(self).observed()
                    == old(self).observed().push(u),
    {
        let u = uncertainty_from_top_logprobs(ar, chosen_logprob, top_logprobs);
        proof {
            use_type_invariant(&*self);
        }
        self.approx = true;
        self.push(u);
    }

    /// Takes a token in, and counts it if it is risky.
    fn push(&mut self, u: TokenUncertainty)
        ensures
            final(self).config() == old(self).config(),
            final(self).approximate() == old(self).approximate(),
            final(self).observed() == old(self).observed().push(u),
    {
        let mut taken = Detector::new(self.cfg);
        std::mem::swap(self, &mut taken);
        proof {
            use_type_invariant(&taken);
            lemma_risky_are_tokens(taken.cfg, taken.tokens@);
        }
        let Detector { cfg, tokens, risky, approx } = taken;
        let ghost before = tokens@;
        let mut tokens: Vec<TokenUncertainty> = tokens;
        tokens.push(u);
        assert(tokens@.drop_last() =~= before);
        let n: usize = tokens.len();
        let risky: usize = if less(cfg.entropy_threshold, u.entropy) || less(
            u.max_prob,
            cfg.max_prob_threshold,
        ) {
            assert(risky < n);
            risky + 1
        } else {
            risky
        };
        *self = Detector { cfg, tokens, risky, approx };
    }

    /// Whether nothing has been observed.
    pub fn is_empty(&self) -> (r: bool)
        ensures
            r == (self.observed().len() == 0),
    {
        self.tokens.len() == 0
    }

    /// The report on what was observed, with the tokens if they are asked for.
    pub fn report<A: Arithmetic>(self, ar: &A, include_per_token: bool) -> (r: Report)
        ensures
            report_is(
                ar,
                self.config(),
                self.observed(),
                self.approximate(),
                include_per_token,
                r,
            ),
    {
        proof {
            use_type_invariant(&self);
        }
        let n: usize = self.tokens.len();
        let mode: &'static str = if self.approx {
            "top_logprobs"
        } else {
            "logits"
        };
        if n == 0 {
            let none: Vec<TokenUncertainty> = Vec::new();
            assert(none@ =~= self.tokens@);
            return Report {
                risk_score: ZERO,
                mean_entropy: ZERO,
                risky_fraction: ZERO,
                peak_token: None,
                n_tokens: 0,
                flagged: reaches(ZERO, self.cfg.risk_flag_threshold),
                mode,
                per_token: if include_per_token {
                    Some(none)
                } else {
                    None
                },
            };
        }
        let spreads: Vec<Bits> = list_entropies(&self.tokens);
        let risks: Vec<Bits> = list_risks(ar, &self.tokens);
        let mean_entropy: Bits = mean(ar, NEGATIVE_ZERO, spreads.as_slice());
        let risk_score: Bits = mean(ar, NEGATIVE_ZERO, risks.as_slice());
        let part: Bits = ar.count(self.risky);
        let whole: Bits = ar.count(n);
        let risky_fraction: Bits = ar.over(part, whole);
        proof {
            assert(risks_are(ar, self.tokens@, risks@));
            assert(count_is(ar, self.risky, part) && count_is(ar, n, whole));
        }
        Report {
            risk_score,
            mean_entropy,
            risky_fraction,
            peak_token: peak(spreads.as_slice()),
            n_tokens: n,
            flagged: reaches(risk_score, self.cfg.risk_flag_threshold),
            mode,
            per_token: if include_per_token {
                Some(self.tokens)
            } else {
                None
            },
        }
    }
}

/// The entropies of the tokens.
fn list_entropies(tokens: &Vec<TokenUncertainty>) -> (r: Vec<Bits>)
    ensures
        r@ == entropies(tokens@),
{
    let mut r: Vec<Bits> = Vec::new();
    let mut i: usize = 0;
    while i < tokens.len()
        invariant
            i <= tokens.len(),
            r@.len() == i,
            forall|j: int| 0 <= j < i ==> r@[j] == tokens@[j].entropy,
        decreases tokens.len() - i,
    {
        r.push(tokens[i].entropy);
        i += 1;
    }
    assert(r@ =~= entropies(tokens@));
    r
}

/// The risks of the tokens.
fn list_risks<A: Arithmetic>(ar: &A, tokens: &Vec<TokenUncertainty>) -> (r: Vec<Bits>)
    ensures
        risks_are(ar, tokens@, r@),
{
    let mut r: Vec<Bits> = Vec::new();
    let mut i: usize = 0;
    while i < tokens.len()
        invariant
            i <= tokens.len(),
            r@.len() == i,
            forall|j: int| #![trigger r@[j]] 0 <= j < i ==> risk_is(ar, tokens@[j], r@[j]),
        decreases tokens.len() - i,
    {
        r.push(tokens[i].risk(ar));
        i += 1;
    }
    r
}

/// No more tokens are risky than there are.
proof fn lemma_risky_are_tokens(cfg: DetectorConfig, tokens: Seq<TokenUncertainty>)
    ensures
        risky_count(cfg, tokens) <= tokens.len(),
    decreases tokens.len(),
{
    if tokens.len() > 0 {
        lemma_risky_are_tokens(cfg, tokens.drop_last());
    }
}

/// A report counts the tokens and marks how they were observed. It points at the
/// last token that no other exceeds in entropy, and flags the response exactly
/// when the mean risk reaches the bar.
pub proof fn law_report_agrees_with_tokens<A: Arithmetic>(
    ar: &A,
    cfg: DetectorConfig,
    tokens: Seq<TokenUncertainty>,
    approx: bool,
    include_per_token: bool,
    r: Report,
)
    requires
        report_is(ar, cfg, tokens, approx, include_per_token, r),
    ensures
        r.n_tokens == tokens.len(),
        approx <==> r.mode@ == "top_logprobs"@,
        !approx ==> r.mode@ == "logits"@,
        r.peak_token is Some <==> tokens.len() > 0,
        r.peak_token matches Some(peak) ==> peak < r.n_tokens && forall|i: int|
            #![trigger tokens[i]]
            0 <= i < tokens.len() ==> total_rank(tokens[i].entropy) <= total_rank(
                tokens[peak as int].entropy,
            ) && (i > peak ==> total_rank(tokens[i].entropy) < total_rank(
                tokens[peak as int].entropy,
            )),
        r.flagged <==> at_most(cfg.risk_flag_threshold, r.risk_score),
{
    reveal_strlit("top_logprobs");
    reveal_strlit("logits");
    assert("top_logprobs"@.len() != "logits"@.len());
    if let Some(peak) = r.peak_token {
        assert forall|i: int| #![trigger tokens[i]] 0 <= i < tokens.len() implies total_rank(
            tokens[i].entropy,
        ) <= total_rank(tokens[peak as int].entropy) && (i > peak ==> total_rank(tokens[i].entropy)
            < total_rank(tokens[peak as int].entropy)) by {
            assert(entropies(tokens)[i] == tokens[i].entropy);
        }
    }
}

/// Whether the tokens are listed changes nothing else: without its list, a report
/// with the tokens can be the report without them.
pub proof fn law_listing_changes_nothing_else<A: Arithmetic>(
    ar: &A,
    cfg: DetectorConfig,
    tokens: Seq<TokenUncertainty>,
    approx: bool,
    r: Report,
)
    requires
        report_is(ar, cfg, tokens, approx, true, r),
    ensures
        r.per_token matches Some(listed) && listed@ == tokens,
        report_is(ar, cfg, tokens, approx, false, (Report { per_token: None, ..r })),
{
}

/// A report on nothing is zero, whatever the bars, and is not flagged if the bar
/// for that is above zero.
pub proof fn law_report_on_nothing_is_zero<A: Arithmetic>(
    ar: &A,
    cfg: DetectorConfig,
    approx: bool,
    include_per_token: bool,
    r: Report,
)
    requires
        report_is(ar, cfg, Seq::empty(), approx, include_per_token, r),
    ensures
        r.risk_score == ZERO && r.mean_entropy == ZERO && r.risky_fraction == ZERO,
        r.peak_token is None && r.n_tokens == 0,
        below(ZERO, cfg.risk_flag_threshold) ==> !r.flagged,
{
}

/// Each token adds one to the count of risky tokens if it is risky, else
/// nothing, and no more tokens are risky than there are.
pub proof fn law_risky_tokens_are_counted(
    cfg: DetectorConfig,
    tokens: Seq<TokenUncertainty>,
    u: TokenUncertainty,
)
    ensures
        risky_count(cfg, tokens) <= tokens.len(),
        risky_count(cfg, tokens.push(u)) == risky_count(cfg, tokens) + if is_risky(cfg, u) {
            1int
        } else {
            0
        },
{
    lemma_risky_are_tokens(cfg, tokens);
    assert(tokens.push(u).drop_last() =~= tokens);
}

/// The places of the tokens that reach past a bar are as many as are counted.
proof fn lemma_count_of_places(
    cfg: DetectorConfig,
    tokens: Seq<TokenUncertainty>,
    counted: Set<int>,
)
    requires
        forall|i: int| #[trigger]
            counted.contains(i) <==> 0 <= i < tokens.len() && (below(
                cfg.entropy_threshold,
                tokens[i].entropy,
            ) || below(tokens[i].max_prob, cfg.max_prob_threshold)),
    ensures
        counted.finite(),
        counted.len() == risky_count(cfg, tokens),
    decreases tokens.len(),
{
    if tokens.len() == 0 {
        assert(counted =~= Set::empty());
    } else {
        let last = tokens.len() - 1;
        let fewer = tokens.drop_last();
        let rest = counted.remove(last);
        assert forall|i: int| #[trigger] rest.contains(i) <==> 0 <= i < fewer.len() && (below(
            cfg.entropy_threshold,
            fewer[i].entropy,
        ) || below(fewer[i].max_prob, cfg.max_prob_threshold)) by {
            assert(rest.contains(i) <==> counted.contains(i) && i != last);
            if 0 <= i < fewer.len() {
                assert(fewer[i] == tokens[i]);
            }
        }
        lemma_count_of_places(cfg, fewer, rest);
        if counted.contains(last) {
            assert(counted =~= rest.insert(last));
        } else {
            assert(counted =~= rest);
        }
    }
}

/// The fraction of a report is that of the tokens whose entropy exceeds its bar,
/// whatever their largest probability, or whose largest probability falls below
/// its bar, whatever their entropy.
pub proof fn law_risky_fraction_counts_both_bars<A: Arithmetic>(
    ar: &A,
    cfg: DetectorConfig,
    tokens: Seq<TokenUncertainty>,
    approx: bool,
    include_per_token: bool,
    r: Report,
    counted: Set<int>,
)
    requires
        tokens.len() > 0,
        report_is(ar, cfg, tokens, approx, include_per_token, r),
        forall|i: int| #[trigger]
            counted.contains(i) <==> 0 <= i < tokens.len() && (below(
                cfg.entropy_threshold,
                tokens[i].entropy,
            ) || below(tokens[i].max_prob, cfg.max_prob_threshold)),
    ensures
        counted.finite(),
        counted.len() <= tokens.len(),
        exists|part: Bits, whole: Bits|
            {
                &&& #[trigger] count_is(ar, counted.len() as usize, part)
                &&& #[trigger] count_is(ar, tokens.len() as usize, whole)
                &&& quotient_is(ar, part, whole, r.risky_fraction)
            },
{
    lemma_count_of_places(cfg, tokens, counted);
    lemma_risky_are_tokens(cfg, tokens);
}

/// A token is counted where its entropy exceeds its bar, and where its largest
/// probability falls below its bar; where neither holds, it is not.
pub proof fn law_either_bar_counts(
    cfg: DetectorConfig,
    tokens: Seq<TokenUncertainty>,
    u: TokenUncertainty,
)
    ensures
        below(cfg.entropy_threshold, u.entropy) ==> risky_count(cfg, tokens.push(u)) == risky_count(
            cfg,
            tokens,
        ) + 1,
        below(u.max_prob, cfg.max_prob_threshold) ==> risky_count(cfg, tokens.push(u))
            == risky_count(cfg, tokens) + 1,
        !below(cfg.entropy_threshold, u.entropy) && !below(u.max_prob, cfg.max_prob_threshold)
            ==> risky_count(cfg, tokens.push(u)) == risky_count(cfg, tokens),
{
    assert(tokens.push(u).drop_last() =~= tokens);
}

} // verus!
