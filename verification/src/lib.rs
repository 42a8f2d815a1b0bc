//! Uncertainty instrumentation for the output distributions of language models.
//!
//! The lower half of the crate turns the distribution of each generated token
//! into uncertainty signals and aggregates them into a report over the whole
//! response. [`float`] and [`order`] compare binary32 numbers by their
//! encodings, [`arithmetic`] relates what is computed to what the operations
//! returned, [`uncertainty`] holds the signals of one token and [`detector`] the
//! report. [`bounds`], [`determined`], [`shift`] and [`masking`] state what holds
//! of every one. [`exact`], [`truncation`] and [`averages`] hold the signals and the
//! report against exact ones, and [`modes`] the two ways of observing a token
//! against each other, with the real numbers of [`accuracy`] and [`sums`] and the
//! exact entropies of [`folding`].
//!
//! The upper half decides for a proxy in front of an OpenAI-compatible server.
//! [`analysis`] reads the log-probabilities out of an answer, all of them as
//! [`readings`] states, and [`encode`] writes the report, over the JSON values of
//! [`json`]. [`proxy`] decides what becomes of a request and what the client is
//! answered. [`headers`], [`status`] and [`passage`] say what is relayed,
//! [`settings`] where to, with the text operations of [`text`].
//!
//! The signals are no oracle: a high risk score goes along with confabulation,
//! but does not prove it.

pub mod accuracy;
pub mod analysis;
pub mod arithmetic;
pub mod averages;
pub mod bounds;
pub mod detector;
pub mod determined;
pub mod encode;
pub mod exact;
pub mod float;
pub mod folding;
pub mod headers;
pub mod json;
pub mod masking;
pub mod modes;
pub mod order;
pub mod passage;
pub mod proxy;
pub mod readings;
pub mod settings;
pub mod shift;
pub mod status;
pub mod sums;
pub mod text;
pub mod truncation;
pub mod uncertainty;
