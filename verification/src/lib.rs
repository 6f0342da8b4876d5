//! Fusion pass of a network-request filtering engine: given a collection of
//! parsed blocking rules, it finds rules that are redundant to evaluate
//! separately and merges each safe group into one combined filter, so fewer
//! matcher invocations are needed per request. The pass never changes which
//! requests the collection as a whole matches, never grows the collection,
//! and leaves every ineligible or partnerless filter untouched; those
//! guarantees are stated and proved in `laws`.

pub mod filters;
pub mod laws;
pub mod optimizer;
pub mod sequences;
pub mod strategy;

pub use optimizer::optimize;
