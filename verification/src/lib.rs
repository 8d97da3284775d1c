//! A verified eligibility-gated voting library.
//!
//! The library decodes credential attribute streams into tagged items,
//! evaluates declarative eligibility policies (nationality membership and
//! date-of-birth range, each aggregated over a credential set by an
//! `Any`/`All` quantifier), and drives a vote ledger that admits each
//! eligible caller exactly once while keeping running yes/no tallies.

pub mod ledger;
pub mod policy;
pub mod scanner;
