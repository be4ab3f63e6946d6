//! Verified core of the Goal Digger match and tournament simulator and of the
//! Aomi playground tools.
//!
//! The floating-point model (expected goals, scoreline probabilities, random
//! draws) lives with the host application; this crate holds the integer logic
//! that decides what the simulation counts, how ties are resolved, how a
//! bracket advances and how results are ranked, each with a proved contract.

pub mod bracket;
pub mod decimal;
pub mod greeting;
pub mod knockout;
pub mod params;
pub mod ranking;
pub mod tally;
