pub mod grouping;
pub mod matching_engine;
pub mod risk_engine;
