pub mod funding;
pub mod matching_against;
pub mod matching_engine;
pub mod position_manager;
pub mod risk_engine;
