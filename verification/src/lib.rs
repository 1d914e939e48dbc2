//! Order-book keeping, quoting and subscription tracking for a feed of
//! prediction-market depth updates.
pub mod auth;
pub mod decimal;
pub mod market_state;
pub mod message;
pub mod order;
pub mod orderbook;
pub mod response;
pub mod strategy;
pub mod subscription_manager;
pub mod text;
pub mod utils;
