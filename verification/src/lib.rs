pub mod card;
pub mod date;
pub mod files;
pub mod order;
pub mod progress;
pub mod review;
pub mod session;
pub mod stats;
pub mod store;
