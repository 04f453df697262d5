pub mod keys;
pub mod strmap;
pub mod config;
pub mod model;
pub mod calendar;
pub mod textorder;
pub mod history;
pub mod summary;
pub mod setup;
pub mod rng;
pub mod appearance;
pub mod planner;
