pub mod config;
pub mod text;
pub mod route;
pub mod args;
pub mod cli;
pub mod fetch;
pub mod pretty;
pub mod progress;
pub mod system;
pub mod combinatorics;
pub mod shortest;
pub mod manager;
pub mod pair;
pub mod request;
pub mod utils;
pub mod state;
