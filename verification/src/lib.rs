//! Decision core of a paper-trading research lab.

pub mod analysis;
pub mod api;
pub mod audit;
pub mod capture;
pub mod db;
pub mod export;
pub mod json;
pub mod model;
pub mod num;
pub mod paper;
pub mod text;
