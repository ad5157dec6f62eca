//! Review a pull-request diff against the ten refactoring rules of *Five Lines of Code*.

pub mod affix;
pub mod batch;
pub mod diff;
pub mod evaluate;
pub mod inherit;
pub mod jev;
pub mod lang;
pub mod laws;
pub mod pattern;
pub mod report;
pub mod review;
pub mod rules;
pub mod syntax;
pub mod text;
pub mod tree;
pub mod units;
