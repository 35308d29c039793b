//! What the operations are for, said of what goes into them and what comes out.

pub mod lists;
pub mod loaded;
pub mod locations;
pub mod messages;
pub mod paths;
pub mod refresh;
pub mod rows;
pub mod scan;
pub mod settings;
pub mod statistics;
pub mod texts;
pub mod totals;
pub mod tree;
pub mod views;
pub mod words;
