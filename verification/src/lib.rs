pub mod aggregate;
pub mod bitgrid;
pub mod catalog;
pub mod counting;
pub mod oracle;
pub mod prune;
pub mod search;
pub mod symmetry;
