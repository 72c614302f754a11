pub mod bigint;
pub mod closures;
pub mod counter;
pub mod list;
pub mod minimum;
pub mod number_or_nothing;
pub mod references;
pub mod rgrep;
pub mod something_or_nothing;
pub mod sort;
