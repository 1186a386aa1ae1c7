pub mod optimizer;
pub mod resident;
