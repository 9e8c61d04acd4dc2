pub mod smooth;
