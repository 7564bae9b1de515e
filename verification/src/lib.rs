pub mod answer;
pub mod copy;
pub mod driver;
pub mod fs_model;
pub mod invoke;
