pub mod ensemble;
pub mod fixed;
pub mod power;
pub mod savings;
pub mod simulate;
