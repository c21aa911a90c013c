pub mod basic_dl85;
pub mod optimum;
pub mod ranking;
