pub mod solution;
