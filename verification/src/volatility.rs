pub mod true_range;
