pub mod suffix;
pub mod same_sum;
pub mod states;
pub mod vowels;
pub mod occurrences;
pub mod greeting;
