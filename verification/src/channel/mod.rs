pub mod channel;
pub mod channel_errors;
pub mod reed_muller;
pub mod split_vector;
pub mod walsh;
