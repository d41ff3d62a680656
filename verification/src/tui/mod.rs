pub mod text_scenario;
pub mod vector_scenario;
