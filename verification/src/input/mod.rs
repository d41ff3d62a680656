pub mod input_fields;
