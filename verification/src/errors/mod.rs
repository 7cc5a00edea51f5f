pub mod son_error;
