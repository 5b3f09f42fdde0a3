pub mod preprocessor;
