pub mod errors;
pub mod json;
pub mod search;
pub mod strings;
pub mod utils;
pub mod value;
