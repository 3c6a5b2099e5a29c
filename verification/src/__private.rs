//! What generated code names through this library.

pub use std::collections::HashMap;
pub use std::format;
pub use std::string::String;
