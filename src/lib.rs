pub mod traits;
pub mod swap;
pub mod one_line;
pub mod perm64;
pub mod utils;
