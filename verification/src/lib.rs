pub mod bit_search;
pub mod tree234;

pub use tree234::Tree234;
