//! A countdown library: how many whole days remain until a fixed target
//! date, and the prime factorization of that count, rendered as a line of
//! comma-separated decimal numbers.

pub mod countdown;
pub mod factorize;
pub mod render;

pub use countdown::day_count;
pub use factorize::factorize;
pub use render::factor_line;
pub use render::int_string;
