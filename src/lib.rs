//! Human-numeric line ordering: embedded digit runs compare by value, so
//! `item2` sorts before `item10`.

pub mod args;
pub mod humnum;
pub mod numeric;
pub mod pipeline;

pub use args::{Args, Mode, Options};
pub use humnum::{compare_lines, compare_text, HumanNumericLine};
pub use numeric::parse_number;
pub use pipeline::{humnum_sort, sort_ranges, split_lines};
