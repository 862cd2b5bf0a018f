//! Counter bookkeeping, counter-style text generation and text-position
//! lookup for a CSS layout engine.

pub mod std_text;
pub mod numerals;
pub mod counter_style;
pub mod counters;
pub mod au;
pub mod text_position;
