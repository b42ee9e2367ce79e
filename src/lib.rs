pub mod delay_line;
pub mod lfo;
pub mod processor;
