//! Parse xvg-formatted plot data and render a density graph of two of its
//! columns as shaded text, entirely over plain values: text as sequences of
//! `char`, numeric samples as the 32-bit patterns of the values they encode.

pub mod attrs;
pub mod data;
pub mod render;
pub mod text;
