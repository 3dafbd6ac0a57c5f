//! Decoding of OpenType/SFNT font files: the table directory, the `name`
//! and `DSIG` tables, and the character sets that name strings are stored in.

pub mod char_sets;
pub mod cursor;
pub mod sfnt;
