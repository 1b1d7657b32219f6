//! Tokon Tech Log: the logic behind the tech log for MARVEL Tokon, with no
//! browser in it. The roster and the saved data, the parser that turns
//! hand-written notation into paintable pieces, the CSV bridge with the
//! spreadsheet, and what the screen lists and how it answers the user.
pub mod text;
pub mod notation;
pub mod csv;
pub mod model;
pub mod basic_notation;
pub mod screen;
