//! What holds of the library as a whole: each law is a proof function over the
//! same spec functions that the contracts of the executable functions use.

pub mod bytes;
pub mod draw;
pub mod effects;
pub mod encoding;
pub mod finding;
pub mod glyphs;
pub mod moves;
pub mod nav;
pub mod paging;
pub mod pattern;
pub mod rows;
pub mod screen;
pub mod search;
pub mod sliding;
pub mod state;
pub mod steps;
pub mod text;
pub mod view;
pub mod views;
