pub mod text;
pub mod vocab;
pub mod model;
pub mod table;
pub mod natural;
pub mod classify;
