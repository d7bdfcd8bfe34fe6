//! Literal, line-oriented text search with byte-based columns.

pub mod bericht;
pub mod grenzen;
pub mod hervorhebung;
pub mod kontext;
pub mod suche;
pub mod treffer;
pub mod zeilen;

pub use hervorhebung::faerbe_suchstring;
pub use suche::{suche, suche_case_insensitive, suche_case_sensitive};
pub use suche::{Suchergebnis, Suchfehler, Suchkonfiguration};
