//! Sorting of utility-class lists into a canonical order.
//!
//! A class list is the value of a `class` attribute: class names with
//! whitespace between them. [`engine::RustyWind`] finds the class lists of a
//! text and rewrites each one in the order that an order table and a list of
//! variants give; everything else in the text stays byte for byte as it is.
//! All text is held as bytes.
//!
//! - [`arrange`] says, as mathematics, how classes are classified and in
//!   which order a list comes out, and proves the laws of that order.
//! - [`class_wrapping`] reads a class list into its classes and writes it
//!   back, bare or in quotes with commas.
//! - [`sorter`] and [`parser`] build order tables: from a list of names, or
//!   from the selector lines of a stylesheet. [`vite`] finds a stylesheet
//!   inside a script. [`defaults`] holds the order used where none is given.
//! - [`consts`] holds the variants and recognises them at the start of a
//!   class; [`finder`] holds the pattern that finds class lists.
//! - [`runner`] decides what is done with a file, and shares a list of
//!   files out among workers.
pub mod arrange;
pub mod class_wrapping;
pub mod consts;
pub mod defaults;
pub mod engine;
pub mod finder;
pub mod parser;
pub mod runner;
pub mod sorter;
pub mod text;
pub mod vite;
