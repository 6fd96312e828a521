//! Subsetting of PDF documents and their separation into inks.
//!
//! [`subset`] builds a new file from chosen pages of one or more documents. [`separation`] decides
//! what of a page is painted on the plate of an ink. Both work on a [`document::PdfDocument`], which
//! holds what a parser found: the objects, the pages and the operators of their content.

pub mod document;
pub mod idmap;
pub mod object;
pub mod separation;
pub mod subset;
pub mod text;
