//! Tools for reading the text of HTML documents.
//!
//! The heart of the library groups the raw text fragments of a document into
//! paragraphs and splits each paragraph into sentence-like units:
//!
//! - [`tokens`] cuts the fragments into line breaks and lines;
//! - [`threshold`] estimates how many line breaks in a row end a paragraph;
//! - [`grouper`] gathers the lines into paragraphs and runs the whole;
//! - [`regroup`] ties neighbouring lines of a paragraph into chains;
//! - [`joiner`] joins a chain into one text and repairs the spacing around
//!   punctuation, with the help of [`punctuation`] and [`lexicon`];
//! - [`splitter`] splits a text into units at light delimiters;
//! - [`cleanup`] removes stop words and leaves out boilerplate;
//! - [`laws`] states what holds of all this on every input.
//!
//! Around it stand [`text`] and [`pattern`], on which the rest is built, and
//! what is read from a page besides: [`nodes`], [`paragraphs`], [`meta`],
//! [`descriptions`], [`links`], [`emails`], [`names`], [`palette`] and, putting
//! these together, [`sentences`].

pub mod cleanup;
pub mod descriptions;
pub mod emails;
pub mod grouper;
pub mod joiner;
pub mod laws;
pub mod lexicon;
pub mod links;
pub mod meta;
pub mod names;
pub mod nodes;
pub mod palette;
pub mod paragraphs;
pub mod pattern;
pub mod punctuation;
pub mod regroup;
pub mod sentences;
pub mod splitter;
pub mod text;
pub mod threshold;
pub mod tokens;
