//! A small document front end: it reads a markup text into a document tree
//! and a stylesheet text into a list of rules, and decorates the tree with
//! the values that the rules specify for each element.
//!
//! - [`html_parser`] and [`css_parser`] are the two parsers, each proved to
//!   compute the grammar that it states; [`scanner`] and [`text`] hold the
//!   character-level steps that they share.
//! - [`dom`] is the document tree, [`string_map`] the map that holds
//!   attributes and properties.
//! - [`style`] matches rules to elements and builds the styled tree;
//!   [`cascade`] states which declaration decides a property, and
//!   [`specificity`] the weight of a selector and the stable sort by it.
//! - [`well_formed_markup`], [`well_formed_stylesheet`] and
//!   [`opening_tags`] state what the parsers accept without referring to
//!   them, and prove that they do.
pub mod cascade;
pub mod css_parser;
pub mod dom;
pub mod error;
pub mod html_parser;
pub mod opening_tags;
pub mod scanner;
pub mod specificity;
pub mod string_map;
pub mod style;
pub mod text;
pub mod views;
pub mod well_formed_markup;
pub mod well_formed_stylesheet;
