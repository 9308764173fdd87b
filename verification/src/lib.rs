//! Cleaning of CloudFormation templates: a verified bidirectional map, a
//! union-find over property names built on it, and the template logic that
//! drops mutually exclusive resource properties, from the template's YAML
//! text to the cleaned tree.

pub mod entries;
pub mod index_map;
pub mod bimap;
pub mod union_find;
pub mod yaml;
pub mod naming;
pub mod template;
pub mod parse;
pub mod template_text;
