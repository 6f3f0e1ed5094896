//! Composer-domain primitives: version normalization and ordering,
//! constraint parsing and matching, PHP-compatible JSON encoding, and
//! the `composer/2.0` minified repository-metadata algorithm.

pub mod text;
pub mod stability;
pub mod grammar;
pub mod version;
pub mod bound;
pub mod constraint;
pub mod constraint_syntax;
pub mod json;
pub mod php_json;
pub mod wire;
pub mod json_text;
