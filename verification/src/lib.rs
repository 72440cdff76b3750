pub mod error;
pub mod handler;
pub mod json;
pub mod laws;
pub mod jsontext;
pub mod merge;
pub mod optic;
pub mod predicate;
pub mod resolver;
pub mod rx;
pub mod sandbox;
pub mod strutil;
pub mod stub;
pub mod template;
