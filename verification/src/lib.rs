#![verifier::loop_isolation(false)]

pub mod chars;
pub mod lexer;
pub mod logten;
pub mod lang;
pub mod stemmer;
pub mod document;
pub mod corpus;
pub mod decode;
pub mod codec;
pub mod params;
