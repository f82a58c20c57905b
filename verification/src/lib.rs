pub mod text;
pub mod matching;
pub mod type_parser;
pub mod names;
pub mod extractor;
pub mod decode;
pub mod pe;
pub mod rtti;
pub mod model_resolver;
pub mod dumper;
pub mod scanner;
pub mod discriminator;
pub mod laws;
pub mod compact;
pub mod listing;
