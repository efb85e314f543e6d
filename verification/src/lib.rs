//! A verified front end for a small calculator language.
//!
//! The pipeline has three verified stages: a lexer that turns text into
//! tokens, a resolver that replaces variable tokens by numeric tokens under
//! an interactive value provider, and a recursive-descent parser that builds
//! an abstract syntax tree. A fourth stage flattens the tree into a
//! post-order evaluation plan; carrying out the plan's floating-point
//! arithmetic is left to the (unverified) embedding program, since the
//! verifier does not reason about floats.

pub mod lexer;
pub mod numeral;
pub mod parser;
pub mod pipeline;
pub mod plan;
pub mod resolver;
pub mod token;

pub use lexer::produce_tokens;
pub use lexer::LexError;
pub use parser::ParseError;
pub use parser::ParseExpr;
pub use pipeline::plan_tokens;
pub use pipeline::Error;
pub use plan::EvalError;
pub use plan::Step;
pub use resolver::ResolveError;
pub use resolver::Resolver;
pub use resolver::ResolveStep;
pub use token::Token;
