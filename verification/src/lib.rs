pub mod text;
pub mod chars;
pub mod label;
pub mod model;
pub mod state;
pub mod builder;
pub mod thompson;
pub mod nfa;
pub mod dfa;
pub mod subset;
pub mod unique;
pub mod key;
pub mod dot;
pub mod rules;
pub mod language;
pub mod walk;
pub mod shape;
pub mod gate;
pub mod correct;
pub mod fuse;
pub mod buffer;
pub mod regexp;
pub mod parser;
pub mod lexspec;
pub mod definitions;
