//! Compiles a textual boolean-algebra expression (variables combined with
//! NOT/AND/OR/XOR and parentheses) into an immutable postfix form, and
//! exhaustively evaluates it over every truth assignment of its variables to
//! produce a truth table.

pub mod bitstring_trait;
pub mod boolean_expression;
pub mod lexer;
pub mod parser;
pub mod table_format;
pub mod token;
