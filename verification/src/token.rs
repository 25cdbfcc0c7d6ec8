use vstd::prelude::*;

verus! {

/// The tokens of the minimal boolean-algebra expression language.
/// `IDENT` is an identifier (a boolean variable): one or more ASCII
/// alphabetic characters, case sensitive. `Error` marks an unrecognized
/// fragment of the input.
#[derive(Debug, PartialEq, Eq, Structural, Clone, Copy)]
pub enum Token {
    NOT,
    AND,
    OR,
    XOR,
    LPAREN,
    RPAREN,
    IDENT,
    Error,
}

impl Token {
    /// The fixed binding-strength table used by the operator-stack reduction:
    /// NOT binds tightest, then AND, then OR, then XOR. An open parenthesis
    /// sits above every operator, so the reduction never pops past it.
    pub open spec fn spec_precedence(self) -> int {
        match self {
            Token::NOT => 0,
            Token::AND => 1,
            Token::OR => 2,
            Token::XOR => 3,
            Token::LPAREN => 4,
            Token::RPAREN => 5,
            Token::IDENT => 6,
            Token::Error => 7,
        }
    }

    /// Looks up the token's precedence in the fixed table.
    pub fn precedence(self) -> (r: u8)
        ensures
            r as int == self.spec_precedence(),
    {
        match self {
            Token::NOT => 0,
            Token::AND => 1,
            Token::OR => 2,
            Token::XOR => 3,
            Token::LPAREN => 4,
            Token::RPAREN => 5,
            Token::IDENT => 6,
            Token::Error => 7,
        }
    }

    /// Whether the token is one of the binary operators AND, OR, XOR.
    pub open spec fn spec_is_binary_operator(self) -> bool {
        self is AND || self is OR || self is XOR
    }

    /// Checks whether the token is a binary operator.
    /// The binary operators are AND, OR and XOR.
    pub fn is_binary_operator(self) -> (r: bool)
        ensures
            r == self.spec_is_binary_operator(),
    {
        match self {
            Token::AND | Token::OR | Token::XOR => true,
            _ => false,
        }
    }

    /// Whether the token is an operator at all (unary NOT or a binary one).
    pub open spec fn spec_is_operator(self) -> bool {
        self is NOT || self is AND || self is OR || self is XOR
    }
}

} // verus!
