use crate::token::Token;
use vstd::prelude::*;

verus! {

/// A half-open byte range `[start, end)` into the original source text,
/// attached to every token for diagnostics.
#[derive(Debug, PartialEq, Eq, Structural, Clone, Copy)]
pub struct Span {
    pub start: usize,
    pub end: usize,
}

/// A token kind together with the source span it was scanned from.
#[derive(Debug, PartialEq, Eq, Structural, Clone, Copy)]
pub struct Lexeme {
    pub token: Token,
    pub span: Span,
}

/// The whitespace characters the scanner discards: space, tab, newline and
/// form feed.
pub open spec fn is_whitespace_byte(b: u8) -> bool {
    b == 32 || b == 9 || b == 10 || b == 12
}

/// ASCII alphabetic characters; identifiers are one or more of these.
pub open spec fn is_alpha_byte(b: u8) -> bool {
    (97 <= b && b <= 122) || (65 <= b && b <= 90)
}

/// A lexeme built from mathematical positions.
pub open spec fn lx(t: Token, start: int, end: int) -> Lexeme {
    Lexeme { token: t, span: Span { start: start as usize, end: end as usize } }
}

/// The end of the longest run of alphabetic bytes beginning at `i`: the
/// first position at or after `i` holding a non-alphabetic byte (or the end
/// of the input).
pub open spec fn ident_end(s: Seq<u8>, i: int) -> int
    decreases s.len() - i,
        when 0 <= i <= s.len()
{
    if i < s.len() && is_alpha_byte(s[i]) {
        ident_end(s, i + 1)
    } else {
        i
    }
}

pub proof fn lemma_ident_end_bounds(s: Seq<u8>, i: int)
    requires
        0 <= i <= s.len(),
    ensures
        i <= ident_end(s, i) <= s.len(),
    decreases s.len() - i,
{
    if i < s.len() && is_alpha_byte(s[i]) {
        lemma_ident_end_bounds(s, i + 1);
    }
}

/// How many bytes an unrecognized fragment occupies: the full encoding of
/// one character (read off its leading byte), clamped to the input's end.
pub open spec fn fragment_len(s: Seq<u8>, i: int) -> int {
    let b = s[i];
    let l: int = if b >= 0xf0 {
        4
    } else if b >= 0xe0 {
        3
    } else if b >= 0xc0 {
        2
    } else {
        1
    };
    if i + l <= s.len() {
        l
    } else {
        s.len() - i
    }
}

/// The token sequence the scanner produces from position `i` onward, using
/// longest-match rules: `!`, `&&`, `||`, `^`, `(`, `)`, runs of alphabetic
/// characters as identifiers, discarded whitespace, and an error token for
/// anything else.
pub open spec fn spec_tokens(s: Seq<u8>, i: int) -> Seq<Lexeme>
    decreases s.len() - i,
        when 0 <= i <= s.len() via spec_tokens_decreases
{
    if i >= s.len() {
        Seq::empty()
    } else {
        let b = s[i];
        if is_whitespace_byte(b) {
            spec_tokens(s, i + 1)
        } else if b == 33 {  // !
            seq![lx(Token::NOT, i, i + 1)] + spec_tokens(s, i + 1)
        } else if b == 94 {  // ^
            seq![lx(Token::XOR, i, i + 1)] + spec_tokens(s, i + 1)
        } else if b == 40 {  // (
            seq![lx(Token::LPAREN, i, i + 1)] + spec_tokens(s, i + 1)
        } else if b == 41 {  // )
            seq![lx(Token::RPAREN, i, i + 1)] + spec_tokens(s, i + 1)
        } else if b == 38 {  // &
            if i + 1 < s.len() && s[i + 1] == 38 {
                seq![lx(Token::AND, i, i + 2)] + spec_tokens(s, i + 2)
            } else {
                seq![lx(Token::Error, i, i + 1)] + spec_tokens(s, i + 1)
            }
        } else if b == 124 {  // |
            if i + 1 < s.len() && s[i + 1] == 124 {
                seq![lx(Token::OR, i, i + 2)] + spec_tokens(s, i + 2)
            } else {
                seq![lx(Token::Error, i, i + 1)] + spec_tokens(s, i + 1)
            }
        } else if is_alpha_byte(b) {
            let j = ident_end(s, i);
            seq![lx(Token::IDENT, i, j)] + spec_tokens(s, j)
        } else {
            let l = fragment_len(s, i);
            seq![lx(Token::Error, i, i + l)] + spec_tokens(s, i + l)
        }
    }
}

#[via_fn]
proof fn spec_tokens_decreases(s: Seq<u8>, i: int) {
    if 0 <= i && i < s.len() && is_alpha_byte(s[i]) {
        lemma_ident_end_bounds(s, i + 1);
    }
}

/// Each token of the stream consumes at least one byte of the input.
pub proof fn lemma_spec_tokens_count(s: Seq<u8>, i: int)
    requires
        0 <= i <= s.len(),
    ensures
        spec_tokens(s, i).len() <= s.len() - i,
    decreases s.len() - i,
{
    if i < s.len() {
        let b = s[i];
        if is_whitespace_byte(b) {
            lemma_spec_tokens_count(s, i + 1);
        } else if b == 33 || b == 94 || b == 40 || b == 41 {
            lemma_spec_tokens_count(s, i + 1);
        } else if b == 38 || b == 124 {
            if i + 1 < s.len() && s[i + 1] == b {
                lemma_spec_tokens_count(s, i + 2);
            } else {
                lemma_spec_tokens_count(s, i + 1);
            }
        } else if is_alpha_byte(b) {
            lemma_ident_end_bounds(s, i + 1);
            lemma_spec_tokens_count(s, ident_end(s, i));
        } else {
            lemma_spec_tokens_count(s, i + fragment_len(s, i));
        }
    }
}

proof fn lemma_push_assoc<A>(a: Seq<A>, x: A, b: Seq<A>)
    ensures
        a + (seq![x] + b) == a.push(x) + b,
{
    assert(a + (seq![x] + b) =~= a.push(x) + b);
}

/// Scans the whole input into its token sequence, every token carrying the
/// span it was read from.
pub fn lex(src: &Vec<u8>) -> (r: Vec<Lexeme>)
    ensures
        r@ == spec_tokens(src@, 0),
        forall|k: int|
            0 <= k < r@.len() ==> (#[trigger] r@[k]).span.start <= r@[k].span.end <= src@.len(),
{
    let mut toks: Vec<Lexeme> = Vec::new();
    let mut i: usize = 0;
    let n: usize = src.len();
    while i < n
        invariant
            i <= n,
            n == src@.len(),
            spec_tokens(src@, 0) == toks@ + spec_tokens(src@, i as int),
            forall|k: int|
                0 <= k < toks@.len() ==> (#[trigger] toks@[k]).span.start <= toks@[k].span.end
                    <= src@.len(),
        decreases n - i,
    {
        let b = src[i];
        if b == 32 || b == 9 || b == 10 || b == 12 {
            i = i + 1;
        } else if b == 33 {
            proof {
                lemma_push_assoc(toks@, lx(Token::NOT, i as int, i + 1), spec_tokens(src@, i + 1));
            }
            toks.push(Lexeme { token: Token::NOT, span: Span { start: i, end: i + 1 } });
            i = i + 1;
        } else if b == 94 {
            proof {
                lemma_push_assoc(toks@, lx(Token::XOR, i as int, i + 1), spec_tokens(src@, i + 1));
            }
            toks.push(Lexeme { token: Token::XOR, span: Span { start: i, end: i + 1 } });
            i = i + 1;
        } else if b == 40 {
            proof {
                lemma_push_assoc(
                    toks@,
                    lx(Token::LPAREN, i as int, i + 1),
                    spec_tokens(src@, i + 1),
                );
            }
            toks.push(Lexeme { token: Token::LPAREN, span: Span { start: i, end: i + 1 } });
            i = i + 1;
        } else if b == 41 {
            proof {
                lemma_push_assoc(
                    toks@,
                    lx(Token::RPAREN, i as int, i + 1),
                    spec_tokens(src@, i + 1),
                );
            }
            toks.push(Lexeme { token: Token::RPAREN, span: Span { start: i, end: i + 1 } });
            i = i + 1;
        } else if b == 38 {
            if i + 1 < n && src[i + 1] == 38 {
                proof {
                    lemma_push_assoc(
                        toks@,
                        lx(Token::AND, i as int, i + 2),
                        spec_tokens(src@, i + 2),
                    );
                }
                toks.push(Lexeme { token: Token::AND, span: Span { start: i, end: i + 2 } });
                i = i + 2;
            } else {
                proof {
                    lemma_push_assoc(
                        toks@,
                        lx(Token::Error, i as int, i + 1),
                        spec_tokens(src@, i + 1),
                    );
                }
                toks.push(Lexeme { token: Token::Error, span: Span { start: i, end: i + 1 } });
                i = i + 1;
            }
        } else if b == 124 {
            if i + 1 < n && src[i + 1] == 124 {
                proof {
                    lemma_push_assoc(
                        toks@,
                        lx(Token::OR, i as int, i + 2),
                        spec_tokens(src@, i + 2),
                    );
                }
                toks.push(Lexeme { token: Token::OR, span: Span { start: i, end: i + 2 } });
                i = i + 2;
            } else {
                proof {
                    lemma_push_assoc(
                        toks@,
                        lx(Token::Error, i as int, i + 1),
                        spec_tokens(src@, i + 1),
                    );
                }
                toks.push(Lexeme { token: Token::Error, span: Span { start: i, end: i + 1 } });
                i = i + 1;
            }
        } else if (97 <= b && b <= 122) || (65 <= b && b <= 90) {
            let start = i;
            let mut j: usize = i + 1;
            while j < n && ((97 <= src[j] && src[j] <= 122) || (65 <= src[j] && src[j] <= 90))
                invariant
                    start < j <= n,
                    n == src@.len(),
                    ident_end(src@, start as int) == ident_end(src@, j as int),
                decreases n - j,
            {
                j = j + 1;
            }
            proof {
                assert(ident_end(src@, j as int) == j);
                lemma_push_assoc(
                    toks@,
                    lx(Token::IDENT, start as int, j as int),
                    spec_tokens(src@, j as int),
                );
            }
            toks.push(Lexeme { token: Token::IDENT, span: Span { start, end: j } });
            i = j;
        } else {
            let guess: usize = if b >= 0xf0 {
                4
            } else if b >= 0xe0 {
                3
            } else if b >= 0xc0 {
                2
            } else {
                1
            };
            let rem: usize = n - i;
            let l: usize = if guess <= rem {
                guess
            } else {
                rem
            };
            proof {
                assert(l == fragment_len(src@, i as int));
                lemma_push_assoc(
                    toks@,
                    lx(Token::Error, i as int, i + l),
                    spec_tokens(src@, i + l),
                );
            }
            toks.push(Lexeme { token: Token::Error, span: Span { start: i, end: i + l } });
            i = i + l;
        }
    }
    proof {
        assert(toks@ + spec_tokens(src@, n as int) =~= toks@);
    }
    toks
}

} // verus!
