use crate::boolean_expression::{names_view, BooleanExpression, BooleanExpressionToken};
use crate::lexer::{lex, spec_tokens, Lexeme, Span};
use crate::token::Token;
use vstd::prelude::*;

verus! {

/// The distinct compilation failures: one lexical error and the syntax
/// errors of the contextual adjacency validation.
#[derive(Debug, PartialEq, Eq, Structural, Clone, Copy)]
pub enum ParseErrorKind {
    /// An unrecognized character or fragment in the input.
    UnknownToken,
    /// An identifier was directly followed by an identifier, an opening
    /// parenthesis or NOT.
    ExpectedBinaryOperator,
    /// An opening parenthesis was directly followed by a binary operator.
    ExpectedOperandAfterParenthesis,
    /// A closing parenthesis found no matching opening parenthesis.
    UnmatchedLeftParenthesis,
    /// A closing parenthesis was directly followed by an identifier, NOT or
    /// an opening parenthesis.
    ExpectedBinaryOperatorAfterGroup,
    /// A binary operator opened the expression.
    MissingLeftHandSide,
    /// An operator was directly followed by a binary operator or a closing
    /// parenthesis.
    ExpectedOperand,
    /// An operator ended the expression.
    MissingRightHandSide,
    /// An opening parenthesis was never closed.
    UnmatchedRightParenthesis,
}

impl ParseErrorKind {
    /// The human-readable message of each failure.
    pub open spec fn spec_message(self) -> Seq<char> {
        match self {
            ParseErrorKind::UnknownToken => "Unknown token"@,
            ParseErrorKind::ExpectedBinaryOperator => "Expected binary operator or right parenthesis."@,
            ParseErrorKind::ExpectedOperandAfterParenthesis => "Expected parenthesis, variable or unary operator"@,
            ParseErrorKind::UnmatchedLeftParenthesis => "Unmatched left parenthesis"@,
            ParseErrorKind::ExpectedBinaryOperatorAfterGroup => "Expected binary operator or right parenthesis"@,
            ParseErrorKind::MissingLeftHandSide => "Missing left hand side of binary expression"@,
            ParseErrorKind::ExpectedOperand => "Expected variable, left parenthesis or unary operator"@,
            ParseErrorKind::MissingRightHandSide => "Missing right hand side of binary expression"@,
            ParseErrorKind::UnmatchedRightParenthesis => "Unmatched right parenthesis"@,
        }
    }
}

/// A compilation failure: what went wrong, and the source span responsible.
#[derive(Debug, PartialEq, Eq, Structural, Clone, Copy)]
pub struct ParseError {
    pub kind: ParseErrorKind,
    pub span: Span,
}

impl ParseError {
    /// The human-readable message of this failure.
    pub fn message(&self) -> (r: &'static str)
        ensures
            r@ == self.kind.spec_message(),
    {
        match self.kind {
            ParseErrorKind::UnknownToken => "Unknown token",
            ParseErrorKind::ExpectedBinaryOperator => "Expected binary operator or right parenthesis.",
            ParseErrorKind::ExpectedOperandAfterParenthesis => "Expected parenthesis, variable or unary operator",
            ParseErrorKind::UnmatchedLeftParenthesis => "Unmatched left parenthesis",
            ParseErrorKind::ExpectedBinaryOperatorAfterGroup => "Expected binary operator or right parenthesis",
            ParseErrorKind::MissingLeftHandSide => "Missing left hand side of binary expression",
            ParseErrorKind::ExpectedOperand => "Expected variable, left parenthesis or unary operator",
            ParseErrorKind::MissingRightHandSide => "Missing right hand side of binary expression",
            ParseErrorKind::UnmatchedRightParenthesis => "Unmatched right parenthesis",
        }
    }
}

/// The parser's internal state: the operator stack (operator tokens and
/// open-parenthesis markers, each with its span), the postfix output
/// accumulator, the interned variable names in first-occurrence order, and
/// whether any token has been consumed yet.
#[verifier::ext_equal]
pub ghost struct ParserState {
    pub stack: Seq<Lexeme>,
    pub out: Seq<BooleanExpressionToken>,
    pub vars: Seq<Seq<u8>>,
    pub started: bool,
}

/// A successful compilation: the postfix sequence and the variable names in
/// first-occurrence order.
#[verifier::ext_equal]
pub ghost struct ParseOutput {
    pub out: Seq<BooleanExpressionToken>,
    pub vars: Seq<Seq<u8>>,
}

/// The state before any token is consumed.
pub open spec fn init_state() -> ParserState {
    ParserState { stack: Seq::empty(), out: Seq::empty(), vars: Seq::empty(), started: false }
}

/// The text a lexeme covers in the source.
pub open spec fn lexeme_text(src: Seq<u8>, l: Lexeme) -> Seq<u8> {
    src.subrange(l.span.start as int, l.span.end as int)
}

/// The position of the first occurrence of `name` in `vars`.
pub open spec fn first_index(vars: Seq<Seq<u8>>, name: Seq<u8>) -> int
    decreases vars.len(),
{
    if vars.len() == 0 {
        0
    } else if vars[0] == name {
        0
    } else {
        1 + first_index(vars.subrange(1, vars.len() as int), name)
    }
}

pub proof fn lemma_first_index_bounds(vars: Seq<Seq<u8>>, name: Seq<u8>)
    requires
        vars.contains(name),
    ensures
        0 <= first_index(vars, name) < vars.len(),
        vars[first_index(vars, name)] == name,
    decreases vars.len(),
{
    if vars.len() > 0 && vars[0] != name {
        let d = vars.subrange(1, vars.len() as int);
        let i = choose|i: int| 0 <= i < vars.len() && vars[i] == name;
        assert(d[i - 1] == name);
        assert(d.contains(name));
        lemma_first_index_bounds(d, name);
    }
}

/// The first occurrence of a name already present is unchanged by
/// interning a fresh name behind it.
pub proof fn lemma_first_index_push(vars: Seq<Seq<u8>>, nm: Seq<u8>, x: Seq<u8>)
    requires
        vars.contains(x),
    ensures
        first_index(vars.push(nm), x) == first_index(vars, x),
    decreases vars.len(),
{
    assert(vars.len() > 0);
    if vars[0] == x {
        assert(vars.push(nm)[0] == x);
    } else {
        let d = vars.subrange(1, vars.len() as int);
        let i = choose|i: int| 0 <= i < vars.len() && vars[i] == x;
        assert(d[i - 1] == x);
        assert(d.contains(x));
        lemma_first_index_push(d, nm, x);
        assert(vars.push(nm).subrange(1, vars.push(nm).len() as int) =~= d.push(nm));
    }
}

/// A freshly interned name gets the next sequential id.
pub proof fn lemma_first_index_push_self(vars: Seq<Seq<u8>>, nm: Seq<u8>)
    requires
        !vars.contains(nm),
    ensures
        first_index(vars.push(nm), nm) == vars.len(),
    decreases vars.len(),
{
    if vars.len() == 0 {
        assert(vars.push(nm)[0] == nm);
    } else {
        assert(vars[0] != nm);
        let d = vars.subrange(1, vars.len() as int);
        assert(forall|k: int| 0 <= k < d.len() ==> d[k] == vars[k + 1]);
        assert(!d.contains(nm)) by {
            if d.contains(nm) {
                let i = choose|i: int| 0 <= i < d.len() && d[i] == nm;
                assert(vars[i + 1] == nm);
            }
        }
        lemma_first_index_push_self(d, nm);
        assert(vars.push(nm).subrange(1, vars.push(nm).len() as int) =~= d.push(nm));
    }
}

pub proof fn lemma_first_index_of(vars: Seq<Seq<u8>>, name: Seq<u8>, j: int)
    requires
        0 <= j < vars.len(),
        vars[j] == name,
        forall|k: int| 0 <= k < j ==> vars[k] != name,
    ensures
        first_index(vars, name) == j,
    decreases vars.len(),
{
    if j > 0 {
        let d = vars.subrange(1, vars.len() as int);
        assert(d[j - 1] == name);
        assert(forall|k: int| 0 <= k < j - 1 ==> d[k] == vars[k + 1]);
        lemma_first_index_of(d, name, j - 1);
    }
}

/// Pops operators to the output until an open-parenthesis marker is found
/// and discarded; `None` when the stack empties without one.
pub open spec fn pop_to_lparen(stack: Seq<Lexeme>, out: Seq<BooleanExpressionToken>) -> Option<
    (Seq<Lexeme>, Seq<BooleanExpressionToken>),
>
    decreases stack.len(),
{
    if stack.len() == 0 {
        None
    } else if stack.last().token is LPAREN {
        Some((stack.drop_last(), out))
    } else {
        pop_to_lparen(stack.drop_last(), out.push(BooleanExpressionToken::OPERATOR(stack.last().token)))
    }
}

/// Pops to the output every stacked operator whose precedence is at or
/// below the incoming binary operator's. The open-parenthesis marker sits
/// above every operator, so the sweep never crosses it.
pub open spec fn pop_lower(stack: Seq<Lexeme>, out: Seq<BooleanExpressionToken>, t: Token) -> (
    Seq<Lexeme>,
    Seq<BooleanExpressionToken>,
)
    decreases stack.len(),
{
    if stack.len() == 0 {
        (stack, out)
    } else if stack.last().token.spec_precedence() <= t.spec_precedence() {
        pop_lower(
            stack.drop_last(),
            out.push(BooleanExpressionToken::OPERATOR(stack.last().token)),
            t,
        )
    } else {
        (stack, out)
    }
}

/// Drains the remaining operator stack to the output at end of input; an
/// open-parenthesis marker left over means an unclosed group.
pub open spec fn drain_stack(stack: Seq<Lexeme>, out: Seq<BooleanExpressionToken>) -> Result<
    Seq<BooleanExpressionToken>,
    ParseError,
>
    decreases stack.len(),
{
    if stack.len() == 0 {
        Ok(out)
    } else if stack.last().token is LPAREN {
        Err(ParseError { kind: ParseErrorKind::UnmatchedRightParenthesis, span: stack.last().span })
    } else {
        drain_stack(stack.drop_last(), out.push(BooleanExpressionToken::OPERATOR(stack.last().token)))
    }
}

/// The one-token lookahead: the token following the current one, if any.
pub open spec fn peek_token(toks: Seq<Lexeme>, i: int) -> Option<Lexeme> {
    if 0 <= i < toks.len() {
        Some(toks[i])
    } else {
        None
    }
}

/// Whether the lookahead token is one of three given kinds.
pub open spec fn next_is_one_of(next: Option<Lexeme>, a: Token, b: Token, c: Token) -> bool {
    match next {
        Some(nx) => nx.token == a || nx.token == b || nx.token == c,
        None => false,
    }
}

/// Whether the lookahead token is a binary operator.
pub open spec fn next_is_binary(next: Option<Lexeme>) -> bool {
    match next {
        Some(nx) => nx.token.spec_is_binary_operator(),
        None => false,
    }
}

/// Whether the lookahead token is a binary operator or a closing
/// parenthesis.
pub open spec fn next_is_binary_or_rparen(next: Option<Lexeme>) -> bool {
    match next {
        Some(nx) => nx.token.spec_is_binary_operator() || nx.token is RPAREN,
        None => false,
    }
}

/// The lookahead token's span; meaningful when there is one.
pub open spec fn next_span(next: Option<Lexeme>) -> Span {
    match next {
        Some(nx) => nx.span,
        None => Span { start: 0, end: 0 },
    }
}

/// One token of the shunting-yard reduction with contextual validation,
/// exactly as the parser processes it: `t` is the current token and `next`
/// the one-token lookahead used by the adjacency checks.
pub open spec fn parse_step(
    src: Seq<u8>,
    st: ParserState,
    t: Lexeme,
    next: Option<Lexeme>,
) -> Result<ParserState, ParseError> {
    if t.token is Error {
        Err(ParseError { kind: ParseErrorKind::UnknownToken, span: t.span })
    } else if t.token is IDENT {
        if next_is_one_of(next, Token::IDENT, Token::LPAREN, Token::NOT) {
            Err(ParseError { kind: ParseErrorKind::ExpectedBinaryOperator, span: next_span(next) })
        } else {
            let name = lexeme_text(src, t);
            let id: int = if st.vars.contains(name) {
                first_index(st.vars, name)
            } else {
                st.vars.len() as int
            };
            let vars2 = if st.vars.contains(name) {
                st.vars
            } else {
                st.vars.push(name)
            };
            Ok(
                ParserState {
                    stack: st.stack,
                    out: st.out.push(BooleanExpressionToken::IDENT(id as u32)),
                    vars: vars2,
                    started: true,
                },
            )
        }
    } else if t.token is LPAREN {
        if next_is_binary(next) {
            Err(
                ParseError {
                    kind: ParseErrorKind::ExpectedOperandAfterParenthesis,
                    span: next_span(next),
                },
            )
        } else {
            Ok(
                ParserState {
                    stack: st.stack.push(t),
                    out: st.out,
                    vars: st.vars,
                    started: true,
                },
            )
        }
    } else if t.token is RPAREN {
        match pop_to_lparen(st.stack, st.out) {
            None => Err(
                ParseError { kind: ParseErrorKind::UnmatchedLeftParenthesis, span: t.span },
            ),
            Some(so) => {
                if next_is_one_of(next, Token::IDENT, Token::NOT, Token::LPAREN) {
                    Err(
                        ParseError {
                            kind: ParseErrorKind::ExpectedBinaryOperatorAfterGroup,
                            span: next_span(next),
                        },
                    )
                } else {
                    Ok(ParserState { stack: so.0, out: so.1, vars: st.vars, started: true })
                }
            },
        }
    } else {
        let popped = if t.token is NOT {
            (st.stack, st.out)
        } else {
            pop_lower(st.stack, st.out, t.token)
        };
        if !st.started && t.token.spec_is_binary_operator() {
            Err(ParseError { kind: ParseErrorKind::MissingLeftHandSide, span: t.span })
        } else if next_is_binary_or_rparen(next) {
            Err(ParseError { kind: ParseErrorKind::ExpectedOperand, span: next_span(next) })
        } else if next is None {
            Err(ParseError { kind: ParseErrorKind::MissingRightHandSide, span: t.span })
        } else {
            Ok(
                ParserState {
                    stack: popped.0.push(t),
                    out: popped.1,
                    vars: st.vars,
                    started: true,
                },
            )
        }
    }
}

/// The reduction run over the tokens from position `i` on, starting in
/// state `st`: the state at end of input, or the first error.
pub open spec fn parse_run(
    src: Seq<u8>,
    toks: Seq<Lexeme>,
    i: int,
    st: ParserState,
) -> Result<ParserState, ParseError>
    decreases toks.len() - i,
        when i >= 0
{
    if i >= toks.len() {
        Ok(st)
    } else {
        match parse_step(src, st, toks[i], peek_token(toks, i + 1)) {
            Ok(st2) => parse_run(src, toks, i + 1, st2),
            Err(e) => Err(e),
        }
    }
}

/// What parsing a token stream produces: the run over all tokens followed
/// by the end-of-input drain of the operator stack.
pub open spec fn parse_spec(src: Seq<u8>, toks: Seq<Lexeme>) -> Result<ParseOutput, ParseError> {
    match parse_run(src, toks, 0, init_state()) {
        Err(e) => Err(e),
        Ok(st) => match drain_stack(st.stack, st.out) {
            Err(e) => Err(e),
            Ok(out) => Ok(ParseOutput { out, vars: st.vars }),
        },
    }
}

/// What compiling a source text produces: scanning, then parsing.
pub open spec fn compile_spec(src: Seq<u8>) -> Result<ParseOutput, ParseError> {
    parse_spec(src, spec_tokens(src, 0))
}

/// The texts of the identifier tokens of a stream, in order.
pub open spec fn ident_texts(src: Seq<u8>, toks: Seq<Lexeme>) -> Seq<Seq<u8>>
    decreases toks.len(),
{
    if toks.len() == 0 {
        Seq::empty()
    } else {
        let p = ident_texts(src, toks.drop_last());
        if toks.last().token is IDENT {
            p.push(lexeme_text(src, toks.last()))
        } else {
            p
        }
    }
}

/// The names of a sequence with later repetitions removed: each name once,
/// in first-occurrence order.
pub open spec fn firsts(names: Seq<Seq<u8>>) -> Seq<Seq<u8>>
    decreases names.len(),
{
    if names.len() == 0 {
        Seq::empty()
    } else {
        let p = firsts(names.drop_last());
        if p.contains(names.last()) {
            p
        } else {
            p.push(names.last())
        }
    }
}

/// The ids of the identifier tokens of a postfix sequence, in order.
pub open spec fn ident_ids(out: Seq<BooleanExpressionToken>) -> Seq<u32>
    decreases out.len(),
{
    if out.len() == 0 {
        Seq::empty()
    } else {
        let p = ident_ids(out.drop_last());
        match out.last() {
            BooleanExpressionToken::IDENT(id) => p.push(id),
            _ => p,
        }
    }
}

/// `firsts` keeps exactly the names of its input.
pub proof fn lemma_firsts_contains(names: Seq<Seq<u8>>, x: Seq<u8>)
    ensures
        firsts(names).contains(x) == names.contains(x),
    decreases names.len(),
{
    if names.len() > 0 {
        let d = names.drop_last();
        lemma_firsts_contains(d, x);
        if names.contains(x) {
            let i = choose|i: int| 0 <= i < names.len() && names[i] == x;
            if i < d.len() {
                assert(d[i] == x);
                assert(d.contains(x));
            }
        }
        if d.contains(x) {
            let i = choose|i: int| 0 <= i < d.len() && d[i] == x;
            assert(names[i] == x);
            assert(names.contains(x));
        }
        if names.last() == x {
            assert(names[names.len() - 1] == x);
            assert(names.contains(x));
        }
        let p = firsts(d);
        if !p.contains(names.last()) {
            // firsts(names) == p.push(names.last())
            if firsts(names).contains(x) {
                let i = choose|i: int| 0 <= i < firsts(names).len() && firsts(names)[i] == x;
                if i < p.len() {
                    assert(p[i] == x);
                    assert(p.contains(x));
                }
            }
            if p.contains(x) {
                let i = choose|i: int| 0 <= i < p.len() && p[i] == x;
                assert(firsts(names)[i] == x);
                assert(firsts(names).contains(x));
            }
            if names.last() == x {
                assert(firsts(names)[p.len() as int] == x);
                assert(firsts(names).contains(x));
            }
        }
    }
}

/// `firsts` never repeats a name.
pub proof fn lemma_firsts_no_duplicates(names: Seq<Seq<u8>>)
    ensures
        firsts(names).no_duplicates(),
    decreases names.len(),
{
    if names.len() > 0 {
        let d = names.drop_last();
        lemma_firsts_no_duplicates(d);
        let p = firsts(d);
        if !p.contains(names.last()) {
            assert forall|i: int, j: int|
                0 <= i < p.push(names.last()).len() && 0 <= j < p.push(names.last()).len() && i
                    != j implies p.push(names.last())[i] != p.push(names.last())[j] by {
                if i < p.len() && j < p.len() {
                    assert(p[i] == p.push(names.last())[i]);
                } else if j == p.len() {
                    if p[i] == names.last() {
                        assert(p.contains(names.last()));
                    }
                } else if i == p.len() {
                    if p[j] == names.last() {
                        assert(p.contains(names.last()));
                    }
                }
            }
        }
    }
}

} // verus!

verus! {

proof fn lemma_names_view_push(vars: Seq<Vec<u8>>, v: Vec<u8>)
    ensures
        names_view(vars.push(v)) == names_view(vars).push(v@),
{
    assert(names_view(vars.push(v)) =~= names_view(vars).push(v@));
}

proof fn lemma_ident_ids_push_op(out: Seq<BooleanExpressionToken>, op: Token)
    ensures
        ident_ids(out.push(BooleanExpressionToken::OPERATOR(op))) == ident_ids(out),
{
    assert(out.push(BooleanExpressionToken::OPERATOR(op)).drop_last() =~= out);
}

proof fn lemma_ident_ids_push_ident(out: Seq<BooleanExpressionToken>, id: u32)
    ensures
        ident_ids(out.push(BooleanExpressionToken::IDENT(id))) == ident_ids(out).push(id),
{
    assert(out.push(BooleanExpressionToken::IDENT(id)).drop_last() =~= out);
}

proof fn lemma_ident_texts_step(src: Seq<u8>, toks: Seq<Lexeme>, i: int)
    requires
        0 <= i < toks.len(),
    ensures
        ident_texts(src, toks.subrange(0, i + 1)) == (if toks[i].token is IDENT {
            ident_texts(src, toks.subrange(0, i)).push(lexeme_text(src, toks[i]))
        } else {
            ident_texts(src, toks.subrange(0, i))
        }),
{
    assert(toks.subrange(0, i + 1).drop_last() =~= toks.subrange(0, i));
    assert(toks.subrange(0, i + 1).last() == toks[i]);
}

proof fn lemma_firsts_step(names: Seq<Seq<u8>>, x: Seq<u8>)
    ensures
        firsts(names.push(x)) == (if firsts(names).contains(x) {
            firsts(names)
        } else {
            firsts(names).push(x)
        }),
{
    assert(names.push(x).drop_last() =~= names);
}

/// Extracts the bytes of `src` in the half-open range `[start, end)`.
fn extract_bytes(src: &Vec<u8>, start: usize, end: usize) -> (r: Vec<u8>)
    requires
        start <= end <= src@.len(),
    ensures
        r@ == src@.subrange(start as int, end as int),
{
    let mut out: Vec<u8> = Vec::new();
    proof {
        assert(out@ =~= src@.subrange(start as int, start as int));
    }
    let mut k: usize = start;
    while k < end
        invariant
            start <= k <= end,
            end <= src@.len(),
            out@ == src@.subrange(start as int, k as int),
        decreases end - k,
    {
        out.push(src[k]);
        proof {
            assert(src@.subrange(start as int, k as int + 1) =~= src@.subrange(
                start as int,
                k as int,
            ).push(src@[k as int]));
        }
        k = k + 1;
    }
    out
}

/// Looks a name up in the interned variable list: the position of its first
/// occurrence, if it is present.
fn find_name(vars: &Vec<Vec<u8>>, name: &Vec<u8>) -> (r: Option<usize>)
    ensures
        match r {
            Some(j) => j < vars@.len() && vars@[j as int]@ == name@ && (forall|k: int|
                0 <= k < j ==> (#[trigger] vars@[k])@ != name@),
            None => forall|k: int| 0 <= k < vars@.len() ==> (#[trigger] vars@[k])@ != name@,
        },
{
    let n: usize = vars.len();
    let mut j: usize = 0;
    while j < n
        invariant
            j <= n,
            n == vars@.len(),
            forall|k: int| 0 <= k < j ==> (#[trigger] vars@[k])@ != name@,
        decreases n - j,
    {
        if crate::boolean_expression::bytes_eq(&vars[j], name) {
            return Some(j);
        }
        j = j + 1;
    }
    None
}

/// The state the executable parser's locals denote.
pub open spec fn cur_state(
    stack: Seq<Lexeme>,
    out: Seq<BooleanExpressionToken>,
    vars: Seq<Vec<u8>>,
    prev: Option<Token>,
) -> ParserState {
    ParserState { stack, out, vars: names_view(vars), started: prev is Some }
}

/// The expression compiler: scans the source once on construction, then
/// parses it with a shunting-yard reduction and contextual validation.
pub struct Parser {
    source: Vec<u8>,
    tokens: Vec<Lexeme>,
    error: Option<ParseError>,
}

impl Parser {
    /// The source text under compilation.
    pub closed spec fn source_view(&self) -> Seq<u8> {
        self.source@
    }

    /// The diagnostic of the latest failed parse, if any.
    pub closed spec fn error_view(&self) -> Option<ParseError> {
        self.error
    }

    /// The held token stream is the scan of the held source, every span
    /// well-formed and inside the source.
    pub closed spec fn wf(&self) -> bool {
        &&& self.tokens@ == spec_tokens(self.source@, 0)
        &&& forall|k: int|
            0 <= k < self.tokens@.len() ==> (#[trigger] self.tokens@[k]).span.start
                <= self.tokens@[k].span.end <= self.source@.len()
    }

    /// Creates a parser over the given source text and scans it.
    pub fn new(source: Vec<u8>) -> (r: Parser)
        ensures
            r.wf(),
            r.source_view() == source@,
            r.error_view() is None,
    {
        let tokens = lex(&source);
        Parser { source, tokens, error: None }
    }

    /// The diagnostic of the latest failed parse, if any.
    pub fn last_error(&self) -> (r: Option<ParseError>)
        ensures
            r == self.error_view(),
    {
        self.error
    }
}

} // verus!

verus! {

impl Parser {
    /// Checks that the held source is a valid boolean expression and
    /// converts it into reverse Polish notation: a linear scan with one
    /// token of lookahead, no backtracking and no recovery. On success the
    /// compiled expression's postfix sequence and variable list are exactly
    /// what the shunting-yard reduction `compile_spec` produces; on the
    /// first failure nothing is returned and the diagnostic is recorded.
    /// Identifier ids are dense `u32` values assigned in first-occurrence
    /// order, whence the bound on the source length.
    #[verifier::rlimit(100)]
    #[verifier::loop_isolation(false)]
    pub fn parse(&mut self) -> (r: Option<BooleanExpression>)
        requires
            old(self).wf(),
            old(self).source_view().len() <= u32::MAX,
        ensures
            final(self).wf(),
            final(self).source_view() == old(self).source_view(),
            compile_spec(old(self).source_view()) matches Ok(po) ==> (r matches Some(e)
                && e.exp_view() == po.out && e.vars_view() == po.vars && final(self).error_view() is None),
            compile_spec(old(self).source_view()) matches Err(pe) ==> (r is None && final(self).error_view() == Some(pe)),
            r matches Some(e) ==> ({
                let texts = ident_texts(
                    old(self).source_view(),
                    spec_tokens(old(self).source_view(), 0),
                );
                &&& e.vars_view() == firsts(texts)
                &&& e.vars_view().no_duplicates()
                &&& ident_ids(e.exp_view()).len() == texts.len()
                &&& forall|k: int|
                    0 <= k < texts.len() ==> ident_ids(e.exp_view())[k] == first_index(
                        e.vars_view(),
                        texts[k],
                    ) as u32
                &&& forall|k: int|
                    0 <= k < texts.len() ==> ident_ids(e.exp_view())[k] < e.vars_view().len()
            }),
    {
        self.error = None;
        let ghost src = self.source@;
        let ghost toks = self.tokens@;
        proof {
            crate::lexer::lemma_spec_tokens_count(src, 0);
        }
        let mut stack: Vec<Lexeme> = Vec::new();
        let mut res: Vec<BooleanExpressionToken> = Vec::new();
        let mut variables: Vec<Vec<u8>> = Vec::new();
        let mut prev_token: Option<Token> = None;
        let n: usize = self.tokens.len();
        let mut i: usize = 0;
        proof {
            assert(cur_state(stack@, res@, variables@, prev_token) =~= init_state());
            assert(toks.subrange(0, 0) =~= Seq::<Lexeme>::empty());
            assert(names_view(variables@) =~= Seq::<Seq<u8>>::empty());
        }
        while i < n
            invariant
                i <= n,
                n == toks.len(),
                toks == self.tokens@,
                src == self.source@,
                self.wf(),
                self.error is None,
                src.len() <= u32::MAX,
                n <= src.len(),
                variables@.len() <= i,
                parse_run(src, toks, 0, init_state()) == parse_run(
                    src,
                    toks,
                    i as int,
                    cur_state(stack@, res@, variables@, prev_token),
                ),
                names_view(variables@) == firsts(ident_texts(src, toks.subrange(0, i as int))),
                ident_ids(res@).len() == ident_texts(src, toks.subrange(0, i as int)).len(),
                forall|k: int|
                    0 <= k < ident_ids(res@).len() ==> ident_ids(res@)[k] == first_index(
                        names_view(variables@),
                        ident_texts(src, toks.subrange(0, i as int))[k],
                    ) as u32,
            decreases n - i,
        {
            let ghost st0 = cur_state(stack@, res@, variables@, prev_token);
            let ghost texts_pre = ident_texts(src, toks.subrange(0, i as int));
            let t = self.tokens[i];
            let next_lex: Option<Lexeme> = if i + 1 < n {
                Some(self.tokens[i + 1])
            } else {
                None
            };
            proof {
                assert(next_lex == peek_token(toks, i as int + 1));
            }
            match t.token {
                Token::Error => {
                    let e = ParseError { kind: ParseErrorKind::UnknownToken, span: t.span };
                    proof {
                        assert(parse_step(src, st0, t, next_lex) == Err::<
                            ParserState,
                            ParseError,
                        >(e));
                    }
                    self.error = Some(e);
                    return None;
                },
                Token::IDENT => {
                    match next_lex {
                        Some(nx) => {
                            if nx.token == Token::IDENT || nx.token == Token::LPAREN || nx.token
                                == Token::NOT {
                                let e = ParseError {
                                    kind: ParseErrorKind::ExpectedBinaryOperator,
                                    span: nx.span,
                                };
                                proof {
                                    assert(parse_step(src, st0, t, next_lex) == Err::<
                                        ParserState,
                                        ParseError,
                                    >(e));
                                }
                                self.error = Some(e);
                                return None;
                            }
                        },
                        None => {},
                    }
                    prev_token = Some(t.token);
                    proof {
                        assert(self.tokens@[i as int].span.start <= self.tokens@[i as int].span.end
                            <= src.len());
                    }
                    let name = extract_bytes(&self.source, t.span.start, t.span.end);
                    let ghost nm = name@;
                    proof {
                        assert(nm == lexeme_text(src, t));
                    }
                    let found = find_name(&variables, &name);
                    match found {
                        Some(j) => {
                            let ghost vars_pre = names_view(variables@);
                            let ghost rpre = res@;
                            proof {
                                assert(vars_pre[j as int] == nm);
                                assert(vars_pre.contains(nm));
                                assert forall|k: int| 0 <= k < j implies vars_pre[k] != nm by {
                                    assert(variables@[k]@ != nm);
                                }
                                lemma_first_index_of(vars_pre, nm, j as int);
                            }
                            res.push(BooleanExpressionToken::IDENT(j as u32));
                            proof {
                                lemma_ident_ids_push_ident(rpre, j as u32);
                                lemma_ident_texts_step(src, toks, i as int);
                                lemma_firsts_step(texts_pre, nm);
                                let texts2 = ident_texts(src, toks.subrange(0, i as int + 1));
                                assert(texts2 == texts_pre.push(nm));
                                assert forall|k: int|
                                    0 <= k < ident_ids(res@).len() implies ident_ids(res@)[k]
                                    == first_index(names_view(variables@), texts2[k]) as u32 by {
                                    if k < ident_ids(rpre).len() {
                                        assert(texts2[k] == texts_pre[k]);
                                        assert(ident_ids(res@)[k] == ident_ids(rpre)[k]);
                                    } else {
                                        assert(k == ident_ids(rpre).len());
                                        assert(texts2[k] == nm);
                                        assert(ident_ids(res@)[k] == j as u32);
                                    }
                                }
                                let st1 = cur_state(stack@, res@, variables@, prev_token);
                                assert(parse_step(src, st0, t, next_lex) == Ok::<
                                    ParserState,
                                    ParseError,
                                >(st1));
                                assert(parse_run(src, toks, i as int, st0) == parse_run(
                                    src,
                                    toks,
                                    i as int + 1,
                                    st1,
                                ));
                            }
                        },
                        None => {
                            let ghost vars_pre = names_view(variables@);
                            let ghost vvec_pre = variables@;
                            let ghost rpre = res@;
                            let ghost gname = name;
                            proof {
                                assert forall|k: int|
                                    0 <= k < vars_pre.len() implies vars_pre[k] != nm by {
                                    assert(variables@[k]@ != nm);
                                }
                                assert(!vars_pre.contains(nm)) by {
                                    if vars_pre.contains(nm) {
                                        let k = choose|k: int|
                                            0 <= k < vars_pre.len() && vars_pre[k] == nm;
                                    }
                                }
                            }
                            let idn: usize = variables.len();
                            variables.push(name);
                            res.push(BooleanExpressionToken::IDENT(idn as u32));
                            proof {
                                lemma_names_view_push(vvec_pre, gname);
                                assert(names_view(variables@) == vars_pre.push(nm));
                                lemma_ident_ids_push_ident(rpre, idn as u32);
                                lemma_ident_texts_step(src, toks, i as int);
                                lemma_firsts_step(texts_pre, nm);
                                lemma_first_index_push_self(vars_pre, nm);
                                let texts2 = ident_texts(src, toks.subrange(0, i as int + 1));
                                assert(texts2 == texts_pre.push(nm));
                                assert forall|k: int|
                                    0 <= k < ident_ids(res@).len() implies ident_ids(res@)[k]
                                    == first_index(names_view(variables@), texts2[k]) as u32 by {
                                    if k < ident_ids(rpre).len() {
                                        let tx = texts_pre[k];
                                        assert(texts_pre.contains(tx));
                                        lemma_firsts_contains(texts_pre, tx);
                                        lemma_first_index_push(vars_pre, nm, tx);
                                        assert(texts2[k] == tx);
                                        assert(ident_ids(res@)[k] == ident_ids(rpre)[k]);
                                    } else {
                                        assert(k == ident_ids(rpre).len());
                                        assert(texts2[k] == nm);
                                        assert(ident_ids(res@)[k] == idn as u32);
                                    }
                                }
                                let st1 = cur_state(stack@, res@, variables@, prev_token);
                                assert(parse_step(src, st0, t, next_lex) == Ok::<
                                    ParserState,
                                    ParseError,
                                >(st1));
                                assert(parse_run(src, toks, i as int, st0) == parse_run(
                                    src,
                                    toks,
                                    i as int + 1,
                                    st1,
                                ));
                            }
                        },
                    }
                },
                Token::LPAREN => {
                    match next_lex {
                        Some(nx) => {
                            if nx.token.is_binary_operator() {
                                let e = ParseError {
                                    kind: ParseErrorKind::ExpectedOperandAfterParenthesis,
                                    span: nx.span,
                                };
                                proof {
                                    assert(parse_step(src, st0, t, next_lex) == Err::<
                                        ParserState,
                                        ParseError,
                                    >(e));
                                }
                                self.error = Some(e);
                                return None;
                            }
                        },
                        None => {},
                    }
                    stack.push(t);
                    prev_token = Some(t.token);
                    proof {
                        lemma_ident_texts_step(src, toks, i as int);
                        let st1 = cur_state(stack@, res@, variables@, prev_token);
                        assert(parse_step(src, st0, t, next_lex) == Ok::<
                            ParserState,
                            ParseError,
                        >(st1));
                        assert(parse_run(src, toks, i as int, st0) == parse_run(
                            src,
                            toks,
                            i as int + 1,
                            st1,
                        ));
                    }
                },
                Token::RPAREN => {
                    let ghost s0 = stack@;
                    let ghost o0 = res@;
                    let mut seen_lparen = false;
                    while !seen_lparen && stack.len() > 0
                        invariant
                            !seen_lparen ==> pop_to_lparen(s0, o0) == pop_to_lparen(stack@, res@),
                            seen_lparen ==> pop_to_lparen(s0, o0) == Some((stack@, res@)),
                            ident_ids(res@) == ident_ids(o0),
                        decreases stack@.len() + (if seen_lparen {
                            0int
                        } else {
                            1int
                        }),
                    {
                        let ghost spre = stack@;
                        let ghost rpre = res@;
                        let top = stack.pop().unwrap();
                        if top.token == Token::LPAREN {
                            seen_lparen = true;
                        } else {
                            res.push(BooleanExpressionToken::OPERATOR(top.token));
                            proof {
                                lemma_ident_ids_push_op(rpre, top.token);
                            }
                        }
                    }
                    if !seen_lparen {
                        let e = ParseError {
                            kind: ParseErrorKind::UnmatchedLeftParenthesis,
                            span: t.span,
                        };
                        proof {
                            assert(pop_to_lparen(s0, o0) is None);
                            assert(parse_step(src, st0, t, next_lex) == Err::<
                                ParserState,
                                ParseError,
                            >(e));
                        }
                        self.error = Some(e);
                        return None;
                    }
                    match next_lex {
                        Some(nx) => {
                            if nx.token == Token::IDENT || nx.token == Token::NOT || nx.token
                                == Token::LPAREN {
                                let e = ParseError {
                                    kind: ParseErrorKind::ExpectedBinaryOperatorAfterGroup,
                                    span: nx.span,
                                };
                                proof {
                                    assert(parse_step(src, st0, t, next_lex) == Err::<
                                        ParserState,
                                        ParseError,
                                    >(e));
                                }
                                self.error = Some(e);
                                return None;
                            }
                        },
                        None => {},
                    }
                    prev_token = Some(t.token);
                    proof {
                        lemma_ident_texts_step(src, toks, i as int);
                        let st1 = cur_state(stack@, res@, variables@, prev_token);
                        assert(parse_step(src, st0, t, next_lex) == Ok::<
                            ParserState,
                            ParseError,
                        >(st1));
                        assert(parse_run(src, toks, i as int, st0) == parse_run(
                            src,
                            toks,
                            i as int + 1,
                            st1,
                        ));
                    }
                },
                _ => {
                    let ghost s0 = stack@;
                    let ghost o0 = res@;
                    if t.token != Token::NOT {
                        let mut done = false;
                        while !done
                            invariant
                                !done ==> pop_lower(s0, o0, t.token) == pop_lower(
                                    stack@,
                                    res@,
                                    t.token,
                                ),
                                done ==> pop_lower(s0, o0, t.token) == (stack@, res@),
                                ident_ids(res@) == ident_ids(o0),
                            decreases stack@.len() + (if done {
                                0int
                            } else {
                                1int
                            }),
                        {
                            if stack.len() == 0 {
                                done = true;
                            } else {
                                let top = stack[stack.len() - 1];
                                if top.token.precedence() <= t.token.precedence() {
                                    let ghost spre = stack@;
                                    let ghost rpre = res@;
                                    let _ = stack.pop();
                                    res.push(BooleanExpressionToken::OPERATOR(top.token));
                                    proof {
                                        lemma_ident_ids_push_op(rpre, top.token);
                                        assert(spre.last() == top);
                                    }
                                } else {
                                    done = true;
                                }
                            }
                        }
                    }
                    if prev_token.is_none() && t.token.is_binary_operator() {
                        let e = ParseError {
                            kind: ParseErrorKind::MissingLeftHandSide,
                            span: t.span,
                        };
                        proof {
                            assert(!st0.started);
                            assert(parse_step(src, st0, t, next_lex) == Err::<
                                ParserState,
                                ParseError,
                            >(e));
                        }
                        self.error = Some(e);
                        return None;
                    }
                    match next_lex {
                        Some(nx) => {
                            if nx.token.is_binary_operator() || nx.token == Token::RPAREN {
                                let e = ParseError {
                                    kind: ParseErrorKind::ExpectedOperand,
                                    span: nx.span,
                                };
                                proof {
                                    assert(parse_step(src, st0, t, next_lex) == Err::<
                                        ParserState,
                                        ParseError,
                                    >(e));
                                }
                                self.error = Some(e);
                                return None;
                            }
                        },
                        None => {
                            let e = ParseError {
                                kind: ParseErrorKind::MissingRightHandSide,
                                span: t.span,
                            };
                            proof {
                                assert(parse_step(src, st0, t, next_lex) == Err::<
                                    ParserState,
                                    ParseError,
                                >(e));
                            }
                            self.error = Some(e);
                            return None;
                        },
                    }
                    stack.push(t);
                    prev_token = Some(t.token);
                    proof {
                        lemma_ident_texts_step(src, toks, i as int);
                        let st1 = cur_state(stack@, res@, variables@, prev_token);
                        assert(parse_step(src, st0, t, next_lex) == Ok::<
                            ParserState,
                            ParseError,
                        >(st1));
                        assert(parse_run(src, toks, i as int, st0) == parse_run(
                            src,
                            toks,
                            i as int + 1,
                            st1,
                        ));
                    }
                },
            }
            i = i + 1;
        }
        let ghost stf = cur_state(stack@, res@, variables@, prev_token);
        proof {
            assert(parse_run(src, toks, n as int, stf) == Ok::<ParserState, ParseError>(stf));
        }
        let ghost s1 = stack@;
        let ghost o1 = res@;
        while stack.len() > 0
            invariant
                toks == self.tokens@,
                src == self.source@,
                self.wf(),
                self.error is None,
                drain_stack(s1, o1) == drain_stack(stack@, res@),
                ident_ids(res@) == ident_ids(o1),
            decreases stack@.len(),
        {
            let ghost spre = stack@;
            let ghost rpre = res@;
            let top = stack.pop().unwrap();
            if top.token == Token::LPAREN {
                let e = ParseError {
                    kind: ParseErrorKind::UnmatchedRightParenthesis,
                    span: top.span,
                };
                proof {
                    assert(drain_stack(spre, rpre) == Err::<Seq<BooleanExpressionToken>, ParseError>(
                        e,
                    ));
                }
                self.error = Some(e);
                return None;
            }
            res.push(BooleanExpressionToken::OPERATOR(top.token));
            proof {
                lemma_ident_ids_push_op(rpre, top.token);
            }
        }
        proof {
            assert(drain_stack(s1, o1) == Ok::<Seq<BooleanExpressionToken>, ParseError>(res@));
            assert(parse_spec(src, toks) == Ok::<ParseOutput, ParseError>(
                ParseOutput { out: res@, vars: names_view(variables@) },
            ));
            assert(toks.subrange(0, n as int) =~= toks);
            lemma_firsts_no_duplicates(ident_texts(src, toks));
            let texts = ident_texts(src, toks);
            let vrs = names_view(variables@);
            assert forall|k: int| 0 <= k < texts.len() implies ident_ids(res@)[k] < vrs.len() by {
                assert(texts.contains(texts[k]));
                lemma_firsts_contains(texts, texts[k]);
                lemma_first_index_bounds(vrs, texts[k]);
            }
        }
        let bexp = BooleanExpression::new(res, variables);
        Some(bexp)
    }
}

} // verus!

verus! {

/// The parser's state with one extra open-parenthesis marker below its
/// operator stack, as it stands while a parenthesized group is processed.
pub open spec fn lift_state(st: ParserState, lp: Lexeme) -> ParserState {
    ParserState { stack: seq![lp] + st.stack, out: st.out, vars: st.vars, started: true }
}

proof fn lemma_pop_to_lparen_lifted(
    s: Seq<Lexeme>,
    o: Seq<BooleanExpressionToken>,
    lp: Lexeme,
    s2: Seq<Lexeme>,
    o2: Seq<BooleanExpressionToken>,
)
    requires
        lp.token is LPAREN,
        pop_to_lparen(s, o) == Some((s2, o2)),
    ensures
        pop_to_lparen(seq![lp] + s, o) == Some((seq![lp] + s2, o2)),
    decreases s.len(),
{
    let w = seq![lp] + s;
    assert(s.len() > 0);
    assert(w.last() == s.last());
    assert(w.drop_last() =~= seq![lp] + s.drop_last());
    if s.last().token is LPAREN {
    } else {
        lemma_pop_to_lparen_lifted(
            s.drop_last(),
            o.push(BooleanExpressionToken::OPERATOR(s.last().token)),
            lp,
            s2,
            o2,
        );
    }
}

proof fn lemma_pop_lower_lifted(s: Seq<Lexeme>, o: Seq<BooleanExpressionToken>, lp: Lexeme, t: Token)
    requires
        lp.token is LPAREN,
        t.spec_is_binary_operator(),
    ensures
        pop_lower(seq![lp] + s, o, t) == (seq![lp] + pop_lower(s, o, t).0, pop_lower(s, o, t).1),
    decreases s.len(),
{
    let w = seq![lp] + s;
    if s.len() == 0 {
        assert(w.last() == lp);
        assert(w =~= seq![lp] + s);
    } else {
        assert(w.last() == s.last());
        assert(w.drop_last() =~= seq![lp] + s.drop_last());
        if s.last().token.spec_precedence() <= t.spec_precedence() {
            lemma_pop_lower_lifted(
                s.drop_last(),
                o.push(BooleanExpressionToken::OPERATOR(s.last().token)),
                lp,
                t,
            );
        }
    }
}

proof fn lemma_drain_to_pop_lifted(
    s: Seq<Lexeme>,
    o: Seq<BooleanExpressionToken>,
    lp: Lexeme,
    out2: Seq<BooleanExpressionToken>,
)
    requires
        lp.token is LPAREN,
        drain_stack(s, o) == Ok::<Seq<BooleanExpressionToken>, ParseError>(out2),
    ensures
        pop_to_lparen(seq![lp] + s, o) == Some((Seq::<Lexeme>::empty(), out2)),
    decreases s.len(),
{
    let w = seq![lp] + s;
    if s.len() == 0 {
        assert(w.last() == lp);
        assert(w.drop_last() =~= Seq::<Lexeme>::empty());
    } else {
        assert(!(s.last().token is LPAREN));
        assert(w.last() == s.last());
        assert(w.drop_last() =~= seq![lp] + s.drop_last());
        lemma_drain_to_pop_lifted(
            s.drop_last(),
            o.push(BooleanExpressionToken::OPERATOR(s.last().token)),
            lp,
            out2,
        );
    }
}

proof fn lemma_step_lifted(
    src: Seq<u8>,
    st: ParserState,
    st2: ParserState,
    t: Lexeme,
    next_p: Option<Lexeme>,
    next_w: Option<Lexeme>,
    lp: Lexeme,
    rp: Lexeme,
)
    requires
        lp.token is LPAREN,
        rp.token is RPAREN,
        parse_step(src, st, t, next_p) == Ok::<ParserState, ParseError>(st2),
        next_w == next_p || (next_p is None && next_w == Some(rp)),
    ensures
        parse_step(src, lift_state(st, lp), t, next_w) == Ok::<ParserState, ParseError>(
            lift_state(st2, lp),
        ),
{
    let ls = lift_state(st, lp);
    if t.token is Error {
        assert(false);
    } else if t.token is IDENT {
        assert(!next_is_one_of(next_w, Token::IDENT, Token::LPAREN, Token::NOT));
    } else if t.token is LPAREN {
        assert(!next_is_binary(next_w));
        assert(ls.stack.push(t) =~= seq![lp] + st.stack.push(t));
    } else if t.token is RPAREN {
        match pop_to_lparen(st.stack, st.out) {
            None => {
                assert(false);
            },
            Some(so) => {
                lemma_pop_to_lparen_lifted(st.stack, st.out, lp, so.0, so.1);
                assert(!next_is_one_of(next_w, Token::IDENT, Token::NOT, Token::LPAREN));
            },
        }
    } else {
        assert(t.token is NOT || t.token.spec_is_binary_operator());
        assert(next_p is Some);
        assert(next_w == next_p);
        if t.token is NOT {
            assert(ls.stack.push(t) =~= seq![lp] + st.stack.push(t));
        } else {
            lemma_pop_lower_lifted(st.stack, st.out, lp, t.token);
            let po = pop_lower(st.stack, st.out, t.token);
            assert((seq![lp] + po.0).push(t) =~= seq![lp] + po.0.push(t));
        }
    }
}

proof fn lemma_run_lifted(
    src: Seq<u8>,
    toks: Seq<Lexeme>,
    i: int,
    st: ParserState,
    stf: ParserState,
    lp: Lexeme,
    rp: Lexeme,
)
    requires
        0 <= i <= toks.len(),
        lp.token is LPAREN,
        rp.token is RPAREN,
        parse_run(src, toks, i, st) == Ok::<ParserState, ParseError>(stf),
    ensures
        parse_run(src, seq![lp] + toks + seq![rp], i + 1, lift_state(st, lp)) == parse_run(
            src,
            seq![lp] + toks + seq![rp],
            toks.len() as int + 1,
            lift_state(stf, lp),
        ),
    decreases toks.len() - i,
{
    let w = seq![lp] + toks + seq![rp];
    assert(w.len() == toks.len() as int + 2);
    if i == toks.len() {
        assert(st == stf);
    } else {
        assert(w[i + 1] == toks[i]);
        let np = peek_token(toks, i + 1);
        let nw = peek_token(w, i + 2);
        if i + 1 < toks.len() {
            assert(w[i + 2] == toks[i + 1]);
            assert(nw == np);
        } else {
            assert(np is None);
            assert(w[i + 2] == rp);
            assert(nw == Some(rp));
        }
        match parse_step(src, st, toks[i], np) {
            Err(e) => {
                assert(false);
            },
            Ok(stn) => {
                lemma_step_lifted(src, st, stn, toks[i], np, nw, lp, rp);
                lemma_run_lifted(src, toks, i + 1, stn, stf, lp, rp);
            },
        }
    }
}

/// Parenthesization is semantically transparent: a token stream that
/// compiles successfully compiles, wrapped in one opening and one closing
/// parenthesis (with any spans), to exactly the same postfix sequence and
/// the same variable list.
pub proof fn lemma_parenthesization_transparent(
    src: Seq<u8>,
    toks: Seq<Lexeme>,
    lp: Lexeme,
    rp: Lexeme,
)
    requires
        lp.token is LPAREN,
        rp.token is RPAREN,
        parse_spec(src, toks) is Ok,
    ensures
        parse_spec(src, seq![lp] + toks + seq![rp]) == parse_spec(src, toks),
{
    let w = seq![lp] + toks + seq![rp];
    assert(w.len() == toks.len() as int + 2);
    let run0 = parse_run(src, toks, 0, init_state());
    let stf = match run0 {
        Ok(s) => s,
        Err(_) => init_state(),
    };
    assert(run0 == Ok::<ParserState, ParseError>(stf));
    let out = match drain_stack(stf.stack, stf.out) {
        Ok(o) => o,
        Err(_) => Seq::empty(),
    };
    assert(drain_stack(stf.stack, stf.out) == Ok::<Seq<BooleanExpressionToken>, ParseError>(out));
    let n1 = peek_token(w, 1);
    assert(w[0] == lp);
    if toks.len() > 0 {
        assert(w[1] == toks[0]);
        assert(n1 == Some(toks[0]));
        if toks[0].token.spec_is_binary_operator() {
            assert(parse_step(src, init_state(), toks[0], peek_token(toks, 1)) is Err);
            assert(false);
        }
    } else {
        assert(w[1] == rp);
        assert(n1 == Some(rp));
    }
    assert(!next_is_binary(n1));
    let st1 = lift_state(init_state(), lp);
    assert(init_state().stack.push(lp) =~= seq![lp] + init_state().stack);
    assert(parse_step(src, init_state(), lp, n1) == Ok::<ParserState, ParseError>(st1));
    lemma_run_lifted(src, toks, 0, init_state(), stf, lp, rp);
    let lf = lift_state(stf, lp);
    assert(w[toks.len() as int + 1] == rp);
    assert(peek_token(w, toks.len() as int + 2) is None);
    lemma_drain_to_pop_lifted(stf.stack, stf.out, lp, out);
    let stz = ParserState { stack: Seq::empty(), out, vars: stf.vars, started: true };
    assert(parse_step(src, lf, rp, peek_token(w, toks.len() as int + 2)) == Ok::<
        ParserState,
        ParseError,
    >(stz));
    assert(parse_run(src, w, toks.len() as int + 2, stz) == Ok::<ParserState, ParseError>(stz));
    assert(parse_spec(src, w) == parse_spec(src, toks));
}

} // verus!
