use crate::bitstring_trait::BitString;
use crate::token::Token;
use vstd::prelude::*;

verus! {

/// A token of a compiled boolean expression, as emitted by the parser, which
/// replaces identifier text with dense numerical ids. `OPERATOR` always
/// carries an operator token of the language. `RESULT` holds the outcome of
/// one boolean operation and only ever appears on an evaluation stack, never
/// in a compiled sequence.
#[derive(Debug, PartialEq, Eq, Structural, Clone, Copy)]
pub enum BooleanExpressionToken {
    IDENT(u32),
    OPERATOR(Token),
    RESULT(u8),
}

/// The deep view of a list of variable names: each name as its byte sequence.
pub open spec fn names_view(names: Seq<Vec<u8>>) -> Seq<Seq<u8>> {
    names.map_values(|v: Vec<u8>| v@)
}

/// Whether a compiled token may appear in an expression over `nvars`
/// variables: identifiers must carry an id below the variable count,
/// operators must be actual operators, and stack results never appear.
pub open spec fn token_arity_ok(t: BooleanExpressionToken, nvars: int) -> bool {
    match t {
        BooleanExpressionToken::IDENT(id) => id < nvars,
        BooleanExpressionToken::OPERATOR(op) => op.spec_is_operator(),
        BooleanExpressionToken::RESULT(_) => false,
    }
}

/// How many operands a compiled token consumes from the evaluation stack.
pub open spec fn token_needs(t: BooleanExpressionToken) -> int {
    match t {
        BooleanExpressionToken::IDENT(_) => 0,
        BooleanExpressionToken::OPERATOR(op) => if op is NOT {
            1
        } else {
            2
        },
        BooleanExpressionToken::RESULT(_) => 0,
    }
}

/// The net change a compiled token makes to the evaluation stack's size.
pub open spec fn token_delta(t: BooleanExpressionToken) -> int {
    match t {
        BooleanExpressionToken::IDENT(_) => 1,
        BooleanExpressionToken::OPERATOR(op) => if op is NOT {
            0
        } else {
            -1
        },
        BooleanExpressionToken::RESULT(_) => 0,
    }
}

/// The evaluation stack's size after the first `i` tokens of `exp`.
pub open spec fn stack_depth(exp: Seq<BooleanExpressionToken>, i: int) -> int
    decreases i,
        when i >= 0
{
    if i <= 0 {
        0
    } else {
        stack_depth(exp, i - 1) + token_delta(exp[i - 1])
    }
}

/// Whether every identifier id and operator of `exp` is admissible for an
/// expression over `nvars` variables.
pub open spec fn tokens_bound(exp: Seq<BooleanExpressionToken>, nvars: int) -> bool {
    forall|i: int| 0 <= i < exp.len() ==> token_arity_ok(#[trigger] exp[i], nvars)
}

/// Whether `exp` is a valid postfix encoding of a well-formed expression
/// tree: every operator finds the operands it needs already on the stack,
/// and evaluating the full sequence leaves exactly one value.
pub open spec fn valid_postfix(exp: Seq<BooleanExpressionToken>) -> bool {
    &&& forall|i: int|
        0 <= i < exp.len() ==> stack_depth(exp, i) >= token_needs(#[trigger] exp[i])
    &&& stack_depth(exp, exp.len() as int) == 1
}

/// One operator applied to the top of the evaluation stack. Binary
/// operators combine the two topmost values; all three are commutative, so
/// the pop order cannot matter.
pub open spec fn apply_op(op: Token, st: Seq<bool>) -> Seq<bool> {
    match op {
        Token::NOT => st.drop_last().push(!st.last()),
        Token::AND => st.drop_last().drop_last().push(st[st.len() - 2] && st.last()),
        Token::OR => st.drop_last().drop_last().push(st[st.len() - 2] || st.last()),
        Token::XOR => st.drop_last().drop_last().push(st[st.len() - 2] != st.last()),
        _ => st,
    }
}

/// One compiled token applied to the evaluation stack, reading variable
/// values from the assignment `a`: identifier `id` reads the bit at position
/// `nvars - 1 - id`, so variable 0 sits at the assignment's most significant
/// of the `nvars` low bits.
pub open spec fn eval_step(
    st: Seq<bool>,
    t: BooleanExpressionToken,
    nvars: int,
    a: spec_fn(int) -> bool,
) -> Seq<bool> {
    match t {
        BooleanExpressionToken::IDENT(id) => st.push(a(nvars - 1 - id)),
        BooleanExpressionToken::OPERATOR(op) => apply_op(op, st),
        BooleanExpressionToken::RESULT(_) => st,
    }
}

/// The evaluation stack after the first `i` tokens of `exp`.
pub open spec fn eval_stack(
    exp: Seq<BooleanExpressionToken>,
    i: int,
    nvars: int,
    a: spec_fn(int) -> bool,
) -> Seq<bool>
    decreases i,
        when i >= 0
{
    if i <= 0 {
        Seq::empty()
    } else {
        eval_step(eval_stack(exp, i - 1, nvars, a), exp[i - 1], nvars, a)
    }
}

/// The single value a valid postfix sequence evaluates to under the
/// assignment `a`.
pub open spec fn eval_value(
    exp: Seq<BooleanExpressionToken>,
    nvars: int,
    a: spec_fn(int) -> bool,
) -> bool {
    eval_stack(exp, exp.len() as int, nvars, a).last()
}

/// The assignment a bit-indexable value denotes: position `p` holds its
/// `p`-th bit.
pub open spec fn bits_of<T: BitString>(input: T) -> spec_fn(int) -> bool {
    |p: int| input.spec_bit(p)
}

/// 2 to the power `n`: the number of distinct truth assignments of `n`
/// variables.
pub open spec fn pow2(n: nat) -> nat
    decreases n,
{
    if n == 0 {
        1
    } else {
        2 * pow2((n - 1) as nat)
    }
}

pub proof fn lemma_pow2_monotone(a: nat, b: nat)
    requires
        a <= b,
    ensures
        pow2(a) <= pow2(b),
    decreases b,
{
    if a < b {
        lemma_pow2_monotone(a, (b - 1) as nat);
    }
}

/// Round-trip determinism: evaluating the same compiled expression twice
/// with the same assignment yields identical results, because the result is
/// a mathematical function of the postfix sequence, the variable count and
/// the assignment alone.
pub proof fn lemma_evaluation_deterministic(
    exp: Seq<BooleanExpressionToken>,
    nvars: int,
    a: spec_fn(int) -> bool,
    r1: u8,
    r2: u8,
)
    requires
        r1 == (if eval_value(exp, nvars, a) {
            1u8
        } else {
            0u8
        }),
        r2 == (if eval_value(exp, nvars, a) {
            1u8
        } else {
            0u8
        }),
    ensures
        r1 == r2,
{
}

/// A boolean expression compiled to an immutable postfix token sequence,
/// together with its variable names in first-occurrence order, indexed by
/// id. The state never changes after construction, so one value can be
/// evaluated repeatedly, and from several threads, without synchronization.
#[derive(Debug)]
pub struct BooleanExpression {
    variable_names: Vec<Vec<u8>>,
    exp: Vec<BooleanExpressionToken>,
}

impl BooleanExpression {
    /// The postfix token sequence.
    pub closed spec fn exp_view(&self) -> Seq<BooleanExpressionToken> {
        self.exp@
    }

    /// The variable names, each as its byte sequence, indexed by id.
    pub closed spec fn vars_view(&self) -> Seq<Seq<u8>> {
        names_view(self.variable_names@)
    }

    /// Whether the held sequence is a valid postfix encoding over the held
    /// variables.
    pub open spec fn well_formed(&self) -> bool {
        tokens_bound(self.exp_view(), self.vars_view().len() as int) && valid_postfix(
            self.exp_view(),
        )
    }

    /// Creates a new boolean expression from a set of boolean expression
    /// tokens and a set of variable names extracted from the input
    /// expression by the parser.
    pub fn new(exp: Vec<BooleanExpressionToken>, variable_names: Vec<Vec<u8>>) -> (r: Self)
        ensures
            r.exp_view() == exp@,
            r.vars_view() == names_view(variable_names@),
    {
        Self { variable_names, exp }
    }

    /// Gets the expression's variables.
    pub fn variables(&self) -> (r: &Vec<Vec<u8>>)
        ensures
            names_view(r@) == self.vars_view(),
    {
        &self.variable_names
    }

    /// Checks whether the held token sequence is a valid postfix encoding:
    /// the invariant the parser establishes for every expression it builds
    /// from a non-degenerate input, and the precondition of `evaluate`.
    pub fn is_well_formed(&self) -> (r: bool)
        ensures
            r == self.well_formed(),
    {
        let n: usize = self.variable_names.len();
        let m: usize = self.exp.len();
        let mut depth: usize = 0;
        let mut idx: usize = 0;
        while idx < m
            invariant
                idx <= m,
                m == self.exp@.len(),
                n == self.vars_view().len(),
                depth == stack_depth(self.exp@, idx as int),
                depth <= idx,
                forall|j: int|
                    0 <= j < idx ==> token_arity_ok(#[trigger] self.exp@[j], n as int)
                        && stack_depth(self.exp@, j) >= token_needs(self.exp@[j]),
            decreases m - idx,
        {
            match self.exp[idx] {
                BooleanExpressionToken::IDENT(id) => {
                    if !((id as usize) < n) {
                        assert(!token_arity_ok(self.exp@[idx as int], n as int));
                        return false;
                    }
                    depth = depth + 1;
                },
                BooleanExpressionToken::OPERATOR(op) => {
                    match op {
                        Token::NOT => {
                            if depth < 1 {
                                return false;
                            }
                        },
                        Token::AND | Token::OR | Token::XOR => {
                            if depth < 2 {
                                return false;
                            }
                            depth = depth - 1;
                        },
                        _ => {
                            assert(!token_arity_ok(self.exp@[idx as int], n as int));
                            return false;
                        },
                    }
                },
                BooleanExpressionToken::RESULT(_) => {
                    assert(!token_arity_ok(self.exp@[idx as int], n as int));
                    return false;
                },
            }
            idx = idx + 1;
        }
        depth == 1
    }

    /// Evaluates the expression under one truth assignment, handed in as any
    /// bit-indexable value: identifier `id` reads the assignment's bit at
    /// position `variable_count - 1 - id`. The result is `1` if the
    /// expression holds under the assignment and `0` otherwise, a pure
    /// function of the expression and the assignment's bits.
    pub fn evaluate<T: BitString>(&self, input: T) -> (r: u8)
        requires
            self.well_formed(),
            self.vars_view().len() <= input.spec_width(),
        ensures
            r == (if eval_value(self.exp_view(), self.vars_view().len() as int, bits_of(input)) {
                1u8
            } else {
                0u8
            }),
    {
        let n: usize = self.variable_names.len();
        let m: usize = self.exp.len();
        let mut stack: Vec<bool> = Vec::new();
        let mut idx: usize = 0;
        while idx < m
            invariant
                idx <= m,
                m == self.exp@.len(),
                n == self.vars_view().len(),
                self.well_formed(),
                n <= input.spec_width(),
                stack@ == eval_stack(self.exp@, idx as int, n as int, bits_of(input)),
                stack@.len() == stack_depth(self.exp@, idx as int),
            decreases m - idx,
        {
            assert(token_arity_ok(self.exp@[idx as int], n as int) && stack_depth(
                self.exp@,
                idx as int,
            ) >= token_needs(self.exp@[idx as int]));
            match self.exp[idx] {
                BooleanExpressionToken::IDENT(id) => {
                    let pos: usize = n - 1 - (id as usize);
                    let bit = input.get_bit(pos);
                    let b: u8 = bit.unwrap();
                    stack.push(b == 1);
                },
                BooleanExpressionToken::OPERATOR(op) => {
                    match op {
                        Token::AND => {
                            let lhs: bool = stack.pop().unwrap();
                            let rhs: bool = stack.pop().unwrap();
                            stack.push(lhs && rhs);
                        },
                        Token::OR => {
                            let lhs: bool = stack.pop().unwrap();
                            let rhs: bool = stack.pop().unwrap();
                            stack.push(lhs || rhs);
                        },
                        Token::XOR => {
                            let lhs: bool = stack.pop().unwrap();
                            let rhs: bool = stack.pop().unwrap();
                            stack.push(lhs != rhs);
                        },
                        Token::NOT => {
                            let v: bool = stack.pop().unwrap();
                            stack.push(!v);
                        },
                        _ => {},
                    }
                },
                BooleanExpressionToken::RESULT(_) => {},
            }
            idx = idx + 1;
        }
        let v: bool = stack[0];
        if v {
            1
        } else {
            0
        }
    }

    /// The full truth table: row `c` holds the expression's value under the
    /// assignment whose bits are those of the counter `c`, for every counter
    /// from 0 to `2^N - 1`, so the table covers every assignment of the `N`
    /// variables exactly once, in increasing counter order.
    pub fn truth_table(&self) -> (rows: Vec<u8>)
        requires
            self.well_formed(),
            self.vars_view().len() <= 128,
            pow2(self.vars_view().len() as nat) <= usize::MAX,
        ensures
            rows@.len() == pow2(self.vars_view().len() as nat),
            forall|c: int|
                0 <= c < rows@.len() ==> rows@[c] == (if eval_value(
                    self.exp_view(),
                    self.vars_view().len() as int,
                    bits_of(c as u128),
                ) {
                    1u8
                } else {
                    0u8
                }),
    {
        let n: usize = self.variable_names.len();
        let mut count: usize = 1;
        let mut k: usize = 0;
        while k < n
            invariant
                k <= n,
                n == self.vars_view().len(),
                count == pow2(k as nat),
                pow2(n as nat) <= usize::MAX,
            decreases n - k,
        {
            proof {
                lemma_pow2_monotone((k + 1) as nat, n as nat);
            }
            count = count * 2;
            k = k + 1;
        }
        let mut rows: Vec<u8> = Vec::new();
        let mut c: usize = 0;
        while c < count
            invariant
                c <= count,
                n == self.vars_view().len(),
                count == pow2(n as nat),
                n <= 128,
                self.well_formed(),
                rows@.len() == c,
                forall|j: int|
                    0 <= j < c ==> rows@[j] == (if eval_value(
                        self.exp_view(),
                        n as int,
                        bits_of(j as u128),
                    ) {
                        1u8
                    } else {
                        0u8
                    }),
            decreases count - c,
        {
            let r: u8 = self.evaluate(c as u128);
            rows.push(r);
            c = c + 1;
        }
        rows
    }
}

impl PartialEq for BooleanExpression {
    fn eq(&self, other: &Self) -> (r: bool) {
        if self.exp.len() != other.exp.len() {
            proof {
                assert(self.exp@ != other.exp@);
            }
            return false;
        }
        if self.variable_names.len() != other.variable_names.len() {
            proof {
                assert(names_view(self.variable_names@).len() == self.variable_names@.len());
                assert(names_view(other.variable_names@).len() == other.variable_names@.len());
            }
            return false;
        }
        let m: usize = self.exp.len();
        let mut i: usize = 0;
        while i < m
            invariant
                i <= m,
                m == self.exp@.len(),
                m == other.exp@.len(),
                forall|j: int| 0 <= j < i ==> self.exp@[j] == other.exp@[j],
            decreases m - i,
        {
            if self.exp[i] != other.exp[i] {
                proof {
                    assert(self.exp@ != other.exp@);
                }
                return false;
            }
            i = i + 1;
        }
        proof {
            assert(self.exp@ =~= other.exp@);
        }
        let n: usize = self.variable_names.len();
        let mut k: usize = 0;
        while k < n
            invariant
                k <= n,
                n == self.variable_names@.len(),
                n == other.variable_names@.len(),
                forall|j: int|
                    0 <= j < k ==> (#[trigger] self.variable_names@[j])@
                        == other.variable_names@[j]@,
            decreases n - k,
        {
            if !bytes_eq(&self.variable_names[k], &other.variable_names[k]) {
                proof {
                    assert(names_view(self.variable_names@)[k as int] != names_view(
                        other.variable_names@,
                    )[k as int]);
                }
                return false;
            }
            k = k + 1;
        }
        proof {
            assert(names_view(self.variable_names@) =~= names_view(other.variable_names@));
        }
        true
    }
}

impl vstd::std_specs::cmp::PartialEqSpecImpl for BooleanExpression {
    open spec fn obeys_eq_spec() -> bool {
        true
    }

    open spec fn eq_spec(&self, other: &Self) -> bool {
        self.exp_view() == other.exp_view() && self.vars_view() == other.vars_view()
    }
}

/// Byte-for-byte equality of two byte strings.
pub fn bytes_eq(a: &Vec<u8>, b: &Vec<u8>) -> (r: bool)
    ensures
        r == (a@ == b@),
{
    if a.len() != b.len() {
        proof {
            assert(a@ != b@);
        }
        return false;
    }
    let n: usize = a.len();
    let mut i: usize = 0;
    while i < n
        invariant
            i <= n,
            n == a@.len(),
            n == b@.len(),
            forall|j: int| 0 <= j < i ==> a@[j] == b@[j],
        decreases n - i,
    {
        if a[i] != b[i] {
            proof {
                assert(a@ != b@);
            }
            return false;
        }
        i = i + 1;
    }
    proof {
        assert(a@ =~= b@);
    }
    true
}

} // verus!
