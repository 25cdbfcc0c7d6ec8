use crate::bitstring_trait::BitString;
use crate::boolean_expression::{bits_of, names_view, BooleanExpression};
use vstd::prelude::*;

verus! {

/// The decimal digits of a byte-sized number.
pub open spec fn dec_u8(v: u8) -> Seq<u8> {
    if v < 10 {
        seq![(48 + v) as u8]
    } else if v < 100 {
        seq![(48 + v / 10) as u8, (48 + v % 10) as u8]
    } else {
        seq![(48 + v / 100) as u8, (48 + (v / 10) % 10) as u8, (48 + v % 10) as u8]
    }
}

/// `n` space characters.
pub open spec fn spaces(n: int) -> Seq<u8> {
    Seq::new(n as nat, |i: int| 32u8)
}

/// `s` right-aligned in a cell of `width` characters: padded with spaces on
/// the left, or unchanged when it already fills the cell.
pub open spec fn right_aligned(width: int, s: Seq<u8>) -> Seq<u8> {
    if s.len() < width {
        spaces(width - s.len()) + s
    } else {
        s
    }
}

/// The numeral a truth value prints as.
pub open spec fn bit_value(b: bool) -> u8 {
    if b {
        1
    } else {
        0
    }
}

/// The variable names joined with `|` between them.
pub open spec fn joined_names(vars: Seq<Seq<u8>>) -> Seq<u8>
    decreases vars.len(),
{
    if vars.len() == 0 {
        Seq::empty()
    } else if vars.len() == 1 {
        vars[0]
    } else {
        joined_names(vars.drop_last()) + seq![124u8] + vars.last()
    }
}

/// The table's header: the variable names, then the original expression
/// text, each between `|` separators.
pub open spec fn header_line(vars: Seq<Seq<u8>>, exp: Seq<u8>) -> Seq<u8> {
    seq![124u8] + joined_names(vars) + seq![124u8] + exp + seq![124u8]
}

/// A rule line of `n` dashes.
pub open spec fn separator_line(n: int) -> Seq<u8> {
    Seq::new(n as nat, |i: int| 45u8)
}

/// The first `i` cells of a table row: each variable's bit under the
/// assignment `a`, right-aligned in its name's width, after a `|`.
pub open spec fn row_cells(vars: Seq<Seq<u8>>, a: spec_fn(int) -> bool, i: int) -> Seq<u8>
    decreases i,
        when i >= 0
{
    if i <= 0 {
        Seq::empty()
    } else {
        row_cells(vars, a, i - 1) + seq![124u8] + right_aligned(
            vars[i - 1].len() as int,
            dec_u8(bit_value(a(vars.len() - i))),
        )
    }
}

/// One full table row: every variable's bit, then the evaluation result
/// right-aligned in the expression text's width, closed with `|`.
pub open spec fn evaluation_line(
    vars: Seq<Seq<u8>>,
    a: spec_fn(int) -> bool,
    exp_len: int,
    result: u8,
) -> Seq<u8> {
    row_cells(vars, a, vars.len() as int) + seq![124u8] + right_aligned(exp_len, dec_u8(result))
        + seq![124u8]
}

/// Appends the bytes of `src` to `dst`.
fn push_bytes(dst: &mut Vec<u8>, src: &Vec<u8>)
    ensures
        final(dst)@ == old(dst)@ + src@,
{
    let ghost base = dst@;
    let n: usize = src.len();
    let mut k: usize = 0;
    proof {
        assert(dst@ =~= base + src@.subrange(0, 0));
    }
    while k < n
        invariant
            k <= n,
            n == src@.len(),
            dst@ == base + src@.subrange(0, k as int),
        decreases n - k,
    {
        dst.push(src[k]);
        proof {
            assert(dst@ =~= base + src@.subrange(0, k as int + 1));
        }
        k = k + 1;
    }
    proof {
        assert(src@.subrange(0, n as int) =~= src@);
    }
}

/// Appends `n` spaces to `dst`.
fn push_spaces(dst: &mut Vec<u8>, n: usize)
    ensures
        final(dst)@ == old(dst)@ + spaces(n as int),
{
    let ghost base = dst@;
    let mut k: usize = 0;
    proof {
        assert(dst@ =~= base + spaces(0));
    }
    while k < n
        invariant
            k <= n,
            dst@ == base + spaces(k as int),
        decreases n - k,
    {
        dst.push(32);
        proof {
            assert(dst@ =~= base + spaces(k as int + 1));
        }
        k = k + 1;
    }
}

/// Appends the decimal digits of `v` to `dst`.
fn push_dec_u8(dst: &mut Vec<u8>, v: u8)
    ensures
        final(dst)@ == old(dst)@ + dec_u8(v),
{
    let ghost base = dst@;
    if v < 10 {
        dst.push(48 + v);
        proof {
            assert(dst@ =~= base + dec_u8(v));
        }
    } else if v < 100 {
        dst.push(48 + v / 10);
        dst.push(48 + v % 10);
        proof {
            assert(dst@ =~= base + dec_u8(v));
        }
    } else {
        dst.push(48 + v / 100);
        dst.push(48 + (v / 10) % 10);
        dst.push(48 + v % 10);
        proof {
            assert(dst@ =~= base + dec_u8(v));
        }
    }
}

/// A helper that renders the truth table of a boolean expression: it holds
/// the header and rule lines, computed once, and builds one table row per
/// evaluation.
pub struct TableFormat {
    header: Vec<u8>,
    row_separator: Vec<u8>,
    expression_length: usize,
}

impl TableFormat {
    /// The header line's bytes.
    pub closed spec fn header_view(&self) -> Seq<u8> {
        self.header@
    }

    /// The rule line's bytes.
    pub closed spec fn separator_view(&self) -> Seq<u8> {
        self.row_separator@
    }

    /// The width of the result column: the expression text's length.
    pub closed spec fn expression_length_view(&self) -> int {
        self.expression_length as int
    }

    /// Builds the fixed parts of the table for one expression: the header
    /// holding the variable names and the expression text, and a rule line
    /// of the header's width.
    #[verifier::loop_isolation(false)]
    pub fn new(exp: &Vec<u8>, bexp: &BooleanExpression) -> (r: TableFormat)
        ensures
            r.header_view() == header_line(bexp.vars_view(), exp@),
            r.separator_view() == separator_line(header_line(bexp.vars_view(), exp@).len() as int),
            r.expression_length_view() == exp@.len(),
    {
        let vars = bexp.variables();
        let nv: usize = vars.len();
        let mut header: Vec<u8> = Vec::new();
        header.push(124);
        proof {
            assert(names_view(vars@).len() == nv);
            assert(header@ =~= seq![124u8] + joined_names(bexp.vars_view().subrange(0, 0)));
        }
        let mut j: usize = 0;
        while j < nv
            invariant
                j <= nv,
                header@ == seq![124u8] + joined_names(bexp.vars_view().subrange(0, j as int)),
            decreases nv - j,
        {
            let ghost pre = bexp.vars_view().subrange(0, j as int);
            if j > 0 {
                header.push(124);
            }
            push_bytes(&mut header, &vars[j]);
            proof {
                let cur = bexp.vars_view().subrange(0, j as int + 1);
                assert(cur.drop_last() =~= pre);
                assert(cur.last() == bexp.vars_view()[j as int]);
                assert(vars@[j as int]@ == bexp.vars_view()[j as int]);
                if j == 0 {
                    assert(joined_names(cur) == cur[0]);
                    assert(header@ =~= seq![124u8] + joined_names(cur));
                } else {
                    assert(joined_names(cur) == joined_names(pre) + seq![124u8] + cur.last());
                    assert(header@ =~= seq![124u8] + joined_names(cur));
                }
            }
            j = j + 1;
        }
        proof {
            assert(bexp.vars_view().subrange(0, nv as int) =~= bexp.vars_view());
        }
        header.push(124);
        push_bytes(&mut header, exp);
        header.push(124);
        proof {
            assert(header@ =~= header_line(bexp.vars_view(), exp@));
        }
        let hl: usize = header.len();
        let mut row_separator: Vec<u8> = Vec::new();
        proof {
            assert(row_separator@ =~= separator_line(0));
        }
        let mut k: usize = 0;
        while k < hl
            invariant
                k <= hl,
                row_separator@ == separator_line(k as int),
            decreases hl - k,
        {
            row_separator.push(45);
            proof {
                assert(row_separator@ =~= separator_line(k as int + 1));
            }
            k = k + 1;
        }
        TableFormat { header, row_separator, expression_length: exp.len() }
    }

    /// The header line, for printing.
    pub fn header(&self) -> (r: &Vec<u8>)
        ensures
            r@ == self.header_view(),
    {
        &self.header
    }

    /// The rule line, for printing.
    pub fn row_separator(&self) -> (r: &Vec<u8>)
        ensures
            r@ == self.separator_view(),
    {
        &self.row_separator
    }

    /// The width of the result column.
    pub fn expression_length(&self) -> (r: usize)
        ensures
            r as int == self.expression_length_view(),
    {
        self.expression_length
    }

    /// Builds one table row for the given assignment and evaluation result:
    /// each variable's bit right-aligned in its name's width, then the
    /// result right-aligned in the expression text's width.
    #[verifier::loop_isolation(false)]
    pub fn evaluation_row<T: BitString>(
        &self,
        bexp: &BooleanExpression,
        input: T,
        eval_result: u8,
    ) -> (r: Vec<u8>)
        requires
            bexp.vars_view().len() <= input.spec_width(),
        ensures
            r@ == evaluation_line(
                bexp.vars_view(),
                bits_of(input),
                self.expression_length_view(),
                eval_result,
            ),
    {
        let vars = bexp.variables();
        let nv: usize = vars.len();
        proof {
            assert(names_view(vars@).len() == nv);
        }
        let mut out: Vec<u8> = Vec::new();
        proof {
            assert(out@ =~= row_cells(bexp.vars_view(), bits_of(input), 0));
        }
        let mut j: usize = 0;
        while j < nv
            invariant
                j <= nv,
                out@ == row_cells(bexp.vars_view(), bits_of(input), j as int),
            decreases nv - j,
        {
            let ghost o0 = out@;
            out.push(124);
            let name_len: usize = vars[j].len();
            let bit: u8 = input.get_bit(nv - 1 - j).unwrap();
            if name_len > 1 {
                push_spaces(&mut out, name_len - 1);
            }
            push_dec_u8(&mut out, bit);
            proof {
                let a = bits_of(input);
                let pos: int = nv - 1 - j;
                assert(bit == bit_value(a(pos)));
                assert(vars@[j as int]@ == bexp.vars_view()[j as int]);
                assert(dec_u8(bit).len() == 1);
                let cell = right_aligned(name_len as int, dec_u8(bit));
                if name_len > 1 {
                    assert(cell == spaces(name_len - 1) + dec_u8(bit));
                    assert(out@ =~= o0 + seq![124u8] + cell);
                } else {
                    assert(cell == dec_u8(bit));
                    assert(out@ =~= o0 + seq![124u8] + cell);
                }
                assert(row_cells(bexp.vars_view(), a, j as int + 1) == o0 + seq![124u8]
                    + right_aligned(
                    bexp.vars_view()[j as int].len() as int,
                    dec_u8(bit_value(a(nv - (j + 1)))),
                ));
                assert(out@ == row_cells(bexp.vars_view(), a, j as int + 1));
            }
            j = j + 1;
        }
        let ghost cells = out@;
        out.push(124);
        let dlen: usize = if eval_result < 10 {
            1
        } else if eval_result < 100 {
            2
        } else {
            3
        };
        proof {
            assert(dec_u8(eval_result).len() == dlen);
        }
        if self.expression_length > dlen {
            push_spaces(&mut out, self.expression_length - dlen);
        }
        push_dec_u8(&mut out, eval_result);
        out.push(124);
        proof {
            let rescell = right_aligned(self.expression_length as int, dec_u8(eval_result));
            if self.expression_length > dlen {
                assert(rescell == spaces(self.expression_length - dlen) + dec_u8(eval_result));
            } else {
                assert(rescell == dec_u8(eval_result));
            }
            assert(out@ =~= cells + seq![124u8] + rescell + seq![124u8]);
        }
        out
    }
}

} // verus!
