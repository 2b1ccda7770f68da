use vstd::prelude::*;
use vstd::string::*;

use super::{
    copies, counted, dec, instrs, lemma_instrs_step, lemma_root_free_element, push_decimal, run_instr, Codegen,
    Instr,
};
use crate::ast::{loop_count, root_free, AST};
use crate::token::Token;

verus! {

/// Lowers to C. The tape is 30000 zeroed `unsigned char` cells, so cells wrap
/// modulo 256 as in the assembly backend. Counts are printed as they stand.
pub struct CCodeGenerator {}

pub const TEMPLATE_START: &'static str = "int putchar(int c);\nint getchar(void);\n\nstatic unsigned char tape[30000];\n\nint main(void) {\n    unsigned char *ptr = tape;\n";

pub const TEMPLATE_END: &'static str = "    return 0;\n}\n";

pub const TEMPLATE_RIGHT: &'static str = "    ptr += ";

pub const TEMPLATE_LEFT: &'static str = "    ptr -= ";

pub const TEMPLATE_ADD: &'static str = "    *ptr += ";

pub const TEMPLATE_SUBTRACT: &'static str = "    *ptr -= ";

pub const TEMPLATE_STATEMENT_END: &'static str = ";\n";

pub const TEMPLATE_PRINT_CHAR: &'static str = "    putchar(*ptr);\n";

pub const TEMPLATE_GET_CHAR: &'static str = "    *ptr = (unsigned char)getchar();\n";

pub const TEMPLATE_LOOP_START: &'static str = "    while (*ptr) {\n";

pub const TEMPLATE_LOOP_END: &'static str = "    }\n";

/// The text of one operation; loops need no labels here.
pub open spec fn c_instr(i: Instr) -> Seq<char> {
    match i {
        Instr::Right(n) => TEMPLATE_RIGHT@ + dec(n) + TEMPLATE_STATEMENT_END@,
        Instr::Left(n) => TEMPLATE_LEFT@ + dec(n) + TEMPLATE_STATEMENT_END@,
        Instr::Add(n) => TEMPLATE_ADD@ + dec(n) + TEMPLATE_STATEMENT_END@,
        Instr::Subtract(n) => TEMPLATE_SUBTRACT@ + dec(n) + TEMPLATE_STATEMENT_END@,
        Instr::PrintChar => TEMPLATE_PRINT_CHAR@,
        Instr::GetChar => TEMPLATE_GET_CHAR@,
        Instr::LoopStart(_) => TEMPLATE_LOOP_START@,
        Instr::LoopEnd(_) => TEMPLATE_LOOP_END@,
    }
}

/// The text of a sequence of operations.
pub open spec fn c_all(t: Seq<Instr>) -> Seq<char>
    decreases t.len(),
{
    if t.len() == 0 {
        Seq::empty()
    } else {
        c_all(t.drop_last()) + c_instr(t.last())
    }
}

/// The whole program for a `Root`.
pub open spec fn c_program(ast: AST, optimized: bool) -> Seq<char> {
    TEMPLATE_START@ + c_all(instrs(ast->Root_0@, optimized, 0)) + TEMPLATE_END@
}

pub proof fn lemma_c_all_concat(a: Seq<Instr>, b: Seq<Instr>)
    ensures
        c_all(a + b) == c_all(a) + c_all(b),
    decreases b.len(),
{
    if b.len() == 0 {
        assert(a + b =~= a);
        assert(c_all(a) + c_all(b) =~= c_all(a));
    } else {
        assert((a + b).drop_last() =~= a + b.drop_last());
        lemma_c_all_concat(a, b.drop_last());
        assert(c_all(a) + c_all(b) =~= c_all(a) + c_all(b.drop_last()) + c_instr(b.last()));
    }
}

proof fn lemma_c_one(i: Instr)
    ensures
        c_all(seq![i]) == c_instr(i),
{
    assert(seq![i].drop_last() =~= Seq::<Instr>::empty());
    assert(c_all(Seq::<Instr>::empty()) + c_instr(i) =~= c_instr(i));
}

impl CCodeGenerator {
    /// Appends the code of a statement list; `label` numbers its first loop
    /// as the shared lowering does, though C needs no labels.
    fn codegen_statments(
        statments: &Vec<AST>,
        optimized: bool,
        label: Ghost<nat>,
        out: &mut String,
    )
        requires
            root_free(statments@),
        ensures
            final(out)@ == old(out)@ + c_all(instrs(statments@, optimized, label@)),
        decreases statments, 1nat,
    {
        let mut i: usize = 0;
        proof {
            assert(statments@.take(0) =~= Seq::<AST>::empty());
            assert(out@ =~= old(out)@ + c_all(instrs(statments@.take(0), optimized, label@)));
        }
        while i < statments.len()
            invariant
                i <= statments@.len(),
                root_free(statments@),
                out@ == old(out)@ + c_all(instrs(statments@.take(i as int), optimized, label@)),
            decreases statments@.len() - i,
        {
            let ghost here = label@ + 2 * loop_count(statments@.take(i as int));
            proof {
                lemma_instrs_step(statments@, optimized, label@, i as int);
                lemma_root_free_element(statments@, i as int);
                lemma_c_all_concat(
                    instrs(statments@.take(i as int), optimized, label@),
                    instrs(seq![statments@[i as int]], optimized, here),
                );
            }
            Self::codegen_statment(&statments[i], optimized, Ghost(here), out);
            i = i + 1;
        }
        proof {
            assert(statments@.take(i as int) =~= statments@);
        }
    }

    /// Appends the code of one statement.
    fn codegen_statment(statment: &AST, optimized: bool, label: Ghost<nat>, out: &mut String)
        requires
            root_free(seq![*statment]),
        ensures
            final(out)@ == old(out)@ + c_all(instrs(seq![*statment], optimized, label@)),
        decreases statment, 0nat,
    {
        let ghost one = seq![*statment];
        proof {
            assert(one.drop_last() =~= Seq::<AST>::empty());
            assert(loop_count(one.drop_last()) == 0);
            assert(instrs(one.drop_last(), optimized, label@) =~= Seq::<Instr>::empty());
        }
        match statment {
            AST::Right(times) => Self::codegen_right(*times, optimized, out),
            AST::Left(times) => Self::codegen_left(*times, optimized, out),
            AST::Add(times) => Self::codegen_add(*times, optimized, out),
            AST::Subtract(times) => Self::codegen_subtract(*times, optimized, out),
            AST::PrintChar => {
                out.append(Self::codegen_print_char());
                proof {
                    lemma_c_one(Instr::PrintChar);
                }
            },
            AST::GetChar => {
                out.append(Self::codegen_get_char());
                proof {
                    lemma_c_one(Instr::GetChar);
                }
            },
            AST::Loop(statments) => Self::codegen_loop(statments, optimized, label, out),
            AST::Root(_) => vstd::pervasive::unreached(),
        }
        proof {
            assert(instrs(one, optimized, label@) =~= Seq::<Instr>::empty() + instrs(
                one,
                optimized,
                label@,
            ));
        }
    }

    /// Appends one operation that moves or changes by `amount`.
    fn codegen_op(kind: Token, amount: usize, out: &mut String)
        requires
            kind == Token::Right || kind == Token::Left || kind == Token::Add || kind
                == Token::Subtract,
        ensures
            final(out)@ == old(out)@ + c_instr(run_instr(kind, amount as nat)),
    {
        let template = match kind {
            Token::Right => TEMPLATE_RIGHT,
            Token::Left => TEMPLATE_LEFT,
            Token::Add => TEMPLATE_ADD,
            _ => TEMPLATE_SUBTRACT,
        };
        out.append(template);
        push_decimal(out, amount);
        out.append(TEMPLATE_STATEMENT_END);
        proof {
            assert(final(out)@ =~= old(out)@ + c_instr(run_instr(kind, amount as nat)));
        }
    }

    /// Appends a counted leaf: once with its count, or its count times with one.
    fn codegen_numeric(kind: Token, times: usize, optimized: bool, out: &mut String)
        requires
            kind == Token::Right || kind == Token::Left || kind == Token::Add || kind
                == Token::Subtract,
        ensures
            final(out)@ == old(out)@ + c_all(counted(kind, times as nat, optimized)),
    {
        if optimized {
            Self::codegen_op(kind, times, out);
            proof {
                lemma_c_one(run_instr(kind, times as nat));
            }
        } else {
            let mut i: usize = 0;
            proof {
                assert(copies(run_instr(kind, 1), 0) =~= Seq::<Instr>::empty());
                assert(out@ =~= old(out)@ + c_all(copies(run_instr(kind, 1), 0)));
            }
            while i < times
                invariant
                    i <= times,
                    kind == Token::Right || kind == Token::Left || kind == Token::Add || kind
                        == Token::Subtract,
                    out@ == old(out)@ + c_all(copies(run_instr(kind, 1), i as nat)),
                decreases times - i,
            {
                Self::codegen_op(kind, 1, out);
                proof {
                    let c = copies(run_instr(kind, 1), i as nat);
                    assert(copies(run_instr(kind, 1), (i + 1) as nat).drop_last() =~= c);
                }
                i = i + 1;
            }
        }
    }

    fn codegen_right(times: usize, optimized: bool, out: &mut String)
        ensures
            final(out)@ == old(out)@ + c_all(counted(Token::Right, times as nat, optimized)),
    {
        Self::codegen_numeric(Token::Right, times, optimized, out)
    }

    fn codegen_left(times: usize, optimized: bool, out: &mut String)
        ensures
            final(out)@ == old(out)@ + c_all(counted(Token::Left, times as nat, optimized)),
    {
        Self::codegen_numeric(Token::Left, times, optimized, out)
    }

    fn codegen_add(times: usize, optimized: bool, out: &mut String)
        ensures
            final(out)@ == old(out)@ + c_all(counted(Token::Add, times as nat, optimized)),
    {
        Self::codegen_numeric(Token::Add, times, optimized, out)
    }

    fn codegen_subtract(times: usize, optimized: bool, out: &mut String)
        ensures
            final(out)@ == old(out)@ + c_all(counted(Token::Subtract, times as nat, optimized)),
    {
        Self::codegen_numeric(Token::Subtract, times, optimized, out)
    }

    fn codegen_print_char() -> (r: &'static str)
        ensures
            r@ == c_instr(Instr::PrintChar),
    {
        TEMPLATE_PRINT_CHAR
    }

    fn codegen_get_char() -> (r: &'static str)
        ensures
            r@ == c_instr(Instr::GetChar),
    {
        TEMPLATE_GET_CHAR
    }

    /// Appends a `while` loop around the body.
    fn codegen_loop(statments: &Vec<AST>, optimized: bool, label: Ghost<nat>, out: &mut String)
        requires
            root_free(statments@),
        ensures
            final(out)@ == old(out)@ + c_all(
                seq![Instr::LoopStart(label@)] + instrs(statments@, optimized, label@ + 2)
                    + seq![Instr::LoopEnd(label@)],
            ),
        decreases statments, 2nat,
    {
        out.append(TEMPLATE_LOOP_START);
        Self::codegen_statments(statments, optimized, Ghost(label@ + 2), out);
        out.append(TEMPLATE_LOOP_END);
        proof {
            let a = seq![Instr::LoopStart(label@)];
            let b = instrs(statments@, optimized, label@ + 2);
            let c = seq![Instr::LoopEnd(label@)];
            lemma_c_one(Instr::LoopStart(label@));
            lemma_c_one(Instr::LoopEnd(label@));
            lemma_c_all_concat(a, b);
            lemma_c_all_concat(a + b, c);
            assert(out@ =~= old(out)@ + c_all(a + b + c));
        }
    }
}

impl Codegen for CCodeGenerator {
    open spec fn program(ast: AST, optimized: bool) -> Seq<char> {
        c_program(ast, optimized)
    }

    fn codegen(ast: AST, optimized: bool) -> (r: String) {
        match ast {
            AST::Root(statments) => {
                let mut content = TEMPLATE_START.to_owned();
                Self::codegen_statments(&statments, optimized, Ghost(0), &mut content);
                content.append(TEMPLATE_END);
                content
            },
            _ => vstd::pervasive::unreached(),
        }
    }
}

} // verus!
