use vstd::prelude::*;
use vstd::string::*;

use super::{
    copies, counted, dec, digit, instrs, labels, lemma_labels_distinct, lemma_instrs_step, lemma_root_free_element, lemma_loop_count_take, lowerable,
    push_decimal, run_instr, Codegen, Instr,
};
use crate::ast::{loop_count, root_free, AST};
use crate::token::Token;

verus! {

/// Lowers to x86-64 assembly (GNU syntax). The tape is 30000 zeroed bytes
/// addressed through `%rbx`; byte arithmetic makes cells wrap modulo 256.
pub struct AssemblyCodeGenerator {}

pub const TEMPLATE_START: &'static str = "        .bss\ntape:\n        .zero 30000\n\n        .text\n        .globl main\nmain:\n        pushq %rbx\n        leaq tape(%rip), %rbx\n";

pub const TEMPLATE_END: &'static str = "        popq %rbx\n        xorl %eax, %eax\n        ret\n";

pub const TEMPLATE_RIGHT: &'static str = "        addq $";

pub const TEMPLATE_LEFT: &'static str = "        subq $";

pub const TEMPLATE_POINTER_END: &'static str = ", %rbx\n";

pub const TEMPLATE_ADD: &'static str = "        addb $";

pub const TEMPLATE_SUBTRACT: &'static str = "        subb $";

pub const TEMPLATE_CELL_END: &'static str = ", (%rbx)\n";

pub const TEMPLATE_PRINT_CHAR: &'static str = "        movzbl (%rbx), %edi\n        call putchar\n";

pub const TEMPLATE_GET_CHAR: &'static str = "        call getchar\n        movb %al, (%rbx)\n";

pub const TEMPLATE_JUMP: &'static str = "        jmp .";

pub const TEMPLATE_TEST: &'static str = ":\n        cmpb $0, (%rbx)\n        jne .";

pub const LABEL_BODY: &'static str = "loop_body";

pub const LABEL_CONDITION: &'static str = "loop_condition";

/// A label: its hint, an underscore and its number.
pub open spec fn label_name(hint: Seq<char>, n: nat) -> Seq<char> {
    hint + seq!['_'] + dec(n)
}

/// The text of one operation.
pub open spec fn asm_instr(i: Instr) -> Seq<char> {
    match i {
        Instr::Right(n) => TEMPLATE_RIGHT@ + dec(n) + TEMPLATE_POINTER_END@,
        Instr::Left(n) => TEMPLATE_LEFT@ + dec(n) + TEMPLATE_POINTER_END@,
        Instr::Add(n) => TEMPLATE_ADD@ + dec(n) + TEMPLATE_CELL_END@,
        Instr::Subtract(n) => TEMPLATE_SUBTRACT@ + dec(n) + TEMPLATE_CELL_END@,
        Instr::PrintChar => TEMPLATE_PRINT_CHAR@,
        Instr::GetChar => TEMPLATE_GET_CHAR@,
        Instr::LoopStart(l) => TEMPLATE_JUMP@ + label_name(LABEL_CONDITION@, l + 1) + seq![
            '\n',
            '.',
        ] + label_name(LABEL_BODY@, l) + seq![':', '\n'],
        Instr::LoopEnd(l) => seq!['.'] + label_name(LABEL_CONDITION@, l + 1) + TEMPLATE_TEST@
            + label_name(LABEL_BODY@, l) + seq!['\n'],
    }
}

/// The label names that a sequence of operations defines, in order: for each
/// loop its body label, then its condition label.
pub open spec fn label_names(t: Seq<Instr>) -> Seq<Seq<char>>
    decreases t.len(),
{
    if t.len() == 0 {
        Seq::empty()
    } else {
        label_names(t.drop_last()) + match t.last() {
            Instr::LoopStart(l) => seq![
                label_name(LABEL_BODY@, l),
                label_name(LABEL_CONDITION@, l + 1),
            ],
            _ => Seq::empty(),
        }
    }
}

proof fn lemma_dec_len(n: nat)
    ensures
        dec(n).len() >= 1,
        n >= 10 ==> dec(n).len() >= 2,
    decreases n,
{
    if n >= 10 {
        lemma_dec_len(n / 10);
    }
}

/// Distinct numbers have distinct decimal forms.
pub proof fn lemma_dec_injective(a: nat, b: nat)
    requires
        dec(a) == dec(b),
    ensures
        a == b,
    decreases a,
{
    lemma_dec_len(a);
    lemma_dec_len(b);
    if a < 10 && b < 10 {
        let ds = seq!['0', '1', '2', '3', '4', '5', '6', '7', '8', '9'];
        assert(dec(a)[0] == ds[a as int]);
        assert(dec(b)[0] == ds[b as int]);
    } else if a >= 10 && b >= 10 {
        assert(dec(a/10) == dec(a).drop_last());
        assert(dec(b/10) == dec(b).drop_last());
        lemma_dec_injective(a / 10, b / 10);
        let ds = seq!['0', '1', '2', '3', '4', '5', '6', '7', '8', '9'];
        assert(dec(a).last() == ds[(a % 10) as int]);
        assert(dec(b).last() == ds[(b % 10) as int]);
    }
}

/// Two label names are equal only for the same hint and the same number.
pub proof fn lemma_label_name_injective(h1: Seq<char>, a: nat, h2: Seq<char>, b: nat)
    requires
        h1 == LABEL_BODY@ || h1 == LABEL_CONDITION@,
        h2 == LABEL_BODY@ || h2 == LABEL_CONDITION@,
        label_name(h1, a) == label_name(h2, b),
    ensures
        h1 == h2,
        a == b,
{
    reveal_strlit("loop_body");
    reveal_strlit("loop_condition");
    let x = label_name(h1, a);
    assert(x[5] == h1[5]);
    assert(label_name(h2, b)[5] == h2[5]);
    assert(h1 == h2);
    assert(x.subrange(h1.len() as int + 1, x.len() as int) =~= dec(a));
    assert(label_name(h2, b).subrange(h2.len() as int + 1, x.len() as int) =~= dec(b));
    lemma_dec_injective(a, b);
}

proof fn lemma_label_names_follow_numbers(t: Seq<Instr>)
    ensures
        label_names(t).len() == labels(t).len(),
        labels(t).len() % 2 == 0,
        forall|i: int|
            0 <= i < labels(t).len() ==> #[trigger] label_names(t)[i] == label_name(
                if i % 2 == 0 {
                    LABEL_BODY@
                } else {
                    LABEL_CONDITION@
                },
                labels(t)[i],
            ),
    decreases t.len(),
{
    if t.len() > 0 {
        lemma_label_names_follow_numbers(t.drop_last());
    }
}

/// The `2k` labels that a program with `k` loops defines are `2k` distinct names.
pub proof fn lemma_label_names_distinct(ast: AST, optimized: bool)
    requires
        ast is Root,
    ensures
        label_names(instrs(ast->Root_0@, optimized, 0)).len() == 2 * loop_count(ast->Root_0@),
        label_names(instrs(ast->Root_0@, optimized, 0)).no_duplicates(),
{
    let t = instrs(ast->Root_0@, optimized, 0);
    lemma_labels_distinct(ast, optimized);
    lemma_label_names_follow_numbers(t);
    assert forall|i: int, j: int|
        0 <= i < label_names(t).len() && 0 <= j < label_names(t).len() && i != j
            implies label_names(t)[i] != label_names(t)[j] by {
        let hi = if i % 2 == 0 { LABEL_BODY@ } else { LABEL_CONDITION@ };
        let hj = if j % 2 == 0 { LABEL_BODY@ } else { LABEL_CONDITION@ };
        assert(label_names(t)[i] == label_name(hi, labels(t)[i]));
        assert(label_names(t)[j] == label_name(hj, labels(t)[j]));
        if label_names(t)[i] == label_names(t)[j] {
            lemma_label_name_injective(hi, labels(t)[i], hj, labels(t)[j]);
        }
    }
}

/// The text of a sequence of operations.
pub open spec fn asm_all(t: Seq<Instr>) -> Seq<char>
    decreases t.len(),
{
    if t.len() == 0 {
        Seq::empty()
    } else {
        asm_all(t.drop_last()) + asm_instr(t.last())
    }
}

/// The whole program for a `Root`.
pub open spec fn asm_program(ast: AST, optimized: bool) -> Seq<char> {
    TEMPLATE_START@ + asm_all(instrs(ast->Root_0@, optimized, 0)) + TEMPLATE_END@
}

pub proof fn lemma_asm_all_concat(a: Seq<Instr>, b: Seq<Instr>)
    ensures
        asm_all(a + b) == asm_all(a) + asm_all(b),
    decreases b.len(),
{
    if b.len() == 0 {
        assert(a + b =~= a);
        assert(asm_all(a) + asm_all(b) =~= asm_all(a));
    } else {
        assert((a + b).drop_last() =~= a + b.drop_last());
        lemma_asm_all_concat(a, b.drop_last());
        assert(asm_all(a) + asm_all(b) =~= asm_all(a) + asm_all(b.drop_last()) + asm_instr(
            b.last(),
        ));
    }
}

proof fn lemma_asm_one(i: Instr)
    ensures
        asm_all(seq![i]) == asm_instr(i),
{
    assert(seq![i].drop_last() =~= Seq::<Instr>::empty());
    assert(asm_all(Seq::<Instr>::empty()) + asm_instr(i) =~= asm_instr(i));
}

/// The name of a fresh label; the counter moves on by one.
fn gen_label(hint: &str, counter: &mut usize) -> (r: String)
    requires
        *old(counter) < usize::MAX,
    ensures
        r@ == label_name(hint@, *old(counter) as nat),
        *final(counter) == *old(counter) + 1,
{
    let mut r = hint.to_owned();
    r.append("_");
    push_decimal(&mut r, *counter);
    proof {
        reveal_strlit("_");
        assert(r@ =~= label_name(hint@, *old(counter) as nat));
    }
    *counter = *counter + 1;
    r
}

/// Appends one operation that moves or changes by `amount`.
fn codegen_op(kind: Token, amount: usize, out: &mut String)
    requires
        kind == Token::Right || kind == Token::Left || kind == Token::Add || kind == Token::Subtract,
    ensures
        final(out)@ == old(out)@ + asm_instr(run_instr(kind, amount as nat)),
{
    match kind {
        Token::Right => {
            out.append(TEMPLATE_RIGHT);
            push_decimal(out, amount);
            out.append(TEMPLATE_POINTER_END);
        },
        Token::Left => {
            out.append(TEMPLATE_LEFT);
            push_decimal(out, amount);
            out.append(TEMPLATE_POINTER_END);
        },
        Token::Add => {
            out.append(TEMPLATE_ADD);
            push_decimal(out, amount);
            out.append(TEMPLATE_CELL_END);
        },
        _ => {
            out.append(TEMPLATE_SUBTRACT);
            push_decimal(out, amount);
            out.append(TEMPLATE_CELL_END);
        },
    }
    proof {
        assert(final(out)@ =~= old(out)@ + asm_instr(run_instr(kind, amount as nat)));
    }
}

/// Appends a counted leaf: once with its count, or its count times with one.
fn codegen_numeric(kind: Token, times: usize, optimized: bool, out: &mut String)
    requires
        kind == Token::Right || kind == Token::Left || kind == Token::Add || kind == Token::Subtract,
    ensures
        final(out)@ == old(out)@ + asm_all(counted(kind, times as nat, optimized)),
{
    if optimized {
        codegen_op(kind, times, out);
        proof {
            lemma_asm_one(run_instr(kind, times as nat));
        }
    } else {
        let mut i: usize = 0;
        proof {
            assert(copies(run_instr(kind, 1), 0) =~= Seq::<Instr>::empty());
            assert(out@ =~= old(out)@ + asm_all(copies(run_instr(kind, 1), 0)));
        }
        while i < times
            invariant
                i <= times,
                kind == Token::Right || kind == Token::Left || kind == Token::Add || kind
                    == Token::Subtract,
                out@ == old(out)@ + asm_all(copies(run_instr(kind, 1), i as nat)),
            decreases times - i,
        {
            codegen_op(kind, 1, out);
            proof {
                let c = copies(run_instr(kind, 1), i as nat);
                assert(copies(run_instr(kind, 1), (i + 1) as nat).drop_last() =~= c);
            }
            i = i + 1;
        }
    }
}

fn codegen_right(times: usize, optimized: bool, out: &mut String)
    ensures
        final(out)@ == old(out)@ + asm_all(counted(Token::Right, times as nat, optimized)),
{
    codegen_numeric(Token::Right, times, optimized, out)
}

fn codegen_left(times: usize, optimized: bool, out: &mut String)
    ensures
        final(out)@ == old(out)@ + asm_all(counted(Token::Left, times as nat, optimized)),
{
    codegen_numeric(Token::Left, times, optimized, out)
}

fn codegen_add(times: usize, optimized: bool, out: &mut String)
    ensures
        final(out)@ == old(out)@ + asm_all(counted(Token::Add, times as nat, optimized)),
{
    codegen_numeric(Token::Add, times, optimized, out)
}

fn codegen_subtract(times: usize, optimized: bool, out: &mut String)
    ensures
        final(out)@ == old(out)@ + asm_all(counted(Token::Subtract, times as nat, optimized)),
{
    codegen_numeric(Token::Subtract, times, optimized, out)
}

fn codegen_print_char() -> (r: &'static str)
    ensures
        r@ == asm_instr(Instr::PrintChar),
{
    TEMPLATE_PRINT_CHAR
}

fn codegen_get_char() -> (r: &'static str)
    ensures
        r@ == asm_instr(Instr::GetChar),
{
    TEMPLATE_GET_CHAR
}

/// Appends the code of a statement list; loops take labels from `label` on.
fn codegen_statments(statments: &Vec<AST>, optimized: bool, label: &mut usize, out: &mut String)
    requires
        root_free(statments@),
        *old(label) + 2 * loop_count(statments@) <= usize::MAX,
    ensures
        final(out)@ == old(out)@ + asm_all(instrs(statments@, optimized, *old(label) as nat)),
        *final(label) == *old(label) + 2 * loop_count(statments@),
    decreases statments, 1nat,
{
    let ghost l0 = *label as nat;
    let mut i: usize = 0;
    proof {
        assert(statments@.take(0) =~= Seq::<AST>::empty());
        assert(out@ =~= old(out)@ + asm_all(instrs(statments@.take(0), optimized, l0)));
    }
    while i < statments.len()
        invariant
            i <= statments@.len(),
            root_free(statments@),
            l0 + 2 * loop_count(statments@) <= usize::MAX,
            out@ == old(out)@ + asm_all(instrs(statments@.take(i as int), optimized, l0)),
            *label == l0 + 2 * loop_count(statments@.take(i as int)),
        decreases statments@.len() - i,
    {
        proof {
            lemma_instrs_step(statments@, optimized, l0, i as int);
            lemma_root_free_element(statments@, i as int);
            lemma_loop_count_take(statments@, i as int + 1);
            lemma_asm_all_concat(
                instrs(statments@.take(i as int), optimized, l0),
                instrs(seq![statments@[i as int]], optimized, *label as nat),
            );
        }
        codegen_statment(&statments[i], optimized, label, out);
        i = i + 1;
    }
    proof {
        assert(statments@.take(i as int) =~= statments@);
    }
}

/// Appends the code of one statement.
fn codegen_statment(statment: &AST, optimized: bool, label: &mut usize, out: &mut String)
    requires
        root_free(seq![*statment]),
        *old(label) + 2 * loop_count(seq![*statment]) <= usize::MAX,
    ensures
        final(out)@ == old(out)@ + asm_all(instrs(seq![*statment], optimized, *old(label) as nat)),
        *final(label) == *old(label) + 2 * loop_count(seq![*statment]),
    decreases statment, 0nat,
{
    let ghost one = seq![*statment];
    proof {
        assert(one.drop_last() =~= Seq::<AST>::empty());
        assert(loop_count(one.drop_last()) == 0);
        assert(instrs(one.drop_last(), optimized, *label as nat) =~= Seq::<Instr>::empty());
    }
    match statment {
        AST::Right(times) => codegen_right(*times, optimized, out),
        AST::Left(times) => codegen_left(*times, optimized, out),
        AST::Add(times) => codegen_add(*times, optimized, out),
        AST::Subtract(times) => codegen_subtract(*times, optimized, out),
        AST::PrintChar => {
            out.append(codegen_print_char());
            proof {
                lemma_asm_one(Instr::PrintChar);
            }
        },
        AST::GetChar => {
            out.append(codegen_get_char());
            proof {
                lemma_asm_one(Instr::GetChar);
            }
        },
        AST::Loop(statments) => codegen_loop(statments, optimized, label, out),
        AST::Root(_) => vstd::pervasive::unreached(),
    }
    proof {
        assert(instrs(one, optimized, *old(label) as nat) =~= Seq::<Instr>::empty() + instrs(
            one,
            optimized,
            *old(label) as nat,
        ));
    }
}

/// Appends a loop: a jump to its condition, its body under a body label, then
/// the condition that branches back while the cell is not zero.
fn codegen_loop(statments: &Vec<AST>, optimized: bool, label: &mut usize, out: &mut String)
    requires
        root_free(statments@),
        *old(label) + 2 + 2 * loop_count(statments@) <= usize::MAX,
    ensures
        final(out)@ == old(out)@ + asm_all(
            seq![Instr::LoopStart(*old(label) as nat)] + instrs(
                statments@,
                optimized,
                *old(label) as nat + 2,
            ) + seq![Instr::LoopEnd(*old(label) as nat)],
        ),
        *final(label) == *old(label) + 2 + 2 * loop_count(statments@),
    decreases statments, 2nat,
{
    let ghost l = *label as nat;
    let body_label = gen_label(LABEL_BODY, label);
    let condition_label = gen_label(LABEL_CONDITION, label);
    out.append(TEMPLATE_JUMP);
    out.append(condition_label.as_str());
    out.append("\n.");
    out.append(body_label.as_str());
    out.append(":\n");
    proof {
        reveal_strlit("\n.");
        reveal_strlit(":\n");
        lemma_asm_one(Instr::LoopStart(l));
        assert(out@ =~= old(out)@ + asm_all(seq![Instr::LoopStart(l)]));
    }
    let ghost mid = out@;
    codegen_statments(statments, optimized, label, out);
    out.append(".");
    out.append(condition_label.as_str());
    out.append(TEMPLATE_TEST);
    out.append(body_label.as_str());
    out.append("\n");
    proof {
        reveal_strlit(".");
        reveal_strlit("\n");
        lemma_asm_one(Instr::LoopEnd(l));
        let a = seq![Instr::LoopStart(l)];
        let b = instrs(statments@, optimized, l + 2);
        let c = seq![Instr::LoopEnd(l)];
        lemma_asm_all_concat(a, b);
        lemma_asm_all_concat(a + b, c);
        assert(out@ =~= old(out)@ + asm_all(a + b + c));
    }
}

/// Lowers a `Root` to a whole assembly program.
pub fn codegen(ast: AST, optimized: bool) -> (r: String)
    requires
        lowerable(ast),
    ensures
        r@ == asm_program(ast, optimized),
{
    match ast {
        AST::Root(statments) => {
            let mut content = TEMPLATE_START.to_owned();
            let mut label: usize = 0;
            codegen_statments(&statments, optimized, &mut label, &mut content);
            content.append(TEMPLATE_END);
            content
        },
        _ => vstd::pervasive::unreached(),
    }
}

impl Codegen for AssemblyCodeGenerator {
    open spec fn program(ast: AST, optimized: bool) -> Seq<char> {
        asm_program(ast, optimized)
    }

    fn codegen(ast: AST, optimized: bool) -> (r: String) {
        codegen(ast, optimized)
    }
}

} // verus!
