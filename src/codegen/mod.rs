use vstd::prelude::*;

use crate::ast::{
    balanced, depth, end_token, flatten, lemma_depth_concat, lemma_flatten_balanced,
    lemma_flatten_covers, lemma_flatten_loops, lemma_flatten_split, lemma_single,
    lemma_wrap_balanced, loop_count, node_tokens, root_free, wf_body, AST,
};
use crate::parser::parses_to;
use assembly::asm_program;
use c::c_program;
use crate::token::Token;

pub mod assembly;
pub mod c;

pub use assembly::AssemblyCodeGenerator;
pub use c::CCodeGenerator;

verus! {

/// One lowered operation, as both backends see it. A loop's two labels are
/// numbered `l` (its body) and `l + 1` (its condition).
pub enum Instr {
    Right(nat),
    Left(nat),
    Add(nat),
    Subtract(nat),
    PrintChar,
    GetChar,
    LoopStart(nat),
    LoopEnd(nat),
}

/// `n` copies of one operation.
pub open spec fn copies(i: Instr, n: nat) -> Seq<Instr> {
    Seq::new(n, |k: int| i)
}

/// The operation that moves or changes by `n` for a counted token.
pub open spec fn run_instr(kind: Token, n: nat) -> Instr {
    match kind {
        Token::Right => Instr::Right(n),
        Token::Left => Instr::Left(n),
        Token::Add => Instr::Add(n),
        _ => Instr::Subtract(n),
    }
}

/// The operations of one counted leaf: one carrying the count when optimized,
/// else the count-one operation `n` times.
pub open spec fn counted(kind: Token, n: nat, optimized: bool) -> Seq<Instr> {
    if optimized {
        seq![run_instr(kind, n)]
    } else {
        copies(run_instr(kind, 1), n)
    }
}

/// The operations of a statement list whose first loop is labelled from `label`;
/// each loop takes the next two label numbers, in the order the loops open.
pub open spec fn instrs(s: Seq<AST>, optimized: bool, label: nat) -> Seq<Instr>
    decreases s,
{
    if s.len() == 0 {
        Seq::empty()
    } else {
        let before = instrs(s.drop_last(), optimized, label);
        let l = label + 2 * loop_count(s.drop_last());
        before + match s.last() {
            AST::Right(n) => counted(Token::Right, n as nat, optimized),
            AST::Left(n) => counted(Token::Left, n as nat, optimized),
            AST::Add(n) => counted(Token::Add, n as nat, optimized),
            AST::Subtract(n) => counted(Token::Subtract, n as nat, optimized),
            AST::PrintChar => seq![Instr::PrintChar],
            AST::GetChar => seq![Instr::GetChar],
            AST::Loop(b) => seq![Instr::LoopStart(l)] + instrs(b@, optimized, l + 2) + seq![
                Instr::LoopEnd(l),
            ],
            AST::Root(_) => Seq::empty(),
        }
    }
}

/// What a program may be lowered from: a `Root` with no `Root` below it whose
/// label numbers fit in a `usize`.
pub open spec fn lowerable(ast: AST) -> bool {
    ast is Root && root_free(ast->Root_0@) && 2 * loop_count(ast->Root_0@) + 2 <= usize::MAX
}

/// Each statement of a list without `Root` is one on its own.
pub proof fn lemma_root_free_element(s: Seq<AST>, i: int)
    requires
        root_free(s),
        0 <= i < s.len(),
    ensures
        root_free(seq![s[i]]),
        !(s[i] is Root),
    decreases s.len(),
{
    let one = seq![s[i]];
    assert(one.drop_last() =~= Seq::<AST>::empty());
    assert(root_free(one.drop_last()));
    if i < s.len() - 1 {
        lemma_root_free_element(s.drop_last(), i);
        assert(s.drop_last()[i] == s[i]);
    } else {
        assert(one.last() == s.last());
    }
    assert(one.len() == 1);
}

/// Lowering a list one statement at a time.
pub proof fn lemma_instrs_step(s: Seq<AST>, optimized: bool, label: nat, i: int)
    requires
        0 <= i < s.len(),
    ensures
        instrs(s.take(i + 1), optimized, label) == instrs(s.take(i), optimized, label) + instrs(
            seq![s[i]],
            optimized,
            label + 2 * loop_count(s.take(i)),
        ),
        loop_count(s.take(i + 1)) == loop_count(s.take(i)) + loop_count(seq![s[i]]),
{
    let one = seq![s[i]];
    assert(s.take(i + 1).drop_last() =~= s.take(i));
    assert(one.drop_last() =~= Seq::<AST>::empty());
    assert(instrs(one.drop_last(), optimized, label + 2 * loop_count(s.take(i))) == Seq::<
        Instr,
    >::empty());
    assert(loop_count(one.drop_last()) == 0);
    assert(instrs(s.take(i), optimized, label) + instrs(one, optimized, label + 2 * loop_count(s.take(i))) =~= instrs(s.take(i + 1), optimized, label));
}

/// A prefix holds no more loops than the whole list.
pub proof fn lemma_loop_count_take(s: Seq<AST>, i: int)
    requires
        0 <= i <= s.len(),
    ensures
        loop_count(s.take(i)) <= loop_count(s),
    decreases s.len() - i,
{
    if i < s.len() {
        lemma_loop_count_take(s, i + 1);
        lemma_instrs_step(s, true, 0, i);
    } else {
        assert(s.take(i) =~= s);
    }
}

/// Spells out every counted operation as that many count-one operations.
pub open spec fn expand(t: Seq<Instr>) -> Seq<Instr>
    decreases t.len(),
{
    if t.len() == 0 {
        Seq::empty()
    } else {
        expand(t.drop_last()) + match t.last() {
            Instr::Right(n) => copies(Instr::Right(1), n),
            Instr::Left(n) => copies(Instr::Left(1), n),
            Instr::Add(n) => copies(Instr::Add(1), n),
            Instr::Subtract(n) => copies(Instr::Subtract(1), n),
            other => seq![other],
        }
    }
}

/// The label numbers that a sequence of operations defines, in order: two per loop.
pub open spec fn labels(t: Seq<Instr>) -> Seq<nat>
    decreases t.len(),
{
    if t.len() == 0 {
        Seq::empty()
    } else {
        labels(t.drop_last()) + match t.last() {
            Instr::LoopStart(l) => seq![l, l + 1],
            _ => Seq::empty(),
        }
    }
}

pub proof fn lemma_expand_concat(a: Seq<Instr>, b: Seq<Instr>)
    ensures
        expand(a + b) == expand(a) + expand(b),
    decreases b.len(),
{
    if b.len() == 0 {
        assert(a + b =~= a);
        assert(expand(a) + expand(b) =~= expand(a));
    } else {
        assert((a + b).drop_last() =~= a + b.drop_last());
        lemma_expand_concat(a, b.drop_last());
        assert(expand(a + b) =~= expand(a) + expand(b));
    }
}

pub proof fn lemma_labels_concat(a: Seq<Instr>, b: Seq<Instr>)
    ensures
        labels(a + b) == labels(a) + labels(b),
    decreases b.len(),
{
    if b.len() == 0 {
        assert(a + b =~= a);
        assert(labels(a) + labels(b) =~= labels(a));
    } else {
        assert((a + b).drop_last() =~= a + b.drop_last());
        lemma_labels_concat(a, b.drop_last());
        assert(labels(a + b) =~= labels(a) + labels(b));
    }
}

proof fn lemma_one(i: Instr)
    ensures
        expand(seq![i]) == expand(Seq::<Instr>::empty()) + match i {
            Instr::Right(n) => copies(Instr::Right(1), n),
            Instr::Left(n) => copies(Instr::Left(1), n),
            Instr::Add(n) => copies(Instr::Add(1), n),
            Instr::Subtract(n) => copies(Instr::Subtract(1), n),
            other => seq![other],
        },
        labels(seq![i]) == labels(Seq::<Instr>::empty()) + match i {
            Instr::LoopStart(l) => seq![l, l + 1],
            _ => Seq::<nat>::empty(),
        },
        expand(Seq::<Instr>::empty()) == Seq::<Instr>::empty(),
        labels(Seq::<Instr>::empty()) == Seq::<nat>::empty(),
{
    assert(seq![i].drop_last() =~= Seq::<Instr>::empty());
}

/// Lowering without optimization gives the operations of the optimized
/// lowering with every count spelled out as that many count-one operations,
/// in the same order.
pub proof fn lemma_unoptimized_is_expanded(s: Seq<AST>, label: nat)
    ensures
        instrs(s, false, label) == expand(instrs(s, true, label)),
    decreases s,
{
    if s.len() > 0 {
        let d = s.drop_last();
        let l = label + 2 * loop_count(d);
        lemma_unoptimized_is_expanded(d, label);
        let x = instrs(s, true, label).subrange(instrs(d, true, label).len() as int, instrs(s, true, label).len() as int);
        assert(instrs(s, true, label) =~= instrs(d, true, label) + x);
        lemma_expand_concat(instrs(d, true, label), x);
        match s.last() {
            AST::Loop(b) => {
                lemma_unoptimized_is_expanded(b@, l + 2);
                let a = seq![Instr::LoopStart(l)];
                let m = instrs(b@, true, l + 2);
                let e = seq![Instr::LoopEnd(l)];
                assert(x =~= a + m + e);
                lemma_expand_concat(a + m, e);
                lemma_expand_concat(a, m);
                lemma_one(Instr::LoopStart(l));
                lemma_one(Instr::LoopEnd(l));
                assert(expand(a) =~= a);
                assert(expand(e) =~= e);
            },
            AST::Right(n) => {
                assert(x =~= seq![Instr::Right(n as nat)]);
                lemma_one(Instr::Right(n as nat));
                assert(expand(x) =~= copies(Instr::Right(1), n as nat));
            },
            AST::Left(n) => {
                assert(x =~= seq![Instr::Left(n as nat)]);
                lemma_one(Instr::Left(n as nat));
                assert(expand(x) =~= copies(Instr::Left(1), n as nat));
            },
            AST::Add(n) => {
                assert(x =~= seq![Instr::Add(n as nat)]);
                lemma_one(Instr::Add(n as nat));
                assert(expand(x) =~= copies(Instr::Add(1), n as nat));
            },
            AST::Subtract(n) => {
                assert(x =~= seq![Instr::Subtract(n as nat)]);
                lemma_one(Instr::Subtract(n as nat));
                assert(expand(x) =~= copies(Instr::Subtract(1), n as nat));
            },
            AST::PrintChar => {
                assert(x =~= seq![Instr::PrintChar]);
                lemma_one(Instr::PrintChar);
                assert(expand(x) =~= x);
            },
            AST::GetChar => {
                assert(x =~= seq![Instr::GetChar]);
                lemma_one(Instr::GetChar);
                assert(expand(x) =~= x);
            },
            AST::Root(_) => {
                assert(x =~= Seq::<Instr>::empty());
            },
        }
        assert(instrs(s, false, label) =~= instrs(d, false, label) + expand(x));
    }
}

/// The label numbers of a lowered statement list with `k` loops are the `2k`
/// numbers from `label` on, in order.
pub proof fn lemma_labels_consecutive(s: Seq<AST>, optimized: bool, label: nat)
    ensures
        labels(instrs(s, optimized, label)) == Seq::new(
            2 * loop_count(s),
            |i: int| (label + i) as nat,
        ),
    decreases s,
{
    if s.len() == 0 {
        assert(labels(Seq::<Instr>::empty()) =~= Seq::new(0, |i: int| (label + i) as nat));
    } else {
        let d = s.drop_last();
        let l = label + 2 * loop_count(d);
        lemma_labels_consecutive(d, optimized, label);
        let whole = instrs(s, optimized, label);
        let x = whole.subrange(instrs(d, optimized, label).len() as int, whole.len() as int);
        assert(whole =~= instrs(d, optimized, label) + x);
        lemma_labels_concat(instrs(d, optimized, label), x);
        match s.last() {
            AST::Loop(b) => {
                lemma_labels_consecutive(b@, optimized, l + 2);
                let a = seq![Instr::LoopStart(l)];
                let m = instrs(b@, optimized, l + 2);
                let e = seq![Instr::LoopEnd(l)];
                assert(x =~= a + m + e);
                lemma_labels_concat(a + m, e);
                lemma_labels_concat(a, m);
                lemma_one(Instr::LoopStart(l));
                lemma_one(Instr::LoopEnd(l));
                assert(labels(a) =~= seq![l, l + 1]);
                assert(labels(e) =~= Seq::<nat>::empty());
                let inner = Seq::new(2 * loop_count(b@), |i: int| (l + 2 + i) as nat);
                assert(labels(m) == inner);
                assert(labels(a + m) =~= seq![l, l + 1] + inner);
                assert(labels(x) =~= Seq::new(
                    2 + 2 * loop_count(b@),
                    |i: int| (l + i) as nat,
                ));
            },
            _ => {
                assert(labels(x) =~= Seq::<nat>::empty()) by {
                    match s.last() {
                        AST::Right(n) => {
                            if optimized {
                                assert(x =~= seq![Instr::Right(n as nat)]);
                                lemma_one(Instr::Right(n as nat));
                            } else {
                                assert(x =~= copies(Instr::Right(1), n as nat));
                                lemma_no_labels(copies(Instr::Right(1), n as nat));
                            }
                        },
                        AST::Left(n) => {
                            if optimized {
                                assert(x =~= seq![Instr::Left(n as nat)]);
                                lemma_one(Instr::Left(n as nat));
                            } else {
                                assert(x =~= copies(Instr::Left(1), n as nat));
                                lemma_no_labels(copies(Instr::Left(1), n as nat));
                            }
                        },
                        AST::Add(n) => {
                            if optimized {
                                assert(x =~= seq![Instr::Add(n as nat)]);
                                lemma_one(Instr::Add(n as nat));
                            } else {
                                assert(x =~= copies(Instr::Add(1), n as nat));
                                lemma_no_labels(copies(Instr::Add(1), n as nat));
                            }
                        },
                        AST::Subtract(n) => {
                            if optimized {
                                assert(x =~= seq![Instr::Subtract(n as nat)]);
                                lemma_one(Instr::Subtract(n as nat));
                            } else {
                                assert(x =~= copies(Instr::Subtract(1), n as nat));
                                lemma_no_labels(copies(Instr::Subtract(1), n as nat));
                            }
                        },
                        AST::PrintChar => {
                            assert(x =~= seq![Instr::PrintChar]);
                            lemma_one(Instr::PrintChar);
                        },
                        AST::GetChar => {
                            assert(x =~= seq![Instr::GetChar]);
                            lemma_one(Instr::GetChar);
                        },
                        _ => {},
                    }
                }
            },
        }
        assert(labels(whole) =~= Seq::new(2 * loop_count(s), |i: int| (label + i) as nat));
    }
}

proof fn lemma_no_labels(t: Seq<Instr>)
    requires
        forall|i: int| 0 <= i < t.len() ==> !(#[trigger] t[i] is LoopStart),
    ensures
        labels(t) == Seq::<nat>::empty(),
    decreases t.len(),
{
    if t.len() > 0 {
        lemma_no_labels(t.drop_last());
    }
}

/// A program whose tree holds `k` loops defines `2k` labels, no two alike.
pub proof fn lemma_labels_distinct(ast: AST, optimized: bool)
    requires
        ast is Root,
    ensures
        labels(instrs(ast->Root_0@, optimized, 0)).len() == 2 * loop_count(ast->Root_0@),
        labels(instrs(ast->Root_0@, optimized, 0)).no_duplicates(),
{
    lemma_labels_consecutive(ast->Root_0@, optimized, 0);
}

/// Two splits of one sequence agree on the shorter tail.
proof fn lemma_common_tail(a: Seq<Token>, x: Seq<Token>, b: Seq<Token>, y: Seq<Token>)
    requires
        a + x == b + y,
        x.len() <= y.len(),
    ensures
        x == y.subrange(y.len() - x.len(), y.len() as int),
        x.len() == y.len() ==> a == b && x == y,
{
    let t = a + x;
    let t2 = b + y;
    assert(t.len() == t2.len());
    assert forall|i: int| 0 <= i < x.len() implies x[i] == y.subrange(
        y.len() - x.len(),
        y.len() as int,
    )[i] by {
        assert(t[a.len() + i] == x[i]);
        assert(t2[a.len() + i] == y[a.len() + i - b.len()]);
    }
    assert(x =~= y.subrange(y.len() - x.len(), y.len() as int));
    if x.len() == y.len() {
        assert forall|i: int| 0 <= i < a.len() implies a[i] == b[i] by {
            assert(t[i] == a[i]);
            assert(t2[i] == b[i]);
        }
        assert(a =~= b);
        assert(x =~= y);
    }
}

/// Every tail of a loop's tokens that is shorter than the whole ends below depth zero.
proof fn lemma_closing_suffix(f: Seq<Token>, m: int)
    requires
        balanced(f),
        1 <= m <= f.len() + 1,
    ensures
        depth(
            (seq![Token::StartLoop] + f + seq![Token::EndLoop]).subrange(
                f.len() + 2 - m,
                f.len() as int + 2,
            ),
        ) < 0,
{
    let u = seq![Token::StartLoop] + f + seq![Token::EndLoop];
    let p = f.take(f.len() - (m - 1));
    let q = f.subrange(f.len() - (m - 1), f.len() as int);
    assert(f =~= p + q);
    lemma_depth_concat(p, q);
    if p.len() > 0 {
        assert(depth(f.take(p.len() as int)) >= 0);
    } else {
        assert(depth(p) == 0);
    }
    assert(u.subrange(f.len() + 2 - m, f.len() as int + 2) =~= q + seq![Token::EndLoop]);
    lemma_depth_concat(q, seq![Token::EndLoop]);
    lemma_single(Token::EndLoop);
}

/// Equal length of the last statement's tokens, for two well-formed lists with the same tokens.
proof fn lemma_last_statement_length(v1: Seq<AST>, v2: Seq<AST>)
    requires
        wf_body(v1),
        wf_body(v2),
        v1.len() > 0,
        v2.len() > 0,
        flatten(v1) == flatten(v2),
    ensures
        node_tokens(v1.last()).len() == node_tokens(v2.last()).len(),
{
    lemma_flatten_split(v1);
    lemma_flatten_split(v2);
    lemma_last_not_shorter(v1, v2);
    lemma_last_not_shorter(v2, v1);
}

proof fn lemma_last_not_shorter(v1: Seq<AST>, v2: Seq<AST>)
    requires
        wf_body(v1),
        wf_body(v2),
        v1.len() > 0,
        v2.len() > 0,
        flatten(v1) == flatten(v2),
    ensures
        node_tokens(v1.last()).len() >= node_tokens(v2.last()).len(),
{
    lemma_flatten_split(v1);
    lemma_flatten_split(v2);
    let x1 = v1.last();
    let x2 = v2.last();
    let u1 = node_tokens(x1);
    let u2 = node_tokens(x2);
    let d1 = v1.drop_last();
    let f1 = flatten(d1);
    let f2 = flatten(v2.drop_last());
    if u1.len() < u2.len() {
        lemma_common_tail(f1, u1, f2, u2);
        let t = flatten(v1);
        match x1 {
            AST::Loop(b1) => {
                match x2 {
                    AST::Loop(b2) => {
                        lemma_flatten_balanced(b1@);
                        lemma_flatten_balanced(b2@);
                        lemma_wrap_balanced(flatten(b1@));
                        lemma_closing_suffix(flatten(b2@), u1.len() as int);
                    },
                    _ => {},
                }
            },
            AST::PrintChar => {},
            AST::GetChar => {},
            _ => {
                // The token before the shorter run still belongs to the longer
                // one, so the statement before it would be a run of the same kind.
                let k = end_token(x1);
                assert(u2 =~= node_tokens(x2));
                assert(forall|i: int| 0 <= i < u2.len() ==> u2[i] == k);
                assert(f1.len() > 0);
                assert(d1.len() > 0);
                lemma_flatten_split(d1);
                assert(f1.last() == t[f1.len() - 1]);
                assert(t[f1.len() - 1] == u2[u2.len() - u1.len() - 1]);
                assert(d1.last() == v1[v1.len() - 2]);
            },
        }
    }
}

/// Two well-formed statement lists with the same tokens lower to the same
/// operations: the merged tree is determined by its tokens.
#[verifier::rlimit(40)]
pub proof fn lemma_tokens_determine_lowering(
    v1: Seq<AST>,
    v2: Seq<AST>,
    optimized: bool,
    label: nat,
)
    requires
        wf_body(v1),
        wf_body(v2),
        flatten(v1) == flatten(v2),
    ensures
        instrs(v1, optimized, label) == instrs(v2, optimized, label),
    decreases flatten(v1).len(),
{
    lemma_flatten_covers(v1);
    lemma_flatten_covers(v2);
    if v1.len() == 0 || v2.len() == 0 {
        assert(v1.len() == 0 && v2.len() == 0);
    } else {
        let d1 = v1.drop_last();
        let d2 = v2.drop_last();
        let x1 = v1.last();
        let x2 = v2.last();
        lemma_flatten_split(v1);
        lemma_flatten_split(v2);
        lemma_last_statement_length(v1, v2);
        let u1 = node_tokens(x1);
        let u2 = node_tokens(x2);
        lemma_common_tail(flatten(d1), u1, flatten(d2), u2);
        lemma_tokens_determine_lowering(d1, d2, optimized, label);
        lemma_flatten_loops(d1);
        lemma_flatten_loops(d2);
        let l = label + 2 * loop_count(d1);
        match x1 {
            AST::Loop(b1) => {
                match x2 {
                    AST::Loop(b2) => {
                        assert(flatten(b1@) =~= u1.subrange(1, u1.len() - 1));
                        assert(flatten(b2@) =~= u2.subrange(1, u2.len() - 1));
                        lemma_tokens_determine_lowering(b1@, b2@, optimized, l + 2);
                    },
                    _ => {},
                }
            },
            _ => {
                assert(u1.len() == count_or_one(x1));
                assert(u2.len() == count_or_one(x2));
            },
        }
    }
}

spec fn count_or_one(node: AST) -> nat {
    match node {
        AST::Right(n) => n as nat,
        AST::Left(n) => n as nat,
        AST::Add(n) => n as nat,
        AST::Subtract(n) => n as nat,
        AST::Loop(b) => flatten(b@).len() + 2,
        AST::Root(_) => 0,
        _ => 1,
    }
}

/// Compiling one source twice gives the same outcome: the same error, or
/// byte-identical programs from either backend.
pub proof fn lemma_compilation_deterministic(
    t: Seq<Token>,
    r1: Result<AST, crate::parser::ParseError>,
    r2: Result<AST, crate::parser::ParseError>,
    optimized: bool,
)
    requires
        parses_to(t, r1),
        parses_to(t, r2),
    ensures
        r1 is Err ==> r1 == r2,
        r1 is Ok ==> r2 is Ok,
        r1 is Ok ==> asm_program(r1->Ok_0, optimized) == asm_program(r2->Ok_0, optimized),
        r1 is Ok ==> c_program(r1->Ok_0, optimized) == c_program(r2->Ok_0, optimized),
{
    if r1 is Ok {
        lemma_tokens_determine_lowering(r1->Ok_0->Root_0@, r2->Ok_0->Root_0@, optimized, 0);
    }
}

/// The decimal digits of `n`.
pub open spec fn dec(n: nat) -> Seq<char>
    decreases n,
{
    if n < 10 {
        seq![digit(n)]
    } else {
        dec(n / 10).push(digit(n % 10))
    }
}

pub open spec fn digit(d: nat) -> char {
    seq!['0', '1', '2', '3', '4', '5', '6', '7', '8', '9'][d as int]
}

/// Appends the decimal form of `n`.
pub fn push_decimal(out: &mut String, n: usize)
    ensures
        final(out)@ == old(out)@ + dec(n as nat),
    decreases n,
{
    if n >= 10 {
        push_decimal(out, n / 10);
    }
    let d = n % 10;
    let s: &str = match d {
        0 => "0",
        1 => "1",
        2 => "2",
        3 => "3",
        4 => "4",
        5 => "5",
        6 => "6",
        7 => "7",
        8 => "8",
        _ => "9",
    };
    proof {
        reveal_strlit("0");
        reveal_strlit("1");
        reveal_strlit("2");
        reveal_strlit("3");
        reveal_strlit("4");
        reveal_strlit("5");
        reveal_strlit("6");
        reveal_strlit("7");
        reveal_strlit("8");
        reveal_strlit("9");
        assert(s@ =~= seq![digit(d as nat)]);
    }
    out.append(s);
}

/// A backend: lowers a `Root` to the text of a whole program.
pub trait Codegen {
    /// The program text for a tree.
    spec fn program(ast: AST, optimized: bool) -> Seq<char>;

    fn codegen(ast: AST, optimized: bool) -> (r: String)
        requires
            lowerable(ast),
        ensures
            r@ == Self::program(ast, optimized),
    ;
}

/// Lowers a `Root` with the backend `T`.
pub fn codegen<T: Codegen>(ast: AST, optimized: bool) -> (r: String)
    requires
        lowerable(ast),
    ensures
        r@ == T::program(ast, optimized),
{
    T::codegen(ast, optimized)
}

} // verus!
