use vstd::prelude::*;

use crate::token::Token;

verus! {

/// The syntax tree. A counted leaf stands for that many identical commands in a row.
#[derive(Debug, PartialEq, Eq)]
pub enum AST {
    Root(Vec<AST>),
    Right(usize),
    Left(usize),
    Add(usize),
    Subtract(usize),
    PrintChar,
    GetChar,
    Loop(Vec<AST>),
}

/// `n` copies of one token.
pub open spec fn repeat(t: Token, n: nat) -> Seq<Token> {
    Seq::new(n, |i: int| t)
}

/// The token that a counted leaf repeats, for the four counted kinds.
pub open spec fn run_token(node: AST) -> Option<Token> {
    match node {
        AST::Right(_) => Some(Token::Right),
        AST::Left(_) => Some(Token::Left),
        AST::Add(_) => Some(Token::Add),
        AST::Subtract(_) => Some(Token::Subtract),
        _ => None,
    }
}

/// Whether `t` is one of the four tokens that merge into counted leaves.
pub open spec fn is_run_token(t: Token) -> bool {
    t == Token::Right || t == Token::Left || t == Token::Add || t == Token::Subtract
}

/// The command tokens that a statement list stands for, in source order.
pub open spec fn flatten(s: Seq<AST>) -> Seq<Token>
    decreases s,
{
    if s.len() == 0 {
        Seq::empty()
    } else {
        let rest = flatten(s.drop_last());
        match s.last() {
            AST::Right(n) => rest + repeat(Token::Right, n as nat),
            AST::Left(n) => rest + repeat(Token::Left, n as nat),
            AST::Add(n) => rest + repeat(Token::Add, n as nat),
            AST::Subtract(n) => rest + repeat(Token::Subtract, n as nat),
            AST::PrintChar => rest.push(Token::PrintChar),
            AST::GetChar => rest.push(Token::GetChar),
            AST::Loop(b) => rest + seq![Token::StartLoop] + flatten(b@) + seq![Token::EndLoop],
            AST::Root(_) => rest,
        }
    }
}

/// A statement list as the parser builds it: no `Root` inside, every count at
/// least one, and no two neighbouring counted leaves of one kind (runs are merged).
pub open spec fn wf_body(s: Seq<AST>) -> bool
    decreases s,
{
    if s.len() == 0 {
        true
    } else {
        &&& wf_body(s.drop_last())
        &&& match s.last() {
            AST::Right(n) => n >= 1,
            AST::Left(n) => n >= 1,
            AST::Add(n) => n >= 1,
            AST::Subtract(n) => n >= 1,
            AST::PrintChar => true,
            AST::GetChar => true,
            AST::Loop(b) => wf_body(b@),
            AST::Root(_) => false,
        }
        &&& (s.len() >= 2 && run_token(s.last()) is Some ==> run_token(s[s.len() - 2])
            != run_token(s.last()))
    }
}

/// No statement of the list, at any depth, is a `Root`.
pub open spec fn root_free(s: Seq<AST>) -> bool
    decreases s,
{
    if s.len() == 0 {
        true
    } else {
        &&& root_free(s.drop_last())
        &&& match s.last() {
            AST::Loop(b) => root_free(b@),
            AST::Root(_) => false,
            _ => true,
        }
    }
}

/// The number of `Loop` nodes in a statement list, nested ones included.
pub open spec fn loop_count(s: Seq<AST>) -> nat
    decreases s,
{
    if s.len() == 0 {
        0
    } else {
        loop_count(s.drop_last()) + match s.last() {
            AST::Loop(b) => 1 + loop_count(b@),
            _ => 0,
        }
    }
}

/// How deeply loops nest in a statement list (0 when it holds no loop).
pub open spec fn nesting(s: Seq<AST>) -> nat
    decreases s,
{
    if s.len() == 0 {
        0
    } else {
        let here: nat = match s.last() {
            AST::Loop(b) => 1 + nesting(b@),
            _ => 0,
        };
        let before = nesting(s.drop_last());
        if here > before {
            here
        } else {
            before
        }
    }
}

/// The count of a counted leaf (0 for any other node).
pub open spec fn count_of(node: AST) -> nat {
    match node {
        AST::Right(n) => n as nat,
        AST::Left(n) => n as nat,
        AST::Add(n) => n as nat,
        AST::Subtract(n) => n as nat,
        _ => 0,
    }
}

/// A leaf whose tokens are all `k`.
pub open spec fn single_kind(node: AST, k: Token) -> bool {
    match node {
        AST::Right(_) => k == Token::Right,
        AST::Left(_) => k == Token::Left,
        AST::Add(_) => k == Token::Add,
        AST::Subtract(_) => k == Token::Subtract,
        AST::PrintChar => k == Token::PrintChar,
        AST::GetChar => k == Token::GetChar,
        _ => false,
    }
}

/// The tokens that the last statement adds to `flatten`.
pub proof fn lemma_flatten_last(s: Seq<AST>)
    requires
        s.len() > 0,
        wf_body(s),
    ensures
        flatten(s).len() > flatten(s.drop_last()).len(),
        flatten(s).subrange(0, flatten(s.drop_last()).len() as int) == flatten(s.drop_last()),
        single_kind(s.last(), Token::PrintChar) ==> flatten(s) == flatten(s.drop_last()).push(
            Token::PrintChar,
        ),
        single_kind(s.last(), Token::GetChar) ==> flatten(s) == flatten(s.drop_last()).push(
            Token::GetChar,
        ),
        match s.last() {
            AST::Right(_) => flatten(s)[flatten(s.drop_last()).len() as int] == Token::Right,
            AST::Left(_) => flatten(s)[flatten(s.drop_last()).len() as int] == Token::Left,
            AST::Add(_) => flatten(s)[flatten(s.drop_last()).len() as int] == Token::Add,
            AST::Subtract(_) => flatten(s)[flatten(s.drop_last()).len() as int] == Token::Subtract,
            AST::PrintChar => flatten(s)[flatten(s.drop_last()).len() as int] == Token::PrintChar,
            AST::GetChar => flatten(s)[flatten(s.drop_last()).len() as int] == Token::GetChar,
            AST::Loop(_) => flatten(s)[flatten(s.drop_last()).len() as int] == Token::StartLoop,
            AST::Root(_) => false,
        },
{
    let d = flatten(s.drop_last());
    assert(flatten(s).subrange(0, d.len() as int) =~= d);
}

/// The tokens of one statement.
pub open spec fn node_tokens(node: AST) -> Seq<Token> {
    match node {
        AST::Right(n) => repeat(Token::Right, n as nat),
        AST::Left(n) => repeat(Token::Left, n as nat),
        AST::Add(n) => repeat(Token::Add, n as nat),
        AST::Subtract(n) => repeat(Token::Subtract, n as nat),
        AST::PrintChar => seq![Token::PrintChar],
        AST::GetChar => seq![Token::GetChar],
        AST::Loop(b) => seq![Token::StartLoop] + flatten(b@) + seq![Token::EndLoop],
        AST::Root(_) => Seq::empty(),
    }
}

/// The token that a statement's tokens end with.
pub open spec fn end_token(node: AST) -> Token {
    match node {
        AST::Right(_) => Token::Right,
        AST::Left(_) => Token::Left,
        AST::Add(_) => Token::Add,
        AST::Subtract(_) => Token::Subtract,
        AST::PrintChar => Token::PrintChar,
        AST::GetChar => Token::GetChar,
        _ => Token::EndLoop,
    }
}

pub proof fn lemma_flatten_split(s: Seq<AST>)
    requires
        s.len() > 0,
        wf_body(s),
    ensures
        flatten(s) == flatten(s.drop_last()) + node_tokens(s.last()),
        node_tokens(s.last()).len() >= 1,
        flatten(s).last() == end_token(s.last()),
        node_tokens(s.last()).last() == end_token(s.last()),
{
    let t = node_tokens(s.last());
    match s.last() {
        AST::PrintChar => assert(flatten(s) =~= flatten(s.drop_last()) + t),
        AST::GetChar => assert(flatten(s) =~= flatten(s.drop_last()) + t),
        AST::Loop(_) => assert(flatten(s) =~= flatten(s.drop_last()) + t),
        _ => {},
    }
}

/// A well-formed list has at least one token per statement.
pub proof fn lemma_flatten_covers(s: Seq<AST>)
    requires
        wf_body(s),
    ensures
        flatten(s).len() >= s.len(),
    decreases s.len(),
{
    if s.len() > 0 {
        lemma_flatten_covers(s.drop_last());
        lemma_flatten_last(s);
    }
}

/// When every token of a well-formed list is `k` (not a bracket), every
/// statement is a leaf of kind `k`; for print and read, one per token.
pub proof fn lemma_single_kind(s: Seq<AST>, k: Token)
    requires
        wf_body(s),
        k != Token::StartLoop,
        forall|i: int| 0 <= i < flatten(s).len() ==> #[trigger] flatten(s)[i] == k,
    ensures
        forall|j: int| 0 <= j < s.len() ==> single_kind(#[trigger] s[j], k),
        (k == Token::PrintChar || k == Token::GetChar) ==> flatten(s).len() == s.len(),
    decreases s.len(),
{
    if s.len() > 0 {
        let d = s.drop_last();
        lemma_flatten_last(s);
        assert forall|i: int| 0 <= i < flatten(d).len() implies #[trigger] flatten(d)[i] == k by {
            assert(flatten(d)[i] == flatten(s).subrange(0, flatten(d).len() as int)[i]);
        }
        lemma_single_kind(d, k);
        assert forall|j: int| 0 <= j < s.len() implies single_kind(#[trigger] s[j], k) by {
            if j < s.len() - 1 {
                assert(s[j] == d[j]);
            }
        }
    }
}

/// How a token changes the bracket depth.
pub open spec fn delta(t: Token) -> int {
    if t == Token::StartLoop {
        1
    } else if t == Token::EndLoop {
        -1
    } else {
        0
    }
}

/// Open brackets minus closing brackets in a token sequence.
pub open spec fn depth(t: Seq<Token>) -> int
    decreases t.len(),
{
    if t.len() == 0 {
        0
    } else {
        depth(t.drop_last()) + delta(t.last())
    }
}

/// Every non-empty prefix of `t` has bracket depth at least `k`.
pub open spec fn prefixes_at_least(t: Seq<Token>, k: int) -> bool {
    forall|i: int| 1 <= i <= t.len() ==> #[trigger] depth(t.take(i)) >= k
}

/// Every bracket of `t` is matched.
pub open spec fn balanced(t: Seq<Token>) -> bool {
    prefixes_at_least(t, 0) && depth(t) == 0
}

/// The greatest depth that a prefix of `t` reaches.
pub open spec fn max_depth(t: Seq<Token>) -> int
    decreases t.len(),
{
    if t.len() == 0 {
        0
    } else {
        let d = depth(t);
        let m = max_depth(t.drop_last());
        if d > m {
            d
        } else {
            m
        }
    }
}

/// The number of `[` in a token sequence.
pub open spec fn opens(t: Seq<Token>) -> nat
    decreases t.len(),
{
    if t.len() == 0 {
        0
    } else {
        opens(t.drop_last()) + if t.last() == Token::StartLoop {
            1nat
        } else {
            0nat
        }
    }
}

pub proof fn lemma_opens_concat(a: Seq<Token>, b: Seq<Token>)
    ensures
        opens(a + b) == opens(a) + opens(b),
    decreases b.len(),
{
    if b.len() == 0 {
        assert(a + b =~= a);
    } else {
        assert((a + b).drop_last() =~= a + b.drop_last());
        lemma_opens_concat(a, b.drop_last());
    }
}

proof fn lemma_max_depth_bounds(a: Seq<Token>)
    ensures
        max_depth(a) >= depth(a),
        max_depth(a) >= 0,
    decreases a.len(),
{
    if a.len() > 0 {
        lemma_max_depth_bounds(a.drop_last());
    }
}

pub proof fn lemma_max_depth_concat(a: Seq<Token>, b: Seq<Token>)
    ensures
        max_depth(a + b) == if max_depth(a) >= depth(a) + max_depth(b) {
            max_depth(a)
        } else {
            depth(a) + max_depth(b)
        },
        max_depth(a) >= depth(a),
        max_depth(a) >= 0,
    decreases b.len(),
{
    lemma_max_depth_bounds(a);
    if b.len() == 0 {
        assert(a + b =~= a);
    } else {
        assert((a + b).drop_last() =~= a + b.drop_last());
        lemma_max_depth_concat(a, b.drop_last());
        lemma_depth_concat(a, b);
    }
}

/// A sequence without brackets has no `[` and never leaves depth zero.
pub proof fn lemma_flat_run(t: Seq<Token>)
    requires
        forall|i: int| 0 <= i < t.len() ==> delta(#[trigger] t[i]) == 0,
    ensures
        opens(t) == 0,
        max_depth(t) == 0,
    decreases t.len(),
{
    if t.len() > 0 {
        lemma_flat_run(t.drop_last());
        lemma_no_brackets(t);
    }
}

/// The `[` of a statement list are its loops, and its brackets nest as deep
/// as its loops do.
pub proof fn lemma_flatten_loops(s: Seq<AST>)
    ensures
        opens(flatten(s)) == loop_count(s),
        max_depth(flatten(s)) == nesting(s),
    decreases s,
{
    if s.len() > 0 {
        let d = s.drop_last();
        let rest = flatten(d);
        lemma_flatten_loops(d);
        lemma_flatten_balanced(d);
        let tail = node_tokens(s.last());
        assert(flatten(s) =~= rest + tail);
        lemma_opens_concat(rest, tail);
        lemma_max_depth_concat(rest, tail);
        match s.last() {
            AST::Loop(b) => {
                let o = seq![Token::StartLoop];
                let x = flatten(b@);
                let e = seq![Token::EndLoop];
                lemma_flatten_loops(b@);
                lemma_single(Token::StartLoop);
                lemma_single(Token::EndLoop);
                lemma_opens_concat(o + x, e);
                lemma_opens_concat(o, x);
                lemma_max_depth_concat(o + x, e);
                lemma_max_depth_concat(o, x);
                lemma_depth_concat(o, x);
                lemma_flatten_balanced(b@);
                assert(o.drop_last() =~= Seq::<Token>::empty());
                assert(e.drop_last() =~= Seq::<Token>::empty());
                assert(opens(Seq::<Token>::empty()) == 0);
                assert(max_depth(Seq::<Token>::empty()) == 0);
                assert(opens(o) == 1);
                assert(opens(e) == 0);
                assert(max_depth(o) == 1);
                assert(max_depth(e) == 0);
            },
            _ => {
                lemma_flat_run(tail);
            },
        }
    }
}

pub proof fn lemma_depth_concat(a: Seq<Token>, b: Seq<Token>)
    ensures
        depth(a + b) == depth(a) + depth(b),
    decreases b.len(),
{
    if b.len() == 0 {
        assert(a + b =~= a);
    } else {
        assert((a + b).drop_last() =~= a + b.drop_last());
        lemma_depth_concat(a, b.drop_last());
    }
}

pub proof fn lemma_take_concat(a: Seq<Token>, b: Seq<Token>, i: int)
    requires
        0 <= i <= a.len() + b.len(),
    ensures
        i <= a.len() ==> (a + b).take(i) == a.take(i),
        i >= a.len() ==> (a + b).take(i) == a + b.take(i - a.len()),
{
    if i <= a.len() {
        assert((a + b).take(i) =~= a.take(i));
    }
    if i >= a.len() {
        assert((a + b).take(i) =~= a + b.take(i - a.len()));
    }
}

/// Prefix bounds carry over to a concatenation.
pub proof fn lemma_prefixes_concat(a: Seq<Token>, b: Seq<Token>, k: int)
    requires
        prefixes_at_least(a, k),
        prefixes_at_least(b, k - depth(a)),
        a.len() == 0 ==> k <= 0,
    ensures
        prefixes_at_least(a + b, k),
{
    assert forall|i: int| 1 <= i <= (a + b).len() implies #[trigger] depth((a + b).take(i)) >= k by {
        lemma_take_concat(a, b, i);
        if i <= a.len() {
        } else {
            lemma_depth_concat(a, b.take(i - a.len()));
            if a.len() > 0 {
                assert(a.take(a.len() as int) =~= a);
            }
        }
    }
}

/// A sequence without brackets keeps depth zero in every prefix.
pub proof fn lemma_no_brackets(t: Seq<Token>)
    requires
        forall|i: int| 0 <= i < t.len() ==> delta(#[trigger] t[i]) == 0,
    ensures
        depth(t) == 0,
        prefixes_at_least(t, 0),
    decreases t.len(),
{
    if t.len() > 0 {
        lemma_no_brackets(t.drop_last());
        assert forall|i: int| 1 <= i <= t.len() implies #[trigger] depth(t.take(i)) >= 0 by {
            if i < t.len() {
                assert(t.take(i) =~= t.drop_last().take(i));
            } else {
                assert(t.take(i) =~= t);
            }
        }
    }
}

pub proof fn lemma_single(t: Token)
    ensures
        depth(seq![t]) == delta(t),
        prefixes_at_least(seq![t], delta(t)),
{
    assert(seq![t].drop_last() =~= Seq::<Token>::empty());
    assert(depth(Seq::<Token>::empty()) == 0);
    assert(depth(seq![t]) == delta(t));
    assert(seq![t].take(1) =~= seq![t]);
}

/// A bracketed balanced sequence is balanced.
pub proof fn lemma_wrap_balanced(x: Seq<Token>)
    requires
        balanced(x),
    ensures
        balanced(seq![Token::StartLoop] + x + seq![Token::EndLoop]),
        prefixes_at_least(seq![Token::StartLoop] + x, 1),
        depth(seq![Token::StartLoop] + x) == 1,
{
    let s = seq![Token::StartLoop];
    lemma_single(Token::StartLoop);
    lemma_single(Token::EndLoop);
    lemma_prefixes_concat(s, x, 1);
    lemma_depth_concat(s, x);
    lemma_prefixes_concat(s + x, seq![Token::EndLoop], 0);
    lemma_depth_concat(s + x, seq![Token::EndLoop]);
}

/// The tokens of any statement list are balanced.
pub proof fn lemma_flatten_balanced(s: Seq<AST>)
    ensures
        balanced(flatten(s)),
    decreases s,
{
    if s.len() > 0 {
        let rest = flatten(s.drop_last());
        lemma_flatten_balanced(s.drop_last());
        let tail = node_tokens(s.last());
        match s.last() {
            AST::Loop(b) => {
                lemma_flatten_balanced(b@);
                lemma_wrap_balanced(flatten(b@));
                assert(flatten(s) =~= rest + tail);
            },
            AST::PrintChar => {
                lemma_no_brackets(tail);
                assert(flatten(s) =~= rest + tail);
            },
            AST::GetChar => {
                lemma_no_brackets(tail);
                assert(flatten(s) =~= rest + tail);
            },
            AST::Root(_) => {
                lemma_no_brackets(tail);
                assert(flatten(s) =~= rest + tail);
            },
            _ => {
                lemma_no_brackets(tail);
            },
        }
        lemma_prefixes_concat(rest, tail, 0);
        lemma_depth_concat(rest, tail);
    }
}

} // verus!
