//! A second description of the comparison rule, from which its transitivity
//! follows.
//!
//! Each string is read once into a sequence of symbols, and two strings
//! compare as their symbol sequences do, lexicographically. The one subtle
//! symbol is a run of zeros with no digit after it: facing a word it is passed
//! over, so it is folded into what follows it (dropped before a word, counted
//! before a number or a marker).
use crate::compare::{
    at, compare, compare_from, is_alpha, is_digit, is_marker, is_valid, lemma_compare_antisymmetric,
    lemma_lex_reflexive, lemma_run_end, lex_order, marker_decides, number_order, run_end, Class,
};
use std::cmp::Ordering;
use vstd::prelude::*;

verus! {

/// What one step of the comparison sees of one string.
pub enum Sym {
    Tilde,
    End,
    Dash,
    Caret,
    Dot,
    /// `n` runs of zeros with no digit after them, before a marker or the end.
    Zeros(nat),
    /// A run of letters.
    Word(Seq<char>),
    /// A run of digits without its leading zeros, after `n` runs of zeros.
    Number(nat, Seq<char>),
}

pub open spec fn rank(p: Sym) -> int {
    match p {
        Sym::Tilde => 0,
        Sym::End => 1,
        Sym::Dash => 2,
        Sym::Caret => 3,
        Sym::Dot => 4,
        Sym::Zeros(_) => 5,
        Sym::Word(_) => 6,
        Sym::Number(_, _) => 7,
    }
}

pub open spec fn int_order(x: int, y: int) -> Ordering {
    if x < y {
        Ordering::Less
    } else if x > y {
        Ordering::Greater
    } else {
        Ordering::Equal
    }
}

/// The order of two symbols.
pub open spec fn sym_order(p: Sym, q: Sym) -> Ordering {
    match (p, q) {
        (Sym::Zeros(m), Sym::Zeros(n)) => int_order(m as int, n as int),
        (Sym::Word(x), Sym::Word(y)) => lex_order(x, y),
        (Sym::Number(m, x), Sym::Number(n, y)) => if m != n {
            int_order(n as int, m as int)
        } else {
            number_order(x, y)
        },
        _ => int_order(rank(p), rank(q)),
    }
}

/// Lexicographic order of symbol sequences.
pub open spec fn syms_order(x: Seq<Sym>, y: Seq<Sym>) -> Ordering
    decreases x.len(),
{
    if x.len() == 0 || y.len() == 0 {
        int_order(x.len() as int, y.len() as int)
    } else if sym_order(x[0], y[0]) != Ordering::Equal {
        sym_order(x[0], y[0])
    } else {
        syms_order(x.drop_first(), y.drop_first())
    }
}

pub open spec fn marker_sym(c: char) -> Sym {
    if c == '~' {
        Sym::Tilde
    } else if c == '-' {
        Sym::Dash
    } else if c == '^' {
        Sym::Caret
    } else {
        Sym::Dot
    }
}

/// The symbol `p` in front of `r`.
pub open spec fn cons(p: Sym, r: Seq<Sym>) -> Seq<Sym> {
    seq![p] + r
}

pub broadcast proof fn lemma_cons(p: Sym, r: Seq<Sym>)
    ensures
        #[trigger] cons(p, r).len() == r.len() + 1,
        cons(p, r)[0] == p,
        cons(p, r).drop_first() == r,
{
    assert(cons(p, r).drop_first() =~= r);
}

/// `z` pending runs of zeros, then the symbol `p`, then `r`.
pub open spec fn after_zeros(z: nat, p: Sym, r: Seq<Sym>) -> Seq<Sym> {
    if z > 0 {
        cons(Sym::Zeros(z), cons(p, r))
    } else {
        cons(p, r)
    }
}

/// The symbols of `s` from position `i`, with `z` runs of zeros pending.
pub open spec fn key(s: Seq<char>, i: int, z: nat) -> Seq<Sym>
    decreases s.len() - i,
    when 0 <= i <= s.len()
{
    let i1 = run_end(s, i, Class::Invalid);
    proof {
        lemma_run_end(s, i, Class::Invalid);
    }
    if i1 >= s.len() {
        after_zeros(z, Sym::End, Seq::empty())
    } else if is_marker(s[i1]) {
        after_zeros(z, marker_sym(s[i1]), key(s, i1 + 1, 0))
    } else if is_digit(s[i1]) {
        let i2 = run_end(s, i1, Class::Zero);
        let i3 = run_end(s, i2, Class::Digit);
        proof {
            lemma_run_end(s, i1, Class::Zero);
            lemma_run_end(s, i2, Class::Digit);
        }
        if i3 == i2 {
            key(s, i3, z + 1)
        } else {
            cons(Sym::Number(z, s.subrange(i2, i3)), key(s, i3, 0))
        }
    } else {
        let i4 = run_end(s, i1, Class::Alpha);
        proof {
            lemma_run_end(s, i1, Class::Alpha);
        }
        cons(Sym::Word(s.subrange(i1, i4)), key(s, i4, 0))
    }
}

proof fn lemma_lex_equal(x: Seq<char>, y: Seq<char>)
    requires
        lex_order(x, y) == Ordering::Equal,
    ensures
        x == y,
    decreases x.len(),
{
    if x.len() > 0 && y.len() > 0 {
        lemma_lex_equal(x.drop_first(), y.drop_first());
        assert(x =~= seq![x[0]] + x.drop_first());
        assert(y =~= seq![y[0]] + y.drop_first());
    } else {
        assert(x =~= y);
    }
}

proof fn lemma_sym_equal(p: Sym, q: Sym)
    requires
        sym_order(p, q) == Ordering::Equal,
    ensures
        p == q,
{
    match (p, q) {
        (Sym::Word(x), Sym::Word(y)) => lemma_lex_equal(x, y),
        (Sym::Number(m, x), Sym::Number(n, y)) => lemma_lex_equal(x, y),
        _ => {},
    }
}

proof fn lemma_sym_reflexive(p: Sym)
    ensures
        sym_order(p, p) == Ordering::Equal,
{
    match p {
        Sym::Word(x) => lemma_lex_reflexive(x),
        Sym::Number(m, x) => lemma_lex_reflexive(x),
        _ => {},
    }
}

proof fn lemma_syms_reflexive(x: Seq<Sym>)
    ensures
        syms_order(x, x) == Ordering::Equal,
    decreases x.len(),
{
    if x.len() > 0 {
        lemma_sym_reflexive(x[0]);
        lemma_syms_reflexive(x.drop_first());
    }
}

/// With runs of zeros pending, the symbols start with more of them, a word,
/// or a number after at least as many.
proof fn lemma_key_head(s: Seq<char>, i: int, z: nat)
    requires
        0 <= i <= s.len(),
        z > 0,
    ensures
        key(s, i, z).len() > 0,
        match key(s, i, z)[0] {
            Sym::Zeros(m) => m >= z,
            Sym::Word(_) => true,
            Sym::Number(m, _) => m >= z,
            _ => false,
        },
    decreases s.len() - i,
{
    broadcast use lemma_cons;

    let i1 = run_end(s, i, Class::Invalid);
    lemma_run_end(s, i, Class::Invalid);
    if i1 < s.len() && !is_marker(s[i1]) && is_digit(s[i1]) {
        let i2 = run_end(s, i1, Class::Zero);
        lemma_run_end(s, i1, Class::Zero);
        let i3 = run_end(s, i2, Class::Digit);
        lemma_run_end(s, i2, Class::Digit);
        if i3 == i2 {
            lemma_key_head(s, i3, z + 1);
        }
    }
}

/// Facts on one side's first segment from `i`, for the proofs below.
proof fn lemma_segment(s: Seq<char>, i: int, z: nat)
    requires
        0 <= i <= s.len(),
    ensures
        ({
            let i1 = run_end(s, i, Class::Invalid);
            let i2 = run_end(s, i1, Class::Zero);
            let i3 = run_end(s, i2, Class::Digit);
            let i4 = run_end(s, i1, Class::Alpha);
            &&& i <= i1 <= s.len()
            &&& i1 <= i2 <= i3 <= s.len()
            &&& i1 <= i4 <= s.len()
            &&& i1 < s.len() ==> run_end(s, i1, Class::Invalid) == i1
            &&& i1 < s.len() ==> is_valid(s[i1])
            &&& i1 < s.len() && is_digit(s[i1]) ==> i < i3
            &&& i1 < s.len() && !is_digit(s[i1]) ==> i2 == i1 && i3 == i1
            &&& i1 < s.len() && is_alpha(s[i1]) ==> i1 < i4
            &&& i1 < s.len() && is_digit(s[i1]) && i3 == i2 ==> key(s, i3, z + 1).len() > 0
                && match key(s, i3, z + 1)[0] {
                Sym::Zeros(m) => m > z,
                Sym::Word(_) => true,
                Sym::Number(m, _) => m > z,
                _ => false,
            }
        }),
{
    let i1 = run_end(s, i, Class::Invalid);
    lemma_run_end(s, i, Class::Invalid);
    if i1 < s.len() {
        lemma_run_end(s, i1, Class::Invalid);
        lemma_run_end(s, i1, Class::Zero);
        let i2 = run_end(s, i1, Class::Zero);
        lemma_run_end(s, i2, Class::Digit);
        let i3 = run_end(s, i2, Class::Digit);
        lemma_run_end(s, i1, Class::Alpha);
        if is_digit(s[i1]) && i3 == i2 {
            lemma_key_head(s, i3, z + 1);
        }
    } else {
        lemma_run_end(s, i1, Class::Zero);
        lemma_run_end(s, run_end(s, i1, Class::Zero), Class::Digit);
        lemma_run_end(s, i1, Class::Alpha);
    }
}

/// The comparison of `a` from `i` against `b` from `j` is the order of their
/// symbols, with the same number of zero runs pending on both sides.
proof fn lemma_compare_from_key(a: Seq<char>, b: Seq<char>, i: int, j: int, z: nat)
    requires
        0 <= i <= a.len(),
        0 <= j <= b.len(),
    ensures
        compare_from(a, b, i, j) == syms_order(key(a, i, z), key(b, j, z)),
    decreases a.len() - i + b.len() - j,
{
    broadcast use lemma_cons;

    lemma_segment(a, i, z);
    lemma_segment(b, j, z);
    let i1 = run_end(a, i, Class::Invalid);
    let j1 = run_end(b, j, Class::Invalid);
    let l = at(a, i1);
    let r = at(b, j1);
    let ka = key(a, i, z);
    let kb = key(b, j, z);
    if ka.len() > 0 && kb.len() > 0 && ka[0] == kb[0] {
        lemma_sym_reflexive(ka[0]);
        assert(syms_order(ka, kb) == syms_order(ka.drop_first(), kb.drop_first()));
    }
    if marker_decides('~', l, r) {
        assert(compare_from(a, b, i, j) == syms_order(ka, kb));
    } else if l is None || r is None {
        if l is None && r is None {
            lemma_syms_reflexive(ka);
        }
        assert(compare_from(a, b, i, j) == syms_order(ka, kb));
    } else if marker_decides('-', l, r) {
        assert(compare_from(a, b, i, j) == syms_order(ka, kb));
    } else if marker_decides('^', l, r) {
        assert(compare_from(a, b, i, j) == syms_order(ka, kb));
    } else if marker_decides('.', l, r) {
        assert(compare_from(a, b, i, j) == syms_order(ka, kb));
    } else if l == r && is_marker(a[i1]) {
        lemma_compare_from_key(a, b, i1 + 1, j1 + 1, 0);
        assert(compare_from(a, b, i, j) == syms_order(ka, kb));
    } else if is_digit(a[i1]) || is_digit(b[j1]) {
        let i2 = run_end(a, i1, Class::Zero);
        let j2 = run_end(b, j1, Class::Zero);
        let i3 = run_end(a, i2, Class::Digit);
        let j3 = run_end(b, j2, Class::Digit);
        if number_order(a.subrange(i2, i3), b.subrange(j2, j3)) == Ordering::Equal {
            if i3 == i2 && j3 == j2 {
                lemma_compare_from_key(a, b, i3, j3, z + 1);
            } else {
                lemma_lex_equal(a.subrange(i2, i3), b.subrange(j2, j3));
                lemma_compare_from_key(a, b, i3, j3, 0);
            }
        }
        assert(compare_from(a, b, i, j) == syms_order(ka, kb));
    } else {
        let i4 = run_end(a, i1, Class::Alpha);
        let j4 = run_end(b, j1, Class::Alpha);
        if lex_order(a.subrange(i1, i4), b.subrange(j1, j4)) == Ordering::Equal {
            lemma_lex_equal(a.subrange(i1, i4), b.subrange(j1, j4));
            lemma_compare_from_key(a, b, i4, j4, 0);
        }
        assert(compare_from(a, b, i, j) == syms_order(ka, kb));
    }
}

proof fn lemma_lex_transitive(x: Seq<char>, y: Seq<char>, w: Seq<char>)
    requires
        lex_order(x, y) == Ordering::Less,
        lex_order(y, w) == Ordering::Less,
    ensures
        lex_order(x, w) == Ordering::Less,
    decreases x.len(),
{
    if x.len() > 0 && x[0] == y[0] && y[0] == w[0] {
        lemma_lex_transitive(x.drop_first(), y.drop_first(), w.drop_first());
    }
}

proof fn lemma_sym_rank(p: Sym, q: Sym)
    requires
        sym_order(p, q) == Ordering::Less,
    ensures
        rank(p) <= rank(q),
{
}

proof fn lemma_sym_transitive(p: Sym, q: Sym, r: Sym)
    requires
        sym_order(p, q) == Ordering::Less,
        sym_order(q, r) == Ordering::Less,
    ensures
        sym_order(p, r) == Ordering::Less,
{
    lemma_sym_rank(p, q);
    lemma_sym_rank(q, r);
    match (p, q, r) {
        (Sym::Word(x), Sym::Word(y), Sym::Word(w)) => lemma_lex_transitive(x, y, w),
        (Sym::Number(m, x), Sym::Number(n, y), Sym::Number(k, w)) => {
            if m == n && n == k && x.len() == y.len() && y.len() == w.len() {
                lemma_lex_transitive(x, y, w);
            }
        },
        _ => {},
    }
}

proof fn lemma_syms_transitive(x: Seq<Sym>, y: Seq<Sym>, w: Seq<Sym>)
    requires
        syms_order(x, y) != Ordering::Greater,
        syms_order(y, w) != Ordering::Greater,
    ensures
        syms_order(x, w) != Ordering::Greater,
        syms_order(x, y) == Ordering::Less || syms_order(y, w) == Ordering::Less ==> syms_order(
            x,
            w,
        ) == Ordering::Less,
    decreases x.len(),
{
    if x.len() > 0 && y.len() > 0 && w.len() > 0 {
        let o1 = sym_order(x[0], y[0]);
        let o2 = sym_order(y[0], w[0]);
        if o1 == Ordering::Equal {
            lemma_sym_equal(x[0], y[0]);
        }
        if o2 == Ordering::Equal {
            lemma_sym_equal(y[0], w[0]);
        }
        if o1 == Ordering::Less && o2 == Ordering::Less {
            lemma_sym_transitive(x[0], y[0], w[0]);
        }
        if o1 == Ordering::Equal && o2 == Ordering::Equal {
            lemma_syms_transitive(x.drop_first(), y.drop_first(), w.drop_first());
        }
    }
}

/// The comparison is transitive: from `a <= b` and `b <= c` follows
/// `a <= c`, strictly if either step is strict, and from `a == b` and
/// `b == c` follows `a == c`. So sorting by it is well defined, and a list
/// ordered pair by pair is ordered throughout.
pub proof fn lemma_compare_transitive(a: Seq<char>, b: Seq<char>, c: Seq<char>)
    requires
        compare(a, b) != Ordering::Greater,
        compare(b, c) != Ordering::Greater,
    ensures
        compare(a, c) != Ordering::Greater,
        compare(a, b) == Ordering::Less || compare(b, c) == Ordering::Less ==> compare(a, c)
            == Ordering::Less,
        compare(a, b) == Ordering::Equal && compare(b, c) == Ordering::Equal ==> compare(a, c)
            == Ordering::Equal,
{
    lemma_compare_from_key(a, b, 0, 0, 0);
    lemma_compare_from_key(b, c, 0, 0, 0);
    lemma_compare_from_key(a, c, 0, 0, 0);
    lemma_syms_transitive(key(a, 0, 0), key(b, 0, 0), key(c, 0, 0));
    if compare(a, b) == Ordering::Equal && compare(b, c) == Ordering::Equal {
        lemma_compare_antisymmetric(a, b);
        lemma_compare_antisymmetric(b, c);
        lemma_compare_antisymmetric(a, c);
        lemma_compare_from_key(c, b, 0, 0, 0);
        lemma_compare_from_key(b, a, 0, 0, 0);
        lemma_compare_from_key(c, a, 0, 0, 0);
        lemma_syms_transitive(key(c, 0, 0), key(b, 0, 0), key(a, 0, 0));
    }
}

} // verus!
