//! The comparison rule for version strings.
//!
//! Both strings are walked with a cursor each. At every step invalid
//! characters are skipped, then the characters under the cursors decide, in
//! this order: a `~` on either side, the end of either string, a `-`, a `^`,
//! a `.`, a run of digits, a run of letters.
use std::cmp::Ordering;
use vstd::prelude::*;

verus! {

/// An ASCII digit.
pub open spec fn is_digit(c: char) -> bool {
    '0' <= c <= '9'
}

/// An ASCII letter.
pub open spec fn is_alpha(c: char) -> bool {
    ('a' <= c <= 'z') || ('A' <= c <= 'Z')
}

/// One of the four marker characters.
pub open spec fn is_marker(c: char) -> bool {
    c == '~' || c == '-' || c == '^' || c == '.'
}

/// The characters that take part in a comparison; all others are skipped.
pub open spec fn is_valid(c: char) -> bool {
    is_digit(c) || is_alpha(c) || is_marker(c)
}

/// The classes of character over which a cursor can run.
pub enum Class {
    Invalid,
    Zero,
    Digit,
    Alpha,
}

pub open spec fn in_class(k: Class, c: char) -> bool {
    match k {
        Class::Invalid => !is_valid(c),
        Class::Zero => c == '0',
        Class::Digit => is_digit(c),
        Class::Alpha => is_alpha(c),
    }
}

/// The first position at or after `i` whose character is not in class `k`,
/// or the length of `s` if there is none.
pub open spec fn run_end(s: Seq<char>, i: int, k: Class) -> int
    decreases s.len() - i,
{
    if 0 <= i < s.len() && in_class(k, s[i]) {
        run_end(s, i + 1, k)
    } else {
        i
    }
}

pub proof fn lemma_run_end(s: Seq<char>, i: int, k: Class)
    requires
        0 <= i <= s.len(),
    ensures
        i <= run_end(s, i, k) <= s.len(),
        i < s.len() && in_class(k, s[i]) ==> i < run_end(s, i, k),
        !(i < s.len() && in_class(k, s[i])) ==> run_end(s, i, k) == i,
        forall|p: int| i <= p < run_end(s, i, k) ==> in_class(k, #[trigger] s[p]),
        run_end(s, i, k) < s.len() ==> !in_class(k, s[run_end(s, i, k)]),
    decreases s.len() - i,
{
    if i < s.len() && in_class(k, s[i]) {
        lemma_run_end(s, i + 1, k);
    }
}

fn char_in_class(k: &Class, c: char) -> (r: bool)
    ensures
        r == in_class(*k, c),
{
    match k {
        Class::Invalid => !is_valid_version_char(c),
        Class::Zero => c == '0',
        Class::Digit => '0' <= c && c <= '9',
        Class::Alpha => ('a' <= c && c <= 'z') || ('A' <= c && c <= 'Z'),
    }
}

/// Moves from `i` past the run of characters of class `k`.
fn skip_run(s: &Vec<char>, i: usize, k: Class) -> (r: usize)
    requires
        i <= s@.len(),
    ensures
        r == run_end(s@, i as int, k),
{
    let mut p = i;
    while p < s.len() && char_in_class(&k, s[p])
        invariant
            i <= p <= s@.len(),
            run_end(s@, p as int, k) == run_end(s@, i as int, k),
        decreases s@.len() - p,
    {
        p = p + 1;
    }
    p
}

/// Whether `c` takes part in a comparison: an ASCII letter, an ASCII digit, or
/// one of `~`, `-`, `^`, `.`.
pub fn is_valid_version_char(c: char) -> (r: bool)
    ensures
        r == is_valid(c),
{
    ('0' <= c && c <= '9') || ('a' <= c && c <= 'z') || ('A' <= c && c <= 'Z') || c == '~' || c
        == '-' || c == '^' || c == '.'
}

/// The character at position `i`, if there is one.
pub open spec fn at(s: Seq<char>, i: int) -> Option<char> {
    if 0 <= i < s.len() {
        Some(s[i])
    } else {
        None
    }
}

/// The order of two booleans, `false` first.
pub open spec fn bool_order(x: bool, y: bool) -> Ordering {
    if x == y {
        Ordering::Equal
    } else if !x {
        Ordering::Less
    } else {
        Ordering::Greater
    }
}

/// The rule for a marker `m`: the side that holds `m` sorts first.
pub open spec fn marker_order(m: char, l: Option<char>, r: Option<char>) -> Ordering {
    bool_order(l != Some(m), r != Some(m))
}

/// Whether either side holds `m` and exactly one of them does.
pub open spec fn marker_decides(m: char, l: Option<char>, r: Option<char>) -> bool {
    (l == Some(m) || r == Some(m)) && marker_order(m, l, r) != Ordering::Equal
}

/// Character-code order of two strings, position by position, a proper
/// prefix first.
pub open spec fn lex_order(x: Seq<char>, y: Seq<char>) -> Ordering
    decreases x.len(),
{
    if x.len() == 0 {
        if y.len() == 0 {
            Ordering::Equal
        } else {
            Ordering::Less
        }
    } else if y.len() == 0 {
        Ordering::Greater
    } else if x[0] < y[0] {
        Ordering::Less
    } else if x[0] > y[0] {
        Ordering::Greater
    } else {
        lex_order(x.drop_first(), y.drop_first())
    }
}

/// The order of two digit runs without leading zeros: the longer is the
/// larger number, and runs of one length compare digit by digit.
pub open spec fn number_order(x: Seq<char>, y: Seq<char>) -> Ordering {
    if x.len() < y.len() {
        Ordering::Less
    } else if x.len() > y.len() {
        Ordering::Greater
    } else {
        lex_order(x, y)
    }
}

/// The order of `a` from cursor `i` against `b` from cursor `j`.
pub open spec fn compare_from(a: Seq<char>, b: Seq<char>, i: int, j: int) -> Ordering
    decreases a.len() - i + b.len() - j,
    when 0 <= i <= a.len() && 0 <= j <= b.len()
{
    let i1 = run_end(a, i, Class::Invalid);
    let j1 = run_end(b, j, Class::Invalid);
    let l = at(a, i1);
    let r = at(b, j1);
    proof {
        lemma_run_end(a, i, Class::Invalid);
        lemma_run_end(b, j, Class::Invalid);
    }
    if marker_decides('~', l, r) {
        marker_order('~', l, r)
    } else if l is None || r is None {
        bool_order(l is Some, r is Some)
    } else if marker_decides('-', l, r) {
        marker_order('-', l, r)
    } else if marker_decides('^', l, r) {
        marker_order('^', l, r)
    } else if marker_decides('.', l, r) {
        marker_order('.', l, r)
    } else if l == r && is_marker(a[i1]) {
        // The same marker on both sides: step past it.
        compare_from(a, b, i1 + 1, j1 + 1)
    } else if is_digit(a[i1]) || is_digit(b[j1]) {
        let i2 = run_end(a, i1, Class::Zero);
        let j2 = run_end(b, j1, Class::Zero);
        let i3 = run_end(a, i2, Class::Digit);
        let j3 = run_end(b, j2, Class::Digit);
        proof {
            lemma_run_end(a, i1, Class::Zero);
            lemma_run_end(b, j1, Class::Zero);
            lemma_run_end(a, i2, Class::Digit);
            lemma_run_end(b, j2, Class::Digit);
        }
        let o = number_order(a.subrange(i2, i3), b.subrange(j2, j3));
        if o != Ordering::Equal {
            o
        } else {
            compare_from(a, b, i3, j3)
        }
    } else {
        let i3 = run_end(a, i1, Class::Alpha);
        let j3 = run_end(b, j1, Class::Alpha);
        proof {
            lemma_run_end(a, i1, Class::Alpha);
            lemma_run_end(b, j1, Class::Alpha);
        }
        let o = lex_order(a.subrange(i1, i3), b.subrange(j1, j3));
        if o != Ordering::Equal {
            o
        } else {
            compare_from(a, b, i3, j3)
        }
    }
}

/// The order of two version strings.
pub open spec fn compare(a: Seq<char>, b: Seq<char>) -> Ordering {
    compare_from(a, b, 0, 0)
}

/// The order seen from the other side.
pub open spec fn reversed(o: Ordering) -> Ordering {
    match o {
        Ordering::Less => Ordering::Greater,
        Ordering::Equal => Ordering::Equal,
        Ordering::Greater => Ordering::Less,
    }
}

pub proof fn lemma_lex_antisymmetric(x: Seq<char>, y: Seq<char>)
    ensures
        lex_order(x, y) == reversed(lex_order(y, x)),
    decreases x.len(),
{
    if x.len() > 0 && y.len() > 0 && x[0] == y[0] {
        lemma_lex_antisymmetric(x.drop_first(), y.drop_first());
    }
}

pub proof fn lemma_lex_reflexive(x: Seq<char>)
    ensures
        lex_order(x, x) == Ordering::Equal,
    decreases x.len(),
{
    if x.len() > 0 {
        lemma_lex_reflexive(x.drop_first());
    }
}

proof fn lemma_compare_from_antisymmetric(a: Seq<char>, b: Seq<char>, i: int, j: int)
    requires
        0 <= i <= a.len(),
        0 <= j <= b.len(),
    ensures
        compare_from(a, b, i, j) == reversed(compare_from(b, a, j, i)),
    decreases a.len() - i + b.len() - j,
{
    let i1 = run_end(a, i, Class::Invalid);
    let j1 = run_end(b, j, Class::Invalid);
    lemma_run_end(a, i, Class::Invalid);
    lemma_run_end(b, j, Class::Invalid);
    let l = at(a, i1);
    let r = at(b, j1);
    if l is Some && r is Some {
        let i2 = run_end(a, i1, Class::Zero);
        let j2 = run_end(b, j1, Class::Zero);
        lemma_run_end(a, i1, Class::Zero);
        lemma_run_end(b, j1, Class::Zero);
        let i3 = run_end(a, i2, Class::Digit);
        let j3 = run_end(b, j2, Class::Digit);
        lemma_run_end(a, i2, Class::Digit);
        lemma_run_end(b, j2, Class::Digit);
        lemma_lex_antisymmetric(a.subrange(i2, i3), b.subrange(j2, j3));
        let i4 = run_end(a, i1, Class::Alpha);
        let j4 = run_end(b, j1, Class::Alpha);
        lemma_run_end(a, i1, Class::Alpha);
        lemma_run_end(b, j1, Class::Alpha);
        lemma_lex_antisymmetric(a.subrange(i1, i4), b.subrange(j1, j4));
        if l == r && is_marker(a[i1]) {
            lemma_compare_from_antisymmetric(a, b, i1 + 1, j1 + 1);
        } else if is_digit(a[i1]) || is_digit(b[j1]) {
            if i3 + j3 > i + j {
                lemma_compare_from_antisymmetric(a, b, i3, j3);
            }
        } else if i4 + j4 > i + j {
            lemma_compare_from_antisymmetric(a, b, i4, j4);
        }
    }
}

/// Comparing the other way round gives the reversed order: exactly one of
/// `a < b`, `a == b`, `a > b` holds, and `a < b` exactly when `b > a`.
pub proof fn lemma_compare_antisymmetric(a: Seq<char>, b: Seq<char>)
    ensures
        compare(a, b) == reversed(compare(b, a)),
{
    lemma_compare_from_antisymmetric(a, b, 0, 0);
}

proof fn lemma_compare_from_reflexive(a: Seq<char>, i: int)
    requires
        0 <= i <= a.len(),
    ensures
        compare_from(a, a, i, i) == Ordering::Equal,
    decreases a.len() - i,
{
    let i1 = run_end(a, i, Class::Invalid);
    lemma_run_end(a, i, Class::Invalid);
    if i1 < a.len() {
        let i2 = run_end(a, i1, Class::Zero);
        lemma_run_end(a, i1, Class::Zero);
        let i3 = run_end(a, i2, Class::Digit);
        lemma_run_end(a, i2, Class::Digit);
        lemma_lex_reflexive(a.subrange(i2, i3));
        let i4 = run_end(a, i1, Class::Alpha);
        lemma_run_end(a, i1, Class::Alpha);
        lemma_lex_reflexive(a.subrange(i1, i4));
        if is_marker(a[i1]) {
            lemma_compare_from_reflexive(a, i1 + 1);
        } else if is_digit(a[i1]) {
            lemma_compare_from_reflexive(a, i3);
        } else {
            lemma_compare_from_reflexive(a, i4);
        }
    }
}

/// Every version string is equal to itself, the empty one included.
pub proof fn lemma_compare_reflexive(a: Seq<char>)
    ensures
        compare(a, a) == Ordering::Equal,
{
    lemma_compare_from_reflexive(a, 0);
}

fn is_equal(o: Ordering) -> (r: bool)
    ensures
        r == (o == Ordering::Equal),
{
    matches!(o, Ordering::Equal)
}

fn bool_cmp(x: bool, y: bool) -> (r: Ordering)
    ensures
        r == bool_order(x, y),
{
    if x == y {
        Ordering::Equal
    } else if !x {
        Ordering::Less
    } else {
        Ordering::Greater
    }
}

fn holds(c: Option<char>, m: char) -> (r: bool)
    ensures
        r == (c == Some(m)),
{
    match c {
        Some(x) => x == m,
        None => false,
    }
}

/// The rule for a marker: the side whose current character is `marker` sorts
/// before the side whose current character is another one or absent.
pub fn compare_special_char(marker: char, left: Option<char>, right: Option<char>) -> (r:
    Ordering)
    ensures
        r == marker_order(marker, left, right),
{
    bool_cmp(!holds(left, marker), !holds(right, marker))
}

fn char_at(s: &Vec<char>, i: usize) -> (r: Option<char>)
    ensures
        r == at(s@, i as int),
{
    if i < s.len() {
        Some(s[i])
    } else {
        None
    }
}

/// Character-code order of `a[i0..i1]` and `b[j0..j1]`.
fn compare_runs(a: &Vec<char>, i0: usize, i1: usize, b: &Vec<char>, j0: usize, j1: usize) -> (r:
    Ordering)
    requires
        i0 <= i1 <= a@.len(),
        j0 <= j1 <= b@.len(),
    ensures
        r == lex_order(a@.subrange(i0 as int, i1 as int), b@.subrange(j0 as int, j1 as int)),
{
    let mut p = i0;
    let mut q = j0;
    while p < i1 && q < j1
        invariant
            i0 <= p <= i1 <= a@.len(),
            j0 <= q <= j1 <= b@.len(),
            p - i0 == q - j0,
            lex_order(a@.subrange(i0 as int, i1 as int), b@.subrange(j0 as int, j1 as int))
                == lex_order(a@.subrange(p as int, i1 as int), b@.subrange(q as int, j1 as int)),
        decreases i1 - p,
    {
        let x = a[p];
        let y = b[q];
        if x < y {
            return Ordering::Less;
        }
        if x > y {
            return Ordering::Greater;
        }
        assert(a@.subrange(p as int, i1 as int).drop_first() =~= a@.subrange(p + 1, i1 as int));
        assert(b@.subrange(q as int, j1 as int).drop_first() =~= b@.subrange(q + 1, j1 as int));
        p = p + 1;
        q = q + 1;
    }
    if p < i1 {
        Ordering::Greater
    } else if q < j1 {
        Ordering::Less
    } else {
        Ordering::Equal
    }
}

/// The characters of `s`, in order.
fn chars_of(s: &str) -> (v: Vec<char>)
    ensures
        v@ == s@,
{
    let mut v: Vec<char> = Vec::new();
    for c in it: s.chars()
        invariant
            v@ == it.seq().take(it.index() as int),
    {
        v.push(c);
    }
    v
}

/// Compares two version strings.
pub fn strverscmp(a: &str, b: &str) -> (r: Ordering)
    ensures
        r == compare(a@, b@),
{
    let sa = chars_of(a);
    let sb = chars_of(b);
    let mut i: usize = 0;
    let mut j: usize = 0;
    loop
        invariant
            0 <= i <= sa@.len(),
            0 <= j <= sb@.len(),
            sa@ == a@,
            sb@ == b@,
            compare_from(sa@, sb@, i as int, j as int) == compare(a@, b@),
        decreases sa@.len() - i + sb@.len() - j,
    {
        proof {
            lemma_run_end(sa@, i as int, Class::Invalid);
            lemma_run_end(sb@, j as int, Class::Invalid);
        }
        // Invalid characters are skipped.
        let i1 = skip_run(&sa, i, Class::Invalid);
        let j1 = skip_run(&sb, j, Class::Invalid);
        let left = char_at(&sa, i1);
        let right = char_at(&sb, j1);
        // A pre-release marker sorts before anything, the end included.
        if holds(left, '~') || holds(right, '~') {
            let o = compare_special_char('~', left, right);
            if !is_equal(o) {
                return o;
            }
        }
        // The end of a string sorts before any character.
        if left.is_none() || right.is_none() {
            return bool_cmp(left.is_some(), right.is_some());
        }
        let lc = sa[i1];
        let rc = sb[j1];
        assert(i1 < sa.len() && j1 < sb.len());
        // The separators, in order of precedence.
        if lc == '-' || rc == '-' {
            let o = compare_special_char('-', left, right);
            if !is_equal(o) {
                return o;
            }
        }
        if lc == '^' || rc == '^' {
            let o = compare_special_char('^', left, right);
            if !is_equal(o) {
                return o;
            }
        }
        if lc == '.' || rc == '.' {
            let o = compare_special_char('.', left, right);
            if !is_equal(o) {
                return o;
            }
        }
        if lc == rc && (lc == '~' || lc == '-' || lc == '^' || lc == '.') {
            i = i1 + 1;
            j = j1 + 1;
        } else if ('0' <= lc && lc <= '9') || ('0' <= rc && rc <= '9') {
            // Numbers compare by value: leading zeros are dropped, then the
            // longer run is the larger.
            proof {
                lemma_run_end(sa@, i1 as int, Class::Zero);
                lemma_run_end(sb@, j1 as int, Class::Zero);
            }
            let i2 = skip_run(&sa, i1, Class::Zero);
            let j2 = skip_run(&sb, j1, Class::Zero);
            proof {
                lemma_run_end(sa@, i2 as int, Class::Digit);
                lemma_run_end(sb@, j2 as int, Class::Digit);
            }
            let i3 = skip_run(&sa, i2, Class::Digit);
            let j3 = skip_run(&sb, j2, Class::Digit);
            if i3 - i2 != j3 - j2 {
                return if i3 - i2 < j3 - j2 {
                    Ordering::Less
                } else {
                    Ordering::Greater
                };
            }
            let o = compare_runs(&sa, i2, i3, &sb, j2, j3);
            if !is_equal(o) {
                return o;
            }
            i = i3;
            j = j3;
        } else {
            proof {
                lemma_run_end(sa@, i1 as int, Class::Alpha);
                lemma_run_end(sb@, j1 as int, Class::Alpha);
            }
            let i3 = skip_run(&sa, i1, Class::Alpha);
            let j3 = skip_run(&sb, j1, Class::Alpha);
            let o = compare_runs(&sa, i1, i3, &sb, j1, j3);
            if !is_equal(o) {
                return o;
            }
            i = i3;
            j = j3;
        }
    }
}

} // verus!
