//! Natural ("human") ordering of file names: runs of ASCII digits compare by
//! their numeric value, every other character compares case-insensitively
//! (ASCII letters only), character by character.

use std::cmp::Ordering;
use vstd::prelude::*;

verus! {

/// Three-way outcome of a comparison, used by the specifications and by the
/// comparison engine.
#[derive(PartialEq, Eq, Structural, Clone, Copy, Debug)]
pub enum Order {
    Less,
    Equal,
    Greater,
}

impl Order {
    /// The outcome of the comparison with its operands swapped.
    pub open spec fn flip(self) -> Order {
        match self {
            Order::Less => Order::Greater,
            Order::Equal => Order::Equal,
            Order::Greater => Order::Less,
        }
    }
}

/// Whether `c` is an ASCII digit.
pub open spec fn is_digit(c: char) -> bool {
    48 <= (c as u32) && (c as u32) <= 57
}

/// The numeric value of a digit character.
pub open spec fn digit_value(c: char) -> nat {
    ((c as u32) - 48) as nat
}

/// The key by which a character outside a digit run is compared: its code
/// point after ASCII lower-casing.
pub open spec fn fold_key(c: char) -> u32 {
    if 65 <= (c as u32) && (c as u32) <= 90 {
        ((c as u32) + 32) as u32
    } else {
        c as u32
    }
}

/// Ten to the power `n`.
pub open spec fn pow10(n: nat) -> nat
    decreases n,
{
    if n == 0 {
        1
    } else {
        10 * pow10((n - 1) as nat)
    }
}

/// Whether every character of `s` is an ASCII digit.
pub open spec fn all_digits(s: Seq<char>) -> bool {
    forall|k: int| 0 <= k < s.len() ==> is_digit(#[trigger] s[k])
}

/// The number of ASCII digits at the start of `s`.
pub open spec fn digit_run_len(s: Seq<char>) -> nat
    decreases s.len(),
{
    if s.len() > 0 && is_digit(s[0]) {
        1 + digit_run_len(s.drop_first())
    } else {
        0
    }
}

/// The value of a string of decimal digits (the empty string has value 0).
pub open spec fn digits_value(d: Seq<char>) -> nat
    decreases d.len(),
{
    if d.len() == 0 {
        0
    } else {
        digits_value(d.drop_last()) * 10 + digit_value(d.last())
    }
}

/// Three-way comparison of two natural numbers.
pub open spec fn compare_nat(x: nat, y: nat) -> Order {
    if x < y {
        Order::Less
    } else if x > y {
        Order::Greater
    } else {
        Order::Equal
    }
}

/// Three-way comparison of two character keys.
pub open spec fn compare_key(x: u32, y: u32) -> Order {
    if x < y {
        Order::Less
    } else if x > y {
        Order::Greater
    } else {
        Order::Equal
    }
}

pub proof fn lemma_digit_run_len_bounds(s: Seq<char>)
    ensures
        digit_run_len(s) <= s.len(),
        s.len() > 0 && is_digit(s[0]) ==> digit_run_len(s) >= 1,
        all_digits(s.take(digit_run_len(s) as int)),
        digit_run_len(s) < s.len() ==> !is_digit(s[digit_run_len(s) as int]),
    decreases s.len(),
{
    if s.len() > 0 && is_digit(s[0]) {
        lemma_digit_run_len_bounds(s.drop_first());
        let n = digit_run_len(s);
        assert forall|k: int| 0 <= k < n implies is_digit(#[trigger] s.take(n as int)[k]) by {
            if k > 0 {
                assert(s.take(n as int)[k] == s.drop_first().take(n - 1)[k - 1]);
            }
        }
        if n < s.len() {
            assert(s[n as int] == s.drop_first()[n - 1]);
        }
    }
}

/// The natural order of two character sequences.  At each step: an exhausted
/// side sorts first; two digit runs compare by value (and, when equal, the
/// comparison goes on after both runs); otherwise the two characters compare
/// by their folded key (and, when equal, the comparison goes on after them).
pub open spec fn natural_order(a: Seq<char>, b: Seq<char>) -> Order
    decreases a.len() + b.len(),
{
    if a.len() == 0 && b.len() == 0 {
        Order::Equal
    } else if a.len() == 0 {
        Order::Less
    } else if b.len() == 0 {
        Order::Greater
    } else if is_digit(a[0]) && is_digit(b[0]) {
        let na = digit_run_len(a);
        let nb = digit_run_len(b);
        proof {
            lemma_digit_run_len_bounds(a);
            lemma_digit_run_len_bounds(b);
        }
        let c = compare_nat(digits_value(a.take(na as int)), digits_value(b.take(nb as int)));
        if c == Order::Equal {
            natural_order(a.skip(na as int), b.skip(nb as int))
        } else {
            c
        }
    } else {
        let c = compare_key(fold_key(a[0]), fold_key(b[0]));
        if c == Order::Equal {
            natural_order(a.drop_first(), b.drop_first())
        } else {
            c
        }
    }
}


/// Every name is in the same place as itself.
pub proof fn lemma_natural_order_reflexive(a: Seq<char>)
    ensures
        natural_order(a, a) == Order::Equal,
    decreases a.len(),
{
    if a.len() > 0 {
        lemma_digit_run_len_bounds(a);
        if is_digit(a[0]) {
            let n = digit_run_len(a);
            lemma_natural_order_reflexive(a.skip(n as int));
        } else {
            lemma_natural_order_reflexive(a.drop_first());
        }
    }
}

/// Swapping the two names flips the outcome.
pub proof fn lemma_natural_order_antisymmetric(a: Seq<char>, b: Seq<char>)
    ensures
        natural_order(b, a) == natural_order(a, b).flip(),
    decreases a.len() + b.len(),
{
    if a.len() > 0 && b.len() > 0 {
        lemma_digit_run_len_bounds(a);
        lemma_digit_run_len_bounds(b);
        if is_digit(a[0]) && is_digit(b[0]) {
            let na = digit_run_len(a);
            let nb = digit_run_len(b);
            lemma_natural_order_antisymmetric(a.skip(na as int), b.skip(nb as int));
        } else {
            lemma_natural_order_antisymmetric(a.drop_first(), b.drop_first());
        }
    }
}

/// The key of a character that is not a digit lies outside the digit keys.
proof fn lemma_fold_key_digits(c: char)
    ensures
        is_digit(c) ==> fold_key(c) == c as u32 && 48 <= fold_key(c) <= 57,
        !is_digit(c) ==> fold_key(c) < 48 || fold_key(c) > 57,
{
}

/// The natural order is transitive: "not after" chains, and a strict step
/// anywhere in the chain makes the whole chain strict.
pub proof fn lemma_natural_order_transitive(a: Seq<char>, b: Seq<char>, c: Seq<char>)
    ensures
        natural_order(a, b) != Order::Greater && natural_order(b, c) != Order::Greater
            ==> natural_order(a, c) != Order::Greater,
        natural_order(a, b) == Order::Less && natural_order(b, c) != Order::Greater
            ==> natural_order(a, c) == Order::Less,
        natural_order(a, b) != Order::Greater && natural_order(b, c) == Order::Less
            ==> natural_order(a, c) == Order::Less,
    decreases a.len() + b.len() + c.len(),
{
    if a.len() > 0 && b.len() > 0 && c.len() > 0 {
        lemma_digit_run_len_bounds(a);
        lemma_digit_run_len_bounds(b);
        lemma_digit_run_len_bounds(c);
        lemma_fold_key_digits(a[0]);
        lemma_fold_key_digits(b[0]);
        lemma_fold_key_digits(c[0]);
        if is_digit(a[0]) && is_digit(b[0]) && is_digit(c[0]) {
            let na = digit_run_len(a);
            let nb = digit_run_len(b);
            let nc = digit_run_len(c);
            lemma_natural_order_transitive(a.skip(na as int), b.skip(nb as int), c.skip(nc as int));
        } else if !is_digit(a[0]) && !is_digit(b[0]) && !is_digit(c[0]) {
            lemma_natural_order_transitive(a.drop_first(), b.drop_first(), c.drop_first());
        }
    }
}


proof fn lemma_pow10_positive(n: nat)
    ensures
        pow10(n) >= 1,
    decreases n,
{
    if n > 0 {
        lemma_pow10_positive((n - 1) as nat);
    }
}

proof fn lemma_pow10_monotone(m: nat, n: nat)
    requires
        m <= n,
    ensures
        pow10(m) <= pow10(n),
    decreases n,
{
    if m < n {
        lemma_pow10_monotone(m, (n - 1) as nat);
        lemma_pow10_positive((n - 1) as nat);
    }
}

/// The value of a concatenation of digit strings.
proof fn lemma_digits_value_concat(p: Seq<char>, q: Seq<char>)
    ensures
        digits_value(p + q) == digits_value(p) * pow10(q.len()) + digits_value(q),
    decreases q.len(),
{
    if q.len() == 0 {
        assert(p + q =~= p);
        assert(digits_value(q) == 0);
        assert(pow10(0) == 1);
    } else {
        let q1 = q.drop_last();
        assert((p + q).drop_last() =~= p + q1);
        assert((p + q).last() == q.last());
        lemma_digits_value_concat(p, q1);
        let vp = digits_value(p);
        let w = pow10(q1.len());
        let v1 = digits_value(q1);
        assert((vp * w + v1) * 10 == vp * (10 * w) + v1 * 10) by (nonlinear_arith);
        assert(pow10(q.len()) == 10 * w);
        assert(digits_value(q) == v1 * 10 + digit_value(q.last()));
        assert(digits_value(p + q) == digits_value(p + q1) * 10 + digit_value(q.last()));
    }
}

proof fn lemma_digits_value_bound(d: Seq<char>)
    requires
        all_digits(d),
    ensures
        digits_value(d) < pow10(d.len()),
    decreases d.len(),
{
    if d.len() > 0 {
        let d1 = d.drop_last();
        assert(is_digit(d[d.len() - 1]));
        assert(all_digits(d1)) by {
            assert forall|k: int| 0 <= k < d1.len() implies is_digit(#[trigger] d1[k]) by {
                assert(d1[k] == d[k]);
            }
        }
        lemma_digits_value_bound(d1);
        let v1 = digits_value(d1);
        let w = pow10(d1.len());
        assert(v1 * 10 + 9 < 10 * w) by (nonlinear_arith)
            requires
                v1 < w,
        ;
    }
}

proof fn lemma_digits_value_zeros(d: Seq<char>)
    requires
        forall|k: int| 0 <= k < d.len() ==> digit_value(#[trigger] d[k]) == 0,
    ensures
        digits_value(d) == 0,
    decreases d.len(),
{
    if d.len() > 0 {
        let d1 = d.drop_last();
        assert forall|k: int| 0 <= k < d1.len() implies digit_value(#[trigger] d1[k]) == 0 by {
            assert(d1[k] == d[k]);
        }
        lemma_digits_value_zeros(d1);
        assert(digit_value(d[d.len() - 1]) == 0);
    }
}

proof fn lemma_digits_value_lower(d: Seq<char>)
    requires
        all_digits(d),
        d.len() > 0,
        digit_value(d[0]) > 0,
    ensures
        digits_value(d) >= pow10((d.len() - 1) as nat),
{
    let head = d.take(1);
    let rest = d.skip(1);
    assert(head + rest =~= d);
    lemma_digits_value_concat(head, rest);
    assert(head.drop_last() =~= Seq::<char>::empty());
    assert(digits_value(Seq::<char>::empty()) == 0);
    assert(head.last() == d[0]);
    assert(digits_value(head) == digit_value(d[0]));
    assert(digits_value(head) >= 1);
    let w = pow10(rest.len());
    assert(digits_value(head) * w >= w) by (nonlinear_arith)
        requires
            digits_value(head) >= 1,
    ;
}

/// Two digit strings of one length that agree up to a position where the
/// first has the smaller digit: the first has the smaller value.
proof fn lemma_digits_value_first_difference(
    p: Seq<char>,
    x: char,
    r1: Seq<char>,
    q: Seq<char>,
    y: char,
    r2: Seq<char>,
)
    requires
        digits_value(p) == digits_value(q),
        all_digits(r1),
        all_digits(r2),
        r1.len() == r2.len(),
        is_digit(x),
        is_digit(y),
        digit_value(x) < digit_value(y),
    ensures
        digits_value(p + seq![x] + r1) < digits_value(q + seq![y] + r2),
{
    let px = p + seq![x];
    let py = q + seq![y];
    lemma_digits_value_concat(px, r1);
    lemma_digits_value_concat(py, r2);
    lemma_digits_value_concat(p, seq![x]);
    lemma_digits_value_concat(q, seq![y]);
    assert(seq![x].drop_last() =~= Seq::<char>::empty());
    assert(seq![y].drop_last() =~= Seq::<char>::empty());
    assert(digits_value(Seq::<char>::empty()) == 0);
    assert(digits_value(seq![x]) == digit_value(x));
    assert(digits_value(seq![y]) == digit_value(y));
    lemma_pow10_positive(0);
    lemma_digits_value_bound(r1);
    let vp = digits_value(p);
    let w = pow10(r1.len());
    let dx = digit_value(x);
    let dy = digit_value(y);
    let v1 = digits_value(r1);
    let v2 = digits_value(r2);
    assert(digits_value(px) == vp * 10 + dx);
    assert(digits_value(py) == vp * 10 + dy);
    assert((vp * 10 + dx) * w + v1 < (vp * 10 + dy) * w + v2) by (nonlinear_arith)
        requires
            v1 < w,
            dx < dy,
    ;
}


/// A digit run found by its end: `s[start..end]` are digits and `end` is the
/// end of `s` or a non-digit.
proof fn lemma_digit_run_len_of_range(s: Seq<char>, start: int, end: int)
    requires
        0 <= start <= end <= s.len(),
        forall|k: int| start <= k < end ==> is_digit(#[trigger] s[k]),
        end == s.len() || !is_digit(s[end]),
    ensures
        digit_run_len(s.skip(start)) == end - start,
    decreases end - start,
{
    if start < end {
        lemma_digit_run_len_of_range(s, start + 1, end);
        assert(s.skip(start).drop_first() =~= s.skip(start + 1));
    }
}

fn is_digit_exec(c: char) -> (r: bool)
    ensures
        r == is_digit(c),
{
    let v = c as u32;
    48 <= v && v <= 57
}

fn digit_code(c: char) -> (v: u32)
    ensures
        v == c as u32,
        is_digit(c) ==> v - 48 == digit_value(c),
{
    c as u32
}

pub(crate) fn fold_key_exec(c: char) -> (k: u32)
    ensures
        k == fold_key(c),
{
    let v = c as u32;
    if 65 <= v && v <= 90 {
        v + 32
    } else {
        v
    }
}

/// The end of the digit run that starts at `start`.
fn digit_run_end(s: &Vec<char>, start: usize) -> (end: usize)
    requires
        start <= s.len(),
    ensures
        start <= end <= s.len(),
        end - start == digit_run_len(s@.skip(start as int)),
        forall|k: int| start <= k < end ==> is_digit(#[trigger] s@[k]),
{
    let mut end = start;
    while end < s.len() && is_digit_exec(s[end])
        invariant
            start <= end <= s.len(),
            forall|k: int| start <= k < end ==> is_digit(#[trigger] s@[k]),
        decreases s.len() - end,
    {
        end = end + 1;
    }
    proof {
        lemma_digit_run_len_of_range(s@, start as int, end as int);
    }
    end
}

/// Compares the values of the digit runs `a[i..ea]` and `b[j..eb]`, whatever
/// their length: leading zeros are skipped, a longer significant part is the
/// larger number, and runs of one length compare digit by digit.
fn compare_digit_runs(a: &Vec<char>, i: usize, ea: usize, b: &Vec<char>, j: usize, eb: usize) -> (r: Order)
    requires
        i <= ea <= a.len(),
        j <= eb <= b.len(),
        forall|k: int| i <= k < ea ==> is_digit(#[trigger] a@[k]),
        forall|k: int| j <= k < eb ==> is_digit(#[trigger] b@[k]),
    ensures
        r == compare_nat(
            digits_value(a@.subrange(i as int, ea as int)),
            digits_value(b@.subrange(j as int, eb as int)),
        ),
{
    let ghost sa = a@.subrange(i as int, ea as int);
    let ghost sb = b@.subrange(j as int, eb as int);
    let mut za = i;
    while za < ea && digit_code(a[za]) == 48
        invariant
            i <= za <= ea <= a.len(),
            forall|k: int| i <= k < za ==> digit_value(#[trigger] a@[k]) == 0,
            forall|k: int| i <= k < ea ==> is_digit(#[trigger] a@[k]),
        decreases ea - za,
    {
        za = za + 1;
    }
    let mut zb = j;
    while zb < eb && digit_code(b[zb]) == 48
        invariant
            j <= zb <= eb <= b.len(),
            forall|k: int| j <= k < zb ==> digit_value(#[trigger] b@[k]) == 0,
            forall|k: int| j <= k < eb ==> is_digit(#[trigger] b@[k]),
        decreases eb - zb,
    {
        zb = zb + 1;
    }
    let ghost ta = a@.subrange(za as int, ea as int);
    let ghost tb = b@.subrange(zb as int, eb as int);
    proof {
        let pa = a@.subrange(i as int, za as int);
        let pb = b@.subrange(j as int, zb as int);
        assert(sa =~= pa + ta);
        assert(sb =~= pb + tb);
        assert forall|k: int| 0 <= k < pa.len() implies digit_value(#[trigger] pa[k]) == 0 by {
            assert(pa[k] == a@[i + k]);
        }
        assert forall|k: int| 0 <= k < pb.len() implies digit_value(#[trigger] pb[k]) == 0 by {
            assert(pb[k] == b@[j + k]);
        }
        lemma_digits_value_zeros(pa);
        lemma_digits_value_zeros(pb);
        lemma_digits_value_concat(pa, ta);
        lemma_digits_value_concat(pb, tb);
        assert forall|k: int| 0 <= k < ta.len() implies is_digit(#[trigger] ta[k]) by {
            assert(ta[k] == a@[za + k]);
        }
        assert forall|k: int| 0 <= k < tb.len() implies is_digit(#[trigger] tb[k]) by {
            assert(tb[k] == b@[zb + k]);
        }
        lemma_digits_value_bound(ta);
        lemma_digits_value_bound(tb);
        if ta.len() > 0 {
            assert(ta[0] == a@[za as int]);
            lemma_digits_value_lower(ta);
        }
        if tb.len() > 0 {
            assert(tb[0] == b@[zb as int]);
            lemma_digits_value_lower(tb);
        }
        assert(digits_value(sa) == digits_value(ta));
        assert(digits_value(sb) == digits_value(tb));
    }
    let la = ea - za;
    let lb = eb - zb;
    if la < lb {
        proof {
            lemma_pow10_monotone(la as nat, (lb - 1) as nat);
        }
        return Order::Less;
    }
    if la > lb {
        proof {
            lemma_pow10_monotone(lb as nat, (la - 1) as nat);
        }
        return Order::Greater;
    }
    let mut k: usize = 0;
    while k < la
        invariant
            la == ea - za,
            la == eb - zb,
            za <= ea <= a.len(),
            zb <= eb <= b.len(),
            k <= la,
            ta == a@.subrange(za as int, ea as int),
            tb == b@.subrange(zb as int, eb as int),
            all_digits(ta),
            all_digits(tb),
            digits_value(ta.take(k as int)) == digits_value(tb.take(k as int)),
            digits_value(sa) == digits_value(ta),
            digits_value(sb) == digits_value(tb),
            sa == a@.subrange(i as int, ea as int),
            sb == b@.subrange(j as int, eb as int),
            i <= za,
            j <= zb,
        decreases la - k,
    {
        let da = digit_code(a[za + k]);
        let db = digit_code(b[zb + k]);
        if da != db {
            proof {
                let p = ta.take(k as int);
                let q = tb.take(k as int);
                let x = ta[k as int];
                let y = tb[k as int];
                let r1 = ta.skip(k + 1);
                let r2 = tb.skip(k + 1);
                assert(ta =~= p + seq![x] + r1);
                assert(tb =~= q + seq![y] + r2);
                assert(x == a@[za + k]);
                assert(y == b@[zb + k]);
                assert forall|m: int| 0 <= m < r1.len() implies is_digit(#[trigger] r1[m]) by {
                    assert(r1[m] == ta[k + 1 + m]);
                }
                assert forall|m: int| 0 <= m < r2.len() implies is_digit(#[trigger] r2[m]) by {
                    assert(r2[m] == tb[k + 1 + m]);
                }
                assert(is_digit(ta[k as int]));
                assert(is_digit(tb[k as int]));
                if da < db {
                    lemma_digits_value_first_difference(p, x, r1, q, y, r2);
                } else {
                    lemma_digits_value_first_difference(q, y, r2, p, x, r1);
                }
            }
            if da < db {
                return Order::Less;
            } else {
                return Order::Greater;
            }
        }
        proof {
            assert(ta[k as int] == a@[za + k]);
            assert(tb[k as int] == b@[zb + k]);
            assert(digit_value(ta[k as int]) == digit_value(tb[k as int]));
            assert(ta.take(k + 1).drop_last() =~= ta.take(k as int));
            assert(tb.take(k + 1).drop_last() =~= tb.take(k as int));
        }
        k = k + 1;
    }
    proof {
        assert(ta =~= ta.take(la as int));
        assert(tb =~= tb.take(la as int));
    }
    Order::Equal
}

/// Compares two character sequences in natural order.
pub fn compare_natural(a: &Vec<char>, b: &Vec<char>) -> (r: Order)
    ensures
        r == natural_order(a@, b@),
{
    let mut i: usize = 0;
    let mut j: usize = 0;
    proof {
        assert(a@.skip(0) =~= a@);
        assert(b@.skip(0) =~= b@);
    }
    loop
        invariant
            i <= a.len(),
            j <= b.len(),
            natural_order(a@.skip(i as int), b@.skip(j as int)) == natural_order(a@, b@),
        decreases a.len() - i + b.len() - j,
    {
        let ghost sa = a@.skip(i as int);
        let ghost sb = b@.skip(j as int);
        if i == a.len() && j == b.len() {
            return Order::Equal;
        }
        if i == a.len() {
            return Order::Less;
        }
        if j == b.len() {
            return Order::Greater;
        }
        assert(sa[0] == a@[i as int]);
        assert(sb[0] == b@[j as int]);
        if is_digit_exec(a[i]) && is_digit_exec(b[j]) {
            let ea = digit_run_end(a, i);
            let eb = digit_run_end(b, j);
            proof {
                lemma_digit_run_len_bounds(sa);
                lemma_digit_run_len_bounds(sb);
                assert(sa.take((ea - i) as int) =~= a@.subrange(i as int, ea as int));
                assert(sb.take((eb - j) as int) =~= b@.subrange(j as int, eb as int));
                assert(sa.skip((ea - i) as int) =~= a@.skip(ea as int));
                assert(sb.skip((eb - j) as int) =~= b@.skip(eb as int));
            }
            let c = compare_digit_runs(a, i, ea, b, j, eb);
            match c {
                Order::Equal => {
                    i = ea;
                    j = eb;
                },
                _ => {
                    return c;
                },
            }
        } else {
            let ka = fold_key_exec(a[i]);
            let kb = fold_key_exec(b[j]);
            if ka < kb {
                return Order::Less;
            }
            if ka > kb {
                return Order::Greater;
            }
            proof {
                assert(sa.drop_first() =~= a@.skip(i + 1));
                assert(sb.drop_first() =~= b@.skip(j + 1));
            }
            i = i + 1;
            j = j + 1;
        }
    }
}


/// The characters of `s`, in order.
pub fn chars_of(s: &str) -> (v: Vec<char>)
    ensures
        v@ == s@,
{
    broadcast use vstd::string::group_string_axioms;

    let mut v: Vec<char> = Vec::new();
    for c in it: s.chars()
        invariant
            v@ == it.seq().take(it.index() as int),
    {
        v.push(c);
    }
    v
}

/// The std ordering that an outcome stands for.
pub open spec fn as_std_ordering(o: Order) -> Ordering {
    match o {
        Order::Less => Ordering::Less,
        Order::Equal => Ordering::Equal,
        Order::Greater => Ordering::Greater,
    }
}

/// Compares two file names in natural order: "track2" sorts before
/// "track10", and "Beta" sorts after "alpha".  Digit runs compare by their
/// exact value, however many digits they have; the order is a total preorder
/// (see the laws above), so it can drive a sort.
pub fn natural_cmp(a: &str, b: &str) -> (r: Ordering)
    ensures
        r == as_std_ordering(natural_order(a@, b@)),
{
    let va = chars_of(a);
    let vb = chars_of(b);
    match compare_natural(&va, &vb) {
        Order::Less => Ordering::Less,
        Order::Equal => Ordering::Equal,
        Order::Greater => Ordering::Greater,
    }
}

/// Two names made only of digits compare by the numbers they write.
pub proof fn lemma_digit_names_compare_by_value(a: Seq<char>, b: Seq<char>)
    requires
        a.len() > 0,
        b.len() > 0,
        all_digits(a),
        all_digits(b),
    ensures
        digits_value(a) < digits_value(b) ==> natural_order(a, b) == Order::Less,
        digits_value(a) > digits_value(b) ==> natural_order(a, b) == Order::Greater,
        digits_value(a) == digits_value(b) ==> natural_order(a, b) == Order::Equal,
{
    assert(a.skip(0) =~= a);
    assert(b.skip(0) =~= b);
    lemma_digit_run_len_of_range(a, 0, a.len() as int);
    lemma_digit_run_len_of_range(b, 0, b.len() as int);
    assert(a.take(a.len() as int) =~= a);
    assert(b.take(b.len() as int) =~= b);
    assert(a.skip(a.len() as int) =~= Seq::<char>::empty());
    assert(b.skip(b.len() as int) =~= Seq::<char>::empty());
    assert(is_digit(a[0]) && is_digit(b[0]));
    assert(natural_order(Seq::<char>::empty(), Seq::<char>::empty()) == Order::Equal);
}

/// `a` and `b` differ at most in the case of ASCII letters.
pub open spec fn same_but_ascii_case(a: Seq<char>, b: Seq<char>) -> bool {
    &&& a.len() == b.len()
    &&& forall|k: int| 0 <= k < a.len() ==> same_char_but_ascii_case(#[trigger] a[k], b[k])
}

/// `c` and `d` are one character, or one ASCII letter in its two cases.
pub open spec fn same_char_but_ascii_case(c: char, d: char) -> bool {
    let x = c as u32;
    let y = d as u32;
    ||| x == y
    ||| 65 <= x <= 90 && y == x + 32
    ||| 65 <= y <= 90 && x == y + 32
}

proof fn lemma_same_codes_same_value(x: Seq<char>, y: Seq<char>)
    requires
        x.len() == y.len(),
        forall|k: int| 0 <= k < x.len() ==> (#[trigger] x[k]) as u32 == y[k] as u32,
    ensures
        digits_value(x) == digits_value(y),
    decreases x.len(),
{
    if x.len() > 0 {
        lemma_same_codes_same_value(x.drop_last(), y.drop_last());
        assert(x.last() as u32 == y.last() as u32);
    }
}

proof fn lemma_same_digit_runs(a: Seq<char>, b: Seq<char>)
    requires
        same_but_ascii_case(a, b),
    ensures
        digit_run_len(a) == digit_run_len(b),
    decreases a.len(),
{
    if a.len() > 0 {
        let x = a[0] as u32;
        let y = b[0] as u32;
        assert(is_digit(a[0]) <==> is_digit(b[0]));
        let a1 = a.drop_first();
        let b1 = b.drop_first();
        assert forall|k: int| 0 <= k < a1.len() implies same_char_but_ascii_case(#[trigger] a1[k], b1[k]) by {
            assert(a1[k] == a[k + 1]);
            assert(b1[k] == b[k + 1]);
        }
        lemma_same_digit_runs(a1, b1);
    }
}

/// Names that differ only in the case of ASCII letters are in the same place.
pub proof fn lemma_ascii_case_is_ignored(a: Seq<char>, b: Seq<char>)
    requires
        same_but_ascii_case(a, b),
    ensures
        natural_order(a, b) == Order::Equal,
    decreases a.len(),
{
    if a.len() > 0 {
        lemma_digit_run_len_bounds(a);
        lemma_digit_run_len_bounds(b);
        lemma_same_digit_runs(a, b);
        assert(is_digit(a[0]) <==> is_digit(b[0]));
        if is_digit(a[0]) {
            let n = digit_run_len(a);
            let ta = a.take(n as int);
            let tb = b.take(n as int);
            assert forall|k: int| 0 <= k < ta.len() implies (#[trigger] ta[k]) as u32 == tb[k] as u32 by {
                assert(ta[k] == a[k]);
                assert(tb[k] == b[k]);
                assert(is_digit(ta[k]));
            }
            lemma_same_codes_same_value(ta, tb);
            let a1 = a.skip(n as int);
            let b1 = b.skip(n as int);
            assert forall|k: int| 0 <= k < a1.len() implies same_char_but_ascii_case(#[trigger] a1[k], b1[k]) by {
                assert(a1[k] == a[k + n]);
                assert(b1[k] == b[k + n]);
            }
            lemma_ascii_case_is_ignored(a1, b1);
        } else {
            let a1 = a.drop_first();
            let b1 = b.drop_first();
            assert forall|k: int| 0 <= k < a1.len() implies same_char_but_ascii_case(#[trigger] a1[k], b1[k]) by {
                assert(a1[k] == a[k + 1]);
                assert(b1[k] == b[k + 1]);
            }
            lemma_ascii_case_is_ignored(a1, b1);
        }
    }
}

/// Where two names first differ in a character outside digit runs, with
/// neither character a digit, the one whose character has the smaller code
/// after ASCII lower-casing sorts first.
pub proof fn lemma_first_letter_difference_decides(p: Seq<char>, x: char, r1: Seq<char>, y: char, r2: Seq<char>)
    requires
        !is_digit(x),
        !is_digit(y),
        p.len() == 0 || !is_digit(p.last()),
        ({
            let lx: int = if 65 <= (x as u32) <= 90 { (x as u32) + 32 } else { x as int };
            let ly: int = if 65 <= (y as u32) <= 90 { (y as u32) + 32 } else { y as int };
            lx < ly
        }),
    ensures
        natural_order(p + seq![x] + r1, p + seq![y] + r2) == Order::Less,
    decreases p.len(),
{
    let a = p + seq![x] + r1;
    let b = p + seq![y] + r2;
    if p.len() == 0 {
        assert(a[0] == x);
        assert(b[0] == y);
    } else {
        lemma_natural_order_reflexive(p);
        lemma_common_prefix(p, seq![x] + r1, seq![y] + r2);
        assert(a =~= p + (seq![x] + r1));
        assert(b =~= p + (seq![y] + r2));
        assert((seq![x] + r1)[0] == x);
        assert((seq![y] + r2)[0] == y);
    }
}

/// A shared prefix that ends outside a digit run does not change the
/// comparison of what follows it, when what follows starts outside a digit
/// run on both sides.
proof fn lemma_common_prefix(p: Seq<char>, u: Seq<char>, v: Seq<char>)
    requires
        p.len() == 0 || !is_digit(p.last()),
        u.len() > 0 && !is_digit(u[0]),
        v.len() > 0 && !is_digit(v[0]),
    ensures
        natural_order(p + u, p + v) == natural_order(u, v),
    decreases p.len(),
{
    if p.len() > 0 {
        let a = p + u;
        let b = p + v;
        lemma_digit_run_len_bounds(a);
        lemma_digit_run_len_bounds(b);
        if is_digit(p[0]) {
            // the run at the start of `p` ends inside `p` on both sides
            let n = digit_prefix_end(p);
            lemma_run_inside_prefix(p, u, n);
            lemma_run_inside_prefix(p, v, n);
            assert(a.take(n) =~= b.take(n));
            assert(a.skip(n) =~= p.skip(n) + u);
            assert(b.skip(n) =~= p.skip(n) + v);
            lemma_common_prefix(p.skip(n), u, v);
        } else {
            assert(a[0] == p[0] && b[0] == p[0]);
            assert(a.drop_first() =~= p.drop_first() + u);
            assert(b.drop_first() =~= p.drop_first() + v);
            if p.len() > 1 {
                assert(p.drop_first().last() == p.last());
            }
            lemma_common_prefix(p.drop_first(), u, v);
        }
    }
}

/// The end of the digit run that starts `p`.
spec fn digit_prefix_end(p: Seq<char>) -> int {
    digit_run_len(p) as int
}

proof fn lemma_run_inside_prefix(p: Seq<char>, u: Seq<char>, n: int)
    requires
        p.len() > 0,
        is_digit(p[0]),
        !is_digit(p.last()),
        n == digit_prefix_end(p),
    ensures
        0 < n < p.len(),
        digit_run_len(p + u) == n,
{
    lemma_digit_run_len_bounds(p);
    if n == p.len() {
        assert(p.take(n)[n - 1] == p.last());
    }
    let a = p + u;
    assert forall|k: int| 0 <= k < n implies is_digit(#[trigger] a[k]) by {
        assert(p.take(n)[k] == p[k]);
    }
    assert(a[n] == p[n]);
    lemma_digit_run_len_of_range(a, 0, n);
    assert(a.skip(0) =~= a);
}

} // verus!
