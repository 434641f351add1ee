//! Natural ordering of file names: runs of ASCII digits compare by numeric
//! value (leading zeros ignored), everything else compares character by
//! character after ASCII case folding.
use vstd::prelude::*;
use crate::text::{chars_of, decimal, digit_char, is_digit, lower, lower_char, ascii_lower_char};
use std::cmp::Ordering;
use crate::model::Frame;

verus! {

/// A three-way comparison outcome.
#[derive(Clone, Copy, Debug, PartialEq, Eq, Structural)]
pub enum Order3 {
    Less,
    Equal,
    Greater,
}

impl Order3 {
    pub open spec fn reversed(self) -> Order3 {
        match self {
            Order3::Less => Order3::Greater,
            Order3::Equal => Order3::Equal,
            Order3::Greater => Order3::Less,
        }
    }
}

/// Length of the run of ASCII digits that starts the sequence.
pub open spec fn digit_run(s: Seq<char>) -> nat
    decreases s.len(),
{
    if s.len() > 0 && is_digit(s[0]) {
        1 + digit_run(s.drop_first())
    } else {
        0
    }
}

/// The sequence without its leading `'0'` characters.
pub open spec fn strip_zeros(s: Seq<char>) -> Seq<char>
    decreases s.len(),
{
    if s.len() > 0 && s[0] == '0' {
        strip_zeros(s.drop_first())
    } else {
        s
    }
}

/// Lexicographic order by character code.
pub open spec fn lex_order(x: Seq<char>, y: Seq<char>) -> Order3
    decreases x.len(),
{
    if x.len() == 0 {
        if y.len() == 0 { Order3::Equal } else { Order3::Less }
    } else if y.len() == 0 {
        Order3::Greater
    } else if x[0] < y[0] {
        Order3::Less
    } else if x[0] > y[0] {
        Order3::Greater
    } else {
        lex_order(x.drop_first(), y.drop_first())
    }
}

/// Order of two digit strings by numeric value: shorter (after dropping
/// leading zeros) is smaller, equal lengths compare digit by digit.
pub open spec fn number_order(x: Seq<char>, y: Seq<char>) -> Order3 {
    let p = strip_zeros(x);
    let q = strip_zeros(y);
    if p.len() < q.len() {
        Order3::Less
    } else if p.len() > q.len() {
        Order3::Greater
    } else {
        lex_order(p, q)
    }
}

pub proof fn lemma_digit_run(s: Seq<char>)
    ensures
        digit_run(s) <= s.len(),
        s.len() > 0 && is_digit(s[0]) ==> digit_run(s) >= 1,
        forall|i: int| 0 <= i < digit_run(s) ==> is_digit(#[trigger] s[i]),
        digit_run(s) < s.len() ==> !is_digit(s[digit_run(s) as int]),
    decreases s.len(),
{
    if s.len() > 0 && is_digit(s[0]) {
        lemma_digit_run(s.drop_first());
        assert forall|i: int| 0 <= i < digit_run(s) implies is_digit(#[trigger] s[i]) by {
            if i > 0 {
                assert(s[i] == s.drop_first()[i - 1]);
            }
        }
    }
}

/// The natural order of two names.
pub open spec fn natural_order(a: Seq<char>, b: Seq<char>) -> Order3
    decreases a.len() + b.len(),
{
    if a.len() == 0 && b.len() == 0 {
        Order3::Equal
    } else if a.len() == 0 {
        Order3::Less
    } else if b.len() == 0 {
        Order3::Greater
    } else if is_digit(a[0]) && is_digit(b[0]) {
        let la = digit_run(a);
        let lb = digit_run(b);
        proof {
            lemma_digit_run(a);
            lemma_digit_run(b);
        }
        let o = number_order(a.subrange(0, la as int), b.subrange(0, lb as int));
        if o != Order3::Equal {
            o
        } else {
            natural_order(a.subrange(la as int, a.len() as int), b.subrange(lb as int, b.len() as int))
        }
    } else {
        let x = lower_char(a[0]);
        let y = lower_char(b[0]);
        if x < y {
            Order3::Less
        } else if x > y {
            Order3::Greater
        } else {
            natural_order(a.drop_first(), b.drop_first())
        }
    }
}

/// End of the digit run that starts at `i`.
fn digit_run_end(v: &Vec<char>, i: usize) -> (k: usize)
    requires
        i <= v.len(),
    ensures
        i <= k <= v.len(),
        k - i == digit_run(v@.subrange(i as int, v.len() as int)),
{
    let mut k = i;
    while k < v.len() && '0' <= v[k] && v[k] <= '9'
        invariant
            i <= k <= v.len(),
            digit_run(v@.subrange(i as int, v.len() as int)) == (k - i) + digit_run(v@.subrange(k as int, v.len() as int)),
        decreases v.len() - k,
    {
        assert(v@.subrange(k as int, v.len() as int).drop_first() =~= v@.subrange(k + 1, v.len() as int));
        k += 1;
    }
    k
}

/// End of the run of `'0'` characters that starts at `i`, within `[i, e)`.
fn zeros_end(v: &Vec<char>, i: usize, e: usize) -> (z: usize)
    requires
        i <= e <= v.len(),
    ensures
        i <= z <= e,
        v@.subrange(z as int, e as int) == strip_zeros(v@.subrange(i as int, e as int)),
{
    let mut z = i;
    while z < e && v[z] == '0'
        invariant
            i <= z <= e <= v.len(),
            strip_zeros(v@.subrange(i as int, e as int)) == strip_zeros(v@.subrange(z as int, e as int)),
        decreases e - z,
    {
        assert(v@.subrange(z as int, e as int).drop_first() =~= v@.subrange(z + 1, e as int));
        z += 1;
    }
    z
}

/// Lexicographic order of `a[i..e]` and `b[j..f]`.
fn lex_range(a: &Vec<char>, i: usize, e: usize, b: &Vec<char>, j: usize, f: usize) -> (r: Order3)
    requires
        i <= e <= a.len(),
        j <= f <= b.len(),
    ensures
        r == lex_order(a@.subrange(i as int, e as int), b@.subrange(j as int, f as int)),
{
    let mut x = i;
    let mut y = j;
    while x < e && y < f
        invariant
            i <= x <= e <= a.len(),
            j <= y <= f <= b.len(),
            lex_order(a@.subrange(i as int, e as int), b@.subrange(j as int, f as int))
                == lex_order(a@.subrange(x as int, e as int), b@.subrange(y as int, f as int)),
        decreases e - x,
    {
        if a[x] < b[y] {
            return Order3::Less;
        }
        if a[x] > b[y] {
            return Order3::Greater;
        }
        assert(a@.subrange(x as int, e as int).drop_first() =~= a@.subrange(x + 1, e as int));
        assert(b@.subrange(y as int, f as int).drop_first() =~= b@.subrange(y + 1, f as int));
        x += 1;
        y += 1;
    }
    if x < e {
        Order3::Greater
    } else if y < f {
        Order3::Less
    } else {
        Order3::Equal
    }
}

/// The natural order of two character vectors.
pub fn natural_order_of(a: &Vec<char>, b: &Vec<char>) -> (r: Order3)
    ensures
        r == natural_order(a@, b@),
{
    let mut i: usize = 0;
    let mut j: usize = 0;
    assert(a@.subrange(0, a.len() as int) =~= a@);
    assert(b@.subrange(0, b.len() as int) =~= b@);
    loop
        invariant
            i <= a.len(),
            j <= b.len(),
            natural_order(a@, b@) == natural_order(a@.subrange(i as int, a.len() as int), b@.subrange(j as int, b.len() as int)),
        decreases (a.len() - i) + (b.len() - j),
    {
        let ghost sa = a@.subrange(i as int, a.len() as int);
        let ghost sb = b@.subrange(j as int, b.len() as int);
        if i == a.len() && j == b.len() {
            return Order3::Equal;
        }
        if i == a.len() {
            return Order3::Less;
        }
        if j == b.len() {
            return Order3::Greater;
        }
        assert(sa[0] == a@[i as int]);
        assert(sb[0] == b@[j as int]);
        let ac = a[i];
        let bc = b[j];
        if '0' <= ac && ac <= '9' && '0' <= bc && bc <= '9' {
            let ea = digit_run_end(a, i);
            let eb = digit_run_end(b, j);
            proof {
                lemma_digit_run(sa);
                lemma_digit_run(sb);
                assert(sa.subrange(0, (ea - i) as int) =~= a@.subrange(i as int, ea as int));
                assert(sb.subrange(0, (eb - j) as int) =~= b@.subrange(j as int, eb as int));
                assert(sa.subrange((ea - i) as int, sa.len() as int) =~= a@.subrange(ea as int, a.len() as int));
                assert(sb.subrange((eb - j) as int, sb.len() as int) =~= b@.subrange(eb as int, b.len() as int));
            }
            let za = zeros_end(a, i, ea);
            let zb = zeros_end(b, j, eb);
            let o = if ea - za < eb - zb {
                Order3::Less
            } else if ea - za > eb - zb {
                Order3::Greater
            } else {
                lex_range(a, za, ea, b, zb, eb)
            };
            assert(o == number_order(a@.subrange(i as int, ea as int), b@.subrange(j as int, eb as int)));
            if o != Order3::Equal {
                return o;
            }
            i = ea;
            j = eb;
        } else {
            let x = ascii_lower_char(ac);
            let y = ascii_lower_char(bc);
            if x < y {
                return Order3::Less;
            }
            if x > y {
                return Order3::Greater;
            }
            assert(sa.drop_first() =~= a@.subrange(i + 1, a.len() as int));
            assert(sb.drop_first() =~= b@.subrange(j + 1, b.len() as int));
            i += 1;
            j += 1;
        }
    }
}

/// The `Ordering` that corresponds to an `Order3`.
pub open spec fn ordering_of(o: Order3) -> Ordering {
    match o {
        Order3::Less => Ordering::Less,
        Order3::Equal => Ordering::Equal,
        Order3::Greater => Ordering::Greater,
    }
}

/// Compare names so `_DSC9.jpg` sorts before `_DSC10.jpg`.
pub fn natural_cmp(a: &str, b: &str) -> (r: Ordering)
    ensures
        r == ordering_of(natural_order(a@, b@)),
{
    let x = chars_of(a);
    let y = chars_of(b);
    match natural_order_of(&x, &y) {
        Order3::Less => Ordering::Less,
        Order3::Equal => Ordering::Equal,
        Order3::Greater => Ordering::Greater,
    }
}

// ---------------------------------------------------------------------------
// Laws of the natural order
// ---------------------------------------------------------------------------

proof fn lemma_lex_reflexive(x: Seq<char>)
    ensures
        lex_order(x, x) == Order3::Equal,
    decreases x.len(),
{
    if x.len() > 0 {
        lemma_lex_reflexive(x.drop_first());
    }
}

proof fn lemma_lex_antisymmetric(x: Seq<char>, y: Seq<char>)
    ensures
        lex_order(x, y) == lex_order(y, x).reversed(),
    decreases x.len(),
{
    if x.len() > 0 && y.len() > 0 && x[0] == y[0] {
        lemma_lex_antisymmetric(x.drop_first(), y.drop_first());
    }
}

/// Every name is naturally equal to itself.
pub proof fn lemma_natural_reflexive(a: Seq<char>)
    ensures
        natural_order(a, a) == Order3::Equal,
    decreases a.len(),
{
    if a.len() > 0 {
        if is_digit(a[0]) {
            let la = digit_run(a);
            lemma_digit_run(a);
            lemma_lex_reflexive(strip_zeros(a.subrange(0, la as int)));
            lemma_natural_reflexive(a.subrange(la as int, a.len() as int));
        } else {
            lemma_natural_reflexive(a.drop_first());
        }
    }
}

/// Swapping the two names reverses their natural order.
pub proof fn lemma_natural_antisymmetric(a: Seq<char>, b: Seq<char>)
    ensures
        natural_order(a, b) == natural_order(b, a).reversed(),
    decreases a.len() + b.len(),
{
    if a.len() > 0 && b.len() > 0 {
        if is_digit(a[0]) && is_digit(b[0]) {
            let la = digit_run(a);
            let lb = digit_run(b);
            lemma_digit_run(a);
            lemma_digit_run(b);
            lemma_lex_antisymmetric(strip_zeros(a.subrange(0, la as int)), strip_zeros(b.subrange(0, lb as int)));
            lemma_natural_antisymmetric(a.subrange(la as int, a.len() as int), b.subrange(lb as int, b.len() as int));
        } else {
            lemma_natural_antisymmetric(a.drop_first(), b.drop_first());
        }
    }
}

proof fn lemma_lex_equal(x: Seq<char>, y: Seq<char>)
    requires
        lex_order(x, y) == Order3::Equal,
    ensures
        x == y,
    decreases x.len(),
{
    if x.len() > 0 && y.len() > 0 {
        lemma_lex_equal(x.drop_first(), y.drop_first());
        assert(x =~= seq![x[0]] + x.drop_first());
        assert(y =~= seq![y[0]] + y.drop_first());
    }
}

proof fn lemma_lex_transitive(x: Seq<char>, y: Seq<char>, z: Seq<char>)
    requires
        lex_order(x, y) != Order3::Greater,
        lex_order(y, z) != Order3::Greater,
    ensures
        lex_order(x, z) != Order3::Greater,
    decreases x.len(),
{
    if x.len() > 0 && y.len() > 0 && z.len() > 0 && x[0] == y[0] && y[0] == z[0] {
        lemma_lex_transitive(x.drop_first(), y.drop_first(), z.drop_first());
    }
}

proof fn lemma_number_transitive(x: Seq<char>, y: Seq<char>, z: Seq<char>)
    requires
        number_order(x, y) != Order3::Greater,
        number_order(y, z) != Order3::Greater,
    ensures
        number_order(x, z) != Order3::Greater,
        number_order(x, z) == Order3::Equal ==> number_order(x, y) == Order3::Equal
            && number_order(y, z) == Order3::Equal,
{
    let p = strip_zeros(x);
    let q = strip_zeros(y);
    let r = strip_zeros(z);
    if p.len() == q.len() && q.len() == r.len() {
        lemma_lex_transitive(p, q, r);
        if lex_order(p, r) == Order3::Equal {
            lemma_lex_equal(p, r);
            lemma_lex_antisymmetric(p, q);
            lemma_lex_antisymmetric(q, r);
            if lex_order(p, q) == Order3::Less {
                assert(lex_order(q, r) == lex_order(q, p));
                assert(false);
            }
        }
    }
}

proof fn lemma_lower_digit(c: char)
    ensures
        is_digit(lower_char(c)) == is_digit(c),
        is_digit(c) ==> lower_char(c) == c,
{
}

proof fn lemma_lower_twice(c: char)
    ensures
        lower_char(lower_char(c)) == lower_char(c),
{
}

proof fn lemma_digit_run_lower(s: Seq<char>)
    ensures
        digit_run(lower(s)) == digit_run(s),
    decreases s.len(),
{
    if s.len() > 0 {
        lemma_lower_digit(s[0]);
        assert(lower(s).drop_first() =~= lower(s.drop_first()));
        lemma_digit_run_lower(s.drop_first());
    }
}

/// Case does not matter to the natural order: names compare as their ASCII
/// lower-case forms do.
pub proof fn lemma_natural_ignores_case(a: Seq<char>, b: Seq<char>)
    ensures
        natural_order(a, b) == natural_order(lower(a), lower(b)),
    decreases a.len() + b.len(),
{
    let (la, lb) = (lower(a), lower(b));
    if a.len() > 0 && b.len() > 0 {
        lemma_lower_digit(a[0]);
        lemma_lower_digit(b[0]);
        if is_digit(a[0]) && is_digit(b[0]) {
            let ra = digit_run(a);
            let rb = digit_run(b);
            lemma_digit_run(a);
            lemma_digit_run(b);
            lemma_digit_run_lower(a);
            lemma_digit_run_lower(b);
            assert forall|i: int| 0 <= i < ra implies #[trigger] la[i] == a[i] by {
                lemma_lower_digit(a[i]);
            }
            assert forall|i: int| 0 <= i < rb implies #[trigger] lb[i] == b[i] by {
                lemma_lower_digit(b[i]);
            }
            assert(la.subrange(0, ra as int) =~= a.subrange(0, ra as int));
            assert(lb.subrange(0, rb as int) =~= b.subrange(0, rb as int));
            assert(la.subrange(ra as int, la.len() as int) =~= lower(a.subrange(ra as int, a.len() as int)));
            assert(lb.subrange(rb as int, lb.len() as int) =~= lower(b.subrange(rb as int, b.len() as int)));
            lemma_natural_ignores_case(a.subrange(ra as int, a.len() as int), b.subrange(rb as int, b.len() as int));
        } else {
            lemma_lower_twice(a[0]);
            lemma_lower_twice(b[0]);
            assert(la.drop_first() =~= lower(a.drop_first()));
            assert(lb.drop_first() =~= lower(b.drop_first()));
            lemma_natural_ignores_case(a.drop_first(), b.drop_first());
        }
    }
}

// ---------------------------------------------------------------------------
// Numbers inside names compare by value
// ---------------------------------------------------------------------------

/// The order of two integers.
pub open spec fn order_of(n: int, m: int) -> Order3 {
    if n < m { Order3::Less } else if n > m { Order3::Greater } else { Order3::Equal }
}

proof fn lemma_digit_char(d: nat)
    requires
        d < 10,
    ensures
        digit_char(d) as u32 == 48 + d,
        is_digit(digit_char(d)),
{
}

proof fn lemma_digit_char_order(d: nat, e: nat)
    requires
        d < 10,
        e < 10,
    ensures
        (digit_char(d) < digit_char(e)) == (d < e),
        (digit_char(d) > digit_char(e)) == (d > e),
        (digit_char(d) == digit_char(e)) == (d == e),
{
    lemma_digit_char(d);
    lemma_digit_char(e);
}

pub(crate) proof fn lemma_decimal_digits(n: nat)
    ensures
        decimal(n).len() >= 1,
        forall|i: int| 0 <= i < decimal(n).len() ==> is_digit(#[trigger] decimal(n)[i]),
        n > 0 ==> decimal(n)[0] != '0',
        n == 0 ==> decimal(n) == seq!['0'],
        (decimal(n).len() == 1) == (n < 10),
    decreases n,
{
    if n < 10 {
        lemma_digit_char(n);
    } else {
        lemma_decimal_digits(n / 10);
        lemma_digit_char(n % 10);
        let d = decimal(n / 10);
        assert forall|i: int| 0 <= i < decimal(n).len() implies is_digit(#[trigger] decimal(n)[i]) by {
            if i < d.len() {
                assert(decimal(n)[i] == d[i]);
            }
        }
    }
}

proof fn lemma_decimal_len_order(n: nat, m: nat)
    requires
        decimal(n).len() < decimal(m).len(),
    ensures
        n < m,
    decreases m,
{
    lemma_decimal_digits(n);
    lemma_decimal_digits(m);
    if n >= 10 {
        lemma_decimal_len_order(n / 10, m / 10);
    }
}

proof fn lemma_lex_push(x: Seq<char>, y: Seq<char>, a: char, b: char)
    requires
        x.len() == y.len(),
    ensures
        lex_order(x.push(a), y.push(b)) == (if lex_order(x, y) != Order3::Equal {
            lex_order(x, y)
        } else if a < b {
            Order3::Less
        } else if a > b {
            Order3::Greater
        } else {
            Order3::Equal
        }),
    decreases x.len(),
{
    if x.len() == 0 {
        assert(x.push(a).drop_first() =~= Seq::<char>::empty());
        assert(y.push(b).drop_first() =~= Seq::<char>::empty());
        assert(x.push(a)[0] == a && y.push(b)[0] == b);
        assert(lex_order(Seq::<char>::empty(), Seq::<char>::empty()) == Order3::Equal);
        assert(lex_order(x, y) == Order3::Equal);
    } else {
        assert(x.push(a).drop_first() =~= x.drop_first().push(a));
        assert(y.push(b).drop_first() =~= y.drop_first().push(b));
        assert(x.push(a)[0] == x[0] && y.push(b)[0] == y[0]);
        lemma_lex_push(x.drop_first(), y.drop_first(), a, b);
    }
}

proof fn lemma_decimal_lex(n: nat, m: nat)
    requires
        decimal(n).len() == decimal(m).len(),
    ensures
        lex_order(decimal(n), decimal(m)) == order_of(n as int, m as int),
    decreases n,
{
    lemma_decimal_digits(n);
    lemma_decimal_digits(m);
    if n < 10 {
        assert(m < 10);
        lemma_digit_char_order(n, m);
        assert(decimal(n) == seq![digit_char(n)]);
        assert(decimal(m) == seq![digit_char(m)]);
        assert(decimal(n).drop_first() =~= Seq::<char>::empty());
        assert(decimal(m).drop_first() =~= Seq::<char>::empty());
        assert(lex_order(Seq::<char>::empty(), Seq::<char>::empty()) == Order3::Equal);
    } else {
        assert(m >= 10);
        lemma_decimal_digits(n / 10);
        lemma_decimal_digits(m / 10);
        lemma_decimal_lex(n / 10, m / 10);
        lemma_digit_char_order(n % 10, m % 10);
        lemma_lex_push(decimal(n / 10), decimal(m / 10), digit_char(n % 10), digit_char(m % 10));
        assert(n == 10 * (n / 10) + n % 10);
        assert(m == 10 * (m / 10) + m % 10);
    }
}

proof fn lemma_number_order_decimal(n: nat, m: nat)
    ensures
        number_order(decimal(n), decimal(m)) == order_of(n as int, m as int),
{
    lemma_decimal_digits(n);
    lemma_decimal_digits(m);
    assert(seq!['0'].drop_first() =~= Seq::<char>::empty());
    assert(strip_zeros(Seq::<char>::empty()) == Seq::<char>::empty());
    assert(lex_order(Seq::<char>::empty(), Seq::<char>::empty()) == Order3::Equal);
    if decimal(n).len() < decimal(m).len() {
        lemma_decimal_len_order(n, m);
    } else if decimal(m).len() < decimal(n).len() {
        lemma_decimal_len_order(m, n);
    } else if n > 0 && m > 0 {
        lemma_decimal_lex(n, m);
    }
}

proof fn lemma_digit_run_append(t: Seq<char>, u: Seq<char>)
    requires
        digit_run(t) < t.len(),
    ensures
        digit_run(t + u) == digit_run(t),
    decreases t.len(),
{
    if is_digit(t[0]) {
        assert((t + u).drop_first() =~= t.drop_first() + u);
        lemma_digit_run_append(t.drop_first(), u);
    }
}

proof fn lemma_digit_run_of_number(x: Seq<char>, s: Seq<char>)
    requires
        forall|i: int| 0 <= i < x.len() ==> is_digit(#[trigger] x[i]),
        s.len() == 0 || !is_digit(s[0]),
    ensures
        digit_run(x + s) == x.len(),
    decreases x.len(),
{
    if x.len() > 0 {
        assert((x + s).drop_first() =~= x.drop_first() + s);
        assert forall|i: int| 0 <= i < x.drop_first().len() implies is_digit(#[trigger] x.drop_first()[i]) by {
            assert(x.drop_first()[i] == x[i + 1]);
        }
        lemma_digit_run_of_number(x.drop_first(), s);
    } else {
        assert(x + s =~= s);
    }
}

/// A shared start that does not end inside a number leaves the natural
/// order to what follows it.
proof fn lemma_natural_common_prefix(p: Seq<char>, u: Seq<char>, v: Seq<char>)
    requires
        p.len() == 0 || !is_digit(p.last()),
    ensures
        natural_order(p + u, p + v) == natural_order(u, v),
    decreases p.len(),
{
    if p.len() == 0 {
        assert(p + u =~= u);
        assert(p + v =~= v);
    } else if !is_digit(p[0]) {
        assert((p + u).drop_first() =~= p.drop_first() + u);
        assert((p + v).drop_first() =~= p.drop_first() + v);
        assert((p + u)[0] == p[0] && (p + v)[0] == p[0]);
        if p.drop_first().len() > 0 {
            assert(p.drop_first().last() == p.last());
        }
        lemma_natural_common_prefix(p.drop_first(), u, v);
    } else {
        let r = digit_run(p);
        lemma_digit_run(p);
        assert(r < p.len());
        lemma_digit_run_append(p, u);
        lemma_digit_run_append(p, v);
        let a = p + u;
        let b = p + v;
        assert(a.subrange(0, r as int) =~= p.subrange(0, r as int));
        assert(b.subrange(0, r as int) =~= p.subrange(0, r as int));
        lemma_lex_reflexive(strip_zeros(p.subrange(0, r as int)));
        let q = p.subrange(r as int, p.len() as int);
        assert(a.subrange(r as int, a.len() as int) =~= q + u);
        assert(b.subrange(r as int, b.len() as int) =~= q + v);
        assert(q.last() == p.last());
        lemma_natural_common_prefix(q, u, v);
    }
}

/// Names that differ only in one number compare as the numbers do: with a
/// start `p` that does not end in a digit and a rest `s` that does not
/// start with one, `p{n}s` and `p{m}s` are ordered as `n` and `m`.
pub proof fn lemma_numbers_compare_by_value(p: Seq<char>, s: Seq<char>, n: nat, m: nat)
    requires
        p.len() == 0 || !is_digit(p.last()),
        s.len() == 0 || !is_digit(s[0]),
    ensures
        natural_order(p + decimal(n) + s, p + decimal(m) + s) == order_of(n as int, m as int),
{
    let (x, y) = (decimal(n), decimal(m));
    lemma_decimal_digits(n);
    lemma_decimal_digits(m);
    assert(p + x + s =~= p + (x + s));
    assert(p + y + s =~= p + (y + s));
    lemma_natural_common_prefix(p, x + s, y + s);
    lemma_digit_run_of_number(x, s);
    lemma_digit_run_of_number(y, s);
    assert((x + s).subrange(0, x.len() as int) =~= x);
    assert((y + s).subrange(0, y.len() as int) =~= y);
    assert((x + s).subrange(x.len() as int, (x + s).len() as int) =~= s);
    assert((y + s).subrange(y.len() as int, (y + s).len() as int) =~= s);
    assert((x + s)[0] == x[0] && (y + s)[0] == y[0]);
    lemma_natural_reflexive(s);
    lemma_number_order_decimal(n, m);
}

/// The natural order is transitive: together with reflexivity and
/// antisymmetry it is a total preorder, so sorting by it is well defined.
pub proof fn lemma_natural_transitive(a: Seq<char>, b: Seq<char>, c: Seq<char>)
    requires
        natural_order(a, b) != Order3::Greater,
        natural_order(b, c) != Order3::Greater,
    ensures
        natural_order(a, c) != Order3::Greater,
    decreases a.len() + b.len() + c.len(),
{
    if a.len() > 0 && b.len() > 0 && c.len() > 0 {
        lemma_digit_run(a);
        lemma_digit_run(b);
        lemma_digit_run(c);
        lemma_lower_digit(a[0]);
        lemma_lower_digit(b[0]);
        lemma_lower_digit(c[0]);
        let da = is_digit(a[0]);
        let db = is_digit(b[0]);
        let dc = is_digit(c[0]);
        if da && db && dc {
            let ra = a.subrange(0, digit_run(a) as int);
            let rb = b.subrange(0, digit_run(b) as int);
            let rc = c.subrange(0, digit_run(c) as int);
            let ta = a.subrange(digit_run(a) as int, a.len() as int);
            let tb = b.subrange(digit_run(b) as int, b.len() as int);
            let tc = c.subrange(digit_run(c) as int, c.len() as int);
            lemma_number_transitive(ra, rb, rc);
            if number_order(ra, rc) == Order3::Equal {
                lemma_natural_transitive(ta, tb, tc);
            }
        } else if !da && !db && !dc {
            let x = lower_char(a[0]);
            let y = lower_char(b[0]);
            let z = lower_char(c[0]);
            if x == y && y == z {
                lemma_natural_transitive(a.drop_first(), b.drop_first(), c.drop_first());
            }
        }
    }
}


// ---------------------------------------------------------------------------
// Frames by name
// ---------------------------------------------------------------------------

/// Whether `a`'s name comes naturally after `b`'s.
pub fn name_after(a: &Frame, b: &Frame) -> (r: bool)
    ensures
        r == (natural_order(a.id@, b.id@) == Order3::Greater),
{
    let x = chars_of(a.id.as_str());
    let y = chars_of(b.id.as_str());
    match natural_order_of(&x, &y) {
        Order3::Greater => true,
        _ => false,
    }
}

} // verus!
