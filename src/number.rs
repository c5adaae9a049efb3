use vstd::prelude::*;

verus! {

pub open spec fn pow10(n: nat) -> nat
    decreases n,
{
    if n == 0 {
        1
    } else {
        10 * pow10((n - 1) as nat)
    }
}

pub open spec fn digit_char(d: nat) -> char {
    seq!['0', '1', '2', '3', '4', '5', '6', '7', '8', '9'][d as int]
}

/// The decimal digits of `n`, without leading zeros.
pub open spec fn nat_text(n: nat) -> Seq<char>
    decreases n,
{
    if n < 10 {
        seq![digit_char(n)]
    } else {
        nat_text(n / 10).push(digit_char(n % 10))
    }
}

/// The last `w` decimal digits of `n`, with leading zeros.
pub open spec fn padded_text(n: nat, w: nat) -> Seq<char>
    decreases w,
{
    if w == 0 {
        seq![]
    } else {
        padded_text(n / 10, (w - 1) as nat).push(digit_char(n % 10))
    }
}

/// The same value with the trailing zeros after the point taken off.
pub open spec fn normalize(m: nat, s: nat) -> (nat, nat)
    decreases s,
{
    if s > 0 && m % 10 == 0 {
        normalize(m / 10, (s - 1) as nat)
    } else {
        (m, s)
    }
}

/// The shortest text of the value `m / 10^s`: no exponent, and a point only where a
/// fraction remains.
pub open spec fn decimal_text(m: nat, s: nat) -> Seq<char> {
    let (n, k) = normalize(m, s);
    if k == 0 {
        nat_text(n)
    } else {
        nat_text(n / pow10(k)) + seq!['.'] + padded_text(n % pow10(k), k)
    }
}

/// The sum of `a.0 / 10^a.1` and `b.0 / 10^b.1`, at the larger of the two scales.
pub open spec fn decimal_add(a: (nat, nat), b: (nat, nat)) -> (nat, nat) {
    let s = if a.1 >= b.1 { a.1 } else { b.1 };
    (a.0 * pow10((s - a.1) as nat) + b.0 * pow10((s - b.1) as nat), s)
}

pub open spec fn ascii_digit_value(c: char) -> nat {
    ((c as u32) - ('0' as u32)) as nat
}

pub open spec fn is_ascii_digit(c: char) -> bool {
    '0' <= c && c <= '9'
}

/// The value of little-endian decimal digits: the first digit is the least significant.
pub open spec fn digits_value(d: Seq<u8>) -> nat
    decreases d.len(),
{
    if d.len() == 0 {
        0
    } else {
        d[0] as nat + 10 * digits_value(d.drop_first())
    }
}

pub open spec fn digits_ok(d: Seq<u8>) -> bool {
    forall|i: int| 0 <= i < d.len() ==> #[trigger] d[i] < 10
}

/// Little-endian digits written out, the most significant first.
pub open spec fn digits_text(d: Seq<u8>) -> Seq<char>
    decreases d.len(),
{
    if d.len() == 0 {
        seq![]
    } else {
        digits_text(d.drop_first()).push(digit_char(d[0] as nat))
    }
}

/// Whether every character of a literal is an ASCII digit or a point.
pub open spec fn literal_chars_ok(t: Seq<char>) -> bool
    decreases t.len(),
{
    t.len() == 0 || ((is_ascii_digit(t[0]) || t[0] == '.') && literal_chars_ok(t.drop_first()))
}

pub open spec fn count_points(t: Seq<char>) -> nat
    decreases t.len(),
{
    if t.len() == 0 {
        0
    } else {
        (if t[0] == '.' { 1nat } else { 0nat }) + count_points(t.drop_first())
    }
}

/// How many characters follow the first point, and 0 where there is none.
pub open spec fn fraction_len(t: Seq<char>) -> nat
    decreases t.len(),
{
    if t.len() == 0 {
        0
    } else if t[0] == '.' {
        (t.len() - 1) as nat
    } else {
        fraction_len(t.drop_first())
    }
}

/// The digits of a literal, points left out, as little-endian digits.
pub open spec fn literal_digits(t: Seq<char>) -> Seq<u8>
    decreases t.len(),
{
    if t.len() == 0 {
        seq![]
    } else if is_ascii_digit(t[0]) {
        literal_digits(t.drop_first()).push(ascii_digit_value(t[0]) as u8)
    } else {
        literal_digits(t.drop_first())
    }
}

/// A number literal: it starts with an ASCII digit and holds only ASCII digits and at
/// most one point.
pub open spec fn is_literal(t: Seq<char>) -> bool {
    t.len() > 0 && is_ascii_digit(t[0]) && literal_chars_ok(t) && count_points(t) <= 1
}

/// The value of a number literal as mantissa and scale, `None` where it is no literal.
pub open spec fn literal_value(t: Seq<char>) -> Option<(nat, nat)> {
    if is_literal(t) {
        Some((digits_value(literal_digits(t)), fraction_len(t)))
    } else {
        None
    }
}

proof fn lemma_pow10_pos(n: nat)
    ensures
        pow10(n) >= 1,
    decreases n,
{
    if n > 0 {
        lemma_pow10_pos((n - 1) as nat);
    }
}

/// The value of `a + b` is that of `a` plus that of `b` shifted past `a`.
proof fn lemma_value_append(a: Seq<u8>, b: Seq<u8>)
    ensures
        digits_value(a + b) == digits_value(a) + pow10(a.len()) * digits_value(b),
    decreases a.len(),
{
    if a.len() == 0 {
        assert(a + b =~= b);
        assert(pow10(0) == 1);
    } else {
        lemma_value_append(a.drop_first(), b);
        assert((a + b).drop_first() =~= a.drop_first() + b);
        assert((a + b)[0] == a[0]);
        assert(pow10(a.len()) == 10 * pow10((a.len() - 1) as nat));
        let x = digits_value(a.drop_first());
        let p = pow10((a.len() - 1) as nat);
        let y = digits_value(b);
        assert(10 * (x + p * y) == 10 * x + (10 * p) * y) by (nonlinear_arith);
    }
}

proof fn lemma_value_single(x: u8)
    ensures
        digits_value(seq![x]) == x as nat,
{
    reveal_with_fuel(digits_value, 2);
    assert(seq![x].drop_first() =~= seq![]);
}

proof fn lemma_value_bound(d: Seq<u8>)
    requires
        digits_ok(d),
    ensures
        digits_value(d) < pow10(d.len()),
    decreases d.len(),
{
    if d.len() > 0 {
        lemma_value_bound(d.drop_first());
        let x = digits_value(d.drop_first());
        let p = pow10((d.len() - 1) as nat);
        assert(d[0] < 10);
        assert(d[0] as nat + 10 * x < 10 * p) by (nonlinear_arith)
            requires
                x < p,
                d[0] < 10,
        ;
    }
}

proof fn lemma_value_zeros(d: Seq<u8>)
    requires
        forall|i: int| 0 <= i < d.len() ==> #[trigger] d[i] == 0,
    ensures
        digits_value(d) == 0,
    decreases d.len(),
{
    if d.len() > 0 {
        lemma_value_zeros(d.drop_first());
    }
}

proof fn lemma_value_positive(d: Seq<u8>)
    requires
        d.len() > 0,
        d.last() != 0,
    ensures
        digits_value(d) >= 1,
    decreases d.len(),
{
    if d.len() > 1 {
        lemma_value_positive(d.drop_first());
    }
}

/// Digits with no zero on top read as the shortest text of their value.
proof fn lemma_nat_text(d: Seq<u8>)
    requires
        digits_ok(d),
        d.len() > 0,
        d.len() == 1 || d.last() != 0,
    ensures
        nat_text(digits_value(d)) == digits_text(d),
    decreases d.len(),
{
    let n = digits_value(d);
    let x = digits_value(d.drop_first());
    assert(d[0] < 10);
    if d.len() == 1 {
        assert(digits_text(d.drop_first()) =~= seq![]);
        assert(digits_text(d) =~= seq![digit_char(d[0] as nat)]);
    } else {
        lemma_value_positive(d.drop_first());
        lemma_nat_text(d.drop_first());
        assert(n / 10 == x && n % 10 == d[0]) by {
            vstd::arithmetic::div_mod::lemma_fundamental_div_mod_converse(
                n as int,
                10,
                x as int,
                d[0] as int,
            );
        }
    }
}

/// `w` digits read as the last `w` digits of their value.
proof fn lemma_padded_text(d: Seq<u8>)
    requires
        digits_ok(d),
    ensures
        padded_text(digits_value(d), d.len()) == digits_text(d),
    decreases d.len(),
{
    if d.len() > 0 {
        let n = digits_value(d);
        let x = digits_value(d.drop_first());
        assert(d[0] < 10);
        lemma_padded_text(d.drop_first());
        assert(n / 10 == x && n % 10 == d[0]) by {
            vstd::arithmetic::div_mod::lemma_fundamental_div_mod_converse(
                n as int,
                10,
                x as int,
                d[0] as int,
            );
        }
    }
}

/// A non-negative decimal number of any size: `mantissa / 10^scale`, the mantissa held
/// as little-endian decimal digits. Arithmetic on it is exact, so `0.1 + 0.2` is `0.3`.
#[derive(Debug, PartialEq, Eq)]
pub struct Number {
    digits: Vec<u8>,
    scale: usize,
}

impl View for Number {
    type V = (nat, nat);

    closed spec fn view(&self) -> (nat, nat) {
        (digits_value(self.digits@), self.scale as nat)
    }
}

fn digit(d: u8) -> (r: char)
    requires
        d < 10,
    ensures
        r == digit_char(d as nat),
{
    match d {
        0 => '0',
        1 => '1',
        2 => '2',
        3 => '3',
        4 => '4',
        5 => '5',
        6 => '6',
        7 => '7',
        8 => '8',
        _ => '9',
    }
}

fn copy_digits(d: &Vec<u8>, lo: usize, hi: usize) -> (r: Vec<u8>)
    requires
        lo <= hi <= d.len(),
    ensures
        r@ == d@.subrange(lo as int, hi as int),
{
    let mut r: Vec<u8> = Vec::new();
    let mut i = lo;
    while i < hi
        invariant
            lo <= i <= hi <= d.len(),
            r@ == d@.subrange(lo as int, i as int),
        decreases hi - i,
    {
        r.push(d[i]);
        i = i + 1;
        assert(r@ =~= d@.subrange(lo as int, i as int));
    }
    r
}

/// Writes `d[lo..hi]`, the most significant digit first.
fn push_digits(out: &mut String, d: &Vec<u8>, lo: usize, hi: usize)
    requires
        lo <= hi <= d.len(),
        digits_ok(d@),
    ensures
        final(out)@ == old(out)@ + digits_text(d@.subrange(lo as int, hi as int)),
{
    let mut j = hi;
    while j > lo
        invariant
            lo <= j <= hi <= d.len(),
            digits_ok(d@),
            out@ == old(out)@ + digits_text(d@.subrange(j as int, hi as int)),
        decreases j - lo,
    {
        j = j - 1;
        assert(d@.subrange(j as int, hi as int).drop_first() =~= d@.subrange(j + 1, hi as int));
        crate::chars::push_char(out, digit(d[j]));
        assert(out@ =~= old(out)@ + digits_text(d@.subrange(j as int, hi as int)));
    }
}

/// The digits of `d` shifted up by `k` places: `k` zeros put below them.
fn shifted(d: &Vec<u8>, k: usize) -> (r: Vec<u8>)
    requires
        digits_ok(d@),
    ensures
        digits_ok(r@),
        digits_value(r@) == digits_value(d@) * pow10(k as nat),
{
    let mut r: Vec<u8> = Vec::new();
    let mut i: usize = 0;
    while i < k
        invariant
            i <= k,
            r@.len() == i,
            forall|j: int| 0 <= j < i ==> #[trigger] r@[j] == 0,
        decreases k - i,
    {
        r.push(0);
        i = i + 1;
    }
    let ghost zeros = r@;
    let mut j: usize = 0;
    while j < d.len()
        invariant
            j <= d.len(),
            r@ == zeros + d@.subrange(0, j as int),
            zeros.len() == k,
        decreases d.len() - j,
    {
        r.push(d[j]);
        j = j + 1;
        assert(r@ =~= zeros + d@.subrange(0, j as int));
    }
    proof {
        assert(d@.subrange(0, d.len() as int) =~= d@);
        lemma_value_append(zeros, d@);
        lemma_value_zeros(zeros);
    }
    r
}

/// The digit of `d` at place `i`, zero above its top.
fn digit_at(d: &Vec<u8>, i: usize) -> (r: u8)
    requires
        digits_ok(d@),
    ensures
        r < 10,
        i < d.len() ==> r == d@[i as int],
        i >= d.len() ==> r == 0,
{
    if i < d.len() {
        d[i]
    } else {
        0
    }
}

/// The digits of `d` extended with zeros on top to length `n`.
spec fn widened(d: Seq<u8>, n: nat) -> Seq<u8> {
    Seq::new(n, |i: int| if i < d.len() { d[i] } else { 0u8 })
}

proof fn lemma_widened_value(d: Seq<u8>, n: nat)
    requires
        d.len() <= n,
    ensures
        digits_value(widened(d, n)) == digits_value(d),
{
    let w = widened(d, n);
    let z = w.subrange(d.len() as int, n as int);
    assert(w =~= d + z);
    lemma_value_append(d, z);
    lemma_value_zeros(z);
}

/// The sum of two little-endian digit sequences.
fn add_digits(a: &Vec<u8>, b: &Vec<u8>) -> (r: Vec<u8>)
    requires
        digits_ok(a@),
        digits_ok(b@),
    ensures
        digits_ok(r@),
        digits_value(r@) == digits_value(a@) + digits_value(b@),
{
    let n = if a.len() >= b.len() { a.len() } else { b.len() };
    let ghost wa = widened(a@, n as nat);
    let ghost wb = widened(b@, n as nat);
    let mut r: Vec<u8> = Vec::new();
    let mut carry: u8 = 0;
    let mut i: usize = 0;
    while i < n
        invariant
            i <= n,
            n >= a.len() && n >= b.len(),
            wa == widened(a@, n as nat),
            wb == widened(b@, n as nat),
            digits_ok(a@),
            digits_ok(b@),
            digits_ok(r@),
            r@.len() == i,
            carry <= 1,
            digits_value(wa.subrange(0, i as int)) + digits_value(wb.subrange(0, i as int))
                == digits_value(r@) + carry as nat * pow10(i as nat),
        decreases n - i,
    {
        let x = digit_at(a, i);
        let y = digit_at(b, i);
        let sum = x + y + carry;
        let ghost before = r@;
        let ghost old_carry = carry;
        r.push(sum % 10);
        carry = sum / 10;
        proof {
            let p = pow10(i as nat);
            assert(wa[i as int] == x && wb[i as int] == y);
            assert(wa.subrange(0, i + 1) =~= wa.subrange(0, i as int) + seq![x]);
            assert(wb.subrange(0, i + 1) =~= wb.subrange(0, i as int) + seq![y]);
            lemma_value_append(wa.subrange(0, i as int), seq![x]);
            lemma_value_append(wb.subrange(0, i as int), seq![y]);
            lemma_value_append(before, seq![(sum % 10) as u8]);
            lemma_value_single(x);
            lemma_value_single(y);
            lemma_value_single((sum % 10) as u8);
            assert(pow10((i + 1) as nat) == 10 * p);
            assert(r@ =~= before + seq![(sum % 10) as u8]);
            assert(p * (x as nat) + p * (y as nat) + (old_carry as nat) * p == p * ((sum % 10) as nat)
                + (carry as nat) * (10 * p)) by (nonlinear_arith)
                requires
                    sum as nat == x as nat + y as nat + old_carry as nat,
                    carry as nat == sum as nat / 10,
            ;
        }
        i = i + 1;
    }
    if carry > 0 {
        let ghost before = r@;
        r.push(carry);
        proof {
            lemma_value_append(before, seq![carry]);
            lemma_value_single(carry);
            assert(r@ =~= before + seq![carry]);
            assert(digits_value(r@) == digits_value(before) + pow10(n as nat) * (carry as nat));
        }
    } else {
        let ghost p = pow10(n as nat);
        assert((carry as nat) * p == 0) by (nonlinear_arith)
            requires
                carry == 0,
        ;
    }
    proof {
        assert(wa.subrange(0, n as int) =~= wa);
        assert(wb.subrange(0, n as int) =~= wb);
        lemma_widened_value(a@, n as nat);
        lemma_widened_value(b@, n as nat);
    }
    r
}

impl Number {
    pub closed spec fn wf(&self) -> bool {
        digits_ok(self.digits@)
    }

    /// The number `mantissa / 10^scale`.
    pub fn new(mantissa: u128, scale: usize) -> (r: Number)
        ensures
            r.wf(),
            r@ == (mantissa as nat, scale as nat),
    {
        let mut digits: Vec<u8> = Vec::new();
        let mut m = mantissa;
        assert(pow10(0) == 1);
        assert(digits_value(digits@) == 0);
        while m > 0
            invariant
                digits_ok(digits@),
                digits_value(digits@) + pow10(digits@.len()) * (m as nat) == mantissa as nat,
            decreases m,
        {
            let ghost before = digits@;
            let d = (m % 10) as u8;
            digits.push(d);
            proof {
                lemma_value_append(before, seq![d]);
                lemma_value_single(d);
                assert(digits@ =~= before + seq![d]);
                assert(pow10((before.len() + 1) as nat) == 10 * pow10(before.len()));
                let p = pow10(before.len());
                let mm = m as nat;
                assert(p * mm == p * (d as nat) + (10 * p) * (mm / 10)) by (nonlinear_arith)
                    requires
                        d as nat == mm % 10,
                ;
            }
            m = m / 10;
        }
        Number { digits, scale }
    }

    pub fn zero() -> (r: Number)
        ensures
            r.wf(),
            r@ == (0nat, 0nat),
    {
        Number { digits: Vec::new(), scale: 0 }
    }

    /// A copy of the number.
    pub fn duplicate(&self) -> (r: Number)
        requires
            self.wf(),
        ensures
            r.wf(),
            r@ == self@,
    {
        let digits = copy_digits(&self.digits, 0, self.digits.len());
        assert(digits@ =~= self.digits@);
        Number { digits, scale: self.scale }
    }

    /// The text of the number, as short as its value allows.
    #[verifier::rlimit(100)]
    pub fn value(&self) -> (r: String)
        requires
            self.wf(),
        ensures
            r@ == decimal_text(self@.0, self@.1),
    {
        let d = &self.digits;
        let n = d.len();
        // Take trailing zeros after the point off: skip low digits that are zero.
        let mut lo: usize = 0;
        let mut k = self.scale;
        assert(d@.subrange(0, n as int) =~= d@);
        while k > 0 && (lo >= n || d[lo] == 0)
            invariant
                lo <= n == d.len(),
                digits_ok(d@),
                normalize(digits_value(d@.subrange(lo as int, n as int)), k as nat) == normalize(
                    self@.0,
                    self@.1,
                ),
            decreases k,
        {
            proof {
                let t = d@.subrange(lo as int, n as int);
                if lo < n {
                    assert(t.drop_first() =~= d@.subrange(lo + 1, n as int));
                    let x = digits_value(t.drop_first());
                    assert(digits_value(t) / 10 == x && digits_value(t) % 10 == 0) by {
                        vstd::arithmetic::div_mod::lemma_fundamental_div_mod_converse(
                            digits_value(t) as int,
                            10,
                            x as int,
                            0,
                        );
                    }
                } else {
                    assert(t.len() == 0);
                }
            }
            if lo < n {
                lo = lo + 1;
            }
            k = k - 1;
        }
        // Working digits: the rest, with zeros on top until there is a digit before the point.
        let mut w = copy_digits(d, lo, n);
        let ghost v = digits_value(w@);
        while w.len() <= k
            invariant
                digits_ok(w@),
                digits_value(w@) == v,
            decreases k + 1 - w.len(),
        {
            let ghost before = w@;
            w.push(0);
            proof {
                assert(w@ =~= before + seq![0u8]);
                lemma_value_append(before, seq![0u8]);
                lemma_value_single(0u8);
            }
        }
        let len = w.len();
        // The integer part without zeros on top.
        let mut top = len;
        while top > k + 1 && w[top - 1] == 0
            invariant
                k + 1 <= top <= len == w.len(),
                digits_ok(w@),
                digits_value(w@.subrange(k as int, top as int)) == digits_value(
                    w@.subrange(k as int, len as int),
                ),
            decreases top,
        {
            proof {
                let a = w@.subrange(k as int, top - 1);
                assert(w@.subrange(k as int, top as int) =~= a + seq![0u8]);
                lemma_value_append(a, seq![0u8]);
                lemma_value_single(0u8);
            }
            top = top - 1;
        }
        let mut out = String::new();
        push_digits(&mut out, &w, k, top);
        if k > 0 {
            crate::chars::push_char(&mut out, '.');
            push_digits(&mut out, &w, 0, k);
        }
        proof {
            let low = w@.subrange(0, k as int);
            let high = w@.subrange(k as int, len as int);
            let th = w@.subrange(k as int, top as int);
            assert(w@ =~= low + high);
            lemma_value_append(low, high);
            lemma_value_bound(low);
            lemma_pow10_pos(k as nat);
            assert(digits_ok(th));
            assert(th.len() == 1 || th.last() != 0);
            lemma_nat_text(th);
            lemma_padded_text(low);
            vstd::arithmetic::div_mod::lemma_fundamental_div_mod_converse(
                v as int,
                pow10(k as nat) as int,
                digits_value(high) as int,
                digits_value(low) as int,
            );
            assert(v == digits_value(d@.subrange(lo as int, n as int)));
            if k == 0 {
                assert(high =~= w@);
                assert(out@ =~= decimal_text(self@.0, self@.1));
            } else {
                assert(out@ =~= decimal_text(self@.0, self@.1));
            }
        }
        out
    }

    /// The exact sum of two numbers, at the larger of the two scales.
    pub fn add(&self, other: &Number) -> (r: Number)
        requires
            self.wf(),
            other.wf(),
        ensures
            r.wf(),
            r@ == decimal_add(self@, other@),
    {
        let s = if self.scale >= other.scale { self.scale } else { other.scale };
        let a = shifted(&self.digits, s - self.scale);
        let b = shifted(&other.digits, s - other.scale);
        Number { digits: add_digits(&a, &b), scale: s }
    }

    /// Reads a number literal; `None` where it is not one.
    pub fn from_literal(text: &str) -> (r: Option<Number>)
        ensures
            r is Some <==> literal_value(text@) is Some,
            r matches Some(x) ==> x.wf() && x@ == literal_value(text@)->0,
    {
        let n = text.unicode_len();
        let ghost t = text@;
        let mut digits: Vec<u8> = Vec::new();
        let mut chars_ok = true;
        let mut points: usize = 0;
        let mut scale: usize = 0;
        let mut i = n;
        while i > 0
            invariant
                n == t.len(),
                t == text@,
                i <= n,
                digits_ok(digits@),
                digits@ == literal_digits(t.subrange(i as int, n as int)),
                chars_ok == literal_chars_ok(t.subrange(i as int, n as int)),
                points as nat == count_points(t.subrange(i as int, n as int)),
                points <= n - i,
                fraction_len(t.subrange(i as int, n as int)) == if points > 0 {
                    scale as nat
                } else {
                    0
                },
            decreases i,
        {
            i = i - 1;
            let c = text.get_char(i);
            let ghost u = t.subrange(i as int, n as int);
            assert(u.drop_first() =~= t.subrange(i + 1, n as int));
            if '0' <= c && c <= '9' {
                digits.push((c as u32 - '0' as u32) as u8);
            } else if c == '.' {
                points = points + 1;
                scale = n - 1 - i;
            } else {
                chars_ok = false;
            }
        }
        assert(t.subrange(0, n as int) =~= t);
        if n > 0 && chars_ok && points <= 1 {
            let first = text.get_char(0);
            if '0' <= first && first <= '9' {
                return Some(Number { digits, scale: if points > 0 { scale } else { 0 } });
            }
        }
        None
    }
}

} // verus!
