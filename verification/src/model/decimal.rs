//! Fractional numbers as they are written in queries: a sign, the digits
//! before the point and the digits after it.
use vstd::prelude::*;
use crate::text::{is_digit, all_digits, push_char};

verus! {

/// Drops the zeros at the front of a digit string.
pub open spec fn strip_leading_zeros(s: Seq<char>) -> Seq<char>
    decreases s.len(),
{
    if s.len() > 0 && s[0] == '0' {
        strip_leading_zeros(s.drop_first())
    } else {
        s
    }
}

/// Drops the zeros at the end of a digit string.
pub open spec fn strip_trailing_zeros(s: Seq<char>) -> Seq<char>
    decreases s.len(),
{
    if s.len() > 0 && s.last() == '0' {
        strip_trailing_zeros(s.drop_last())
    } else {
        s
    }
}

/// The model of a fractional number: sign, integer digits without leading zeros,
/// fraction digits without trailing zeros.
pub struct DecimalView {
    pub negative: bool,
    pub int_digits: Seq<char>,
    pub frac_digits: Seq<char>,
}

/// The text without its leading minus sign.
pub open spec fn unsigned_part(t: Seq<char>) -> Seq<char> {
    if t.len() > 0 && t[0] == '-' {
        t.drop_first()
    } else {
        t
    }
}

/// `d` is where the point stands in `body`, with digits on both sides.
pub open spec fn point_at(body: Seq<char>, d: int) -> bool {
    &&& 0 < d < body.len() - 1
    &&& body[d] == '.'
    &&& all_digits(body.take(d))
    &&& all_digits(body.skip(d + 1))
}

/// `t` is a fractional literal: an optional `-`, digits, `.`, digits.
pub open spec fn is_float_literal(t: Seq<char>) -> bool {
    exists|d: int| point_at(unsigned_part(t), d)
}

/// The number written by a fractional literal.
pub open spec fn literal_decimal(t: Seq<char>) -> DecimalView {
    let body = unsigned_part(t);
    let d = choose|d: int| point_at(body, d);
    DecimalView {
        negative: t.len() > 0 && t[0] == '-',
        int_digits: strip_leading_zeros(body.take(d)),
        frac_digits: strip_trailing_zeros(body.skip(d + 1)),
    }
}

/// Text of the number as Rust's `Display` writes a float: no trailing zeros, no point
/// when the number is whole.
pub open spec fn decimal_text(d: DecimalView) -> Seq<char> {
    (if d.negative { seq!['-'] } else { Seq::empty() }) + (if d.int_digits.len() == 0 {
        seq!['0']
    } else {
        d.int_digits
    }) + (if d.frac_digits.len() == 0 { Seq::empty() } else { seq!['.'] + d.frac_digits })
}

/// Text of the number as a query writes it back: a whole number keeps `.0`.
pub open spec fn decimal_query_text(d: DecimalView) -> Seq<char> {
    if d.frac_digits.len() == 0 {
        decimal_text(d) + seq!['.', '0']
    } else {
        decimal_text(d)
    }
}

/// Lexicographic comparison of character strings: -1, 0 or 1.
pub open spec fn chars_order(a: Seq<char>, b: Seq<char>) -> int
    decreases a.len(),
{
    if a.len() == 0 {
        if b.len() == 0 {
            0
        } else {
            -1
        }
    } else if b.len() == 0 {
        1
    } else if a[0] < b[0] {
        -1
    } else if b[0] < a[0] {
        1
    } else {
        chars_order(a.drop_first(), b.drop_first())
    }
}

/// Comparison of the sizes of two numbers, ignoring signs: -1, 0 or 1.
pub open spec fn magnitude_order(a: DecimalView, b: DecimalView) -> int {
    if a.int_digits.len() < b.int_digits.len() {
        -1
    } else if b.int_digits.len() < a.int_digits.len() {
        1
    } else if chars_order(a.int_digits, b.int_digits) != 0 {
        chars_order(a.int_digits, b.int_digits)
    } else {
        chars_order(a.frac_digits, b.frac_digits)
    }
}

pub open spec fn is_zero(a: DecimalView) -> bool {
    a.int_digits.len() == 0 && a.frac_digits.len() == 0
}

/// -1, 0 or 1 as the number is below, at or above zero.
pub open spec fn decimal_sign(a: DecimalView) -> int {
    if is_zero(a) {
        0
    } else if a.negative {
        -1
    } else {
        1
    }
}

/// Numeric comparison of two numbers: -1, 0 or 1.
pub open spec fn decimal_order(a: DecimalView, b: DecimalView) -> int {
    let sa = decimal_sign(a);
    let sb = decimal_sign(b);
    if sa < sb {
        -1
    } else if sb < sa {
        1
    } else if sa == 0 {
        0
    } else if sa > 0 {
        magnitude_order(a, b)
    } else {
        -magnitude_order(a, b)
    }
}

/// A fractional number, held exactly as decimal digits.
#[derive(Debug, Clone, PartialEq)]
pub struct Decimal {
    negative: bool,
    int_digits: Vec<char>,
    frac_digits: Vec<char>,
}

impl View for Decimal {
    type V = DecimalView;

    closed spec fn view(&self) -> DecimalView {
        DecimalView {
            negative: self.negative,
            int_digits: self.int_digits@,
            frac_digits: self.frac_digits@,
        }
    }
}

fn copy_chars(v: &Vec<char>) -> (r: Vec<char>)
    ensures
        r@ == v@,
{
    let mut r: Vec<char> = Vec::new();
    let mut i: usize = 0;
    while i < v.len()
        invariant
            i <= v@.len(),
            r@ == v@.take(i as int),
        decreases v@.len() - i,
    {
        r.push(v[i]);
        i = i + 1;
        assert(r@ =~= v@.take(i as int));
    }
    assert(v@.take(v@.len() as int) =~= v@);
    r
}

fn chars_compare(a: &Vec<char>, b: &Vec<char>) -> (r: i8)
    ensures
        r as int == chars_order(a@, b@),
        -1 <= r <= 1,
{
    let mut i: usize = 0;
    assert(a@.skip(0) =~= a@);
    assert(b@.skip(0) =~= b@);
    while i < a.len() && i < b.len() && a[i] == b[i]
        invariant
            i <= a@.len(),
            i <= b@.len(),
            chars_order(a@, b@) == chars_order(a@.skip(i as int), b@.skip(i as int)),
        decreases a@.len() - i,
    {
        assert(a@.skip(i as int).drop_first() =~= a@.skip(i + 1));
        assert(b@.skip(i as int).drop_first() =~= b@.skip(i + 1));
        i = i + 1;
    }
    proof {
        reveal_with_fuel(chars_order, 2);
    }
    if i == a.len() {
        if i == b.len() {
            0
        } else {
            -1
        }
    } else if i == b.len() {
        1
    } else if a[i] < b[i] {
        -1
    } else {
        1
    }
}

impl Decimal {
    /// Reads a fractional literal from `v[from..to]`.
    pub fn from_chars(v: &Vec<char>, from: usize, to: usize) -> (r: Option<Decimal>)
        requires
            from <= to <= v.len(),
        ensures
            match r {
                Some(d) => is_float_literal(v@.subrange(from as int, to as int)) && d@
                    == literal_decimal(v@.subrange(from as int, to as int)),
                None => !is_float_literal(v@.subrange(from as int, to as int)),
            },
    {
        let ghost t = v@.subrange(from as int, to as int);
        let negative = from < to && v[from] == '-';
        let start = if negative { from + 1 } else { from };
        let ghost body = unsigned_part(t);
        assert(body =~= v@.subrange(start as int, to as int));
        // find the point
        let mut p = start;
        while p < to && v[p] != '.'
            invariant
                start <= p <= to <= v.len(),
                forall|j: int| start <= j < p ==> v@[j] != '.',
            decreases to - p,
        {
            p = p + 1;
        }
        if p == to || p == start || p + 1 == to {
            proof {
                if is_float_literal(t) {
                    let d = choose|d: int| point_at(body, d);
                    assert(body[d] == v@[start + d]);
                    if start + d < p {
                        assert(v@[start + d] != '.');
                    }
                    if p == start {
                        assert(is_digit(body.take(d)[0]));
                        assert(body.take(d)[0] == v@[start as int]);
                    }
                }
            }
            return None;
        }
        // digits on both sides
        let mut i = start;
        while i < to
            invariant
                from <= start <= i <= to <= v.len(),
                start < p,
                p + 1 < to,
                v@[p as int] == '.',
                body == v@.subrange(start as int, to as int),
                body == unsigned_part(t),
                t == v@.subrange(from as int, to as int),
                forall|j: int| start <= j < p ==> v@[j] != '.',
                forall|j: int| start <= j < i && j != p ==> is_digit(v@[j]),
            decreases to - i,
        {
            if i != p && !(v[i] >= '0' && v[i] <= '9') {
                proof {
                    if is_float_literal(t) {
                        let d = choose|d: int| point_at(body, d);
                        assert(body[d] == v@[start + d]);
                        if start + d < p {
                            assert(v@[start + d] != '.');
                        }
                        if start + d > p {
                            assert(body.take(d)[p - start] == v@[p as int]);
                            assert(is_digit(body.take(d)[p - start]));
                        }
                        assert(start + d == p);
                        if i < p {
                            assert(body.take(d)[i - start] == v@[i as int]);
                            assert(is_digit(body.take(d)[i - start]));
                        } else {
                            assert(body.skip(d + 1)[i - p - 1] == v@[i as int]);
                            assert(is_digit(body.skip(d + 1)[i - p - 1]));
                        }
                    }
                }
                return None;
            }
            i = i + 1;
        }
        let ghost d = (p - start) as int;
        assert(point_at(body, d)) by {
            assert forall|j: int| 0 <= j < body.take(d).len() implies #[trigger] is_digit(body.take(d)[j]) by {
                assert(body.take(d)[j] == v@[start + j]);
            }
            assert forall|j: int| 0 <= j < body.skip(d + 1).len() implies #[trigger] is_digit(body.skip(d + 1)[j]) by {
                assert(body.skip(d + 1)[j] == v@[p + 1 + j]);
            }
        }
        proof {
            let d2 = choose|d2: int| point_at(body, d2);
            if d2 != d {
                if d2 < d {
                    assert(body.take(d)[d2] == body[d2]);
                } else {
                    assert(body.take(d2)[d] == body[d]);
                }
            }
        }
        // strip zeros
        let mut a = start;
        while a < p && v[a] == '0'
            invariant
                start <= a <= p,
                p < v.len(),
                strip_leading_zeros(v@.subrange(start as int, p as int))
                    == strip_leading_zeros(v@.subrange(a as int, p as int)),
            decreases p - a,
        {
            assert(v@.subrange(a as int, p as int).drop_first() =~= v@.subrange(a + 1, p as int));
            a = a + 1;
        }
        let mut b = to;
        while b > p + 1 && v[b - 1] == '0'
            invariant
                p + 1 <= b <= to <= v.len(),
                strip_trailing_zeros(v@.subrange(p + 1, to as int))
                    == strip_trailing_zeros(v@.subrange(p + 1, b as int)),
            decreases b,
        {
            assert(v@.subrange(p + 1, b as int).drop_last() =~= v@.subrange(p + 1, b - 1));
            b = b - 1;
        }
        let mut int_digits: Vec<char> = Vec::new();
        let mut k = a;
        while k < p
            invariant
                a <= k <= p < v.len(),
                int_digits@ == v@.subrange(a as int, k as int),
            decreases p - k,
        {
            int_digits.push(v[k]);
            k = k + 1;
            assert(int_digits@ =~= v@.subrange(a as int, k as int));
        }
        let mut frac_digits: Vec<char> = Vec::new();
        let mut k = p + 1;
        while k < b
            invariant
                p + 1 <= k <= b <= v.len(),
                frac_digits@ == v@.subrange(p + 1, k as int),
            decreases b - k,
        {
            frac_digits.push(v[k]);
            k = k + 1;
            assert(frac_digits@ =~= v@.subrange(p + 1, k as int));
        }
        proof {
            assert(body.take(d) =~= v@.subrange(start as int, p as int));
            assert(body.skip(d + 1) =~= v@.subrange(p + 1, to as int));
            if a < p {
                assert(v@.subrange(a as int, p as int)[0] == v@[a as int]);
            }
            if b > p + 1 {
                assert(v@.subrange(p + 1, b as int).last() == v@[b - 1]);
            }
            assert(t.len() > 0 && t[0] == '-' <==> negative);
        }
        Some(Decimal { negative, int_digits, frac_digits })
    }

    /// Reads a fractional literal such as `-12.50`.
    pub fn parse(text: &str) -> (r: Option<Decimal>)
        ensures
            match r {
                Some(d) => is_float_literal(text@) && d@ == literal_decimal(text@),
                None => !is_float_literal(text@),
            },
    {
        let v = crate::text::chars_of(text);
        assert(v@.subrange(0, v@.len() as int) =~= v@);
        Decimal::from_chars(&v, 0, v.len())
    }

    /// An exact copy.
    pub fn copy(&self) -> (r: Decimal)
        ensures
            r@ == self@,
    {
        Decimal {
            negative: self.negative,
            int_digits: copy_chars(&self.int_digits),
            frac_digits: copy_chars(&self.frac_digits),
        }
    }

    /// Text of the number as a float is displayed.
    pub fn to_display(&self) -> (s: String)
        ensures
            s@ == decimal_text(self@),
    {
        let mut s = String::new();
        if self.negative {
            push_char(&mut s, '-');
        }
        if self.int_digits.len() == 0 {
            push_char(&mut s, '0');
        } else {
            let mut i: usize = 0;
            let ghost s0 = s@;
            while i < self.int_digits.len()
                invariant
                    i <= self.int_digits@.len(),
                    s@ == s0 + self.int_digits@.take(i as int),
                decreases self.int_digits@.len() - i,
            {
                push_char(&mut s, self.int_digits[i]);
                i = i + 1;
                assert(s@ =~= s0 + self.int_digits@.take(i as int));
            }
            assert(self.int_digits@.take(i as int) =~= self.int_digits@);
        }
        if self.frac_digits.len() > 0 {
            push_char(&mut s, '.');
            let mut i: usize = 0;
            let ghost s0 = s@;
            while i < self.frac_digits.len()
                invariant
                    i <= self.frac_digits@.len(),
                    s@ == s0 + self.frac_digits@.take(i as int),
                decreases self.frac_digits@.len() - i,
            {
                push_char(&mut s, self.frac_digits[i]);
                i = i + 1;
                assert(s@ =~= s0 + self.frac_digits@.take(i as int));
            }
            assert(self.frac_digits@.take(i as int) =~= self.frac_digits@);
        }
        proof {
            let d = self@;
            let sign = if d.negative { seq!['-'] } else { Seq::<char>::empty() };
            let whole = if d.int_digits.len() == 0 { seq!['0'] } else { d.int_digits };
            let frac = if d.frac_digits.len() == 0 { Seq::<char>::empty() } else { seq!['.'] + d.frac_digits };
            assert(s@ =~= sign + whole + frac);
        }
        s
    }

    /// Text of the number as a query writes it: whole numbers keep `.0`.
    pub fn to_query_text(&self) -> (s: String)
        ensures
            s@ == decimal_query_text(self@),
    {
        let mut s = self.to_display();
        if self.frac_digits.len() == 0 {
            push_char(&mut s, '.');
            push_char(&mut s, '0');
            assert(s@ =~= decimal_text(self@) + seq!['.', '0']);
        }
        s
    }

    /// Numeric comparison: -1, 0 or 1.
    pub fn order_with(&self, other: &Decimal) -> (r: i8)
        ensures
            r as int == decimal_order(self@, other@),
    {
        let sa: i8 = if self.int_digits.len() == 0 && self.frac_digits.len() == 0 {
            0
        } else if self.negative {
            -1
        } else {
            1
        };
        let sb: i8 = if other.int_digits.len() == 0 && other.frac_digits.len() == 0 {
            0
        } else if other.negative {
            -1
        } else {
            1
        };
        if sa < sb {
            return -1;
        }
        if sb < sa {
            return 1;
        }
        if sa == 0 {
            return 0;
        }
        let m: i8 = if self.int_digits.len() < other.int_digits.len() {
            -1
        } else if other.int_digits.len() < self.int_digits.len() {
            1
        } else {
            let c = chars_compare(&self.int_digits, &other.int_digits);
            if c != 0 {
                c
            } else {
                chars_compare(&self.frac_digits, &other.frac_digits)
            }
        };
        if sa > 0 {
            m
        } else {
            -m
        }
    }
}

} // verus!

verus! {

/// `chars_order` is -1, 0 or 1, turns round with its arguments, and is 0 only for equal
/// sequences.
pub proof fn lemma_chars_order_basics(a: Seq<char>, b: Seq<char>)
    ensures
        -1 <= chars_order(a, b) <= 1,
        chars_order(a, b) == -chars_order(b, a),
        chars_order(a, b) == 0 <==> a == b,
    decreases a.len(),
{
    if a.len() > 0 && b.len() > 0 && a[0] == b[0] {
        lemma_chars_order_basics(a.drop_first(), b.drop_first());
        if a.drop_first() == b.drop_first() {
            assert(a =~= seq![a[0]] + a.drop_first());
            assert(b =~= seq![b[0]] + b.drop_first());
        }
        if a == b {
            assert(a.drop_first() =~= b.drop_first());
        }
    } else if a.len() > 0 && b.len() > 0 {
    } else if a.len() == 0 && b.len() == 0 {
        assert(a =~= b);
    }
}

/// `chars_order(_, _) <= 0` is transitive.
pub proof fn lemma_chars_order_transitive(a: Seq<char>, b: Seq<char>, c: Seq<char>)
    requires
        chars_order(a, b) <= 0,
        chars_order(b, c) <= 0,
    ensures
        chars_order(a, c) <= 0,
    decreases a.len(),
{
    if a.len() > 0 && b.len() > 0 && c.len() > 0 && a[0] == b[0] && b[0] == c[0] {
        lemma_chars_order_transitive(a.drop_first(), b.drop_first(), c.drop_first());
    }
}

/// `magnitude_order` is -1, 0 or 1, turns round with its arguments, and `<= 0` is
/// transitive.
pub proof fn lemma_magnitude_order(a: DecimalView, b: DecimalView, c: DecimalView)
    ensures
        -1 <= magnitude_order(a, b) <= 1,
        magnitude_order(a, b) == -magnitude_order(b, a),
        magnitude_order(a, b) <= 0 && magnitude_order(b, c) <= 0 ==> magnitude_order(a, c) <= 0,
{
    lemma_chars_order_basics(a.int_digits, b.int_digits);
    lemma_chars_order_basics(a.frac_digits, b.frac_digits);
    lemma_chars_order_basics(b.int_digits, c.int_digits);
    lemma_chars_order_basics(b.frac_digits, c.frac_digits);
    lemma_chars_order_basics(a.int_digits, c.int_digits);
    lemma_chars_order_basics(a.frac_digits, c.frac_digits);
    if magnitude_order(a, b) <= 0 && magnitude_order(b, c) <= 0 {
        if a.int_digits.len() == b.int_digits.len() && b.int_digits.len() == c.int_digits.len() {
            if chars_order(a.int_digits, b.int_digits) <= 0 && chars_order(b.int_digits, c.int_digits) <= 0 {
                lemma_chars_order_transitive(a.int_digits, b.int_digits, c.int_digits);
            }
            if chars_order(a.int_digits, b.int_digits) == 0 && chars_order(b.int_digits, c.int_digits) == 0 {
                lemma_chars_order_transitive(a.frac_digits, b.frac_digits, c.frac_digits);
            }
        }
    }
}

/// The order of fractional numbers: `decimal_order(_, _) <= 0` is total and transitive.
pub proof fn lemma_decimal_order(a: DecimalView, b: DecimalView, c: DecimalView)
    ensures
        decimal_order(a, b) == -decimal_order(b, a),
        decimal_order(a, b) <= 0 || decimal_order(b, a) <= 0,
        decimal_order(a, b) <= 0 && decimal_order(b, c) <= 0 ==> decimal_order(a, c) <= 0,
{
    lemma_magnitude_order(a, b, c);
    lemma_magnitude_order(c, b, a);
    lemma_magnitude_order(b, a, c);
    lemma_magnitude_order(a, c, b);
}

} // verus!
