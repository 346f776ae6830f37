//! How values are ordered and shown, stated over what they stand for: integers, truth
//! values and numbers by their size, keys of an integer table numerically, a number's
//! shown text by the number it writes.
use vstd::prelude::*;
use crate::model::database::DatabaseKey;
use crate::model::decimal::{DecimalView, decimal_text, literal_decimal, is_float_literal, chars_order, magnitude_order, decimal_order, decimal_sign, is_zero, lemma_chars_order_basics};
use crate::model::table::{ValueView, value_order, keys_increasing};
use crate::parsing::round_trip::{decimal_canonical, lemma_decimal_text};
use crate::text::{all_digits, digits_val, digit_of, is_digit, signed_text_value};

verus! {

/// -1, 0 or 1 as `i` is below, at or above zero.
pub open spec fn sign_of(i: int) -> int {
    if i < 0 {
        -1
    } else if i == 0 {
        0
    } else {
        1
    }
}

/// A truth value counted as a number: `false` is 0, `true` is 1.
pub open spec fn truth_count(b: bool) -> int {
    if b {
        1
    } else {
        0
    }
}

/// Integers are ordered by size, and truth values with `false` before `true`.
pub proof fn law_int_and_bool_order(a: ValueView, b: ValueView)
    ensures
        (a, b) matches (ValueView::Int(x), ValueView::Int(y)) ==> value_order(a, b) == sign_of(x - y),
        (a, b) matches (ValueView::Bool(x), ValueView::Bool(y)) ==> value_order(a, b) == sign_of(
            truth_count(x) - truth_count(y),
        ),
{
}

/// Keys of an integer table are ordered by size: records kept in key order have
/// increasing keys.
pub proof fn law_int_keys_by_size<R>(a: i64, b: i64, s: Seq<(i64, R)>)
    ensures
        <i64 as DatabaseKey>::key_lt(a, b) <==> a < b,
        keys_increasing::<i64, R>(s) ==> forall|i: int, j: int| 0 <= i < j < s.len() ==> #[trigger] s[i].0 < #[trigger] s[j].0,
{
}

/// The value a number in its usual form has: its sign applied to the number its integer
/// digits write (for a whole number).
pub open spec fn whole_value(d: DecimalView) -> int {
    if d.negative {
        -(digits_val(d.int_digits) as int)
    } else {
        digits_val(d.int_digits) as int
    }
}

/// The text a number is shown as writes that number: a whole number is shown as an
/// integer of the same value, sign included; any other as a fractional literal that reads
/// back as the same number.
pub proof fn law_shown_number_reads_back(d: DecimalView)
    requires
        decimal_canonical(d),
    ensures
        d.frac_digits.len() == 0 ==> signed_text_value(decimal_text(d)) == Some(whole_value(d)),
        d.frac_digits.len() > 0 ==> is_float_literal(decimal_text(d)) && literal_decimal(decimal_text(d)) == d,
{
    if d.frac_digits.len() == 0 {
        let body = if d.int_digits.len() == 0 { seq!['0'] } else { d.int_digits };
        let s = decimal_text(d);
        assert(all_digits(body));
        assert(digits_val(body) == digits_val(d.int_digits)) by {
            if d.int_digits.len() == 0 {
                assert(body.drop_last() =~= Seq::<char>::empty());
                assert(body.last() == '0');
                assert(digits_val(body.drop_last()) == 0);
                assert(crate::text::digit_of('0') == 0);
            }
        }
        if d.negative {
            assert(s =~= seq!['-'] + body);
            assert(s.drop_first() =~= body);
        } else {
            assert(s =~= body);
            assert(crate::text::is_digit(body[0]));
        }
    } else {
        lemma_decimal_text(d);
    }
}

/// Ten to the power `n`.
pub open spec fn ten_to(n: nat) -> nat
    decreases n,
{
    if n == 0 {
        1
    } else {
        10 * ten_to((n - 1) as nat)
    }
}

/// `n` zero digits.
pub open spec fn zeros(n: nat) -> Seq<char> {
    Seq::new(n, |i: int| '0')
}

/// The size of a number counted in steps of ten to the power `-n`: the number its
/// digits write, the fraction filled with zeros to `n` places.
pub open spec fn scaled_size(d: DecimalView, n: nat) -> nat {
    digits_val(d.int_digits + d.frac_digits + zeros((n - d.frac_digits.len()) as nat))
}

/// The value of a number counted in steps of ten to the power `-n`, sign included.
pub open spec fn scaled_value(d: DecimalView, n: nat) -> int {
    if d.negative {
        -(scaled_size(d, n) as int)
    } else {
        scaled_size(d, n) as int
    }
}

proof fn lemma_ten_positive(n: nat)
    ensures
        ten_to(n) >= 1,
    decreases n,
{
    if n > 0 {
        lemma_ten_positive((n - 1) as nat);
    }
}

/// The digits below ten to the power of their count.
proof fn lemma_digits_bound(x: Seq<char>)
    requires
        all_digits(x),
    ensures
        digits_val(x) < ten_to(x.len()),
    decreases x.len(),
{
    if x.len() > 0 {
        let y = x.drop_last();
        assert(all_digits(y)) by {
            assert forall|i: int| 0 <= i < y.len() implies #[trigger] is_digit(y[i]) by {
                assert(y[i] == x[i]);
            }
        }
        lemma_digits_bound(y);
        assert(is_digit(x[x.len() - 1]));
        let v = digits_val(y);
        let d = digit_of(x.last());
        let t = ten_to(y.len());
        assert(d <= 9);
        assert(v * 10 + d < 10 * t) by (nonlinear_arith)
            requires
                v < t,
                d <= 9,
        ;
    }
}

/// The first digit of a number weighs ten to the power of the digits after it.
proof fn lemma_digits_first(x: Seq<char>)
    requires
        x.len() > 0,
    ensures
        digits_val(x) == digit_of(x[0]) * ten_to((x.len() - 1) as nat) + digits_val(x.drop_first()),
    decreases x.len(),
{
    if x.len() == 1 {
        assert(x.drop_last() =~= Seq::<char>::empty());
        assert(x.drop_first() =~= Seq::<char>::empty());
        assert(x.last() == x[0]);
        assert(digits_val(x) == digits_val(x.drop_last()) * 10 + digit_of(x.last()));
        assert(ten_to(0) == 1);
        assert(digit_of(x[0]) * ten_to(0) == digit_of(x[0]));
        assert(digits_val(x.drop_first()) == 0);
    } else {
        let y = x.drop_last();
        lemma_digits_first(y);
        assert(y.drop_first() =~= x.drop_first().drop_last());
        assert(x.drop_first().last() == x.last());
        let d0 = digit_of(x[0]);
        let t = ten_to((y.len() - 1) as nat);
        assert(y[0] == x[0]);
        assert(ten_to((x.len() - 1) as nat) == 10 * t);
        let r = digits_val(y.drop_first());
        let dl = digit_of(x.last());
        assert(digits_val(x) == digits_val(y) * 10 + dl);
        assert(digits_val(y) == d0 * t + r);
        assert(digits_val(x.drop_first()) == digits_val(x.drop_first().drop_last()) * 10 + digit_of(x.drop_first().last()));
        assert(digits_val(x.drop_first()) == r * 10 + dl);
        assert((d0 * t + r) * 10 + dl == d0 * (10 * t) + (r * 10 + dl)) by (nonlinear_arith);
        assert(digits_val(x) == d0 * ten_to((x.len() - 1) as nat) + digits_val(x.drop_first()));
    }
}

/// Digits led by a digit other than zero are at least ten to the power of the rest.
proof fn lemma_digits_lead(x: Seq<char>)
    requires
        x.len() > 0,
        is_digit(x[0]),
        x[0] != '0',
    ensures
        digits_val(x) >= ten_to((x.len() - 1) as nat),
{
    lemma_digits_first(x);
    let d0 = digit_of(x[0]);
    let t = ten_to((x.len() - 1) as nat);
    assert(d0 >= 1);
    assert(d0 * t >= t) by (nonlinear_arith)
        requires
            d0 >= 1,
    ;
}

/// Digits with one other than zero write a number above zero; zeros write zero.
proof fn lemma_digits_zero(x: Seq<char>)
    requires
        all_digits(x),
    ensures
        digits_val(x) == 0 <==> forall|i: int| 0 <= i < x.len() ==> #[trigger] x[i] == '0',
    decreases x.len(),
{
    if x.len() > 0 {
        let y = x.drop_last();
        assert(all_digits(y)) by {
            assert forall|i: int| 0 <= i < y.len() implies #[trigger] is_digit(y[i]) by {
                assert(y[i] == x[i]);
            }
        }
        lemma_digits_zero(y);
        assert(is_digit(x[x.len() - 1]));
        if forall|i: int| 0 <= i < x.len() ==> #[trigger] x[i] == '0' {
            assert(x[x.len() - 1] == '0');
            assert forall|i: int| 0 <= i < y.len() implies #[trigger] y[i] == '0' by {
                assert(y[i] == x[i]);
            }
        } else {
            let k = choose|k: int| 0 <= k < x.len() && x[k] != '0';
            if k < x.len() - 1 {
                assert(y[k] == x[k]);
            }
        }
    }
}

/// Comparing two texts whose first parts have the same length: the first parts decide,
/// and where they are equal, the rest.
proof fn lemma_order_concat(p: Seq<char>, q: Seq<char>, x: Seq<char>, y: Seq<char>)
    requires
        p.len() == q.len(),
    ensures
        chars_order(p + x, q + y) == if chars_order(p, q) != 0 { chars_order(p, q) } else { chars_order(x, y) },
    decreases p.len(),
{
    if p.len() == 0 {
        assert(p + x =~= x);
        assert(q + y =~= y);
    } else {
        assert((p + x)[0] == p[0]);
        assert((q + y)[0] == q[0]);
        assert((p + x).drop_first() =~= p.drop_first() + x);
        assert((q + y).drop_first() =~= q.drop_first() + y);
        lemma_order_concat(p.drop_first(), q.drop_first(), x, y);
    }
}

/// Digits of equal count: their texts are ordered as the numbers they write.
proof fn lemma_order_same_length(x: Seq<char>, y: Seq<char>)
    requires
        all_digits(x),
        all_digits(y),
        x.len() == y.len(),
    ensures
        chars_order(x, y) == sign_of(digits_val(x) - digits_val(y)),
    decreases x.len(),
{
    if x.len() > 0 {
        let x1 = x.drop_first();
        let y1 = y.drop_first();
        assert(all_digits(x1)) by {
            assert forall|i: int| 0 <= i < x1.len() implies #[trigger] is_digit(x1[i]) by {
                assert(x1[i] == x[i + 1]);
            }
        }
        assert(all_digits(y1)) by {
            assert forall|i: int| 0 <= i < y1.len() implies #[trigger] is_digit(y1[i]) by {
                assert(y1[i] == y[i + 1]);
            }
        }
        lemma_digits_first(x);
        lemma_digits_first(y);
        lemma_digits_bound(x1);
        lemma_digits_bound(y1);
        assert(is_digit(x[0]) && is_digit(y[0]));
        let dx = digit_of(x[0]) as int;
        let dy = digit_of(y[0]) as int;
        let t = ten_to(x1.len()) as int;
        let rx = digits_val(x1) as int;
        let ry = digits_val(y1) as int;
        if x[0] < y[0] {
            assert(dx < dy);
            assert(dx * t + rx < dy * t + ry) by (nonlinear_arith)
                requires
                    dx < dy,
                    0 <= rx < t,
                    0 <= ry,
            ;
        } else if y[0] < x[0] {
            assert(dy < dx);
            assert(dy * t + ry < dx * t + rx) by (nonlinear_arith)
                requires
                    dy < dx,
                    0 <= ry < t,
                    0 <= rx,
            ;
        } else {
            lemma_order_same_length(x1, y1);
        }
    }
}

/// Zeros come before digits of the same count that are not all zeros.
proof fn lemma_zeros_first(y: Seq<char>, k: int)
    requires
        all_digits(y),
        0 <= k < y.len(),
        y[k] != '0',
    ensures
        chars_order(zeros(y.len()), y) == -1,
    decreases y.len(),
{
    let z = zeros(y.len());
    assert(is_digit(y[0]));
    if y[0] == '0' {
        let y1 = y.drop_first();
        assert(all_digits(y1)) by {
            assert forall|i: int| 0 <= i < y1.len() implies #[trigger] is_digit(y1[i]) by {
                assert(y1[i] == y[i + 1]);
            }
        }
        assert(k > 0);
        assert(y1[k - 1] == y[k]);
        assert(z.drop_first() =~= zeros(y1.len()));
        lemma_zeros_first(y1, k - 1);
    }
}

/// Filling fractions with zeros to the same count keeps their order, where neither ends
/// with a zero.
proof fn lemma_order_padded(f: Seq<char>, g: Seq<char>, n: nat)
    requires
        all_digits(f),
        all_digits(g),
        f.len() <= n,
        g.len() <= n,
        f.len() == 0 || f.last() != '0',
        g.len() == 0 || g.last() != '0',
    ensures
        chars_order(f + zeros((n - f.len()) as nat), g + zeros((n - g.len()) as nat)) == chars_order(f, g),
    decreases n,
{
    let pf = f + zeros((n - f.len()) as nat);
    let pg = g + zeros((n - g.len()) as nat);
    assert(all_digits(pf)) by {
        assert forall|i: int| 0 <= i < pf.len() implies #[trigger] is_digit(pf[i]) by {
            if i < f.len() {
                assert(pf[i] == f[i]);
            }
        }
    }
    assert(all_digits(pg)) by {
        assert forall|i: int| 0 <= i < pg.len() implies #[trigger] is_digit(pg[i]) by {
            if i < g.len() {
                assert(pg[i] == g[i]);
            }
        }
    }
    if f.len() == 0 && g.len() == 0 {
        assert(pf =~= pg);
        lemma_chars_order_basics(pf, pg);
    } else if f.len() == 0 {
        assert(pf =~= zeros(pg.len()));
        assert(pg[g.len() - 1] == g.last());
        lemma_zeros_first(pg, g.len() - 1);
    } else if g.len() == 0 {
        assert(pg =~= zeros(pf.len()));
        assert(pf[f.len() - 1] == f.last());
        lemma_zeros_first(pf, f.len() - 1);
        lemma_chars_order_basics(pf, pg);
        lemma_chars_order_basics(f, g);
    } else {
        assert(pf[0] == f[0]);
        assert(pg[0] == g[0]);
        if f[0] == g[0] {
            let f1 = f.drop_first();
            let g1 = g.drop_first();
            assert(all_digits(f1)) by {
                assert forall|i: int| 0 <= i < f1.len() implies #[trigger] is_digit(f1[i]) by {
                    assert(f1[i] == f[i + 1]);
                }
            }
            assert(all_digits(g1)) by {
                assert forall|i: int| 0 <= i < g1.len() implies #[trigger] is_digit(g1[i]) by {
                    assert(g1[i] == g[i + 1]);
                }
            }
            assert(f1.len() == 0 || f1.last() == f.last());
            assert(g1.len() == 0 || g1.last() == g.last());
            lemma_order_padded(f1, g1, (n - 1) as nat);
            assert(pf.drop_first() =~= f1 + zeros((n - 1 - f1.len()) as nat));
            assert(pg.drop_first() =~= g1 + zeros((n - 1 - g1.len()) as nat));
        }
    }
}

/// A number's digits, the fraction filled to `n` places, as one text.
proof fn lemma_scaled_text(d: DecimalView, n: nat)
    requires
        decimal_canonical(d),
        d.frac_digits.len() <= n,
    ensures
        all_digits(d.int_digits + d.frac_digits + zeros((n - d.frac_digits.len()) as nat)),
        (d.int_digits + d.frac_digits + zeros((n - d.frac_digits.len()) as nat)).len() == d.int_digits.len() + n,
        is_zero(d) <==> scaled_size(d, n) == 0,
{
    let x = d.int_digits + d.frac_digits + zeros((n - d.frac_digits.len()) as nat);
    let il = d.int_digits.len() as int;
    let fl = d.frac_digits.len() as int;
    assert forall|i: int| 0 <= i < x.len() implies #[trigger] is_digit(x[i]) by {
        if i < il {
            assert(x[i] == d.int_digits[i]);
        } else if i < il + fl {
            assert(x[i] == d.frac_digits[i - il]);
        }
    }
    lemma_digits_zero(x);
    if is_zero(d) {
        assert forall|i: int| 0 <= i < x.len() implies #[trigger] x[i] == '0' by {}
    } else if il > 0 {
        assert(x[0] == d.int_digits[0]);
    } else {
        assert(x[il + fl - 1] == d.frac_digits.last());
    }
}

/// The sizes of two numbers compare as `magnitude_order` says.
proof fn lemma_magnitude_is_size(a: DecimalView, b: DecimalView, n: nat)
    requires
        decimal_canonical(a),
        decimal_canonical(b),
        a.frac_digits.len() <= n,
        b.frac_digits.len() <= n,
    ensures
        magnitude_order(a, b) == sign_of(scaled_size(a, n) - scaled_size(b, n)),
{
    let pa = a.frac_digits + zeros((n - a.frac_digits.len()) as nat);
    let pb = b.frac_digits + zeros((n - b.frac_digits.len()) as nat);
    let xa = a.int_digits + a.frac_digits + zeros((n - a.frac_digits.len()) as nat);
    let xb = b.int_digits + b.frac_digits + zeros((n - b.frac_digits.len()) as nat);
    assert(xa =~= a.int_digits + pa);
    assert(xb =~= b.int_digits + pb);
    lemma_scaled_text(a, n);
    lemma_scaled_text(b, n);
    lemma_digits_bound(xa);
    lemma_digits_bound(xb);
    if a.int_digits.len() < b.int_digits.len() {
        assert(xb[0] == b.int_digits[0]);
        lemma_digits_lead(xb);
        lemma_ten_monotonic(xa.len(), (xb.len() - 1) as nat);
    } else if b.int_digits.len() < a.int_digits.len() {
        assert(xa[0] == a.int_digits[0]);
        lemma_digits_lead(xa);
        lemma_ten_monotonic(xb.len(), (xa.len() - 1) as nat);
    } else {
        lemma_order_concat(a.int_digits, b.int_digits, pa, pb);
        lemma_order_padded(a.frac_digits, b.frac_digits, n);
        lemma_order_same_length(xa, xb);
    }
}

proof fn lemma_ten_monotonic(m: nat, n: nat)
    requires
        m <= n,
    ensures
        ten_to(m) <= ten_to(n),
    decreases n,
{
    if m < n {
        lemma_ten_monotonic(m, (n - 1) as nat);
        lemma_ten_positive((n - 1) as nat);
    }
}

/// Numbers are ordered by their value: for numbers in their usual form, counted in
/// steps fine enough for both fractions, `decimal_order` (and so `Decimal::order_with`
/// and the order of `Float` values) is the sign of the difference of their values. A
/// number of larger size below zero is the smaller one.
pub proof fn law_numbers_by_value(a: DecimalView, b: DecimalView, n: nat)
    requires
        decimal_canonical(a),
        decimal_canonical(b),
        a.frac_digits.len() <= n,
        b.frac_digits.len() <= n,
    ensures
        decimal_order(a, b) == sign_of(scaled_value(a, n) - scaled_value(b, n)),
        value_order(ValueView::Float(a), ValueView::Float(b)) == sign_of(scaled_value(a, n) - scaled_value(b, n)),
{
    lemma_magnitude_is_size(a, b, n);
    lemma_scaled_text(a, n);
    lemma_scaled_text(b, n);
}

/// Strings are ordered as their UTF-8 bytes are, as Rust compares strings.
pub proof fn law_string_order(x: Seq<char>, y: Seq<char>)
    ensures
        value_order(ValueView::String(x), ValueView::String(y)) == if crate::text::text_lt(x, y) {
            -1
        } else if crate::text::text_lt(y, x) {
            1
        } else {
            0
        },
{
    crate::text::lemma_text_order(x, y, y);
}

/// Records kept in key order are listed as `ORDER_BY` on the key field would list them:
/// for both kinds of key, one key comes before another exactly where its value is the
/// smaller.
pub proof fn law_key_order_is_value_order(a: i64, b: i64, x: Seq<char>, y: Seq<char>)
    ensures
        <i64 as DatabaseKey>::key_lt(a, b) <==> value_order(
            <i64 as DatabaseKey>::key_value(a),
            <i64 as DatabaseKey>::key_value(b),
        ) < 0,
        <String as DatabaseKey>::key_lt(x, y) <==> value_order(
            <String as DatabaseKey>::key_value(x),
            <String as DatabaseKey>::key_value(y),
        ) < 0,
{
    crate::text::lemma_text_order(x, y, y);
}

} // verus!
