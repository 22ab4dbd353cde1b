//! Exact decimal arithmetic behind the pixel-to-rem conversion.
//!
//! A pixel literal is a digit string with at most one decimal point; its
//! value is n / 10^f, with n the value of all its digits and f the number
//! of fractional digits.  Converting divides by the root value and rounds
//! to the configured number of decimal places, ties to even; the
//! fractional part then loses its trailing zeros, and a trailing point is
//! dropped with it.  Everything is integer arithmetic on digit values.  A
//! literal whose scaled value does not fit into a machine word is left
//! untouched; the contracts state exactly when that happens.

use vstd::arithmetic::div_mod::*;
use vstd::prelude::*;

verus! {

/// Ten to the power `e`.
pub open spec fn pow10(e: nat) -> nat
    decreases e,
{
    if e == 0 {
        1
    } else {
        10 * pow10((e - 1) as nat)
    }
}

/// `c` is a decimal digit.
pub open spec fn is_digit(c: char) -> bool {
    48 <= c as u32 <= 57
}

/// The numeric value of a digit character; zero on anything else.
pub open spec fn digit_val(c: char) -> nat {
    if is_digit(c) {
        (c as u32 - 48) as nat
    } else {
        0
    }
}

/// The value of a digit string read in base ten.
pub open spec fn digits_val(s: Seq<char>) -> nat
    decreases s.len(),
{
    if s.len() == 0 {
        0
    } else {
        digits_val(s.drop_last()) * 10 + digit_val(s.last())
    }
}

/// The digit character for a value below ten.
pub open spec fn digit_char(d: nat) -> char {
    if d == 0 {
        '0'
    } else if d == 1 {
        '1'
    } else if d == 2 {
        '2'
    } else if d == 3 {
        '3'
    } else if d == 4 {
        '4'
    } else if d == 5 {
        '5'
    } else if d == 6 {
        '6'
    } else if d == 7 {
        '7'
    } else if d == 8 {
        '8'
    } else {
        '9'
    }
}

/// The decimal digit string of `n`, empty when `n` is zero.
pub open spec fn dec_digits(n: nat) -> Seq<char>
    decreases n,
    when n >= 0
    via dec_digits_decreases
{
    if n == 0 {
        Seq::empty()
    } else {
        dec_digits(n / 10).push(digit_char(n % 10))
    }
}

#[via_fn]
proof fn dec_digits_decreases(n: nat) {
    if n > 0 {
        lemma_div_decreases(n as int, 10);
    }
}

/// The low `p` decimal digits of `fr`, most significant first.
pub open spec fn frac_digit_chars(fr: nat, p: nat) -> Seq<char>
    decreases p,
{
    if p == 0 {
        Seq::empty()
    } else {
        frac_digit_chars(fr / 10, (p - 1) as nat).push(digit_char(fr % 10))
    }
}

/// `s` with its trailing `'0'` characters removed.
pub open spec fn trim_zeros(s: Seq<char>) -> Seq<char>
    decreases s.len(),
{
    if s.len() > 0 && s.last() == '0' {
        trim_zeros(s.drop_last())
    } else {
        s
    }
}

/// `x / d` rounded to the nearest integer, ties to even.
pub open spec fn round_half_even(x: nat, d: nat) -> nat {
    let q = x / d;
    let r = x % d;
    if 2 * r > d {
        q + 1
    } else if 2 * r == d && q % 2 == 1 {
        q + 1
    } else {
        q
    }
}

/// The characters `px`.
pub open spec fn px_suffix() -> Seq<char> {
    seq!['p', 'x']
}

/// The characters `rem`.
pub open spec fn rem_suffix() -> Seq<char> {
    seq!['r', 'e', 'm']
}

/// The printed form of the scaled rem value `q / 10^p`: the integer part,
/// then the fractional digits without their trailing zeros, then `rem`.
pub open spec fn render_rem(q: nat, p: nat) -> Seq<char> {
    let ip = q / pow10(p);
    let fr = q % pow10(p);
    let ipd = if ip == 0 {
        seq!['0']
    } else {
        dec_digits(ip)
    };
    let ft = trim_zeros(frac_digit_chars(fr, p));
    if ft.len() == 0 {
        ipd + rem_suffix()
    } else {
        ipd + seq!['.'] + ft + rem_suffix()
    }
}

/// The index of the first `'.'` in `t`, or `t.len()` when there is none.
pub open spec fn dot_index(t: Seq<char>) -> int
    decreases t.len(),
{
    if t.len() == 0 {
        0
    } else if t[0] == '.' {
        0
    } else {
        1 + dot_index(t.drop_first())
    }
}

/// The integer digits of a pixel literal (before the point).
pub open spec fn token_int_digits(t: Seq<char>) -> Seq<char> {
    t.subrange(0, dot_index(t))
}

/// The fractional digits of a pixel literal (after the point).
pub open spec fn token_frac_digits(t: Seq<char>) -> Seq<char> {
    if dot_index(t) < t.len() {
        t.subrange(dot_index(t) + 1, t.len() as int)
    } else {
        Seq::empty()
    }
}

/// All the intermediate products of the conversion fit into `u128`.
pub open spec fn supported(n: nat, f: nat, root: nat, prec: nat, min_m: nat, min_s: nat) -> bool {
    &&& n * pow10(prec) <= u128::MAX
    &&& root * pow10(f) <= u128::MAX
    &&& n * pow10(min_s) <= u128::MAX
    &&& min_m * pow10(f) <= u128::MAX
}

/// What replaces a recognized pixel literal `t` (the digits, without the
/// `px` marker).  The minimum pixel value is `min_m / 10^min_s`.  The
/// result is the untouched literal with its `px` marker back when the
/// value is below the minimum or out of machine range; the bare character
/// `0` when the pixel value is exactly zero; otherwise the rounded rem
/// value with `unit_precision = prec` decimal places, trailing zeros
/// trimmed.
pub open spec fn spec_convert_token(
    t: Seq<char>,
    root: nat,
    prec: nat,
    min_m: nat,
    min_s: nat,
) -> Seq<char> {
    let a = token_int_digits(t);
    let b = token_frac_digits(t);
    let n = digits_val(a + b);
    let f = b.len();
    if n == 0 {
        if min_m > 0 {
            t + px_suffix()
        } else {
            seq!['0']
        }
    } else if !supported(n, f, root, prec, min_m, min_s) {
        t + px_suffix()
    } else if n * pow10(min_s) < min_m * pow10(f) {
        t + px_suffix()
    } else {
        render_rem(round_half_even(n * pow10(prec), root * pow10(f)), prec)
    }
}

/// Ten to any power is at least one.
pub proof fn lemma_pow10_pos(e: nat)
    ensures
        pow10(e) >= 1,
    decreases e,
{
    if e > 0 {
        lemma_pow10_pos((e - 1) as nat);
    }
}

/// Reading a digit string from the left: the head digit carries a power
/// of ten for each remaining digit.
pub proof fn lemma_digits_val_first(s: Seq<char>)
    requires
        s.len() > 0,
    ensures
        digits_val(s) == digit_val(s[0]) * pow10((s.len() - 1) as nat) + digits_val(
            s.drop_first(),
        ),
    decreases s.len(),
{
    if s.len() == 1 {
        assert(s.drop_last() =~= Seq::<char>::empty());
        assert(s.drop_first() =~= Seq::<char>::empty());
        assert(s.last() == s[0]);
        assert(digits_val(s.drop_last()) == 0);
        assert(digits_val(s) == digit_val(s[0]));
        assert(pow10((s.len() - 1) as nat) == 1);
        assert(digit_val(s[0]) * 1 == digit_val(s[0]));
    } else {
        let h = s.drop_last();
        lemma_digits_val_first(h);
        assert(h.drop_first() =~= s.drop_first().drop_last());
        assert(s.drop_first().last() == s.last());
        assert(h[0] == s[0]);
        let k = (h.len() - 1) as nat;
        let d0 = digit_val(s[0]);
        let rest = digits_val(h.drop_first());
        assert(digits_val(h) == d0 * pow10(k) + rest);
        assert(digits_val(s) == digits_val(h) * 10 + digit_val(s.last()));
        assert(digits_val(s.drop_first()) == digits_val(s.drop_first().drop_last()) * 10
            + digit_val(s.drop_first().last()));
        assert(digits_val(s.drop_first()) == rest * 10 + digit_val(s.last()));
        assert((d0 * pow10(k) + rest) * 10 == d0 * (pow10(k) * 10) + rest * 10)
            by (nonlinear_arith);
        assert(pow10((k + 1) as nat) == 10 * pow10(k));
        assert(pow10(k) * 10 == 10 * pow10(k));
        assert((s.len() - 1) as nat == (k + 1) as nat);
        assert(digits_val(s) == d0 * pow10((s.len() - 1) as nat) + digits_val(s.drop_first()));
    }
}

/// Powers of ten grow with the exponent.
pub proof fn lemma_pow10_mono(e1: nat, e2: nat)
    requires
        e1 <= e2,
    ensures
        pow10(e1) <= pow10(e2),
    decreases e2,
{
    if e1 < e2 {
        lemma_pow10_mono(e1, (e2 - 1) as nat);
        lemma_pow10_pos((e2 - 1) as nat);
    }
}

/// The value of two digit strings side by side.
pub proof fn lemma_digits_val_concat(a: Seq<char>, b: Seq<char>)
    ensures
        digits_val(a + b) == digits_val(a) * pow10(b.len()) + digits_val(b),
    decreases b.len(),
{
    if b.len() == 0 {
        assert(a + b =~= a);
        assert(digits_val(b) == 0);
        assert(pow10(b.len()) == 1);
        assert(digits_val(a) * 1 == digits_val(a));
    } else {
        lemma_digits_val_concat(a, b.drop_last());
        assert((a + b).drop_last() =~= a + b.drop_last());
        assert((a + b).last() == b.last());
        let k = (b.len() - 1) as nat;
        assert(b.drop_last().len() == k);
        assert(digits_val(a + b) == (digits_val(a) * pow10(k) + digits_val(b.drop_last())) * 10
            + digit_val(b.last()));
        assert((digits_val(a) * pow10(k) + digits_val(b.drop_last())) * 10 == digits_val(a) * (
        pow10(k) * 10) + digits_val(b.drop_last()) * 10) by (nonlinear_arith);
        assert(pow10(b.len()) == 10 * pow10(k));
        assert(pow10(k) * 10 == 10 * pow10(k));
        assert(digits_val(b) == digits_val(b.drop_last()) * 10 + digit_val(b.last()));
        assert(digits_val(a + b) == digits_val(a) * pow10(b.len()) + digits_val(b));
    }
}

/// Pins the first dot of `t` at position `k`.
pub proof fn lemma_dot_index_at(t: Seq<char>, k: int)
    requires
        0 <= k <= t.len(),
        forall|i: int| 0 <= i < k ==> t[i] != '.',
        k < t.len() ==> t[k] == '.',
    ensures
        dot_index(t) == k,
    decreases t.len(),
{
    if t.len() == 0 {
    } else if k == 0 {
    } else {
        assert(t[0] != '.');
        lemma_dot_index_at(t.drop_first(), k - 1);
    }
}

/// The digit character for a machine-word digit.
fn to_digit_char(d: u128) -> (c: char)
    requires
        d < 10,
    ensures
        c == digit_char(d as nat),
{
    if d == 0 {
        '0'
    } else if d == 1 {
        '1'
    } else if d == 2 {
        '2'
    } else if d == 3 {
        '3'
    } else if d == 4 {
        '4'
    } else if d == 5 {
        '5'
    } else if d == 6 {
        '6'
    } else if d == 7 {
        '7'
    } else if d == 8 {
        '8'
    } else {
        '9'
    }
}

/// Read the digits `from..to` of `v` in base ten, continuing the value
/// `acc`; `None` exactly when the result overflows the machine word.
fn parse_digits_range(v: &Vec<char>, from: usize, to: usize, acc: u128) -> (r: Option<u128>)
    requires
        from <= to <= v@.len(),
        forall|i: int| from <= i < to ==> is_digit(#[trigger] v@[i]),
    ensures
        ({
            let total = acc * pow10((to - from) as nat) + digits_val(
                v@.subrange(from as int, to as int),
            );
            match r {
                Some(x) => x == total && total <= u128::MAX,
                None => total > u128::MAX,
            }
        }),
{
    let ghost total = acc * pow10((to - from) as nat) + digits_val(
        v@.subrange(from as int, to as int),
    );
    let mut cur: u128 = acc;
    let mut i: usize = from;
    while i < to
        invariant
            from <= i <= to <= v@.len(),
            forall|t: int| from <= t < to ==> is_digit(#[trigger] v@[t]),
            total == acc * pow10((to - from) as nat) + digits_val(
                v@.subrange(from as int, to as int),
            ),
            total == cur * pow10((to - i) as nat) + digits_val(v@.subrange(i as int, to as int)),
        decreases to - i,
    {
        let ghost rest = v@.subrange(i as int, to as int);
        let c = v[i];
        assert(is_digit(c));
        let d = (c as u32 - 48) as u128;
        proof {
            lemma_digits_val_first(rest);
            assert(rest.drop_first() =~= v@.subrange(i + 1, to as int));
            assert(rest[0] == c);
            assert(d == digit_val(c));
            let k = (to - i - 1) as nat;
            assert(pow10((to - i) as nat) == 10 * pow10(k));
            assert(cur * (10 * pow10(k)) == (cur * 10) * pow10(k)) by (nonlinear_arith);
            assert((cur * 10) * pow10(k) + digit_val(c) * pow10(k) == (cur * 10 + digit_val(c))
                * pow10(k)) by (nonlinear_arith);
            assert(total == (cur * 10 + d) * pow10(k) + digits_val(rest.drop_first()));
        }
        let step = match cur.checked_mul(10) {
            Some(m) => m.checked_add(d),
            None => None,
        };
        match step {
            Some(next) => {
                cur = next;
            },
            None => {
                proof {
                    let k = (to - i - 1) as nat;
                    let big = cur * 10 + d;
                    assert(big > u128::MAX);
                    lemma_pow10_pos(k);
                    assert(big * pow10(k) >= big * 1) by (nonlinear_arith)
                        requires pow10(k) >= 1, big >= 0;
                    assert(total > u128::MAX);
                }
                return None;
            },
        }
        i += 1;
    }
    assert(i == to);
    assert(v@.subrange(i as int, to as int) =~= Seq::<char>::empty());
    assert(digits_val(v@.subrange(i as int, to as int)) == 0);
    assert(pow10((to - i) as nat) == 1);
    assert(cur * 1 == cur) by (nonlinear_arith);
    assert(total == cur);
    Some(cur)
}

/// Divide and round to the nearest integer, ties to even.
fn round_div(x: u128, d: u128) -> (q: u128)
    requires
        d >= 1,
    ensures
        q == round_half_even(x as nat, d as nat),
{
    let q0 = x / d;
    let r = x % d;
    proof {
        if d >= 2 {
            lemma_div_is_ordered_by_denominator(x as int, 2, d as int);
            lemma_div_is_ordered(x as int, u128::MAX as int, 2);
            assert(q0 + 1 <= u128::MAX);
        }
    }
    if r > d - r {
        assert(2 * r > d);
        assert(d >= 2);
        q0 + 1
    } else if r == d - r {
        assert(2 * r == d);
        assert(d >= 2);
        if q0 % 2 == 1 {
            q0 + 1
        } else {
            q0
        }
    } else {
        assert(2 * r < d);
        q0
    }
}

/// The decimal digit string of `n`; empty when `n` is zero.
fn dec_digits_vec(n: u128) -> (out: Vec<char>)
    ensures
        out@ == dec_digits(n as nat),
{
    let mut tmp: Vec<char> = Vec::new();
    let mut cur: u128 = n;
    while cur > 0
        invariant
            dec_digits(n as nat) == dec_digits(cur as nat) + tmp@.reverse(),
        decreases cur,
    {
        let ghost old_tmp = tmp@;
        let d = cur % 10;
        tmp.push(to_digit_char(d));
        proof {
            assert(dec_digits(cur as nat) == dec_digits((cur as nat) / 10).push(
                digit_char((cur as nat) % 10),
            ));
            assert(tmp@.reverse() =~= seq![digit_char(d as nat)] + old_tmp.reverse());
            assert(dec_digits((cur as nat) / 10).push(digit_char(d as nat)) + old_tmp.reverse()
                =~= dec_digits((cur as nat) / 10) + (seq![digit_char(d as nat)]
                + old_tmp.reverse()));
            assert((cur as nat) / 10 == (cur / 10) as nat);
            lemma_div_decreases(cur as int, 10);
        }
        cur = cur / 10;
    }
    assert(dec_digits(n as nat) == tmp@.reverse());
    let mut out: Vec<char> = Vec::new();
    let m = tmp.len();
    let mut j: usize = 0;
    while j < m
        invariant
            m == tmp@.len(),
            j <= m,
            out@.len() == j,
            forall|t: int| 0 <= t < j ==> out@[t] == tmp@[m - 1 - t],
        decreases m - j,
    {
        out.push(tmp[m - 1 - j]);
        j += 1;
    }
    assert(out@ =~= tmp@.reverse());
    out
}

/// The low `p` decimal digits of `fr`, most significant first.
fn frac_digits_vec(fr: u128, p: usize) -> (out: Vec<char>)
    ensures
        out@ == frac_digit_chars(fr as nat, p as nat),
{
    let mut tmp: Vec<char> = Vec::new();
    let mut cur: u128 = fr;
    let mut k: usize = 0;
    while k < p
        invariant
            k <= p,
            frac_digit_chars(fr as nat, p as nat) == frac_digit_chars(
                cur as nat,
                (p - k) as nat,
            ) + tmp@.reverse(),
        decreases p - k,
    {
        let ghost old_tmp = tmp@;
        let d = cur % 10;
        tmp.push(to_digit_char(d));
        proof {
            let pk = (p - k) as nat;
            assert(frac_digit_chars(cur as nat, pk) == frac_digit_chars(
                (cur as nat) / 10,
                (pk - 1) as nat,
            ).push(digit_char((cur as nat) % 10)));
            assert(tmp@.reverse() =~= seq![digit_char(d as nat)] + old_tmp.reverse());
            assert(frac_digit_chars((cur as nat) / 10, (pk - 1) as nat).push(
                digit_char(d as nat),
            ) + old_tmp.reverse() =~= frac_digit_chars((cur as nat) / 10, (pk - 1) as nat) + (
            seq![digit_char(d as nat)] + old_tmp.reverse()));
            assert((cur as nat) / 10 == (cur / 10) as nat);
        }
        cur = cur / 10;
        k += 1;
    }
    assert(frac_digit_chars(fr as nat, p as nat) == tmp@.reverse());
    let mut out: Vec<char> = Vec::new();
    let m = tmp.len();
    let mut j: usize = 0;
    while j < m
        invariant
            m == tmp@.len(),
            j <= m,
            out@.len() == j,
            forall|t: int| 0 <= t < j ==> out@[t] == tmp@[m - 1 - t],
        decreases m - j,
    {
        out.push(tmp[m - 1 - j]);
        j += 1;
    }
    assert(out@ =~= tmp@.reverse());
    out
}

/// Drop trailing `'0'` characters in place.
fn trim_zeros_vec(v: &mut Vec<char>)
    ensures
        final(v)@ == trim_zeros(old(v)@),
{
    while v.len() > 0 && v[v.len() - 1] == '0'
        invariant
            trim_zeros(old(v)@) == trim_zeros(v@),
        decreases v@.len(),
    {
        let ghost before = v@;
        v.pop();
        assert(v@ =~= before.drop_last());
    }
}

/// Ten to the power `e` as a machine word; `None` exactly on overflow.
fn pow10_u128(e: usize) -> (r: Option<u128>)
    ensures
        match r {
            Some(x) => x == pow10(e as nat) && pow10(e as nat) <= u128::MAX,
            None => pow10(e as nat) > u128::MAX,
        },
{
    let mut acc: u128 = 1;
    let mut i: usize = 0;
    while i < e
        invariant
            i <= e,
            acc == pow10(i as nat),
        decreases e - i,
    {
        match acc.checked_mul(10) {
            Some(x) => {
                assert(pow10((i + 1) as nat) == 10 * pow10(i as nat));
                acc = x;
            },
            None => {
                proof {
                    assert(pow10((i + 1) as nat) == 10 * pow10(i as nat));
                    assert(pow10((i + 1) as nat) > u128::MAX);
                    lemma_pow10_mono((i + 1) as nat, e as nat);
                }
                return None;
            },
        }
        i += 1;
    }
    Some(acc)
}

/// Convert one recognized pixel literal.  Starting at `start`, `v` holds
/// `a_len` integer digits and then, when `has_dot`, a point and `b_len`
/// fractional digits.  `Some` carries the replacement text; `None` means
/// the literal stays exactly as it was written.
pub fn convert_px_token(
    v: &Vec<char>,
    start: usize,
    a_len: usize,
    has_dot: bool,
    b_len: usize,
    root_value: i32,
    unit_precision: i32,
    min_m: u64,
    min_s: u32,
) -> (r: Option<Vec<char>>)
    requires
        root_value >= 1,
        unit_precision >= 0,
        start + a_len <= v@.len(),
        forall|i: int| start <= i < start + a_len ==> is_digit(#[trigger] v@[i]),
        has_dot ==> start + a_len + 1 + b_len <= v@.len() && v@[start + a_len as int] == '.'
            && b_len >= 1,
        has_dot ==> forall|i: int|
            start + a_len + 1 <= i < start + a_len + 1 + b_len ==> is_digit(#[trigger] v@[i]),
        !has_dot ==> b_len == 0,
        a_len + b_len >= 1,
    ensures
        ({
            let tok_end = if has_dot {
                start + a_len + 1 + b_len
            } else {
                start + a_len
            };
            let t = v@.subrange(start as int, tok_end as int);
            let res = spec_convert_token(
                t,
                root_value as nat,
                unit_precision as nat,
                min_m as nat,
                min_s as nat,
            );
            match r {
                Some(out) => out@ == res,
                None => res == t + px_suffix(),
            }
        }),
{
    let ghost tok_end = if has_dot {
        start + a_len + 1 + b_len
    } else {
        start + a_len
    };
    let ghost t = v@.subrange(start as int, tok_end as int);
    let ghost a = v@.subrange(start as int, start + a_len);
    let ghost b = if has_dot {
        v@.subrange(start + a_len + 1, start + a_len + 1 + b_len)
    } else {
        Seq::<char>::empty()
    };
    proof {
        assert forall|i: int| 0 <= i < a_len implies t[i] != '.' by {
            assert(t[i] == v@[start + i]);
            assert(is_digit(t[i]));
        }
        if has_dot {
            assert(t[a_len as int] == v@[start + a_len as int]);
        }
        lemma_dot_index_at(t, a_len as int);
        assert(token_int_digits(t) =~= a);
        assert(token_frac_digits(t) =~= b);
    }
    let ghost n_spec = digits_val(a + b);
    let ghost f = b.len();
    let ghost prec = unit_precision as nat;
    let ghost root = root_value as nat;
    proof {
        lemma_digits_val_concat(a, b);
        lemma_pow10_pos(f);
        lemma_pow10_pos(prec);
        lemma_pow10_pos(min_s as nat);
    }
    let vlen = v.len();
    assert(start + a_len <= vlen);
    let first = parse_digits_range(v, start, start + a_len, 0);
    let n_opt: Option<u128> = match first {
        Some(acc_a) => {
            assert(acc_a == digits_val(a));
            if has_dot {
                let second = parse_digits_range(
                    v,
                    start + a_len + 1,
                    start + a_len + 1 + b_len,
                    acc_a,
                );
                assert(match second {
                    Some(x) => x == n_spec && n_spec <= u128::MAX,
                    None => n_spec > u128::MAX,
                });
                second
            } else {
                assert(n_spec == digits_val(a) * 1 + 0);
                Some(acc_a)
            }
        },
        None => {
            proof {
                assert(digits_val(a) > u128::MAX);
                assert(digits_val(a) * pow10(f) >= digits_val(a) * 1) by (nonlinear_arith)
                    requires pow10(f) >= 1, digits_val(a) >= 0;
                assert(n_spec > u128::MAX);
            }
            None
        },
    };
    match n_opt {
        None => {
            proof {
                assert(n_spec * pow10(prec) >= n_spec * 1) by (nonlinear_arith)
                    requires pow10(prec) >= 1, n_spec >= 0;
                assert(!supported(n_spec, f, root, prec, min_m as nat, min_s as nat));
                assert(n_spec != 0);
            }
            None
        },
        Some(n128) => {
            if n128 == 0 {
                if min_m > 0 {
                    return None;
                }
                let mut out: Vec<char> = Vec::new();
                out.push('0');
                assert(out@ =~= seq!['0']);
                Some(out)
            } else {
                let p10prec = match pow10_u128(unit_precision as usize) {
                    Some(x) => x,
                    None => {
                        proof {
                            assert(n_spec * pow10(prec) >= 1 * pow10(prec)) by (nonlinear_arith)
                                requires n_spec >= 1, pow10(prec) >= 0;
                        }
                        return None;
                    },
                };
                let p10f = match pow10_u128(b_len) {
                    Some(x) => x,
                    None => {
                        proof {
                            assert(root * pow10(f) >= 1 * pow10(f)) by (nonlinear_arith)
                                requires root >= 1, pow10(f) >= 0;
                        }
                        return None;
                    },
                };
                let p10s = match pow10_u128(min_s as usize) {
                    Some(x) => x,
                    None => {
                        proof {
                            assert(n_spec * pow10(min_s as nat) >= 1 * pow10(min_s as nat))
                                by (nonlinear_arith)
                                requires n_spec >= 1, pow10(min_s as nat) >= 0;
                        }
                        return None;
                    },
                };
                let x = match n128.checked_mul(p10prec) {
                    Some(x) => x,
                    None => {
                        return None;
                    },
                };
                let d = match (root_value as u128).checked_mul(p10f) {
                    Some(x) => x,
                    None => {
                        return None;
                    },
                };
                let ms = match n128.checked_mul(p10s) {
                    Some(x) => x,
                    None => {
                        return None;
                    },
                };
                let mf = match (min_m as u128).checked_mul(p10f) {
                    Some(x) => x,
                    None => {
                        return None;
                    },
                };
                assert(supported(n_spec, f, root, prec, min_m as nat, min_s as nat));
                if ms < mf {
                    return None;
                }
                assert(d >= 1) by (nonlinear_arith)
                    requires d == root * pow10(f), root >= 1, pow10(f) >= 1;
                let q = round_div(x, d);
                let out = render_rem_vec(q, unit_precision as usize, p10prec);
                Some(out)
            }
        },
    }
}

/// Print the scaled rem value `q / 10^p` followed by the unit `rem`.
fn render_rem_vec(q: u128, p: usize, p10p: u128) -> (out: Vec<char>)
    requires
        p10p == pow10(p as nat),
        p10p >= 1,
    ensures
        out@ == render_rem(q as nat, p as nat),
{
    let ip = q / p10p;
    let fr = q % p10p;
    let mut out: Vec<char>;
    if ip == 0 {
        out = Vec::new();
        out.push('0');
        assert(out@ =~= seq!['0']);
    } else {
        out = dec_digits_vec(ip);
    }
    let ghost ipd = out@;
    let mut frd = frac_digits_vec(fr, p);
    trim_zeros_vec(&mut frd);
    if frd.len() > 0 {
        out.push('.');
        let mut j: usize = 0;
        let m = frd.len();
        while j < m
            invariant
                m == frd@.len(),
                j <= m,
                out@ == ipd + seq!['.'] + frd@.subrange(0, j as int),
            decreases m - j,
        {
            out.push(frd[j]);
            j += 1;
            assert(out@ =~= ipd + seq!['.'] + frd@.subrange(0, j as int));
        }
        assert(frd@.subrange(0, m as int) =~= frd@);
    }
    out.push('r');
    out.push('e');
    out.push('m');
    proof {
        let ft = trim_zeros(frac_digit_chars(fr as nat, p as nat));
        if ft.len() == 0 {
            assert(out@ =~= ipd + rem_suffix());
        } else {
            assert(out@ =~= ipd + seq!['.'] + ft + rem_suffix());
        }
    }
    out
}

} // verus!
