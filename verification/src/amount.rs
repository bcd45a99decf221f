//! Amounts and decimal literals.
//!
//! Every amount in the engine is a `u128` count of *subunits*; one unit of
//! the asset is [`SCALE`] subunits, so amounts and odds carry
//! [`FRAC_DIGITS`] fractional decimal digits.  This module gives the exact
//! grammar and value of a decimal literal such as `"2"` or `"1.5"`
//! ([`amount_of`]) and a verified parser for it ([`parse_amount`]).

use vstd::prelude::*;

verus! {

/// Subunits per unit of the asset.
pub const SCALE: u128 = 1_000_000;

/// Fractional decimal digits an amount carries: `SCALE == 10^FRAC_DIGITS`.
pub const FRAC_DIGITS: usize = 6;

/// `c` is a decimal digit.
pub open spec fn is_digit(c: char) -> bool {
    '0' <= c && c <= '9'
}

/// Numeric value of a digit character.
pub open spec fn digit_value(c: char) -> int {
    c as int - '0' as int
}

/// Every character of `s` is a decimal digit.
pub open spec fn all_digits(s: Seq<char>) -> bool {
    forall|i: int| 0 <= i < s.len() ==> is_digit(#[trigger] s[i])
}

/// The number written by a digit string, most significant digit first.
pub open spec fn digits_value(s: Seq<char>) -> int
    decreases s.len(),
{
    if s.len() == 0 {
        0
    } else {
        digits_value(s.drop_last()) * 10 + digit_value(s.last())
    }
}

/// `10^n`.
pub open spec fn pow10(n: nat) -> int
    decreases n,
{
    if n == 0 {
        1
    } else {
        10 * pow10((n - 1) as nat)
    }
}

/// `s` is an integer literal: one or more digits.
pub open spec fn plain_form(s: Seq<char>) -> bool {
    s.len() >= 1 && all_digits(s)
}

/// `s` is a fractional literal with the dot at position `p`: one or more
/// integer digits, a dot, and between one and [`FRAC_DIGITS`] fractional
/// digits.
pub open spec fn dot_form(s: Seq<char>, p: int) -> bool {
    &&& 1 <= p
    &&& p + 2 <= s.len()
    &&& s.len() <= p + 1 + FRAC_DIGITS
    &&& s[p] == '.'
    &&& all_digits(s.subrange(0, p))
    &&& all_digits(s.subrange(p + 1, s.len() as int))
}

/// Value in subunits of a fractional literal with the dot at `p`.
pub open spec fn dot_value(s: Seq<char>, p: int) -> int {
    digits_value(s.subrange(0, p)) * SCALE + digits_value(
        s.subrange(p + 1, s.len() as int),
    ) * pow10((p + 1 + FRAC_DIGITS - s.len()) as nat)
}

/// The value in subunits of the decimal literal `s`, or `None` where `s` is
/// not a decimal literal.
pub open spec fn amount_of(s: Seq<char>) -> Option<int> {
    if plain_form(s) {
        Some(digits_value(s) * SCALE)
    } else if exists|p: int| dot_form(s, p) {
        Some(dot_value(s, choose|p: int| dot_form(s, p)))
    } else {
        None
    }
}

/// `s` is a decimal literal whose value in subunits fits an amount.
pub open spec fn amount_fits(s: Seq<char>) -> bool {
    amount_of(s) matches Some(v) && v <= u128::MAX
}

/// A digit string names a nonnegative number.
pub proof fn lemma_digits_value_nonneg(s: Seq<char>)
    requires
        all_digits(s),
    ensures
        digits_value(s) >= 0,
    decreases s.len(),
{
    if s.len() > 0 {
        assert(forall|i: int|
            0 <= i < s.len() - 1 ==> #[trigger] s.drop_last()[i] == s[i]);
        lemma_digits_value_nonneg(s.drop_last());
    }
}

/// `10^n >= 1`.
pub proof fn lemma_pow10_pos(n: nat)
    ensures
        pow10(n) >= 1,
    decreases n,
{
    if n > 0 {
        lemma_pow10_pos((n - 1) as nat);
    }
}

/// A digit string of length `n` names a number below `10^n`.
pub proof fn lemma_digits_value_upper(s: Seq<char>)
    requires
        all_digits(s),
    ensures
        digits_value(s) < pow10(s.len()),
    decreases s.len(),
{
    if s.len() == 0 {
    } else {
        assert(forall|i: int|
            0 <= i < s.len() - 1 ==> #[trigger] s.drop_last()[i] == s[i]);
        lemma_digits_value_upper(s.drop_last());
        assert(digit_value(s.last()) <= 9);
        assert(pow10(s.len()) == 10 * pow10((s.len() - 1) as nat));
        assert(digits_value(s.drop_last()) * 10 <= (pow10((s.len() - 1) as nat) - 1) * 10)
            by (nonlinear_arith)
            requires
                digits_value(s.drop_last()) <= pow10((s.len() - 1) as nat) - 1,
        ;
    }
}

/// Extending a digit string can only increase its value.
pub proof fn lemma_digits_value_prefix(s: Seq<char>, k: int)
    requires
        all_digits(s),
        0 <= k <= s.len(),
    ensures
        digits_value(s.subrange(0, k)) <= digits_value(s),
    decreases s.len() - k,
{
    if k == s.len() {
        assert(s.subrange(0, k) =~= s);
    } else {
        lemma_digits_value_prefix(s, k + 1);
        let t = s.subrange(0, k + 1);
        assert(t.drop_last() =~= s.subrange(0, k));
        assert(is_digit(t.last()));
        assert(all_digits(t.drop_last()));
        lemma_digits_value_nonneg(t.drop_last());
        assert(digits_value(t) == digits_value(t.drop_last()) * 10 + digit_value(t.last()));
        assert(digits_value(t.drop_last()) * 10 >= digits_value(t.drop_last()))
            by (nonlinear_arith)
            requires
                digits_value(t.drop_last()) >= 0,
        ;
    }
}

/// A literal has at most one dot position that fits the fractional form.
proof fn lemma_dot_form_unique(s: Seq<char>, p1: int, p2: int)
    requires
        dot_form(s, p1),
        dot_form(s, p2),
    ensures
        p1 == p2,
{
    if p1 < p2 {
        assert(is_digit(s.subrange(0, p2)[p1]));
    } else if p2 < p1 {
        assert(is_digit(s.subrange(0, p1)[p2]));
    }
}

/// Concrete values of `10^n` up to `10^FRAC_DIGITS`.
proof fn lemma_pow10_table()
    ensures
        pow10(0) == 1,
        pow10(1) == 10,
        pow10(2) == 100,
        pow10(3) == 1000,
        pow10(4) == 10000,
        pow10(5) == 100000,
        pow10(6) == 1000000,
{
    assert(pow10(0) == 1);
    assert(pow10(1) == 10);
    assert(pow10(2) == 100);
    assert(pow10(3) == 1000);
    assert(pow10(4) == 10000);
    assert(pow10(5) == 100000);
    assert(pow10(6) == 1000000);
}

/// Parse the digit run `s[from..to]`.  Returns its value where every
/// character is a digit and the value fits; `None` otherwise.
fn parse_digits(s: &str, from: usize, to: usize) -> (r: Option<u128>)
    requires
        from <= to <= s@.len(),
    ensures
        ({
            let d = s@.subrange(from as int, to as int);
            match r {
                Some(v) => all_digits(d) && v as int == digits_value(d),
                None => !all_digits(d) || digits_value(d) > u128::MAX,
            }
        }),
{
    let ghost d = s@.subrange(from as int, to as int);
    let mut acc: u128 = 0;
    let mut i: usize = from;
    while i < to
        invariant
            from <= i <= to <= s@.len(),
            d == s@.subrange(from as int, to as int),
            all_digits(s@.subrange(from as int, i as int)),
            acc as int == digits_value(s@.subrange(from as int, i as int)),
        decreases to - i,
    {
        let c = s.get_char(i);
        proof {
            assert(s@.subrange(from as int, i as int + 1).drop_last() =~= s@.subrange(
                from as int,
                i as int,
            ));
            assert(s@.subrange(from as int, i as int + 1).last() == s@[i as int]);
        }
        if c < '0' || c > '9' {
            proof {
                assert(d[i - from] == s@[i as int]);
                assert(!is_digit(d[i - from]));
            }
            return None;
        }
        let digit = (c as u32 - 48) as u128;
        proof {
            assert(digit as int == digit_value(s@[i as int]));
        }
        let next = match acc.checked_mul(10) {
            Some(m) => m.checked_add(digit),
            None => None,
        };
        match next {
            Some(v) => {
                acc = v;
            }
            None => {
                proof {
                    let part = s@.subrange(from as int, i as int + 1);
                    assert(all_digits(part));
                    assert(digits_value(part) == acc as int * 10 + digit as int);
                    assert(digits_value(part) > u128::MAX);
                    if all_digits(d) {
                        lemma_digits_value_prefix(d, i + 1 - from);
                        assert(d.subrange(0, i + 1 - from) =~= part);
                    }
                }
                return None;
            }
        }
        i = i + 1;
    }
    proof {
        assert(s@.subrange(from as int, i as int) =~= d);
    }
    Some(acc)
}

/// `10^k` for `k` up to `FRAC_DIGITS`.
fn pow10_exec(k: usize) -> (r: u128)
    requires
        k <= FRAC_DIGITS,
    ensures
        r as int == pow10(k as nat),
{
    proof {
        lemma_pow10_table();
    }
    if k == 0 {
        1
    } else if k == 1 {
        10
    } else if k == 2 {
        100
    } else if k == 3 {
        1000
    } else if k == 4 {
        10000
    } else if k == 5 {
        100000
    } else {
        1000000
    }
}

/// Parse a decimal literal (`"2"`, `"1.5"`, `"100.250000"`) into subunits.
///
/// Returns `Some` exactly where the string matches the literal grammar and
/// its value in subunits fits a `u128`.
pub fn parse_amount(s: &str) -> (r: Option<u128>)
    ensures
        amount_fits(s@) ==> (r matches Some(v) && amount_of(s@) == Some(v as int)),
        !amount_fits(s@) ==> r is None,
{
    let n = s.unicode_len();
    // Find the dot, rejecting a second one.
    let mut dot: Option<usize> = None;
    let mut i: usize = 0;
    while i < n
        invariant
            i <= n,
            n == s@.len(),
            match dot {
                Some(p) => p < i && s@[p as int] == '.' && (forall|j: int|
                    0 <= j < i && j != p ==> s@[j] != '.'),
                None => forall|j: int| 0 <= j < i ==> s@[j] != '.',
            },
        decreases n - i,
    {
        let c = s.get_char(i);
        if c == '.' {
            match dot {
                Some(p0) => {
                    // A second dot: the string fits neither form.
                    proof {
                        assert(!is_digit(s@[p0 as int]));
                        assert(!plain_form(s@));
                        if exists|p: int| dot_form(s@, p) {
                            let p = choose|p: int| dot_form(s@, p);
                            if p < p0 {
                                assert(is_digit(
                                    s@.subrange(p + 1, s@.len() as int)[p0 - p - 1],
                                ));
                            } else if p0 < p {
                                assert(is_digit(s@.subrange(0, p)[p0 as int]));
                            } else {
                                assert(is_digit(
                                    s@.subrange(p + 1, s@.len() as int)[i - p - 1],
                                ));
                            }
                            assert(false);
                        }
                    }
                    return None;
                }
                None => {
                    dot = Some(i);
                }
            }
        }
        i = i + 1;
    }
    match dot {
        None => {
            // Integer literal.
            if n == 0 {
                proof {
                    assert(!plain_form(s@));
                    assert(forall|p: int| !dot_form(s@, p));
                }
                return None;
            }
            match parse_digits(s, 0, n) {
                Some(v) => {
                    proof {
                        assert(s@.subrange(0, n as int) =~= s@);
                        assert(plain_form(s@));
                        lemma_digits_value_nonneg(s@);
                    }
                    match v.checked_mul(SCALE) {
                        Some(w) => Some(w),
                        None => None,
                    }
                }
                None => {
                    proof {
                        assert(s@.subrange(0, n as int) =~= s@);
                        if all_digits(s@) {
                            // The run overflowed, so the scaled value overflows too.
                            lemma_digits_value_nonneg(s@);
                            assert(digits_value(s@) * SCALE >= digits_value(s@))
                                by (nonlinear_arith)
                                requires
                                    digits_value(s@) >= 0,
                            ;
                        } else {
                            assert(!plain_form(s@));
                            assert(forall|p: int| !dot_form(s@, p));
                        }
                    }
                    None
                }
            }
        }
        Some(p) => {
            // Fractional literal: the only candidate dot position is `p`.
            proof {
                assert(!is_digit(s@[p as int]));
                assert(!plain_form(s@));
                assert forall|q: int| dot_form(s@, q) implies q == p as int by {
                    if q < p as int {
                        assert(is_digit(s@.subrange(q + 1, s@.len() as int)[p as int - q - 1]));
                    } else if q > p as int {
                        assert(is_digit(s@.subrange(0, q)[p as int]));
                    }
                }
            }
            if p < 1 || n - p < 2 || n - p - 1 > FRAC_DIGITS {
                proof {
                    assert(!dot_form(s@, p as int));
                    assert(forall|q: int| !dot_form(s@, q));
                }
                return None;
            }
            let int_part = parse_digits(s, 0, p);
            let frac_part = parse_digits(s, p + 1, n);
            let ghost ipart = digits_value(s@.subrange(0, p as int));
            let ghost frac = digits_value(s@.subrange(p as int + 1, s@.len() as int));
            let ghost exp = (p + 1 + FRAC_DIGITS - s@.len()) as nat;
            match (int_part, frac_part) {
                (Some(iv), Some(fv)) => {
                    proof {
                        assert(dot_form(s@, p as int));
                        assert(amount_of(s@) == Some(dot_value(s@, p as int))) by {
                            let q = choose|q: int| dot_form(s@, q);
                            lemma_dot_form_unique(s@, q, p as int);
                        }
                        lemma_digits_value_upper(s@.subrange(p as int + 1, s@.len() as int));
                        lemma_digits_value_nonneg(s@.subrange(p as int + 1, s@.len() as int));
                        lemma_digits_value_nonneg(s@.subrange(0, p as int));
                    }
                    let fl = n - (p + 1);
                    let scale_frac = pow10_exec(FRAC_DIGITS - fl);
                    proof {
                        // frac < 10^fl, so frac * 10^(FRAC_DIGITS - fl) < SCALE.
                        lemma_pow10_table();
                        lemma_pow10_add(fl as nat, (FRAC_DIGITS - fl) as nat);
                        assert(frac * pow10((FRAC_DIGITS - fl) as nat) < pow10(fl as nat)
                            * pow10((FRAC_DIGITS - fl) as nat)) by (nonlinear_arith)
                            requires
                                frac < pow10(fl as nat),
                                frac >= 0,
                                pow10((FRAC_DIGITS - fl) as nat) >= 1,
                        {
                            lemma_pow10_pos((FRAC_DIGITS - fl) as nat);
                        }
                        assert(frac * pow10(exp) < SCALE);
                        assert(frac * pow10(exp) >= 0) by (nonlinear_arith)
                            requires
                                frac >= 0,
                                pow10(exp) >= 1,
                        {
                            lemma_pow10_pos(exp);
                        }
                    }
                    let frac_subunits = fv * scale_frac;
                    match iv.checked_mul(SCALE) {
                        Some(int_subunits) => match int_subunits.checked_add(frac_subunits) {
                            Some(total) => {
                                proof {
                                    assert(total as int == dot_value(s@, p as int));
                                }
                                Some(total)
                            }
                            None => {
                                proof {
                                    assert(dot_value(s@, p as int) > u128::MAX);
                                }
                                None
                            }
                        },
                        None => {
                            proof {
                                assert(ipart * SCALE > u128::MAX);
                                assert(dot_value(s@, p as int) > u128::MAX);
                            }
                            None
                        }
                    }
                }
                _ => {
                    proof {
                        lemma_pow10_pos(exp);
                        if all_digits(s@.subrange(0, p as int)) && all_digits(
                            s@.subrange(p as int + 1, s@.len() as int),
                        ) {
                            // One of the digit runs overflowed, so the value
                            // itself is out of range.
                            assert(dot_form(s@, p as int));
                            assert(amount_of(s@) == Some(dot_value(s@, p as int))) by {
                                let q = choose|q: int| dot_form(s@, q);
                                lemma_dot_form_unique(s@, q, p as int);
                            }
                            lemma_digits_value_nonneg(s@.subrange(0, p as int));
                            lemma_digits_value_nonneg(
                                s@.subrange(p as int + 1, s@.len() as int),
                            );
                            if int_part is None {
                                assert(ipart > u128::MAX);
                                assert(ipart * SCALE >= ipart) by (nonlinear_arith)
                                    requires
                                        ipart >= 0,
                                ;
                                assert(frac * pow10(exp) >= 0) by (nonlinear_arith)
                                    requires
                                        frac >= 0,
                                        pow10(exp) >= 1,
                                ;
                                assert(dot_value(s@, p as int) > u128::MAX);
                            } else {
                                assert(frac > u128::MAX);
                                assert(frac * pow10(exp) >= frac) by (nonlinear_arith)
                                    requires
                                        frac >= 0,
                                        pow10(exp) >= 1,
                                ;
                                assert(ipart * SCALE >= 0) by (nonlinear_arith)
                                    requires
                                        ipart >= 0,
                                ;
                                assert(dot_value(s@, p as int) > u128::MAX);
                            }
                        } else {
                            assert(!dot_form(s@, p as int));
                            assert(forall|q: int| !dot_form(s@, q));
                        }
                    }
                    None
                }
            }
        }
    }
}

/// `10^(a + b) == 10^a * 10^b`.
proof fn lemma_pow10_add(a: nat, b: nat)
    ensures
        pow10(a + b) == pow10(a) * pow10(b),
    decreases a,
{
    if a == 0 {
    } else {
        lemma_pow10_add((a - 1) as nat, b);
        assert(pow10(a + b) == 10 * pow10((a + b - 1) as nat));
        assert(pow10(a) * pow10(b) == 10 * (pow10((a - 1) as nat) * pow10(b)))
            by (nonlinear_arith)
            requires
                pow10(a) == 10 * pow10((a - 1) as nat),
        ;
    }
}

} // verus!
