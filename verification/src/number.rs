//! Rendering and parsing of the numeric tokens of the notation: integers in
//! plain decimal, fractional values in fixed notation with no exponent and no
//! trailing zeros. The token grammar both directions share is exactly the
//! fixed notation the encoder emits: an optional sign, digits, and an
//! optional fraction. Exponent forms and non-finite words are no numeric
//! tokens; they stand bare as strings, on both sides alike.

use vstd::prelude::*;
use crate::value::{Decimal, SpecValue, Value, frac_wf, spec_value_wf};

verus! {

broadcast use
    vstd::std_specs::vec::axiom_vec_decreases_to_view,
    vstd::seq::axiom_seq_index_decreases;

pub open spec fn is_digit(c: char) -> bool {
    '0' <= c && c <= '9'
}

pub open spec fn digit_of(c: char) -> int {
    c as int - '0' as int
}

/// The character for a single decimal digit.
pub open spec fn digit_char(d: int) -> char {
    if d == 0 {
        '0'
    } else if d == 1 {
        '1'
    } else if d == 2 {
        '2'
    } else if d == 3 {
        '3'
    } else if d == 4 {
        '4'
    } else if d == 5 {
        '5'
    } else if d == 6 {
        '6'
    } else if d == 7 {
        '7'
    } else if d == 8 {
        '8'
    } else {
        '9'
    }
}

pub open spec fn all_digits(s: Seq<char>) -> bool {
    forall|i: int| 0 <= i < s.len() ==> is_digit(#[trigger] s[i])
}

/// The numeric value of a sequence of digit characters, most significant
/// first.
pub open spec fn digits_val(s: Seq<char>) -> int
    decreases s,
{
    if s.len() == 0 {
        0
    } else {
        digits_val(s.drop_last()) * 10 + digit_of(s.last())
    }
}

/// The decimal rendering of a non-negative integer: no sign, no leading
/// zeros (except for zero itself).
pub open spec fn nat_digits(n: int) -> Seq<char>
    decreases n,
{
    if n < 10 {
        seq![digit_char(n)]
    } else {
        nat_digits(n / 10).push(digit_char(n % 10))
    }
}

/// The decimal rendering of an integer: a leading `-` for negative values.
pub open spec fn int_digits(n: int) -> Seq<char> {
    if n < 0 {
        seq!['-'] + nat_digits(-n)
    } else {
        nat_digits(n)
    }
}

/// The characters of a fractional digit sequence.
pub open spec fn frac_chars(fr: Seq<u8>) -> Seq<char>
    decreases fr,
{
    if fr.len() == 0 {
        Seq::empty()
    } else {
        frac_chars(fr.drop_last()).push(digit_char(fr.last() as int))
    }
}

/// The rendering of a fractional number: `whole.frac`, with a leading `-`
/// when negative.
pub open spec fn dec_digits(neg: bool, whole: int, frac: Seq<u8>) -> Seq<char> {
    (if neg {
        seq!['-']
    } else {
        Seq::<char>::empty()
    }) + nat_digits(whole) + seq!['.'] + frac_chars(frac)
}

/// Renders one decimal digit.
pub fn digit_to_char(d: u8) -> (c: char)
    requires
        d <= 9,
    ensures
        c == digit_char(d as int),
{
    match d {
        0 => '0',
        1 => '1',
        2 => '2',
        3 => '3',
        4 => '4',
        5 => '5',
        6 => '6',
        7 => '7',
        8 => '8',
        _ => '9',
    }
}

/// Renders a non-negative integer in decimal.
pub fn fmt_u64(n: u64) -> (r: Vec<char>)
    ensures
        r@ == nat_digits(n as int),
    decreases n,
{
    if n < 10 {
        let mut r: Vec<char> = Vec::new();
        r.push(digit_to_char(n as u8));
        proof {
            assert(r@ =~= nat_digits(n as int));
        }
        r
    } else {
        let mut r = fmt_u64(n / 10);
        r.push(digit_to_char((n % 10) as u8));
        r
    }
}

/// Renders a signed integer in decimal.
pub fn fmt_i64(n: i64) -> (r: Vec<char>)
    ensures
        r@ == int_digits(n as int),
{
    if n >= 0 {
        fmt_u64(n as u64)
    } else {
        let m: u64 = (-(n as i128)) as u64;
        let mut r: Vec<char> = Vec::new();
        r.push('-');
        let mut digits = fmt_u64(m);
        r.append(&mut digits);
        proof {
            assert(r@ =~= int_digits(n as int));
        }
        r
    }
}

/// Renders a fractional number in fixed notation.
pub fn fmt_decimal(d: &Decimal) -> (r: Vec<char>)
    requires
        frac_wf(d.frac@) || d.frac@.len() == 0,
        forall|i: int| 0 <= i < d.frac@.len() ==> d.frac@[i] <= 9,
    ensures
        r@ == dec_digits(d.neg, d.whole as int, d.frac@),
{
    let mut r: Vec<char> = Vec::new();
    if d.neg {
        r.push('-');
    }
    let mut whole = fmt_u64(d.whole);
    r.append(&mut whole);
    r.push('.');
    let n = d.frac.len();
    let ghost prefix = r@;
    let mut i: usize = 0;
    while i < n
        invariant
            n == d.frac@.len(),
            i <= n,
            forall|k: int| 0 <= k < d.frac@.len() ==> d.frac@[k] <= 9,
            r@ == prefix + frac_chars(d.frac@.take(i as int)),
        decreases n - i,
    {
        r.push(digit_to_char(d.frac[i]));
        proof {
            assert(d.frac@.take(i + 1 as int).drop_last() =~= d.frac@.take(i as int));
            assert(d.frac@.take(i + 1 as int).last() == d.frac@[i as int]);
            assert(r@ =~= prefix + frac_chars(d.frac@.take(i + 1 as int)));
        }
        i = i + 1;
    }
    proof {
        assert(d.frac@.take(n as int) =~= d.frac@);
        assert(r@ =~= dec_digits(d.neg, d.whole as int, d.frac@));
    }
    r
}

/// Splits an optional leading sign off a token: the sign's meaning and the
/// remaining characters.
pub open spec fn sign_split(s: Seq<char>) -> (bool, Seq<char>) {
    if s.len() > 0 && (s[0] == '-' || s[0] == '+') {
        (s[0] == '-', s.skip(1))
    } else {
        (false, s)
    }
}

/// The value of an integer token (optional sign, one or more digits, within
/// the signed 64-bit range), or `None` when `s` is no such token.
pub open spec fn int_token_val(s: Seq<char>) -> Option<int> {
    let (neg, ds) = sign_split(s);
    if ds.len() > 0 && all_digits(ds) {
        let v: int = if neg {
            -digits_val(ds)
        } else {
            digits_val(ds)
        };
        if i64::MIN <= v <= i64::MAX {
            Some(v)
        } else {
            None
        }
    } else {
        None
    }
}

/// The index of the first occurrence of `c` in `s`, or `-1`.
pub open spec fn find_char(s: Seq<char>, c: char) -> int
    decreases s,
{
    if s.len() == 0 {
        -1
    } else if s[0] == c {
        0
    } else {
        let r = find_char(s.skip(1), c);
        if r == -1 {
            -1
        } else {
            r + 1
        }
    }
}

/// Drops trailing zero digits.
pub open spec fn strip_zeros(fr: Seq<u8>) -> Seq<u8>
    decreases fr,
{
    if fr.len() > 0 && fr.last() == 0 {
        strip_zeros(fr.drop_last())
    } else {
        fr
    }
}

/// The digit values of a sequence of digit characters.
pub open spec fn digit_vals(s: Seq<char>) -> Seq<u8>
    decreases s,
{
    if s.len() == 0 {
        Seq::empty()
    } else {
        digit_vals(s.drop_last()).push(digit_of(s.last()) as u8)
    }
}

/// The parts of a fractional token (optional sign, digits, `.`, digits, the
/// whole part within the unsigned 64-bit range): sign, whole part, and the
/// fractional digits with trailing zeros stripped. `None` when `s` is no
/// such token.
pub open spec fn dec_token_val(s: Seq<char>) -> Option<(bool, int, Seq<u8>)> {
    let (neg, ds) = sign_split(s);
    let k = find_char(ds, '.');
    if k >= 1 {
        let pre = ds.take(k);
        let post = ds.skip(k + 1);
        if all_digits(pre) && post.len() > 0 && all_digits(post) && digits_val(pre) <= u64::MAX {
            Some((neg, digits_val(pre), strip_zeros(digit_vals(post))))
        } else {
            None
        }
    } else {
        None
    }
}

/// The value a numeric token denotes: an integer for integer tokens and for
/// fractional tokens whose fraction is all zeros, a decimal otherwise.
/// `None` when `s` is no numeric token the decoder accepts.
pub open spec fn number_token_val(s: Seq<char>) -> Option<SpecValue> {
    match int_token_val(s) {
        Some(v) => Some(SpecValue::Int(v)),
        None => match dec_token_val(s) {
            Some((neg, whole, frac)) => {
                if frac.len() == 0 {
                    let v: int = if neg {
                        -whole
                    } else {
                        whole
                    };
                    if i64::MIN <= v <= i64::MAX {
                        Some(SpecValue::Int(v))
                    } else {
                        None
                    }
                } else {
                    Some(SpecValue::Dec { neg, whole: whole as nat, frac })
                }
            },
            None => None,
        },
    }
}

/// Digit sequences denote non-negative values.
pub proof fn lemma_digits_val_nonneg(s: Seq<char>)
    requires
        all_digits(s),
    ensures
        digits_val(s) >= 0,
    decreases s,
{
    if s.len() > 0 {
        assert(all_digits(s.drop_last())) by {
            assert(forall|i: int|
                0 <= i < s.len() - 1 ==> is_digit(#[trigger] s.drop_last()[i]) == is_digit(s[i]));
        }
        lemma_digits_val_nonneg(s.drop_last());
        assert(is_digit(s.last()));
    }
}

/// `find_char` returns the first occurrence.
pub proof fn lemma_find_char_at(s: Seq<char>, c: char, k: int)
    requires
        0 <= k < s.len(),
        s[k] == c,
        forall|i: int| 0 <= i < k ==> s[i] != c,
    ensures
        find_char(s, c) == k,
    decreases s,
{
    if k > 0 {
        lemma_find_char_at(s.skip(1), c, k - 1);
    }
}

/// A hit of `find_char` is the first occurrence.
pub proof fn lemma_find_char_found(s: Seq<char>, c: char)
    requires
        find_char(s, c) >= 0,
    ensures
        find_char(s, c) < s.len(),
        s[find_char(s, c)] == c,
        forall|i: int| 0 <= i < find_char(s, c) ==> s[i] != c,
    decreases s,
{
    if s.len() > 0 && s[0] != c {
        lemma_find_char_found(s.skip(1), c);
        assert forall|i: int| 0 <= i < find_char(s, c) implies s[i] != c by {
            if i > 0 {
                assert(s.skip(1)[i - 1] == s[i]);
            }
        }
    }
}

/// `find_char` misses only when the character is absent.
pub proof fn lemma_find_char_none(s: Seq<char>, c: char)
    requires
        forall|i: int| 0 <= i < s.len() ==> s[i] != c,
    ensures
        find_char(s, c) == -1,
    decreases s,
{
    if s.len() > 0 {
        lemma_find_char_none(s.skip(1), c);
    }
}

/// Stripping trailing zeros keeps the digits and leaves no trailing zero.
pub proof fn lemma_strip_zeros(fr: Seq<u8>)
    requires
        forall|i: int| 0 <= i < fr.len() ==> fr[i] <= 9,
    ensures
        forall|i: int| 0 <= i < strip_zeros(fr).len() ==> strip_zeros(fr)[i] <= 9,
        strip_zeros(fr).len() > 0 ==> strip_zeros(fr).last() != 0,
    decreases fr,
{
    if fr.len() > 0 && fr.last() == 0 {
        assert(forall|i: int| 0 <= i < fr.len() - 1 ==> #[trigger] fr.drop_last()[i] == fr[i]);
        lemma_strip_zeros(fr.drop_last());
    }
}

/// The decimal rendering of a non-negative integer is a non-empty digit
/// sequence denoting that integer.
pub proof fn lemma_nat_digits(n: int)
    requires
        n >= 0,
    ensures
        nat_digits(n).len() >= 1,
        all_digits(nat_digits(n)),
        digits_val(nat_digits(n)) == n,
    decreases n,
{
    if n < 10 {
        assert(digits_val(nat_digits(n)) == digits_val(Seq::<char>::empty()) * 10 + n) by {
            assert(nat_digits(n).drop_last() =~= Seq::<char>::empty());
        }
    } else {
        lemma_nat_digits(n / 10);
        let s = nat_digits(n / 10).push(digit_char(n % 10));
        assert(s.drop_last() =~= nat_digits(n / 10));
        assert(digits_val(s) == (n / 10) * 10 + n % 10);
    }
}

/// A rendered integer token parses back to the same integer.
pub proof fn lemma_int_roundtrip(n: int)
    requires
        i64::MIN <= n <= i64::MAX,
    ensures
        number_token_val(int_digits(n)) == Some(SpecValue::Int(n)),
{
    if n < 0 {
        lemma_nat_digits(-n);
        let s = seq!['-'] + nat_digits(-n);
        assert(s[0] == '-');
        assert(s.skip(1) =~= nat_digits(-n));
        assert(int_token_val(s) == Some(n));
    } else {
        lemma_nat_digits(n);
        let s = nat_digits(n);
        assert(is_digit(s[0]));
        assert(s[0] != '-' && s[0] != '+');
        assert(int_token_val(s) == Some(n));
    }
}

/// The characters of a fraction are digits denoting the same digit values.
pub proof fn lemma_frac_chars(fr: Seq<u8>)
    requires
        forall|i: int| 0 <= i < fr.len() ==> fr[i] <= 9,
    ensures
        frac_chars(fr).len() == fr.len(),
        all_digits(frac_chars(fr)),
        digit_vals(frac_chars(fr)) == fr,
    decreases fr,
{
    if fr.len() > 0 {
        assert(forall|i: int| 0 <= i < fr.len() - 1 ==> fr.drop_last()[i] == fr[i]);
        lemma_frac_chars(fr.drop_last());
        let s = frac_chars(fr);
        assert(s.drop_last() =~= frac_chars(fr.drop_last()));
        assert(s.last() == digit_char(fr.last() as int));
        assert(digit_vals(s) =~= fr) by {
            assert(digit_vals(s) == digit_vals(s.drop_last()).push(digit_of(s.last()) as u8));
        }
    }
}

/// A rendered fractional token parses back to the same decimal.
pub proof fn lemma_dec_roundtrip(neg: bool, whole: int, frac: Seq<u8>)
    requires
        0 <= whole <= u64::MAX,
        frac_wf(frac),
    ensures
        number_token_val(dec_digits(neg, whole, frac)) == Some(
            SpecValue::Dec { neg, whole: whole as nat, frac },
        ),
{
    lemma_nat_digits(whole);
    lemma_frac_chars(frac);
    let w = nat_digits(whole);
    let s = dec_digits(neg, whole, frac);
    let ds = sign_split(s).1;
    if neg {
        assert(s[0] == '-');
        assert(ds =~= w + seq!['.'] + frac_chars(frac));
    } else {
        assert(s[0] == w[0] && is_digit(w[0]));
        assert(s[0] != '-' && s[0] != '+');
        assert(ds =~= w + seq!['.'] + frac_chars(frac));
    }
    assert(sign_split(s).0 == neg);
    let ll = w.len() as int;
    assert(ds[ll] == '.');
    assert(forall|i: int| 0 <= i < ll ==> ds[i] == w[i] && is_digit(w[i]));
    lemma_find_char_at(ds, '.', ll);
    assert(!all_digits(ds)) by {
        assert(!is_digit('.'));
    }
    assert(int_token_val(s) is None);
    let pre = ds.take(ll);
    let post = ds.skip(ll + 1);
    assert(pre =~= w);
    assert(post =~= frac_chars(frac));
    assert(strip_zeros(digit_vals(post)) == frac) by {
        assert(digit_vals(post) == frac);
        assert(frac.last() != 0);
    }
    assert(dec_token_val(s) == Some((neg, whole, frac)));
}

/// Whether a character is a decimal digit.
pub fn is_digit_char(c: char) -> (r: bool)
    ensures
        r == is_digit(c),
{
    '0' <= c && c <= '9'
}

/// Parses a numeric token: the value it denotes, or `None` when `s` is no
/// numeric token the format knows.
#[verifier::loop_isolation(false)]
#[verifier::rlimit(100)]
#[verifier::spinoff_prover]
pub fn parse_number(s: &Vec<char>) -> (r: Option<Value>)
    ensures
        match number_token_val(s@) {
            Some(v) => r is Some && r.unwrap()@ == v && spec_value_wf(v),
            None => r is None,
        },
{
    let n = s.len();
    let mut i0: usize = 0;
    let mut neg = false;
    if n > 0 && (s[0] == '-' || s[0] == '+') {
        neg = s[0] == '-';
        i0 = 1;
    }
    let ghost ds = sign_split(s@).1;
    proof {
        assert(ds =~= s@.skip(i0 as int));
        assert(neg == sign_split(s@).0);
    }
    if i0 == n {
        return None;
    }
    let mut j = i0;
    let mut acc: u128 = 0;
    let mut over = false;
    while j < n && is_digit_char(s[j])
        invariant
            i0 <= j <= n == s@.len(),
            ds =~= s@.skip(i0 as int),
            forall|k: int| i0 <= k < j ==> is_digit(#[trigger] s@[k]),
            !over ==> acc == digits_val(s@.subrange(i0 as int, j as int)) && acc <= u64::MAX,
            over ==> digits_val(s@.subrange(i0 as int, j as int)) > u64::MAX,
        decreases n - j,
    {
        let c = s[j];
        let d: u128 = (c as u32 - 48) as u128;
        proof {
            assert(digit_of(c) == d as int);
            assert(0 <= d <= 9);
            let pre = s@.subrange(i0 as int, j as int);
            let pre2 = s@.subrange(i0 as int, j as int + 1);
            assert(pre2.drop_last() =~= pre);
            assert(pre2.last() == s@[j as int]);
            assert(digits_val(pre2) == digits_val(pre) * 10 + d);
        }
        if !over {
            acc = acc * 10 + d;
            if acc > 0xFFFF_FFFF_FFFF_FFFF {
                over = true;
            }
        }
        j = j + 1;
    }
    let ghost whole_chars = s@.subrange(i0 as int, j as int);
    proof {
        lemma_digits_val_nonneg(whole_chars);
    }
    if j == n {
        // Integer token: every character after the sign is a digit.
        proof {
            assert(ds =~= whole_chars);
            assert(digits_val(ds) >= 0);
            assert(forall|i: int| 0 <= i < ds.len() ==> ds[i] != '.') by {
                assert(forall|i: int| 0 <= i < ds.len() ==> is_digit(#[trigger] ds[i]));
            }
            lemma_find_char_none(ds, '.');
        }
        if over {
            return None;
        }
        if neg {
            if acc > 0x8000_0000_0000_0000 {
                return None;
            }
            if acc == 0x8000_0000_0000_0000 {
                return Some(Value::Int(i64::MIN));
            }
            let v = acc as i64;
            return Some(Value::Int(-v));
        }
        if acc > 0x7FFF_FFFF_FFFF_FFFF {
            return None;
        }
        return Some(Value::Int(acc as i64));
    }
    // A character that is no digit stopped the scan.
    let c = s[j];
    proof {
        assert(!is_digit(c));
        assert(c == ds[j - i0]);
        if c != '.' {
            // Any dot lies past the bad character, so no fractional token.
            let k = find_char(ds, '.');
            if k >= 0 {
                lemma_find_char_found(ds, '.');
                if k >= 1 {
                    assert(!is_digit(ds[j - i0]));
                    assert(k > j - i0);
                    assert(ds.take(k)[j - i0] == ds[j - i0]);
                    assert(!all_digits(ds.take(k)));
                }
            }
            assert(number_token_val(s@) is None);
        }
    }
    if c != '.' {
        return None;
    }
    proof {
        assert(forall|i: int| 0 <= i < j - i0 ==> ds[i] == s@[i0 + i] && is_digit(s@[i0 + i]));
        lemma_find_char_at(ds, '.', j - i0);
    }
    if j == i0 {
        return None;
    }
    proof {
        assert(ds.take(j - i0) =~= whole_chars);
        assert(!all_digits(ds)) by {
            assert(ds[j - i0] == '.');
            assert(!is_digit('.'));
        }
    }
    if over {
        return None;
    }
    // Fractional token: the rest must be one or more digits.
    let mut k2 = j + 1;
    let mut fr: Vec<u8> = Vec::new();
    while k2 < n
        invariant
            j + 1 <= k2 <= n == s@.len(),
            i0 <= j < n,
            fr@ =~= digit_vals(s@.subrange(j as int + 1, k2 as int)),
            forall|i: int| j + 1 <= i < k2 ==> is_digit(#[trigger] s@[i]),
            forall|i: int| 0 <= i < fr@.len() ==> fr@[i] <= 9,
        decreases n - k2,
    {
        let c2 = s[k2];
        if !is_digit_char(c2) {
            proof {
                let post = ds.skip(j - i0 + 1);
                assert(post =~= s@.subrange(j as int + 1, n as int));
                assert(post[k2 - j - 1] == s@[k2 as int]);
                assert(!is_digit(post[k2 - j - 1]));
                assert(!all_digits(post));
            }
            return None;
        }
        let d: u8 = (c2 as u32 - 48) as u8;
        fr.push(d);
        proof {
            let p = s@.subrange(j as int + 1, k2 as int);
            let p2 = s@.subrange(j as int + 1, k2 as int + 1);
            assert(p2.drop_last() =~= p);
            assert(p2.last() == s@[k2 as int]);
            assert(digit_of(c2) == d as int);
            assert(fr@ =~= digit_vals(p2));
        }
        k2 = k2 + 1;
    }
    let ghost post = ds.skip(j - i0 + 1);
    proof {
        assert(post =~= s@.subrange(j as int + 1, n as int));
    }
    if fr.len() == 0 {
        return None;
    }
    // Strip trailing zeros from the fraction.
    let ghost fr_full = fr@;
    while fr.len() > 0 && fr[fr.len() - 1] == 0
        invariant
            strip_zeros(fr_full) == strip_zeros(fr@),
            forall|i: int| 0 <= i < fr@.len() ==> fr@[i] <= 9,
        decreases fr.len(),
    {
        proof {
            assert(forall|i: int| 0 <= i < fr@.len() - 1 ==> fr@.drop_last()[i] == fr@[i]);
        }
        fr.pop();
    }
    proof {
        assert(strip_zeros(fr@) == fr@);
        lemma_strip_zeros(fr_full);
        assert(dec_token_val(s@) == Some((neg, digits_val(whole_chars), fr@)));
    }
    let whole = acc as u64;
    if fr.len() == 0 {
        // The fraction was all zeros: the token denotes an integer.
        if neg {
            if whole > 0x8000_0000_0000_0000 {
                return None;
            }
            if whole == 0x8000_0000_0000_0000 {
                return Some(Value::Int(i64::MIN));
            }
            let v = whole as i64;
            return Some(Value::Int(-v));
        }
        if whole > 0x7FFF_FFFF_FFFF_FFFF {
            return None;
        }
        return Some(Value::Int(whole as i64));
    }
    Some(Value::Dec(Decimal { neg, whole, frac: fr }))
}

} // verus!
