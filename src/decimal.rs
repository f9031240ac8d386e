//! Decimal text of unsigned numbers: digits, zero padding and reading back.

use vstd::prelude::*;

verus! {

/// The character of a decimal digit.
pub open spec fn digit_char(d: nat) -> char {
    if d == 0 { '0' }
    else if d == 1 { '1' }
    else if d == 2 { '2' }
    else if d == 3 { '3' }
    else if d == 4 { '4' }
    else if d == 5 { '5' }
    else if d == 6 { '6' }
    else if d == 7 { '7' }
    else if d == 8 { '8' }
    else { '9' }
}

/// The value of a digit character, `None` for any other character.
pub open spec fn digit_value(c: char) -> Option<nat> {
    if c == '0' { Some(0nat) }
    else if c == '1' { Some(1nat) }
    else if c == '2' { Some(2nat) }
    else if c == '3' { Some(3nat) }
    else if c == '4' { Some(4nat) }
    else if c == '5' { Some(5nat) }
    else if c == '6' { Some(6nat) }
    else if c == '7' { Some(7nat) }
    else if c == '8' { Some(8nat) }
    else if c == '9' { Some(9nat) }
    else { None }
}

/// The shortest decimal text of `n`, most significant digit first.
pub open spec fn decimal_digits(n: nat) -> Seq<char>
    decreases n,
{
    if n < 10 {
        seq![digit_char(n)]
    } else {
        decimal_digits(n / 10).push(digit_char(n % 10))
    }
}

/// Whether every character of `s` is a decimal digit.
pub open spec fn all_digits(s: Seq<char>) -> bool {
    forall|i: int| 0 <= i < s.len() ==> (#[trigger] digit_value(s[i])) is Some
}

/// The number that a run of digits denotes.
pub open spec fn decimal_value(s: Seq<char>) -> nat
    decreases s.len(),
{
    if s.len() == 0 {
        0
    } else {
        decimal_value(s.drop_last()) * 10 + match digit_value(s.last()) {
            Some(d) => d,
            None => 0,
        }
    }
}

/// `n` in decimal, left-padded with zeros to at least `width` characters.
pub open spec fn padded_decimal(n: nat, width: nat) -> Seq<char> {
    let digits = decimal_digits(n);
    if digits.len() < width {
        Seq::new((width - digits.len()) as nat, |i: int| '0') + digits
    } else {
        digits
    }
}

proof fn lemma_digit_round_trip(d: nat)
    requires
        d < 10,
    ensures
        digit_value(digit_char(d)) == Some(d),
{
}

/// The digits of `n` are digits and denote `n`.
pub proof fn lemma_decimal_digits_value(n: nat)
    ensures
        all_digits(decimal_digits(n)),
        decimal_value(decimal_digits(n)) == n,
        decimal_digits(n).len() >= 1,
    decreases n,
{
    if n < 10 {
        lemma_digit_round_trip(n);
        let s = decimal_digits(n);
        assert(s.drop_last() =~= Seq::<char>::empty());
        assert(s.last() == digit_char(n));
        assert(decimal_value(s) == decimal_value(s.drop_last()) * 10 + n);
        assert(decimal_value(Seq::<char>::empty()) == 0);
    } else {
        lemma_decimal_digits_value(n / 10);
        lemma_digit_round_trip(n % 10);
        let s = decimal_digits(n);
        assert(s.drop_last() =~= decimal_digits(n / 10));
        assert(s.last() == digit_char(n % 10));
        assert((n / 10) * 10 + n % 10 == n) by (nonlinear_arith);
        assert(decimal_value(s) == decimal_value(s.drop_last()) * 10 + n % 10);
        assert forall|i: int| 0 <= i < s.len() implies (#[trigger] digit_value(s[i])) is Some by {
            if i < s.len() - 1 {
                assert(s[i] == decimal_digits(n / 10)[i]);
            }
        }
    }
}

/// Leading zeros do not change the value of a run of digits.
pub proof fn lemma_leading_zeros(k: nat, s: Seq<char>)
    ensures
        decimal_value(Seq::new(k, |i: int| '0') + s) == decimal_value(s),
    decreases s.len(),
{
    let z = Seq::new(k, |i: int| '0');
    if s.len() == 0 {
        assert(z + s =~= z);
        lemma_zeros_value(k);
    } else {
        lemma_leading_zeros(k, s.drop_last());
        assert((z + s).drop_last() =~= z + s.drop_last());
        assert((z + s).last() == s.last());
    }
}

proof fn lemma_zeros_value(k: nat)
    ensures
        decimal_value(Seq::new(k, |i: int| '0')) == 0,
    decreases k,
{
    if k > 0 {
        lemma_zeros_value((k - 1) as nat);
        assert(Seq::new(k, |i: int| '0').drop_last() =~= Seq::new((k - 1) as nat, |i: int| '0'));
    }
}

/// Zero padding keeps the width as a minimum, uses only digits, and reads
/// back as the number that was padded.
pub proof fn lemma_padded_decimal(n: nat, width: nat)
    ensures
        padded_decimal(n, width).len() >= width,
        padded_decimal(n, width).len() >= 1,
        all_digits(padded_decimal(n, width)),
        decimal_value(padded_decimal(n, width)) == n,
        padded_decimal(n, width).len() > decimal_digits(n).len() ==> padded_decimal(n, width)[0]
            == '0',
{
    lemma_decimal_digits_value(n);
    let digits = decimal_digits(n);
    if digits.len() < width {
        let k = (width - digits.len()) as nat;
        lemma_leading_zeros(k, digits);
        let p = padded_decimal(n, width);
        assert forall|i: int| 0 <= i < p.len() implies (#[trigger] digit_value(p[i])) is Some by {
            if i >= k {
                assert(p[i] == digits[i - k]);
            }
        }
    }
}

/// The decimal digits of `n`, appended to `s`.
pub(crate) fn push_digits(s: &mut String, n: usize)
    ensures
        final(s)@ == old(s)@ + decimal_digits(n as nat),
    decreases n,
{
    if n >= 10 {
        push_digits(s, n / 10);
    }
    let d: usize = n % 10;
    let table = "0123456789";
    proof {
        reveal_strlit("0123456789");
    }
    let one = table.substring_char(d, d + 1);
    assert(one@ =~= seq![digit_char(d as nat)]);
    s.append(one);
    assert(s@ =~= old(s)@ + decimal_digits(n as nat));
}

/// `n` in decimal, left-padded with zeros to at least `width` characters.
pub fn zero_padded(n: usize, width: usize) -> (r: String)
    ensures
        r@ == padded_decimal(n as nat, width as nat),
{
    let mut digits = String::new();
    push_digits(&mut digits, n);
    assert(digits@ =~= decimal_digits(n as nat));
    let count = digits.as_str().unicode_len();
    let mut r = String::new();
    let mut k: usize = count;
    while k < width
        invariant
            count == decimal_digits(n as nat).len(),
            count <= k <= width || (k == count && count >= width),
            r@ == Seq::new((k - count) as nat, |i: int| '0'),
        decreases width - k,
    {
        r.append("0");
        proof {
            reveal_strlit("0");
        }
        assert(r@ =~= Seq::new((k + 1 - count) as nat, |i: int| '0'));
        k = k + 1;
    }
    r.append(digits.as_str());
    assert(r@ =~= padded_decimal(n as nat, width as nat));
    r
}

/// The number a typed index denotes: an optional `+` and then one or more
/// digits, with a value that fits in `usize`.
pub open spec fn parsed_index(s: Seq<char>) -> Option<nat> {
    let d = if s.len() > 0 && s[0] == '+' {
        s.drop_first()
    } else {
        s
    };
    if d.len() > 0 && all_digits(d) && decimal_value(d) <= usize::MAX {
        Some(decimal_value(d))
    } else {
        None
    }
}

proof fn lemma_value_of_prefix(s: Seq<char>, i: int)
    requires
        0 <= i <= s.len(),
    ensures
        decimal_value(s.subrange(0, i)) <= decimal_value(s),
    decreases s.len() - i,
{
    if i < s.len() {
        lemma_value_of_prefix(s, i + 1);
        let p = s.subrange(0, i + 1);
        assert(p.drop_last() =~= s.subrange(0, i));
    } else {
        assert(s.subrange(0, i) =~= s);
    }
}

/// Reads a typed index: an optional `+` and then decimal digits; `None`
/// when the text is not of that form or its value does not fit.
pub fn parse_index(s: &str) -> (r: Option<usize>)
    ensures
        match r {
            Some(v) => parsed_index(s@) == Some(v as nat),
            None => parsed_index(s@) is None,
        },
{
    let n = s.unicode_len();
    let mut i: usize = 0;
    if n > 0 && s.get_char(0) == '+' {
        i = 1;
    }
    let start = i;
    let ghost d = if s@.len() > 0 && s@[0] == '+' {
        s@.drop_first()
    } else {
        s@
    };
    assert(d =~= s@.subrange(start as int, n as int));
    assert(parsed_index(s@) == (if d.len() > 0 && all_digits(d) && decimal_value(d) <= usize::MAX {
        Some(decimal_value(d))
    } else {
        None
    }));
    if start == n {
        return None;
    }
    let mut v: usize = 0;
    assert(d.subrange(0, 0) =~= Seq::<char>::empty());
    while i < n
        invariant
            n == s@.len(),
            start <= i <= n,
            d == s@.subrange(start as int, n as int),
            parsed_index(s@) == (if d.len() > 0 && all_digits(d) && decimal_value(d) <= usize::MAX {
                Some(decimal_value(d))
            } else {
                None
            }),
            v as nat == decimal_value(d.subrange(0, i - start)),
            all_digits(d.subrange(0, i - start)),
        decreases n - i,
    {
        let c = s.get_char(i);
        let ghost k = i - start;
        assert(d[k] == c);
        let ghost p = d.subrange(0, k + 1);
        assert(p.drop_last() =~= d.subrange(0, k));
        let digit: usize = if c == '0' { 0 }
            else if c == '1' { 1 }
            else if c == '2' { 2 }
            else if c == '3' { 3 }
            else if c == '4' { 4 }
            else if c == '5' { 5 }
            else if c == '6' { 6 }
            else if c == '7' { 7 }
            else if c == '8' { 8 }
            else if c == '9' { 9 }
            else {
                assert(!all_digits(d)) by {
                    assert(digit_value(d[k]) is None);
                }
                assert(parsed_index(s@) is None);
                return None;
            };
        assert(decimal_value(p) == decimal_value(d.subrange(0, k)) * 10 + digit);
        if v > (usize::MAX - digit) / 10 {
            proof {
                lemma_value_of_prefix(d, k + 1);
            }
            assert(decimal_value(p) > usize::MAX) by (nonlinear_arith)
                requires
                    decimal_value(p) == v * 10 + digit,
                    v > (usize::MAX - digit) / 10,
                    digit <= 9,
            ;
            assert(parsed_index(s@) is None);
            return None;
        }
        assert(v * 10 + digit <= usize::MAX) by (nonlinear_arith)
            requires
                v <= (usize::MAX - digit) / 10,
                digit <= 9,
        ;
        v = v * 10 + digit;
        assert forall|j: int| 0 <= j < p.len() implies (#[trigger] digit_value(p[j])) is Some by {
            if j < k {
                assert(p[j] == d.subrange(0, k)[j]);
            }
        }
        i = i + 1;
    }
    assert(d.subrange(0, n - start) =~= d);
    Some(v)
}

} // verus!
