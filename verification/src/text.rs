//! Decimal text: the spec-level decimal form of integers, verified
//! integer-to-text and text-to-integer conversions, and the one helper that
//! materialises a `String` from a vector of characters.
use vstd::prelude::*;

use crate::arith::sat64;

verus! {

/// Is `c` an ASCII digit?
pub open spec fn is_digit_char(c: char) -> bool {
    '0' as int <= c as int && c as int <= '9' as int
}

/// The numeric value of an ASCII digit.
pub open spec fn digit_val(c: char) -> int {
    c as int - '0' as int
}

/// Every character of `s` is an ASCII digit.
pub open spec fn all_digits(s: Seq<char>) -> bool {
    forall|i: int| 0 <= i < s.len() ==> is_digit_char(s[i])
}

/// The ASCII digit with value `d` (for `0 <= d <= 9`).
pub open spec fn digit_char_of(d: int) -> char {
    if d == 0 {
        '0'
    } else if d == 1 {
        '1'
    } else if d == 2 {
        '2'
    } else if d == 3 {
        '3'
    } else if d == 4 {
        '4'
    } else if d == 5 {
        '5'
    } else if d == 6 {
        '6'
    } else if d == 7 {
        '7'
    } else if d == 8 {
        '8'
    } else {
        '9'
    }
}

/// The decimal text of a non-negative integer, without sign or padding.
pub open spec fn dec_u(n: int) -> Seq<char>
    decreases n,
    via dec_u_decreases
{
    if n < 10 {
        seq![digit_char_of(n)]
    } else {
        dec_u(n / 10).push(digit_char_of(n % 10))
    }
}

#[via_fn]
proof fn dec_u_decreases(n: int) {
    if n >= 10 {
        vstd::arithmetic::div_mod::lemma_div_decreases(n, 10);
    }
}

/// The decimal text of a signed integer: a leading `-` for negatives.
pub open spec fn dec_i(n: int) -> Seq<char> {
    if n >= 0 {
        dec_u(n)
    } else {
        seq!['-'] + dec_u(-n)
    }
}

/// The integer a string of digits denotes (most significant first);
/// an empty string denotes 0.
pub open spec fn dec_val(s: Seq<char>) -> int
    decreases s.len(),
{
    if s.len() == 0 {
        0
    } else {
        dec_val(s.drop_last()) * 10 + digit_val(s.last())
    }
}

pub proof fn lemma_dec_val_nonneg(s: Seq<char>)
    requires
        all_digits(s),
    ensures
        dec_val(s) >= 0,
    decreases s.len(),
{
    if s.len() > 0 {
        assert(all_digits(s.drop_last()));
        lemma_dec_val_nonneg(s.drop_last());
    }
}

/// The decimal text of `n` consists of digits and denotes `n`.
pub proof fn lemma_dec_u_val(n: int)
    requires
        n >= 0,
    ensures
        all_digits(dec_u(n)),
        dec_u(n).len() >= 1,
        dec_val(dec_u(n)) == n,
    decreases n,
{
    if n < 10 {
        assert(dec_u(n) == seq![digit_char_of(n)]);
        assert(dec_val(dec_u(n)) == dec_val(seq![digit_char_of(n)].drop_last()) * 10 + digit_val(
            digit_char_of(n),
        ));
        assert(seq![digit_char_of(n)].drop_last() == Seq::<char>::empty());
    } else {
        vstd::arithmetic::div_mod::lemma_div_decreases(n, 10);
        vstd::arithmetic::div_mod::lemma_div_pos_is_pos(n, 10);
        lemma_dec_u_val(n / 10);
        vstd::arithmetic::div_mod::lemma_fundamental_div_mod(n, 10);
        vstd::arithmetic::div_mod::lemma_mod_division_less_than_divisor(n, 10);
        let s = dec_u(n);
        assert(s == dec_u(n / 10).push(digit_char_of(n % 10)));
        assert(s.drop_last() == dec_u(n / 10));
        assert(forall|i: int|
            0 <= i < s.len() ==> is_digit_char(
                #[trigger] s[i],
            )) by {
            assert(forall|i: int| 0 <= i < s.len() - 1 ==> s[i] == dec_u(n / 10)[i]);
        }
        assert(dec_val(s) == dec_val(dec_u(n / 10)) * 10 + digit_val(digit_char_of(n % 10)));
    }
}

/// The ASCII digit test, executable form.
pub fn is_digit(c: char) -> (r: bool)
    ensures
        r == is_digit_char(c),
{
    let u = c as u32;
    ('0' as u32) <= u && u <= ('9' as u32)
}

/// The value of an ASCII digit, executable form.
pub fn digit_value(c: char) -> (r: i64)
    requires
        is_digit_char(c),
    ensures
        r == digit_val(c),
        0 <= r <= 9,
{
    ((c as u32) - ('0' as u32)) as i64
}

/// The ASCII digit with value `d`, executable form.
pub fn digit_char(d: u64) -> (r: char)
    requires
        d <= 9,
    ensures
        r == digit_char_of(d as int),
{
    if d == 0 {
        '0'
    } else if d == 1 {
        '1'
    } else if d == 2 {
        '2'
    } else if d == 3 {
        '3'
    } else if d == 4 {
        '4'
    } else if d == 5 {
        '5'
    } else if d == 6 {
        '6'
    } else if d == 7 {
        '7'
    } else if d == 8 {
        '8'
    } else {
        '9'
    }
}

/// The decimal digits of `n`, most significant first.
pub fn digits_of_u64(n: u64) -> (v: Vec<char>)
    ensures
        v@ == dec_u(n as int),
    decreases n,
{
    if n < 10 {
        let mut v: Vec<char> = Vec::new();
        v.push(digit_char(n));
        proof {
            assert(v@ == dec_u(n as int));
        }
        v
    } else {
        proof {
            vstd::arithmetic::div_mod::lemma_div_decreases(n as int, 10);
        }
        let mut v = digits_of_u64(n / 10);
        v.push(digit_char(n % 10));
        v
    }
}

/// The characters of a string slice, in order.
pub fn string_chars(s: &str) -> (v: Vec<char>)
    ensures
        v@ == s@,
{
    let n = s.unicode_len();
    let mut v: Vec<char> = Vec::new();
    let mut i: usize = 0;
    while i < n
        invariant
            0 <= i <= n,
            n == s@.len(),
            v@ == s@.take(i as int),
        decreases n - i,
    {
        let c = s.get_char(i);
        v.push(c);
        proof {
            assert(s@.take(i as int + 1) =~= s@.take(i as int).push(s@[i as int]));
        }
        i = i + 1;
    }
    proof {
        assert(s@.take(n as int) == s@);
    }
    v
}

/// The characters of `v` in `[lo, hi)`, as their own vector.
pub fn subvec(v: &Vec<char>, lo: usize, hi: usize) -> (r: Vec<char>)
    requires
        lo <= hi <= v@.len(),
    ensures
        r@ == v@.subrange(lo as int, hi as int),
{
    let mut r: Vec<char> = Vec::new();
    let mut i = lo;
    while i < hi
        invariant
            lo <= i <= hi <= v@.len(),
            r@ == v@.subrange(lo as int, i as int),
        decreases hi - i,
    {
        r.push(v[i]);
        proof {
            assert(v@.subrange(lo as int, i as int + 1) =~= v@.subrange(
                lo as int,
                i as int,
            ).push(v@[i as int]));
        }
        i = i + 1;
    }
    r
}

/// Relies on `String: FromIterator<char>` (through `Iterator::collect`):
/// collecting characters yields the string of exactly those characters in
/// order.
#[verifier::external_body]
pub fn chars_to_string(v: &Vec<char>) -> (s: String)
    ensures
        s@ == v@,
{
    v.iter().collect()
}

/// The decimal text of an unsigned 64-bit integer.
pub fn string_of_u64(n: u64) -> (s: String)
    ensures
        s@ == dec_u(n as int),
{
    let v = digits_of_u64(n);
    chars_to_string(&v)
}

/// The decimal text of a signed 64-bit integer.
pub fn string_of_i64(n: i64) -> (s: String)
    ensures
        s@ == dec_i(n as int),
{
    if n >= 0 {
        string_of_u64(n as u64)
    } else {
        let mag: u64 = if n == i64::MIN {
            9223372036854775808u64
        } else {
            (-n) as u64
        };
        let mut v: Vec<char> = Vec::new();
        v.push('-');
        let mut digits = digits_of_u64(mag);
        v.append(&mut digits);
        proof {
            assert(v@ == seq!['-'] + dec_u(mag as int));
        }
        chars_to_string(&v)
    }
}

/// Parse a digit string, clamping to `i64::MAX` on overflow.
pub fn parse_digits_saturating(s: &Vec<char>) -> (r: i64)
    requires
        all_digits(s@),
    ensures
        r as int == sat64(dec_val(s@)),
{
    let n = s.len();
    let mut acc: i64 = 0;
    let mut i: usize = 0;
    proof {
        assert(s@.take(0) == Seq::<char>::empty());
    }
    while i < n
        invariant
            0 <= i <= n,
            n == s@.len(),
            all_digits(s@),
            acc as int == sat64(dec_val(s@.take(i as int))),
            acc >= 0,
        decreases n - i,
    {
        let c = s[i];
        let d = digit_value(c);
        let step = crate::arith::sat_add_i64(crate::arith::sat_mul_i64(acc, 10), d);
        proof {
            let p = s@.take(i as int);
            let q = s@.take(i as int + 1);
            assert(q.drop_last() == p);
            assert(q.last() == s@[i as int]);
            assert(dec_val(q) == dec_val(p) * 10 + digit_val(c));
            assert(all_digits(p));
            lemma_dec_val_nonneg(p);
            assert(step as int == sat64(dec_val(q)));
        }
        acc = step;
        i = i + 1;
    }
    proof {
        assert(s@.take(n as int) == s@);
    }
    acc
}

/// Parse a digit string exactly: `None` for an empty string or a value
/// beyond `i64::MAX` (as integer parsing rejects both).
pub fn parse_digits_checked(s: &Vec<char>) -> (r: Option<i64>)
    requires
        all_digits(s@),
    ensures
        r is Some <==> (s@.len() >= 1 && dec_val(s@) <= i64::MAX),
        r is Some ==> r->0 == dec_val(s@),
{
    let n = s.len();
    if n == 0 {
        return None;
    }
    let mut acc: Option<i64> = Some(0);
    let mut i: usize = 0;
    proof {
        assert(s@.take(0) == Seq::<char>::empty());
    }
    while i < n
        invariant
            0 <= i <= n,
            n == s@.len(),
            all_digits(s@),
            acc is Some <==> dec_val(s@.take(i as int)) <= i64::MAX,
            acc is Some ==> acc->0 == dec_val(s@.take(i as int)) && acc->0 >= 0,
        decreases n - i,
    {
        let c = s[i];
        let d = digit_value(c);
        proof {
            let p = s@.take(i as int);
            let q = s@.take(i as int + 1);
            assert(q.drop_last() == p);
            assert(q.last() == s@[i as int]);
            assert(dec_val(q) == dec_val(p) * 10 + digit_val(c));
            assert(all_digits(p));
            lemma_dec_val_nonneg(p);
        }
        acc = match acc {
            Some(v) => match v.checked_mul(10) {
                Some(w) => w.checked_add(d),
                None => None,
            },
            None => None,
        };
        i = i + 1;
    }
    proof {
        assert(s@.take(n as int) == s@);
    }
    acc
}

} // verus!
