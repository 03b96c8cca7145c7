//! Canonical decimal representation of unsigned integers, as characters:
//! the spec-level representation, an exec writer, and an exec scanner,
//! each proved against the other.

use vstd::prelude::*;

verus! {

/// The character is one of '0' ..= '9'.
pub open spec fn is_dec_digit(c: char) -> bool {
    48 <= c as u32 <= 57
}

/// Numeric value of a digit character; 0 on anything else.
pub open spec fn digit_val(c: char) -> nat {
    if 48 <= c as u32 {
        (c as u32 - 48) as nat
    } else {
        0
    }
}

/// The digit character for one value below ten.
pub open spec fn digit_char(d: nat) -> char {
    ((48 + d) as u8) as char
}

/// The canonical decimal representation of `n`: no sign, no leading zeros.
pub open spec fn dec_rep(n: nat) -> Seq<char>
    decreases n,
{
    if n < 10 {
        seq![digit_char(n)]
    } else {
        dec_rep(n / 10).push(digit_char(n % 10))
    }
}

/// The value a digit string denotes.
pub open spec fn dec_val(s: Seq<char>) -> nat
    decreases s.len(),
{
    if s.len() == 0 {
        0
    } else {
        dec_val(s.drop_last()) * 10 + digit_val(s.last())
    }
}

/// Every character of `s` is a decimal digit.
pub open spec fn all_dec_digits(s: Seq<char>) -> bool {
    forall|i: int| 0 <= i < s.len() ==> is_dec_digit(#[trigger] s[i])
}

/// The first position at or after `i` that does not hold a digit
/// (the length of `s` if digits run to the end).
pub open spec fn digit_end(s: Seq<char>, i: int) -> int
    decreases s.len() - i,
{
    if i < s.len() && is_dec_digit(s[i]) {
        digit_end(s, i + 1)
    } else {
        i
    }
}

pub proof fn lemma_dec_rep_digits(n: nat)
    ensures
        dec_rep(n).len() >= 1,
        all_dec_digits(dec_rep(n)),
    decreases n,
{
    if n < 10 {
        assert(is_dec_digit(digit_char(n)));
        assert(dec_rep(n) =~= seq![digit_char(n)]);
    } else {
        lemma_dec_rep_digits(n / 10);
        assert(is_dec_digit(digit_char(n % 10)));
        assert forall|i: int| 0 <= i < dec_rep(n).len() implies is_dec_digit(
            #[trigger] dec_rep(n)[i],
        ) by {
            if i < dec_rep(n / 10).len() {
                assert(dec_rep(n)[i] == dec_rep(n / 10)[i]);
            }
        }
    }
}

pub proof fn lemma_dec_val_of_rep(n: nat)
    ensures
        dec_val(dec_rep(n)) == n,
    decreases n,
{
    if n < 10 {
        let s = seq![digit_char(n)];
        assert(dec_rep(n) =~= s);
        assert(s.drop_last() =~= Seq::<char>::empty());
        assert(dec_val(s.drop_last()) == 0);
        assert(s.last() == digit_char(n));
        assert(digit_val(digit_char(n)) == n);
        assert(dec_val(s) == dec_val(s.drop_last()) * 10 + digit_val(s.last()));
        assert(dec_val(dec_rep(n)) == n);
    } else {
        lemma_dec_val_of_rep(n / 10);
        let s = dec_rep(n / 10).push(digit_char(n % 10));
        assert(dec_rep(n) == s);
        assert(s.len() == dec_rep(n / 10).len() + 1);
        assert(s.drop_last() =~= dec_rep(n / 10));
        assert(s.last() == digit_char(n % 10));
        assert(digit_val(digit_char(n % 10)) == n % 10);
        assert(dec_val(s) == dec_val(s.drop_last()) * 10 + digit_val(s.last()));
        assert((n / 10) * 10 + n % 10 == n) by (nonlinear_arith);
        assert(dec_val(dec_rep(n)) == n);
    }
}

/// If `[i, j)` holds only digits and `j` is the end or a non-digit,
/// then `j` is exactly where the digit run ends.
pub proof fn lemma_digit_end_is(s: Seq<char>, i: int, j: int)
    requires
        0 <= i <= j <= s.len(),
        forall|k: int| i <= k < j ==> is_dec_digit(#[trigger] s[k]),
        j == s.len() || !is_dec_digit(s[j]),
    ensures
        digit_end(s, i) == j,
    decreases j - i,
{
    if i < j {
        lemma_digit_end_is(s, i + 1, j);
    }
}

/// The value of a digit string never shrinks when the string grows to the right.
pub proof fn lemma_dec_val_sub_mono(s: Seq<char>, i: int, k1: int, k2: int)
    requires
        0 <= i <= k1 <= k2 <= s.len(),
    ensures
        dec_val(s.subrange(i, k1)) <= dec_val(s.subrange(i, k2)),
    decreases k2 - k1,
{
    if k1 < k2 {
        lemma_dec_val_sub_mono(s, i, k1, k2 - 1);
        let a = s.subrange(i, k2 - 1);
        let b = s.subrange(i, k2);
        assert(b.drop_last() =~= a);
        assert(dec_val(b) == dec_val(a) * 10 + digit_val(b.last()));
        assert(dec_val(a) * 10 >= dec_val(a)) by (nonlinear_arith);
    } else {
        assert(s.subrange(i, k1) =~= s.subrange(i, k2));
    }
}

/// The digit text for one value below ten.
fn digit_str(d: u8) -> (r: &'static str)
    requires
        d < 10,
    ensures
        r@ =~= seq![digit_char(d as nat)],
{
    proof {
        reveal_strlit("0");
        reveal_strlit("1");
        reveal_strlit("2");
        reveal_strlit("3");
        reveal_strlit("4");
        reveal_strlit("5");
        reveal_strlit("6");
        reveal_strlit("7");
        reveal_strlit("8");
        reveal_strlit("9");
    }
    match d {
        0 => "0",
        1 => "1",
        2 => "2",
        3 => "3",
        4 => "4",
        5 => "5",
        6 => "6",
        7 => "7",
        8 => "8",
        _ => "9",
    }
}

/// Appends the canonical decimal representation of `n` to `out`.
pub fn append_dec(n: u128, out: &mut String)
    ensures
        final(out)@ == old(out)@ + dec_rep(n as nat),
    decreases n,
{
    if n < 10 {
        out.append(digit_str(n as u8));
        assert(out@ =~= old(out)@ + dec_rep(n as nat));
    } else {
        proof {
            assert(n / 10 < n) by (nonlinear_arith)
                requires n >= 10;
        }
        append_dec(n / 10, out);
        out.append(digit_str((n % 10) as u8));
        assert(out@ =~= old(out)@ + dec_rep(n as nat));
    }
}

/// The canonical decimal text of `n`.
pub fn u128_to_dec(n: u128) -> (r: String)
    ensures
        r@ == dec_rep(n as nat),
{
    let mut s = String::new();
    append_dec(n, &mut s);
    assert(s@ =~= dec_rep(n as nat));
    s
}

/// Scans the digit run of `s` that starts at `start`. Returns the value the
/// run denotes and the position just past it; `None` when no digit stands at
/// `start` or the run denotes a value beyond `u128`.
pub fn scan_dec(s: &str, start: usize) -> (r: Option<(u128, usize)>)
    requires
        start <= s@.len(),
    ensures
        ({
            let e = digit_end(s@, start as int);
            if start < s@.len() && is_dec_digit(s@[start as int]) && dec_val(
                s@.subrange(start as int, e),
            ) <= u128::MAX {
                r matches Some(p) && p.0 as nat == dec_val(s@.subrange(start as int, e)) && p.1
                    == e
            } else {
                r is None
            }
        }),
{
    let n = s.unicode_len();
    if start >= n {
        return None;
    }
    let c0 = s.get_char(start);
    if !(48 <= c0 as u32 && c0 as u32 <= 57) {
        return None;
    }
    let mut k: usize = start;
    let mut acc: u128 = 0;
    loop
        invariant
            start <= k <= n,
            n == s@.len(),
            forall|j: int| start <= j < k ==> is_dec_digit(#[trigger] s@[j]),
            acc as nat == dec_val(s@.subrange(start as int, k as int)),
            is_dec_digit(s@[start as int]),
            start < n,
        decreases n - k,
    {
        if k >= n {
            proof {
                lemma_digit_end_is(s@, start as int, k as int);
            }
            return Some((acc, k));
        }
        let c = s.get_char(k);
        let cu = c as u32;
        if !(48 <= cu && cu <= 57) {
            proof {
                lemma_digit_end_is(s@, start as int, k as int);
            }
            return Some((acc, k));
        }
        let d: u128 = (cu - 48) as u128;
        if acc > (u128::MAX - d) / 10 {
            proof {
                let e = digit_end(s@, start as int);
                lemma_digit_run_extends(s@, start as int, k as int);
                assert(s@.subrange(start as int, k as int + 1).drop_last() =~= s@.subrange(
                    start as int,
                    k as int,
                ));
                assert(dec_val(s@.subrange(start as int, k as int + 1)) == acc * 10 + d);
                assert(acc * 10 + d > u128::MAX) by (nonlinear_arith)
                    requires acc > (u128::MAX - d) / 10, d <= 9;
                lemma_dec_val_sub_mono(s@, start as int, k as int + 1, e);
            }
            return None;
        }
        proof {
            assert(acc * 10 + d <= u128::MAX) by (nonlinear_arith)
                requires acc <= (u128::MAX - d) / 10, d <= 9;
            assert(s@.subrange(start as int, k as int + 1).drop_last() =~= s@.subrange(
                start as int,
                k as int,
            ));
        }
        acc = acc * 10 + d;
        k = k + 1;
    }
}

/// When the digit run from `i` reaches a digit at `k`, the run's end lies past `k`.
proof fn lemma_digit_run_extends(s: Seq<char>, i: int, k: int)
    requires
        0 <= i <= k < s.len(),
        forall|j: int| i <= j < k ==> is_dec_digit(#[trigger] s[j]),
        is_dec_digit(s[k]),
    ensures
        digit_end(s, i) >= k + 1,
        forall|j: int| i <= j < digit_end(s, i) ==> is_dec_digit(#[trigger] s[j]),
        digit_end(s, i) <= s.len(),
    decreases k - i,
{
    lemma_digit_end_props(s, i);
    if i < k {
        lemma_digit_run_extends(s, i + 1, k);
    }
}

/// Basic bounds of `digit_end`: it stays within the string, the run before it
/// is all digits, and it stops at the end or at a non-digit.
pub proof fn lemma_digit_end_props(s: Seq<char>, i: int)
    requires
        0 <= i <= s.len(),
    ensures
        i <= digit_end(s, i) <= s.len(),
        forall|j: int| i <= j < digit_end(s, i) ==> is_dec_digit(#[trigger] s[j]),
        digit_end(s, i) == s.len() || !is_dec_digit(s[digit_end(s, i)]),
    decreases s.len() - i,
{
    if i < s.len() && is_dec_digit(s[i]) {
        lemma_digit_end_props(s, i + 1);
    }
}

/// Compares `lit` against `s` at position `start`, character by character.
pub fn match_at(s: &str, start: usize, lit: &str) -> (b: bool)
    requires
        start <= s@.len(),
    ensures
        b == (start + lit@.len() <= s@.len() && s@.subrange(
            start as int,
            start as int + lit@.len() as int,
        ) =~= lit@),
{
    let n = s.unicode_len();
    let m = lit.unicode_len();
    if m > n - start {
        return false;
    }
    let mut j: usize = 0;
    while j < m
        invariant
            0 <= j <= m,
            start + m <= n,
            n == s@.len(),
            m == lit@.len(),
            forall|i: int| 0 <= i < j ==> s@[start + i] == lit@[i],
        decreases m - j,
    {
        let a = s.get_char(start + j);
        let b = lit.get_char(j);
        if a != b {
            assert(s@.subrange(start as int, start as int + m as int)[j as int] != lit@[j as int]);
            return false;
        }
        j = j + 1;
    }
    assert(s@.subrange(start as int, start as int + m as int) =~= lit@);
    true
}

/// Character-for-character equality of two texts.
pub fn str_eq(a: &str, b: &str) -> (r: bool)
    ensures
        r == (a@ == b@),
{
    let la = a.unicode_len();
    let lb = b.unicode_len();
    if la != lb {
        return false;
    }
    let m = match_at(a, 0, b);
    proof {
        assert(a@.subrange(0, a@.len() as int) =~= a@);
        if a@ == b@ {
            assert(a@.subrange(0, b@.len() as int) =~= b@);
        }
    }
    m
}

} // verus!
