//! Small text helpers shared by the hint parsers.
//!
//! Parsing works over `Vec<char>` so that every step is verified; the two
//! trusted conversions below move between `&str` and character vectors.

use vstd::prelude::*;

verus! {

/// Relies on str's `PartialEq`: two string slices are equal exactly when
/// their character sequences are.
#[verifier::external_body]
pub fn str_eq(a: &str, b: &str) -> (r: bool)
    ensures
        r == (a@ == b@),
{
    a == b
}

/// Relies on `str::chars`: iterating a string slice yields exactly its
/// characters in order.
#[verifier::external_body]
pub fn chars_of(s: &str) -> (r: Vec<char>)
    ensures
        r@ == s@,
{
    s.chars().collect()
}

/// Relies on `String::from_iter`: collecting characters builds the string
/// with exactly those characters in order.
#[verifier::external_body]
pub fn string_from_chars(v: &Vec<char>) -> (r: String)
    ensures
        r@ == v@,
{
    v.iter().collect()
}

/// Appends the characters of a string slice to a character vector.
pub fn append_str(cs: &mut Vec<char>, s: &str)
    ensures
        final(cs)@ == old(cs)@ + s@,
{
    let extra = chars_of(s);
    let ghost p = cs@;
    let mut i: usize = 0;
    while i < extra.len()
        invariant
            i <= extra@.len(),
            extra@ == s@,
            cs@ == p + extra@.take(i as int),
        decreases extra@.len() - i,
    {
        proof {
            assert(p + extra@.take(i + 1) =~= (p + extra@.take(i as int)).push(extra@[i as int]));
        }
        cs.push(extra[i]);
        i += 1;
    }
    proof {
        assert(extra@.take(extra@.len() as int) =~= extra@);
    }
}

/// Appends one character vector to another.
pub fn append_chars(cs: &mut Vec<char>, extra: &Vec<char>)
    ensures
        final(cs)@ == old(cs)@ + extra@,
{
    let ghost p = cs@;
    let mut i: usize = 0;
    while i < extra.len()
        invariant
            i <= extra@.len(),
            cs@ == p + extra@.take(i as int),
        decreases extra@.len() - i,
    {
        proof {
            assert(p + extra@.take(i + 1) =~= (p + extra@.take(i as int)).push(extra@[i as int]));
        }
        cs.push(extra[i]);
        i += 1;
    }
    proof {
        assert(extra@.take(extra@.len() as int) =~= extra@);
    }
}

/// The hexadecimal digit character for a value below sixteen.
pub open spec fn hex_digit_char(d: u64) -> char {
    if d == 0 {
        '0'
    } else if d == 1 {
        '1'
    } else if d == 2 {
        '2'
    } else if d == 3 {
        '3'
    } else if d == 4 {
        '4'
    } else if d == 5 {
        '5'
    } else if d == 6 {
        '6'
    } else if d == 7 {
        '7'
    } else if d == 8 {
        '8'
    } else if d == 9 {
        '9'
    } else if d == 10 {
        'a'
    } else if d == 11 {
        'b'
    } else if d == 12 {
        'c'
    } else if d == 13 {
        'd'
    } else if d == 14 {
        'e'
    } else {
        'f'
    }
}

/// The last `n` hexadecimal digits of `v`, most significant first.
pub open spec fn hex_seq(v: u64, n: nat) -> Seq<char>
    decreases n,
{
    if n == 0 {
        Seq::empty()
    } else {
        hex_seq(v / 16, (n - 1) as nat).push(hex_digit_char(v % 16))
    }
}

/// The number of hexadecimal digits of `v`: one for zero.
pub open spec fn hex_len(v: u64) -> nat
    decreases v,
{
    if v < 16 {
        1
    } else {
        1 + hex_len(v / 16)
    }
}

/// `v` in lower-case hexadecimal, zero-padded on the left to at least
/// `width` digits.
pub open spec fn hex_padded(v: u64, width: nat) -> Seq<char> {
    if hex_len(v) >= width {
        hex_seq(v, hex_len(v))
    } else {
        hex_seq(v, width)
    }
}

/// One hexadecimal digit, as a character.
fn hex_digit(d: u64) -> (r: char)
    requires
        d < 16,
    ensures
        r == hex_digit_char(d),
{
    if d == 0 {
        '0'
    } else if d == 1 {
        '1'
    } else if d == 2 {
        '2'
    } else if d == 3 {
        '3'
    } else if d == 4 {
        '4'
    } else if d == 5 {
        '5'
    } else if d == 6 {
        '6'
    } else if d == 7 {
        '7'
    } else if d == 8 {
        '8'
    } else if d == 9 {
        '9'
    } else if d == 10 {
        'a'
    } else if d == 11 {
        'b'
    } else if d == 12 {
        'c'
    } else if d == 13 {
        'd'
    } else if d == 14 {
        'e'
    } else {
        'f'
    }
}

/// Formats `v` in lower-case hexadecimal, zero-padded to at least `width`
/// digits.
pub fn format_hex(v: u64, width: usize) -> (r: Vec<char>)
    ensures
        r@ == hex_padded(v, width as nat),
{
    let mut digits: usize = 1;
    let mut rest: u64 = v / 16;
    proof {
        if v >= 16 {
            assert(hex_len(v) == 1 + hex_len(v / 16));
        }
    }
    while rest > 0
        invariant
            digits >= 1,
            digits < usize::MAX,
            rest > 0 ==> hex_len(v) == digits + hex_len(rest),
            rest == 0 ==> hex_len(v) == digits,
        decreases rest,
    {
        let prev = rest;
        rest = prev / 16;
        digits = digits + 1;
        proof {
            lemma_hex_len_bound(v);
            if prev >= 16 {
                assert(hex_len(prev) == 1 + hex_len(prev / 16));
            } else {
                assert(hex_len(prev) == 1);
            }
        }
    }
    let n: usize = if digits >= width {
        digits
    } else {
        width
    };
    let mut out: Vec<char> = Vec::new();
    let mut i: usize = n;
    let mut cur: u64 = v;
    while i > 0
        invariant
            i <= n,
            out@.len() == n - i,
            hex_seq(v, n as nat) == hex_seq(cur, i as nat) + out@,
        decreases i,
    {
        let d = cur % 16;
        let mut next: Vec<char> = Vec::new();
        next.push(hex_digit(d));
        let ghost prev_out = out@;
        let mut k: usize = 0;
        while k < out.len()
            invariant
                k <= out@.len(),
                out@ == prev_out,
                next@ == seq![hex_digit_char(cur % 16)] + prev_out.take(k as int),
            decreases out@.len() - k,
        {
            proof {
                assert(prev_out.take(k + 1) =~= prev_out.take(k as int).push(prev_out[k as int]));
            }
            next.push(out[k]);
            k += 1;
        }
        proof {
            assert(prev_out.take(prev_out.len() as int) =~= prev_out);
            assert(hex_seq(cur, i as nat) == hex_seq(cur / 16, (i - 1) as nat).push(
                hex_digit_char(cur % 16),
            ));
            assert(hex_seq(cur / 16, (i - 1) as nat) + next@ =~= hex_seq(cur, i as nat)
                + prev_out);
        }
        out = next;
        cur = cur / 16;
        i = i - 1;
    }
    proof {
        assert(hex_seq(cur, 0) =~= Seq::<char>::empty());
        assert(Seq::<char>::empty() + out@ =~= out@);
        assert(out@ == hex_seq(v, n as nat));
    }
    out
}

/// Powers of sixteen.
spec fn pow16(k: nat) -> int
    decreases k,
{
    if k == 0 {
        1
    } else {
        16 * pow16((k - 1) as nat)
    }
}

/// Powers of sixteen are positive.
proof fn lemma_pow16_pos(k: nat)
    ensures
        pow16(k) > 0,
    decreases k,
{
    if k > 0 {
        lemma_pow16_pos((k - 1) as nat);
    }
}

/// Values below the `k`-th power of sixteen have at most `k` digits.
proof fn lemma_hex_len_le(v: u64, k: nat)
    requires
        k >= 1,
        (v as int) < pow16(k),
    ensures
        hex_len(v) <= k,
    decreases k,
{
    if v >= 16 {
        assert(pow16(k) == 16 * pow16((k - 1) as nat));
        lemma_pow16_pos((k - 1) as nat);
        assert((v as int) / 16 < pow16((k - 1) as nat)) by (nonlinear_arith)
            requires
                (v as int) < 16 * pow16((k - 1) as nat),
                pow16((k - 1) as nat) > 0,
        {
        }
        lemma_hex_len_le(v / 16, (k - 1) as nat);
    }
}

/// A 64-bit value has at most sixteen hexadecimal digits.
proof fn lemma_hex_len_bound(v: u64)
    ensures
        hex_len(v) <= 16,
{
    assert(pow16(0) == 1);
    assert(pow16(1) == 16);
    assert(pow16(2) == 256);
    assert(pow16(3) == 4096);
    assert(pow16(4) == 65536);
    assert(pow16(5) == 1048576);
    assert(pow16(6) == 16777216);
    assert(pow16(7) == 268435456);
    assert(pow16(8) == 4294967296);
    assert(pow16(9) == 68719476736);
    assert(pow16(10) == 1099511627776);
    assert(pow16(11) == 17592186044416);
    assert(pow16(12) == 281474976710656);
    assert(pow16(13) == 4503599627370496);
    assert(pow16(14) == 72057594037927936);
    assert(pow16(15) == 1152921504606846976);
    assert(pow16(16) == 18446744073709551616);
    lemma_hex_len_le(v, 16);
}

} // verus!
