//! Byte-level building blocks shared by the object and index codecs:
//! decimal ASCII renderings of integers, big-endian fixed-width fields,
//! and the lexicographic order on byte strings used to sort tree entries
//! and index records.

use vstd::prelude::*;
use vstd::std_specs::cmp::PartialEqSpec;

verus! {

// ---------------------------------------------------------------------------
// Decimal ASCII renderings
// ---------------------------------------------------------------------------

/// The ASCII byte for a single decimal digit.
pub open spec fn dec_digit(d: nat) -> u8
    recommends
        d < 10,
{
    (0x30 + d) as u8
}

/// The decimal ASCII rendering of `n`, without leading zeros.
pub open spec fn dec_digits(n: nat) -> Seq<u8>
    decreases n,
{
    if n < 10 {
        seq![dec_digit(n)]
    } else {
        dec_digits(n / 10).push(dec_digit(n % 10))
    }
}

pub open spec fn is_dec_digit(b: u8) -> bool {
    0x30 <= b <= 0x39
}

pub open spec fn is_dec_digits(s: Seq<u8>) -> bool {
    forall|i: int| 0 <= i < s.len() ==> is_dec_digit(#[trigger] s[i])
}

/// The numeric value of a sequence of decimal ASCII digits.
pub open spec fn dec_val(s: Seq<u8>) -> nat
    recommends
        is_dec_digits(s),
    decreases s.len(),
{
    if s.len() == 0 {
        0
    } else {
        (dec_val(s.drop_last()) * 10 + (s.last() - 0x30)) as nat
    }
}

pub proof fn lemma_dec_digits_wf(n: nat)
    ensures
        dec_digits(n).len() >= 1,
        is_dec_digits(dec_digits(n)),
        dec_digits(n)[0] != 0x20,
    decreases n,
{
    if n >= 10 {
        lemma_dec_digits_wf(n / 10);
    }
}

pub proof fn lemma_dec_val_of_digits(n: nat)
    ensures
        dec_val(dec_digits(n)) == n,
    decreases n,
{
    if n < 10 {
        assert(dec_digits(n).drop_last() =~= Seq::<u8>::empty());
        assert(dec_digits(n).last() == dec_digit(n));
        assert(dec_digit(n) == 0x30 + n);
        assert(dec_val(Seq::<u8>::empty()) == 0);
        assert(dec_val(dec_digits(n)) == (0 * 10 + (0x30 + n - 0x30)) as nat);
    } else {
        lemma_dec_val_of_digits(n / 10);
        assert(dec_digits(n).drop_last() =~= dec_digits(n / 10));
        assert(dec_digits(n).last() == dec_digit(n % 10));
        assert(dec_digit(n % 10) == 0x30 + n % 10);
        assert(dec_val(dec_digits(n)) == (dec_val(dec_digits(n / 10)) * 10 + (0x30 + n % 10
            - 0x30)) as nat);
        assert(n / 10 * 10 + n % 10 == n) by (nonlinear_arith);
    }
}

/// Appending digits never decreases the value read so far.
pub proof fn lemma_dec_val_prefix_le(s: Seq<u8>, j: int)
    requires
        is_dec_digits(s),
        0 <= j <= s.len(),
    ensures
        dec_val(s.take(j)) <= dec_val(s),
    decreases s.len(),
{
    if j < s.len() {
        assert(is_dec_digit(s.last()));
        assert(dec_val(s) >= dec_val(s.drop_last()));
        assert(s.take(j) =~= s.drop_last().take(j));
        lemma_dec_val_prefix_le(s.drop_last(), j);
    } else {
        assert(s.take(j) =~= s);
    }
}

/// The decimal ASCII rendering of `n`, as a byte vector.
pub fn u64_to_dec(n: u64) -> (r: Vec<u8>)
    ensures
        r@ == dec_digits(n as nat),
    decreases n,
{
    if n < 10 {
        let mut v: Vec<u8> = Vec::new();
        v.push(0x30u8 + n as u8);
        proof {
            assert(v@ =~= dec_digits(n as nat));
        }
        v
    } else {
        let mut v = u64_to_dec(n / 10);
        v.push(0x30u8 + (n % 10) as u8);
        v
    }
}

/// What parsing an unsigned decimal field yields: defined exactly when the
/// bytes are one or more decimal digits whose value fits in a `u32`.
pub open spec fn parse_u32_dec_spec(s: Seq<u8>) -> Option<u32> {
    if s.len() > 0 && is_dec_digits(s) && dec_val(s) <= u32::MAX {
        Some(dec_val(s) as u32)
    } else {
        None
    }
}

pub fn parse_u32_dec(s: &[u8]) -> (r: Option<u32>)
    ensures
        r == parse_u32_dec_spec(s@),
{
    if s.len() == 0 {
        return None;
    }
    let mut i: usize = 0;
    let mut acc: u32 = 0;
    while i < s.len()
        invariant
            0 <= i <= s@.len(),
            is_dec_digits(s@.take(i as int)),
            acc == dec_val(s@.take(i as int)),
        decreases s@.len() - i,
    {
        let b = s[i];
        if b < 0x30 || b > 0x39 {
            assert(!is_dec_digit(s@[i as int]));
            return None;
        }
        let wide: u64 = acc as u64 * 10 + (b - 0x30) as u64;
        proof {
            assert(s@.take(i + 1 as int).drop_last() =~= s@.take(i as int));
            assert(s@.take(i + 1 as int).last() == s@[i as int]);
        }
        if wide > u32::MAX as u64 {
            proof {
                if is_dec_digits(s@) {
                    assert(dec_val(s@.take(i + 1 as int)) == wide);
                    lemma_dec_val_prefix_le(s@, i + 1 as int);
                }
            }
            return None;
        }
        acc = wide as u32;
        i += 1;
    }
    proof {
        assert(s@.take(i as int) =~= s@);
    }
    Some(acc)
}

// ---------------------------------------------------------------------------
// Signed decimal (for commit dates)
// ---------------------------------------------------------------------------

/// The decimal ASCII rendering of a signed integer: a leading `-` for
/// negative values, then the magnitude's digits.
pub open spec fn i64_dec_bytes(d: int) -> Seq<u8> {
    if d >= 0 {
        dec_digits(d as nat)
    } else {
        seq![0x2du8] + dec_digits((-d) as nat)
    }
}

/// What parsing a signed decimal field yields: defined exactly when the
/// bytes are an optional `-` followed by digits, with the value in `i64`
/// range.
pub open spec fn parse_i64_dec_spec(s: Seq<u8>) -> Option<i64> {
    if s.len() > 0 && s[0] == 0x2d {
        let mag = s.subrange(1, s.len() as int);
        if mag.len() > 0 && is_dec_digits(mag) && dec_val(mag) <= 0x8000000000000000 {
            Some((0 - dec_val(mag)) as i64)
        } else {
            None
        }
    } else if s.len() > 0 && is_dec_digits(s) && dec_val(s) <= i64::MAX {
        Some(dec_val(s) as i64)
    } else {
        None
    }
}

pub fn i64_to_dec(d: i64) -> (r: Vec<u8>)
    ensures
        r@ == i64_dec_bytes(d as int),
{
    if d >= 0 {
        u64_to_dec(d as u64)
    } else {
        let mag: u64 = if d == i64::MIN {
            0x8000000000000000u64
        } else {
            (-d) as u64
        };
        let mut v: Vec<u8> = Vec::new();
        v.push(0x2du8);
        let digits = u64_to_dec(mag);
        let mut k: usize = 0;
        while k < digits.len()
            invariant
                0 <= k <= digits@.len(),
                v@ == seq![0x2du8] + digits@.take(k as int),
            decreases digits@.len() - k,
        {
            let b = digits[k];
            v.push(b);
            proof {
                assert(v@ =~= seq![0x2du8] + digits@.take(k + 1 as int));
            }
            k += 1;
        }
        proof {
            assert(digits@.take(k as int) =~= digits@);
        }
        v
    }
}

pub fn parse_i64_dec(s: &[u8]) -> (r: Option<i64>)
    ensures
        r == parse_i64_dec_spec(s@),
{
    if s.len() == 0 {
        return None;
    }
    if s[0] == 0x2d {
        let mag = parse_u64_dec_bounded(s, 1, 0x8000000000000000u64);
        match mag {
            Some(m) => {
                if m == 0x8000000000000000u64 {
                    Some(i64::MIN)
                } else {
                    Some(-(m as i64))
                }
            },
            None => None,
        }
    } else {
        proof {
            assert(s@.subrange(0, s@.len() as int) =~= s@);
        }
        let mag = parse_u64_dec_bounded(s, 0, i64::MAX as u64);
        match mag {
            Some(m) => Some(m as i64),
            None => None,
        }
    }
}

/// Parses `s[from..]` as decimal digits with value at most `bound`.
fn parse_u64_dec_bounded(s: &[u8], from: usize, bound: u64) -> (r: Option<u64>)
    requires
        from <= s@.len(),
        bound <= 0x8000000000000000u64,
    ensures
        ({
            let mag = s@.subrange(from as int, s@.len() as int);
            match r {
                Some(m) => mag.len() > 0 && is_dec_digits(mag) && dec_val(mag) == m && m <= bound,
                None => !(mag.len() > 0 && is_dec_digits(mag) && dec_val(mag) <= bound),
            }
        }),
{
    let ghost mag = s@.subrange(from as int, s@.len() as int);
    if from == s.len() {
        return None;
    }
    let mut i: usize = from;
    let mut acc: u64 = 0;
    while i < s.len()
        invariant
            from <= i <= s@.len(),
            from < s@.len(),
            bound <= 0x8000000000000000u64,
            mag == s@.subrange(from as int, s@.len() as int),
            is_dec_digits(s@.subrange(from as int, i as int)),
            acc == dec_val(s@.subrange(from as int, i as int)),
            acc <= bound,
        decreases s@.len() - i,
    {
        let b = s[i];
        proof {
            assert(mag[i - from] == s@[i as int]);
        }
        if b < 0x30 || b > 0x39 {
            assert(!is_dec_digit(mag[i - from]));
            return None;
        }
        let wide_hi: u64 = acc;
        proof {
            assert(s@.subrange(from as int, i + 1 as int).drop_last() =~= s@.subrange(
                from as int,
                i as int,
            ));
            assert(s@.subrange(from as int, i + 1 as int).last() == s@[i as int]);
        }
        if wide_hi > 0xC000000000000000u64 / 10 {
            // acc * 10 already exceeds any permitted bound
            proof {
                if is_dec_digits(mag) {
                    assert(mag.take(i + 1 - from) =~= s@.subrange(from as int, i + 1 as int));
                    assert(dec_val(s@.subrange(from as int, i + 1 as int)) > bound);
                    lemma_dec_val_prefix_le(mag, i + 1 - from);
                }
            }
            return None;
        }
        let wide: u64 = acc * 10 + (b - 0x30) as u64;
        if wide > bound {
            proof {
                if is_dec_digits(mag) {
                    assert(mag.take(i + 1 - from) =~= s@.subrange(from as int, i + 1 as int));
                    assert(dec_val(s@.subrange(from as int, i + 1 as int)) == wide);
                    lemma_dec_val_prefix_le(mag, i + 1 - from);
                }
            }
            return None;
        }
        acc = wide;
        i += 1;
    }
    proof {
        assert(s@.subrange(from as int, i as int) =~= mag);
    }
    Some(acc)
}

/// Rendering then parsing a signed decimal gives back the value.
pub proof fn lemma_i64_dec_round_trip(d: i64)
    ensures
        parse_i64_dec_spec(i64_dec_bytes(d as int)) == Some(d),
{
    if d >= 0 {
        lemma_dec_digits_wf(d as nat);
        lemma_dec_val_of_digits(d as nat);
        assert(is_dec_digit(dec_digits(d as nat)[0]));
        assert(dec_digits(d as nat)[0] != 0x2d);
    } else {
        let s = i64_dec_bytes(d as int);
        let m = (-(d as int)) as nat;
        lemma_dec_digits_wf(m);
        lemma_dec_val_of_digits(m);
        assert(s.subrange(1, s.len() as int) =~= dec_digits(m));
    }
}

/// Rendering then parsing an unsigned decimal gives back the value.
pub proof fn lemma_u32_dec_round_trip(x: u32)
    ensures
        parse_u32_dec_spec(dec_digits(x as nat)) == Some(x),
{
    lemma_dec_digits_wf(x as nat);
    lemma_dec_val_of_digits(x as nat);
}

// ---------------------------------------------------------------------------
// Big-endian fixed-width fields
// ---------------------------------------------------------------------------

pub open spec fn be16_bytes(x: u16) -> Seq<u8> {
    seq![(x / 0x100) as u8, (x % 0x100) as u8]
}

pub open spec fn be32_bytes(x: u32) -> Seq<u8> {
    seq![
        (x / 0x1000000) as u8,
        ((x / 0x10000) % 0x100) as u8,
        ((x / 0x100) % 0x100) as u8,
        (x % 0x100) as u8,
    ]
}

/// The value held by four big-endian bytes.
pub open spec fn read_be32(s: Seq<u8>) -> u32
    recommends
        s.len() == 4,
{
    (s[0] * 0x1000000 + s[1] * 0x10000 + s[2] * 0x100 + s[3]) as u32
}

/// The value held by two big-endian bytes.
pub open spec fn read_be16(s: Seq<u8>) -> u16
    recommends
        s.len() == 2,
{
    (s[0] * 0x100 + s[1]) as u16
}

pub proof fn lemma_be32_round_trip(x: u32)
    ensures
        read_be32(be32_bytes(x)) == x,
{
    assert(x == (x / 0x1000000) * 0x1000000 + ((x / 0x10000) % 0x100) * 0x10000 + ((x / 0x100)
        % 0x100) * 0x100 + (x % 0x100)) by (nonlinear_arith);
}

pub proof fn lemma_be16_round_trip(x: u16)
    ensures
        read_be16(be16_bytes(x)) == x,
{
    assert(x == (x / 0x100) * 0x100 + (x % 0x100)) by (nonlinear_arith);
}

/// Appends the big-endian bytes of `x` to `v`.
pub fn push_be32(v: &mut Vec<u8>, x: u32)
    ensures
        final(v)@ == old(v)@ + be32_bytes(x),
{
    v.push((x / 0x1000000) as u8);
    v.push(((x / 0x10000) % 0x100) as u8);
    v.push(((x / 0x100) % 0x100) as u8);
    v.push((x % 0x100) as u8);
    proof {
        assert(v@ =~= old(v)@ + be32_bytes(x));
    }
}

pub fn push_be16(v: &mut Vec<u8>, x: u16)
    ensures
        final(v)@ == old(v)@ + be16_bytes(x),
{
    v.push((x / 0x100) as u8);
    v.push((x % 0x100) as u8);
    proof {
        assert(v@ =~= old(v)@ + be16_bytes(x));
    }
}

/// Reads a big-endian `u32` at offset `off`.
pub fn get_be32(s: &[u8], off: usize) -> (r: u32)
    requires
        off + 4 <= s@.len(),
    ensures
        r == read_be32(s@.subrange(off as int, off + 4)),
{
    let r = (s[off] as u32) * 0x1000000 + (s[off + 1] as u32) * 0x10000 + (s[off + 2] as u32)
        * 0x100 + (s[off + 3] as u32);
    proof {
        let sub = s@.subrange(off as int, off + 4);
        assert(sub[0] == s@[off as int]);
        assert(sub[1] == s@[off + 1]);
        assert(sub[2] == s@[off + 2]);
        assert(sub[3] == s@[off + 3]);
    }
    r
}

/// Reads a big-endian `u16` at offset `off`.
pub fn get_be16(s: &[u8], off: usize) -> (r: u16)
    requires
        off + 2 <= s@.len(),
    ensures
        r == read_be16(s@.subrange(off as int, off + 2)),
{
    let r = (s[off] as u16) * 0x100 + (s[off + 1] as u16);
    proof {
        let sub = s@.subrange(off as int, off + 2);
        assert(sub[0] == s@[off as int]);
        assert(sub[1] == s@[off + 1]);
    }
    r
}

// ---------------------------------------------------------------------------
// Lexicographic order on byte strings
// ---------------------------------------------------------------------------

/// `a` is lexicographically at most `b`, byte by byte, with a shorter
/// prefix ordered first.
pub open spec fn lex_le(a: Seq<u8>, b: Seq<u8>) -> bool
    decreases a.len(),
{
    if a.len() == 0 {
        true
    } else if b.len() == 0 {
        false
    } else if a[0] < b[0] {
        true
    } else if a[0] > b[0] {
        false
    } else {
        lex_le(a.drop_first(), b.drop_first())
    }
}

pub proof fn lemma_lex_le_total(a: Seq<u8>, b: Seq<u8>)
    ensures
        lex_le(a, b) || lex_le(b, a),
    decreases a.len(),
{
    if a.len() > 0 && b.len() > 0 && a[0] == b[0] {
        lemma_lex_le_total(a.drop_first(), b.drop_first());
    }
}

pub proof fn lemma_lex_le_antisymmetric(a: Seq<u8>, b: Seq<u8>)
    requires
        lex_le(a, b),
        lex_le(b, a),
    ensures
        a == b,
    decreases a.len(),
{
    if a.len() == 0 {
        assert(b.len() == 0);
        assert(a =~= b);
    } else {
        assert(b.len() > 0);
        assert(a[0] == b[0]);
        lemma_lex_le_antisymmetric(a.drop_first(), b.drop_first());
        assert(a.drop_first().len() == a.len() - 1);
        assert(b.drop_first().len() == b.len() - 1);
        assert(a.len() == b.len());
        assert forall|i: int| 0 <= i < a.len() implies a[i] == b[i] by {
            if i > 0 {
                assert(a[i] == a.drop_first()[i - 1]);
                assert(b[i] == b.drop_first()[i - 1]);
            }
        }
        assert(a =~= b);
    }
}

pub proof fn lemma_lex_le_transitive(a: Seq<u8>, b: Seq<u8>, c: Seq<u8>)
    requires
        lex_le(a, b),
        lex_le(b, c),
    ensures
        lex_le(a, c),
    decreases a.len(),
{
    if a.len() > 0 && b.len() > 0 && c.len() > 0 && a[0] == b[0] && b[0] == c[0] {
        lemma_lex_le_transitive(a.drop_first(), b.drop_first(), c.drop_first());
    }
}

/// Under an equal common prefix of length `i`, the order is decided by the
/// remainders.
pub proof fn lemma_lex_le_common_prefix(a: Seq<u8>, b: Seq<u8>, i: int)
    requires
        0 <= i <= a.len(),
        i <= b.len(),
        forall|j: int| 0 <= j < i ==> a[j] == b[j],
    ensures
        lex_le(a, b) == lex_le(a.skip(i), b.skip(i)),
    decreases i,
{
    if i == 0 {
        assert(a.skip(0) =~= a);
        assert(b.skip(0) =~= b);
    } else {
        assert(a[0] == b[0]);
        assert(a.drop_first().skip(i - 1) =~= a.skip(i));
        assert(b.drop_first().skip(i - 1) =~= b.skip(i));
        lemma_lex_le_common_prefix(a.drop_first(), b.drop_first(), i - 1);
    }
}

/// Appends all of `s` to `v`.
pub fn push_bytes(v: &mut Vec<u8>, s: &[u8])
    ensures
        final(v)@ == old(v)@ + s@,
{
    let mut i: usize = 0;
    while i < s.len()
        invariant
            0 <= i <= s@.len(),
            v@ == old(v)@ + s@.take(i as int),
        decreases s@.len() - i,
    {
        let b = s[i];
        v.push(b);
        proof {
            assert(v@ =~= old(v)@ + s@.take(i + 1 as int));
        }
        i += 1;
    }
    proof {
        assert(s@.take(i as int) =~= s@);
    }
}

/// Decides `lex_le(a@, b@)`.
pub fn bytes_le(a: &Vec<u8>, b: &Vec<u8>) -> (r: bool)
    ensures
        r == lex_le(a@, b@),
{
    let alen = a.len();
    let blen = b.len();
    let min = if alen < blen {
        alen
    } else {
        blen
    };
    let mut i: usize = 0;
    while i < min
        invariant
            0 <= i <= min,
            min <= a@.len(),
            min <= b@.len(),
            min == if a@.len() < b@.len() {
                a@.len()
            } else {
                b@.len()
            },
            forall|j: int| 0 <= j < i ==> a@[j] == b@[j],
        decreases min - i,
    {
        let x = a[i];
        let y = b[i];
        if x < y {
            proof {
                lemma_lex_le_common_prefix(a@, b@, i as int);
                assert(a@.skip(i as int)[0] == a@[i as int]);
                assert(b@.skip(i as int)[0] == b@[i as int]);
            }
            return true;
        }
        if x > y {
            proof {
                lemma_lex_le_common_prefix(a@, b@, i as int);
                assert(a@.skip(i as int)[0] == a@[i as int]);
                assert(b@.skip(i as int)[0] == b@[i as int]);
            }
            return false;
        }
        i += 1;
    }
    proof {
        lemma_lex_le_common_prefix(a@, b@, i as int);
        if a@.len() <= b@.len() {
            assert(a@.skip(i as int).len() == 0);
        } else {
            assert(a@.skip(i as int).len() > 0);
            assert(b@.skip(i as int).len() == 0);
        }
    }
    alen <= blen
}

// ---------------------------------------------------------------------------
// Concatenation algebra
// ---------------------------------------------------------------------------

pub proof fn lemma_concat_assoc<A>(a: Seq<A>, b: Seq<A>, c: Seq<A>)
    ensures
        (a + b) + c == a + (b + c),
{
    assert((a + b) + c =~= a + (b + c));
}

pub proof fn lemma_skip_concat<A>(a: Seq<A>, b: Seq<A>)
    ensures
        (a + b).skip(a.len() as int) == b,
{
    assert((a + b).skip(a.len() as int) =~= b);
}

// ---------------------------------------------------------------------------
// Scanning for a delimiter byte
// ---------------------------------------------------------------------------

/// The first index at or after `from` holding `b`, or -1 if there is none.
pub open spec fn find_byte(s: Seq<u8>, b: u8, from: int) -> int
    decreases s.len() - from,
{
    if from < 0 || from >= s.len() {
        -1
    } else if s[from] == b {
        from
    } else {
        find_byte(s, b, from + 1)
    }
}

pub proof fn lemma_find_byte_props(s: Seq<u8>, b: u8, from: int)
    requires
        0 <= from <= s.len(),
    ensures
        ({
            let r = find_byte(s, b, from);
            &&& r == -1 ==> forall|j: int| from <= j < s.len() ==> s[j] != b
            &&& r >= 0 ==> from <= r < s.len() && s[r] == b && (forall|j: int|
                from <= j < r ==> s[j] != b)
        }),
    decreases s.len() - from,
{
    if from < s.len() && s[from] != b {
        lemma_find_byte_props(s, b, from + 1);
    }
}

/// Pins `find_byte` to `i` when `i` is the first hit at or after `from`.
pub proof fn lemma_find_byte_hit(s: Seq<u8>, b: u8, from: int, i: int)
    requires
        0 <= from <= i < s.len(),
        s[i] == b,
        forall|j: int| from <= j < i ==> s[j] != b,
    ensures
        find_byte(s, b, from) == i,
    decreases i - from,
{
    if from < i {
        assert(s[from] != b);
        lemma_find_byte_hit(s, b, from + 1, i);
    }
}

/// When some byte at or after `from` is `b`, the find lands at or before
/// the witness.
pub proof fn lemma_find_byte_found(s: Seq<u8>, b: u8, from: int, w: int)
    requires
        0 <= from <= w < s.len(),
        s[w] == b,
    ensures
        from <= find_byte(s, b, from) <= w,
        s[find_byte(s, b, from)] == b,
    decreases w - from,
{
    if s[from] != b {
        lemma_find_byte_found(s, b, from + 1, w);
    }
}

/// Pins `find_byte` to -1 when no byte at or after `from` is `b`.
pub proof fn lemma_find_byte_miss(s: Seq<u8>, b: u8, from: int)
    requires
        0 <= from <= s.len(),
        forall|j: int| from <= j < s.len() ==> s[j] != b,
    ensures
        find_byte(s, b, from) == -1,
    decreases s.len() - from,
{
    if from < s.len() {
        assert(s[from] != b);
        lemma_find_byte_miss(s, b, from + 1);
    }
}

/// Decides `find_byte(s@, b, from as int)`.
pub fn find_byte_at(s: &[u8], b: u8, from: usize) -> (r: Option<usize>)
    requires
        from <= s@.len(),
    ensures
        match r {
            Some(i) => from <= i < s@.len() && s@[i as int] == b && find_byte(
                s@,
                b,
                from as int,
            ) == i && (forall|j: int| from <= j < i ==> s@[j] != b),
            None => find_byte(s@, b, from as int) == -1 && (forall|j: int|
                from <= j < s@.len() ==> s@[j] != b),
        },
{
    let mut i: usize = from;
    while i < s.len()
        invariant
            from <= i <= s@.len(),
            forall|j: int| from <= j < i ==> s@[j] != b,
        decreases s@.len() - i,
    {
        if s[i] == b {
            proof {
                lemma_find_byte_hit(s@, b, from as int, i as int);
            }
            return Some(i);
        }
        i += 1;
    }
    proof {
        lemma_find_byte_miss(s@, b, from as int);
    }
    None
}

/// Decides `a@ == b@`.
pub fn bytes_eq(a: &Vec<u8>, b: &Vec<u8>) -> (r: bool)
    ensures
        r == (a@ == b@),
{
    let r = a == b;
    proof {
        if a@ == b@ {
            assert(a.eq_spec(b));
        }
        if r {
            assert(a@ =~= b@);
        }
    }
    r
}

/// A copy of the bytes.
pub fn clone_bytes(v: &Vec<u8>) -> (r: Vec<u8>)
    ensures
        r@ == v@,
{
    vstd::slice::slice_to_vec(v.as_slice())
}

} // verus!
