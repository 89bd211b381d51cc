//! Byte-level helpers shared by the request parser and the response encoder:
//! equality, sub-slice copies, ASCII lower-casing, whitespace trimming,
//! substring search, line splitting, and decimal rendering of lengths.

use vstd::prelude::*;

verus! {

/// Byte-for-byte equality of two byte slices.
pub fn bytes_eq(a: &[u8], b: &[u8]) -> (r: bool)
    ensures
        r == (a@ == b@),
{
    if a.len() != b.len() {
        assert(a@ != b@);
        return false;
    }
    let mut i: usize = 0;
    while i < a.len()
        invariant
            i <= a@.len(),
            a@.len() == b@.len(),
            forall|j: int| 0 <= j < i ==> a@[j] == b@[j],
        decreases a@.len() - i,
    {
        if a[i] != b[i] {
            assert(a@ != b@);
            return false;
        }
        i = i + 1;
    }
    assert(a@ =~= b@);
    true
}

/// Copies the range `[from, to)` of a slice into a fresh vector.
pub fn subvec(s: &[u8], from: usize, to: usize) -> (r: Vec<u8>)
    requires
        from <= to <= s@.len(),
    ensures
        r@ == s@.subrange(from as int, to as int),
{
    let mut out: Vec<u8> = Vec::new();
    let mut i: usize = from;
    while i < to
        invariant
            from <= i <= to <= s@.len(),
            out@ == s@.subrange(from as int, i as int),
        decreases to - i,
    {
        out.push(s[i]);
        assert(out@ =~= s@.subrange(from as int, i + 1));
        i = i + 1;
    }
    out
}

/// Appends a whole slice to the end of a vector.
pub fn append_slice(out: &mut Vec<u8>, s: &[u8])
    ensures
        final(out)@ == old(out)@ + s@,
{
    let mut i: usize = 0;
    while i < s.len()
        invariant
            i <= s@.len(),
            out@ == old(out)@ + s@.take(i as int),
        decreases s@.len() - i,
    {
        out.push(s[i]);
        assert(out@ =~= old(out)@ + s@.take(i + 1));
        i = i + 1;
    }
    assert(out@ =~= old(out)@ + s@);
}

/// ASCII lower-casing of a single byte.
pub open spec fn lower_byte(b: u8) -> u8 {
    if 65 <= b <= 90 {
        (b + 32) as u8
    } else {
        b
    }
}

/// ASCII lower-casing of a byte sequence.
pub open spec fn lower(s: Seq<u8>) -> Seq<u8> {
    s.map_values(|b: u8| lower_byte(b))
}

/// Lower-cases the ASCII letters of a byte slice.
pub fn to_lower(s: &[u8]) -> (r: Vec<u8>)
    ensures
        r@ == lower(s@),
{
    let mut out: Vec<u8> = Vec::new();
    let mut i: usize = 0;
    while i < s.len()
        invariant
            i <= s@.len(),
            out@ == lower(s@).take(i as int),
        decreases s@.len() - i,
    {
        let b = s[i];
        if 65 <= b && b <= 90 {
            out.push(b + 32);
        } else {
            out.push(b);
        }
        assert(out@ =~= lower(s@).take(i + 1));
        i = i + 1;
    }
    assert(out@ =~= lower(s@));
    out
}

/// ASCII whitespace, as trimmed from header values.
pub open spec fn is_ws(b: u8) -> bool {
    b == 32 || (9 <= b <= 13)
}

/// Drops leading whitespace.
pub open spec fn trim_start(s: Seq<u8>) -> Seq<u8>
    decreases s.len(),
{
    if s.len() > 0 && is_ws(s[0]) {
        trim_start(s.skip(1))
    } else {
        s
    }
}

/// Drops trailing whitespace.
pub open spec fn trim_end(s: Seq<u8>) -> Seq<u8>
    decreases s.len(),
{
    if s.len() > 0 && is_ws(s[s.len() - 1]) {
        trim_end(s.drop_last())
    } else {
        s
    }
}

/// Drops surrounding whitespace.
pub open spec fn trim(s: Seq<u8>) -> Seq<u8> {
    trim_end(trim_start(s))
}

proof fn lemma_trim_start_skip(s: Seq<u8>, k: int)
    requires
        0 <= k <= s.len(),
        forall|j: int| 0 <= j < k ==> is_ws(s[j]),
    ensures
        trim_start(s) == trim_start(s.skip(k)),
    decreases k,
{
    if k > 0 {
        assert(trim_start(s) == trim_start(s.skip(1)));
        assert(s.skip(1).skip(k - 1) =~= s.skip(k));
        lemma_trim_start_skip(s.skip(1), k - 1);
    } else {
        assert(s.skip(0) =~= s);
    }
}

proof fn lemma_trim_end_take(s: Seq<u8>, k: int)
    requires
        0 <= k <= s.len(),
        forall|j: int| k <= j < s.len() ==> is_ws(s[j]),
    ensures
        trim_end(s) == trim_end(s.take(k)),
    decreases s.len() - k,
{
    if k < s.len() {
        assert(is_ws(s[s.len() - 1]));
        assert(trim_end(s) == trim_end(s.drop_last()));
        assert(s.drop_last().take(k) =~= s.take(k));
        lemma_trim_end_take(s.drop_last(), k);
    } else {
        assert(s.take(k) =~= s);
    }
}

/// Trims surrounding ASCII whitespace from a byte slice.
pub fn trim_bytes(s: &[u8]) -> (r: Vec<u8>)
    ensures
        r@ == trim(s@),
{
    let mut a: usize = 0;
    while a < s.len() && (s[a] == 32 || (9 <= s[a] && s[a] <= 13))
        invariant
            a <= s@.len(),
            forall|j: int| 0 <= j < a ==> is_ws(s@[j]),
        decreases s@.len() - a,
    {
        a = a + 1;
    }
    proof {
        lemma_trim_start_skip(s@, a as int);
    }
    if a == s.len() {
        proof {
            assert(s@.skip(a as int) =~= Seq::<u8>::empty());
            assert(trim(s@) =~= Seq::<u8>::empty());
        }
        return Vec::new();
    }
    // s[a] is the first non-whitespace byte, so trim_start(s@) == s@.skip(a).
    assert(!is_ws(s@[a as int]));
    assert(s@.skip(a as int)[0] == s@[a as int]);
    assert(trim_start(s@) == s@.skip(a as int));
    let mut z: usize = s.len();
    while z > a + 1 && (s[z - 1] == 32 || (9 <= s[z - 1] && s[z - 1] <= 13))
        invariant
            a < z <= s@.len(),
            forall|j: int| z <= j < s@.len() ==> is_ws(s@[j]),
        decreases z,
    {
        z = z - 1;
    }
    // s[z - 1] is the last non-whitespace byte of s[a..].
    proof {
        let t = s@.skip(a as int);
        lemma_trim_end_take(t, z - a);
        assert(t[z - a - 1] == s@[z - 1]);
        assert(!is_ws(s@[z - 1]));
        assert(t.take(z - a).last() == t[z - a - 1]);
        assert(trim_end(t.take(z - a)) == t.take(z - a));
        assert(t.take(z - a) =~= s@.subrange(a as int, z as int));
    }
    subvec(s, a, z)
}

/// `needle` occurs as a contiguous run inside `hay` starting at `i`.
pub open spec fn occurs_at(hay: Seq<u8>, needle: Seq<u8>, i: int) -> bool {
    0 <= i && i + needle.len() <= hay.len() && hay.subrange(i, i + needle.len()) == needle
}

/// `needle` occurs somewhere inside `hay`.
pub open spec fn contains_bytes(hay: Seq<u8>, needle: Seq<u8>) -> bool {
    exists|i: int| occurs_at(hay, needle, i)
}

/// Naive substring search.
pub fn find_bytes(hay: &[u8], needle: &[u8]) -> (r: bool)
    ensures
        r == contains_bytes(hay@, needle@),
{
    if needle.len() == 0 {
        assert(hay@.subrange(0, 0) =~= needle@);
        assert(occurs_at(hay@, needle@, 0));
        return true;
    }
    if needle.len() > hay.len() {
        assert(forall|i: int| !occurs_at(hay@, needle@, i));
        return false;
    }
    let mut i: usize = 0;
    while i <= hay.len() - needle.len()
        invariant
            1 <= needle@.len() <= hay@.len(),
            i <= hay@.len() - needle@.len() + 1,
            forall|j: int| 0 <= j < i ==> !occurs_at(hay@, needle@, j),
        decreases hay@.len() - i,
    {
        let window = subvec(hay, i, i + needle.len());
        if bytes_eq(window.as_slice(), needle) {
            assert(occurs_at(hay@, needle@, i as int));
            return true;
        }
        i = i + 1;
    }
    assert(forall|j: int| !occurs_at(hay@, needle@, j));
    false
}

/// The decimal digits of `n`, most significant first.
pub open spec fn dec_digits(n: nat) -> Seq<u8>
    decreases n,
{
    if n < 10 {
        seq![(48 + n) as u8]
    } else {
        dec_digits(n / 10).push((48 + n % 10) as u8)
    }
}

/// The number a sequence of ASCII digits denotes, most significant first.
pub open spec fn dec_value(s: Seq<u8>) -> int
    decreases s.len(),
{
    if s.len() == 0 {
        0
    } else {
        dec_value(s.drop_last()) * 10 + s.last() - 48
    }
}

/// The decimal rendering denotes exactly the number rendered, one ASCII
/// digit per position, never empty.
pub proof fn lemma_dec_digits_value(n: nat)
    ensures
        dec_value(dec_digits(n)) == n,
        dec_digits(n).len() >= 1,
        forall|i: int| 0 <= i < dec_digits(n).len() ==> 48 <= #[trigger] dec_digits(n)[i] <= 57,
    decreases n,
{
    if n < 10 {
        assert(dec_digits(n).last() == (48 + n) as u8);
        assert((48 + n) as u8 == 48 + n);
        assert(dec_digits(n).drop_last() =~= Seq::<u8>::empty());
        assert(dec_value(dec_digits(n)) == dec_value(Seq::<u8>::empty()) * 10 + (48 + n) - 48);
    } else {
        lemma_dec_digits_value(n / 10);
        assert(dec_digits(n).drop_last() =~= dec_digits(n / 10));
        assert(dec_value(dec_digits(n)) == (n / 10) * 10 + n % 10);
        assert forall|i: int| 0 <= i < dec_digits(n).len() implies
            48 <= #[trigger] dec_digits(n)[i] <= 57 by {
            if i < dec_digits(n).len() - 1 {
                assert(dec_digits(n)[i] == dec_digits(n / 10)[i]);
            }
        }
    }
}

/// Renders a length as decimal ASCII digits.
pub fn usize_to_decimal(n: usize) -> (r: Vec<u8>)
    ensures
        r@ == dec_digits(n as nat),
    decreases n,
{
    if n < 10 {
        let mut out: Vec<u8> = Vec::new();
        out.push(48 + (n as u8));
        assert(out@ =~= dec_digits(n as nat));
        out
    } else {
        let mut out = usize_to_decimal(n / 10);
        out.push(48 + ((n % 10) as u8));
        out
    }
}

} // verus!
