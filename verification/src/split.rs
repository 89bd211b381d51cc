//! Splitting byte sequences on separators: the CR LF line terminator and
//! single separator bytes (space, colon). The spec functions here are the
//! vocabulary of the parser's contracts.

use vstd::prelude::*;
use crate::bytes::subvec;

verus! {

/// The CR LF line terminator.
pub open spec fn crlf() -> Seq<u8> {
    seq![13u8, 10u8]
}

/// A CR LF pair starts at index `i` of `s`.
pub open spec fn has_crlf_at(s: Seq<u8>, i: int) -> bool {
    0 <= i && i + 1 < s.len() && s[i] == 13 && s[i + 1] == 10
}

/// `s` contains no CR LF pair.
pub open spec fn no_crlf(s: Seq<u8>) -> bool {
    forall|i: int| !has_crlf_at(s, i)
}

/// Index of the first CR LF pair of `s`, or `s.len()` if there is none.
pub open spec fn crlf_index(s: Seq<u8>) -> nat
    decreases s.len(),
{
    if s.len() < 2 {
        s.len()
    } else if s[0] == 13 && s[1] == 10 {
        0
    } else {
        1 + crlf_index(s.skip(1))
    }
}

/// The parts of `s` between CR LF terminators, in order. Splitting never
/// yields an empty sequence of parts: a separator-free `s` is one part.
pub open spec fn split_crlf(s: Seq<u8>) -> Seq<Seq<u8>>
    decreases s.len(),
{
    let i = crlf_index(s) as int;
    if i + 2 <= s.len() {
        seq![s.take(i)] + split_crlf(s.skip(i + 2))
    } else {
        seq![s]
    }
}

pub proof fn lemma_crlf_index_at(s: Seq<u8>, k: int)
    requires
        has_crlf_at(s, k),
        forall|j: int| 0 <= j < k ==> !has_crlf_at(s, j),
    ensures
        crlf_index(s) == k,
    decreases k,
{
    if k == 0 {
    } else {
        assert(!has_crlf_at(s, 0));
        let t = s.skip(1);
        assert(t[k - 1] == s[k] && t[k] == s[k + 1]);
        assert(has_crlf_at(t, k - 1));
        assert forall|j: int| 0 <= j < k - 1 implies !has_crlf_at(t, j) by {
            assert(!has_crlf_at(s, j + 1));
            assert(t[j] == s[j + 1] && t[j + 1] == s[j + 2]);
        }
        lemma_crlf_index_at(t, k - 1);
    }
}

pub proof fn lemma_crlf_index_none(s: Seq<u8>)
    requires
        no_crlf(s),
    ensures
        crlf_index(s) == s.len(),
    decreases s.len(),
{
    if s.len() < 2 {
    } else {
        assert(!has_crlf_at(s, 0));
        let t = s.skip(1);
        assert forall|j: int| !has_crlf_at(t, j) by {
            if 0 <= j && j + 1 < t.len() {
                assert(t[j] == s[j + 1] && t[j + 1] == s[j + 2]);
                assert(!has_crlf_at(s, j + 1));
            }
        }
        lemma_crlf_index_none(t);
    }
}

/// A separator-free sequence splits into itself alone.
pub proof fn lemma_split_crlf_whole(s: Seq<u8>)
    requires
        no_crlf(s),
    ensures
        split_crlf(s) == seq![s],
{
    lemma_crlf_index_none(s);
}

/// Peeling one terminated line off the front of a raw byte stream.
pub proof fn lemma_split_crlf_prefix(a: Seq<u8>, r: Seq<u8>)
    requires
        no_crlf(a),
    ensures
        split_crlf(a + crlf() + r) == seq![a] + split_crlf(r),
{
    let s = a + crlf() + r;
    assert(s[a.len() as int] == 13 && s[a.len() as int + 1] == 10);
    assert(has_crlf_at(s, a.len() as int));
    assert forall|j: int| 0 <= j < a.len() implies !has_crlf_at(s, j) by {
        if j + 1 < a.len() {
            assert(s[j] == a[j] && s[j + 1] == a[j + 1]);
            assert(!has_crlf_at(a, j));
        } else {
            assert(s[j + 1] == 13);
        }
    }
    lemma_crlf_index_at(s, a.len() as int);
    assert(s.take(a.len() as int) =~= a);
    assert(s.skip(a.len() as int + 2) =~= r);
    assert(split_crlf(s) =~= seq![a] + split_crlf(r));
}

/// There is always at least one part.
pub proof fn lemma_split_crlf_nonempty(s: Seq<u8>)
    ensures
        split_crlf(s).len() >= 1,
{
}

/// Splits a raw byte stream into its CR LF separated lines.
pub fn split_crlf_exec(s: &[u8]) -> (out: Vec<Vec<u8>>)
    ensures
        out.deep_view() == split_crlf(s@),
        out@.len() >= 1,
{
    let mut out: Vec<Vec<u8>> = Vec::new();
    let mut start: usize = 0;
    let mut i: usize = 0;
    proof {
        assert(s@.skip(0) =~= s@);
        assert(out.deep_view() + split_crlf(s@) =~~= split_crlf(s@));
    }
    while i < s.len()
        invariant
            start <= i <= s@.len(),
            split_crlf(s@) == out.deep_view() + split_crlf(s@.skip(start as int)),
            forall|j: int| start <= j < i ==> !has_crlf_at(s@, j),
        decreases s@.len() - i,
    {
        if s[i] == 13 && i + 1 < s.len() && s[i + 1] == 10 {
            let seg = subvec(s, start, i);
            proof {
                let rem = s@.skip(start as int);
                let k = i - start;
                assert(rem[k] == s@[i as int] && rem[k + 1] == s@[i + 1]);
                assert(has_crlf_at(rem, k));
                assert forall|j: int| 0 <= j < k implies !has_crlf_at(rem, j) by {
                    assert(rem[j] == s@[start + j] && rem[j + 1] == s@[start + j + 1]);
                    assert(!has_crlf_at(s@, start + j));
                }
                lemma_crlf_index_at(rem, k);
                assert(rem.take(k) =~= s@.subrange(start as int, i as int));
                assert(rem.skip(k + 2) =~= s@.skip(i + 2));
                assert(split_crlf(rem) == seq![seg@] + split_crlf(s@.skip(i + 2)));
            }
            let ghost old_dv = out.deep_view();
            out.push(seg);
            proof {
                assert(out.deep_view() =~~= old_dv.push(seg@));
                assert(out.deep_view() + split_crlf(s@.skip(i + 2))
                    =~~= old_dv + (seq![seg@] + split_crlf(s@.skip(i + 2))));
            }
            start = i + 2;
            i = i + 2;
        } else {
            i = i + 1;
        }
    }
    let last = subvec(s, start, s.len());
    proof {
        let rem = s@.skip(start as int);
        assert forall|j: int| !has_crlf_at(rem, j) by {
            if 0 <= j && j + 1 < rem.len() {
                assert(rem[j] == s@[start + j] && rem[j + 1] == s@[start + j + 1]);
                assert(!has_crlf_at(s@, start + j));
            }
        }
        lemma_split_crlf_whole(rem);
        assert(rem =~= s@.subrange(start as int, s@.len() as int));
    }
    let ghost old_dv = out.deep_view();
    out.push(last);
    proof {
        assert(out.deep_view() =~~= old_dv.push(last@));
        assert(out.deep_view() =~~= old_dv + seq![s@.skip(start as int)]);
        assert(out.deep_view() =~~= split_crlf(s@));
    }
    out
}

/// Index of the first occurrence of `sep` in `s`, or `s.len()` if there is none.
pub open spec fn byte_index(s: Seq<u8>, sep: u8) -> nat
    decreases s.len(),
{
    if s.len() == 0 {
        0
    } else if s[0] == sep {
        0
    } else {
        1 + byte_index(s.skip(1), sep)
    }
}

/// `s` does not contain `sep`.
pub open spec fn no_byte(s: Seq<u8>, sep: u8) -> bool {
    forall|i: int| 0 <= i < s.len() ==> s[i] != sep
}

/// The parts of `s` between occurrences of `sep`, in order.
pub open spec fn split_byte(s: Seq<u8>, sep: u8) -> Seq<Seq<u8>>
    decreases s.len(),
{
    let i = byte_index(s, sep) as int;
    if i < s.len() {
        seq![s.take(i)] + split_byte(s.skip(i + 1), sep)
    } else {
        seq![s]
    }
}

pub proof fn lemma_byte_index_at(s: Seq<u8>, sep: u8, k: int)
    requires
        0 <= k < s.len(),
        s[k] == sep,
        forall|j: int| 0 <= j < k ==> s[j] != sep,
    ensures
        byte_index(s, sep) == k,
    decreases k,
{
    if k == 0 {
    } else {
        let t = s.skip(1);
        assert(t[k - 1] == s[k]);
        assert forall|j: int| 0 <= j < k - 1 implies t[j] != sep by {
            assert(t[j] == s[j + 1]);
        }
        lemma_byte_index_at(t, sep, k - 1);
    }
}

pub proof fn lemma_byte_index_none(s: Seq<u8>, sep: u8)
    requires
        no_byte(s, sep),
    ensures
        byte_index(s, sep) == s.len(),
    decreases s.len(),
{
    if s.len() == 0 {
    } else {
        let t = s.skip(1);
        assert forall|j: int| 0 <= j < t.len() implies t[j] != sep by {
            assert(t[j] == s[j + 1]);
        }
        lemma_byte_index_none(t, sep);
    }
}

/// A separator-free sequence splits into itself alone.
pub proof fn lemma_split_byte_whole(s: Seq<u8>, sep: u8)
    requires
        no_byte(s, sep),
    ensures
        split_byte(s, sep) == seq![s],
{
    lemma_byte_index_none(s, sep);
}

/// Peeling one separated token off the front.
pub proof fn lemma_split_byte_prefix(a: Seq<u8>, sep: u8, r: Seq<u8>)
    requires
        no_byte(a, sep),
    ensures
        split_byte(a + seq![sep] + r, sep) == seq![a] + split_byte(r, sep),
{
    let s = a + seq![sep] + r;
    assert(s[a.len() as int] == sep);
    assert forall|j: int| 0 <= j < a.len() implies s[j] != sep by {
        assert(s[j] == a[j]);
    }
    lemma_byte_index_at(s, sep, a.len() as int);
    assert(s.take(a.len() as int) =~= a);
    assert(s.skip(a.len() as int + 1) =~= r);
    assert(split_byte(s, sep) =~= seq![a] + split_byte(r, sep));
}

/// Finds the first occurrence of `sep`, returning `s.len()` if there is none.
pub fn find_byte(s: &[u8], sep: u8) -> (r: usize)
    ensures
        r == byte_index(s@, sep),
        r <= s@.len(),
        r < s@.len() ==> s@[r as int] == sep,
        forall|j: int| 0 <= j < r ==> s@[j] != sep,
{
    let mut i: usize = 0;
    while i < s.len() && s[i] != sep
        invariant
            i <= s@.len(),
            forall|j: int| 0 <= j < i ==> s@[j] != sep,
        decreases s@.len() - i,
    {
        i = i + 1;
    }
    proof {
        if i < s@.len() {
            lemma_byte_index_at(s@, sep, i as int);
        } else {
            lemma_byte_index_none(s@, sep);
        }
    }
    i
}

/// Splits `s` on every occurrence of `sep`.
pub fn split_byte_exec(s: &[u8], sep: u8) -> (out: Vec<Vec<u8>>)
    ensures
        out.deep_view() == split_byte(s@, sep),
        out@.len() >= 1,
{
    let mut out: Vec<Vec<u8>> = Vec::new();
    let mut start: usize = 0;
    let mut i: usize = 0;
    proof {
        assert(s@.skip(0) =~= s@);
        assert(out.deep_view() + split_byte(s@, sep) =~~= split_byte(s@, sep));
    }
    while i < s.len()
        invariant
            start <= i <= s@.len(),
            split_byte(s@, sep) == out.deep_view() + split_byte(s@.skip(start as int), sep),
            forall|j: int| start <= j < i ==> s@[j] != sep,
        decreases s@.len() - i,
    {
        if s[i] == sep {
            let seg = subvec(s, start, i);
            proof {
                let rem = s@.skip(start as int);
                let k = i - start;
                assert(rem[k] == s@[i as int]);
                assert forall|j: int| 0 <= j < k implies rem[j] != sep by {
                    assert(rem[j] == s@[start + j]);
                }
                lemma_byte_index_at(rem, sep, k);
                assert(rem.take(k) =~= s@.subrange(start as int, i as int));
                assert(rem.skip(k + 1) =~= s@.skip(i + 1));
                assert(split_byte(rem, sep) == seq![seg@] + split_byte(s@.skip(i + 1), sep));
            }
            let ghost old_dv = out.deep_view();
            out.push(seg);
            proof {
                assert(out.deep_view() =~~= old_dv.push(seg@));
                assert(out.deep_view() + split_byte(s@.skip(i + 1), sep)
                    =~~= old_dv + (seq![seg@] + split_byte(s@.skip(i + 1), sep)));
            }
            start = i + 1;
            i = i + 1;
        } else {
            i = i + 1;
        }
    }
    let last = subvec(s, start, s.len());
    proof {
        let rem = s@.skip(start as int);
        assert forall|j: int| 0 <= j < rem.len() implies rem[j] != sep by {
            assert(rem[j] == s@[start + j]);
        }
        lemma_split_byte_whole(rem, sep);
        assert(rem =~= s@.subrange(start as int, s@.len() as int));
    }
    let ghost old_dv = out.deep_view();
    out.push(last);
    proof {
        assert(out.deep_view() =~~= old_dv.push(last@));
        assert(out.deep_view() =~~= old_dv + seq![s@.skip(start as int)]);
        assert(out.deep_view() =~~= split_byte(s@, sep));
    }
    out
}

} // verus!
