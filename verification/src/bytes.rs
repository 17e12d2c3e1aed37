//! Byte-sequence primitives shared by both cores: lexicographic order,
//! ASCII case folding, whitespace classes, prefix/suffix tests and decimal
//! and little-endian integer parsing.

use vstd::prelude::*;

verus! {

/// ASCII whitespace: tab, line feed, vertical tab, form feed, carriage
/// return and space.
pub open spec fn is_ws(b: u8) -> bool {
    b == 9 || b == 10 || b == 11 || b == 12 || b == 13 || b == 32
}

/// The ASCII lowercase image of a single byte.
pub open spec fn lower_byte(b: u8) -> u8 {
    if 65 <= b && b <= 90 {
        (b + 32) as u8
    } else {
        b
    }
}

/// The ASCII lowercase image of a byte sequence.
pub open spec fn lower(s: Seq<u8>) -> Seq<u8> {
    s.map_values(|b: u8| lower_byte(b))
}

/// Lexicographic order on byte sequences (a prefix precedes its extensions).
pub open spec fn lex_le(a: Seq<u8>, b: Seq<u8>) -> bool
    decreases a.len(),
{
    if a.len() == 0 {
        true
    } else if b.len() == 0 {
        false
    } else if a[0] < b[0] {
        true
    } else if a[0] > b[0] {
        false
    } else {
        lex_le(a.skip(1), b.skip(1))
    }
}

/// Strict lexicographic order.
pub open spec fn lex_lt(a: Seq<u8>, b: Seq<u8>) -> bool {
    lex_le(a, b) && a != b
}

/// `p` is a prefix of `a`.
pub open spec fn has_prefix(a: Seq<u8>, p: Seq<u8>) -> bool {
    p.len() <= a.len() && a.subrange(0, p.len() as int) == p
}

/// `s` is a suffix of `a`.
pub open spec fn has_suffix(a: Seq<u8>, s: Seq<u8>) -> bool {
    s.len() <= a.len() && a.subrange(a.len() - s.len(), a.len() as int) == s
}

/// The deep view of a byte vector is its plain view.
pub broadcast proof fn lemma_vec_u8_deep_view(v: Vec<u8>)
    ensures
        #[trigger] v.deep_view() == v@,
{
    assert(v.deep_view() =~= v@);
}

/// Whether two byte slices hold the same bytes.
pub fn bytes_eq(a: &[u8], b: &[u8]) -> (r: bool)
    ensures
        r == (a@ == b@),
{
    if a.len() != b.len() {
        assert(a@ != b@);
        return false;
    }
    let mut i: usize = 0;
    while i < a.len()
        invariant
            i <= a.len(),
            a.len() == b.len(),
            forall|k: int| 0 <= k < i ==> a@[k] == b@[k],
        decreases a.len() - i,
    {
        if a[i] != b[i] {
            assert(a@ != b@);
            return false;
        }
        i += 1;
    }
    assert(a@ =~= b@);
    true
}

proof fn lemma_lex_le_step(a: Seq<u8>, b: Seq<u8>, i: int)
    requires
        0 <= i < a.len(),
        0 <= i < b.len(),
        forall|k: int| 0 <= k < i ==> a[k] == b[k],
    ensures
        lex_le(a, b) == lex_le(a.skip(i), b.skip(i)),
    decreases i,
{
    if i > 0 {
        assert(a[0] == b[0]);
        assert(a.skip(1).skip(i - 1) =~= a.skip(i));
        assert(b.skip(1).skip(i - 1) =~= b.skip(i));
        assert(forall|k: int| 0 <= k < i - 1 ==> a.skip(1)[k] == b.skip(1)[k]);
        lemma_lex_le_step(a.skip(1), b.skip(1), i - 1);
    } else {
        assert(a.skip(0) =~= a);
        assert(b.skip(0) =~= b);
    }
}

proof fn lemma_lex_le_prefix(a: Seq<u8>, b: Seq<u8>, i: int)
    requires
        0 <= i <= a.len(),
        0 <= i <= b.len(),
        forall|k: int| 0 <= k < i ==> a[k] == b[k],
    ensures
        i < a.len() && i < b.len() ==> lex_le(a, b) == lex_le(a.skip(i), b.skip(i)),
        i == a.len() ==> lex_le(a, b),
        i == b.len() && i < a.len() ==> !lex_le(a, b),
    decreases i,
{
    if i < a.len() && i < b.len() {
        lemma_lex_le_step(a, b, i);
    } else if i == 0 {
    } else {
        assert(a[0] == b[0]);
        assert(a.skip(1).len() == a.len() - 1);
        lemma_lex_le_prefix(a.skip(1), b.skip(1), i - 1);
    }
}

/// Whether `a` is lexicographically at most `b`.
pub fn bytes_le(a: &[u8], b: &[u8]) -> (r: bool)
    ensures
        r == lex_le(a@, b@),
{
    let mut i: usize = 0;
    loop
        invariant
            i <= a.len(),
            i <= b.len(),
            forall|k: int| 0 <= k < i ==> a@[k] == b@[k],
        decreases a.len() - i,
    {
        if i == a.len() {
            proof {
                lemma_lex_le_prefix(a@, b@, i as int);
            }
            return true;
        }
        if i == b.len() {
            proof {
                lemma_lex_le_prefix(a@, b@, i as int);
            }
            return false;
        }
        if a[i] < b[i] {
            proof {
                lemma_lex_le_prefix(a@, b@, i as int);
            }
            return true;
        }
        if a[i] > b[i] {
            proof {
                lemma_lex_le_prefix(a@, b@, i as int);
            }
            return false;
        }
        i += 1;
    }
}

/// Whether `a` is lexicographically strictly below `b`.
pub fn bytes_lt(a: &[u8], b: &[u8]) -> (r: bool)
    ensures
        r == lex_lt(a@, b@),
{
    let le = bytes_le(a, b);
    if !le {
        return false;
    }
    let eq = bytes_eq(a, b);
    !eq
}

/// Whether `p` is a prefix of `a`.
pub fn bytes_has_prefix(a: &[u8], p: &[u8]) -> (r: bool)
    ensures
        r == has_prefix(a@, p@),
{
    if p.len() > a.len() {
        return false;
    }
    let mut i: usize = 0;
    while i < p.len()
        invariant
            p.len() <= a.len(),
            i <= p.len(),
            forall|k: int| 0 <= k < i ==> a@[k] == p@[k],
        decreases p.len() - i,
    {
        if a[i] != p[i] {
            assert(a@.subrange(0, p@.len() as int)[i as int] != p@[i as int]);
            return false;
        }
        i += 1;
    }
    assert(a@.subrange(0, p@.len() as int) =~= p@);
    true
}

/// Whether `s` is a suffix of `a`.
pub fn bytes_has_suffix(a: &[u8], s: &[u8]) -> (r: bool)
    ensures
        r == has_suffix(a@, s@),
{
    if s.len() > a.len() {
        return false;
    }
    let off: usize = a.len() - s.len();
    let mut i: usize = 0;
    while i < s.len()
        invariant
            s.len() <= a.len(),
            off == a.len() - s.len(),
            i <= s.len(),
            forall|k: int| 0 <= k < i ==> a@[off + k] == s@[k],
        decreases s.len() - i,
    {
        if a[off + i] != s[i] {
            assert(a@.subrange(a@.len() - s@.len(), a@.len() as int)[i as int] != s@[i as int]);
            return false;
        }
        i += 1;
    }
    assert(a@.subrange(a@.len() - s@.len(), a@.len() as int) =~= s@);
    true
}

/// A fresh vector holding the same bytes as `v`.
pub fn copy_bytes(v: &[u8]) -> (r: Vec<u8>)
    ensures
        r@ == v@,
{
    let mut out: Vec<u8> = Vec::new();
    let mut i: usize = 0;
    while i < v.len()
        invariant
            i <= v.len(),
            out@ =~= v@.subrange(0, i as int),
        decreases v.len() - i,
    {
        out.push(v[i]);
        i += 1;
    }
    assert(out@ =~= v@);
    out
}

/// A fresh vector holding `v[lo..hi]`.
pub fn copy_range(v: &[u8], lo: usize, hi: usize) -> (r: Vec<u8>)
    requires
        lo <= hi <= v@.len(),
    ensures
        r@ == v@.subrange(lo as int, hi as int),
{
    let mut out: Vec<u8> = Vec::new();
    let mut i: usize = lo;
    while i < hi
        invariant
            lo <= i <= hi <= v@.len(),
            out@ =~= v@.subrange(lo as int, i as int),
        decreases hi - i,
    {
        out.push(v[i]);
        i += 1;
    }
    assert(out@ =~= v@.subrange(lo as int, hi as int));
    out
}

/// The ASCII-lowercased copy of `v`.
pub fn to_lower_vec(v: &[u8]) -> (r: Vec<u8>)
    ensures
        r@ == lower(v@),
{
    let mut out: Vec<u8> = Vec::new();
    let mut i: usize = 0;
    while i < v.len()
        invariant
            i <= v.len(),
            out@.len() == i,
            forall|k: int| 0 <= k < i ==> out@[k] == lower_byte(v@[k]),
        decreases v.len() - i,
    {
        let b = v[i];
        if 65 <= b && b <= 90 {
            out.push(b + 32);
        } else {
            out.push(b);
        }
        i += 1;
    }
    assert(out@ =~= lower(v@));
    out
}

} // verus!
