//! Byte-sequence helpers shared by the decoder and the encoder: equality,
//! search, ASCII case folding, whitespace trimming, and decimal rendering.
use vstd::prelude::*;

verus! {

/// ASCII whitespace, the bytes that `trim` removes (tab, line feed,
/// vertical tab, form feed, carriage return, space).
pub open spec fn is_ws_byte(b: u8) -> bool {
    b == ('\t' as u8) || b == ('\n' as u8) || b == 11 || b == 12 || b == ('\r' as u8) || b == (
    ' ' as u8)
}

/// ASCII lower-casing of one byte: 'A'..='Z' shift to 'a'..='z'.
pub open spec fn lower_byte(b: u8) -> u8 {
    if ('A' as u8) <= b && b <= ('Z' as u8) {
        (b + 32) as u8
    } else {
        b
    }
}

/// The byte string lower-cased, ASCII-wise.
pub open spec fn spec_lower(s: Seq<u8>) -> Seq<u8> {
    s.map_values(|b: u8| lower_byte(b))
}

/// Lower-case a byte string, ASCII-wise.
pub fn to_lower(s: &[u8]) -> (r: Vec<u8>)
    ensures
        r@ == spec_lower(s@),
{
    let mut r: Vec<u8> = Vec::new();
    let mut i: usize = 0;
    while i < s.len()
        invariant
            i <= s@.len(),
            r@ == spec_lower(s@.take(i as int)),
        decreases s@.len() - i,
    {
        let b = s[i];
        if ('A' as u8) <= b && b <= ('Z' as u8) {
            r.push(b + 32);
        } else {
            r.push(b);
        }
        i = i + 1;
        proof {
            assert(s@.take(i as int).drop_last() =~= s@.take(i - 1));
            assert(spec_lower(s@.take(i as int)) =~= spec_lower(s@.take(i - 1)).push(
                lower_byte(s@[i - 1]),
            ));
        }
    }
    proof {
        assert(s@.take(s@.len() as int) =~= s@);
    }
    r
}

/// Leading whitespace removed.
pub open spec fn trim_start(s: Seq<u8>) -> Seq<u8>
    decreases s.len(),
{
    if s.len() > 0 && is_ws_byte(s[0]) {
        trim_start(s.drop_first())
    } else {
        s
    }
}

/// Trailing whitespace removed.
pub open spec fn trim_end(s: Seq<u8>) -> Seq<u8>
    decreases s.len(),
{
    if s.len() > 0 && is_ws_byte(s.last()) {
        trim_end(s.drop_last())
    } else {
        s
    }
}

/// Whitespace removed from both ends.
pub open spec fn spec_trim(s: Seq<u8>) -> Seq<u8> {
    trim_end(trim_start(s))
}

fn is_ws(b: u8) -> (r: bool)
    ensures
        r == is_ws_byte(b),
{
    b == ('\t' as u8) || b == ('\n' as u8) || b == 11 || b == 12 || b == ('\r' as u8) || b == (
    ' ' as u8)
}

/// The slice with ASCII whitespace removed from both ends.
pub fn trim(s: &[u8]) -> (r: &[u8])
    ensures
        r@ == spec_trim(s@),
{
    proof {
        assert(s@.skip(0) =~= s@);
    }
    let mut i: usize = 0;
    while i < s.len() && is_ws(s[i])
        invariant
            i <= s@.len(),
            trim_start(s@) == trim_start(s@.skip(i as int)),
        decreases s@.len() - i,
    {
        proof {
            assert(s@.skip(i as int).drop_first() =~= s@.skip(i + 1));
        }
        i = i + 1;
    }
    proof {
        if i < s@.len() {
            assert(trim_start(s@.skip(i as int)) == s@.skip(i as int));
        } else {
            assert(s@.skip(i as int) =~= Seq::<u8>::empty());
        }
        assert(s@.skip(i as int) =~= s@.subrange(i as int, s@.len() as int));
    }
    let mut j: usize = s.len();
    while j > i && is_ws(s[j - 1])
        invariant
            i <= j <= s@.len(),
            trim_end(s@.skip(i as int)) == trim_end(s@.subrange(i as int, j as int)),
        decreases j,
    {
        proof {
            assert(s@.subrange(i as int, j as int).drop_last() =~= s@.subrange(i as int, j - 1));
        }
        j = j - 1;
    }
    proof {
        assert(trim_end(s@.subrange(i as int, j as int)) == s@.subrange(i as int, j as int));
    }
    vstd::slice::slice_subrange(s, i, j)
}

/// No upper-case ASCII letter anywhere in `s`.
pub open spec fn no_upper(s: Seq<u8>) -> bool {
    forall|i: int| 0 <= i < s.len() ==> !(('A' as u8) <= s[i] && s[i] <= ('Z' as u8))
}

/// No whitespace at either end of `s`.
pub open spec fn is_trimmed(s: Seq<u8>) -> bool {
    s.len() > 0 ==> (!is_ws_byte(s[0]) && !is_ws_byte(s.last()))
}

/// Lower-casing leaves no upper-case letter behind.
pub proof fn lemma_lower_no_upper(s: Seq<u8>)
    ensures
        no_upper(spec_lower(s)),
{
    assert forall|i: int|
        0 <= i < spec_lower(s).len() implies !(('A' as u8) <= spec_lower(s)[i] && spec_lower(s)[i]
        <= ('Z' as u8)) by {
        assert(spec_lower(s)[i] == lower_byte(s[i]));
    }
}

/// Lower-casing touches only letters, so a trimmed string stays trimmed.
pub proof fn lemma_lower_preserves_trimmed(s: Seq<u8>)
    requires
        is_trimmed(s),
    ensures
        is_trimmed(spec_lower(s)),
{
    if s.len() > 0 {
        assert(spec_lower(s)[0] == lower_byte(s[0]));
        assert(spec_lower(s).last() == lower_byte(s.last()));
    }
}

proof fn lemma_trim_start_head(s: Seq<u8>)
    ensures
        trim_start(s).len() > 0 ==> !is_ws_byte(trim_start(s)[0]),
    decreases s.len(),
{
    if s.len() > 0 && is_ws_byte(s[0]) {
        lemma_trim_start_head(s.drop_first());
    }
}

proof fn lemma_trim_end_props(s: Seq<u8>)
    ensures
        trim_end(s).len() <= s.len(),
        trim_end(s) == s.take(trim_end(s).len() as int),
        trim_end(s).len() > 0 ==> !is_ws_byte(trim_end(s).last()),
    decreases s.len(),
{
    if s.len() > 0 && is_ws_byte(s.last()) {
        lemma_trim_end_props(s.drop_last());
        assert(s.drop_last().take(trim_end(s).len() as int) =~= s.take(
            trim_end(s).len() as int,
        ));
    } else {
        assert(s.take(s.len() as int) =~= s);
    }
}

/// What trimming promises: no whitespace survives at either end.
pub proof fn lemma_trim_trimmed(s: Seq<u8>)
    ensures
        is_trimmed(spec_trim(s)),
{
    let t = trim_start(s);
    lemma_trim_start_head(s);
    lemma_trim_end_props(t);
    if spec_trim(s).len() > 0 {
        assert(spec_trim(s)[0] == t.take(spec_trim(s).len() as int)[0]);
        assert(spec_trim(s)[0] == t[0]);
    }
}

/// `needle` occurs in `haystack` starting at `i`.
pub open spec fn match_at(h: Seq<u8>, n: Seq<u8>, i: int) -> bool {
    0 <= i && i + n.len() <= h.len() && h.subrange(i, i + n.len()) == n
}

/// Index of the first occurrence of `n` in `h` at or after `i`.
pub open spec fn find_from(h: Seq<u8>, n: Seq<u8>, i: int) -> Option<int>
    decreases h.len() - i,
{
    if i < 0 || i + n.len() > h.len() || n.len() == 0 {
        None
    } else if match_at(h, n, i) {
        Some(i)
    } else {
        find_from(h, n, i + 1)
    }
}

/// `n` occurs somewhere in `h`, whole and contiguous.
pub open spec fn spec_contains(h: Seq<u8>, n: Seq<u8>) -> bool {
    exists|k: int| match_at(h, n, k)
}

/// An occurrence in the right part survives concatenation, shifted.
pub proof fn lemma_match_at_concat_right(a: Seq<u8>, b: Seq<u8>, n: Seq<u8>, k: int)
    requires
        match_at(b, n, k),
    ensures
        match_at(a + b, n, a.len() + k),
{
    assert((a + b).subrange(a.len() + k, a.len() + k + n.len()) =~= b.subrange(k, k + n.len()));
}

/// An occurrence in the left part survives concatenation in place.
pub proof fn lemma_match_at_concat_left(a: Seq<u8>, b: Seq<u8>, n: Seq<u8>, k: int)
    requires
        match_at(a, n, k),
    ensures
        match_at(a + b, n, k),
{
    assert((a + b).subrange(k, k + n.len()) =~= a.subrange(k, k + n.len()));
}

/// Index of the first occurrence of `n` in `h`.
pub open spec fn spec_find(h: Seq<u8>, n: Seq<u8>) -> Option<int> {
    find_from(h, n, 0)
}

/// First occurrence of `n` in `h`, scanning left to right.
pub fn find_sub(h: &[u8], n: &[u8]) -> (r: Option<usize>)
    requires
        n@.len() >= 1,
    ensures
        match r {
            Some(i) => i + n@.len() <= h@.len() && match_at(h@, n@, i as int) && spec_find(
                h@,
                n@,
            ) == Some(i as int),
            None => spec_find(h@, n@) is None,
        },
{
    if n.len() > h.len() {
        return None;
    }
    let bound: usize = h.len() - n.len();
    let mut i: usize = 0;
    loop
        invariant
            0 <= i <= bound + 1,
            n@.len() >= 1,
            bound + n@.len() == h@.len(),
            h@.len() <= usize::MAX,
            spec_find(h@, n@) == find_from(h@, n@, i as int),
        decreases bound + 1 - i,
    {
        if i > bound {
            return None;
        }
        let piece = vstd::slice::slice_subrange(h, i, i + n.len());
        if bytes_eq(piece, n) {
            return Some(i);
        }
        i = i + 1;
    }
}

/// Index of the first occurrence of the byte `b` in `s`.
pub open spec fn spec_find_byte(s: Seq<u8>, b: u8) -> Option<int>
    decreases s.len(),
{
    if s.len() == 0 {
        None
    } else if s[0] == b {
        Some(0)
    } else {
        match spec_find_byte(s.drop_first(), b) {
            Some(j) => Some(j + 1),
            None => None,
        }
    }
}

/// A byte that occurs nowhere is not found.
pub proof fn lemma_find_byte_none(s: Seq<u8>, b: u8)
    requires
        forall|k: int| 0 <= k < s.len() ==> s[k] != b,
    ensures
        spec_find_byte(s, b) is None,
    decreases s.len(),
{
    if s.len() > 0 {
        lemma_find_byte_none(s.drop_first(), b);
    }
}

/// The earliest occurrence is the one found.
pub proof fn lemma_find_byte_at(s: Seq<u8>, b: u8, k: int)
    requires
        0 <= k < s.len(),
        s[k] == b,
        forall|l: int| 0 <= l < k ==> s[l] != b,
    ensures
        spec_find_byte(s, b) == Some(k),
    decreases k,
{
    if k > 0 {
        lemma_find_byte_at(s.drop_first(), b, k - 1);
    }
}

/// A fruitless search means the byte occurs nowhere.
pub proof fn lemma_find_byte_none_inv(s: Seq<u8>, b: u8)
    requires
        spec_find_byte(s, b) is None,
    ensures
        forall|i: int| 0 <= i < s.len() ==> s[i] != b,
    decreases s.len(),
{
    if s.len() > 0 {
        lemma_find_byte_none_inv(s.drop_first(), b);
        assert forall|i: int| 0 <= i < s.len() implies s[i] != b by {
            if i > 0 {
                assert(s.drop_first()[i - 1] != b);
            }
        }
    }
}

/// What a successful byte search means: the byte is there, and nowhere
/// earlier.
pub proof fn lemma_find_byte_some(s: Seq<u8>, b: u8)
    requires
        spec_find_byte(s, b) is Some,
    ensures
        ({
            let j = spec_find_byte(s, b)->Some_0;
            0 <= j < s.len() && s[j] == b && forall|l: int| 0 <= l < j ==> s[l] != b
        }),
    decreases s.len(),
{
    if s.len() > 0 && s[0] != b {
        lemma_find_byte_some(s.drop_first(), b);
        let j = spec_find_byte(s, b)->Some_0;
        assert forall|l: int| 0 <= l < j implies s[l] != b by {
            if l > 0 {
                assert(s.drop_first()[l - 1] != b);
            }
        }
    }
}

/// First occurrence of `b` in `s`, scanning left to right.
pub fn find_byte(s: &[u8], b: u8) -> (r: Option<usize>)
    ensures
        match r {
            Some(i) => i < s@.len() && s@[i as int] == b && spec_find_byte(s@, b) == Some(i as int),
            None => spec_find_byte(s@, b) is None,
        },
{
    let mut i: usize = 0;
    while i < s.len()
        invariant
            0 <= i <= s@.len(),
            forall|l: int| 0 <= l < i ==> s@[l] != b,
        decreases s@.len() - i,
    {
        if s[i] == b {
            proof {
                lemma_find_byte_at(s@, b, i as int);
            }
            return Some(i);
        }
        i = i + 1;
    }
    proof {
        lemma_find_byte_none(s@, b);
    }
    None
}

proof fn lemma_find_from_first(h: Seq<u8>, n: Seq<u8>, i: int, k: int)
    requires
        n.len() >= 1,
        0 <= i <= k,
        match_at(h, n, k),
        forall|j: int| i <= j < k ==> !match_at(h, n, j),
    ensures
        find_from(h, n, i) == Some(k),
    decreases k - i,
{
    if i < k {
        lemma_find_from_first(h, n, i + 1, k);
    }
}

/// An occurrence with none before it is the one the search finds.
pub proof fn lemma_find_first(h: Seq<u8>, n: Seq<u8>, k: int)
    requires
        n.len() >= 1,
        match_at(h, n, k),
        forall|j: int| 0 <= j < k ==> !match_at(h, n, j),
    ensures
        spec_find(h, n) == Some(k),
{
    lemma_find_from_first(h, n, 0, k);
}

/// Strict lexicographic order on byte strings, a prefix coming first.
pub open spec fn lex_lt(a: Seq<u8>, b: Seq<u8>) -> bool
    decreases a.len(),
{
    b.len() > 0 && (a.len() == 0 || a[0] < b[0] || (a[0] == b[0] && lex_lt(
        a.drop_first(),
        b.drop_first(),
    )))
}

/// Lexicographic comparison, `true` when `a` sorts strictly before `b`.
pub fn lex_lt_bytes(a: &[u8], b: &[u8]) -> (r: bool)
    ensures
        r == lex_lt(a@, b@),
{
    proof {
        assert(a@.skip(0) =~= a@);
        assert(b@.skip(0) =~= b@);
    }
    let mut i: usize = 0;
    loop
        invariant
            i <= a@.len(),
            i <= b@.len(),
            lex_lt(a@, b@) == lex_lt(a@.skip(i as int), b@.skip(i as int)),
        decreases a@.len() - i,
    {
        if i >= b.len() {
            proof {
                assert(b@.skip(i as int) =~= Seq::<u8>::empty());
            }
            return false;
        }
        if i >= a.len() {
            proof {
                assert(a@.skip(i as int) =~= Seq::<u8>::empty());
            }
            return true;
        }
        if a[i] < b[i] {
            return true;
        }
        if a[i] > b[i] {
            return false;
        }
        proof {
            assert(a@.skip(i as int).drop_first() =~= a@.skip(i + 1));
            assert(b@.skip(i as int).drop_first() =~= b@.skip(i + 1));
        }
        i = i + 1;
    }
}

/// `lex_lt` never relates a byte string to itself.
pub proof fn lemma_lex_lt_irrefl(a: Seq<u8>)
    ensures
        !lex_lt(a, a),
    decreases a.len(),
{
    if a.len() > 0 {
        lemma_lex_lt_irrefl(a.drop_first());
    }
}

/// `lex_lt` is transitive.
pub proof fn lemma_lex_lt_trans(a: Seq<u8>, b: Seq<u8>, c: Seq<u8>)
    requires
        lex_lt(a, b),
        lex_lt(b, c),
    ensures
        lex_lt(a, c),
    decreases a.len(),
{
    if a.len() > 0 && a[0] == b[0] && b[0] == c[0] {
        lemma_lex_lt_trans(a.drop_first(), b.drop_first(), c.drop_first());
    }
}

/// Any two byte strings are ordered or equal.
pub proof fn lemma_lex_trichotomy(a: Seq<u8>, b: Seq<u8>)
    ensures
        lex_lt(a, b) || lex_lt(b, a) || a == b,
    decreases a.len(),
{
    if a.len() == 0 && b.len() == 0 {
        assert(a =~= b);
    } else if a.len() > 0 && b.len() > 0 && a[0] == b[0] {
        lemma_lex_trichotomy(a.drop_first(), b.drop_first());
        if !lex_lt(a, b) && !lex_lt(b, a) {
            assert(a.drop_first() == b.drop_first());
            assert forall|i: int| 0 <= i < a.len() implies a[i] == b[i] by {
                if i > 0 {
                    assert(a.drop_first()[i - 1] == b.drop_first()[i - 1]);
                }
            }
            assert(a =~= b);
        }
    }
}

/// The decimal digits of `n`, most significant first.
pub open spec fn spec_dec(n: nat) -> Seq<u8>
    decreases n,
{
    if n < 10 {
        seq![(('0' as u8) + n) as u8]
    } else {
        spec_dec(n / 10).push((('0' as u8) + (n % 10)) as u8)
    }
}

/// Render `n` in decimal, as ASCII digit bytes.
pub fn dec_bytes(n: usize) -> (r: Vec<u8>)
    ensures
        r@ == spec_dec(n as nat),
    decreases n,
{
    if n < 10 {
        let mut v: Vec<u8> = Vec::new();
        v.push(('0' as u8) + (n as u8));
        proof {
            assert(v@ =~= spec_dec(n as nat));
        }
        v
    } else {
        let mut v = dec_bytes(n / 10);
        v.push(('0' as u8) + ((n % 10) as u8));
        v
    }
}

/// `p` is a prefix of `s`.
pub open spec fn spec_starts_with(s: Seq<u8>, p: Seq<u8>) -> bool {
    p.len() <= s.len() && s.take(p.len() as int) == p
}

/// Whether `s` begins with `p`.
pub fn starts_with(s: &[u8], p: &[u8]) -> (r: bool)
    ensures
        r == spec_starts_with(s@, p@),
{
    if p.len() > s.len() {
        return false;
    }
    let head = vstd::slice::slice_subrange(s, 0, p.len());
    proof {
        assert(s@.subrange(0, p@.len() as int) =~= s@.take(p@.len() as int));
    }
    bytes_eq(head, p)
}

/// Byte-for-byte equality of two slices.
pub fn bytes_eq(a: &[u8], b: &[u8]) -> (r: bool)
    ensures
        r == (a@ == b@),
{
    if a.len() != b.len() {
        proof {
            assert(a@.len() != b@.len());
        }
        return false;
    }
    let mut i: usize = 0;
    while i < a.len()
        invariant
            i <= a@.len(),
            a@.len() == b@.len(),
            forall|j: int| 0 <= j < i ==> a@[j] == b@[j],
        decreases a@.len() - i,
    {
        if a[i] != b[i] {
            return false;
        }
        i = i + 1;
    }
    proof {
        assert(a@ =~= b@);
    }
    true
}

} // verus!
