//! Byte-string operations used by the request parser and the page builders.
//!
//! Every text the server handles is kept as bytes; each operation here is
//! stated against a spec function over `Seq<u8>`.
use vstd::prelude::*;

verus! {

/// Appends the bytes of `b` to `out`.
pub fn push_bytes(out: &mut Vec<u8>, b: &[u8])
    ensures
        final(out)@ == old(out)@ + b@,
{
    let mut i: usize = 0;
    while i < b.len()
        invariant
            i <= b@.len(),
            out@ == old(out)@ + b@.take(i as int),
        decreases b@.len() - i,
    {
        out.push(b[i]);
        i = i + 1;
        assert(b@.take(i as int) == b@.take(i - 1) + seq![b@[i - 1]]);
    }
    assert(b@.take(b@.len() as int) == b@);
}

/// Copies a slice of bytes into a new vector.
pub fn to_vec(b: &[u8]) -> (out: Vec<u8>)
    ensures
        out@ == b@,
{
    let mut out: Vec<u8> = Vec::new();
    push_bytes(&mut out, b);
    assert(out@ == b@);
    out
}

/// Byte-wise equality of two slices.
pub fn bytes_eq(a: &[u8], b: &[u8]) -> (r: bool)
    ensures
        r == (a@ == b@),
{
    if a.len() != b.len() {
        return false;
    }
    let mut i: usize = 0;
    while i < a.len()
        invariant
            a@.len() == b@.len(),
            i <= a@.len(),
            forall|j: int| 0 <= j < i ==> a@[j] == b@[j],
        decreases a@.len() - i,
    {
        if a[i] != b[i] {
            return false;
        }
        i = i + 1;
    }
    assert(a@ =~= b@);
    true
}

/// `p` occurs in `s` starting at index `i`.
pub open spec fn occurs_at(s: Seq<u8>, p: Seq<u8>, i: int) -> bool {
    0 <= i && i + p.len() <= s.len() && s.subrange(i, i + p.len()) == p
}

/// `s` begins with `p`.
pub open spec fn starts_with(s: Seq<u8>, p: Seq<u8>) -> bool {
    occurs_at(s, p, 0)
}

/// `p` occurs somewhere in `s`.
pub open spec fn contains(s: Seq<u8>, p: Seq<u8>) -> bool {
    exists|i: int| occurs_at(s, p, i)
}

/// Tests whether `p` occurs in `s` at index `i`.
pub fn matches_at(s: &[u8], p: &[u8], i: usize) -> (r: bool)
    ensures
        r == occurs_at(s@, p@, i as int),
{
    if i > s.len() || p.len() > s.len() - i {
        return false;
    }
    let n = s.len();
    let mut j: usize = 0;
    while j < p.len()
        invariant
            n == s@.len(),
            i + p@.len() <= s@.len(),
            j <= p@.len(),
            forall|k: int| 0 <= k < j ==> s@[i + k] == p@[k],
        decreases p@.len() - j,
    {
        if s[i + j] != p[j] {
            assert(s@.subrange(i as int, i + p@.len())[j as int] != p@[j as int]);
            return false;
        }
        j = j + 1;
    }
    assert(s@.subrange(i as int, i + p@.len()) =~= p@);
    true
}

/// Tests whether `s` begins with `p`.
pub fn starts_with_bytes(s: &[u8], p: &[u8]) -> (r: bool)
    ensures
        r == starts_with(s@, p@),
{
    matches_at(s, p, 0)
}

/// Tests whether `p` occurs anywhere in `s`.
pub fn contains_bytes(s: &[u8], p: &[u8]) -> (r: bool)
    ensures
        r == contains(s@, p@),
{
    if p.len() == 0 {
        assert(s@.subrange(0, 0) =~= p@);
        assert(occurs_at(s@, p@, 0));
        return true;
    }
    if p.len() > s.len() {
        assert forall|i: int| !occurs_at(s@, p@, i) by {}
        return false;
    }
    let last = s.len() - p.len() + 1;
    let mut i: usize = 0;
    while i < last
        invariant
            last == s@.len() - p@.len() + 1,
            i <= last,
            forall|k: int| 0 <= k < i ==> !occurs_at(s@, p@, k),
        decreases last - i,
    {
        if matches_at(s, p, i) {
            return true;
        }
        i = i + 1;
    }
    assert forall|k: int| !occurs_at(s@, p@, k) by {
        if 0 <= k < i {
        }
    }
    false
}

/// Every non-overlapping occurrence of `p` in `s`, taken from left to right,
/// replaced by `r`; an empty pattern leaves `s` as it is.
pub open spec fn replace_all(s: Seq<u8>, p: Seq<u8>, r: Seq<u8>) -> Seq<u8>
    decreases s.len(),
{
    if p.len() == 0 || s.len() < p.len() {
        s
    } else if s.take(p.len() as int) == p {
        r + replace_all(s.skip(p.len() as int), p, r)
    } else {
        seq![s[0]] + replace_all(s.skip(1), p, r)
    }
}

/// Replaces every non-overlapping occurrence of the non-empty pattern `p`
/// in `s`, from left to right, by `r`.
pub fn replace_bytes(s: &[u8], p: &[u8], r: &[u8]) -> (out: Vec<u8>)
    requires
        p@.len() > 0,
    ensures
        out@ == replace_all(s@, p@, r@),
{
    let mut out: Vec<u8> = Vec::new();
    let mut i: usize = 0;
    assert(s@.skip(0) == s@);
    while i < s.len()
        invariant
            i <= s@.len(),
            p@.len() > 0,
            out@ + replace_all(s@.skip(i as int), p@, r@) == replace_all(s@, p@, r@),
        decreases s@.len() - i,
    {
        let ghost rest = s@.skip(i as int);
        if p.len() <= s.len() - i && matches_at(s, p, i) {
            assert(rest.take(p@.len() as int) == p@);
            assert(rest.skip(p@.len() as int) == s@.skip(i + p@.len()));
            push_bytes(&mut out, r);
            i = i + p.len();
        } else {
            proof {
                assert(rest.skip(1) == s@.skip(i + 1));
                if rest.len() >= p@.len() {
                    assert(rest.take(p@.len() as int) =~= s@.subrange(i as int, i + p@.len()));
                } else {
                    assert(rest == seq![rest[0]] + rest.skip(1));
                }
            }
            out.push(s[i]);
            i = i + 1;
        }
    }
    assert(s@.skip(i as int) =~= Seq::<u8>::empty());
    assert(out@ + Seq::<u8>::empty() == out@);
    out
}

/// The index of the first occurrence of byte `d` in `s`.
pub open spec fn first_index(s: Seq<u8>, d: u8) -> Option<nat>
    decreases s.len(),
{
    if s.len() == 0 {
        None
    } else if s[0] == d {
        Some(0)
    } else {
        match first_index(s.skip(1), d) {
            Some(k) => Some(k + 1),
            None => None,
        }
    }
}

/// `first_index` finds the first occurrence, and only an occurrence.
pub proof fn lemma_first_index(s: Seq<u8>, d: u8, k: int)
    requires
        0 <= k <= s.len(),
        forall|j: int| 0 <= j < k ==> s[j] != d,
    ensures
        k < s.len() && s[k] == d ==> first_index(s, d) == Some(k as nat),
        k == s.len() ==> first_index(s, d) == None::<nat>,
    decreases k,
{
    if k > 0 {
        lemma_first_index(s.skip(1), d, k - 1);
    } else if s.len() > 0 {
    }
}

/// The pieces of `s` between the bytes equal to `d`, as `str::split` gives
/// them: `n + 1` pieces for `n` separators.
pub open spec fn split(s: Seq<u8>, d: u8) -> Seq<Seq<u8>>
    decreases s.len(),
{
    match first_index(s, d) {
        Some(i) => {
            proof {
                lemma_first_index_bound(s, d);
            }
            seq![s.take(i as int)] + split(s.skip(i + 1 as int), d)
        },
        None => seq![s],
    }
}

/// `split` never yields an empty list of pieces.
pub proof fn lemma_split_nonempty(s: Seq<u8>, d: u8)
    ensures
        split(s, d).len() >= 1,
    decreases s.len(),
{
    lemma_first_index_bound(s, d);
    match first_index(s, d) {
        Some(i) => lemma_split_nonempty(s.skip(i + 1 as int), d),
        None => {},
    }
}

/// A found index is inside the sequence and points at `d`, with no `d` before it.
pub proof fn lemma_first_index_bound(s: Seq<u8>, d: u8)
    ensures
        first_index(s, d) matches Some(i) ==> i < s.len() && s[i as int] == d
            && forall|j: int| 0 <= j < i ==> s[j] != d,
        first_index(s, d) is None ==> forall|j: int| 0 <= j < s.len() ==> s[j] != d,
    decreases s.len(),
{
    if s.len() > 0 {
        lemma_first_index_bound(s.skip(1), d);
        if s[0] != d {
            assert forall|j: int| 1 <= j < s.len() implies s[j] == s.skip(1)[j - 1] by {}
        }
    }
}

/// Splits `s` at every byte equal to `d`.
pub fn split_bytes(s: &[u8], d: u8) -> (pieces: Vec<Vec<u8>>)
    ensures
        pieces.deep_view() == split(s@, d),
{
    let mut pieces: Vec<Vec<u8>> = Vec::new();
    let mut start: usize = 0;
    let mut i: usize = 0;
    assert(s@.skip(0) == s@);
    assert(pieces.deep_view() =~= Seq::<Seq<u8>>::empty());
    while i < s.len()
        invariant
            start <= i <= s@.len(),
            forall|j: int| start <= j < i ==> s@[j] != d,
            pieces.deep_view() + split(s@.skip(start as int), d) == split(s@, d),
        decreases s@.len() - i,
    {
        if s[i] == d {
            let ghost rest = s@.skip(start as int);
            proof {
                lemma_first_index(rest, d, i - start);
                assert(rest.skip(i - start + 1) == s@.skip(i + 1));
                assert(rest.take(i - start) == s@.subrange(start as int, i as int));
            }
            let mut piece: Vec<u8> = Vec::new();
            let mut j: usize = start;
            while j < i
                invariant
                    start <= j <= i < s@.len(),
                    piece@ == s@.subrange(start as int, j as int),
                decreases i - j,
            {
                piece.push(s[j]);
                j = j + 1;
                assert(piece@ == s@.subrange(start as int, j as int));
            }
            let ghost before = pieces.deep_view();
            assert(piece.deep_view() =~= piece@);
            pieces.push(piece);
            assert(pieces.deep_view() =~= before.push(s@.subrange(start as int, i as int)));
            assert(pieces.deep_view() + split(s@.skip(i + 1), d) =~= before + split(rest, d));
            start = i + 1;
        }
        i = i + 1;
    }
    let ghost rest = s@.skip(start as int);
    proof {
        lemma_first_index(rest, d, rest.len() as int);
    }
    let mut piece: Vec<u8> = Vec::new();
    let mut j: usize = start;
    while j < s.len()
        invariant
            start <= j <= s@.len(),
            piece@ == s@.subrange(start as int, j as int),
        decreases s@.len() - j,
    {
        piece.push(s[j]);
        j = j + 1;
        assert(piece@ == s@.subrange(start as int, j as int));
    }
    let ghost before = pieces.deep_view();
    assert(piece@ == rest);
    assert(piece.deep_view() =~= piece@);
    pieces.push(piece);
    assert(pieces.deep_view() =~= before.push(rest));
    assert(before + split(rest, d) =~= before.push(rest));
    pieces
}

/// The decimal digits of `n`, most significant first, with no leading zero.
pub open spec fn decimal(n: nat) -> Seq<u8>
    decreases n,
{
    if n < 10 {
        seq![(48 + n) as u8]
    } else {
        decimal(n / 10).push((48 + n % 10) as u8)
    }
}

/// Appends the decimal digits of `n` to `out`.
pub fn push_decimal(out: &mut Vec<u8>, n: u64)
    ensures
        final(out)@ == old(out)@ + decimal(n as nat),
    decreases n,
{
    if n < 10 {
        out.push(48u8 + n as u8);
    } else {
        push_decimal(out, n / 10);
        out.push(48u8 + (n % 10) as u8);
    }
}

/// The lower-case hexadecimal digit of `d`.
pub open spec fn hex_digit(d: nat) -> u8 {
    if d < 10 {
        (48 + d) as u8
    } else {
        (87 + d) as u8
    }
}

/// The lower-case hexadecimal digits of `n`, with no leading zero.
pub open spec fn hex(n: nat) -> Seq<u8>
    decreases n,
{
    if n < 16 {
        seq![hex_digit(n)]
    } else {
        hex(n / 16).push(hex_digit(n % 16))
    }
}

/// Appends the lower-case hexadecimal digits of `n` to `out`.
pub fn push_hex(out: &mut Vec<u8>, n: u16)
    ensures
        final(out)@ == old(out)@ + hex(n as nat),
    decreases n,
{
    if n < 16 {
        if n < 10 {
            out.push(48u8 + n as u8);
        } else {
            out.push(87u8 + n as u8);
        }
    } else {
        push_hex(out, n / 16);
        let d = n % 16;
        if d < 10 {
            out.push(48u8 + d as u8);
        } else {
            out.push(87u8 + d as u8);
        }
    }
}

/// A continuation byte of a UTF-8 encoding.
fn is_continuation(b: u8) -> (r: bool)
    ensures
        r == vstd::utf8::is_continuation_byte(b),
{
    0x80u8 <= b && b <= 0xbfu8
}

/// Tells whether `b` is well-formed UTF-8 text, as `str::from_utf8` checks
/// it: every scalar is encoded in the fewest bytes, none is a surrogate, and
/// none is above `0x10ffff`.
pub fn is_utf8(b: &[u8]) -> (r: bool)
    ensures
        r == vstd::utf8::valid_utf8(b@),
{
    let n = b.len();
    let mut i: usize = 0;
    assert(b@.skip(0) == b@);
    while i < n
        invariant
            n == b@.len(),
            i <= n,
            vstd::utf8::valid_utf8(b@) == vstd::utf8::valid_utf8(b@.skip(i as int)),
        decreases n - i,
    {
        let ghost rest = b@.skip(i as int);
        let left = n - i;
        let b0 = b[i];
        assert(rest[0] == b0);
        let w: usize;
        let cp: u32;
        if b0 <= 0x7fu8 {
            w = 1;
            cp = (b0 & 0x7fu8) as u32;
        } else if 0xc0u8 <= b0 && b0 <= 0xdfu8 {
            if left < 2 || !is_continuation(b[i + 1]) {
                assert(rest.len() >= 2 ==> rest[1] == b@[i + 1]);
                return false;
            }
            let b1 = b[i + 1];
            assert(rest[1] == b1);
            w = 2;
            cp = (((b0 & 0x1fu8) as u32) << 6u32) | ((b1 & 0x3fu8) as u32);
        } else if 0xe0u8 <= b0 && b0 <= 0xefu8 {
            if left < 3 || !is_continuation(b[i + 1]) || !is_continuation(b[i + 2]) {
                assert(rest.len() >= 3 ==> rest[1] == b@[i + 1] && rest[2] == b@[i + 2]);
                return false;
            }
            let b1 = b[i + 1];
            let b2 = b[i + 2];
            assert(rest[1] == b1 && rest[2] == b2);
            w = 3;
            cp = (((b0 & 0x0fu8) as u32) << 12u32) | (((b1 & 0x3fu8) as u32) << 6u32) | ((b2
                & 0x3fu8) as u32);
        } else if 0xf0u8 <= b0 && b0 <= 0xf7u8 {
            if left < 4 || !is_continuation(b[i + 1]) || !is_continuation(b[i + 2])
                || !is_continuation(b[i + 3]) {
                assert(rest.len() >= 4 ==> rest[1] == b@[i + 1] && rest[2] == b@[i + 2] && rest[3]
                    == b@[i + 3]);
                return false;
            }
            let b1 = b[i + 1];
            let b2 = b[i + 2];
            let b3 = b[i + 3];
            assert(rest[1] == b1 && rest[2] == b2 && rest[3] == b3);
            w = 4;
            cp = (((b0 & 0x07u8) as u32) << 18u32) | (((b1 & 0x3fu8) as u32) << 12u32) | (((b2
                & 0x3fu8) as u32) << 6u32) | ((b3 & 0x3fu8) as u32);
        } else {
            return false;
        }
        assert(cp == vstd::utf8::decode_first_codepoint(rest));
        assert(w as int == vstd::utf8::length_of_first_codepoint(rest));
        if (w == 2 && cp < 0x80u32) || (w == 3 && cp < 0x800u32) || (w == 4 && (cp < 0x10000u32
            || cp > 0x10ffffu32)) {
            return false;
        }
        if 0xd800u32 <= cp && cp <= 0xdfffu32 {
            return false;
        }
        assert(vstd::utf8::valid_first_scalar(rest));
        assert(vstd::utf8::pop_first_scalar(rest) =~= b@.skip(i + w));
        i = i + w;
    }
    assert(b@.skip(i as int) =~= Seq::<u8>::empty());
    true
}

} // verus!
