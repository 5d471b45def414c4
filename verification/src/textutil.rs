use vstd::prelude::*;
use vstd::utf8::{
    encode_utf8, encode_utf8_valid_utf8, is_char_boundary, is_char_boundary_iff_not_is_continuation_byte,
    is_char_boundary_start_end_of_seq, is_continuation_byte, valid_utf8, valid_utf8_concat,
};

verus! {

/// Collects the characters of a string slice into a vector.
pub fn chars_of(s: &str) -> (v: Vec<char>)
    ensures
        v@ == s@,
{
    let mut v: Vec<char> = Vec::new();
    for c in it: s.chars()
        invariant
            v@ == it.seq().take(it.index() as int),
            it.seq() == s@,
    {
        v.push(c);
    }
    v
}

/// Compares two strings character by character.
pub fn str_eq(a: &str, b: &str) -> (eq: bool)
    ensures
        eq == (a@ == b@),
{
    let x = chars_of(a);
    let y = chars_of(b);
    if x.len() != y.len() {
        return false;
    }
    let mut i: usize = 0;
    while i < x.len()
        invariant
            i <= x@.len() == y@.len(),
            x@ == a@,
            y@ == b@,
            forall|j: int| 0 <= j < i ==> x@[j] == y@[j],
        decreases x.len() - i,
    {
        if x[i] != y[i] {
            assert(a@[i as int] != b@[i as int]);
            return false;
        }
        i = i + 1;
    }
    assert(x@ =~= y@);
    true
}

/// Appends all of `src` to `out`.
pub fn append_bytes(out: &mut Vec<u8>, src: &[u8])
    ensures
        final(out)@ == old(out)@ + src@,
{
    append_range(out, src, 0, src.len());
    assert(src@.subrange(0, src@.len() as int) =~= src@);
}

/// Appends `src[from..to]` to `out`.
pub fn append_range(out: &mut Vec<u8>, src: &[u8], from: usize, to: usize)
    requires
        from <= to <= src@.len(),
    ensures
        final(out)@ == old(out)@ + src@.subrange(from as int, to as int),
{
    let ghost start = out@;
    let mut i: usize = from;
    while i < to
        invariant
            from <= i <= to <= src@.len(),
            out@ =~= start + src@.subrange(from as int, i as int),
        decreases to - i,
    {
        out.push(src[i]);
        i = i + 1;
    }
}

/// UTF-8 encoding distributes over concatenation.
pub proof fn lemma_encode_utf8_concat(a: Seq<char>, b: Seq<char>)
    ensures
        encode_utf8(a + b) == encode_utf8(a) + encode_utf8(b),
    decreases a.len(),
{
    if a.len() == 0 {
        assert(a + b =~= b);
        assert(encode_utf8(a) =~= Seq::<u8>::empty());
        assert(encode_utf8(a) + encode_utf8(b) =~= encode_utf8(b));
    } else {
        assert((a + b).drop_first() =~= a.drop_first() + b);
        assert((a + b)[0] == a[0]);
        lemma_encode_utf8_concat(a.drop_first(), b);
        assert(encode_utf8(a + b) =~= encode_utf8(a) + encode_utf8(b));
    }
}

/// A sequence of ASCII bytes is valid UTF-8.
pub proof fn lemma_ascii_valid(b: Seq<u8>)
    requires
        forall|i: int| 0 <= i < b.len() ==> #[trigger] b[i] < 0x80,
    ensures
        valid_utf8(b),
{
    let chars = Seq::new(b.len(), |i: int| b[i] as char);
    assert forall|i: int| 0 <= i < b.len() implies (#[trigger] chars[i]) as u32 == b[i] as u32 by {
        assert((b[i] as char) as u32 == b[i] as u32);
    }
    lemma_ascii_chars_encode(chars, b);
    encode_utf8_valid_utf8(chars);
}

/// ASCII characters encode to their own byte each.
pub proof fn lemma_ascii_chars_encode(chars: Seq<char>, b: Seq<u8>)
    requires
        chars.len() == b.len(),
        forall|i: int| 0 <= i < b.len() ==> #[trigger] b[i] < 0x80,
        forall|i: int| 0 <= i < b.len() ==> (#[trigger] chars[i]) as u32 == b[i] as u32,
    ensures
        encode_utf8(chars) == b,
    decreases chars.len(),
{
    if chars.len() > 0 {
        let u: u32 = chars[0] as u32;
        let b0: u8 = b[0];
        assert(u == b0 as u32);
        assert(b0 < 0x80);
        assert(((u & 0x7F) as u8) == b0) by (bit_vector)
            requires
                u == b0 as u32,
                b0 < 0x80,
        ;
        assert(vstd::utf8::encode_scalar(u) =~= seq![b0]);
        lemma_ascii_chars_encode(chars.drop_first(), b.drop_first());
        assert(encode_utf8(chars) =~= b);
    } else {
        assert(b =~= Seq::<u8>::empty());
    }
}

/// The largest character boundary of `bytes` that is at most `n`.
pub open spec fn char_floor(bytes: Seq<u8>, n: int) -> int
    decreases n,
{
    if n <= 0 {
        0
    } else if is_char_boundary(bytes, n) {
        n
    } else {
        char_floor(bytes, n - 1)
    }
}

/// Character boundaries inside the second part of a concatenation of two
/// valid UTF-8 sequences are the boundaries of that part, shifted.
pub proof fn lemma_boundary_shift(p: Seq<u8>, q: Seq<u8>, k: int)
    requires
        valid_utf8(p),
        valid_utf8(q),
        0 <= k <= q.len(),
    ensures
        is_char_boundary(p + q, p.len() + k) == is_char_boundary(q, k),
{
    valid_utf8_concat(p, q);
    let pq = p + q;
    is_char_boundary_start_end_of_seq(pq);
    is_char_boundary_start_end_of_seq(q);
    if k < q.len() {
        is_char_boundary_iff_not_is_continuation_byte(pq, p.len() + k);
        is_char_boundary_iff_not_is_continuation_byte(q, k);
        assert(pq[p.len() + k] == q[k]);
    } else {
        assert(pq.len() == p.len() + k);
    }
}

/// Cutting a concatenation of valid UTF-8 sequences inside its second part
/// lands on the shifted cut of that part.
pub proof fn lemma_char_floor_shift(p: Seq<u8>, q: Seq<u8>, k: int)
    requires
        valid_utf8(p),
        valid_utf8(q),
        0 <= k <= q.len(),
    ensures
        char_floor(p + q, p.len() + k) == p.len() + char_floor(q, k),
    decreases k,
{
    lemma_boundary_shift(p, q, k);
    if k == 0 {
        is_char_boundary_start_end_of_seq(q);
        if p.len() > 0 {
            assert(is_char_boundary(p + q, p.len() as int));
        }
    } else {
        if !is_char_boundary(q, k) {
            lemma_char_floor_shift(p, q, k - 1);
        }
    }
}

/// The cut never moves past `n` and always lands on a character boundary.
pub proof fn lemma_char_floor_bounds(bytes: Seq<u8>, n: int)
    requires
        valid_utf8(bytes),
        0 <= n <= bytes.len(),
    ensures
        0 <= char_floor(bytes, n) <= n,
        is_char_boundary(bytes, char_floor(bytes, n)),
    decreases n,
{
    is_char_boundary_start_end_of_seq(bytes);
    if n > 0 && !is_char_boundary(bytes, n) {
        lemma_char_floor_bounds(bytes, n - 1);
    }
}

/// The cut reaches every character boundary that is not past `n`.
pub proof fn lemma_char_floor_reaches(bytes: Seq<u8>, n: int, k: int)
    requires
        0 <= k <= n,
        is_char_boundary(bytes, k),
    ensures
        k <= char_floor(bytes, n),
    decreases n,
{
    if n > k && !is_char_boundary(bytes, n) {
        lemma_char_floor_reaches(bytes, n - 1, k);
    }
}

/// In valid UTF-8 a character takes at most four bytes, so some character
/// boundary lies within three bytes below any position.
pub proof fn lemma_boundary_near(bytes: Seq<u8>, n: int) -> (k: int)
    requires
        valid_utf8(bytes),
        0 <= n <= bytes.len(),
    ensures
        n - 3 <= k <= n,
        0 <= k,
        is_char_boundary(bytes, k),
    decreases bytes.len(),
{
    is_char_boundary_start_end_of_seq(bytes);
    if n <= 3 {
        0
    } else {
        let len1 = vstd::utf8::length_of_first_scalar(bytes);
        let tail = vstd::utf8::pop_first_scalar(bytes);
        assert(1 <= len1 <= 4);
        assert(tail.len() == bytes.len() - len1);
        let k1 = lemma_boundary_near(tail, n - len1);
        assert(is_char_boundary(bytes, k1 + len1));
        k1 + len1
    }
}

/// The cut of valid UTF-8 falls at most three bytes below `n`.
pub proof fn lemma_char_floor_near(bytes: Seq<u8>, n: int)
    requires
        valid_utf8(bytes),
        0 <= n <= bytes.len(),
    ensures
        n - 3 <= char_floor(bytes, n),
{
    let k = lemma_boundary_near(bytes, n);
    lemma_char_floor_reaches(bytes, n, k);
}

/// In ASCII text every position is a character boundary, so the cut is exact.
pub proof fn lemma_char_floor_ascii(bytes: Seq<u8>, n: int)
    requires
        forall|i: int| 0 <= i < bytes.len() ==> #[trigger] bytes[i] < 0x80,
        0 <= n <= bytes.len(),
    ensures
        char_floor(bytes, n) == n,
{
    lemma_ascii_valid(bytes);
    is_char_boundary_start_end_of_seq(bytes);
    if 0 < n < bytes.len() {
        is_char_boundary_iff_not_is_continuation_byte(bytes, n);
        assert(!is_continuation_byte(bytes[n]));
    }
}

/// The position in `bytes` (valid UTF-8) where a cut at `limit` lands, as
/// `str::is_char_boundary` would find it by stepping back from `limit`.
pub fn floor_boundary(bytes: &Vec<u8>, limit: usize) -> (end: usize)
    requires
        valid_utf8(bytes@),
        limit <= bytes@.len(),
    ensures
        end as int == char_floor(bytes@, limit as int),
        end <= limit,
{
    let mut end = limit;
    while end > 0 && end < bytes.len() && 0x80 <= bytes[end] && bytes[end] <= 0xBF
        invariant
            end <= limit <= bytes@.len(),
            valid_utf8(bytes@),
            char_floor(bytes@, limit as int) == char_floor(bytes@, end as int),
        decreases end,
    {
        proof {
            is_char_boundary_iff_not_is_continuation_byte(bytes@, end as int);
        }
        end = end - 1;
    }
    proof {
        is_char_boundary_start_end_of_seq(bytes@);
        if end > 0 && end < bytes@.len() {
            is_char_boundary_iff_not_is_continuation_byte(bytes@, end as int);
        }
    }
    end
}

} // verus!
