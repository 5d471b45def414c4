use crate::external::{gzip_contents, gzip_decode};
use crate::layout::prepend_first;
use vstd::prelude::*;

verus! {

/// Decompresses gzip-compressed bytes.
///
/// The input must be a valid gzip stream (the embedded assets are).
pub fn decompress(bytes: &[u8]) -> (data: Vec<u8>)
    requires
        gzip_contents(bytes@) is Some,
    ensures
        gzip_contents(bytes@) == Some(data@),
{
    match gzip_decode(bytes) {
        Some(data) => data,
        None => {
            unreached()
        },
    }
}

/// Decompresses gzip-compressed bytes, or gives `None` when they are not a gzip stream.
pub fn try_decompress(bytes: &[u8]) -> (data: Option<Vec<u8>>)
    ensures
        match data {
            Some(d) => gzip_contents(bytes@) == Some(d@),
            None => gzip_contents(bytes@) is None,
        },
{
    match gzip_decode(bytes) {
        Some(_) => Some(decompress(bytes)),
        None => None,
    }
}

/// The little-endian `u32` stored in bytes `4 * i .. 4 * i + 4`.
pub open spec fn le_u32_at(b: Seq<u8>, i: int) -> u32 {
    (b[4 * i] as int + 256 * b[4 * i + 1] as int + 65536 * b[4 * i + 2] as int + 16777216 * b[4
        * i + 3] as int) as u32
}

/// Reads consecutive little-endian `u32` values; a trailing partial group is ignored.
pub fn parse_frequencies(bytes: &[u8]) -> (freqs: Vec<u32>)
    ensures
        freqs@.len() == bytes@.len() / 4,
        forall|i: int| 0 <= i < freqs@.len() ==> #[trigger] freqs@[i] == le_u32_at(bytes@, i),
{
    let mut freqs: Vec<u32> = Vec::new();
    let n = bytes.len() / 4;
    let mut i: usize = 0;
    while i < n
        invariant
            i <= n == bytes@.len() / 4,
            bytes@.len() <= usize::MAX,
            freqs@.len() == i,
            forall|j: int| 0 <= j < i ==> #[trigger] freqs@[j] == le_u32_at(bytes@, j),
        decreases n - i,
    {
        assert(4 * i + 3 < bytes@.len()) by (nonlinear_arith)
            requires
                i < n,
                n == bytes@.len() / 4,
        ;
        let b0 = bytes[4 * i] as u32;
        let b1 = bytes[4 * i + 1] as u32;
        let b2 = bytes[4 * i + 2] as u32;
        let b3 = bytes[4 * i + 3] as u32;
        let v: u32 = b0 + 256 * b1 + 65536 * b2 + 16777216 * b3;
        freqs.push(v);
        i = i + 1;
    }
    freqs
}

/// The pieces of `b` between newline bytes.
pub open spec fn newline_pieces(b: Seq<u8>) -> Seq<Seq<u8>>
    decreases b.len(),
{
    if b.len() == 0 {
        seq![seq![]]
    } else if b[0] == 10 {
        seq![seq![]] + newline_pieces(b.drop_first())
    } else {
        prepend_first(seq![b[0]], newline_pieces(b.drop_first()))
    }
}

/// A line without the carriage return of a "\r\n" line ending.
pub open spec fn strip_cr(l: Seq<u8>) -> Seq<u8> {
    if l.len() > 0 && l.last() == 13 {
        l.drop_last()
    } else {
        l
    }
}

/// The lines of a text as `str::lines` gives them: split at "\n" or "\r\n",
/// with the final line ending optional.
pub open spec fn text_lines_of(b: Seq<u8>) -> Seq<Seq<u8>> {
    let ps = newline_pieces(b);
    let ended = ps.drop_last().map_values(|l: Seq<u8>| strip_cr(l));
    if ps.last().len() > 0 {
        ended.push(ps.last())
    } else {
        ended
    }
}

proof fn lemma_newline_pieces_nonempty(b: Seq<u8>)
    ensures
        newline_pieces(b).len() >= 1,
    decreases b.len(),
{
    if b.len() > 0 {
        lemma_newline_pieces_nonempty(b.drop_first());
    }
}

/// `sp` is a range of `b` holding exactly `line`.
pub open spec fn is_span_of(b: Seq<u8>, sp: (usize, usize), line: Seq<u8>) -> bool {
    &&& sp.0 <= sp.1 <= b.len()
    &&& b.subrange(sp.0 as int, sp.1 as int) == line
}

/// The byte ranges of the lines of `b` (see `text_lines_of`).
pub fn line_spans(b: &[u8]) -> (spans: Vec<(usize, usize)>)
    ensures
        spans@.len() == text_lines_of(b@).len(),
        forall|i: int|
            0 <= i < spans@.len() ==> is_span_of(b@, #[trigger] spans@[i], text_lines_of(b@)[i]),
{
    let mut spans: Vec<(usize, usize)> = Vec::new();
    let ghost mut done: Seq<Seq<u8>> = Seq::empty();
    let mut st: usize = 0;
    let mut i: usize = 0;
    proof {
        assert(b@.skip(0) =~= b@);
        lemma_newline_pieces_nonempty(b@);
        let r = newline_pieces(b@);
        assert(b@.subrange(0, 0) =~= Seq::<u8>::empty());
        assert(prepend_first(Seq::<u8>::empty(), r) =~~= r);
        assert(done + r =~= r);
    }
    while i < b.len()
        invariant
            st <= i <= b@.len(),
            newline_pieces(b@) == done + prepend_first(
                b@.subrange(st as int, i as int),
                newline_pieces(b@.skip(i as int)),
            ),
            spans@.len() == done.len(),
            forall|j: int|
                0 <= j < spans@.len() ==> is_span_of(b@, #[trigger] spans@[j], strip_cr(done[j])),
        decreases b.len() - i,
    {
        let ghost rest = b@.skip(i as int);
        let ghost cur = b@.subrange(st as int, i as int);
        proof {
            assert(rest.drop_first() =~= b@.skip(i + 1));
            lemma_newline_pieces_nonempty(b@.skip(i + 1));
        }
        if b[i] == 10u8 {
            let mut e = i;
            if e > st && b[e - 1] == 13u8 {
                e = e - 1;
            }
            proof {
                let r = newline_pieces(b@.skip(i + 1));
                assert(prepend_first(cur, seq![seq![]] + r) =~~= seq![cur] + r);
                assert(b@.subrange((i + 1) as int, (i + 1) as int) =~= Seq::<u8>::empty());
                assert(prepend_first(Seq::<u8>::empty(), r) =~~= r);
                assert(done + (seq![cur] + r) =~= done.push(cur) + r);
                if i > st && b@[i - 1] == 13 {
                    assert(cur.last() == b@[i - 1]);
                    assert(cur.drop_last() =~= b@.subrange(st as int, e as int));
                } else {
                    assert(cur.len() > 0 ==> cur.last() == b@[i - 1]);
                    assert(cur =~= b@.subrange(st as int, e as int));
                }
                assert(strip_cr(cur) =~= b@.subrange(st as int, e as int));
            }
            let ghost old_spans = spans@;
            spans.push((st, e));
            proof {
                let old_done = done;
                done = done.push(cur);
                assert forall|j: int| 0 <= j < spans@.len() implies is_span_of(
                    b@,
                    #[trigger] spans@[j],
                    strip_cr(done[j]),
                ) by {
                    if j < old_spans.len() {
                        assert(spans@[j] == old_spans[j]);
                        assert(done[j] == old_done[j]);
                    } else {
                        assert(spans@[j] == (st, e));
                        assert(done[j] == cur);
                    }
                }
            }
            st = i + 1;
        } else {
            proof {
                let r = newline_pieces(b@.skip(i + 1));
                assert(cur + (seq![b@[i as int]] + r[0]) =~= b@.subrange(st as int, i + 1) + r[0]);
                assert(prepend_first(cur, prepend_first(seq![b@[i as int]], r)) =~= prepend_first(
                    b@.subrange(st as int, i + 1),
                    r,
                ));
            }
        }
        i = i + 1;
    }
    let ghost cur = b@.subrange(st as int, i as int);
    proof {
        assert(b@.skip(i as int) =~= Seq::<u8>::empty());
        assert(prepend_first(cur, seq![seq![]]) =~~= seq![cur]);
        let ps = newline_pieces(b@);
        assert(ps =~~= done.push(cur));
        assert(ps.drop_last() =~= done);
    }
    if st < b.len() {
        spans.push((st, b.len()));
    }
    proof {
        let ps = newline_pieces(b@);
        let lines = text_lines_of(b@);
        assert(ps.last() == cur);
        assert forall|j: int| 0 <= j < spans@.len() implies is_span_of(
            b@,
            #[trigger] spans@[j],
            lines[j],
        ) by {
            if j < done.len() {
                assert(lines[j] == strip_cr(done[j]));
            }
        }
    }
    spans
}

} // verus!
