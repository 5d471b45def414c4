use crate::textutil::lemma_encode_utf8_concat;
use vstd::prelude::*;
use vstd::utf8::{encode_scalar, encode_utf8};

verus! {

/// The characters with the Unicode White_Space property (what `char::is_whitespace` accepts).
pub open spec fn is_whitespace(c: char) -> bool {
    let u = c as u32;
    ||| 0x9 <= u <= 0xd
    ||| u == 0x20
    ||| u == 0x85
    ||| u == 0xa0
    ||| u == 0x1680
    ||| 0x2000 <= u <= 0x200a
    ||| u == 0x2028
    ||| u == 0x2029
    ||| u == 0x202f
    ||| u == 0x205f
    ||| u == 0x3000
}

/// `rest` with `cur` placed in front of its first piece.
pub open spec fn prepend_first<A>(cur: Seq<A>, rest: Seq<Seq<A>>) -> Seq<Seq<A>> {
    rest.update(0, cur + rest[0])
}

/// The pieces of `s` between occurrences of "\n\n", matched left to right
/// without overlap (as `str::split("\n\n")` does).
pub open spec fn split_blank_lines(s: Seq<char>) -> Seq<Seq<char>>
    decreases s.len(),
{
    if s.len() == 0 {
        seq![seq![]]
    } else if s.len() >= 2 && s[0] == '\n' && s[1] == '\n' {
        seq![seq![]] + split_blank_lines(s.subrange(2, s.len() as int))
    } else {
        prepend_first(seq![s[0]], split_blank_lines(s.drop_first()))
    }
}

/// The pieces of `s` between whitespace characters (as `str::split(char::is_whitespace)`).
pub open spec fn split_at_whitespace(s: Seq<char>) -> Seq<Seq<char>>
    decreases s.len(),
{
    if s.len() == 0 {
        seq![seq![]]
    } else if is_whitespace(s[0]) {
        seq![seq![]] + split_at_whitespace(s.drop_first())
    } else {
        prepend_first(seq![s[0]], split_at_whitespace(s.drop_first()))
    }
}

/// A piece that is not empty.
pub open spec fn is_word() -> spec_fn(Seq<char>) -> bool {
    |w: Seq<char>| w.len() > 0
}

/// The words of `s`, as `str::split_whitespace` gives them.
pub open spec fn words_of(s: Seq<char>) -> Seq<Seq<char>> {
    split_at_whitespace(s).filter(is_word())
}

/// Length of the UTF-8 encoding.
pub open spec fn utf8_len(s: Seq<char>) -> nat {
    encode_utf8(s).len()
}

/// Greedy line filling, word by word: the finished lines and the line being filled.
/// A word joins the current line when the line stays within 80 bytes.
pub open spec fn wrap_state(ws: Seq<Seq<char>>) -> (Seq<Seq<char>>, Seq<char>)
    decreases ws.len(),
{
    if ws.len() == 0 {
        (seq![], seq![])
    } else {
        let (done, cur) = wrap_state(ws.drop_last());
        let w = ws.last();
        if cur.len() == 0 {
            (done, w)
        } else if utf8_len(cur) + 1 + utf8_len(w) <= 80 {
            (done, cur + seq![' '] + w)
        } else {
            (done.push(cur), w)
        }
    }
}

/// The lines of one paragraph.
pub open spec fn wrap_words(ws: Seq<Seq<char>>) -> Seq<Seq<char>> {
    let (done, cur) = wrap_state(ws);
    if cur.len() > 0 {
        done.push(cur)
    } else {
        done
    }
}

/// The lines of a text: each paragraph wrapped, with an empty line between paragraphs.
pub open spec fn paragraph_lines(paras: Seq<Seq<char>>) -> Seq<Seq<char>>
    decreases paras.len(),
{
    if paras.len() == 0 {
        seq![]
    } else if paras.len() == 1 {
        wrap_words(words_of(paras[0]))
    } else {
        paragraph_lines(paras.drop_last()) + seq![seq![]] + wrap_words(words_of(paras.last()))
    }
}

/// The lines of `text`.
pub open spec fn text_lines(text: Seq<char>) -> Seq<Seq<char>> {
    paragraph_lines(split_blank_lines(text))
}

/// Filling pages line by line: the finished pages and the page being filled.
/// A page takes at most 58 lines and never starts with an empty line.
pub open spec fn page_state(lines: Seq<Seq<char>>) -> (Seq<Seq<Seq<char>>>, Seq<Seq<char>>)
    decreases lines.len(),
{
    if lines.len() == 0 {
        (seq![], seq![])
    } else {
        let (pages, cur) = page_state(lines.drop_last());
        let line = lines.last();
        let (pages2, cur2) = if cur.len() >= 58 {
            (pages.push(cur), Seq::<Seq<char>>::empty())
        } else {
            (pages, cur)
        };
        if cur2.len() == 0 && line.len() == 0 {
            (pages2, cur2)
        } else {
            (pages2, cur2.push(line))
        }
    }
}

/// The pages of a list of lines; there is always at least one (possibly empty) page.
pub open spec fn paginate_lines(lines: Seq<Seq<char>>) -> Seq<Seq<Seq<char>>> {
    let (pages, cur) = page_state(lines);
    let all = if cur.len() > 0 {
        pages.push(cur)
    } else {
        pages
    };
    if all.len() == 0 {
        seq![seq![]]
    } else {
        all
    }
}

/// The pages of `text`.
pub open spec fn layout_pages(text: Seq<char>) -> Seq<Seq<Seq<char>>> {
    paginate_lines(text_lines(text))
}

/// Total number of characters in a list of pieces.
pub open spec fn chars_total(ps: Seq<Seq<char>>) -> nat
    decreases ps.len(),
{
    if ps.len() == 0 {
        0
    } else {
        chars_total(ps.drop_last()) + ps.last().len()
    }
}

// ---------------------------------------------------------------------------

proof fn lemma_chars_deep_view(v: Vec<char>)
    ensures
        v.deep_view() == v@,
{
    assert(v.deep_view() =~= v@);
}

proof fn lemma_split_blank_lines_nonempty(s: Seq<char>)
    ensures
        split_blank_lines(s).len() >= 1,
    decreases s.len(),
{
    if s.len() >= 2 && s[0] == '\n' && s[1] == '\n' {
        lemma_split_blank_lines_nonempty(s.subrange(2, s.len() as int));
    } else if s.len() > 0 {
        lemma_split_blank_lines_nonempty(s.drop_first());
    }
}

proof fn lemma_split_at_whitespace_nonempty(s: Seq<char>)
    ensures
        split_at_whitespace(s).len() >= 1,
    decreases s.len(),
{
    if s.len() > 0 {
        lemma_split_at_whitespace_nonempty(s.drop_first());
    }
}

/// No character of `s` is whitespace.
pub open spec fn no_whitespace(s: Seq<char>) -> bool {
    forall|i: int| 0 <= i < s.len() ==> !is_whitespace(#[trigger] s[i])
}

proof fn lemma_prepend_first_add<A>(x: Seq<A>, p: Seq<Seq<A>>, q: Seq<Seq<A>>)
    requires
        p.len() >= 1,
    ensures
        prepend_first(x, p + q) == prepend_first(x, p) + q,
{
    assert(prepend_first(x, p + q) =~= prepend_first(x, p) + q);
}

/// A whitespace character separates the pieces on its two sides.
pub proof fn lemma_split_at_whitespace_around(a: Seq<char>, c: char, b: Seq<char>)
    requires
        is_whitespace(c),
    ensures
        split_at_whitespace(a + seq![c] + b) == split_at_whitespace(a) + split_at_whitespace(b),
    decreases a.len(),
{
    let s = a + seq![c] + b;
    if a.len() == 0 {
        assert(s =~= seq![c] + b);
        assert(s.drop_first() =~= b);
    } else {
        assert(s[0] == a[0]);
        assert(s.drop_first() =~= a.drop_first() + seq![c] + b);
        lemma_split_at_whitespace_around(a.drop_first(), c, b);
        lemma_split_at_whitespace_nonempty(a.drop_first());
        if !is_whitespace(a[0]) {
            lemma_prepend_first_add(
                seq![a[0]],
                split_at_whitespace(a.drop_first()),
                split_at_whitespace(b),
            );
        } else {
            assert(seq![seq![]] + (split_at_whitespace(a.drop_first()) + split_at_whitespace(b))
                =~= seq![seq![]] + split_at_whitespace(a.drop_first()) + split_at_whitespace(b));
        }
    }
}

/// A piece without whitespace is a single piece.
pub proof fn lemma_split_at_whitespace_free(w: Seq<char>)
    requires
        no_whitespace(w),
    ensures
        split_at_whitespace(w) == seq![w],
    decreases w.len(),
{
    if w.len() > 0 {
        assert(!is_whitespace(w[0]));
        assert forall|i: int| 0 <= i < w.drop_first().len() implies !is_whitespace(
            #[trigger] w.drop_first()[i],
        ) by {
            assert(w.drop_first()[i] == w[i + 1]);
        }
        lemma_split_at_whitespace_free(w.drop_first());
        assert(seq![w[0]] + w.drop_first() =~= w);
        assert(prepend_first(seq![w[0]], seq![w.drop_first()]) =~= seq![w]);
    } else {
        assert(w =~= Seq::<char>::empty());
    }
}

/// Words on the two sides of a whitespace character stay apart.
pub proof fn lemma_words_of_around(a: Seq<char>, c: char, b: Seq<char>)
    requires
        is_whitespace(c),
    ensures
        words_of(a + seq![c] + b) == words_of(a) + words_of(b),
{
    lemma_split_at_whitespace_around(a, c, b);
    Seq::filter_distributes_over_add(split_at_whitespace(a), split_at_whitespace(b), is_word());
}

/// A non-empty piece without whitespace is one word.
pub proof fn lemma_words_of_word(w: Seq<char>)
    requires
        no_whitespace(w),
        w.len() > 0,
    ensures
        words_of(w) == seq![w],
{
    lemma_split_at_whitespace_free(w);
    reveal_with_fuel(Seq::filter, 2);
    assert(seq![w].drop_last() =~= Seq::<Seq<char>>::empty());
}

/// The empty text has no words.
pub proof fn lemma_words_of_empty()
    ensures
        words_of(Seq::<char>::empty()).len() == 0,
{
    reveal_with_fuel(Seq::filter, 2);
    assert(seq![Seq::<char>::empty()].drop_last() =~= Seq::<Seq<char>>::empty());
}

/// Tells whether `c` has the Unicode White_Space property.
pub fn is_whitespace_char(c: char) -> (b: bool)
    ensures
        b == is_whitespace(c),
{
    let u = c as u32;
    (0x9 <= u && u <= 0xd) || u == 0x20 || u == 0x85 || u == 0xa0 || u == 0x1680 || (0x2000 <= u
        && u <= 0x200a) || u == 0x2028 || u == 0x2029 || u == 0x202f || u == 0x205f || u == 0x3000
}

/// Splits a text into paragraphs at each "\n\n".
pub fn split_paragraphs(cs: &Vec<char>) -> (r: Vec<Vec<char>>)
    ensures
        r.deep_view() == split_blank_lines(cs@),
        r.len() >= 1,
        chars_total(r.deep_view()) + 2 * (r.len() - 1) == cs@.len(),
{
    let mut done: Vec<Vec<char>> = Vec::new();
    let mut cur: Vec<char> = Vec::new();
    let mut i: usize = 0;
    proof {
        assert(cs@.skip(0) =~= cs@);
        lemma_split_blank_lines_nonempty(cs@);
        let r = split_blank_lines(cs@);
        assert(prepend_first(cur@, r) =~~= r);
        assert(done.deep_view() =~= Seq::<Seq<char>>::empty());
    }
    while i < cs.len()
        invariant
            i <= cs@.len(),
            split_blank_lines(cs@) == done.deep_view() + prepend_first(
                cur@,
                split_blank_lines(cs@.skip(i as int)),
            ),
            chars_total(done.deep_view()) + cur@.len() + 2 * done.len() == i,
        decreases cs.len() - i,
    {
        let ghost rest = cs@.skip(i as int);
        if i + 1 < cs.len() && cs[i] == '\n' && cs[i + 1] == '\n' {
            proof {
                assert(rest.subrange(2, rest.len() as int) =~= cs@.skip(i + 2));
                let r = split_blank_lines(cs@.skip(i + 2));
                lemma_split_blank_lines_nonempty(cs@.skip(i + 2));
                assert(prepend_first(cur@, seq![seq![]] + r) =~~= seq![cur@] + r);
                assert(prepend_first(Seq::<char>::empty(), r) =~~= r);
                let dv = done.deep_view();
                assert(dv.push(cur@).drop_last() =~= dv);
            }
            let ghost old_done = done.deep_view();
            let ghost old_cur = cur@;
            done.push(cur);
            cur = Vec::new();
            proof {
                assert(done.deep_view() =~~= old_done.push(old_cur));
                assert(done.deep_view().drop_last() =~= old_done);
            }
            i = i + 2;
        } else {
            proof {
                assert(rest.drop_first() =~= cs@.skip(i + 1));
                let r = split_blank_lines(cs@.skip(i + 1));
                lemma_split_blank_lines_nonempty(cs@.skip(i + 1));
                assert(cur@ + (seq![cs@[i as int]] + r[0]) =~= cur@.push(cs@[i as int]) + r[0]);
                assert(prepend_first(cur@, prepend_first(seq![cs@[i as int]], r)) =~= prepend_first(
                    cur@.push(cs@[i as int]),
                    r,
                ));
            }
            cur.push(cs[i]);
            i = i + 1;
        }
    }
    proof {
        assert(cs@.skip(i as int) =~= Seq::<char>::empty());
        assert(prepend_first(cur@, seq![seq![]]) =~~= seq![cur@]);
    }
    let ghost old_done = done.deep_view();
    let ghost old_cur = cur@;
    done.push(cur);
    proof {
        assert(done.deep_view() =~~= old_done.push(old_cur));
        assert(done.deep_view().drop_last() =~= old_done);
    }
    done
}

/// Splits a paragraph into its words, as `str::split_whitespace` does.
pub fn split_words(p: &Vec<char>) -> (r: Vec<Vec<char>>)
    ensures
        r.deep_view() == words_of(p@),
        r.len() <= p@.len(),
{
    let mut done: Vec<Vec<char>> = Vec::new();
    let mut cur: Vec<char> = Vec::new();
    let ghost mut pieces: Seq<Seq<char>> = Seq::empty();
    let mut i: usize = 0;
    proof {
        assert(p@.skip(0) =~= p@);
        lemma_split_at_whitespace_nonempty(p@);
        let r = split_at_whitespace(p@);
        assert(prepend_first(cur@, r) =~~= r);
        assert(pieces + r =~= r);
        assert(done.deep_view() =~= Seq::<Seq<char>>::empty());
        reveal(Seq::filter);
    }
    while i < p.len()
        invariant
            i <= p@.len(),
            split_at_whitespace(p@) == pieces + prepend_first(
                cur@,
                split_at_whitespace(p@.skip(i as int)),
            ),
            done.deep_view() == pieces.filter(is_word()),
            done.len() + (if cur@.len() > 0 {
                1int
            } else {
                0int
            }) <= i,
        decreases p.len() - i,
    {
        let ghost rest = p@.skip(i as int);
        proof {
            assert(rest.drop_first() =~= p@.skip(i + 1));
            lemma_split_at_whitespace_nonempty(p@.skip(i + 1));
        }
        if is_whitespace_char(p[i]) {
            let ghost r = split_at_whitespace(p@.skip(i + 1));
            proof {
                assert(prepend_first(cur@, seq![seq![]] + r) =~~= seq![cur@] + r);
                assert(prepend_first(Seq::<char>::empty(), r) =~~= r);
                pieces.lemma_filter_push(cur@, is_word());
            }
            let ghost old_pieces = pieces;
            proof {
                pieces = pieces.push(cur@);
                assert(old_pieces + (seq![cur@] + r) =~= pieces + r);
            }
            if cur.len() > 0 {
                let ghost old_done = done.deep_view();
                let ghost old_cur = cur@;
                done.push(cur);
                proof {
                    assert(done.deep_view() =~~= old_done.push(old_cur));
                }
            }
            cur = Vec::new();
        } else {
            proof {
                let r = split_at_whitespace(p@.skip(i + 1));
                assert(cur@ + (seq![p@[i as int]] + r[0]) =~= cur@.push(p@[i as int]) + r[0]);
                assert(prepend_first(cur@, prepend_first(seq![p@[i as int]], r)) =~= prepend_first(
                    cur@.push(p@[i as int]),
                    r,
                ));
            }
            cur.push(p[i]);
        }
        i = i + 1;
    }
    proof {
        assert(p@.skip(i as int) =~= Seq::<char>::empty());
        assert(prepend_first(cur@, seq![seq![]]) =~~= seq![cur@]);
        pieces.lemma_filter_push(cur@, is_word());
        assert(pieces + seq![cur@] =~= pieces.push(cur@));
    }
    if cur.len() > 0 {
        let ghost old_done = done.deep_view();
        let ghost old_cur = cur@;
        done.push(cur);
        proof {
            assert(done.deep_view() =~~= old_done.push(old_cur));
        }
    }
    done
}

/// Byte length of a character's UTF-8 encoding.
fn utf8_width(c: char) -> (n: usize)
    ensures
        n == encode_scalar(c as u32).len(),
{
    proof {
        vstd::utf8::char_is_scalar(c);
    }
    let u = c as u32;
    if u <= 0x7f {
        1
    } else if u <= 0x7ff {
        2
    } else if u <= 0xffff {
        3
    } else {
        4
    }
}

/// The UTF-8 length of `w`, capped at `cap`.
fn utf8_len_capped(w: &Vec<char>, cap: usize) -> (n: usize)
    ensures
        n == if utf8_len(w@) < cap {
            utf8_len(w@)
        } else {
            cap as nat
        },
{
    let mut total: usize = 0;
    let mut i: usize = 0;
    while i < w.len()
        invariant
            i <= w@.len(),
            total == if utf8_len(w@.take(i as int)) < cap {
                utf8_len(w@.take(i as int))
            } else {
                cap as nat
            },
        decreases w.len() - i,
    {
        let width = utf8_width(w[i]);
        proof {
            let c = w@[i as int];
            assert(w@.take(i + 1) =~= w@.take(i as int) + seq![c]);
            lemma_encode_utf8_concat(w@.take(i as int), seq![c]);
            assert(seq![c].drop_first() =~= Seq::<char>::empty());
            vstd::utf8::char_is_scalar(c);
            assert(encode_utf8(Seq::<char>::empty()) =~= Seq::<u8>::empty());
            assert(encode_utf8(seq![c]) =~= encode_scalar(c as u32));
        }
        if total < cap && width < cap - total {
            total = total + width;
        } else {
            total = cap;
        }
        i = i + 1;
    }
    assert(w@.take(i as int) =~= w@);
    total
}

/// A copy of a character vector.
fn copy_chars(w: &Vec<char>) -> (r: Vec<char>)
    ensures
        r@ == w@,
{
    let mut r: Vec<char> = Vec::new();
    let mut i: usize = 0;
    while i < w.len()
        invariant
            i <= w@.len(),
            r@ =~= w@.take(i as int),
        decreases w.len() - i,
    {
        r.push(w[i]);
        i = i + 1;
    }
    r
}

/// Wraps a paragraph's words into lines of at most 80 bytes (a longer word
/// stands alone) and appends them to `lines`.
pub fn wrap_words_into(ws: &Vec<Vec<char>>, lines: &mut Vec<Vec<char>>)
    ensures
        final(lines).deep_view() == old(lines).deep_view() + wrap_words(ws.deep_view()),
        final(lines).len() <= old(lines).len() + ws.len(),
{
    let ghost start = lines.deep_view();
    let ghost wv = ws.deep_view();
    let ghost mut done: Seq<Seq<char>> = Seq::empty();
    let mut cur: Vec<char> = Vec::new();
    let mut cur_len: usize = 0;
    let mut k: usize = 0;
    proof {
        assert(wv.take(0) =~= Seq::<Seq<char>>::empty());
        assert(start + done =~= start);
    }
    while k < ws.len()
        invariant
            k <= ws.len(),
            wv == ws.deep_view(),
            wrap_state(wv.take(k as int)) == (done, cur@),
            cur_len == if utf8_len(cur@) < 81 {
                utf8_len(cur@)
            } else {
                81nat
            },
            lines.deep_view() == start + done,
            done.len() + (if cur@.len() > 0 {
                1int
            } else {
                0int
            }) <= k,
            lines.len() == start.len() + done.len(),
        decreases ws.len() - k,
    {
        let w = &ws[k];
        let wl = utf8_len_capped(w, 81);
        proof {
            assert(wv.take(k + 1).drop_last() =~= wv.take(k as int));
            assert(wv[k as int] == w@);
        }
        if cur.len() == 0 {
            cur = copy_chars(w);
            cur_len = wl;
        } else if cur_len < 81 && wl < 81 && cur_len + 1 + wl <= 80 {
            let ghost old_cur = cur@;
            cur.push(' ');
            let mut j: usize = 0;
            let ghost before = cur@;
            while j < w.len()
                invariant
                    j <= w@.len(),
                    cur@ =~= before + w@.take(j as int),
                decreases w.len() - j,
            {
                cur.push(w[j]);
                j = j + 1;
            }
            proof {
                assert(w@.take(j as int) =~= w@);
                assert(before =~= old_cur + seq![' ']);
                assert(cur@ =~= old_cur + seq![' '] + w@);
                lemma_encode_utf8_concat(old_cur, seq![' ']);
                lemma_encode_utf8_concat(old_cur + seq![' '], w@);
                assert(encode_utf8(seq![' ']).len() == 1) by {
                    assert(seq![' '].drop_first() =~= Seq::<char>::empty());
                    assert(encode_utf8(Seq::<char>::empty()) =~= Seq::<u8>::empty());
                    assert((' ' as u32) == 32);
                }
            }
            cur_len = cur_len + 1 + wl;
        } else {
            let ghost old_lines = lines.deep_view();
            let ghost old_cur = cur@;
            lines.push(cur);
            proof {
                assert(lines.deep_view() =~~= old_lines.push(old_cur));
                assert(start + done.push(old_cur) =~= (start + done).push(old_cur));
                done = done.push(old_cur);
            }
            cur = copy_chars(w);
            cur_len = wl;
        }
        k = k + 1;
    }
    assert(wv.take(k as int) =~= wv);
    if cur.len() > 0 {
        let ghost old_lines = lines.deep_view();
        let ghost old_cur = cur@;
        lines.push(cur);
        proof {
            assert(lines.deep_view() =~~= old_lines.push(old_cur));
            assert(start + done.push(old_cur) =~= (start + done).push(old_cur));
        }
    }
}

/// Breaks a text into lines: paragraphs (split at "\n\n") wrapped to 80 bytes,
/// separated by empty lines.
pub fn layout_lines(cs: &Vec<char>) -> (lines: Vec<Vec<char>>)
    ensures
        lines.deep_view() == text_lines(cs@),
        lines.len() <= cs@.len() + 1,
{
    let paras = split_paragraphs(cs);
    let ghost pv = paras.deep_view();
    let mut lines: Vec<Vec<char>> = Vec::new();
    let mut i: usize = 0;
    proof {
        assert(pv.take(0) =~= Seq::<Seq<char>>::empty());
        assert(lines.deep_view() =~= Seq::<Seq<char>>::empty());
    }
    while i < paras.len()
        invariant
            i <= paras.len(),
            pv == paras.deep_view(),
            lines.deep_view() == paragraph_lines(pv.take(i as int)),
            lines.len() <= chars_total(pv.take(i as int)) + i,
        decreases paras.len() - i,
    {
        proof {
            assert(pv.take(i + 1).drop_last() =~= pv.take(i as int));
            assert(pv.take(i + 1).last() == pv[i as int]);
        }
        if i > 0 {
            let ghost old_lines = lines.deep_view();
            lines.push(Vec::new());
            proof {
                assert(lines.deep_view() =~~= old_lines + seq![Seq::<char>::empty()]);
            }
        }
        let ws = split_words(&paras[i]);
        proof {
            lemma_chars_deep_view(paras[i as int]);
            assert(pv[i as int] == paras[i as int].deep_view());
        }
        let ghost before = lines.deep_view();
        wrap_words_into(&ws, &mut lines);
        proof {
            if i == 0 {
                assert(before =~= Seq::<Seq<char>>::empty());
                assert(lines.deep_view() =~= wrap_words(words_of(pv[0])));
            }
        }
        i = i + 1;
    }
    proof {
        assert(pv.take(i as int) =~= pv);
    }
    lines
}

/// Splits lines into pages of at most 58 lines, dropping an empty line that
/// would open a page; there is always at least one page.
pub fn paginate(lines: &Vec<Vec<char>>) -> (pages: Vec<Vec<Vec<char>>>)
    ensures
        pages.deep_view() == paginate_lines(lines.deep_view()),
        1 <= pages.len() <= lines.len() + 1,
        58 * (pages.len() - 1) <= lines.len(),
{
    let ghost lv = lines.deep_view();
    let mut pages: Vec<Vec<Vec<char>>> = Vec::new();
    let mut cur: Vec<Vec<char>> = Vec::new();
    let mut k: usize = 0;
    proof {
        assert(lv.take(0) =~= Seq::<Seq<char>>::empty());
        assert(pages.deep_view() =~= Seq::<Seq<Seq<char>>>::empty());
        assert(cur.deep_view() =~= Seq::<Seq<char>>::empty());
    }
    while k < lines.len()
        invariant
            k <= lines.len(),
            lv == lines.deep_view(),
            page_state(lv.take(k as int)) == (pages.deep_view(), cur.deep_view()),
            pages.len() + (if cur.len() > 0 {
                1int
            } else {
                0int
            }) <= k,
            58 * pages.len() + cur.len() <= k,
            cur.len() <= 58,
        decreases lines.len() - k,
    {
        proof {
            assert(lv.take(k + 1).drop_last() =~= lv.take(k as int));
            assert(lv.take(k + 1).last() == lv[k as int]);
        }
        if cur.len() >= 58 {
            let ghost old_pages = pages.deep_view();
            let ghost old_cur = cur.deep_view();
            pages.push(cur);
            cur = Vec::new();
            proof {
                assert(pages.deep_view() =~= old_pages.push(old_cur));
                assert(cur.deep_view() =~= Seq::<Seq<char>>::empty());
            }
        }
        let line = copy_chars(&lines[k]);
        if cur.len() == 0 && line.len() == 0 {
        } else {
            let ghost old_cur = cur.deep_view();
            cur.push(line);
            proof {
                assert(cur.deep_view() =~= old_cur.push(lv[k as int]));
            }
        }
        k = k + 1;
    }
    proof {
        assert(lv.take(k as int) =~= lv);
    }
    if cur.len() > 0 {
        let ghost old_pages = pages.deep_view();
        let ghost old_cur = cur.deep_view();
        pages.push(cur);
        proof {
            assert(pages.deep_view() =~= old_pages.push(old_cur));
        }
    }
    if pages.len() == 0 {
        pages.push(Vec::new());
        proof {
            assert(pages.deep_view() =~= seq![Seq::<Seq<char>>::empty()]);
        }
    }
    pages
}


// ---------------------------------------------------------------------------
// Laws
// ---------------------------------------------------------------------------

/// A line that fits in 80 bytes, or a single word too long to fit.
pub open spec fn line_fits(ws: Seq<Seq<char>>, line: Seq<char>) -> bool {
    utf8_len(line) <= 80 || ws.contains(line)
}

proof fn lemma_wrap_state_fits(ws: Seq<Seq<char>>)
    ensures
        forall|j: int|
            0 <= j < wrap_state(ws).0.len() ==> line_fits(ws, #[trigger] wrap_state(ws).0[j]),
        wrap_state(ws).1.len() > 0 ==> line_fits(ws, wrap_state(ws).1),
    decreases ws.len(),
{
    if ws.len() > 0 {
        let init = ws.drop_last();
        lemma_wrap_state_fits(init);
        let (done, cur) = wrap_state(init);
        let w = ws.last();
        assert(ws.contains(w)) by {
            assert(ws[ws.len() - 1] == w);
        }
        assert forall|x: Seq<char>| line_fits(init, x) implies line_fits(ws, x) by {
            if init.contains(x) {
                let j = choose|j: int| 0 <= j < init.len() && init[j] == x;
                assert(ws[j] == x);
            }
        }
        if cur.len() == 0 {
        } else if utf8_len(cur) + 1 + utf8_len(w) <= 80 {
            lemma_encode_utf8_concat(cur, seq![' ']);
            lemma_encode_utf8_concat(cur + seq![' '], w);
            assert(encode_utf8(seq![' ']).len() == 1) by {
                assert(seq![' '].drop_first() =~= Seq::<char>::empty());
                assert(encode_utf8(Seq::<char>::empty()) =~= Seq::<u8>::empty());
                assert((' ' as u32) == 32);
            }
        } else {
            assert forall|j: int| 0 <= j < done.push(cur).len() implies line_fits(
                ws,
                #[trigger] done.push(cur)[j],
            ) by {
                if j < done.len() {
                    assert(done.push(cur)[j] == done[j]);
                }
            }
        }
    }
}

/// Every line of a wrapped paragraph takes at most 80 bytes, unless it is a
/// single word that is longer on its own.
pub proof fn law_lines_fit(ws: Seq<Seq<char>>)
    ensures
        forall|j: int| 0 <= j < wrap_words(ws).len() ==> line_fits(ws, #[trigger] wrap_words(ws)[j]),
{
    lemma_wrap_state_fits(ws);
    let (done, cur) = wrap_state(ws);
    if cur.len() > 0 {
        assert forall|j: int| 0 <= j < done.push(cur).len() implies line_fits(
            ws,
            #[trigger] done.push(cur)[j],
        ) by {
            if j < done.len() {
                assert(done.push(cur)[j] == done[j]);
            }
        }
    }
}

/// Pieces joined by single spaces.
pub open spec fn joined(ps: Seq<Seq<char>>) -> Seq<char>
    decreases ps.len(),
{
    if ps.len() == 0 {
        seq![]
    } else if ps.len() == 1 {
        ps[0]
    } else {
        joined(ps.drop_last()) + seq![' '] + ps.last()
    }
}

proof fn lemma_joined_push(ps: Seq<Seq<char>>, x: Seq<char>)
    requires
        ps.len() > 0,
    ensures
        joined(ps.push(x)) == joined(ps) + seq![' '] + x,
{
    assert(ps.push(x).drop_last() =~= ps);
}

proof fn lemma_wrap_state_joined(ws: Seq<Seq<char>>)
    requires
        forall|j: int| 0 <= j < ws.len() ==> (#[trigger] ws[j]).len() > 0,
    ensures
        ws.len() == 0 ==> wrap_state(ws).0.len() == 0 && wrap_state(ws).1.len() == 0,
        ws.len() > 0 ==> wrap_state(ws).1.len() > 0 && joined(wrap_state(ws).0.push(wrap_state(ws).1))
            == joined(ws),
    decreases ws.len(),
{
    if ws.len() > 0 {
        let init = ws.drop_last();
        assert forall|j: int| 0 <= j < init.len() implies (#[trigger] init[j]).len() > 0 by {
            assert(init[j] == ws[j]);
        }
        lemma_wrap_state_joined(init);
        let (done, cur) = wrap_state(init);
        let w = ws.last();
        assert(w.len() > 0) by {
            assert(ws[ws.len() - 1] == w);
        }
        if cur.len() == 0 {
            assert(init.len() == 0);
            assert(done.push(w) =~= seq![w]);
            assert(ws =~= seq![w]);
        } else {
            lemma_joined_push(done.push(cur), w);
            if utf8_len(cur) + 1 + utf8_len(w) <= 80 {
                if done.len() == 0 {
                    assert(done.push(cur + seq![' '] + w) =~= seq![cur + seq![' '] + w]);
                    assert(done.push(cur) =~= seq![cur]);
                } else {
                    lemma_joined_push(done, cur);
                    lemma_joined_push(done, cur + seq![' '] + w);
                    assert(joined(done) + seq![' '] + (cur + seq![' '] + w) =~= joined(done)
                        + seq![' '] + cur + seq![' '] + w);
                }
            }
        }
    }
}

/// Wrapping only chooses where lines break: joined by single spaces, the lines
/// of a paragraph give back its words joined by single spaces.
pub proof fn law_wrap_keeps_words(ws: Seq<Seq<char>>)
    requires
        forall|j: int| 0 <= j < ws.len() ==> (#[trigger] ws[j]).len() > 0,
    ensures
        joined(wrap_words(ws)) == joined(ws),
{
    lemma_wrap_state_joined(ws);
}

/// The words of a paragraph are never empty, so its lines keep its words,
/// and each line ends only where the next word would not have fitted.
pub proof fn law_paragraph_lines_keep_words(p: Seq<char>)
    ensures
        joined(wrap_words(words_of(p))) == joined(words_of(p)),
        forall|j: int|
            0 <= j && j + 1 < wrap_words(words_of(p)).len() ==> next_word_overflows(
                words_of(p),
                #[trigger] wrap_words(words_of(p))[j],
                wrap_words(words_of(p))[j + 1],
            ),
{
    let ws = words_of(p);
    assert forall|j: int| 0 <= j < ws.len() implies (#[trigger] ws[j]).len() > 0 by {
        split_at_whitespace(p).lemma_filter_pred(is_word(), j);
    }
    law_wrap_keeps_words(ws);
    law_wrap_is_greedy(ws);
}

/// A page of at most 58 lines that does not open with an empty line.
pub open spec fn page_ok(page: Seq<Seq<char>>) -> bool {
    page.len() <= 58 && (page.len() > 0 ==> page[0].len() > 0)
}

proof fn lemma_page_state_ok(lines: Seq<Seq<char>>)
    ensures
        forall|j: int| 0 <= j < page_state(lines).0.len() ==> page_ok(#[trigger] page_state(lines).0[j]),
        forall|j: int| 0 <= j < page_state(lines).0.len() ==> (#[trigger] page_state(lines).0[j]).len() == 58,
        page_ok(page_state(lines).1),
    decreases lines.len(),
{
    if lines.len() > 0 {
        lemma_page_state_ok(lines.drop_last());
        let (pages, cur) = page_state(lines.drop_last());
        if cur.len() >= 58 {
            assert forall|j: int| 0 <= j < pages.push(cur).len() implies page_ok(
                #[trigger] pages.push(cur)[j],
            ) && pages.push(cur)[j].len() == 58 by {
                if j < pages.len() {
                    assert(pages.push(cur)[j] == pages[j]);
                }
            }
        }
    }
}

/// Every page holds at most 58 lines and never opens with an empty line, and
/// every page but the last holds exactly 58.
pub proof fn law_pages_fit(lines: Seq<Seq<char>>)
    ensures
        paginate_lines(lines).len() >= 1,
        forall|j: int|
            0 <= j < paginate_lines(lines).len() ==> page_ok(#[trigger] paginate_lines(lines)[j]),
        forall|j: int|
            0 <= j < paginate_lines(lines).len() - 1 ==> (#[trigger] paginate_lines(lines)[j]).len()
                == 58,
{
    lemma_page_state_ok(lines);
    let (pages, cur) = page_state(lines);
    if cur.len() > 0 {
        assert forall|j: int| 0 <= j < pages.push(cur).len() implies page_ok(
            #[trigger] pages.push(cur)[j],
        ) && (j < pages.len() ==> pages.push(cur)[j].len() == 58) by {
            if j < pages.len() {
                assert(pages.push(cur)[j] == pages[j]);
            }
        }
    }
}

/// Line `l2` starts with a word of `ws` that would not have fit after line `l`.
pub open spec fn next_word_overflows(ws: Seq<Seq<char>>, l: Seq<char>, l2: Seq<char>) -> bool {
    exists|w: Seq<char>|
        #[trigger] ws.contains(w) && w.is_prefix_of(l2) && utf8_len(l) + 1 + utf8_len(w) > 80
}

proof fn lemma_wrap_state_greedy(ws: Seq<Seq<char>>)
    requires
        forall|j: int| 0 <= j < ws.len() ==> (#[trigger] ws[j]).len() > 0,
    ensures
        forall|j: int|
            0 <= j && j + 1 < wrap_state(ws).0.len() ==> next_word_overflows(
                ws,
                #[trigger] wrap_state(ws).0[j],
                wrap_state(ws).0[j + 1],
            ),
        wrap_state(ws).0.len() > 0 ==> next_word_overflows(
            ws,
            wrap_state(ws).0.last(),
            wrap_state(ws).1,
        ),
    decreases ws.len(),
{
    lemma_wrap_state_joined(ws);
    if ws.len() > 0 {
        let init = ws.drop_last();
        assert forall|j: int| 0 <= j < init.len() implies (#[trigger] init[j]).len() > 0 by {
            assert(init[j] == ws[j]);
        }
        lemma_wrap_state_greedy(init);
        lemma_wrap_state_joined(init);
        let (done, cur) = wrap_state(init);
        let w = ws.last();
        assert(ws.contains(w)) by {
            assert(ws[ws.len() - 1] == w);
        }
        assert forall|l: Seq<char>, l2: Seq<char>| next_word_overflows(init, l, l2) implies
            next_word_overflows(ws, l, l2) by {
            let x = choose|x: Seq<char>|
                #[trigger] init.contains(x) && x.is_prefix_of(l2) && utf8_len(l) + 1 + utf8_len(x) > 80;
            let k = choose|k: int| 0 <= k < init.len() && init[k] == x;
            assert(ws[k] == x);
            assert(ws.contains(x));
        }
        if cur.len() == 0 {
            assert(init.len() == 0);
        } else if utf8_len(cur) + 1 + utf8_len(w) <= 80 {
            if done.len() > 0 {
                let x = choose|x: Seq<char>|
                    #[trigger] ws.contains(x) && x.is_prefix_of(cur) && utf8_len(done.last()) + 1
                        + utf8_len(x) > 80;
                assert(x.is_prefix_of(cur + seq![' '] + w)) by {
                    assert forall|i: int| 0 <= i < x.len() implies (cur + seq![' '] + w)[i] == x[i] by {
                        assert((cur + seq![' '] + w)[i] == cur[i]);
                    }
                }
            }
        } else {
            let nd = done.push(cur);
            assert(w.is_prefix_of(w));
            assert forall|j: int| 0 <= j && j + 1 < nd.len() implies next_word_overflows(
                ws,
                #[trigger] nd[j],
                nd[j + 1],
            ) by {
                if j + 1 < done.len() {
                    assert(nd[j] == done[j] && nd[j + 1] == done[j + 1]);
                } else {
                    assert(nd[j] == done.last() && nd[j + 1] == cur);
                }
            }
        }
    }
}

/// Wrapping is greedy: a line ends only where the next word would not have
/// fitted on it within 80 bytes.
pub proof fn law_wrap_is_greedy(ws: Seq<Seq<char>>)
    requires
        forall|j: int| 0 <= j < ws.len() ==> (#[trigger] ws[j]).len() > 0,
    ensures
        forall|j: int|
            0 <= j && j + 1 < wrap_words(ws).len() ==> next_word_overflows(
                ws,
                #[trigger] wrap_words(ws)[j],
                wrap_words(ws)[j + 1],
            ),
{
    lemma_wrap_state_greedy(ws);
    lemma_wrap_state_joined(ws);
    let (done, cur) = wrap_state(ws);
    if cur.len() > 0 {
        let nd = done.push(cur);
        assert forall|j: int| 0 <= j && j + 1 < nd.len() implies next_word_overflows(
            ws,
            #[trigger] nd[j],
            nd[j + 1],
        ) by {
            if j + 1 < done.len() {
                assert(nd[j] == done[j] && nd[j + 1] == done[j + 1]);
            } else {
                assert(nd[j] == done.last() && nd[j + 1] == cur);
            }
        }
    }
}

/// Line `l2` opens with a word (a run of non-whitespace characters ended by a
/// space or the end of the line) that would not have fit after line `l`.
pub open spec fn first_word_overflows(l: Seq<char>, l2: Seq<char>) -> bool {
    exists|w: Seq<char>|
        #[trigger] w.is_prefix_of(l2) && w.len() > 0 && no_whitespace(w) && (l2.len() == w.len()
            || l2[w.len() as int] == ' ') && utf8_len(l) + 1 + utf8_len(w) > 80
}

proof fn lemma_first_word_grows(l: Seq<char>, cur: Seq<char>, w: Seq<char>)
    requires
        first_word_overflows(l, cur),
    ensures
        first_word_overflows(l, cur + seq![' '] + w),
{
    let n = cur + seq![' '] + w;
    let x = choose|x: Seq<char>|
        #[trigger] x.is_prefix_of(cur) && x.len() > 0 && no_whitespace(x) && (cur.len() == x.len()
            || cur[x.len() as int] == ' ') && utf8_len(l) + 1 + utf8_len(x) > 80;
    assert(x.is_prefix_of(n)) by {
        assert forall|i: int| 0 <= i < x.len() implies n[i] == x[i] by {
            assert(n[i] == cur[i]);
        }
    }
    assert(n[x.len() as int] == ' ');
}

proof fn lemma_wrap_state_first_words(ws: Seq<Seq<char>>)
    requires
        forall|j: int| 0 <= j < ws.len() ==> (#[trigger] ws[j]).len() > 0 && no_whitespace(ws[j]),
    ensures
        forall|j: int|
            0 <= j && j + 1 < wrap_state(ws).0.len() ==> first_word_overflows(
                #[trigger] wrap_state(ws).0[j],
                wrap_state(ws).0[j + 1],
            ),
        wrap_state(ws).0.len() > 0 ==> first_word_overflows(wrap_state(ws).0.last(), wrap_state(ws).1),
    decreases ws.len(),
{
    assert forall|j: int| 0 <= j < ws.len() implies (#[trigger] ws[j]).len() > 0 by {}
    lemma_wrap_state_joined(ws);
    if ws.len() > 0 {
        let init = ws.drop_last();
        assert forall|j: int| 0 <= j < init.len() implies (#[trigger] init[j]).len() > 0 && no_whitespace(
            init[j],
        ) by {
            assert(init[j] == ws[j]);
        }
        assert forall|j: int| 0 <= j < init.len() implies (#[trigger] init[j]).len() > 0 by {}
        lemma_wrap_state_first_words(init);
        lemma_wrap_state_joined(init);
        let (done, cur) = wrap_state(init);
        let w = ws.last();
        assert(w.len() > 0 && no_whitespace(w)) by {
            assert(ws[ws.len() - 1] == w);
        }
        if cur.len() == 0 {
            assert(init.len() == 0);
        } else if utf8_len(cur) + 1 + utf8_len(w) <= 80 {
            if done.len() > 0 {
                lemma_first_word_grows(done.last(), cur, w);
            }
        } else {
            let nd = done.push(cur);
            assert(w.is_prefix_of(w));
            assert(first_word_overflows(cur, w));
            assert forall|j: int| 0 <= j && j + 1 < nd.len() implies first_word_overflows(
                #[trigger] nd[j],
                nd[j + 1],
            ) by {
                if j + 1 < done.len() {
                    assert(nd[j] == done[j] && nd[j + 1] == done[j + 1]);
                } else {
                    assert(nd[j] == done.last() && nd[j + 1] == cur);
                }
            }
        }
    }
}

proof fn lemma_wrap_words_first_words(ws: Seq<Seq<char>>)
    requires
        forall|j: int| 0 <= j < ws.len() ==> (#[trigger] ws[j]).len() > 0 && no_whitespace(ws[j]),
    ensures
        forall|j: int|
            0 <= j && j + 1 < wrap_words(ws).len() ==> first_word_overflows(
                #[trigger] wrap_words(ws)[j],
                wrap_words(ws)[j + 1],
            ),
        forall|j: int| 0 <= j < wrap_words(ws).len() ==> (#[trigger] wrap_words(ws)[j]).len() > 0,
{
    assert forall|j: int| 0 <= j < ws.len() implies (#[trigger] ws[j]).len() > 0 by {}
    lemma_wrap_state_first_words(ws);
    lemma_wrap_state_joined(ws);
    lemma_wrap_state_nonempty_lines(ws);
    let (done, cur) = wrap_state(ws);
    if cur.len() > 0 {
        let nd = done.push(cur);
        assert forall|j: int| 0 <= j && j + 1 < nd.len() implies first_word_overflows(
            #[trigger] nd[j],
            nd[j + 1],
        ) by {
            if j + 1 < done.len() {
                assert(nd[j] == done[j] && nd[j + 1] == done[j + 1]);
            } else {
                assert(nd[j] == done.last() && nd[j + 1] == cur);
            }
        }
        assert forall|j: int| 0 <= j < nd.len() implies (#[trigger] nd[j]).len() > 0 by {
            if j < done.len() {
                assert(nd[j] == done[j]);
            }
        }
    }
}

proof fn lemma_wrap_state_nonempty_lines(ws: Seq<Seq<char>>)
    requires
        forall|j: int| 0 <= j < ws.len() ==> (#[trigger] ws[j]).len() > 0,
    ensures
        forall|j: int| 0 <= j < wrap_state(ws).0.len() ==> (#[trigger] wrap_state(ws).0[j]).len() > 0,
    decreases ws.len(),
{
    lemma_wrap_state_joined(ws);
    if ws.len() > 0 {
        let init = ws.drop_last();
        assert forall|j: int| 0 <= j < init.len() implies (#[trigger] init[j]).len() > 0 by {
            assert(init[j] == ws[j]);
        }
        lemma_wrap_state_nonempty_lines(init);
        lemma_wrap_state_joined(init);
        let (done, cur) = wrap_state(init);
        let nd = done.push(cur);
        if cur.len() > 0 {
            assert forall|j: int| 0 <= j < nd.len() implies (#[trigger] nd[j]).len() > 0 by {
                if j < done.len() {
                    assert(nd[j] == done[j]);
                }
            }
        }
    }
}

proof fn lemma_split_pieces_no_whitespace(s: Seq<char>)
    ensures
        forall|k: int| 0 <= k < split_at_whitespace(s).len() ==> no_whitespace(
            #[trigger] split_at_whitespace(s)[k],
        ),
    decreases s.len(),
{
    if s.len() > 0 {
        let t = s.drop_first();
        lemma_split_pieces_no_whitespace(t);
        lemma_split_at_whitespace_nonempty(t);
        let r = split_at_whitespace(t);
        if is_whitespace(s[0]) {
            assert forall|k: int| 0 <= k < (seq![seq![]] + r).len() implies no_whitespace(
                #[trigger] (seq![seq![]] + r)[k],
            ) by {
                if k > 0 {
                    assert((seq![seq![]] + r)[k] == r[k - 1]);
                }
            }
        } else {
            let x = seq![s[0]] + r[0];
            assert(no_whitespace(r[0]));
            assert(no_whitespace(x)) by {
                assert forall|i: int| 0 <= i < x.len() implies !is_whitespace(#[trigger] x[i]) by {
                    if i > 0 {
                        assert(x[i] == r[0][i - 1]);
                    }
                }
            }
            assert forall|k: int| 0 <= k < prepend_first(seq![s[0]], r).len() implies no_whitespace(
                #[trigger] prepend_first(seq![s[0]], r)[k],
            ) by {
                if k > 0 {
                    assert(prepend_first(seq![s[0]], r)[k] == r[k]);
                }
            }
        }
    }
}

proof fn lemma_words_of_plain(p: Seq<char>)
    ensures
        forall|j: int| 0 <= j < words_of(p).len() ==> (#[trigger] words_of(p)[j]).len() > 0 && no_whitespace(
            words_of(p)[j],
        ),
{
    let ps = split_at_whitespace(p);
    lemma_split_pieces_no_whitespace(p);
    assert forall|j: int| 0 <= j < words_of(p).len() implies (#[trigger] words_of(p)[j]).len() > 0
        && no_whitespace(words_of(p)[j]) by {
        ps.lemma_filter_pred(is_word(), j);
        assert(ps.filter(is_word()).contains(words_of(p)[j])) by {
            assert(ps.filter(is_word())[j] == words_of(p)[j]);
        }
        ps.lemma_filter_contains_rev(is_word(), words_of(p)[j]);
        let k = choose|k: int| 0 <= k < ps.len() && ps[k] == words_of(p)[j];
        assert(no_whitespace(ps[k]));
    }
}

proof fn lemma_paragraph_lines_first_words(paras: Seq<Seq<char>>)
    ensures
        forall|j: int|
            0 <= j && j + 1 < paragraph_lines(paras).len() && paragraph_lines(paras)[j].len() > 0
                && paragraph_lines(paras)[j + 1].len() > 0 ==> first_word_overflows(
                #[trigger] paragraph_lines(paras)[j],
                paragraph_lines(paras)[j + 1],
            ),
    decreases paras.len(),
{
    if paras.len() > 0 {
        let last = wrap_words(words_of(paras.last()));
        lemma_words_of_plain(paras.last());
        lemma_wrap_words_first_words(words_of(paras.last()));
        if paras.len() >= 2 {
            let init = paras.drop_last();
            lemma_paragraph_lines_first_words(init);
            let a = paragraph_lines(init);
            let l = a + seq![Seq::<char>::empty()] + last;
            assert(paragraph_lines(paras) == l);
            assert forall|j: int|
                0 <= j && j + 1 < l.len() && l[j].len() > 0 && l[j + 1].len() > 0 implies first_word_overflows(
                #[trigger] l[j],
                l[j + 1],
            ) by {
                if j + 1 < a.len() {
                    assert(l[j] == a[j] && l[j + 1] == a[j + 1]);
                } else if j + 1 == a.len() {
                    assert(l[j + 1].len() == 0);
                } else if j == a.len() {
                    assert(l[j].len() == 0);
                } else {
                    let k = j - a.len() - 1;
                    assert(l[j] == last[k] && l[j + 1] == last[k + 1]);
                }
            }
        }
    }
}

/// Wrapping is greedy throughout a text: where two consecutive lines both hold
/// text they belong to one paragraph, and the second opens with a word that
/// would not have fitted within 80 bytes after the first.
pub proof fn law_text_lines_greedy(text: Seq<char>)
    ensures
        forall|j: int|
            0 <= j && j + 1 < text_lines(text).len() && text_lines(text)[j].len() > 0
                && text_lines(text)[j + 1].len() > 0 ==> first_word_overflows(
                #[trigger] text_lines(text)[j],
                text_lines(text)[j + 1],
            ),
{
    lemma_paragraph_lines_first_words(split_blank_lines(text));
}

/// The words of each paragraph of `text`, paragraph by paragraph.
pub open spec fn paragraph_words_of(text: Seq<char>) -> Seq<Seq<Seq<char>>> {
    split_blank_lines(text).map_values(|p: Seq<char>| words_of(p))
}

proof fn lemma_paragraph_lines_by_words(p1: Seq<Seq<char>>, p2: Seq<Seq<char>>)
    requires
        p1.len() == p2.len(),
        forall|i: int| 0 <= i < p1.len() ==> words_of(#[trigger] p1[i]) == words_of(p2[i]),
    ensures
        paragraph_lines(p1) == paragraph_lines(p2),
    decreases p1.len(),
{
    if p1.len() >= 2 {
        let a = p1.drop_last();
        let b = p2.drop_last();
        assert forall|i: int| 0 <= i < a.len() implies words_of(#[trigger] a[i]) == words_of(b[i]) by {
            assert(a[i] == p1[i] && b[i] == p2[i]);
        }
        lemma_paragraph_lines_by_words(a, b);
        assert(words_of(p1.last()) == words_of(p2.last())) by {
            assert(p1[p1.len() - 1] == p1.last() && p2[p2.len() - 1] == p2.last());
        }
    } else if p1.len() == 1 {
        assert(words_of(p1[0]) == words_of(p2[0]));
    }
}

/// The layout, and so the PDF file, depends only on the words of each
/// paragraph: texts that split into paragraphs with the same words give the same pages.
pub proof fn law_layout_depends_on_words(t1: Seq<char>, t2: Seq<char>)
    requires
        paragraph_words_of(t1) == paragraph_words_of(t2),
    ensures
        layout_pages(t1) == layout_pages(t2),
{
    let p1 = split_blank_lines(t1);
    let p2 = split_blank_lines(t2);
    assert(p1.len() == paragraph_words_of(t1).len());
    assert forall|i: int| 0 <= i < p1.len() implies words_of(#[trigger] p1[i]) == words_of(p2[i]) by {
        assert(paragraph_words_of(t1)[i] == words_of(p1[i]));
        assert(paragraph_words_of(t2)[i] == words_of(p2[i]));
    }
    lemma_paragraph_lines_by_words(p1, p2);
}

/// Every character is whitespace.
pub open spec fn all_whitespace(s: Seq<char>) -> bool {
    forall|i: int| 0 <= i < s.len() ==> is_whitespace(#[trigger] s[i])
}

proof fn lemma_blank_pieces_whitespace(s: Seq<char>)
    requires
        all_whitespace(s),
    ensures
        forall|k: int| 0 <= k < split_blank_lines(s).len() ==> all_whitespace(
            #[trigger] split_blank_lines(s)[k],
        ),
    decreases s.len(),
{
    if s.len() >= 2 && s[0] == '\n' && s[1] == '\n' {
        let t = s.subrange(2, s.len() as int);
        assert forall|i: int| 0 <= i < t.len() implies is_whitespace(#[trigger] t[i]) by {
            assert(t[i] == s[i + 2]);
        }
        lemma_blank_pieces_whitespace(t);
        let r = split_blank_lines(t);
        assert forall|k: int| 0 <= k < (seq![seq![]] + r).len() implies all_whitespace(
            #[trigger] (seq![seq![]] + r)[k],
        ) by {
            if k > 0 {
                assert((seq![seq![]] + r)[k] == r[k - 1]);
            }
        }
    } else if s.len() > 0 {
        let t = s.drop_first();
        assert forall|i: int| 0 <= i < t.len() implies is_whitespace(#[trigger] t[i]) by {
            assert(t[i] == s[i + 1]);
        }
        lemma_blank_pieces_whitespace(t);
        lemma_split_blank_lines_nonempty(t);
        let r = split_blank_lines(t);
        assert(is_whitespace(s[0]));
        assert forall|k: int| 0 <= k < prepend_first(seq![s[0]], r).len() implies all_whitespace(
            #[trigger] prepend_first(seq![s[0]], r)[k],
        ) by {
            if k == 0 {
                let x = seq![s[0]] + r[0];
                assert(all_whitespace(r[0]));
                assert forall|i: int| 0 <= i < x.len() implies is_whitespace(#[trigger] x[i]) by {
                    if i > 0 {
                        assert(x[i] == r[0][i - 1]);
                    }
                }
            }
        }
    }
}

proof fn lemma_whitespace_pieces_empty(s: Seq<char>)
    requires
        all_whitespace(s),
    ensures
        forall|k: int| 0 <= k < split_at_whitespace(s).len() ==> (#[trigger] split_at_whitespace(
            s,
        )[k]).len() == 0,
    decreases s.len(),
{
    if s.len() > 0 {
        let t = s.drop_first();
        assert forall|i: int| 0 <= i < t.len() implies is_whitespace(#[trigger] t[i]) by {
            assert(t[i] == s[i + 1]);
        }
        assert(is_whitespace(s[0]));
        lemma_whitespace_pieces_empty(t);
        let r = split_at_whitespace(t);
        assert forall|k: int| 0 <= k < (seq![seq![]] + r).len() implies (#[trigger] (seq![seq![]]
            + r)[k]).len() == 0 by {
            if k > 0 {
                assert((seq![seq![]] + r)[k] == r[k - 1]);
            }
        }
    }
}

proof fn lemma_filter_words_of_empty_pieces(ps: Seq<Seq<char>>)
    requires
        forall|k: int| 0 <= k < ps.len() ==> (#[trigger] ps[k]).len() == 0,
    ensures
        ps.filter(is_word()).len() == 0,
    decreases ps.len(),
{
    reveal(Seq::filter);
    if ps.len() > 0 {
        let init = ps.drop_last();
        assert forall|k: int| 0 <= k < init.len() implies (#[trigger] init[k]).len() == 0 by {
            assert(init[k] == ps[k]);
        }
        lemma_filter_words_of_empty_pieces(init);
        assert(ps[ps.len() - 1].len() == 0);
    }
}

proof fn lemma_blank_paragraph_lines(paras: Seq<Seq<char>>)
    requires
        forall|k: int| 0 <= k < paras.len() ==> all_whitespace(#[trigger] paras[k]),
    ensures
        forall|j: int| 0 <= j < paragraph_lines(paras).len() ==> (#[trigger] paragraph_lines(
            paras,
        )[j]).len() == 0,
    decreases paras.len(),
{
    if paras.len() > 0 {
        let last = paras.last();
        assert(all_whitespace(last)) by {
            assert(paras[paras.len() - 1] == last);
        }
        lemma_whitespace_pieces_empty(last);
        lemma_filter_words_of_empty_pieces(split_at_whitespace(last));
        assert(words_of(last) =~= Seq::<Seq<char>>::empty());
        assert(wrap_words(words_of(last)) =~= Seq::<Seq<char>>::empty());
        if paras.len() >= 2 {
            let init = paras.drop_last();
            assert forall|k: int| 0 <= k < init.len() implies all_whitespace(#[trigger] init[k]) by {
                assert(init[k] == paras[k]);
            }
            lemma_blank_paragraph_lines(init);
            let l = paragraph_lines(init) + seq![Seq::<char>::empty()] + Seq::<Seq<char>>::empty();
            assert forall|j: int| 0 <= j < l.len() implies (#[trigger] l[j]).len() == 0 by {
                if j < paragraph_lines(init).len() {
                    assert(l[j] == paragraph_lines(init)[j]);
                }
            }
        } else {
            assert(paragraph_lines(paras) =~= Seq::<Seq<char>>::empty());
        }
    }
}

proof fn lemma_page_state_blank(lines: Seq<Seq<char>>)
    requires
        forall|j: int| 0 <= j < lines.len() ==> (#[trigger] lines[j]).len() == 0,
    ensures
        page_state(lines).0.len() == 0,
        page_state(lines).1.len() == 0,
    decreases lines.len(),
{
    if lines.len() > 0 {
        let init = lines.drop_last();
        assert forall|j: int| 0 <= j < init.len() implies (#[trigger] init[j]).len() == 0 by {
            assert(init[j] == lines[j]);
        }
        lemma_page_state_blank(init);
        assert(lines[lines.len() - 1].len() == 0);
    }
}

/// Text with nothing but whitespace lays out as the empty text does: one empty page.
pub proof fn law_blank_text_is_empty_page(t: Seq<char>)
    requires
        all_whitespace(t),
    ensures
        layout_pages(t) == seq![Seq::<Seq<char>>::empty()],
        layout_pages(Seq::<char>::empty()) == seq![Seq::<Seq<char>>::empty()],
{
    lemma_blank_pieces_whitespace(t);
    lemma_blank_paragraph_lines(split_blank_lines(t));
    lemma_page_state_blank(text_lines(t));
    let e = Seq::<char>::empty();
    assert(all_whitespace(e));
    lemma_blank_pieces_whitespace(e);
    lemma_blank_paragraph_lines(split_blank_lines(e));
    lemma_page_state_blank(text_lines(e));
}

proof fn lemma_nonblank_paragraph(s: Seq<char>, i: int)
    requires
        0 <= i < s.len(),
        !is_whitespace(s[i]),
    ensures
        exists|k: int|
            0 <= k < split_blank_lines(s).len() && !all_whitespace(#[trigger] split_blank_lines(s)[k]),
    decreases s.len(),
{
    lemma_split_blank_lines_nonempty(s);
    if s.len() >= 2 && s[0] == '\n' && s[1] == '\n' {
        assert(('\n' as u32) == 0xa);
        let t = s.subrange(2, s.len() as int);
        assert(i >= 2);
        assert(t[i - 2] == s[i]);
        lemma_nonblank_paragraph(t, i - 2);
        let r = split_blank_lines(t);
        let k = choose|k: int| 0 <= k < r.len() && !all_whitespace(#[trigger] r[k]);
        assert((seq![seq![]] + r)[k + 1] == r[k]);
    } else {
        let t = s.drop_first();
        lemma_split_blank_lines_nonempty(t);
        let r = split_blank_lines(t);
        let x = seq![s[0]] + r[0];
        if i == 0 {
            assert(x[0] == s[0]);
            assert(prepend_first(seq![s[0]], r)[0] == x);
        } else {
            assert(t[i - 1] == s[i]);
            lemma_nonblank_paragraph(t, i - 1);
            let k = choose|k: int| 0 <= k < r.len() && !all_whitespace(#[trigger] r[k]);
            if k == 0 {
                let m = choose|m: int| 0 <= m < r[0].len() && !is_whitespace(#[trigger] r[0][m]);
                assert(x[m + 1] == r[0][m]);
                assert(prepend_first(seq![s[0]], r)[0] == x);
            } else {
                assert(prepend_first(seq![s[0]], r)[k] == r[k]);
            }
        }
    }
}

proof fn lemma_nonblank_has_words(s: Seq<char>, i: int)
    requires
        0 <= i < s.len(),
        !is_whitespace(s[i]),
    ensures
        words_of(s).len() > 0,
    decreases s.len(),
{
    let t = s.drop_first();
    lemma_split_at_whitespace_nonempty(t);
    let r = split_at_whitespace(t);
    if !is_whitespace(s[0]) {
        let ps = prepend_first(seq![s[0]], r);
        assert(ps[0] == seq![s[0]] + r[0]);
        assert(is_word()(ps[0]));
        ps.lemma_filter_contains(is_word(), 0);
    } else {
        assert(i > 0);
        assert(t[i - 1] == s[i]);
        lemma_nonblank_has_words(t, i - 1);
        let e: Seq<Seq<char>> = seq![seq![]];
        Seq::filter_distributes_over_add(e, r, is_word());
        lemma_filter_words_of_empty_pieces(e);
    }
}

proof fn lemma_paragraph_lines_nonblank(paras: Seq<Seq<char>>, k: int)
    requires
        0 <= k < paras.len(),
        !all_whitespace(paras[k]),
    ensures
        exists|j: int|
            0 <= j < paragraph_lines(paras).len() && (#[trigger] paragraph_lines(paras)[j]).len() > 0,
    decreases paras.len(),
{
    if k == paras.len() - 1 {
        let p = paras[k];
        let i = choose|i: int| 0 <= i < p.len() && !is_whitespace(#[trigger] p[i]);
        lemma_nonblank_has_words(p, i);
        let ws = words_of(p);
        lemma_words_of_plain(p);
        assert forall|j: int| 0 <= j < ws.len() implies (#[trigger] ws[j]).len() > 0 by {}
        lemma_wrap_state_joined(ws);
        let w = wrap_words(ws);
        assert(w.len() > 0 && w[w.len() - 1].len() > 0);
        if paras.len() == 1 {
            assert(paragraph_lines(paras)[w.len() - 1] == w[w.len() - 1]);
        } else {
            let a = paragraph_lines(paras.drop_last());
            let l = a + seq![Seq::<char>::empty()] + w;
            assert(paras.last() == p);
            assert(paragraph_lines(paras) == l);
            assert(l[a.len() + 1 + w.len() - 1] == w[w.len() - 1]);
        }
    } else {
        let init = paras.drop_last();
        assert(init[k] == paras[k]);
        lemma_paragraph_lines_nonblank(init, k);
        let a = paragraph_lines(init);
        let j = choose|j: int| 0 <= j < a.len() && (#[trigger] a[j]).len() > 0;
        let l = a + seq![Seq::<char>::empty()] + wrap_words(words_of(paras.last()));
        assert(paragraph_lines(paras) == l);
        assert(l[j] == a[j]);
    }
}

proof fn lemma_page_state_holds_something(lines: Seq<Seq<char>>, j: int)
    requires
        0 <= j < lines.len(),
        lines[j].len() > 0,
    ensures
        page_state(lines).0.len() > 0 || page_state(lines).1.len() > 0,
    decreases lines.len(),
{
    if j < lines.len() - 1 {
        let init = lines.drop_last();
        assert(init[j] == lines[j]);
        lemma_page_state_holds_something(init, j);
    }
}

/// The last page is empty only when the text is blank (nothing but
/// whitespace), and then it is the only page.
pub proof fn law_empty_page_only_for_blank_text(text: Seq<char>)
    ensures
        layout_pages(text).last().len() == 0 ==> all_whitespace(text) && layout_pages(text).len() == 1,
        all_whitespace(text) ==> layout_pages(text) == seq![Seq::<Seq<char>>::empty()],
{
    if all_whitespace(text) {
        law_blank_text_is_empty_page(text);
    } else {
        let i = choose|i: int| 0 <= i < text.len() && !is_whitespace(#[trigger] text[i]);
        let paras = split_blank_lines(text);
        lemma_nonblank_paragraph(text, i);
        let k = choose|k: int| 0 <= k < paras.len() && !all_whitespace(#[trigger] paras[k]);
        lemma_paragraph_lines_nonblank(paras, k);
        let lines = text_lines(text);
        let j = choose|j: int| 0 <= j < lines.len() && (#[trigger] lines[j]).len() > 0;
        lemma_page_state_holds_something(lines, j);
        lemma_page_state_ok(lines);
        let (pages, cur) = page_state(lines);
        if cur.len() == 0 {
            assert(pages[pages.len() - 1].len() == 58);
        }
    }
}

/// A line with something on it.
pub open spec fn is_nonblank() -> spec_fn(Seq<char>) -> bool {
    |l: Seq<char>| l.len() > 0
}

proof fn lemma_page_state_keeps_lines(lines: Seq<Seq<char>>)
    ensures
        (page_state(lines).0.flatten() + page_state(lines).1).filter(is_nonblank())
            == lines.filter(is_nonblank()),
    decreases lines.len(),
{
    reveal(Seq::filter);
    if lines.len() == 0 {
        assert(Seq::<Seq<Seq<char>>>::empty().flatten() + Seq::<Seq<char>>::empty()
            =~= Seq::<Seq<char>>::empty());
    } else {
        let init = lines.drop_last();
        let line = lines.last();
        lemma_page_state_keeps_lines(init);
        let (pages, cur) = page_state(init);
        let (pages2, cur2) = if cur.len() >= 58 {
            (pages.push(cur), Seq::<Seq<char>>::empty())
        } else {
            (pages, cur)
        };
        assert(pages2.flatten() + cur2 =~= pages.flatten() + cur) by {
            if cur.len() >= 58 {
                pages.lemma_flatten_push(cur);
            }
        }
        let before = pages2.flatten() + cur2;
        assert(lines =~= init.push(line));
        init.lemma_filter_push(line, is_nonblank());
        if cur2.len() == 0 && line.len() == 0 {
        } else {
            assert(pages2.flatten() + cur2.push(line) =~= before.push(line));
            before.lemma_filter_push(line, is_nonblank());
        }
    }
}

/// Pagination loses nothing but empty lines: the pages, read in order, hold
/// every non-empty line of the text in order.
pub proof fn law_pages_keep_lines(lines: Seq<Seq<char>>)
    ensures
        paginate_lines(lines).flatten().filter(is_nonblank()) == lines.filter(is_nonblank()),
{
    lemma_page_state_keeps_lines(lines);
    let (pages, cur) = page_state(lines);
    let all = if cur.len() > 0 {
        pages.push(cur)
    } else {
        pages
    };
    assert(all.flatten() =~= pages.flatten() + cur) by {
        if cur.len() > 0 {
            pages.lemma_flatten_push(cur);
        } else {
            assert(pages.flatten() + cur =~= pages.flatten());
        }
    }
    if all.len() == 0 {
        let one: Seq<Seq<Seq<char>>> = seq![seq![]];
        one.lemma_flatten_singleton();
        assert(pages.len() == 0);
        assert(one.flatten() =~= pages.flatten() + cur);
    }
}

} // verus!
