use crate::external::{ascii_upper, random_i32_below, random_i32_inclusive, random_usize_inclusive, to_uppercase_string, uppercase_mapping};
use crate::sampling::{is_draw, lemma_draw_is_listed, sample_index, usable_table};
use crate::layout::{
    lemma_words_of_around, lemma_words_of_empty, lemma_words_of_word, no_whitespace, words_of,
};
use crate::textutil::{
    lemma_ascii_chars_encode, append_bytes, append_range, char_floor, floor_boundary, lemma_ascii_valid,
    lemma_char_floor_ascii, lemma_char_floor_bounds, lemma_char_floor_near, lemma_char_floor_shift,
    lemma_encode_utf8_concat,
};
use rand_chacha::ChaCha8Rng;
use vstd::prelude::*;
use vstd::utf8::{decode_utf8, encode_utf8, encode_utf8_decode_utf8, encode_utf8_valid_utf8, is_char_boundary, valid_utf8, valid_utf8_concat, valid_utf8_split};

verus! {

/// The uppercase mapping of a character: for an ASCII character its ASCII
/// uppercase, otherwise the Unicode mapping.
pub open spec fn upper_chars(c: char) -> Seq<char> {
    if (c as u32) < 128 {
        seq![ascii_upper(c)]
    } else {
        uppercase_mapping(c)
    }
}

/// A word with its first character replaced by its uppercase mapping.
pub open spec fn capitalized(w: Seq<char>) -> Seq<char> {
    if w.len() == 0 {
        w
    } else {
        upper_chars(w[0]) + w.drop_first()
    }
}

/// The bytes of word `i` of the list, capitalized when it opens a sentence.
pub open spec fn word_bytes(words: Seq<&str>, i: int, opening: bool) -> Seq<u8> {
    if opening {
        encode_utf8(capitalized(words[i]@))
    } else {
        encode_utf8(words[i]@)
    }
}

/// The words at indices `idxs`, separated by single spaces, the first one capitalized.
pub open spec fn words_bytes(words: Seq<&str>, idxs: Seq<int>) -> Seq<u8>
    decreases idxs.len(),
{
    if idxs.len() == 0 {
        seq![]
    } else if idxs.len() == 1 {
        word_bytes(words, idxs[0], true)
    } else {
        words_bytes(words, idxs.drop_last()) + seq![32u8] + word_bytes(words, idxs.last(), false)
    }
}

/// A sentence: its word indices and the draw in `0..100` that picks its closing punctuation.
pub open spec fn sentence_bytes(words: Seq<&str>, s: (Seq<int>, i32)) -> Seq<u8> {
    words_bytes(words, s.0).push(punctuation_of(s.1))
}

/// Sentences joined by single spaces.
pub open spec fn paragraph_bytes(words: Seq<&str>, p: Seq<(Seq<int>, i32)>) -> Seq<u8>
    decreases p.len(),
{
    if p.len() == 0 {
        seq![]
    } else if p.len() == 1 {
        sentence_bytes(words, p[0])
    } else {
        paragraph_bytes(words, p.drop_last()) + seq![32u8] + sentence_bytes(words, p.last())
    }
}

/// Paragraphs joined by a blank line ("\n\n").
pub open spec fn text_bytes(words: Seq<&str>, ps: Seq<Seq<(Seq<int>, i32)>>) -> Seq<u8>
    decreases ps.len(),
{
    if ps.len() == 0 {
        seq![]
    } else if ps.len() == 1 {
        paragraph_bytes(words, ps[0])
    } else {
        text_bytes(words, ps.drop_last()) + seq![10u8, 10u8] + paragraph_bytes(words, ps.last())
    }
}

/// The three ways a sentence ends.
pub open spec fn is_punctuation(b: u8) -> bool {
    b == 46 || b == 63 || b == 33
}

/// The punctuation that a draw `p` in `0..100` selects: 85% '.', 10% '?', 5% '!'.
pub open spec fn punctuation_of(p: i32) -> u8 {
    if p < 85 {
        46u8
    } else if p < 95 {
        63u8
    } else {
        33u8
    }
}

/// Every word of the sentence was drawn from the table, and its punctuation
/// was picked by a draw in `0..100`.
pub open spec fn drawn_sentence(words: Seq<&str>, cdf: Seq<u64>, sum: u64, s: (Seq<int>, i32)) -> bool {
    &&& 0 <= s.1 < 100
    &&& forall|k: int|
        0 <= k < s.0.len() ==> 0 <= #[trigger] s.0[k] < words.len() && is_draw(cdf, sum, s.0[k])
}

/// Number of words in a paragraph.
pub open spec fn paragraph_words(p: Seq<(Seq<int>, i32)>) -> nat
    decreases p.len(),
{
    if p.len() == 0 {
        0
    } else {
        paragraph_words(p.drop_last()) + p.last().0.len()
    }
}

/// Number of words in a text.
pub open spec fn text_words(ps: Seq<Seq<(Seq<int>, i32)>>) -> nat
    decreases ps.len(),
{
    if ps.len() == 0 {
        0
    } else {
        text_words(ps.drop_last()) + paragraph_words(ps.last())
    }
}

/// Shape of a text generated to a word count: paragraphs of 1 to 8 sentences
/// (3 to 8 except the last), sentences of 1 to 20 drawn words (at least 5
/// except the very last one).
pub open spec fn word_count_shape(words: Seq<&str>, cdf: Seq<u64>, sum: u64, ps: Seq<Seq<(Seq<int>, i32)>>) -> bool {
    forall|p: int|
        0 <= p < ps.len() ==> {
            &&& 1 <= #[trigger] ps[p].len() <= 8
            &&& (p + 1 < ps.len() ==> 3 <= ps[p].len())
            &&& forall|s: int|
                0 <= s < ps[p].len() ==> {
                    &&& drawn_sentence(words, cdf, sum, #[trigger] ps[p][s])
                    &&& 1 <= ps[p][s].0.len() <= 20
                    &&& ((p + 1 < ps.len() || s + 1 < ps[p].len()) ==> 5 <= ps[p][s].0.len())
                }
        }
}

/// Shape of a text generated to a byte budget: paragraphs of 1 to 8 sentences
/// (3 to 8 except the last), sentences of 5 to 20 drawn words.
pub open spec fn byte_budget_shape(words: Seq<&str>, cdf: Seq<u64>, sum: u64, ps: Seq<Seq<(Seq<int>, i32)>>) -> bool {
    forall|p: int|
        0 <= p < ps.len() ==> {
            &&& 1 <= #[trigger] ps[p].len() <= 8
            &&& (p + 1 < ps.len() ==> 3 <= ps[p].len())
            &&& forall|s: int|
                0 <= s < ps[p].len() ==> {
                    &&& drawn_sentence(words, cdf, sum, #[trigger] ps[p][s])
                    &&& 5 <= ps[p][s].0.len() <= 20
                }
        }
}

/// Shape of a paragraph of the endless stream: 3 to 8 sentences of 5 to 20 drawn words.
pub open spec fn full_paragraph_shape(words: Seq<&str>, cdf: Seq<u64>, sum: u64, p: Seq<(Seq<int>, i32)>) -> bool {
    &&& 3 <= p.len() <= 8
    &&& forall|s: int|
        0 <= s < p.len() ==> {
            &&& drawn_sentence(words, cdf, sum, #[trigger] p[s])
            &&& 5 <= p[s].0.len() <= 20
        }
}

/// A text for `generate_by_words`: the shape above and exactly `target` words.
pub open spec fn word_count_outcome(words: Seq<&str>, cdf: Seq<u64>, sum: u64, target: nat, ps: Seq<Seq<(Seq<int>, i32)>>) -> bool {
    &&& word_count_shape(words, cdf, sum, ps)
    &&& text_words(ps) == target
}

// ---------------------------------------------------------------------------
// Facts about the renderings
// ---------------------------------------------------------------------------

proof fn lemma_space_valid()
    ensures
        valid_utf8(seq![32u8]),
        valid_utf8(seq![10u8, 10u8]),
{
    lemma_ascii_valid(seq![32u8]);
    lemma_ascii_valid(seq![10u8, 10u8]);
}

proof fn lemma_words_bytes_valid(words: Seq<&str>, idxs: Seq<int>)
    ensures
        valid_utf8(words_bytes(words, idxs)),
    decreases idxs.len(),
{
    lemma_space_valid();
    if idxs.len() == 0 {
        lemma_ascii_valid(Seq::<u8>::empty());
    } else if idxs.len() == 1 {
        encode_utf8_valid_utf8(capitalized(words[idxs[0]]@));
    } else {
        lemma_words_bytes_valid(words, idxs.drop_last());
        encode_utf8_valid_utf8(words[idxs.last()]@);
        valid_utf8_concat(words_bytes(words, idxs.drop_last()), seq![32u8]);
        valid_utf8_concat(
            words_bytes(words, idxs.drop_last()) + seq![32u8],
            word_bytes(words, idxs.last(), false),
        );
    }
}

proof fn lemma_sentence_bytes_valid(words: Seq<&str>, s: (Seq<int>, i32))
    requires
        is_punctuation(punctuation_of(s.1)),
    ensures
        valid_utf8(sentence_bytes(words, s)),
        sentence_bytes(words, s).len() >= 1,
{
    lemma_words_bytes_valid(words, s.0);
    lemma_ascii_valid(seq![punctuation_of(s.1)]);
    valid_utf8_concat(words_bytes(words, s.0), seq![punctuation_of(s.1)]);
    assert(words_bytes(words, s.0).push(punctuation_of(s.1)) =~= words_bytes(words, s.0) + seq![punctuation_of(s.1)]);
}

proof fn lemma_paragraph_bytes_valid(words: Seq<&str>, p: Seq<(Seq<int>, i32)>)
    requires
        forall|s: int| 0 <= s < p.len() ==> is_punctuation(#[trigger] punctuation_of(p[s].1)),
    ensures
        valid_utf8(paragraph_bytes(words, p)),
        p.len() > 0 ==> paragraph_bytes(words, p).len() >= 1,
    decreases p.len(),
{
    lemma_space_valid();
    if p.len() == 0 {
        lemma_ascii_valid(Seq::<u8>::empty());
    } else if p.len() == 1 {
        lemma_sentence_bytes_valid(words, p[0]);
    } else {
        assert forall|s: int| 0 <= s < p.drop_last().len() implies is_punctuation(
            #[trigger] punctuation_of(p.drop_last()[s].1),
        ) by {
            assert(p.drop_last()[s] == p[s]);
        }
        lemma_paragraph_bytes_valid(words, p.drop_last());
        lemma_sentence_bytes_valid(words, p.last());
        let a = paragraph_bytes(words, p.drop_last());
        valid_utf8_concat(a, seq![32u8]);
        valid_utf8_concat(a + seq![32u8], sentence_bytes(words, p.last()));
    }
}

proof fn lemma_text_bytes_valid(words: Seq<&str>, ps: Seq<Seq<(Seq<int>, i32)>>)
    requires
        forall|p: int, s: int|
            0 <= p < ps.len() && 0 <= s < ps[p].len() ==> is_punctuation(#[trigger] punctuation_of(ps[p][s].1)),
    ensures
        valid_utf8(text_bytes(words, ps)),
    decreases ps.len(),
{
    lemma_space_valid();
    if ps.len() == 0 {
        lemma_ascii_valid(Seq::<u8>::empty());
    } else {
        let last = ps.last();
        assert forall|s: int| 0 <= s < last.len() implies is_punctuation(#[trigger] punctuation_of(last[s].1)) by {
            assert(ps[ps.len() - 1][s] == last[s]);
        }
        lemma_paragraph_bytes_valid(words, last);
        if ps.len() > 1 {
            let init = ps.drop_last();
            assert forall|p: int, s: int|
                0 <= p < init.len() && 0 <= s < init[p].len() implies is_punctuation(
                #[trigger] punctuation_of(init[p][s].1),
            ) by {
                assert(init[p] == ps[p]);
            }
            lemma_text_bytes_valid(words, init);
            let a = text_bytes(words, init);
            valid_utf8_concat(a, seq![10u8, 10u8]);
            valid_utf8_concat(a + seq![10u8, 10u8], paragraph_bytes(words, last));
        }
    }
}

// ---------------------------------------------------------------------------
// Writing words and sentences
// ---------------------------------------------------------------------------

/// Maps a draw in `0..100` to the sentence's punctuation.
pub fn punctuation_for(p: i32) -> (b: u8)
    ensures
        b == punctuation_of(p),
        is_punctuation(b),
{
    if p < 85 {
        46u8
    } else if p < 95 {
        63u8
    } else {
        33u8
    }
}

/// Appends a word, capitalizing its first character when it opens a sentence.
fn write_word(out: &mut Vec<u8>, w: &str, opening: bool)
    ensures
        final(out)@ == old(out)@ + if opening {
            encode_utf8(capitalized(w@))
        } else {
            encode_utf8(w@)
        },
{
    if opening {
        if w.is_empty() {
            assert(encode_utf8(w@) =~= Seq::<u8>::empty());
            assert(out@ =~= out@ + encode_utf8(capitalized(w@)));
            return ;
        }
        let c = w.get_char(0);
        let up = to_uppercase_string(c);
        append_bytes(out, up.as_str().as_bytes());
        let rest = w.substring_char(1, w.unicode_len());
        append_bytes(out, rest.as_bytes());
        proof {
            assert(rest@ =~= w@.drop_first());
            lemma_encode_utf8_concat(upper_chars(c), w@.drop_first());
        }
    } else {
        append_bytes(out, w.as_bytes());
    }
}

/// Appends a sentence of `n` drawn words and its punctuation; returns its model.
fn write_sentence(
    rng: &mut ChaCha8Rng,
    words: &[&str],
    cdf: &[u64],
    sum: u64,
    n: usize,
    out: &mut Vec<u8>,
) -> (g: Ghost<(Seq<int>, i32)>)
    requires
        usable_table(words@, cdf@, sum),
    ensures
        final(out)@ == old(out)@ + sentence_bytes(words@, g@),
        g@.0.len() == n,
        drawn_sentence(words@, cdf@, sum, g@),
{
    let ghost start = out@;
    let ghost mut idxs: Seq<int> = Seq::empty();
    let mut i: usize = 0;
    while i < n
        invariant
            usable_table(words@, cdf@, sum),
            i <= n,
            idxs.len() == i,
            out@ == start + words_bytes(words@, idxs),
            forall|k: int|
                0 <= k < idxs.len() ==> 0 <= #[trigger] idxs[k] < words@.len() && is_draw(
                    cdf@,
                    sum,
                    idxs[k],
                ),
        decreases n - i,
    {
        if i > 0 {
            out.push(32u8);
        }
        let idx = sample_index(rng, cdf, sum);
        proof {
            lemma_draw_is_listed(words@, cdf@, sum, idx as int);
        }
        write_word(out, words[idx], i == 0);
        proof {
            let next = idxs.push(idx as int);
            assert(next.drop_last() =~= idxs);
            if i == 0 {
                assert(idxs =~= Seq::<int>::empty());
                assert(words_bytes(words@, idxs) =~= Seq::<u8>::empty());
            }
            idxs = next;
        }
        i = i + 1;
    }
    let p = random_i32_below(rng, 0, 100);
    let b = punctuation_for(p);
    out.push(b);
    Ghost((idxs, p))
}

// ---------------------------------------------------------------------------
// The generators
// ---------------------------------------------------------------------------

/// Generates text with a target count of words, appending it to `out`.
pub fn generate_by_words(
    target_words: usize,
    rng: &mut ChaCha8Rng,
    words: &[&str],
    cdf: &[u64],
    sum: u64,
    out: &mut Vec<u8>,
)
    requires
        target_words == 0 || usable_table(words@, cdf@, sum),
    ensures
        exists|ps: Seq<Seq<(Seq<int>, i32)>>|
            #[trigger] word_count_outcome(words@, cdf@, sum, target_words as nat, ps)
                && final(out)@ == old(out)@ + text_bytes(words@, ps),
        target_words == 0 ==> *final(rng) == *old(rng),
{
    let ghost start = out@;
    let ghost mut ps: Seq<Seq<(Seq<int>, i32)>> = Seq::empty();
    let mut words_generated: usize = 0;
    let mut first_paragraph = true;
    while words_generated < target_words
        invariant
            target_words > 0 ==> usable_table(words@, cdf@, sum),
            target_words == 0 ==> *rng == *old(rng),
            words_generated <= target_words,
            words_generated == text_words(ps),
            first_paragraph == (ps.len() == 0),
            out@ == start + text_bytes(words@, ps),
            word_count_shape(words@, cdf@, sum, ps),
            words_generated < target_words && ps.len() > 0 ==> ps.last().len() >= 3 && ps.last().last().0.len() >= 5,
        decreases target_words - words_generated,
    {
        if first_paragraph {
            first_paragraph = false;
        } else {
            out.push(10u8);
            out.push(10u8);
        }
        let ghost para_start = out@;
        let paragraph_sentences_count = random_i32_inclusive(rng, 3, 8);
        let ghost mut cur: Seq<(Seq<int>, i32)> = Seq::empty();
        let ghost before = words_generated;
        let mut first_sentence_in_para = true;
        let mut s_idx: i32 = 0;
        while s_idx < paragraph_sentences_count
            invariant
                usable_table(words@, cdf@, sum),
                3 <= paragraph_sentences_count <= 8,
                0 <= s_idx <= paragraph_sentences_count,
                cur.len() <= s_idx,
                cur.len() == 0 ==> before < target_words,
                words_generated <= target_words,
                words_generated == before + paragraph_words(cur),
                first_sentence_in_para == (cur.len() == 0),
                out@ == para_start + paragraph_bytes(words@, cur),
                forall|s: int|
                    0 <= s < cur.len() ==> {
                        &&& drawn_sentence(words@, cdf@, sum, #[trigger] cur[s])
                        &&& 1 <= cur[s].0.len() <= 20
                        &&& (s + 1 < cur.len() ==> 5 <= cur[s].0.len())
                    },
                words_generated < target_words ==> cur.len() == s_idx && (cur.len() > 0 ==> cur.last().0.len() >= 5),
            ensures
                1 <= cur.len() <= 8,
                words_generated < target_words ==> cur.len() >= 3 && cur.last().0.len() >= 5,
            decreases paragraph_sentences_count - s_idx,
        {
            if words_generated >= target_words {
                break;
            }
            if first_sentence_in_para {
                first_sentence_in_para = false;
            } else {
                out.push(32u8);
            }
            let remaining = target_words - words_generated;
            let sentence_len = if remaining <= 5 {
                remaining
            } else {
                let drawn = random_usize_inclusive(rng, 5, 20);
                if drawn < remaining {
                    drawn
                } else {
                    remaining
                }
            };
            let g = write_sentence(rng, words, cdf, sum, sentence_len, out);
            words_generated = words_generated + sentence_len;
            proof {
                let next = cur.push(g@);
                assert(next.drop_last() =~= cur);
                if cur.len() == 0 {
                    assert(paragraph_bytes(words@, cur) =~= Seq::<u8>::empty());
                }
                assert(paragraph_bytes(words@, next) =~= if cur.len() == 0 {
                    sentence_bytes(words@, g@)
                } else {
                    paragraph_bytes(words@, cur) + seq![32u8] + sentence_bytes(words@, g@)
                });
                cur = next;
            }
            s_idx = s_idx + 1;
        }
        proof {
            let next = ps.push(cur);
            assert(next.drop_last() =~= ps);
            if ps.len() == 0 {
                assert(text_bytes(words@, ps) =~= Seq::<u8>::empty());
                assert(out@ =~= start + text_bytes(words@, next));
            } else {
                assert(out@ =~= start + text_bytes(words@, next));
            }
            assert forall|p: int| 0 <= p < next.len() implies {
                &&& 1 <= #[trigger] next[p].len() <= 8
                &&& (p + 1 < next.len() ==> 3 <= next[p].len())
                &&& forall|s: int|
                    0 <= s < next[p].len() ==> {
                        &&& drawn_sentence(words@, cdf@, sum, #[trigger] next[p][s])
                        &&& 1 <= next[p][s].0.len() <= 20
                        &&& ((p + 1 < next.len() || s + 1 < next[p].len()) ==> 5 <= next[p][s].0.len())
                    }
            } by {
                if p + 1 < next.len() {
                    assert(next[p] == ps[p]);
                    if p + 1 == ps.len() {
                        assert(ps.last().len() >= 3);
                        assert forall|s: int| 0 <= s < next[p].len() implies 5 <= #[trigger] next[p][s].0.len() by {
                            if s + 1 == next[p].len() {
                                assert(ps.last().last().0.len() >= 5);
                            } else {
                                assert(ps[p][s] == next[p][s]);
                            }
                        }
                    }
                }
            }
            ps = next;
        }
    }
    assert(word_count_outcome(words@, cdf@, sum, target_words as nat, ps));
}


/// The text for `generate_by_bytes`: the shape above, and the rendering reaches `target` bytes.
pub open spec fn byte_budget_outcome(words: Seq<&str>, cdf: Seq<u64>, sum: u64, target: nat, ps: Seq<Seq<(Seq<int>, i32)>>) -> bool {
    &&& byte_budget_shape(words, cdf, sum, ps)
    &&& text_bytes(words, ps).len() >= target
}

/// The bytes of `ps` cut at the last character boundary not past `target`.
pub open spec fn budget_cut(words: Seq<&str>, ps: Seq<Seq<(Seq<int>, i32)>>, target: nat) -> Seq<u8> {
    text_bytes(words, ps).subrange(0, char_floor(text_bytes(words, ps), target as int))
}

/// `n` ASCII spaces.
pub open spec fn padding(n: nat) -> Seq<u8> {
    Seq::new(n, |i: int| 32u8)
}

/// The bytes written for a byte budget: the text cut at the last character
/// boundary not past `target`, and the few bytes of a character that would
/// straddle the budget replaced by spaces, so that exactly `target` bytes come out.
pub open spec fn budget_fill(words: Seq<&str>, ps: Seq<Seq<(Seq<int>, i32)>>, target: nat) -> Seq<u8> {
    budget_cut(words, ps, target) + padding((target - budget_cut(words, ps, target).len()) as nat)
}

/// Appends `n` spaces.
fn push_spaces(out: &mut Vec<u8>, n: usize)
    ensures
        final(out)@ == old(out)@ + padding(n as nat),
{
    let ghost start = out@;
    let mut i: usize = 0;
    while i < n
        invariant
            i <= n,
            out@ =~= start + padding(i as nat),
        decreases n - i,
    {
        out.push(32u8);
        i = i + 1;
    }
}

proof fn lemma_shape_punctuation(words: Seq<&str>, cdf: Seq<u64>, sum: u64, ps: Seq<Seq<(Seq<int>, i32)>>)
    requires
        byte_budget_shape(words, cdf, sum, ps),
    ensures
        forall|p: int, s: int|
            0 <= p < ps.len() && 0 <= s < ps[p].len() ==> is_punctuation(#[trigger] punctuation_of(ps[p][s].1)),
{
    assert forall|p: int, s: int|
        0 <= p < ps.len() && 0 <= s < ps[p].len() implies is_punctuation(#[trigger] punctuation_of(ps[p][s].1)) by {
        assert(drawn_sentence(words, cdf, sum, ps[p][s]));
    }
}

/// Generates text of exactly `target_bytes` bytes of valid UTF-8, appending it
/// to `out`; a character that would straddle the end is replaced by spaces.
pub fn generate_by_bytes(
    target_bytes: usize,
    rng: &mut ChaCha8Rng,
    words: &[&str],
    cdf: &[u64],
    sum: u64,
    out: &mut Vec<u8>,
)
    requires
        target_bytes == 0 || usable_table(words@, cdf@, sum),
    ensures
        exists|ps: Seq<Seq<(Seq<int>, i32)>>|
            #[trigger] byte_budget_outcome(words@, cdf@, sum, target_bytes as nat, ps)
                && final(out)@ == old(out)@ + budget_fill(words@, ps, target_bytes as nat),
        target_bytes == 0 ==> *final(rng) == *old(rng),
{
    let ghost start = out@;
    let ghost mut ps: Seq<Seq<(Seq<int>, i32)>> = Seq::empty();
    let mut bytes_written: usize = 0;
    let mut first_paragraph = true;
    let mut paragraph_buf: Vec<u8> = Vec::new();
    while bytes_written < target_bytes
        invariant
            target_bytes > 0 ==> usable_table(words@, cdf@, sum),
            target_bytes == 0 ==> *rng == *old(rng),
            start == old(out)@,
            bytes_written <= target_bytes,
            bytes_written == text_bytes(words@, ps).len(),
            out@ == start + text_bytes(words@, ps),
            first_paragraph == (ps.len() == 0),
            byte_budget_shape(words@, cdf@, sum, ps),
            bytes_written < target_bytes && ps.len() > 0 ==> ps.last().len() >= 3,
        decreases target_bytes - bytes_written,
    {
        paragraph_buf.clear();
        let paragraph_sentences_count = random_i32_inclusive(rng, 3, 8);
        let ghost mut cur: Seq<(Seq<int>, i32)> = Seq::empty();
        let mut s_idx: i32 = 0;
        while s_idx < paragraph_sentences_count
            invariant
                usable_table(words@, cdf@, sum),
                3 <= paragraph_sentences_count <= 8,
                0 <= s_idx <= paragraph_sentences_count,
                cur.len() == s_idx,
                bytes_written < target_bytes,
                paragraph_buf@ == paragraph_bytes(words@, cur),
                forall|s: int|
                    0 <= s < cur.len() ==> {
                        &&& drawn_sentence(words@, cdf@, sum, #[trigger] cur[s])
                        &&& 5 <= cur[s].0.len() <= 20
                    },
            ensures
                1 <= cur.len() <= 8,
                paragraph_buf@ == paragraph_bytes(words@, cur),
                cur.len() >= 3 || paragraph_buf@.len() >= target_bytes - bytes_written,
            decreases paragraph_sentences_count - s_idx,
        {
            if paragraph_buf.len() >= target_bytes - bytes_written {
                break;
            }
            if s_idx > 0 {
                paragraph_buf.push(32u8);
            }
            let sentence_len = random_i32_inclusive(rng, 5, 20);
            let g = write_sentence(rng, words, cdf, sum, sentence_len as usize, &mut paragraph_buf);
            proof {
                let next = cur.push(g@);
                assert(next.drop_last() =~= cur);
                if cur.len() == 0 {
                    assert(paragraph_bytes(words@, cur) =~= Seq::<u8>::empty());
                }
                assert(paragraph_bytes(words@, next) =~= if cur.len() == 0 {
                    sentence_bytes(words@, g@)
                } else {
                    paragraph_bytes(words@, cur) + seq![32u8] + sentence_bytes(words@, g@)
                });
                cur = next;
            }
            s_idx = s_idx + 1;
        }
        let ghost next = ps.push(cur);
        proof {
            assert(next.drop_last() =~= ps);
            assert forall|s: int| 0 <= s < cur.len() implies is_punctuation(#[trigger] punctuation_of(cur[s].1)) by {
                assert(drawn_sentence(words@, cdf@, sum, cur[s]));
            }
            lemma_paragraph_bytes_valid(words@, cur);
            assert(byte_budget_shape(words@, cdf@, sum, next)) by {
                assert forall|p: int| 0 <= p < next.len() implies {
                    &&& 1 <= #[trigger] next[p].len() <= 8
                    &&& (p + 1 < next.len() ==> 3 <= next[p].len())
                    &&& forall|s: int|
                        0 <= s < next[p].len() ==> {
                            &&& drawn_sentence(words@, cdf@, sum, #[trigger] next[p][s])
                            &&& 5 <= next[p][s].0.len() <= 20
                        }
                } by {
                    if p + 1 < next.len() {
                        assert(next[p] == ps[p]);
                    }
                }
            }
            lemma_shape_punctuation(words@, cdf@, sum, next);
            lemma_text_bytes_valid(words@, next);
            lemma_shape_punctuation(words@, cdf@, sum, ps);
            lemma_text_bytes_valid(words@, ps);
            lemma_space_valid();
            if ps.len() == 0 {
                assert(text_bytes(words@, ps) =~= Seq::<u8>::empty());
                assert(text_bytes(words@, next) == paragraph_bytes(words@, cur));
            } else {
                assert(text_bytes(words@, next) == text_bytes(words@, ps) + seq![10u8, 10u8]
                    + paragraph_bytes(words@, cur));
            }
        }
        if paragraph_buf.len() > 0 {
            if first_paragraph {
                first_paragraph = false;
                if paragraph_buf.len() <= target_bytes {
                    append_bytes(out, paragraph_buf.as_slice());
                    bytes_written = bytes_written + paragraph_buf.len();
                    proof {
                        ps = next;
                    }
                } else {
                    let end = floor_boundary(&paragraph_buf, target_bytes);
                    append_range(out, paragraph_buf.as_slice(), 0, end);
                    push_spaces(out, target_bytes - end);
                    proof {
                        assert(text_bytes(words@, ps) =~= Seq::<u8>::empty());
                        assert(budget_cut(words@, next, target_bytes as nat) =~= paragraph_buf@.subrange(0, end as int));
                        assert(out@ =~= start + budget_fill(words@, next, target_bytes as nat));
                        assert(byte_budget_outcome(words@, cdf@, sum, target_bytes as nat, next));
                    }
                    return ;
                }
            } else {
                if target_bytes - bytes_written >= 2 {
                    out.push(10u8);
                    out.push(10u8);
                    bytes_written = bytes_written + 2;
                    let remaining = target_bytes - bytes_written;
                    if paragraph_buf.len() <= remaining {
                        append_bytes(out, paragraph_buf.as_slice());
                        bytes_written = bytes_written + paragraph_buf.len();
                        proof {
                            assert(out@ =~= start + text_bytes(words@, next));
                            ps = next;
                        }
                    } else {
                        let end = floor_boundary(&paragraph_buf, remaining);
                        append_range(out, paragraph_buf.as_slice(), 0, end);
                        push_spaces(out, remaining - end);
                        proof {
                            let pre = text_bytes(words@, ps) + seq![10u8, 10u8];
                            valid_utf8_concat(text_bytes(words@, ps), seq![10u8, 10u8]);
                            lemma_char_floor_shift(pre, paragraph_bytes(words@, cur), remaining as int);
                            assert(text_bytes(words@, next) =~= pre + paragraph_bytes(words@, cur));
                            assert(pre.len() + remaining == target_bytes);
                            assert((pre + paragraph_bytes(words@, cur)).subrange(0, pre.len() + end) =~= pre
                                + paragraph_buf@.subrange(0, end as int));
                            assert(budget_cut(words@, next, target_bytes as nat) =~= pre
                                + paragraph_buf@.subrange(0, end as int));
                            assert(out@ =~= start + budget_fill(words@, next, target_bytes as nat));
                            assert(byte_budget_outcome(words@, cdf@, sum, target_bytes as nat, next));
                        }
                        return ;
                    }
                } else {
                    // Room for only the first byte of the paragraph break.
                    let limit = target_bytes - bytes_written;
                    assert(limit == 1);
                    out.push(10u8);
                    proof {
                        let full = text_bytes(words@, next);
                        let t = target_bytes as int;
                        assert(full[t] == 10u8);
                        vstd::utf8::is_char_boundary_iff_not_is_continuation_byte(full, t);
                        assert(char_floor(full, t) == t);
                        assert(out@ =~= start + budget_cut(words@, next, target_bytes as nat));
                        assert(budget_fill(words@, next, target_bytes as nat) =~= budget_cut(words@, next, target_bytes as nat));
                        assert(byte_budget_outcome(words@, cdf@, sum, target_bytes as nat, next));
                    }
                    return ;
                }
            }
        }
    }
    proof {
        let full = text_bytes(words@, ps);
        lemma_shape_punctuation(words@, cdf@, sum, ps);
        lemma_text_bytes_valid(words@, ps);
        vstd::utf8::is_char_boundary_start_end_of_seq(full);
        assert(char_floor(full, target_bytes as int) == target_bytes as int);
        assert(full.subrange(0, target_bytes as int) =~= full);
        assert(budget_fill(words@, ps, target_bytes as nat) =~= full);
        assert(byte_budget_outcome(words@, cdf@, sum, target_bytes as nat, ps));
    }
}

/// Generates one paragraph of the endless stream, preceded by a blank line
/// unless it is the first; the caller writes and flushes it, then asks for the next.
pub fn generate_infinite_paragraph(
    rng: &mut ChaCha8Rng,
    words: &[&str],
    cdf: &[u64],
    sum: u64,
    first_paragraph: bool,
    out: &mut Vec<u8>,
)
    requires
        usable_table(words@, cdf@, sum),
    ensures
        exists|p: Seq<(Seq<int>, i32)>|
            #[trigger] full_paragraph_shape(words@, cdf@, sum, p) && final(out)@ == old(out)@ + (
            if first_paragraph {
                Seq::<u8>::empty()
            } else {
                seq![10u8, 10u8]
            }) + paragraph_bytes(words@, p),
{
    let ghost start = out@;
    if !first_paragraph {
        out.push(10u8);
        out.push(10u8);
    }
    let ghost para_start = out@;
    let paragraph_sentences_count = random_i32_inclusive(rng, 3, 8);
    let ghost mut cur: Seq<(Seq<int>, i32)> = Seq::empty();
    let mut s_idx: i32 = 0;
    while s_idx < paragraph_sentences_count
        invariant
            usable_table(words@, cdf@, sum),
            3 <= paragraph_sentences_count <= 8,
            0 <= s_idx <= paragraph_sentences_count,
            cur.len() == s_idx,
            out@ == para_start + paragraph_bytes(words@, cur),
            forall|s: int|
                0 <= s < cur.len() ==> {
                    &&& drawn_sentence(words@, cdf@, sum, #[trigger] cur[s])
                    &&& 5 <= cur[s].0.len() <= 20
                },
        decreases paragraph_sentences_count - s_idx,
    {
        if s_idx > 0 {
            out.push(32u8);
        }
        let sentence_len = random_i32_inclusive(rng, 5, 20);
        let g = write_sentence(rng, words, cdf, sum, sentence_len as usize, out);
        proof {
            let next = cur.push(g@);
            assert(next.drop_last() =~= cur);
            if cur.len() == 0 {
                assert(paragraph_bytes(words@, cur) =~= Seq::<u8>::empty());
            }
            assert(paragraph_bytes(words@, next) =~= if cur.len() == 0 {
                sentence_bytes(words@, g@)
            } else {
                paragraph_bytes(words@, cur) + seq![32u8] + sentence_bytes(words@, g@)
            });
            cur = next;
        }
        s_idx = s_idx + 1;
    }
    assert(out@ =~= start + (if first_paragraph {
        Seq::<u8>::empty()
    } else {
        seq![10u8, 10u8]
    }) + paragraph_bytes(words@, cur));
    assert(full_paragraph_shape(words@, cdf@, sum, cur));
}


// ---------------------------------------------------------------------------
// Laws
// ---------------------------------------------------------------------------

/// Text generated to a byte budget is exactly the budget long and valid UTF-8:
/// the generated text up to the last character boundary within the budget,
/// then at most three spaces in place of a character that would straddle it.
pub proof fn law_budget_is_exact(
    words: Seq<&str>,
    cdf: Seq<u64>,
    sum: u64,
    target: nat,
    ps: Seq<Seq<(Seq<int>, i32)>>,
)
    requires
        byte_budget_outcome(words, cdf, sum, target, ps),
    ensures
        budget_fill(words, ps, target).len() == target,
        valid_utf8(budget_fill(words, ps, target)),
        budget_cut(words, ps, target).is_prefix_of(text_bytes(words, ps)),
        budget_cut(words, ps, target).is_prefix_of(budget_fill(words, ps, target)),
        target - budget_cut(words, ps, target).len() <= 3,
{
    let full = text_bytes(words, ps);
    lemma_shape_punctuation(words, cdf, sum, ps);
    lemma_text_bytes_valid(words, ps);
    lemma_char_floor_bounds(full, target as int);
    lemma_char_floor_near(full, target as int);
    let cut = char_floor(full, target as int);
    valid_utf8_split(full, cut);
    let c = budget_cut(words, ps, target);
    let pad = padding((target - c.len()) as nat);
    lemma_ascii_valid(pad);
    valid_utf8_concat(c, pad);
    assert(c.is_prefix_of(c + pad)) by {
        assert forall|i: int| 0 <= i < c.len() implies (c + pad)[i] == c[i] by {}
    }
}

// ---------------------------------------------------------------------------
// The text as characters, and its words
// ---------------------------------------------------------------------------

/// The characters of word `i` of the list, capitalized when it opens a sentence.
pub open spec fn word_chars(words: Seq<&str>, i: int, opening: bool) -> Seq<char> {
    if opening {
        capitalized(words[i]@)
    } else {
        words[i]@
    }
}

/// `words_bytes` as characters.
pub open spec fn words_chars(words: Seq<&str>, idxs: Seq<int>) -> Seq<char>
    decreases idxs.len(),
{
    if idxs.len() == 0 {
        seq![]
    } else if idxs.len() == 1 {
        word_chars(words, idxs[0], true)
    } else {
        words_chars(words, idxs.drop_last()) + seq![' '] + word_chars(words, idxs.last(), false)
    }
}

/// `sentence_bytes` as characters.
pub open spec fn sentence_chars(words: Seq<&str>, s: (Seq<int>, i32)) -> Seq<char> {
    words_chars(words, s.0).push(punctuation_of(s.1) as char)
}

/// `paragraph_bytes` as characters.
pub open spec fn paragraph_chars(words: Seq<&str>, p: Seq<(Seq<int>, i32)>) -> Seq<char>
    decreases p.len(),
{
    if p.len() == 0 {
        seq![]
    } else if p.len() == 1 {
        sentence_chars(words, p[0])
    } else {
        paragraph_chars(words, p.drop_last()) + seq![' '] + sentence_chars(words, p.last())
    }
}

/// `text_bytes` as characters.
pub open spec fn text_chars(words: Seq<&str>, ps: Seq<Seq<(Seq<int>, i32)>>) -> Seq<char>
    decreases ps.len(),
{
    if ps.len() == 0 {
        seq![]
    } else if ps.len() == 1 {
        paragraph_chars(words, ps[0])
    } else {
        text_chars(words, ps.drop_last()) + seq!['\n', '\n'] + paragraph_chars(words, ps.last())
    }
}

/// Every word of the list, capitalized or not, is non-empty and holds no whitespace.
pub open spec fn plain_words(words: Seq<&str>) -> bool {
    forall|i: int|
        0 <= i < words.len() ==> {
            &&& (#[trigger] words[i])@.len() > 0
            &&& no_whitespace(words[i]@)
            &&& capitalized(words[i]@).len() > 0
            &&& no_whitespace(capitalized(words[i]@))
        }
}

proof fn lemma_encode_join(a: Seq<char>, sep: Seq<char>, sep_bytes: Seq<u8>, b: Seq<char>)
    requires
        encode_utf8(sep) == sep_bytes,
    ensures
        encode_utf8(a + sep + b) == encode_utf8(a) + sep_bytes + encode_utf8(b),
{
    lemma_encode_utf8_concat(a, sep);
    lemma_encode_utf8_concat(a + sep, b);
}

proof fn lemma_ascii_separators()
    ensures
        encode_utf8(seq![' ']) == seq![32u8],
        encode_utf8(seq!['\n', '\n']) == seq![10u8, 10u8],
{
    assert((' ' as u32) == 32);
    assert(('\n' as u32) == 10);
    lemma_ascii_chars_encode(seq![' '], seq![32u8]);
    lemma_ascii_chars_encode(seq!['\n', '\n'], seq![10u8, 10u8]);
}

proof fn lemma_words_chars_encode(words: Seq<&str>, idxs: Seq<int>)
    ensures
        encode_utf8(words_chars(words, idxs)) == words_bytes(words, idxs),
    decreases idxs.len(),
{
    if idxs.len() == 0 {
        assert(encode_utf8(Seq::<char>::empty()) =~= Seq::<u8>::empty());
    } else if idxs.len() >= 2 {
        lemma_words_chars_encode(words, idxs.drop_last());
        lemma_ascii_separators();
        lemma_encode_join(
            words_chars(words, idxs.drop_last()),
            seq![' '],
            seq![32u8],
            word_chars(words, idxs.last(), false),
        );
    }
}

proof fn lemma_sentence_chars_encode(words: Seq<&str>, s: (Seq<int>, i32))
    requires
        is_punctuation(punctuation_of(s.1)),
    ensures
        encode_utf8(sentence_chars(words, s)) == sentence_bytes(words, s),
{
    lemma_words_chars_encode(words, s.0);
    assert((punctuation_of(s.1) as char) as u32 == punctuation_of(s.1) as u32);
    lemma_ascii_chars_encode(seq![punctuation_of(s.1) as char], seq![punctuation_of(s.1)]);
    lemma_encode_utf8_concat(words_chars(words, s.0), seq![punctuation_of(s.1) as char]);
    assert(words_chars(words, s.0).push(punctuation_of(s.1) as char) =~= words_chars(words, s.0) + seq![punctuation_of(s.1) as char]);
    assert(words_bytes(words, s.0).push(punctuation_of(s.1)) =~= words_bytes(words, s.0) + seq![punctuation_of(s.1)]);
}

proof fn lemma_paragraph_chars_encode(words: Seq<&str>, p: Seq<(Seq<int>, i32)>)
    requires
        forall|s: int| 0 <= s < p.len() ==> is_punctuation(#[trigger] punctuation_of(p[s].1)),
    ensures
        encode_utf8(paragraph_chars(words, p)) == paragraph_bytes(words, p),
    decreases p.len(),
{
    if p.len() == 0 {
        assert(encode_utf8(Seq::<char>::empty()) =~= Seq::<u8>::empty());
    } else if p.len() == 1 {
        lemma_sentence_chars_encode(words, p[0]);
    } else {
        let init = p.drop_last();
        assert forall|s: int| 0 <= s < init.len() implies is_punctuation(#[trigger] punctuation_of(init[s].1)) by {
            assert(init[s] == p[s]);
        }
        lemma_paragraph_chars_encode(words, init);
        lemma_sentence_chars_encode(words, p.last());
        lemma_ascii_separators();
        lemma_encode_join(paragraph_chars(words, init), seq![' '], seq![32u8], sentence_chars(words, p.last()));
    }
}

proof fn lemma_text_chars_encode(words: Seq<&str>, ps: Seq<Seq<(Seq<int>, i32)>>)
    requires
        forall|p: int, s: int|
            0 <= p < ps.len() && 0 <= s < ps[p].len() ==> is_punctuation(#[trigger] punctuation_of(ps[p][s].1)),
    ensures
        encode_utf8(text_chars(words, ps)) == text_bytes(words, ps),
    decreases ps.len(),
{
    if ps.len() == 0 {
        assert(encode_utf8(Seq::<char>::empty()) =~= Seq::<u8>::empty());
    } else {
        let last = ps.last();
        assert forall|s: int| 0 <= s < last.len() implies is_punctuation(#[trigger] punctuation_of(last[s].1)) by {
            assert(ps[ps.len() - 1][s] == last[s]);
        }
        lemma_paragraph_chars_encode(words, last);
        if ps.len() >= 2 {
            let init = ps.drop_last();
            assert forall|p: int, s: int|
                0 <= p < init.len() && 0 <= s < init[p].len() implies is_punctuation(
                #[trigger] punctuation_of(init[p][s].1),
            ) by {
                assert(init[p] == ps[p]);
            }
            lemma_text_chars_encode(words, init);
            lemma_ascii_separators();
            lemma_encode_join(text_chars(words, init), seq!['\n', '\n'], seq![10u8, 10u8], paragraph_chars(words, last));
        }
    }
}

proof fn lemma_no_whitespace_concat(a: Seq<char>, b: Seq<char>)
    requires
        no_whitespace(a),
        no_whitespace(b),
    ensures
        no_whitespace(a + b),
{
    assert forall|i: int| 0 <= i < (a + b).len() implies !crate::layout::is_whitespace(#[trigger] (a + b)[i]) by {
        if i < a.len() {
            assert((a + b)[i] == a[i]);
        } else {
            assert((a + b)[i] == b[i - a.len()]);
        }
    }
}

/// Followed by characters without whitespace, the words of a sentence stay as many.
proof fn lemma_words_chars_count(words: Seq<&str>, idxs: Seq<int>, tail: Seq<char>)
    requires
        plain_words(words),
        idxs.len() >= 1,
        forall|k: int| 0 <= k < idxs.len() ==> 0 <= #[trigger] idxs[k] < words.len(),
        no_whitespace(tail),
    ensures
        words_of(words_chars(words, idxs) + tail).len() == idxs.len(),
    decreases idxs.len(),
{
    let last = idxs.last();
    assert(0 <= last < words.len()) by {
        assert(idxs[idxs.len() - 1] == last);
    }
    assert(words[last]@.len() > 0 && no_whitespace(words[last]@) && capitalized(words[last]@).len() > 0
        && no_whitespace(capitalized(words[last]@)));
    if idxs.len() == 1 {
        let w = word_chars(words, idxs[0], true);
        lemma_no_whitespace_concat(w, tail);
        lemma_words_of_word(w + tail);
    } else {
        let init = idxs.drop_last();
        assert forall|k: int| 0 <= k < init.len() implies 0 <= #[trigger] init[k] < words.len() by {
            assert(init[k] == idxs[k]);
        }
        let w = word_chars(words, last, false);
        lemma_no_whitespace_concat(w, tail);
        lemma_words_chars_count(words, init, seq![]);
        assert(words_chars(words, init) + Seq::<char>::empty() =~= words_chars(words, init));
        assert(words_chars(words, idxs) + tail =~= words_chars(words, init) + seq![' '] + (w + tail));
        assert(crate::layout::is_whitespace(' ')) by {
            assert((' ' as u32) == 0x20);
        }
        lemma_words_of_around(words_chars(words, init), ' ', w + tail);
        lemma_words_of_word(w + tail);
    }
}

/// A sentence of drawn words that ends in punctuation.
pub open spec fn counted_sentence(words: Seq<&str>, s: (Seq<int>, i32)) -> bool {
    &&& is_punctuation(punctuation_of(s.1))
    &&& s.0.len() >= 1
    &&& forall|k: int| 0 <= k < s.0.len() ==> 0 <= #[trigger] s.0[k] < words.len()
}

proof fn lemma_sentence_count(words: Seq<&str>, s: (Seq<int>, i32))
    requires
        plain_words(words),
        counted_sentence(words, s),
    ensures
        words_of(sentence_chars(words, s)).len() == s.0.len(),
{
    let p = punctuation_of(s.1) as char;
    assert(!crate::layout::is_whitespace(p)) by {
        assert(p as u32 == punctuation_of(s.1) as u32);
    }
    assert(no_whitespace(seq![p]));
    lemma_words_chars_count(words, s.0, seq![p]);
    assert(words_chars(words, s.0).push(p) =~= words_chars(words, s.0) + seq![p]);
}

proof fn lemma_paragraph_count(words: Seq<&str>, p: Seq<(Seq<int>, i32)>)
    requires
        plain_words(words),
        forall|s: int| 0 <= s < p.len() ==> counted_sentence(words, #[trigger] p[s]),
    ensures
        words_of(paragraph_chars(words, p)).len() == paragraph_words(p),
    decreases p.len(),
{
    if p.len() == 0 {
        lemma_words_of_empty();
        assert(paragraph_chars(words, p) =~= Seq::<char>::empty());
    } else if p.len() == 1 {
        lemma_sentence_count(words, p[0]);
        assert(p.drop_last() =~= Seq::<(Seq<int>, i32)>::empty());
        assert(paragraph_words(p.drop_last()) == 0);
    } else {
        let init = p.drop_last();
        assert forall|s: int| 0 <= s < init.len() implies counted_sentence(words, #[trigger] init[s]) by {
            assert(init[s] == p[s]);
        }
        lemma_paragraph_count(words, init);
        lemma_sentence_count(words, p.last());
        assert(crate::layout::is_whitespace(' ')) by {
            assert((' ' as u32) == 0x20);
        }
        lemma_words_of_around(paragraph_chars(words, init), ' ', sentence_chars(words, p.last()));
    }
}

proof fn lemma_text_count(words: Seq<&str>, ps: Seq<Seq<(Seq<int>, i32)>>)
    requires
        plain_words(words),
        forall|p: int, s: int|
            0 <= p < ps.len() && 0 <= s < ps[p].len() ==> counted_sentence(words, #[trigger] ps[p][s]),
    ensures
        words_of(text_chars(words, ps)).len() == text_words(ps),
    decreases ps.len(),
{
    if ps.len() == 0 {
        lemma_words_of_empty();
    } else {
        let last = ps.last();
        assert forall|s: int| 0 <= s < last.len() implies counted_sentence(words, #[trigger] last[s]) by {
            assert(ps[ps.len() - 1][s] == last[s]);
        }
        lemma_paragraph_count(words, last);
        if ps.len() == 1 {
            assert(ps.drop_last() =~= Seq::<Seq<(Seq<int>, i32)>>::empty());
            assert(text_words(ps.drop_last()) == 0);
        } else {
            let init = ps.drop_last();
            assert forall|p: int, s: int|
                0 <= p < init.len() && 0 <= s < init[p].len() implies counted_sentence(
                words,
                #[trigger] init[p][s],
            ) by {
                assert(init[p] == ps[p]);
            }
            lemma_text_count(words, init);
            let a = text_chars(words, init);
            let b = paragraph_chars(words, last);
            assert(crate::layout::is_whitespace('\n')) by {
                assert(('\n' as u32) == 0xa);
            }
            assert(a + seq!['\n', '\n'] + b =~= a + seq!['\n'] + (Seq::<char>::empty() + seq!['\n'] + b));
            lemma_words_of_around(Seq::<char>::empty(), '\n', b);
            lemma_words_of_around(a, '\n', Seq::<char>::empty() + seq!['\n'] + b);
            lemma_words_of_empty();
        }
    }
}

/// Text generated to a word count, read back as a string and split at
/// whitespace (as `str::split_whitespace` does), has exactly the asked number
/// of words, provided the listed words, capitalized or not, are non-empty and
/// hold no whitespace.
pub proof fn law_word_count_by_whitespace(
    words: Seq<&str>,
    cdf: Seq<u64>,
    sum: u64,
    target: nat,
    ps: Seq<Seq<(Seq<int>, i32)>>,
)
    requires
        word_count_outcome(words, cdf, sum, target, ps),
        plain_words(words),
    ensures
        words_of(decode_utf8(text_bytes(words, ps))).len() == target,
{
    assert forall|p: int, s: int|
        0 <= p < ps.len() && 0 <= s < ps[p].len() implies counted_sentence(words, #[trigger] ps[p][s]) by {
        assert(1 <= ps[p].len() <= 8);
        assert(drawn_sentence(words, cdf, sum, ps[p][s]));
    }
    lemma_text_count(words, ps);
    lemma_text_chars_encode(words, ps);
    encode_utf8_decode_utf8(text_chars(words, ps));
}

// ---------------------------------------------------------------------------
// ASCII word lists
// ---------------------------------------------------------------------------

/// Every character is ASCII.
pub open spec fn ascii_text(s: Seq<char>) -> bool {
    forall|i: int| 0 <= i < s.len() ==> ((#[trigger] s[i]) as u32) < 128
}

/// Every word of the list is ASCII.
pub open spec fn ascii_words(words: Seq<&str>) -> bool {
    forall|i: int| 0 <= i < words.len() ==> ascii_text((#[trigger] words[i])@)
}

/// Every word of the list is non-empty, holds no whitespace, and starts with
/// an ASCII character.
pub open spec fn ascii_initial_words(words: Seq<&str>) -> bool {
    forall|i: int|
        0 <= i < words.len() ==> {
            &&& (#[trigger] words[i])@.len() > 0
            &&& no_whitespace(words[i]@)
            &&& (words[i]@[0] as u32) < 128
        }
}

proof fn lemma_ascii_upper(c: char)
    requires
        (c as u32) < 128,
    ensures
        (ascii_upper(c) as u32) < 128,
        !crate::layout::is_whitespace(c) ==> !crate::layout::is_whitespace(ascii_upper(c)),
{
    if 'a' <= c && c <= 'z' {
        let u = (c as u32) - 32;
        assert(65 <= u <= 90);
        assert((u as char) as u32 == u);
    }
}

proof fn lemma_ascii_text_concat(a: Seq<char>, b: Seq<char>)
    requires
        ascii_text(a),
        ascii_text(b),
    ensures
        ascii_text(a + b),
{
    assert forall|i: int| 0 <= i < (a + b).len() implies (((#[trigger] (a + b)[i]) as u32) < 128) by {
        if i < a.len() {
            assert((a + b)[i] == a[i]);
        } else {
            assert((a + b)[i] == b[i - a.len()]);
        }
    }
}

proof fn lemma_capitalized_ascii(w: Seq<char>)
    requires
        ascii_text(w),
    ensures
        ascii_text(capitalized(w)),
{
    if w.len() > 0 {
        lemma_ascii_upper(w[0]);
        assert(ascii_text(w.drop_first())) by {
            assert forall|i: int| 0 <= i < w.drop_first().len() implies ((#[trigger] w.drop_first()[i])
                as u32) < 128 by {
                assert(w.drop_first()[i] == w[i + 1]);
            }
        }
        lemma_ascii_text_concat(seq![ascii_upper(w[0])], w.drop_first());
    }
}

proof fn lemma_separators_ascii()
    ensures
        ascii_text(seq![' ']),
        ascii_text(seq!['\n', '\n']),
{
    assert((' ' as u32) == 32);
    assert(('\n' as u32) == 10);
}

proof fn lemma_words_chars_ascii(words: Seq<&str>, idxs: Seq<int>)
    requires
        ascii_words(words),
        forall|k: int| 0 <= k < idxs.len() ==> 0 <= #[trigger] idxs[k] < words.len(),
    ensures
        ascii_text(words_chars(words, idxs)),
    decreases idxs.len(),
{
    if idxs.len() == 1 {
        assert(ascii_text(words[idxs[0]]@));
        lemma_capitalized_ascii(words[idxs[0]]@);
    } else if idxs.len() >= 2 {
        let init = idxs.drop_last();
        assert forall|k: int| 0 <= k < init.len() implies 0 <= #[trigger] init[k] < words.len() by {
            assert(init[k] == idxs[k]);
        }
        lemma_words_chars_ascii(words, init);
        assert(0 <= idxs.last() < words.len()) by {
            assert(idxs[idxs.len() - 1] == idxs.last());
        }
        assert(ascii_text(words[idxs.last()]@));
        lemma_separators_ascii();
        lemma_ascii_text_concat(words_chars(words, init), seq![' ']);
        lemma_ascii_text_concat(words_chars(words, init) + seq![' '], words[idxs.last()]@);
    }
}

proof fn lemma_sentence_chars_ascii(words: Seq<&str>, s: (Seq<int>, i32))
    requires
        ascii_words(words),
        counted_sentence(words, s),
    ensures
        ascii_text(sentence_chars(words, s)),
{
    lemma_words_chars_ascii(words, s.0);
    assert((punctuation_of(s.1) as char) as u32 == punctuation_of(s.1) as u32);
    lemma_ascii_text_concat(words_chars(words, s.0), seq![punctuation_of(s.1) as char]);
    assert(words_chars(words, s.0).push(punctuation_of(s.1) as char) =~= words_chars(words, s.0) + seq![punctuation_of(s.1) as char]);
}

proof fn lemma_paragraph_chars_ascii(words: Seq<&str>, p: Seq<(Seq<int>, i32)>)
    requires
        ascii_words(words),
        forall|s: int| 0 <= s < p.len() ==> counted_sentence(words, #[trigger] p[s]),
    ensures
        ascii_text(paragraph_chars(words, p)),
    decreases p.len(),
{
    if p.len() == 1 {
        lemma_sentence_chars_ascii(words, p[0]);
    } else if p.len() >= 2 {
        let init = p.drop_last();
        assert forall|s: int| 0 <= s < init.len() implies counted_sentence(words, #[trigger] init[s]) by {
            assert(init[s] == p[s]);
        }
        lemma_paragraph_chars_ascii(words, init);
        lemma_sentence_chars_ascii(words, p.last());
        lemma_separators_ascii();
        lemma_ascii_text_concat(paragraph_chars(words, init), seq![' ']);
        lemma_ascii_text_concat(paragraph_chars(words, init) + seq![' '], sentence_chars(words, p.last()));
    }
}

proof fn lemma_text_chars_ascii(words: Seq<&str>, ps: Seq<Seq<(Seq<int>, i32)>>)
    requires
        ascii_words(words),
        forall|p: int, s: int|
            0 <= p < ps.len() && 0 <= s < ps[p].len() ==> counted_sentence(words, #[trigger] ps[p][s]),
    ensures
        ascii_text(text_chars(words, ps)),
    decreases ps.len(),
{
    if ps.len() >= 1 {
        let last = ps.last();
        assert forall|s: int| 0 <= s < last.len() implies counted_sentence(words, #[trigger] last[s]) by {
            assert(ps[ps.len() - 1][s] == last[s]);
        }
        lemma_paragraph_chars_ascii(words, last);
        if ps.len() >= 2 {
            let init = ps.drop_last();
            assert forall|p: int, s: int|
                0 <= p < init.len() && 0 <= s < init[p].len() implies counted_sentence(
                words,
                #[trigger] init[p][s],
            ) by {
                assert(init[p] == ps[p]);
            }
            lemma_text_chars_ascii(words, init);
            lemma_separators_ascii();
            lemma_ascii_text_concat(text_chars(words, init), seq!['\n', '\n']);
            lemma_ascii_text_concat(text_chars(words, init) + seq!['\n', '\n'], paragraph_chars(words, last));
        }
    }
}

proof fn lemma_ascii_encode(cs: Seq<char>)
    requires
        ascii_text(cs),
    ensures
        forall|j: int| 0 <= j < encode_utf8(cs).len() ==> #[trigger] encode_utf8(cs)[j] < 0x80,
{
    let b = Seq::new(cs.len(), |i: int| (cs[i] as u32) as u8);
    assert forall|i: int| 0 <= i < b.len() implies #[trigger] b[i] < 0x80 && (cs[i] as u32) == b[i] as u32 by {
        assert((cs[i] as u32) < 128);
    }
    lemma_ascii_chars_encode(cs, b);
}

/// Generated text of a sentence-shaped model has only ASCII characters when
/// all the listed words are ASCII.
proof fn lemma_budget_text_ascii(
    words: Seq<&str>,
    cdf: Seq<u64>,
    sum: u64,
    ps: Seq<Seq<(Seq<int>, i32)>>,
)
    requires
        byte_budget_shape(words, cdf, sum, ps),
        ascii_words(words),
    ensures
        forall|i: int| 0 <= i < text_bytes(words, ps).len() ==> #[trigger] text_bytes(words, ps)[i] < 0x80,
{
    assert forall|p: int, s: int|
        0 <= p < ps.len() && 0 <= s < ps[p].len() implies counted_sentence(words, #[trigger] ps[p][s]) by {
        assert(1 <= ps[p].len() <= 8);
        assert(drawn_sentence(words, cdf, sum, ps[p][s]));
    }
    lemma_text_chars_ascii(words, ps);
    lemma_shape_punctuation(words, cdf, sum, ps);
    lemma_text_chars_encode(words, ps);
    lemma_ascii_encode(text_chars(words, ps));
}

/// With an ASCII word list no padding is ever needed: text generated to a
/// byte budget is exactly the first `target` bytes of the generated text.
pub proof fn law_budget_exact_for_ascii_words(
    words: Seq<&str>,
    cdf: Seq<u64>,
    sum: u64,
    target: nat,
    ps: Seq<Seq<(Seq<int>, i32)>>,
)
    requires
        byte_budget_outcome(words, cdf, sum, target, ps),
        ascii_words(words),
    ensures
        budget_fill(words, ps, target) == text_bytes(words, ps).subrange(0, target as int),
{
    lemma_budget_text_ascii(words, cdf, sum, ps);
    law_budget_exact_for_ascii(words, cdf, sum, target, ps);
}

/// Words that start with an ASCII character keep no whitespace once capitalized.
proof fn lemma_ascii_initials_are_plain(words: Seq<&str>)
    requires
        ascii_initial_words(words),
    ensures
        plain_words(words),
{
    assert forall|i: int| 0 <= i < words.len() implies {
        &&& (#[trigger] words[i])@.len() > 0
        &&& no_whitespace(words[i]@)
        &&& capitalized(words[i]@).len() > 0
        &&& no_whitespace(capitalized(words[i]@))
    } by {
        let w = words[i]@;
        assert(!crate::layout::is_whitespace(w[0]));
        lemma_ascii_upper(w[0]);
        assert forall|j: int| 0 <= j < capitalized(w).len() implies !crate::layout::is_whitespace(
            #[trigger] capitalized(w)[j],
        ) by {
            if j > 0 {
                assert(capitalized(w)[j] == w[j]);
            }
        }
    }
}

/// Text generated to a word count from words that are non-empty, free of
/// whitespace and start with an ASCII character has, split at whitespace,
/// exactly the asked number of words.
pub proof fn law_word_count_for_ascii_initials(
    words: Seq<&str>,
    cdf: Seq<u64>,
    sum: u64,
    target: nat,
    ps: Seq<Seq<(Seq<int>, i32)>>,
)
    requires
        word_count_outcome(words, cdf, sum, target, ps),
        ascii_initial_words(words),
    ensures
        words_of(decode_utf8(text_bytes(words, ps))).len() == target,
{
    lemma_ascii_initials_are_plain(words);
    law_word_count_by_whitespace(words, cdf, sum, target, ps);
}

/// When the generated text is plain ASCII, no padding is needed: the bytes
/// written are the first `target` bytes of the text.
pub proof fn law_budget_exact_for_ascii(
    words: Seq<&str>,
    cdf: Seq<u64>,
    sum: u64,
    target: nat,
    ps: Seq<Seq<(Seq<int>, i32)>>,
)
    requires
        byte_budget_outcome(words, cdf, sum, target, ps),
        forall|i: int| 0 <= i < text_bytes(words, ps).len() ==> #[trigger] text_bytes(words, ps)[i] < 0x80,
    ensures
        budget_fill(words, ps, target) == text_bytes(words, ps).subrange(0, target as int),
{
    lemma_char_floor_ascii(text_bytes(words, ps), target as int);
    assert(budget_fill(words, ps, target) =~= text_bytes(words, ps).subrange(0, target as int));
}

/// Text generated to a word count holds that many words, in sentences of at
/// most 20 words and paragraphs of at most 8 sentences.
pub proof fn law_word_count_matches(
    words: Seq<&str>,
    cdf: Seq<u64>,
    sum: u64,
    target: nat,
    ps: Seq<Seq<(Seq<int>, i32)>>,
)
    requires
        word_count_outcome(words, cdf, sum, target, ps),
    ensures
        text_words(ps) == target,
        forall|p: int, s: int|
            0 <= p < ps.len() && 0 <= s < ps[p].len() ==> 1 <= (#[trigger] ps[p][s]).0.len() <= 20,
        forall|p: int| 0 <= p < ps.len() ==> (#[trigger] ps[p]).len() <= 8,
{
    assert forall|p: int, s: int|
        0 <= p < ps.len() && 0 <= s < ps[p].len() implies 1 <= (#[trigger] ps[p][s]).0.len() <= 20 by {
        assert(1 <= ps[p].len() <= 8);
    }
}

} // verus!
