use crate::textutil::chars_of;
use vstd::prelude::*;

verus! {

/// The Windows-1252 byte of a code point above U+00FF, where the code page has one.
pub open spec fn cp1252_high(u: u32) -> Option<u8> {
    match u {
        0x20ac => Some(128u8),
        0x201a => Some(130u8),
        0x0192 => Some(131u8),
        0x201e => Some(132u8),
        0x2026 => Some(133u8),
        0x2020 => Some(134u8),
        0x2021 => Some(135u8),
        0x02c6 => Some(136u8),
        0x2030 => Some(137u8),
        0x0160 => Some(138u8),
        0x2039 => Some(139u8),
        0x0152 => Some(140u8),
        0x017d => Some(142u8),
        0x2018 => Some(145u8),
        0x2019 => Some(146u8),
        0x201c => Some(147u8),
        0x201d => Some(148u8),
        0x2022 => Some(149u8),
        0x2013 => Some(150u8),
        0x2014 => Some(151u8),
        0x02dc => Some(152u8),
        0x2122 => Some(153u8),
        0x0161 => Some(154u8),
        0x203a => Some(155u8),
        0x0153 => Some(156u8),
        0x017e => Some(158u8),
        0x0178 => Some(159u8),
        _ => None,
    }
}

/// The byte that encodes `c` in the PDF's WinAnsi (Windows-1252) font encoding:
/// code points up to U+00FF are their own byte, a few others have a slot in 128..160.
pub open spec fn cp1252_of(c: char) -> Option<u8> {
    if (c as u32) < 256 {
        Some((c as u32) as u8)
    } else {
        cp1252_high(c as u32)
    }
}

/// The byte written for `c`: its Windows-1252 byte, or `?` where it has none.
pub open spec fn cp1252_or_question(c: char) -> u8 {
    match cp1252_of(c) {
        Some(b) => b,
        None => 63u8,
    }
}

/// A byte as it appears inside a PDF literal string: `(`, `)` and `\` get a backslash.
pub open spec fn escaped_byte(b: u8) -> Seq<u8> {
    if b == 40 || b == 41 || b == 92 {
        seq![92u8, b]
    } else {
        seq![b]
    }
}

/// The escaped Windows-1252 bytes of a character sequence.
pub open spec fn escaped_chars(cs: Seq<char>) -> Seq<u8>
    decreases cs.len(),
{
    if cs.len() == 0 {
        seq![]
    } else {
        escaped_chars(cs.drop_last()) + escaped_byte(cp1252_or_question(cs.last()))
    }
}

/// The Windows-1252 bytes of a character sequence, before escaping.
pub open spec fn cp1252_bytes(cs: Seq<char>) -> Seq<u8>
    decreases cs.len(),
{
    if cs.len() == 0 {
        seq![]
    } else {
        cp1252_bytes(cs.drop_last()).push(cp1252_or_question(cs.last()))
    }
}

/// Reading a PDF literal string body back: a backslash takes the next byte as it is.
pub open spec fn unescaped(bs: Seq<u8>) -> Seq<u8>
    decreases bs.len(),
{
    if bs.len() == 0 {
        seq![]
    } else if bs[0] == 92 && bs.len() >= 2 {
        seq![bs[1]] + unescaped(bs.subrange(2, bs.len() as int))
    } else {
        seq![bs[0]] + unescaped(bs.drop_first())
    }
}

/// The code point that byte `b` stands for in the Windows-1252 code page
/// (bytes 129, 141, 143, 144 and 157 are undefined there).
pub open spec fn windows_1252_code_point(b: u8) -> Option<u32> {
    if b < 128 || b >= 160 {
        Some(b as u32)
    } else if b == 128 { Some(0x20ACu32)
    } else if b == 130 { Some(0x201Au32)
    } else if b == 131 { Some(0x0192u32)
    } else if b == 132 { Some(0x201Eu32)
    } else if b == 133 { Some(0x2026u32)
    } else if b == 134 { Some(0x2020u32)
    } else if b == 135 { Some(0x2021u32)
    } else if b == 136 { Some(0x02C6u32)
    } else if b == 137 { Some(0x2030u32)
    } else if b == 138 { Some(0x0160u32)
    } else if b == 139 { Some(0x2039u32)
    } else if b == 140 { Some(0x0152u32)
    } else if b == 142 { Some(0x017Du32)
    } else if b == 145 { Some(0x2018u32)
    } else if b == 146 { Some(0x2019u32)
    } else if b == 147 { Some(0x201Cu32)
    } else if b == 148 { Some(0x201Du32)
    } else if b == 149 { Some(0x2022u32)
    } else if b == 150 { Some(0x2013u32)
    } else if b == 151 { Some(0x2014u32)
    } else if b == 152 { Some(0x02DCu32)
    } else if b == 153 { Some(0x2122u32)
    } else if b == 154 { Some(0x0161u32)
    } else if b == 155 { Some(0x203Au32)
    } else if b == 156 { Some(0x0153u32)
    } else if b == 158 { Some(0x017Eu32)
    } else if b == 159 { Some(0x0178u32)
    } else {
        None
    }
}

/// The encoding is the Windows-1252 code page: every character that the code
/// page gives a byte is encoded as that byte, and every byte the encoder gives
/// stands for that character in the code page. The one exception is kept from
/// the encoder's rule "code points below 256 are their own byte": the C1
/// control characters U+0080..U+009F come out as bytes 128..159.
pub proof fn law_cp1252_is_the_code_page(c: char, b: u8)
    ensures
        windows_1252_code_point(b) == Some(c as u32) ==> cp1252_of(c) == Some(b),
        cp1252_of(c) == Some(b) && !(0x80 <= c as u32 <= 0x9f) ==> windows_1252_code_point(b) == Some(
            c as u32,
        ),
{
    if windows_1252_code_point(b) == Some(c as u32) {
        if b < 128 || b >= 160 {
            assert((c as u32) < 256);
            assert(((c as u32) as u8) == b);
        }
    }
    if cp1252_of(c) == Some(b) && !(0x80 <= c as u32 <= 0x9f) {
        if (c as u32) < 256 {
            assert(b as u32 == c as u32);
        }
    }
}

/// Encodes one character as Windows-1252.
pub fn encode_cp1252_char(c: char) -> (r: Option<u8>)
    ensures
        r == cp1252_of(c),
{
    let u = c as u32;
    if u < 256 {
        Some(u as u8)
    } else {
        match u {
            0x20ac => Some(128u8),
            0x201a => Some(130u8),
            0x0192 => Some(131u8),
            0x201e => Some(132u8),
            0x2026 => Some(133u8),
            0x2020 => Some(134u8),
            0x2021 => Some(135u8),
            0x02c6 => Some(136u8),
            0x2030 => Some(137u8),
            0x0160 => Some(138u8),
            0x2039 => Some(139u8),
            0x0152 => Some(140u8),
            0x017d => Some(142u8),
            0x2018 => Some(145u8),
            0x2019 => Some(146u8),
            0x201c => Some(147u8),
            0x201d => Some(148u8),
            0x2022 => Some(149u8),
            0x2013 => Some(150u8),
            0x2014 => Some(151u8),
            0x02dc => Some(152u8),
            0x2122 => Some(153u8),
            0x0161 => Some(154u8),
            0x203a => Some(155u8),
            0x0153 => Some(156u8),
            0x017e => Some(158u8),
            0x0178 => Some(159u8),
            _ => None,
        }
    }
}

/// Appends the escaped Windows-1252 bytes of `cs` to `out`.
pub fn escape_chars_into(cs: &Vec<char>, out: &mut Vec<u8>)
    ensures
        final(out)@ == old(out)@ + escaped_chars(cs@),
{
    let ghost start = out@;
    let mut i: usize = 0;
    while i < cs.len()
        invariant
            i <= cs@.len(),
            out@ == start + escaped_chars(cs@.take(i as int)),
        decreases cs.len() - i,
    {
        let b = match encode_cp1252_char(cs[i]) {
            Some(b) => b,
            None => 63u8,
        };
        if b == 40u8 {
            out.push(92u8);
            out.push(40u8);
        } else if b == 41u8 {
            out.push(92u8);
            out.push(41u8);
        } else if b == 92u8 {
            out.push(92u8);
            out.push(92u8);
        } else {
            out.push(b);
        }
        proof {
            assert(cs@.take(i + 1).drop_last() =~= cs@.take(i as int));
            assert(out@ =~= start + escaped_chars(cs@.take(i + 1)));
        }
        i = i + 1;
    }
    assert(cs@.take(i as int) =~= cs@);
}

/// Encodes a string for a PDF literal string: Windows-1252 bytes (`?` for
/// characters outside the code page) with `(`, `)` and `\` escaped.
pub fn escape_pdf_string(s: &str) -> (bytes: Vec<u8>)
    ensures
        bytes@ == escaped_chars(s@),
{
    let cs = chars_of(s);
    let mut bytes: Vec<u8> = Vec::new();
    escape_chars_into(&cs, &mut bytes);
    assert(bytes@ =~= escaped_chars(s@));
    bytes
}

/// Unescaping undoes escaping: `unescaped(a + b)` splits at a boundary between escaped bytes.
proof fn lemma_unescaped_concat(a: Seq<u8>, b: u8)
    ensures
        unescaped(escaped_chars_bytes(a) + escaped_byte(b)) == unescaped(escaped_chars_bytes(a)) + seq![b],
    decreases a.len(),
{
    lemma_unescaped_split(escaped_chars_bytes(a), escaped_byte(b));
    if b == 40 || b == 41 || b == 92 {
        let e = escaped_byte(b);
        assert(e.subrange(2, 2) =~= Seq::<u8>::empty());
        assert(unescaped(e) =~= seq![b] + unescaped(Seq::<u8>::empty()));
    } else {
        let e = escaped_byte(b);
        assert(e.drop_first() =~= Seq::<u8>::empty());
        assert(unescaped(e) =~= seq![b] + unescaped(Seq::<u8>::empty()));
    }
}

/// Escaping of a byte string (the character-free core of `escaped_chars`).
pub open spec fn escaped_chars_bytes(bs: Seq<u8>) -> Seq<u8>
    decreases bs.len(),
{
    if bs.len() == 0 {
        seq![]
    } else {
        escaped_chars_bytes(bs.drop_last()) + escaped_byte(bs.last())
    }
}

/// Escaped text parses as a sequence of whole escape units, so unescaping splits after any of them.
proof fn lemma_unescaped_split(a: Seq<u8>, e: Seq<u8>)
    requires
        exists|bs: Seq<u8>| a == escaped_chars_bytes(bs),
    ensures
        unescaped(a + e) == unescaped(a) + unescaped(e),
    decreases a.len(),
{
    let bs = choose|bs: Seq<u8>| a == escaped_chars_bytes(bs);
    lemma_escaped_front(bs);
    if a.len() == 0 {
        assert(a + e =~= e);
    } else {
        let f = bs[0];
        let rest = escaped_chars_bytes(bs.drop_first());
        assert(a == escaped_byte(f) + rest);
        if f == 40 || f == 41 || f == 92 {
            assert((a + e).subrange(2, (a + e).len() as int) =~= rest + e);
            assert(a.subrange(2, a.len() as int) =~= rest);
        } else {
            assert((a + e).drop_first() =~= rest + e);
            assert(a.drop_first() =~= rest);
        }
        lemma_unescaped_split(rest, e);
    }
}

/// Escaping can also be read from the front.
proof fn lemma_escaped_front(bs: Seq<u8>)
    ensures
        bs.len() == 0 ==> escaped_chars_bytes(bs).len() == 0,
        bs.len() > 0 ==> escaped_chars_bytes(bs) == escaped_byte(bs[0]) + escaped_chars_bytes(
            bs.drop_first(),
        ),
    decreases bs.len(),
{
    if bs.len() > 1 {
        lemma_escaped_front(bs.drop_last());
        assert(bs.drop_last().drop_first() =~= bs.drop_first().drop_last());
        assert(bs.drop_last()[0] == bs[0]);
        assert(bs.drop_first().last() == bs.last());
    } else if bs.len() == 1 {
        assert(bs.drop_last() =~= Seq::<u8>::empty());
        assert(bs.drop_first() =~= Seq::<u8>::empty());
    }
}

/// Escaped characters are the escaping of their Windows-1252 bytes.
proof fn lemma_escaped_chars_is_bytes(cs: Seq<char>)
    ensures
        escaped_chars(cs) == escaped_chars_bytes(cp1252_bytes(cs)),
    decreases cs.len(),
{
    if cs.len() > 0 {
        lemma_escaped_chars_is_bytes(cs.drop_last());
        let b = cp1252_bytes(cs);
        assert(b.drop_last() =~= cp1252_bytes(cs.drop_last()));
    }
}

/// Reading an escaped string back gives the Windows-1252 bytes of the text:
/// escaping loses nothing and adds nothing.
pub proof fn lemma_unescape_escape(cs: Seq<char>)
    ensures
        unescaped(escaped_chars(cs)) == cp1252_bytes(cs),
    decreases cs.len(),
{
    lemma_escaped_chars_is_bytes(cs);
    lemma_unescape_escape_bytes(cp1252_bytes(cs));
}

proof fn lemma_unescape_escape_bytes(bs: Seq<u8>)
    ensures
        unescaped(escaped_chars_bytes(bs)) == bs,
    decreases bs.len(),
{
    if bs.len() == 0 {
    } else {
        lemma_unescape_escape_bytes(bs.drop_last());
        lemma_unescaped_concat(bs.drop_last(), bs.last());
        assert(bs.drop_last().push(bs.last()) =~= bs);
    }
}

} // verus!
