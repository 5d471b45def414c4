use dutch_gen::cp1252::{encode_cp1252_char, escape_pdf_string};
use dutch_gen::layout::{layout_lines, paginate, split_paragraphs, split_words};
use dutch_gen::pdf::{generate_pdf, PdfWriter};

#[test]
fn test_encode_cp1252() {
    assert_eq!(encode_cp1252_char('a'), Some(b'a'));
    assert_eq!(encode_cp1252_char('é'), Some(233));
    assert_eq!(encode_cp1252_char('ë'), Some(235));
    assert_eq!(encode_cp1252_char('€'), Some(128));
    assert_eq!(encode_cp1252_char('山'), None);
}

#[test]
fn cp1252_high_table_entries() {
    assert_eq!(encode_cp1252_char('\u{201a}'), Some(130));
    assert_eq!(encode_cp1252_char('\u{0178}'), Some(159));
    assert_eq!(encode_cp1252_char('\u{2122}'), Some(153));
    assert_eq!(encode_cp1252_char('\u{00ff}'), Some(255));
    assert_eq!(encode_cp1252_char('\u{0100}'), None);
    assert_eq!(encode_cp1252_char('\u{1F600}'), None);
}

#[test]
fn test_escape_pdf_string() {
    let escaped = escape_pdf_string("hallo (wereld) \\ test €");
    let mut expected = b"hallo \\(wereld\\) \\\\ test ".to_vec();
    expected.push(128);
    assert_eq!(escaped, expected);
}

#[test]
fn escape_replaces_unencodable_characters() {
    assert_eq!(escape_pdf_string("a山b"), b"a?b".to_vec());
    assert_eq!(escape_pdf_string(""), Vec::<u8>::new());
    assert_eq!(escape_pdf_string("(("), b"\\(\\(".to_vec());
}

fn unescape(bytes: &[u8]) -> Vec<u8> {
    let mut out = Vec::new();
    let mut i = 0;
    while i < bytes.len() {
        if bytes[i] == b'\\' && i + 1 < bytes.len() {
            out.push(bytes[i + 1]);
            i += 2;
        } else {
            out.push(bytes[i]);
            i += 1;
        }
    }
    out
}

#[test]
fn unescaping_gives_back_the_encoded_text() {
    let s = "a(b)c\\d€é";
    let expected: Vec<u8> = s.chars().map(|c| encode_cp1252_char(c).unwrap_or(b'?')).collect();
    assert_eq!(unescape(&escape_pdf_string(s)), expected);
}

#[test]
fn test_pdf_generation_basic() {
    let text = "Dit is een test van de PDF generator.\n\nHet heeft meerdere paragrafen.";
    let pdf_data = generate_pdf(text);

    assert!(pdf_data.starts_with(b"%PDF-1.4"));
    assert!(pdf_data.ends_with(b"%%EOF\n"));

    let pdf_str = String::from_utf8_lossy(&pdf_data);
    assert!(pdf_str.contains("xref\n"));
    assert!(pdf_str.contains("trailer\n"));
    assert!(pdf_str.contains("startxref\n"));

    let xref_index = pdf_str.find("xref\n").unwrap();
    let trailer_index = pdf_str.find("trailer\n").unwrap();
    let xref_lines: Vec<&str> = pdf_str[xref_index..trailer_index].lines().skip(2).collect();

    for line in xref_lines {
        assert_eq!(line.len(), 19);
    }
}

fn xref_offsets(pdf: &[u8]) -> (usize, Vec<usize>) {
    let s = String::from_utf8_lossy(pdf).to_string();
    let start: usize = s
        .rsplit("startxref\n")
        .next()
        .unwrap()
        .lines()
        .next()
        .unwrap()
        .parse()
        .unwrap();
    let table = &s[start..];
    let mut lines = table.lines();
    assert_eq!(lines.next(), Some("xref"));
    let header = lines.next().unwrap();
    let count: usize = header.split(' ').nth(1).unwrap().parse().unwrap();
    let mut offsets = Vec::new();
    for _ in 0..count {
        let line = lines.next().unwrap();
        offsets.push(line[..10].parse().unwrap());
    }
    (start, offsets)
}

#[test]
fn xref_offsets_point_at_object_headers() {
    let mut text = String::new();
    for i in 0..300 {
        text.push_str(&format!("regel {i} met (haakjes) en tekst. "));
        if i % 7 == 0 {
            text.push_str("\n\n");
        }
    }
    let pdf = generate_pdf(&text);
    let (start, offsets) = xref_offsets(&pdf);
    assert_eq!(&pdf[start..start + 5], b"xref\n");
    assert_eq!(offsets[0], 0);
    for (k, &off) in offsets.iter().enumerate().skip(1) {
        let header = format!("{k} 0 obj\n");
        assert_eq!(&pdf[off..off + header.len()], header.as_bytes());
    }
    let pages = (offsets.len() - 4) / 2;
    assert!(pages >= 2);
    let count = format!("/Count {pages} >>");
    assert!(String::from_utf8_lossy(&pdf).contains(&count));
}

#[test]
fn empty_text_gives_one_empty_page() {
    let pdf = generate_pdf("");
    let (_, offsets) = xref_offsets(&pdf);
    assert_eq!(offsets.len(), 6);
    let s = String::from_utf8_lossy(&pdf);
    assert!(s.contains("/Kids [3 0 R] /Count 1"));
    assert!(s.contains("BT\n/F1 10 Tf\n12.5 TL\n50 780 Td\nET\n"));
    assert!(s.contains("/F1 5 0 R"));
}

fn to_chars(s: &str) -> Vec<char> {
    s.chars().collect()
}

fn lines_of(s: &str) -> Vec<String> {
    layout_lines(&to_chars(s)).into_iter().map(|l| l.into_iter().collect()).collect()
}

#[test]
fn lines_wrap_at_eighty_bytes() {
    let word = "abcdefghi"; // 9 bytes; 8 words + 7 spaces = 79 bytes
    let text = vec![word; 20].join(" ");
    let lines = lines_of(&text);
    assert_eq!(lines[0].len(), 79);
    assert_eq!(lines[1].len(), 79);
    assert_eq!(lines[2].len(), 39);
    assert_eq!(lines.len(), 3);
}

#[test]
fn a_long_word_stands_alone() {
    let long = "x".repeat(100);
    let text = format!("kort {long} kort");
    let lines = lines_of(&text);
    assert_eq!(lines, vec!["kort".to_string(), long, "kort".to_string()]);
}

#[test]
fn paragraphs_are_separated_by_empty_lines() {
    let lines = lines_of("een twee\n\ndrie\n\n\nvier");
    assert_eq!(lines, vec!["een twee", "", "drie", "", "vier"]);
}

#[test]
fn paragraph_split_matches_str_split() {
    for text in ["", "a", "\n\n", "a\n\nb", "a\n\n\nb", "\n\n\n\n", "x\ny\n\nz\n"] {
        let expected: Vec<Vec<char>> = text.split("\n\n").map(|p| p.chars().collect()).collect();
        assert_eq!(split_paragraphs(&to_chars(text)), expected);
    }
}

#[test]
fn word_split_matches_split_whitespace() {
    for text in ["", "  a  b ", "a\u{00a0}b\u{3000}c", "tab\tnew\nline", "\u{2003}x"] {
        let expected: Vec<Vec<char>> = text.split_whitespace().map(|w| w.chars().collect()).collect();
        assert_eq!(split_words(&to_chars(text)), expected);
    }
}

#[test]
fn pages_hold_at_most_58_lines_and_skip_leading_blank_lines() {
    let mut lines: Vec<Vec<char>> = Vec::new();
    for i in 0..130 {
        if i == 58 {
            lines.push(Vec::new());
        }
        lines.push(to_chars(&format!("line {i}")));
    }
    let pages = paginate(&lines);
    assert_eq!(pages.len(), 3);
    assert_eq!(pages[0].len(), 58);
    assert_eq!(pages[1].len(), 58);
    assert_eq!(pages[2].len(), 14);
    for page in &pages {
        assert!(!page[0].is_empty());
    }
    assert_eq!(paginate(&Vec::new()).len(), 1);
}

#[test]
fn writer_records_offsets_and_finishes_the_file() {
    let mut w = PdfWriter::new();
    w.write_object(1, b"<< >>");
    w.write_object(2, b"[]");
    let bytes = w.finish();
    let expected = b"%PDF-1.4\n1 0 obj\n<< >>\nendobj\n2 0 obj\n[]\nendobj\nxref\n0 3\n0000000000 65535 f \n0000000009 00000 n \n0000000030 00000 n \ntrailer\n<< /Size 3 /Root 1 0 R >>\nstartxref\n48\n%%EOF\n";
    assert_eq!(bytes, expected.to_vec());
}

#[test]
fn wrapped_lines_keep_every_word_in_order() {
    let text = "Een twee drie vier vijf zes zeven acht negen tien elf twaalf dertien veertien \
                vijftien zestien zeventien achttien negentien twintig eenentwintig tweeëntwintig";
    let lines = lines_of(text);
    assert!(lines.len() >= 2);
    let words: Vec<&str> = text.split_whitespace().collect();
    assert_eq!(lines.join(" "), words.join(" "));
    for pair in lines.windows(2) {
        let next_word = pair[1].split(' ').next().unwrap();
        assert!(pair[0].len() + 1 + next_word.len() > 80);
    }
}

#[test]
fn pages_keep_every_non_empty_line() {
    let mut lines: Vec<Vec<char>> = Vec::new();
    for i in 0..150 {
        if i % 29 == 0 {
            lines.push(Vec::new());
        }
        lines.push(to_chars(&format!("regel {i}")));
    }
    let pages = paginate(&lines);
    let kept: Vec<Vec<char>> = pages.concat().into_iter().filter(|l| !l.is_empty()).collect();
    let expected: Vec<Vec<char>> = lines.into_iter().filter(|l| !l.is_empty()).collect();
    assert_eq!(kept, expected);
}

#[test]
fn pdf_depends_only_on_the_words_of_each_paragraph() {
    assert_eq!(generate_pdf("een  twee\tdrie\n\nvier"), generate_pdf(" een twee\ndrie \n\n vier\n"));
    assert_eq!(generate_pdf("  \n\n \t\n\n\n"), generate_pdf(""));
    assert_ne!(generate_pdf("een\n\ntwee"), generate_pdf("een twee"));
}

#[test]
fn consecutive_text_lines_break_greedily_across_paragraphs() {
    let para = vec!["woord"; 40].join(" ");
    let text = format!("{para}\n\n{para}\n\n\n\nkort");
    let lines = lines_of(&text);
    for pair in lines.windows(2) {
        if !pair[0].is_empty() && !pair[1].is_empty() {
            let next_word = pair[1].split(' ').next().unwrap();
            assert!(pair[0].len() + 1 + next_word.len() > 80);
        }
    }
}

#[test]
fn last_page_is_empty_only_for_blank_text() {
    let mut lines: Vec<Vec<char>> = Vec::new();
    for i in 0..116 {
        lines.push(to_chars(&format!("regel {i}")));
    }
    let pages = paginate(&lines);
    assert_eq!(pages.len(), 2);
    assert!(!pages[1].is_empty());
    let blank = layout_lines(&to_chars(" \n\n\t\n\n"));
    let pages = paginate(&blank);
    assert_eq!(pages.len(), 1);
    assert!(pages[0].is_empty());
}
