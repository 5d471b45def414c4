use dutch_gen::assets::{line_spans, parse_frequencies, try_decompress};
use dutch_gen::cli::{parse_cli, CliCommand};
use dutch_gen::decimal::{append_decimal, push_decimal, push_zero_padded};
use dutch_gen::sampling::{build_cdf, cdf_index, check_table, sample_word, word_for_draw};
use dutch_gen::textutil::{chars_of, str_eq};
use dutch_gen::RangeOrExact;
use flate2::write::GzEncoder;
use flate2::Compression;
use rand::SeedableRng;
use rand_chacha::ChaCha8Rng;
use std::io::Write;

#[test]
fn cdf_index_finds_the_slot() {
    let cdf = [1u64, 2, 3];
    assert_eq!(cdf_index(&cdf, 1), 0);
    assert_eq!(cdf_index(&cdf, 2), 1);
    assert_eq!(cdf_index(&cdf, 3), 2);
    assert_eq!(cdf_index(&cdf, 4), 3);
    let cdf = [5u64, 5, 9, 20];
    assert_eq!(cdf_index(&cdf, 1), 0);
    assert_eq!(cdf_index(&cdf, 5), 0);
    assert_eq!(cdf_index(&cdf, 6), 2);
    assert_eq!(cdf_index(&cdf, 10), 3);
    assert_eq!(cdf_index(&[], 10), 0);
}

#[test]
fn word_for_draw_follows_the_frequencies() {
    let words = ["zeldzaam", "vaak", "nooit", "soms"];
    let cdf = [1u64, 9, 9, 12];
    assert_eq!(word_for_draw(&words, &cdf, 1), "zeldzaam");
    for r in 2..=9 {
        assert_eq!(word_for_draw(&words, &cdf, r), "vaak");
    }
    for r in 10..=12 {
        assert_eq!(word_for_draw(&words, &cdf, r), "soms");
    }
}

#[test]
fn sample_word_draws_from_the_list() {
    let words = ["een", "twee", "drie"];
    let cdf = [0u64, 4, 4];
    let mut rng = ChaCha8Rng::seed_from_u64(11);
    for _ in 0..100 {
        assert_eq!(sample_word(&mut rng, &words, &cdf, 4), "twee");
    }
}

#[test]
fn build_cdf_accumulates() {
    let (cdf, sum) = build_cdf(&[3, 0, 4, u32::MAX]);
    assert_eq!(cdf, vec![3, 3, 7, 7 + u32::MAX as u64]);
    assert_eq!(sum, 7 + u32::MAX as u64);
    let (cdf, sum) = build_cdf(&[]);
    assert!(cdf.is_empty());
    assert_eq!(sum, 0);
}

#[test]
fn frequencies_are_little_endian() {
    let bytes = [1u8, 0, 0, 0, 0x78, 0x56, 0x34, 0x12, 0xff, 0xff, 0xff, 0xff, 9, 9];
    assert_eq!(parse_frequencies(&bytes), vec![1, 0x1234_5678, u32::MAX]);
    assert!(parse_frequencies(&[1, 2, 3]).is_empty());
}

fn lines_by_spans(s: &str) -> Vec<&str> {
    line_spans(s.as_bytes()).iter().map(|&(a, b)| &s[a..b]).collect()
}

#[test]
fn line_spans_match_str_lines() {
    for s in ["", "a", "a\n", "a\nb", "a\r\nb\r\n", "\n", "\n\n", "x\r", "x\ry\n", "één\ntwee", "a\r\r\n"] {
        let expected: Vec<&str> = s.lines().collect();
        assert_eq!(lines_by_spans(s), expected, "input {s:?}");
    }
}

fn gzip(data: &[u8]) -> Vec<u8> {
    let mut enc = GzEncoder::new(Vec::new(), Compression::default());
    enc.write_all(data).unwrap();
    enc.finish().unwrap()
}

#[test]
fn try_decompress_inflates_gzip_and_rejects_garbage() {
    let data = b"hallo\nwereld\n".to_vec();
    assert_eq!(try_decompress(&gzip(&data)), Some(data));
    assert_eq!(try_decompress(b"not gzip at all"), None);
    assert_eq!(dutch_gen::assets::decompress(&gzip(b"")), Vec::<u8>::new());
}

fn args(v: &[&str]) -> Vec<String> {
    v.iter().map(|s| s.to_string()).collect()
}

fn fail_message(c: CliCommand) -> (String, bool) {
    match c {
        CliCommand::Fail { message, show_help } => (message, show_help),
        _ => panic!("expected a failure"),
    }
}

#[test]
fn cli_reads_options() {
    match parse_cli(&args(&["-w", "10-20", "-s", "42"])) {
        CliCommand::Run(a) => {
            assert!(matches!(a.words, Some(RangeOrExact::Range(10, 20))));
            assert!(a.bytes.is_none());
            assert_eq!(a.seed, Some(42));
        }
        _ => panic!("expected a run"),
    }
    match parse_cli(&args(&["--bytes", "500"])) {
        CliCommand::Run(a) => {
            assert!(matches!(a.bytes, Some(RangeOrExact::Exact(500))));
            assert!(a.words.is_none());
            assert_eq!(a.seed, None);
        }
        _ => panic!("expected a run"),
    }
    assert!(matches!(parse_cli(&args(&[])), CliCommand::Run(_)));
    assert!(matches!(parse_cli(&args(&["-w", "5", "--help"])), CliCommand::Help));
    assert!(matches!(parse_cli(&args(&["-h", "--bogus"])), CliCommand::Help));
}

#[test]
fn cli_reports_errors() {
    assert_eq!(
        fail_message(parse_cli(&args(&["-w", "1", "-b", "2"]))),
        ("Error: --words and --bytes parameters are mutually exclusive.".to_string(), false)
    );
    assert_eq!(
        fail_message(parse_cli(&args(&["--words"]))),
        ("Error: Missing value for --words".to_string(), false)
    );
    assert_eq!(
        fail_message(parse_cli(&args(&["-s", "x1"]))),
        ("Error: Invalid seed value: x1".to_string(), false)
    );
    assert_eq!(
        fail_message(parse_cli(&args(&["-b", "9-2"]))),
        ("Error: Min value 9 is greater than max value 2".to_string(), false)
    );
    assert_eq!(
        fail_message(parse_cli(&args(&["--frobnicate"]))),
        ("Error: Unknown argument: --frobnicate".to_string(), true)
    );
    assert_eq!(
        fail_message(parse_cli(&args(&["-s", "18446744073709551616"]))),
        ("Error: Invalid seed value: 18446744073709551616".to_string(), false)
    );
}

#[test]
fn decimal_rendering() {
    let mut out = Vec::new();
    push_decimal(&mut out, 0);
    out.push(b' ');
    push_decimal(&mut out, 1234567890123);
    assert_eq!(out, b"0 1234567890123".to_vec());
    let mut padded = Vec::new();
    push_zero_padded(&mut padded, 42, 10);
    assert_eq!(padded, b"0000000042".to_vec());
    let mut wide = Vec::new();
    push_zero_padded(&mut wide, 123456789012, 10);
    assert_eq!(wide, b"123456789012".to_vec());
    let mut s = String::from("n=");
    append_decimal(&mut s, u64::MAX);
    assert_eq!(s, format!("n={}", u64::MAX));
}

#[test]
fn string_helpers() {
    assert_eq!(chars_of("één"), vec!['é', 'é', 'n']);
    assert!(str_eq("abc", "abc"));
    assert!(!str_eq("abc", "abd"));
    assert!(!str_eq("ab", "abc"));
}

#[test]
fn each_word_is_selected_by_as_many_draws_as_its_frequency() {
    let freqs = [4u32, 0, 1, 7, 0, 3];
    let words = ["a", "b", "c", "d", "e", "f"];
    let (cdf, sum) = build_cdf(&freqs);
    let mut counts = [0u32; 6];
    for r in 1..=sum {
        let w = word_for_draw(&words, &cdf, r);
        let i = words.iter().position(|x| *x == w).unwrap();
        counts[i] += 1;
    }
    assert_eq!(counts, freqs);
}

#[test]
fn check_table_accepts_only_tables_that_draw_listed_words() {
    let (cdf, sum) = build_cdf(&[2, 0, 5]);
    assert!(check_table(&["a", "b", "c"], &cdf, sum));
    assert!(!check_table(&["a", "b", "c"], &cdf, 0));
    assert!(!check_table(&["a", "b"], &cdf, sum));
    assert!(check_table(&["a", "b"], &[1, 1, 9], 1));
    assert!(!check_table(&["a", "b"], &[1, 1, 9], 2));
    assert!(check_table(&["a"], &[], 3));
}
