use dutch_gen::text::{generate_by_bytes, generate_by_words, generate_infinite_paragraph, punctuation_for};
use rand::SeedableRng;
use rand::RngExt;
use rand_chacha::ChaCha8Rng;

#[test]
fn test_generate_by_words_basic() {
    let words = vec!["hallo", "wereld", "test"];
    let cdf = vec![1, 2, 3];
    let sum = 3;
    let mut rng = ChaCha8Rng::seed_from_u64(42);
    let mut output = Vec::new();

    generate_by_words(10, &mut rng, &words, &cdf, sum, &mut output);

    let generated_str = String::from_utf8(output).unwrap();
    assert!(!generated_str.is_empty());
    let word_count = generated_str.split_whitespace().count();
    assert_eq!(word_count, 10);
}

#[test]
fn test_generate_by_bytes_basic() {
    let words = vec!["een", "twee", "drie"];
    let cdf = vec![1, 2, 3];
    let sum = 3;
    let mut rng = ChaCha8Rng::seed_from_u64(42);
    let mut output = Vec::new();

    generate_by_bytes(50, &mut rng, &words, &cdf, sum, &mut output);

    let generated_str = String::from_utf8(output).unwrap();
    assert_eq!(generated_str.len(), 50);
}

fn capitalized_sentence_starts(text: &str) -> bool {
    // Every sentence starts with a capitalized word.
    let mut expect_capital = true;
    for token in text.split_whitespace() {
        let first = token.chars().next().unwrap();
        if expect_capital && !first.is_uppercase() {
            return false;
        }
        if !expect_capital && first.is_uppercase() {
            return false;
        }
        expect_capital = token.ends_with('.') || token.ends_with('?') || token.ends_with('!');
    }
    true
}

#[test]
fn words_are_capitalized_at_sentence_starts_only() {
    let words = vec!["hallo", "wereld", "test"];
    let cdf = vec![1, 2, 3];
    let mut rng = ChaCha8Rng::seed_from_u64(1);
    let mut output = Vec::new();
    generate_by_words(300, &mut rng, &words, &cdf, 3, &mut output);
    let s = String::from_utf8(output).unwrap();
    assert!(s.starts_with("Hallo") || s.starts_with("Wereld") || s.starts_with("Test"));
    assert!(capitalized_sentence_starts(&s));
    assert_eq!(s.split_whitespace().count(), 300);
    assert!(s.ends_with('.') || s.ends_with('?') || s.ends_with('!'));
}

#[test]
fn word_counts_hold_for_many_targets() {
    let words = vec!["a", "bb", "ccc", "dddd"];
    let cdf = vec![5, 6, 10, 10];
    for target in [0usize, 1, 4, 5, 6, 21, 57, 400] {
        let mut rng = ChaCha8Rng::seed_from_u64(target as u64);
        let mut output = Vec::new();
        generate_by_words(target, &mut rng, &words, &cdf, 10, &mut output);
        let s = String::from_utf8(output).unwrap();
        assert_eq!(s.split_whitespace().count(), target);
        // the zero-frequency entry "dddd" is never drawn
        assert!(!s.to_lowercase().contains("dddd"));
        if target == 0 {
            assert!(s.is_empty());
            continue;
        }
        for para in s.split("\n\n") {
            let sentences = para.matches(|c| c == '.' || c == '?' || c == '!').count();
            assert!((1..=8).contains(&sentences));
        }
    }
}

#[test]
fn byte_budget_is_exact_for_ascii_text() {
    let words = vec!["een", "twee", "drie"];
    let cdf = vec![1, 2, 3];
    for target in [0usize, 1, 2, 3, 17, 50, 51, 999, 5000] {
        let mut rng = ChaCha8Rng::seed_from_u64(target as u64 + 11);
        let mut output = Vec::new();
        generate_by_bytes(target, &mut rng, &words, &cdf, 3, &mut output);
        assert_eq!(output.len(), target);
        assert!(String::from_utf8(output).is_ok());
    }
}

#[test]
fn byte_budget_is_exact_with_multibyte_words() {
    // Two-byte characters force cuts inside a character now and then.
    let words = vec!["één", "tweeë", "drieë"];
    let cdf = vec![1, 2, 3];
    for target in 1usize..120 {
        let mut rng = ChaCha8Rng::seed_from_u64(target as u64);
        let mut output = Vec::new();
        generate_by_bytes(target, &mut rng, &words, &cdf, 3, &mut output);
        assert_eq!(output.len(), target);
        assert!(String::from_utf8(output).is_ok());
    }
}

#[test]
fn output_is_appended_after_existing_bytes() {
    let words = vec!["x"];
    let cdf = vec![1];
    let mut rng = ChaCha8Rng::seed_from_u64(3);
    let mut output = b"prefix".to_vec();
    generate_by_bytes(20, &mut rng, &words, &cdf, 1, &mut output);
    assert!(output.starts_with(b"prefix"));
    assert_eq!(output.len(), 26);
}

#[test]
fn endless_paragraphs_have_blank_line_separators() {
    let words = vec!["hallo", "wereld"];
    let cdf = vec![2, 3];
    let mut rng = ChaCha8Rng::seed_from_u64(5);
    let mut first = Vec::new();
    generate_infinite_paragraph(&mut rng, &words, &cdf, 3, true, &mut first);
    let s = String::from_utf8(first).unwrap();
    assert!(!s.starts_with('\n'));
    let sentences = s.matches(|c| c == '.' || c == '?' || c == '!').count();
    assert!((3..=8).contains(&sentences));
    let n = s.split_whitespace().count();
    assert!((15..=160).contains(&n));

    let mut next = Vec::new();
    generate_infinite_paragraph(&mut rng, &words, &cdf, 3, false, &mut next);
    assert!(next.starts_with(b"\n\n"));
    assert!(!next[2..].contains(&b'\n'));
}

#[test]
fn punctuation_follows_the_draw() {
    assert_eq!(punctuation_for(0), b'.');
    assert_eq!(punctuation_for(84), b'.');
    assert_eq!(punctuation_for(85), b'?');
    assert_eq!(punctuation_for(94), b'?');
    assert_eq!(punctuation_for(95), b'!');
    assert_eq!(punctuation_for(99), b'!');
}

#[test]
fn uppercase_mapping_can_grow_a_word() {
    // 'ß' uppercases to "SS": sentence openers become "SSa", other words stay "ßa".
    let words = vec!["ßa"];
    let cdf = vec![1];
    let mut rng = ChaCha8Rng::seed_from_u64(9);
    let mut output = Vec::new();
    generate_by_words(12, &mut rng, &words, &cdf, 1, &mut output);
    let s = String::from_utf8(output).unwrap();
    let tokens: Vec<&str> = s.split_whitespace().collect();
    assert_eq!(tokens.len(), 12);
    assert!(tokens[0].starts_with("SSa"));
    for pair in tokens.windows(2) {
        let ends_sentence = pair[0].ends_with('.') || pair[0].ends_with('?') || pair[0].ends_with('!');
        if ends_sentence {
            assert!(pair[1].starts_with("SSa"));
        } else {
            assert!(pair[1].starts_with("ßa"));
        }
    }
}

#[test]
fn empty_words_add_no_bytes() {
    let words = vec![""];
    let cdf = vec![1];
    let mut rng = ChaCha8Rng::seed_from_u64(2);
    let mut output = Vec::new();
    generate_by_words(5, &mut rng, &words, &cdf, 1, &mut output);
    // five empty words: four separating spaces and the punctuation
    assert_eq!(output.len(), 5);
    assert!(output.starts_with(b"    "));
}

#[test]
fn straddling_character_is_replaced_by_spaces() {
    let words = vec!["é"];
    let cdf = vec![1];
    let mut rng = ChaCha8Rng::seed_from_u64(9);
    let mut output = Vec::new();
    generate_by_bytes(4, &mut rng, &words, &cdf, 1, &mut output);
    assert_eq!(output, "É  ".as_bytes().to_vec());
}

#[test]
fn zero_targets_leave_the_generator_untouched() {
    let words = vec!["a"];
    let cdf = vec![1];
    let mut rng = ChaCha8Rng::seed_from_u64(4);
    let mut fresh = ChaCha8Rng::seed_from_u64(4);
    let mut output = Vec::new();
    generate_by_bytes(0, &mut rng, &words, &cdf, 1, &mut output);
    generate_by_words(0, &mut rng, &words, &cdf, 1, &mut output);
    assert!(output.is_empty());
    assert_eq!(rng.random_range(0..u64::MAX), fresh.random_range(0..u64::MAX));
}
