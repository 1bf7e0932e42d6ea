use recall::score::{content_score, score_message, RollingWindow};
use recall::words::{count_words, get_common_words};

fn bytes(s: &str) -> Vec<u8> {
    s.as_bytes().to_vec()
}

#[test]
fn count_words_repeated_word() {
    let (total, unique) = count_words(b"a a a a");
    assert_eq!(total, 4);
    assert_eq!(unique, 1);
}

#[test]
fn count_words_empty_and_blank() {
    assert_eq!(count_words(b""), (0, 0));
    assert_eq!(count_words(b"   \t\n  "), (0, 0));
}

#[test]
fn count_words_mixed_whitespace() {
    let (total, unique) = count_words(b"one\ttwo\nthree  two one");
    assert_eq!(total, 5);
    assert_eq!(unique, 3);
}

#[test]
fn common_words_deduplicates_lines() {
    let words = get_common_words(b"the\nand\nthe\n\nof\n");
    assert_eq!(words.len(), 3);
    assert!(words.iter().any(|w| w == b"the"));
    assert!(words.iter().any(|w| w == b"and"));
    assert!(words.iter().any(|w| w == b"of"));
    assert!(!words.iter().any(|w| w.is_empty()));
}

#[test]
fn diversity_example_scores_exactly() {
    // "a a a a": 4 words, 1 unique, so the diversity ratio is 0.25 and the
    // diversity component is 12.5 points, 12500 milli-points. The length is
    // 7 bytes, with integer root 2, so the length component is 100 points.
    // Weighted: 0.7 * 12500 + 0.3 * 100000 = 38750 milli-points.
    assert_eq!(content_score(b"a a a a"), 38_750);
}

#[test]
fn empty_content_scores_zero() {
    assert_eq!(content_score(b""), 0);
}

#[test]
fn all_distinct_words_score_full_diversity() {
    // "hello": 1 word, 1 unique => 50000; 5 bytes => root 2 => 100000.
    // Weighted: (7 * 50000 + 3 * 100000) / 10 = 65000.
    assert_eq!(content_score(b"hello"), 65_000);
}

#[test]
fn anti_spam_five_repeats_score_zero() {
    let mut window = RollingWindow::new();
    let hello = bytes("hello");
    let first = score_message(&mut window, &hello);
    assert!(first > 0);
    for _ in 0..4 {
        assert_eq!(score_message(&mut window, &hello), 0);
    }
    // The sixth, distinct message scores normally again.
    let other = bytes("hello there");
    let sixth = score_message(&mut window, &other);
    assert_eq!(sixth, content_score(b"hello there"));
    assert!(sixth > 0);
}

#[test]
fn window_keeps_only_five_most_recent() {
    let mut window = RollingWindow::new();
    for s in ["a", "b", "c", "d", "e", "f"] {
        score_message(&mut window, &bytes(s));
    }
    // "a" was evicted after six pushes, so repeating it scores normally.
    let again = score_message(&mut window, &bytes("a"));
    assert_eq!(again, content_score(b"a"));
    assert!(again > 0);
    // "f" is still in the window, so repeating it is spam.
    assert_eq!(score_message(&mut window, &bytes("f")), 0);
}

#[test]
fn integer_roots() {
    assert_eq!(recall::math::isqrt_u64(0), 0);
    assert_eq!(recall::math::isqrt_u64(1), 1);
    assert_eq!(recall::math::isqrt_u64(7), 2);
    assert_eq!(recall::math::isqrt_u64(9), 3);
    assert_eq!(recall::math::isqrt_u64(10), 3);
    assert_eq!(recall::math::isqrt_u64(u64::MAX), 0xFFFF_FFFF);
}

#[test]
fn common_words_of_empty_text() {
    assert_eq!(get_common_words(b"").len(), 0);
    assert_eq!(get_common_words(b"\n\n\n").len(), 0);
}

#[test]
fn count_words_ignores_surrounding_whitespace() {
    assert_eq!(count_words(b"  hi  there  "), (2, 2));
}
