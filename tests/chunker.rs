use chombot::chunker::{split_lines, split_message, ChunkError, DISCORD_MESSAGE_SIZE_LIMIT};

#[test]
fn chunks_reproduce_text_and_fit_budget() {
    let text = "aaaa\nbbbb\ncc\ndddddd\n";
    let chunks = split_message(text, 10).unwrap();
    assert_eq!(chunks, vec!["aaaa\nbbbb\n", "cc\ndddddd\n"]);
    assert_eq!(split_message("aaaa\nbbbb\ncc\nddddddd\n", 10).unwrap(), vec!["aaaa\nbbbb\n", "cc\n", "ddddddd\n"]);
    assert_eq!(chunks.concat(), text);
    assert!(chunks.iter().all(|c| c.len() <= 10 && c.ends_with('\n')));
}

#[test]
fn missing_final_newline_is_added() {
    let chunks = split_message("one\ntwo", DISCORD_MESSAGE_SIZE_LIMIT).unwrap();
    assert_eq!(chunks, vec!["one\ntwo\n"]);
}

#[test]
fn empty_text_gives_no_chunk() {
    assert_eq!(split_message("", 5).unwrap(), Vec::<String>::new());
}

#[test]
fn line_longer_than_budget_is_an_error() {
    assert_eq!(split_message("ok\nfar too long\n", 8), Err(ChunkError::LineTooLong));
    assert_eq!(split_message("abc", 3), Err(ChunkError::LineTooLong));
    assert_eq!(split_message("abc", 4).unwrap(), vec!["abc\n"]);
}

#[test]
fn budget_counts_bytes() {
    let chunks = split_message("żż\nż\n", 5).unwrap();
    assert_eq!(chunks, vec!["żż\n", "ż\n"]);
    assert_eq!(split_message("żż\nż\n", 8).unwrap(), vec!["żż\nż\n"]);
}

#[test]
fn lines_split_at_newlines() {
    assert_eq!(split_lines("a\n\nb"), vec!["a", "", "b"]);
    assert_eq!(split_lines("a\n"), vec!["a"]);
    assert_eq!(split_lines(""), Vec::<String>::new());
}

#[test]
fn long_message_splits_at_the_size_limit() {
    let line = "x".repeat(99);
    let text: String = (0..50).map(|_| format!("{line}\n")).collect();
    let chunks = split_message(&text, DISCORD_MESSAGE_SIZE_LIMIT).unwrap();
    assert_eq!(chunks.len(), 3);
    assert_eq!(chunks[0].len(), 2000);
    assert_eq!(chunks[1].len(), 2000);
    assert_eq!(chunks[2].len(), 1000);
    assert_eq!(chunks.concat(), text);
}
