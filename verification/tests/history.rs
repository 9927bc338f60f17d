use her::history::{extract_last_entries, join_reversed, strip_prefix, HistoryError};

fn log(text: &str) -> Vec<u8> {
    text.as_bytes().to_vec()
}

fn strings(items: &[&str]) -> Vec<String> {
    items.iter().map(|s| s.to_string()).collect()
}

#[test]
fn returns_the_two_most_recent_commands_oldest_first() {
    let source = log("t1;ls -la\nt2;git status\nt3;cd /tmp\n");
    assert_eq!(
        extract_last_entries(source, 2),
        Ok(strings(&["git status\n", "cd /tmp\n"]))
    );
}

#[test]
fn boundary_line_loses_timestamp_and_delimiter() {
    let source = log("2024-01-01T00:00:00;echo hi\n");
    assert_eq!(extract_last_entries(source, 1), Ok(strings(&["echo hi\n"])));
}

#[test]
fn continuation_line_follows_its_boundary_line() {
    let source = log("pre;part-one\npart-two\n");
    assert_eq!(
        extract_last_entries(source, 1),
        Ok(strings(&["part-one\npart-two\n"]))
    );
}

#[test]
fn line_before_the_boundary_line_is_not_part_of_the_entry() {
    let source = log("echo \\\n2024-01-01;hi\n");
    assert_eq!(extract_last_entries(source, 1), Ok(strings(&["hi\n"])));
    let source = log("echo \\\n2024-01-01;hi\n");
    assert_eq!(extract_last_entries(source, 5), Ok(strings(&["hi\n"])));
}

#[test]
fn empty_log_gives_no_entries() {
    assert_eq!(extract_last_entries(Vec::new(), 5), Ok(Vec::new()));
}

#[test]
fn zero_entries_asked_gives_none() {
    let source = log("t1;ls\nt2;pwd\n");
    assert_eq!(extract_last_entries(source, 0), Ok(Vec::new()));
    let unreadable = vec![0xff, b'\n'];
    assert_eq!(extract_last_entries(unreadable, 0), Ok(Vec::new()));
}

#[test]
fn log_without_delimiter_gives_no_entries() {
    let source = log("ls -la\ngit status\ncd /tmp\n");
    assert_eq!(extract_last_entries(source, 3), Ok(Vec::new()));
    assert_eq!(extract_last_entries(log("no line break"), 1), Ok(Vec::new()));
    assert_eq!(extract_last_entries(log("\n\n\n"), 2), Ok(Vec::new()));
}

#[test]
fn count_is_the_smaller_of_limit_and_boundary_lines() {
    let text = "a;1\nx\nb;2\nc;3\ny\nz\nd;4\n";
    for limit in 0u32..8 {
        let entries = extract_last_entries(log(text), limit).unwrap();
        assert_eq!(entries.len(), std::cmp::min(limit as usize, 4));
    }
}

#[test]
fn fewer_entries_than_asked_are_all_returned() {
    let source = log("t1;ls\nt2;pwd\n");
    assert_eq!(
        extract_last_entries(source, 10),
        Ok(strings(&["ls\n", "pwd\n"]))
    );
}

#[test]
fn smaller_batch_is_the_end_of_a_larger_one() {
    let text = "a;1\nx\nb;2\nc;3\ny\nz\nd;4\n";
    let full = extract_last_entries(log(text), 4).unwrap();
    assert_eq!(full, strings(&["1\nx\n", "2\n", "3\ny\nz\n", "4\n"]));
    for limit in 0usize..=4 {
        let batch = extract_last_entries(log(text), limit as u32).unwrap();
        assert_eq!(batch[..], full[4 - limit..]);
    }
}

#[test]
fn last_line_of_the_log_ends_the_last_entry() {
    let source = log("t1;first\nt2;second\nmore\nlast");
    let entries = extract_last_entries(source, 2).unwrap();
    assert_eq!(entries, strings(&["first\n", "second\nmore\nlast"]));
}

#[test]
fn unterminated_final_line_is_a_line_of_its_own() {
    let source = log("t1;ls\nt2;pwd");
    assert_eq!(
        extract_last_entries(source, 2),
        Ok(strings(&["ls\n", "pwd"]))
    );
    assert_eq!(extract_last_entries(log("t;x"), 1), Ok(strings(&["x"])));
    assert_eq!(extract_last_entries(log(";"), 1), Ok(strings(&[""])));
}

#[test]
fn delimiter_with_nothing_behind_it_gives_a_short_entry() {
    assert_eq!(extract_last_entries(log("t1;\n"), 1), Ok(strings(&["\n"])));
    assert_eq!(
        extract_last_entries(log("t1;\nrest\n"), 1),
        Ok(strings(&["\nrest\n"]))
    );
    assert_eq!(extract_last_entries(log("t1;"), 1), Ok(strings(&[""])));
}

#[test]
fn only_the_first_delimiter_of_a_line_is_a_boundary() {
    let source = log(": 1700000000:0;echo a; echo b\n");
    assert_eq!(
        extract_last_entries(source, 1),
        Ok(strings(&["echo a; echo b\n"]))
    );
}

#[test]
fn blank_lines_and_white_space_are_kept() {
    let source = log("t;  spaced  \n\n\t\n  \r\nt2;\r\n");
    assert_eq!(
        extract_last_entries(source, 2),
        Ok(strings(&["  spaced  \n\n\t\n  \r\n", "\r\n"]))
    );
}

#[test]
fn text_beyond_ascii_is_kept() {
    let source = log("días;echo héllo → wörld\nû;日本語;x\n");
    assert_eq!(
        extract_last_entries(source, 2),
        Ok(strings(&["echo héllo → wörld\n", "日本語;x\n"]))
    );
}

#[test]
fn unreadable_line_within_reach_is_an_error() {
    let mut source = log("t1;ls\n");
    source.extend_from_slice(&[b'b', 0xff, b'd', b'\n']);
    source.extend_from_slice(b"t2;pwd\n");
    assert_eq!(
        extract_last_entries(source.clone(), 2),
        Err(HistoryError::SourceUnavailable)
    );
    assert_eq!(
        extract_last_entries(source.clone(), 7),
        Err(HistoryError::SourceUnavailable)
    );
    assert_eq!(extract_last_entries(source, 1), Ok(strings(&["pwd\n"])));
}

#[test]
fn unreadable_prefix_of_a_boundary_line_is_an_error() {
    let mut source = vec![0xc3, b';'];
    source.extend_from_slice(b"ls\n");
    assert_eq!(
        extract_last_entries(source, 1),
        Err(HistoryError::SourceUnavailable)
    );
}

#[test]
fn unreadable_last_line_is_an_error() {
    assert_eq!(
        extract_last_entries(vec![0x80], 1),
        Err(HistoryError::SourceUnavailable)
    );
    assert_eq!(
        extract_last_entries(vec![b't', b';', b'\n', 0xe2, 0x82], 3),
        Err(HistoryError::SourceUnavailable)
    );
}

#[test]
fn log_larger_than_the_read_buffer() {
    let mut text = String::new();
    let mut expected = Vec::new();
    for i in 0..3000 {
        text.push_str(&format!("{};command number {}\n", 1_700_000_000 + i, i));
        expected.push(format!("command number {}\n", i));
        if i % 7 == 0 {
            text.push_str("  continued \\\n");
            expected.last_mut().unwrap().push_str("  continued \\\n");
        }
    }
    assert!(text.len() > 3 * 8192);
    assert_eq!(extract_last_entries(log(&text), 3000), Ok(expected.clone()));
    assert_eq!(extract_last_entries(log(&text), 4000), Ok(expected.clone()));
    assert_eq!(
        extract_last_entries(log(&text), 1234),
        Ok(expected[3000 - 1234..].to_vec())
    );
}

#[test]
fn line_longer_than_the_read_buffer() {
    let long = "x".repeat(20_000);
    let text = format!("t1;{}\n{}\nt2;{}", long, long, long);
    assert_eq!(
        extract_last_entries(log(&text), 2),
        Ok(vec![format!("{}\n{}\n", long, long), long.clone()])
    );
}

#[test]
fn line_break_at_the_edge_of_the_read_buffer() {
    for pad in 8185usize..8200 {
        let text = format!("a;{}\nb;tail\n", "y".repeat(pad));
        assert_eq!(
            extract_last_entries(log(&text), 2),
            Ok(vec![format!("{}\n", "y".repeat(pad)), "tail\n".to_string()])
        );
    }
}

#[test]
fn strip_prefix_takes_the_text_behind_the_first_delimiter() {
    assert_eq!(
        strip_prefix("2024-01-01T00:00:00;echo hi\n"),
        Some("echo hi\n".to_string())
    );
    assert_eq!(strip_prefix("a;b;c"), Some("b;c".to_string()));
    assert_eq!(strip_prefix(";"), Some(String::new()));
    assert_eq!(strip_prefix("é;ü"), Some("ü".to_string()));
    assert_eq!(strip_prefix("no delimiter\n"), None);
    assert_eq!(strip_prefix(""), None);
}

#[test]
fn join_reversed_puts_the_last_fragment_first() {
    assert_eq!(join_reversed(&strings(&["c\n", "b\n", "a\n"])), "a\nb\nc\n");
    assert_eq!(join_reversed(&strings(&["only"])), "only");
    assert_eq!(join_reversed(&Vec::new()), "");
}

/// What an extraction is to give, worked out by reading the log forward.
fn read_forward(log: &[u8], limit: usize) -> Result<Vec<String>, HistoryError> {
    let mut lines: Vec<&[u8]> = Vec::new();
    let mut start = 0;
    for (i, byte) in log.iter().enumerate() {
        if *byte == b'\n' {
            lines.push(&log[start..=i]);
            start = i + 1;
        }
    }
    if start < log.len() {
        lines.push(&log[start..]);
    }
    let mut wanted = limit;
    let mut first_read = lines.len();
    for i in (0..lines.len()).rev() {
        if wanted == 0 {
            break;
        }
        let text = std::str::from_utf8(lines[i]).map_err(|_| HistoryError::SourceUnavailable)?;
        first_read = i;
        if text.contains(';') {
            wanted -= 1;
        }
    }
    let mut entries: Vec<String> = Vec::new();
    for line in &lines[first_read..] {
        let text = std::str::from_utf8(line).unwrap();
        match text.find(';') {
            Some(at) => entries.push(text[at + 1..].to_string()),
            None => {
                if let Some(last) = entries.last_mut() {
                    last.push_str(text);
                }
            }
        }
    }
    let skipped = entries.len().saturating_sub(limit);
    Ok(entries.split_off(skipped))
}

fn next(state: &mut u64) -> u64 {
    *state = state
        .wrapping_mul(6364136223846793005)
        .wrapping_add(1442695040888963407);
    *state >> 33
}

fn generated_log(state: &mut u64, length: usize, line_breaks: u64, bad_bytes: bool) -> Vec<u8> {
    let mut log = Vec::new();
    while log.len() < length {
        let pick = next(state) % 100;
        if pick < line_breaks {
            log.push(b'\n');
        } else if pick < line_breaks + 6 {
            log.push(b';');
        } else if pick < line_breaks + 10 {
            log.extend_from_slice("é".as_bytes());
        } else if pick < line_breaks + 12 {
            log.extend_from_slice("→".as_bytes());
        } else if pick == 99 && bad_bytes {
            log.push(0xff);
        } else {
            log.push(b'a' + (pick % 26) as u8);
        }
    }
    log
}

#[test]
fn short_generated_logs_agree_with_a_forward_reading() {
    let mut state = 7u64;
    for round in 0..4000usize {
        let log = generated_log(&mut state, round % 40, 20, round % 3 == 0);
        for limit in 0usize..6 {
            assert_eq!(
                extract_last_entries(log.clone(), limit as u32),
                read_forward(&log, limit)
            );
        }
    }
}

#[test]
fn long_generated_logs_agree_with_a_forward_reading() {
    let mut state = 11u64;
    for round in 0..40usize {
        let line_breaks = if round % 2 == 0 { 3 } else { 0 };
        let log = generated_log(&mut state, 8000 + 499 * round, line_breaks, round % 5 == 0);
        for limit in [0usize, 1, 2, 7, 100, 100_000] {
            assert_eq!(
                extract_last_entries(log.clone(), limit as u32),
                read_forward(&log, limit)
            );
        }
    }
}
