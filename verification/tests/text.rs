use minishell::parser::{chomp_tok, parseline, ParseFailReason, ParseResult};
use minishell::jobs::JobState;
use minishell::sigsafe::{format_string_int, render_decimal, MSGBUF_LEN, NUMBUF_LEN};
use minishell::text::{decimal_string, find, is_space, same_text, trim};

/// A small generator of numbers that gives the same sequence on every run.
struct Sequence(u64);

impl Sequence {
    fn next(&mut self) -> u64 {
        self.0 = self
            .0
            .wrapping_mul(6364136223846793005)
            .wrapping_add(1442695040888963407);
        self.0 >> 33
    }
}

fn sample_line(seq: &mut Sequence) -> String {
    let alphabet = ['a', 'b', ' ', ' ', '\'', '&', '\t', '\n', 'é', '\u{a0}', 'z'];
    let len = (seq.next() % 14) as usize;
    let mut line = String::new();
    for _ in 0..len {
        line.push(alphabet[(seq.next() % alphabet.len() as u64) as usize]);
    }
    line
}

/// One argument taken off with the string functions of the standard
/// library.
fn chomp_by_std(buf: &str) -> Result<(&str, &str), ParseFailReason> {
    let nows = buf.trim();
    match nows.chars().next() {
        None => Err(ParseFailReason::EmptyArg),
        Some('\'') => {
            let inner = &nows[1..];
            match inner.find('\'') {
                Some(i) => Ok((&inner[..i], &inner[i + 1..])),
                None => Err(ParseFailReason::Unmatched('\'')),
            }
        }
        Some(_) => match nows.find(' ') {
            Some(i) => Ok(nows.split_at(i)),
            None => Ok((nows, "")),
        },
    }
}

fn parse_by_std(buf: &str) -> Result<ParseResult, ParseFailReason> {
    let mut argv = Vec::new();
    let mut rest = buf;
    loop {
        match chomp_by_std(rest) {
            Ok((tok, rem)) => {
                argv.push(tok.to_string());
                rest = rem;
            }
            Err(ParseFailReason::EmptyArg) => break,
            Err(e) => return Err(e),
        }
    }
    if argv.is_empty() {
        return Err(ParseFailReason::EmptyLine);
    }
    if argv.last().unwrap() == "&" {
        argv.pop();
        Ok(ParseResult(JobState::BG, argv))
    } else {
        Ok(ParseResult(JobState::FG, argv))
    }
}

#[test]
fn white_space_is_what_unicode_says() {
    for code in 0..=0x10ffffu32 {
        if let Some(c) = char::from_u32(code) {
            assert_eq!(is_space(c), c.is_whitespace(), "U+{:04X}", code);
        }
    }
}

#[test]
fn trim_takes_white_space_off_both_ends() {
    assert_eq!(trim("  a b \n"), "a b");
    assert_eq!(trim("a"), "a");
    assert_eq!(trim(""), "");
    assert_eq!(trim(" \t\r\n"), "");
    assert_eq!(trim("\u{2003}é \u{3000}è\u{85}"), "é \u{3000}è");
    let mut seq = Sequence(7);
    for _ in 0..2000 {
        let line = sample_line(&mut seq);
        assert_eq!(trim(&line), line.trim());
    }
}

#[test]
fn find_gives_first_occurrence_counted_in_characters() {
    assert_eq!(find("abcabc", 'b'), Some(1));
    assert_eq!(find("abcabc", 'd'), None);
    assert_eq!(find("", 'a'), None);
    assert_eq!(find("éé'x'", '\''), Some(2));
}

#[test]
fn same_text_compares_character_by_character() {
    assert!(same_text("fg", "fg"));
    assert!(same_text("", ""));
    assert!(!same_text("fg", "bg"));
    assert!(!same_text("fg", "fg "));
    assert!(!same_text("f", ""));
    assert!(same_text("é'", "é'"));
}

#[test]
fn numbers_are_written_as_the_standard_library_writes_them() {
    let mut values = vec![0, 1, 9, 10, 99, 100, -1, -9, -10, i32::MAX, i32::MIN, i32::MIN + 1];
    let mut seq = Sequence(11);
    for _ in 0..2000 {
        values.push(seq.next() as u32 as i32);
        values.push((seq.next() % 100000) as i32);
    }
    for x in values {
        let text = x.to_string();
        assert_eq!(decimal_string(x), text);
        let (buf, start) = render_decimal(x);
        assert!(start < NUMBUF_LEN);
        assert_eq!(&buf[start..], text.as_bytes());
        let mut expected = [0u8; MSGBUF_LEN];
        let full = format!("<{}>", x);
        expected[..full.len()].copy_from_slice(full.as_bytes());
        assert_eq!(format_string_int(b"<%d>", x), expected);
    }
}

#[test]
fn arguments_come_off_as_with_the_standard_library() {
    let mut seq = Sequence(3);
    for _ in 0..5000 {
        let line = sample_line(&mut seq);
        assert_eq!(chomp_tok(&line), chomp_by_std(&line), "{:?}", line);
        assert_eq!(parseline(&line), parse_by_std(&line), "{:?}", line);
    }
}
