use ansi_lexer::{parse_str, ControlSeq, OutputStream};

fn text(token: &OutputStream) -> Option<String> {
    match token {
        OutputStream::Text(text) => Some(text.to_string()),
        OutputStream::Control(_) => None,
    }
}

#[test]
fn it_works() {
    assert_eq!(parse_str("").len(), 0);
}

#[test]
fn empty_input_gives_no_token() {
    assert_eq!(parse_str(""), vec![]);
}

#[test]
fn plain_text_is_one_token() {
    assert_eq!(parse_str("hello"), vec![OutputStream::Text("hello")]);
}

#[test]
fn mixed_stream_gives_text_control_text() {
    assert_eq!(
        parse_str("abc\x1b[2Jdef"),
        vec![
            OutputStream::Text("abc"),
            OutputStream::Control(ControlSeq::EraseDisplay),
            OutputStream::Text("def"),
        ]
    );
    assert_eq!(
        parse_str("red: \x1b[1;31mtext"),
        vec![
            OutputStream::Text("red: "),
            OutputStream::Control(ControlSeq::SetGraphicMode(vec![1, 31])),
            OutputStream::Text("text"),
        ]
    );
}

#[test]
fn control_sequence_alone() {
    assert_eq!(parse_str("\x1b[s"), vec![OutputStream::Control(ControlSeq::SaveCursorPosition)]);
    assert_eq!(
        parse_str("\x1b[10;20H"),
        vec![OutputStream::Control(ControlSeq::CursorPositionYX(10, 20))]
    );
}

#[test]
fn control_sequences_side_by_side() {
    assert_eq!(
        parse_str("\x1b[s\x1b[5A\x1b[u"),
        vec![
            OutputStream::Control(ControlSeq::SaveCursorPosition),
            OutputStream::Control(ControlSeq::CursorUp(5)),
            OutputStream::Control(ControlSeq::RestoreCursorPosition),
        ]
    );
}

#[test]
fn control_sequence_at_either_end() {
    assert_eq!(
        parse_str("\x1b[Kabc"),
        vec![OutputStream::Control(ControlSeq::EraseLine), OutputStream::Text("abc")]
    );
    assert_eq!(
        parse_str("abc\x1b[K"),
        vec![OutputStream::Text("abc"), OutputStream::Control(ControlSeq::EraseLine)]
    );
}

#[test]
fn unrecognized_escape_folds_into_text() {
    let tokens = parse_str("ab\x1b[?25hcd");
    assert_eq!(tokens, vec![OutputStream::Text("ab"), OutputStream::Text("\x1b[?25hcd")]);
    assert!(tokens.iter().all(|token| matches!(token, OutputStream::Text(_))));
    assert!(tokens.iter().any(|token| text(token).unwrap().contains('\x1b')));
}

#[test]
fn unrecognized_escape_starts_the_text_that_holds_it() {
    assert_eq!(parse_str("\x1bxyz"), vec![OutputStream::Text("\x1bxyz")]);
    assert_eq!(parse_str("\x1b"), vec![OutputStream::Text("\x1b")]);
    assert_eq!(parse_str("abc\x1b"), vec![OutputStream::Text("abc"), OutputStream::Text("\x1b")]);
    assert_eq!(
        parse_str("\x1bX\x1bY"),
        vec![OutputStream::Text("\x1bX"), OutputStream::Text("\x1bY")]
    );
    assert_eq!(
        parse_str("\x1b\x1b[s"),
        vec![OutputStream::Text("\x1b"), OutputStream::Control(ControlSeq::SaveCursorPosition)]
    );
}

#[test]
fn truncated_sequence_is_text() {
    assert_eq!(parse_str("\x1b["), vec![OutputStream::Text("\x1b[")]);
    assert_eq!(parse_str("\x1b[12"), vec![OutputStream::Text("\x1b[12")]);
    assert_eq!(
        parse_str("a\x1b[1;2"),
        vec![OutputStream::Text("a"), OutputStream::Text("\x1b[1;2")]
    );
    assert_eq!(
        parse_str("\x1b[12\x1b[2J"),
        vec![OutputStream::Text("\x1b[12"), OutputStream::Control(ControlSeq::EraseDisplay)]
    );
}

#[test]
fn scanning_resumes_right_behind_the_final_letter() {
    assert_eq!(
        parse_str("\x1b[2JJ"),
        vec![OutputStream::Control(ControlSeq::EraseDisplay), OutputStream::Text("J")]
    );
    assert_eq!(
        parse_str("\x1b[1;2H;3m"),
        vec![OutputStream::Control(ControlSeq::CursorPositionYX(1, 2)), OutputStream::Text(";3m"),]
    );
}

#[test]
fn text_of_more_than_one_byte_per_character_is_kept() {
    assert_eq!(
        parse_str("h\u{e9}llo\x1b[1mw\u{f6}rld \u{2713}\x1b[0m\u{1f600}"),
        vec![
            OutputStream::Text("h\u{e9}llo"),
            OutputStream::Control(ControlSeq::SetGraphicMode(vec![1])),
            OutputStream::Text("w\u{f6}rld \u{2713}"),
            OutputStream::Control(ControlSeq::SetGraphicMode(vec![0])),
            OutputStream::Text("\u{1f600}"),
        ]
    );
    assert_eq!(
        parse_str("\u{2713}\x1b\u{2713}"),
        vec![OutputStream::Text("\u{2713}"), OutputStream::Text("\x1b\u{2713}")]
    );
}

#[test]
fn value_too_large_leaves_text() {
    let input = format!("\x1b[{}0A", usize::MAX);
    assert_eq!(parse_str(&input), vec![OutputStream::Text(&input)]);
}

#[test]
fn text_tokens_borrow_from_the_input() {
    let input = String::from("abc\x1b[sdef");
    let tokens = parse_str(&input);
    let range = input.as_bytes().as_ptr_range();
    let mut seen = 0;
    for token in &tokens {
        if let OutputStream::Text(text) = token {
            assert!(range.contains(&text.as_ptr()));
            seen += 1;
        }
    }
    assert_eq!(seen, 2);
}

#[test]
fn sources_of_the_tokens_give_the_input_back() {
    let inputs = [
        "",
        "hello",
        "abc\x1b[2Jdef",
        "\x1b[s\x1b[u",
        "a\x1b[1;31mb\x1b[0mc\x1b[10;20Hd\x1b[3Ae\x1b[4Bf\x1b[5Cg\x1b[6Dh\x1b[Ki\x1b[H",
        "ab\x1b[?25hcd\x1b[1m",
        "\x1b\x1b\x1b[1;2",
        "h\u{e9}\x1b[1m\u{2713}\x1b",
    ];
    for input in inputs {
        let mut rebuilt = String::new();
        for token in parse_str(input) {
            match token {
                OutputStream::Text(text) => rebuilt.push_str(text),
                OutputStream::Control(command) => rebuilt.push_str(&spell(&command)),
            }
        }
        assert_eq!(rebuilt, input);
    }
}

fn spell(command: &ControlSeq) -> String {
    match command {
        ControlSeq::CursorPositionTopLeft => String::from("\x1b[H"),
        ControlSeq::CursorPositionYX(row, column) => format!("\x1b[{};{}H", row, column),
        ControlSeq::CursorUp(amount) => format!("\x1b[{}A", amount),
        ControlSeq::CursorDown(amount) => format!("\x1b[{}B", amount),
        ControlSeq::CursorForward(amount) => format!("\x1b[{}C", amount),
        ControlSeq::CursorBackward(amount) => format!("\x1b[{}D", amount),
        ControlSeq::SaveCursorPosition => String::from("\x1b[s"),
        ControlSeq::RestoreCursorPosition => String::from("\x1b[u"),
        ControlSeq::EraseDisplay => String::from("\x1b[2J"),
        ControlSeq::EraseLine => String::from("\x1b[K"),
        ControlSeq::SetGraphicMode(values) => {
            let values: Vec<String> = values.iter().map(|value| value.to_string()).collect();
            format!("\x1b[{}m", values.join(";"))
        },
    }
}

#[test]
fn tokens_compare_by_variant_and_content() {
    assert_eq!(OutputStream::Text("abc"), OutputStream::Text("abc"));
    assert_ne!(OutputStream::Text("abc"), OutputStream::Text("abd"));
    assert_ne!(OutputStream::Text("abc"), OutputStream::Text("ab"));
    assert_ne!(OutputStream::Text(""), OutputStream::Control(ControlSeq::EraseLine));
    assert_eq!(
        OutputStream::Control(ControlSeq::CursorUp(3)),
        OutputStream::Control(ControlSeq::CursorUp(3))
    );
    assert_ne!(
        OutputStream::Control(ControlSeq::CursorUp(3)),
        OutputStream::Control(ControlSeq::CursorDown(3))
    );
    let owned = String::from("abc");
    assert_eq!(OutputStream::Text(&owned), OutputStream::Text("abc"));
}
