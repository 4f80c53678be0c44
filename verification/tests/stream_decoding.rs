use trendy_cli::fetch::stream::{parse_stream_line, StreamDecoder, StreamLine};

fn token_line(content: &str) -> String {
    format!(
        "data: {{\"choices\":[{{\"delta\":{{\"content\":\"{}\"}}}}]}}\n",
        content
    )
}

fn token_of(line: &str) -> Option<String> {
    match parse_stream_line(line) {
        StreamLine::Token(t) => Some(t),
        _ => None,
    }
}

#[test]
fn parse_stream_line_reads_content() {
    assert_eq!(token_of(&token_line("Hello")), Some("Hello".to_string()));
}

#[test]
fn parse_stream_line_recognises_done() {
    assert!(matches!(parse_stream_line("data: [DONE]"), StreamLine::Done));
    assert!(matches!(parse_stream_line("  data: [DONE]\r\n"), StreamLine::Done));
}

#[test]
fn parse_stream_line_ignores_other_lines() {
    assert!(matches!(parse_stream_line(""), StreamLine::Ignored));
    assert!(matches!(parse_stream_line(": keep-alive"), StreamLine::Ignored));
    assert!(matches!(parse_stream_line("event: message"), StreamLine::Ignored));
    assert!(matches!(parse_stream_line("data: [DONE] "), StreamLine::Done));
    assert!(matches!(parse_stream_line("data: [DONE]x"), StreamLine::Ignored));
    assert!(matches!(parse_stream_line("data:[DONE]"), StreamLine::Ignored));
    assert!(matches!(parse_stream_line("data: not json"), StreamLine::Ignored));
}

#[test]
fn parse_stream_line_ignores_chunks_without_text_content() {
    assert!(matches!(
        parse_stream_line("data: {\"choices\":[{\"delta\":{\"role\":\"assistant\"}}]}"),
        StreamLine::Ignored
    ));
    assert!(matches!(
        parse_stream_line("data: {\"choices\":[]}"),
        StreamLine::Ignored
    ));
    assert!(matches!(
        parse_stream_line("data: {\"choices\":[{\"delta\":{\"content\":5}}]}"),
        StreamLine::Ignored
    ));
}

#[test]
fn parse_stream_line_unescapes_json_strings() {
    assert_eq!(
        token_of("data: {\"choices\":[{\"delta\":{\"content\":\"a\\nb \\u00e9\"}}]}"),
        Some("a\nb é".to_string())
    );
}

#[test]
fn decoder_reads_complete_lines_and_keeps_the_rest() {
    let mut d = StreamDecoder::new();
    let body = format!("{}{}", token_line("Hel"), "data: {\"choi");
    let (tokens, done) = d.push_chunk(body.as_bytes());
    assert_eq!(tokens, vec!["Hel".to_string()]);
    assert!(!done);
    assert_eq!(d.buffer, b"data: {\"choi".to_vec());
}

#[test]
fn decoder_stops_at_done_marker() {
    let mut d = StreamDecoder::new();
    let body = format!("{}data: [DONE]\n{}", token_line("a"), token_line("never"));
    let (tokens, done) = d.push_chunk(body.as_bytes());
    assert_eq!(tokens, vec!["a".to_string()]);
    assert!(done);
}

#[test]
fn decoder_result_does_not_depend_on_chunking() {
    let body = format!(
        "{}\n: comment\n{}{}data: [DONE]\n{}",
        token_line("One"),
        token_line(" two"),
        token_line(" thrée"),
        token_line("after")
    );
    let bytes = body.as_bytes();

    let mut whole = StreamDecoder::new();
    let (all_tokens, all_done) = whole.push_chunk(bytes);

    for size in 1..8 {
        let mut d = StreamDecoder::new();
        let mut tokens = Vec::new();
        let mut done = false;
        for chunk in bytes.chunks(size) {
            let (t, fin) = d.push_chunk(chunk);
            tokens.extend(t);
            if fin {
                done = true;
                break;
            }
        }
        assert_eq!(tokens, all_tokens, "chunk size {}", size);
        assert_eq!(done, all_done);
    }
    assert_eq!(all_tokens, vec!["One", " two", " thrée"]);
    assert!(all_done);
}

#[test]
fn decoder_skips_lines_that_are_not_utf8() {
    let mut d = StreamDecoder::new();
    let mut body = b"data: \xff\xfe\n".to_vec();
    body.extend_from_slice(token_line("ok").as_bytes());
    let (tokens, done) = d.push_chunk(&body);
    assert_eq!(tokens, vec!["ok".to_string()]);
    assert!(!done);
}

#[test]
fn finish_reads_the_last_unterminated_line() {
    let mut d = StreamDecoder::new();
    let line = token_line("tail");
    let without_newline = &line.as_bytes()[..line.len() - 1];
    let (tokens, done) = d.push_chunk(without_newline);
    assert!(tokens.is_empty());
    assert!(!done);
    assert_eq!(d.finish(), Some("tail".to_string()));
}

#[test]
fn finish_of_empty_buffer_gives_nothing() {
    let d = StreamDecoder::new();
    assert_eq!(d.finish(), None);
}

#[test]
fn decoder_reads_crlf_lines_like_lf_lines() {
    let lf = format!("{}data: [DONE]\n", token_line("x"));
    let crlf = lf.replace('\n', "\r\n");
    let mut a = StreamDecoder::new();
    let mut b = StreamDecoder::new();
    assert_eq!(a.push_chunk(lf.as_bytes()), b.push_chunk(crlf.as_bytes()));
    assert_eq!(a.push_chunk(lf.as_bytes()).0, vec!["x".to_string()]);
}
