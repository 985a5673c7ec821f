use extsort::lines::{FromLine, IntoLine, Line, LineError};

fn line(s: &str) -> Line {
    Line::new(s.to_string()).unwrap()
}

#[test]
fn line_round_trip() {
    let l = line("hello world");
    let text = l.into_line();
    assert_eq!(text, "hello world");
    let back = Line::from_line(&text).unwrap();
    assert_eq!(back.into_line(), "hello world");
}

#[test]
fn empty_line_round_trip() {
    let l = line("");
    let text = l.into_line();
    assert_eq!(text, "");
    let back = Line::from_line(&text).unwrap();
    assert_eq!(back.into_line(), "");
}

#[test]
fn line_rejects_forbidden_characters() {
    assert!(Line::new("a\nb".to_string()).is_none());
    assert!(Line::new("a\rb".to_string()).is_none());
    assert!(Line::new("a\u{0}b".to_string()).is_none());
    assert!(matches!(Line::from_line("a\u{0}b"), Err(LineError::InvalidInput)));
}

#[test]
fn result_codec_ok_branch() {
    let r: Result<Line, Line> = Ok(line("value"));
    let text = r.into_line();
    assert_eq!(text, "1value");
    match <Result<Line, Line> as FromLine>::from_line(&text) {
        Ok(Ok(v)) => assert_eq!(v.into_line(), "value"),
        _ => panic!("expected the success branch"),
    }
}

#[test]
fn result_codec_err_branch() {
    let r: Result<Line, Line> = Err(line("oops"));
    let text = r.into_line();
    assert_eq!(text, "0oops");
    match <Result<Line, Line> as FromLine>::from_line(&text) {
        Ok(Err(e)) => assert_eq!(e.into_line(), "oops"),
        _ => panic!("expected the error branch"),
    }
}

#[test]
fn result_codec_rejects_bad_prefix() {
    assert!(matches!(
        <Result<Line, Line> as FromLine>::from_line("2abc"),
        Err(LineError::InvalidInput)
    ));
    assert!(matches!(
        <Result<Line, Line> as FromLine>::from_line(""),
        Err(LineError::InvalidInput)
    ));
}

#[test]
fn line_length_estimates() {
    assert_eq!(line("abc").line_len(), 3);
    assert_eq!(line("").line_len(), 0);
    let r: Result<Line, Line> = Ok(line("abc"));
    assert_eq!(r.line_len(), 4);
    let e: Result<Line, Line> = Err(line("xy"));
    assert_eq!(e.line_len(), 3);
}
