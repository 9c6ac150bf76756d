use plhistr::delimiter::{detect_delimiter, DelimiterError};

#[test]
fn test_detect_delimiter_comma() {
    let data = "name,age,city\nAlice,30,NYC\n";
    let delimiter = detect_delimiter(data.as_bytes()).unwrap();
    assert_eq!(delimiter, ',');
}

#[test]
fn test_detect_delimiter_pipe() {
    let data = "name|age|city\nBob|25|LA\n";
    let delimiter = detect_delimiter(data.as_bytes()).unwrap();
    assert_eq!(delimiter, '|');
}

#[test]
fn test_detect_delimiter_space() {
    let data = "name age city\nCharlie 35 Boston\n";
    let delimiter = detect_delimiter(data.as_bytes()).unwrap();
    assert_eq!(delimiter, ' ', "Should detect space delimiter");
}

#[test]
fn test_detect_delimiter_tab() {
    let data = "name\tage\tcity\nAlice\t30\tNYC\n";
    let delimiter = detect_delimiter(data.as_bytes()).unwrap();
    assert_eq!(delimiter, '\t', "Should detect tab delimiter");
}

#[test]
fn test_detect_delimiter_defaults_to_comma() {
    let data = "name\nAlice\n";
    let delimiter = detect_delimiter(data.as_bytes()).unwrap();
    assert_eq!(
        delimiter, ',',
        "Should default to comma when no delimiter found"
    );
}

#[test]
fn test_detect_delimiter_empty_file() {
    let data = "";
    let result = detect_delimiter(data.as_bytes());
    assert!(result.is_err(), "Should return error for empty file");
    assert_eq!(
        result.unwrap_err().message(),
        "File is empty or contains no data"
    );
}

#[test]
fn test_detect_delimiter_only_whitespace() {
    let data = "   \n  \n";
    let result = detect_delimiter(data.as_bytes());
    assert!(
        result.is_err(),
        "Should return error for whitespace-only file"
    );
}

#[test]
fn detect_delimiter_prefers_tab_then_pipe_then_comma_on_ties() {
    assert_eq!(detect_delimiter(b"a|b,c\n").unwrap(), '|');
    assert_eq!(detect_delimiter(b"a\tb|c\n").unwrap(), '\t');
    assert_eq!(detect_delimiter(b"a,b c\n").unwrap(), ',');
    assert_eq!(detect_delimiter(b"a b c,d\n").unwrap(), ' ');
}

#[test]
fn detect_delimiter_reads_only_the_first_line() {
    assert_eq!(detect_delimiter(b"a|b\nc,d,e,f,g\n").unwrap(), '|');
    assert_eq!(detect_delimiter(b"x;y").unwrap(), ',');
}

#[test]
fn detect_delimiter_rejects_invalid_utf8_on_the_first_line() {
    let result = detect_delimiter(b"ab\xffcd,e\nok\n");
    assert_eq!(result, Err(DelimiterError::InvalidUtf8));
    assert_eq!(result.unwrap_err().message(), "Invalid UTF-8 in file");
    // Bytes after the first newline are not looked at.
    assert_eq!(detect_delimiter(b"a,b\n\xff\n").unwrap(), ',');
}

#[test]
fn detect_delimiter_treats_unicode_whitespace_as_blank() {
    let line = "\u{a0}\u{3000}\t \n1,2\n";
    assert_eq!(detect_delimiter(line.as_bytes()), Err(DelimiterError::Empty));
    // An empty first line is blank too.
    assert_eq!(detect_delimiter(b"\na,b\n"), Err(DelimiterError::Empty));
}
