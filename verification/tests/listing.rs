use rust_labs::listing::{
    bad_dir, bad_path, frame, listing, read_progress, request, request_of, trim, write_progress,
    Framed, Progress, Request, LIMIT,
};

#[test]
fn frame_of_nothing_is_empty() {
    assert!(matches!(frame(b""), Framed::Empty));
}

#[test]
fn frame_ends_at_the_first_line_break() {
    match frame(b"/tmp\nrest\n") {
        Framed::Line(line) => assert_eq!(line, b"/tmp".to_vec()),
        other => panic!("{:?}", other),
    }
    match frame(b"\n") {
        Framed::Line(line) => assert_eq!(line, Vec::<u8>::new()),
        other => panic!("{:?}", other),
    }
}

#[test]
fn frame_without_line_break() {
    match frame(b"/tmp") {
        Framed::Line(line) => assert_eq!(line, b"/tmp".to_vec()),
        other => panic!("{:?}", other),
    }
    assert_eq!(LIMIT, 100);
    assert!(matches!(frame(&[b'a'; 100]), Framed::TooLong));
    assert!(matches!(frame(&[b'a'; 99]), Framed::Line(_)));
    let mut full = [b'a'; 100];
    full[99] = b'\n';
    match frame(&full) {
        Framed::Line(line) => assert_eq!(line, vec![b'a'; 99]),
        other => panic!("{:?}", other),
    }
}

#[test]
fn request_names_the_trimmed_path() {
    match request(b"  /var/log \r\n") {
        Request::List(path) => assert_eq!(path, "/var/log"),
        other => panic!("{:?}", other),
    }
    match request("\u{17c}\u{f3}\u{142}w\n".as_bytes()) {
        Request::List(path) => assert_eq!(path, "\u{17c}\u{f3}\u{142}w"),
        other => panic!("{:?}", other),
    }
    match request(b"\n") {
        Request::List(path) => assert_eq!(path, ""),
        other => panic!("{:?}", other),
    }
}

#[test]
fn request_without_a_path() {
    assert!(matches!(request(b""), Request::Empty));
    assert!(matches!(request(&[0xff, 0xfe, b'\n']), Request::BadPath));
    assert!(matches!(request(&[b'a'; 100]), Request::BadPath));
    assert!(matches!(request(&[b'a'; 250]), Request::BadPath));
    assert!(matches!(request_of(Framed::TooLong), Request::BadPath));
    assert!(matches!(request_of(Framed::Empty), Request::Empty));
    assert!(matches!(request_of(Framed::Line(vec![0xc3])), Request::BadPath));
}

#[test]
fn replies() {
    assert_eq!(bad_path(), "Bad path\n");
    assert_eq!(bad_dir(), "Bad dir\n");
    assert_eq!(listing(&vec![]), "");
    assert_eq!(listing(&vec![String::from("a.txt"), String::from("b")]), "a.txt\nb\n");
}

#[test]
fn reading_goes_on_until_a_line_break_or_a_full_buffer() {
    assert_eq!(read_progress(b"", 0, 100), Progress::Closed);
    assert_eq!(read_progress(b"/tm", 3, 100), Progress::Wanting);
    assert_eq!(read_progress(b"/tmp\n", 2, 100), Progress::Complete);
    assert_eq!(read_progress(&[b'a'; 100], 40, 100), Progress::Complete);
    assert_eq!(read_progress(b"/tmp\n", 0, 100), Progress::Closed);
}

#[test]
fn writing_goes_on_until_all_is_written() {
    assert_eq!(write_progress(0, 0, 9), Progress::Closed);
    assert_eq!(write_progress(4, 4, 9), Progress::Wanting);
    assert_eq!(write_progress(9, 5, 9), Progress::Complete);
}

#[test]
fn trim_strips_white_space_at_both_ends_only() {
    assert_eq!(trim(""), "");
    assert_eq!(trim("abc"), "abc");
    assert_eq!(trim("  a b \t\r\n"), "a b");
    assert_eq!(trim(" \n\t "), "");
    assert_eq!(trim("\u{3000}\u{a0}path with spaces\u{2028}"), "path with spaces");
    assert_eq!(trim("x "), "x");
    assert_eq!(trim(" x"), "x");
    // what is no white space stays
    assert_eq!(trim("\u{200b}x\u{200b}"), "\u{200b}x\u{200b}");
    for text in ["", " ", " a", "a ", "  \u{17c} \u{142}  ", "\ta\tb\t"] {
        assert_eq!(trim(text), text.trim());
    }
}
