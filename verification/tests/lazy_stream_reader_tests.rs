use tkom::lazy_stream_reader::{LazyStreamReader, ETX, STX};

fn check_hello_world(mut stream_reader: LazyStreamReader) {
    let expected: Vec<(char, u32, u32)> = vec![
        ('h', 1, 1),
        ('e', 1, 2),
        ('l', 1, 3),
        ('l', 1, 4),
        ('o', 1, 5),
        ('\n', 1, 6),
        ('w', 2, 1),
        ('o', 2, 2),
        ('r', 2, 3),
        ('l', 2, 4),
        ('d', 2, 5),
        (ETX, 2, 6),
        (ETX, 2, 6),
    ];

    assert_eq!(stream_reader.current(), STX);
    assert_eq!(stream_reader.position().line, 0);
    assert_eq!(stream_reader.position().column, 0);

    for (exp_char, exp_line, exp_col) in &expected {
        assert_eq!(stream_reader.next(), *exp_char);
        assert_eq!(stream_reader.position().line, *exp_line);
        assert_eq!(stream_reader.position().column, *exp_col);
    }
}

#[test]
fn lazy_stream_reader_test_lazy_stream_reader() {
    let code = "hello\nworld".as_bytes().to_vec();
    check_hello_world(LazyStreamReader::new(code));
}

#[test]
fn lazy_stream_reader_tests_test_lazy_stream_reader() {
    let code = r#"hello
world"#
        .as_bytes()
        .to_vec();
    check_hello_world(LazyStreamReader::new(code));
}
