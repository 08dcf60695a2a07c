use pnets::tina::reader::{Position, Reader};

#[test]
fn read_ascii_test() {
    for i in 0..127 {
        match char::from_u32(i as u32) {
            None => (),
            Some(c) => {
                let tmp = c.to_string();
                let mut reader: Reader = Reader::new(tmp.as_ref());
                let result = reader.read();
                assert_eq!(result.is_ok(), true);
                assert_eq!(result.unwrap(), c);
            }
        }
    }
}

#[test]
fn read_two_bytes_test() {
    for i in 128..0xFFFF {
        match char::from_u32(i as u32) {
            None => (),
            Some(c) => {
                let tmp = c.to_string();
                let mut reader: Reader = Reader::new(tmp.as_ref());
                let result = reader.read();
                assert_eq!(result.is_ok(), true);
                assert_eq!(result.unwrap(), c);
            }
        }
    }
}

#[test]
fn read_three_bytes_test() {
    for i in 0xFFFF..0xFFFFFF {
        match char::from_u32(i as u32) {
            None => (),
            Some(c) => {
                let tmp = c.to_string();
                let mut reader: Reader = Reader::new(tmp.as_ref());
                let result = reader.read();
                assert_eq!(result.is_ok(), true);
                assert_eq!(result.unwrap(), c);
            }
        }
    }
}

#[test]
fn read_four_bytes_test() {
    for i in 0xFFFFFF..0x0FFFFFFF {
        match char::from_u32(i as u32) {
            None => (),
            Some(c) => {
                let tmp = c.to_string();
                let mut reader: Reader = Reader::new(tmp.as_ref());
                let result = reader.read();
                assert_eq!(result.is_ok(), true);
                assert_eq!(result.unwrap(), c);
            }
        }
    }
}

#[test]
fn reader_counts_lines_and_columns() {
    let mut reader = Reader::new("ab\ncd".as_bytes());
    assert_eq!(reader.next_position, Position { line: 1, column: 1 });
    assert_eq!(reader.peek().unwrap(), 'a');
    assert_eq!(reader.read().unwrap(), 'a');
    assert_eq!(reader.current_position, Position { line: 1, column: 1 });
    assert_eq!(reader.read().unwrap(), 'b');
    assert_eq!(reader.read().unwrap(), '\n');
    assert_eq!(reader.current_position, Position { line: 1, column: 3 });
    assert_eq!(reader.next_position, Position { line: 2, column: 1 });
    assert_eq!(reader.read().unwrap(), 'c');
    assert_eq!(reader.read().unwrap(), 'd');
    assert!(reader.at_end());
    assert_eq!(reader.read().unwrap(), '\0');
    assert_eq!(reader.read().unwrap(), '\0');
    assert_eq!(reader.offset(), 5);
}

#[test]
fn reader_refuses_bytes_that_are_no_character() {
    let bytes = [0xFFu8, b'a'];
    let mut reader = Reader::new(&bytes);
    assert!(reader.peek().is_err());
    assert!(reader.read().is_err());
    // a surrogate, written as three bytes
    let bytes = [0xEDu8, 0xA0, 0x80];
    let mut reader = Reader::new(&bytes);
    assert!(reader.read().is_err());
}
