use web_log::text::{is_char_boundary, shift_by_char_boundary};
use web_log::{Console, ConsoleType, BUFFER_CAPACITY};

const DATA: &str = "1234567891";

#[test]
fn should_normal_write() {
    let mut writer = Console::new(ConsoleType::Warn);

    assert_eq!(writer.typ(), ConsoleType::Warn);

    let data = DATA.as_bytes();

    writer.write_data(data);
    assert_eq!(writer.len(), data.len());
    assert_eq!(writer.buffer(), data);

    writer.write_data(b" ");
    writer.write_data(data);
    let expected = format!("{} {}", DATA, DATA);
    assert_eq!(writer.len(), expected.len());
    assert_eq!(writer.buffer(), expected.as_bytes());
}

#[test]
fn should_handle_write_overflow() {
    let mut writer = Console::new(ConsoleType::Warn);
    let data = DATA.as_bytes();

    for idx in 1..=409 {
        writer.write_data(data);
        assert_eq!(writer.len(), data.len() * idx);
    }

    writer.write_data(data);
    assert_eq!(writer.len(), 4);
    writer.flush();
    assert_eq!(writer.len(), 0);
}

#[test]
fn should_handle_write_overflow_outside_of_char_boundary() {
    let mut writer = Console::new(ConsoleType::Warn);
    let data = DATA.as_bytes();

    for idx in 1..=409 {
        writer.write_data(data);
        assert_eq!(writer.len(), data.len() * idx);
    }

    writer.write_data(b"1234");
    assert_eq!(4094, writer.len());
    let unicode = "ロリ";
    writer.write_data(unicode.as_bytes());
    assert_eq!(writer.len(), unicode.len());
    assert_eq!(writer.buffer(), unicode.as_bytes());
}

fn fill_409(writer: &mut Console) {
    for _ in 0..409 {
        let flushed = writer.write_data(DATA.as_bytes());
        assert!(flushed.is_empty());
    }
}

#[test]
fn capacity_is_4096() {
    assert_eq!(BUFFER_CAPACITY, 4096);
}

#[test]
fn new_writer_is_empty() {
    let writer = Console::new(ConsoleType::Error);
    assert_eq!(writer.typ(), ConsoleType::Error);
    assert_eq!(writer.len(), 0);
    assert_eq!(writer.buffer(), b"");
}

#[test]
fn filling_to_4090_flushes_nothing() {
    let mut writer = Console::new(ConsoleType::Info);
    for idx in 1..=409 {
        let flushed = writer.write_data(DATA.as_bytes());
        assert!(flushed.is_empty());
        assert_eq!(writer.len(), 10 * idx);
    }
}

#[test]
fn overflow_flushes_one_full_buffer() {
    let mut writer = Console::new(ConsoleType::Info);
    fill_409(&mut writer);
    let flushed = writer.write_data(DATA.as_bytes());
    assert_eq!(flushed.len(), 1);
    assert_eq!(flushed[0].len(), 4096);
    let mut expected = DATA.repeat(409);
    expected.push_str("123456");
    assert_eq!(flushed[0], expected.as_bytes());
    assert_eq!(writer.len(), 4);
    assert_eq!(writer.buffer(), b"7891");
}

#[test]
fn multibyte_char_is_not_split() {
    let mut writer = Console::new(ConsoleType::Info);
    fill_409(&mut writer);
    assert!(writer.write_data(b"1234").is_empty());
    assert_eq!(writer.len(), 4094);
    let flushed = writer.write_data("ロリ".as_bytes());
    assert_eq!(flushed.len(), 1);
    assert_eq!(flushed[0].len(), 4094);
    let mut expected = DATA.repeat(409);
    expected.push_str("1234");
    assert_eq!(flushed[0], expected.as_bytes());
    assert_eq!(writer.len(), 6);
    assert_eq!(writer.buffer(), "ロリ".as_bytes());
}

#[test]
fn multibyte_char_fills_what_fits() {
    let mut writer = Console::new(ConsoleType::Info);
    fill_409(&mut writer);
    assert!(writer.write_data(b"1").is_empty());
    assert_eq!(writer.len(), 4091);
    let flushed = writer.write_data("ロリ".as_bytes());
    assert_eq!(flushed.len(), 1);
    assert_eq!(flushed[0].len(), 4094);
    assert!(flushed[0].ends_with("ロ".as_bytes()));
    assert_eq!(writer.buffer(), "リ".as_bytes());
}

#[test]
fn empty_write_changes_nothing() {
    let mut writer = Console::new(ConsoleType::Debug);
    assert!(writer.write_data(b"").is_empty());
    assert_eq!(writer.len(), 0);
    writer.write_data(b"abc");
    assert!(writer.write_data(b"").is_empty());
    assert_eq!(writer.len(), 3);
    assert_eq!(writer.buffer(), b"abc");
}

#[test]
fn flush_of_empty_writer_gives_nothing() {
    let mut writer = Console::new(ConsoleType::Warn);
    assert_eq!(writer.flush(), None);
    writer.write_data(b"hi");
    assert_eq!(writer.flush(), Some(b"hi".to_vec()));
    assert_eq!(writer.flush(), None);
    assert_eq!(writer.len(), 0);
}

#[test]
fn finish_flushes_rest_once() {
    let mut writer = Console::new(ConsoleType::Warn);
    writer.write_data("héllo".as_bytes());
    assert_eq!(writer.finish(), Some("héllo".as_bytes().to_vec()));
    let empty = Console::new(ConsoleType::Warn);
    assert_eq!(empty.finish(), None);
}

#[test]
fn all_bytes_reach_the_sink_in_order() {
    let pieces = ["ab", "ロリ", "€", "𝄞x", "", "z"];
    let mut input = String::new();
    for i in 0..3000usize {
        input.push_str(pieces[i % pieces.len()]);
    }
    let mut writer = Console::new(ConsoleType::Info);
    let mut sent: Vec<Vec<u8>> = Vec::new();
    let bytes = input.as_bytes();
    let mut start: usize = 0;
    let mut step: usize = 1;
    while start < bytes.len() {
        let mut end = std::cmp::min(start + step, bytes.len());
        while !input.is_char_boundary(end) {
            end += 1;
        }
        sent.extend(writer.write_data(&bytes[start..end]));
        start = end;
        step = step * 3 % 5000 + 1;
    }
    if let Some(last) = writer.finish() {
        sent.push(last);
    }
    assert!(sent.len() > 1);
    let joined: Vec<u8> = sent.concat();
    assert_eq!(joined, bytes);
    for segment in &sent {
        assert!(!segment.is_empty());
        assert!(segment.len() <= BUFFER_CAPACITY);
        assert!(std::str::from_utf8(segment).is_ok());
    }
}

#[test]
fn one_large_write_splits_on_boundaries() {
    let input = "ロ".repeat(5000);
    let mut writer = Console::new(ConsoleType::Error);
    let flushed = writer.write_data(input.as_bytes());
    assert_eq!(flushed.len(), 3);
    for segment in &flushed {
        assert_eq!(segment.len(), 4095);
    }
    assert_eq!(writer.len(), 2715);
    for segment in &flushed {
        assert!(std::str::from_utf8(segment).is_ok());
    }
}

#[test]
fn exact_fill_flushes_only_when_more_comes() {
    let mut writer = Console::new(ConsoleType::Error);
    let block = vec![b'a'; 4096];
    assert!(writer.write_data(&block).is_empty());
    assert_eq!(writer.len(), 4096);
    let flushed = writer.write_data(b"b");
    assert_eq!(flushed, vec![block]);
    assert_eq!(writer.buffer(), b"b");
}

#[test]
fn char_boundary_follows_continuation_bits() {
    let text = "aロ".as_bytes();
    assert!(is_char_boundary(text, 0));
    assert!(is_char_boundary(text, 1));
    assert!(!is_char_boundary(text, 2));
    assert!(!is_char_boundary(text, 3));
    assert!(is_char_boundary(text, 4));
    assert!(!is_char_boundary(text, 5));
    assert!(is_char_boundary(&[0x80], 0));
    assert!(!is_char_boundary(&[0x00, 0xbf], 1));
    assert!(is_char_boundary(&[0x00, 0xc0], 1));
    assert!(is_char_boundary(&[0x00, 0x7f], 1));
}

#[test]
fn shift_walks_down_to_boundary() {
    let text = "aロb".as_bytes();
    assert_eq!(shift_by_char_boundary(text, 3), 1);
    assert_eq!(shift_by_char_boundary(text, 2), 1);
    assert_eq!(shift_by_char_boundary(text, 4), 4);
    assert_eq!(shift_by_char_boundary(text, 5), 5);
    assert_eq!(shift_by_char_boundary(&[0x80, 0x80], 1), 0);
}
