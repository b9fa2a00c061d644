use easy_io::{ByteSource, Decimal, DeviceError, Error, InputReader, MemorySource};

fn reader(input: &[u8], capacity: usize, chunk: usize) -> InputReader<MemorySource> {
    let source = MemorySource::with_chunk(input.to_vec(), chunk);
    let mut r = InputReader::from_reader(source);
    assert_eq!(r.set_buf_size(capacity), Ok(()));
    r
}

fn plain(input: &str) -> InputReader<MemorySource> {
    InputReader::from_reader(MemorySource::new(input.as_bytes().to_vec()))
}

fn to_f64(d: &Decimal) -> f64 {
    let split = d.digits.len() - d.scale;
    let mut whole = 0.0;
    for digit in &d.digits[..split] {
        whole = whole * 10.0 + *digit as f64;
    }
    let mut fraction = 0.0;
    let mut factor = 1.0;
    for digit in &d.digits[split..] {
        fraction = fraction * 10.0 + *digit as f64;
        factor *= 10.0;
    }
    let sign = if d.negative { -1.0 } else { 1.0 };
    sign * (whole + fraction / factor)
}

/// Hands out its bytes and then fails instead of ending.
struct BrokenSource {
    data: Vec<u8>,
    pos: usize,
}

impl BrokenSource {
    fn new(data: &str) -> Self {
        BrokenSource { data: data.as_bytes().to_vec(), pos: 0 }
    }
}

impl ByteSource for BrokenSource {
    fn read(&mut self, buf: &mut [u8]) -> Result<usize, DeviceError> {
        if self.pos == self.data.len() {
            return Err(DeviceError);
        }
        let n = buf.len().min(self.data.len() - self.pos);
        buf[..n].copy_from_slice(&self.data[self.pos..self.pos + n]);
        self.pos += n;
        Ok(n)
    }
}

/// Claims to have read more than the buffer holds.
struct LyingSource;

impl ByteSource for LyingSource {
    fn read(&mut self, buf: &mut [u8]) -> Result<usize, DeviceError> {
        Ok(buf.len() + 1)
    }
}

/// Ends once, and would have more to say if it were asked again.
struct RestlessSource {
    reads: usize,
}

impl ByteSource for RestlessSource {
    fn read(&mut self, buf: &mut [u8]) -> Result<usize, DeviceError> {
        self.reads += 1;
        if self.reads == 2 || buf.is_empty() {
            return Ok(0);
        }
        buf[0] = b'7';
        Ok(1)
    }
}

/// Writes down the size of every buffer it is asked to fill.
struct WatchedSource {
    inner: MemorySource,
    offers: std::rc::Rc<std::cell::RefCell<Vec<usize>>>,
}

impl ByteSource for WatchedSource {
    fn read(&mut self, buf: &mut [u8]) -> Result<usize, DeviceError> {
        self.offers.borrow_mut().push(buf.len());
        self.inner.read(buf)
    }
}

#[test]
fn end_to_end_scenario() {
    let mut r = plain("3 foo -7\n");
    assert_eq!(r.next_unsigned(), Ok(3));
    assert_eq!(r.next_word(), Ok(String::from("foo")));
    assert_eq!(r.next_signed(), Ok(-7));
    assert_eq!(r.next_line(), Ok(String::new()));
    assert_eq!(r.has_more(), Ok(false));
}

#[test]
fn end_to_end_scenario_with_every_buffer() {
    let input = b"3 foo -7\n";
    for capacity in 1..=input.len() {
        for chunk in 1..=input.len() {
            let mut r = reader(input, capacity, chunk);
            assert_eq!(r.next_unsigned(), Ok(3));
            assert_eq!(r.next_word(), Ok(String::from("foo")));
            assert_eq!(r.next_signed(), Ok(-7));
            assert_eq!(r.next_line(), Ok(String::new()));
            assert_eq!(r.has_more(), Ok(false));
        }
    }
}

#[test]
fn unsigned_list_is_read_back_in_order() {
    let numbers: Vec<u64> = vec![0, 7, 12, 300, 65536, 4294967296, 18446744073709551615, 1];
    let mut text = String::from(" \t");
    for (i, n) in numbers.iter().enumerate() {
        if i > 0 {
            text.push_str(if i % 2 == 0 { "\n" } else { " \r\n\t" });
        }
        text.push_str(&n.to_string());
    }
    let input = text.as_bytes();
    for capacity in 1..=input.len() {
        let mut r = reader(input, capacity, input.len());
        for n in &numbers {
            assert_eq!(r.next_unsigned(), Ok(*n));
        }
        assert_eq!(r.next_unsigned(), Err(Error::EndOfInput));
        assert_eq!(r.has_more(), Ok(false));
    }
}

#[test]
fn unsigned_skips_everything_that_is_no_digit() {
    let mut r = plain("abc-12.5e3,x");
    assert_eq!(r.next_unsigned(), Ok(12));
    assert_eq!(r.next_unsigned(), Ok(5));
    assert_eq!(r.next_unsigned(), Ok(3));
    assert_eq!(r.next_unsigned(), Err(Error::EndOfInput));
}

#[test]
fn unsigned_wraps_at_64_bits() {
    let mut r = plain("18446744073709551615 18446744073709551616 18446744073709551621");
    assert_eq!(r.next_unsigned(), Ok(u64::MAX));
    assert_eq!(r.next_unsigned(), Ok(0));
    assert_eq!(r.next_unsigned(), Ok(5));
    let mut r = plain("340282366920938463463374607431768211457");
    assert_eq!(r.next_unsigned(), Ok(1));
}

#[test]
fn leading_zeros_do_not_matter() {
    let mut r = plain("007 000");
    assert_eq!(r.next_unsigned(), Ok(7));
    assert_eq!(r.next_unsigned(), Ok(0));
}

#[test]
fn signed_round_trip() {
    let numbers: Vec<i64> = vec![0, -1, 1, -7, 42, -2147483648, i64::MAX, i64::MIN, -10, 10];
    let mut text = String::new();
    for n in &numbers {
        text.push_str(&n.to_string());
        text.push(' ');
    }
    let input = text.as_bytes();
    for capacity in [1, 2, 3, 5, 8, input.len()] {
        for chunk in [1, 2, 7, input.len()] {
            let mut r = reader(input, capacity, chunk);
            for n in &numbers {
                assert_eq!(r.next_signed(), Ok(*n));
            }
            assert_eq!(r.next_signed(), Err(Error::EndOfInput));
        }
    }
}

#[test]
fn lone_minus_is_a_separator() {
    let mut r = plain("5 - 3");
    assert_eq!(r.next_signed(), Ok(5));
    assert_eq!(r.next_signed(), Ok(3));
    assert_eq!(r.next_signed(), Err(Error::EndOfInput));
    let mut r = plain("5 - 3");
    assert_eq!(r.next_word(), Ok(String::from("5")));
    assert_eq!(r.next_word(), Ok(String::from("-")));
    assert_eq!(r.next_word(), Ok(String::from("3")));
}

#[test]
fn minus_counts_only_directly_before_a_digit() {
    let mut r = plain("--5 -x-6 - -7 8-9");
    assert_eq!(r.next_signed(), Ok(-5));
    assert_eq!(r.next_signed(), Ok(-6));
    assert_eq!(r.next_signed(), Ok(-7));
    assert_eq!(r.next_signed(), Ok(8));
    assert_eq!(r.next_signed(), Ok(-9));
    let mut r = plain("-0");
    assert_eq!(r.next_signed(), Ok(0));
}

#[test]
fn minus_at_the_end_is_no_number() {
    let mut r = plain("abc -");
    assert_eq!(r.next_signed(), Err(Error::EndOfInput));
    assert_eq!(r.has_more(), Ok(false));
    let mut r = plain("- ");
    assert_eq!(r.next_signed(), Err(Error::EndOfInput));
}

#[test]
fn signed_wraps_in_twos_complement() {
    let mut r = plain("9223372036854775808 -9223372036854775809 18446744073709551615");
    assert_eq!(r.next_signed(), Ok(i64::MIN));
    assert_eq!(r.next_signed(), Ok(i64::MAX));
    assert_eq!(r.next_signed(), Ok(-1));
}

#[test]
fn sign_is_looked_for_after_the_cursor_only() {
    let mut r = plain("-5");
    assert_eq!(r.next_char(), Ok('-'));
    assert_eq!(r.next_signed(), Ok(5));
}

#[test]
fn decimal_with_fraction() {
    let mut r = plain("3.140000");
    let d = r.next_decimal().unwrap();
    assert_eq!(d, Decimal { negative: false, digits: vec![3, 1, 4, 0, 0, 0, 0], scale: 6 });
    assert!((to_f64(&d) - 3.14).abs() < 1e-12);
    assert_eq!(r.has_more(), Ok(false));
}

#[test]
fn decimal_negative() {
    let mut r = plain("-0.5");
    let d = r.next_decimal().unwrap();
    assert_eq!(d, Decimal { negative: true, digits: vec![0, 5], scale: 1 });
    assert_eq!(to_f64(&d), -0.5);
}

#[test]
fn decimal_without_fraction() {
    let mut r = plain("42");
    let d = r.next_decimal().unwrap();
    assert_eq!(d, Decimal { negative: false, digits: vec![4, 2], scale: 0 });
    assert_eq!(to_f64(&d), 42.0);
}

#[test]
fn decimal_point_without_digits_behind_it() {
    let mut r = plain("3. 4.x -5.");
    assert_eq!(r.next_decimal(), Ok(Decimal { negative: false, digits: vec![3], scale: 0 }));
    assert_eq!(r.next_decimal(), Ok(Decimal { negative: false, digits: vec![4], scale: 0 }));
    assert_eq!(r.next_char(), Ok('x'));
    assert_eq!(r.next_decimal(), Ok(Decimal { negative: true, digits: vec![5], scale: 0 }));
    assert_eq!(r.has_more(), Ok(false));
}

#[test]
fn decimal_needs_a_digit_before_the_point() {
    let mut r = plain(".5 1.2.3");
    assert_eq!(r.next_decimal(), Ok(Decimal { negative: false, digits: vec![5], scale: 0 }));
    assert_eq!(r.next_decimal(), Ok(Decimal { negative: false, digits: vec![1, 2], scale: 1 }));
    assert_eq!(r.next_decimal(), Ok(Decimal { negative: false, digits: vec![3], scale: 0 }));
    assert_eq!(r.next_decimal(), Err(Error::EndOfInput));
}

#[test]
fn decimal_keeps_every_digit() {
    let text = "0.1234567890123456789012345678901234567890";
    for capacity in [1, 3, text.len()] {
        let mut r = reader(text.as_bytes(), capacity, 2);
        let d = r.next_decimal().unwrap();
        assert_eq!(d.digits.len(), 41);
        assert_eq!(d.scale, 40);
        assert!(!d.negative);
        assert_eq!(d.digits[0], 0);
        assert_eq!(d.digits[40], 0);
        assert_eq!(d.digits[39], 9);
    }
}

#[test]
fn decimal_with_every_buffer() {
    let input = b"x -12.75, 8 .25-0.0";
    for capacity in 1..=input.len() {
        for chunk in 1..=input.len() {
            let mut r = reader(input, capacity, chunk);
            assert_eq!(to_f64(&r.next_decimal().unwrap()), -12.75);
            assert_eq!(to_f64(&r.next_decimal().unwrap()), 8.0);
            assert_eq!(to_f64(&r.next_decimal().unwrap()), 25.0);
            let last = r.next_decimal().unwrap();
            assert_eq!(last, Decimal { negative: true, digits: vec![0, 0], scale: 1 });
            assert_eq!(r.next_decimal(), Err(Error::EndOfInput));
        }
    }
}

#[test]
fn word_that_ends_with_the_input() {
    for capacity in 1..=7 {
        let mut r = reader(b"  hello", capacity, 3);
        assert_eq!(r.next_word(), Ok(String::from("hello")));
        assert_eq!(r.has_more(), Ok(false));
        assert_eq!(r.next_word(), Err(Error::EndOfInput));
    }
}

#[test]
fn line_that_ends_with_the_input() {
    for capacity in 1..=7 {
        let mut r = reader(b"ab\ncd e", capacity, 2);
        assert_eq!(r.next_line(), Ok(String::from("ab")));
        assert_eq!(r.next_line(), Ok(String::from("cd e")));
        assert_eq!(r.has_more(), Ok(false));
        assert_eq!(r.next_line(), Err(Error::EndOfInput));
    }
}

#[test]
fn words_are_runs_of_graphic_bytes() {
    let mut r = plain("\t one,two  three\u{7f}four\n!~ \0x");
    assert_eq!(r.next_word(), Ok(String::from("one,two")));
    assert_eq!(r.next_word(), Ok(String::from("three")));
    assert_eq!(r.next_word(), Ok(String::from("four")));
    assert_eq!(r.next_word(), Ok(String::from("!~")));
    assert_eq!(r.next_word(), Ok(String::from("x")));
    assert_eq!(r.next_word(), Err(Error::EndOfInput));
}

#[test]
fn bytes_beyond_ascii_are_no_part_of_a_word() {
    let mut r = reader(&[b'a', 0xe9, b'b', 0x80, 0xff], 2, 1);
    assert_eq!(r.next_word(), Ok(String::from("a")));
    assert_eq!(r.next_word(), Ok(String::from("b")));
    assert_eq!(r.next_word(), Err(Error::EndOfInput));
}

#[test]
fn lines_are_cut_at_line_feeds_only() {
    let mut r = plain("a b\r\n\n  c\t\nlast");
    assert_eq!(r.next_line(), Ok(String::from("a b\r")));
    assert_eq!(r.next_line(), Ok(String::new()));
    assert_eq!(r.next_line(), Ok(String::from("  c\t")));
    assert_eq!(r.next_line(), Ok(String::from("last")));
    assert_eq!(r.next_line(), Err(Error::EndOfInput));
}

#[test]
fn line_feed_at_the_end_makes_no_further_line() {
    let mut r = plain("only\n");
    assert_eq!(r.next_line(), Ok(String::from("only")));
    assert_eq!(r.has_more(), Ok(false));
    assert_eq!(r.next_line(), Err(Error::EndOfInput));
}

#[test]
fn line_takes_one_character_per_byte() {
    let mut r = reader(&[0xe9, b'!', 0xff, b'\n'], 1, 1);
    assert_eq!(r.next_line(), Ok(String::from("\u{e9}!\u{ff}")));
}

#[test]
fn chars_are_single_graphic_bytes() {
    let mut r = plain(" \n x yz");
    assert_eq!(r.next_char(), Ok('x'));
    assert_eq!(r.next_char(), Ok('y'));
    assert_eq!(r.next_char(), Ok('z'));
    assert_eq!(r.has_more(), Ok(false));
    assert_eq!(r.next_char(), Err(Error::EndOfInput));
}

#[test]
fn tokens_of_every_kind_with_every_buffer() {
    let input = b"  12 -34 word\n5.25 x rest of line\n-9z";
    for capacity in 1..=input.len() {
        for chunk in 1..=input.len() {
            let mut r = reader(input, capacity, chunk);
            assert_eq!(r.has_more(), Ok(true));
            assert_eq!(r.next::<u64>(), Ok(12));
            assert_eq!(r.next::<i64>(), Ok(-34));
            assert_eq!(r.next::<String>(), Ok(String::from("word")));
            assert_eq!(
                r.next::<Decimal>(),
                Ok(Decimal { negative: false, digits: vec![5, 2, 5], scale: 2 })
            );
            assert_eq!(r.next::<char>(), Ok('x'));
            assert_eq!(r.next_line(), Ok(String::from(" rest of line")));
            assert_eq!(r.next::<i8>(), Ok(-9));
            assert_eq!(r.has_more(), Ok(true));
            assert_eq!(r.next::<char>(), Ok('z'));
            assert_eq!(r.has_more(), Ok(false));
        }
    }
}

#[test]
fn narrow_unsigned_types_keep_the_low_bits() {
    let text = "300 65537 4294967297 18446744073709551615 255";
    let mut r = plain(text);
    assert_eq!(r.next::<u8>(), Ok(300u64 as u8));
    assert_eq!(r.next::<u8>(), Ok(1));
    assert_eq!(r.next::<u8>(), Ok(1));
    assert_eq!(r.next::<u8>(), Ok(255));
    assert_eq!(r.next::<u8>(), Ok(255));
    let mut r = plain(text);
    assert_eq!(r.next::<u16>(), Ok(300));
    assert_eq!(r.next::<u16>(), Ok(1));
    assert_eq!(r.next::<u16>(), Ok(1));
    assert_eq!(r.next::<u16>(), Ok(65535));
    let mut r = plain(text);
    assert_eq!(r.next::<u32>(), Ok(300));
    assert_eq!(r.next::<u32>(), Ok(65537));
    assert_eq!(r.next::<u32>(), Ok(1));
    assert_eq!(r.next::<u32>(), Ok(u32::MAX));
    let mut r = plain(text);
    assert_eq!(r.next::<usize>(), Ok(300));
    assert_eq!(r.next::<usize>(), Ok(65537));
    assert_eq!(r.next::<usize>(), Ok(4294967297u64 as usize));
    assert_eq!(r.next::<usize>(), Ok(usize::MAX));
}

#[test]
fn narrow_signed_types_keep_the_low_bits() {
    let text = "128 -129 -1 32768 -2147483649 9223372036854775807 -128";
    let values: Vec<i64> = vec![128, -129, -1, 32768, -2147483649, 9223372036854775807, -128];
    let mut r = plain(text);
    for v in &values {
        assert_eq!(r.next::<i8>(), Ok(*v as i8));
    }
    let mut r = plain(text);
    for v in &values {
        assert_eq!(r.next::<i16>(), Ok(*v as i16));
    }
    let mut r = plain(text);
    for v in &values {
        assert_eq!(r.next::<i32>(), Ok(*v as i32));
    }
    let mut r = plain(text);
    for v in &values {
        assert_eq!(r.next::<isize>(), Ok(*v as isize));
    }
    let mut r = plain("128 -129");
    assert_eq!(r.next::<i8>(), Ok(-128));
    assert_eq!(r.next::<i8>(), Ok(127));
}

#[test]
fn empty_input_has_no_token() {
    assert_eq!(plain("").has_more(), Ok(false));
    assert_eq!(plain("").next_unsigned(), Err(Error::EndOfInput));
    assert_eq!(plain("").next_signed(), Err(Error::EndOfInput));
    assert_eq!(plain("").next_decimal(), Err(Error::EndOfInput));
    assert_eq!(plain("").next_word(), Err(Error::EndOfInput));
    assert_eq!(plain("").next_char(), Err(Error::EndOfInput));
    assert_eq!(plain("").next_line(), Err(Error::EndOfInput));
    assert_eq!(plain("").next::<u8>(), Err(Error::EndOfInput));
    assert_eq!(plain("").next::<isize>(), Err(Error::EndOfInput));
}

#[test]
fn blank_input_has_a_line_and_no_other_token() {
    assert_eq!(plain(" \n\t ").has_more(), Ok(true));
    assert_eq!(plain(" \n\t ").next_unsigned(), Err(Error::EndOfInput));
    assert_eq!(plain(" \n\t ").next_word(), Err(Error::EndOfInput));
    assert_eq!(plain(" \n\t ").next_char(), Err(Error::EndOfInput));
    assert_eq!(plain(" \n\t ").next_line(), Ok(String::from(" ")));
    let mut r = plain(" \n\t ");
    assert_eq!(r.next_word(), Err(Error::EndOfInput));
    assert_eq!(r.has_more(), Ok(false));
    assert_eq!(r.next_line(), Err(Error::EndOfInput));
}

#[test]
fn shrinking_below_the_unread_bytes_is_rejected() {
    let mut r = reader(b"abcdefgh ij", 8, 8);
    assert_eq!(r.has_more(), Ok(true));
    assert_eq!(r.set_buf_size(7), Err(Error::BufferShrinkRejected));
    assert_eq!(r.set_buf_size(0), Err(Error::BufferShrinkRejected));
    assert_eq!(r.next_char(), Ok('a'));
    assert_eq!(r.next_char(), Ok('b'));
    assert_eq!(r.next_char(), Ok('c'));
    assert_eq!(r.set_buf_size(4), Err(Error::BufferShrinkRejected));
    assert_eq!(r.next_word(), Ok(String::from("defgh")));
    assert_eq!(r.next_word(), Ok(String::from("ij")));
    assert_eq!(r.has_more(), Ok(false));
}

#[test]
fn resizing_keeps_the_unread_bytes() {
    let mut r = reader(b"abcdefgh ij", 8, 8);
    assert_eq!(r.next_char(), Ok('a'));
    assert_eq!(r.next_char(), Ok('b'));
    assert_eq!(r.next_char(), Ok('c'));
    assert_eq!(r.set_buf_size(5), Ok(()));
    assert_eq!(r.next_char(), Ok('d'));
    assert_eq!(r.set_buf_size(4), Ok(()));
    assert_eq!(r.set_buf_size(100), Ok(()));
    assert_eq!(r.next_word(), Ok(String::from("efgh")));
    assert_eq!(r.set_buf_size(2), Err(Error::BufferShrinkRejected));
    assert_eq!(r.set_buf_size(3), Ok(()));
    assert_eq!(r.next_word(), Ok(String::from("ij")));
    assert_eq!(r.has_more(), Ok(false));
    assert_eq!(r.set_buf_size(0), Ok(()));
}

#[test]
fn buffer_without_room_sees_no_input() {
    let mut r = plain("12");
    assert_eq!(r.set_buf_size(0), Ok(()));
    assert_eq!(r.next_unsigned(), Err(Error::EndOfInput));
    assert_eq!(r.has_more(), Ok(false));
}

#[test]
fn source_hands_out_at_least_one_byte() {
    let mut r = reader(b"12 3", 8, 0);
    assert_eq!(r.has_more(), Ok(true));
    assert_eq!(r.next_unsigned(), Ok(12));
    assert_eq!(r.next_unsigned(), Ok(3));
    assert_eq!(r.next_unsigned(), Err(Error::EndOfInput));
}

#[test]
fn failure_of_the_source_is_reported() {
    let mut r = InputReader::from_reader(BrokenSource::new(""));
    assert_eq!(r.has_more(), Err(Error::IoFailure));
    assert_eq!(
        InputReader::from_reader(BrokenSource::new("")).next_unsigned(),
        Err(Error::IoFailure)
    );
    assert_eq!(
        InputReader::from_reader(BrokenSource::new("")).next_signed(),
        Err(Error::IoFailure)
    );
    assert_eq!(
        InputReader::from_reader(BrokenSource::new("")).next_decimal(),
        Err(Error::IoFailure)
    );
    assert_eq!(InputReader::from_reader(BrokenSource::new("")).next_word(), Err(Error::IoFailure));
    assert_eq!(InputReader::from_reader(BrokenSource::new("")).next_char(), Err(Error::IoFailure));
    assert_eq!(InputReader::from_reader(BrokenSource::new("")).next_line(), Err(Error::IoFailure));
}

#[test]
fn failure_behind_a_token_fails_the_read() {
    assert_eq!(
        InputReader::from_reader(BrokenSource::new("12")).next_unsigned(),
        Err(Error::IoFailure)
    );
    assert_eq!(
        InputReader::from_reader(BrokenSource::new("-12")).next_signed(),
        Err(Error::IoFailure)
    );
    assert_eq!(
        InputReader::from_reader(BrokenSource::new("-")).next_signed(),
        Err(Error::IoFailure)
    );
    assert_eq!(
        InputReader::from_reader(BrokenSource::new("1.")).next_decimal(),
        Err(Error::IoFailure)
    );
    assert_eq!(
        InputReader::from_reader(BrokenSource::new("1.5")).next_decimal(),
        Err(Error::IoFailure)
    );
    assert_eq!(
        InputReader::from_reader(BrokenSource::new("ab")).next_word(),
        Err(Error::IoFailure)
    );
    assert_eq!(InputReader::from_reader(BrokenSource::new("a")).next_char(), Err(Error::IoFailure));
    assert_eq!(
        InputReader::from_reader(BrokenSource::new("ab")).next_line(),
        Err(Error::IoFailure)
    );
    assert_eq!(
        InputReader::from_reader(BrokenSource::new("ab\n")).next_line(),
        Err(Error::IoFailure)
    );
    assert_eq!(
        InputReader::from_reader(BrokenSource::new("  ")).next_word(),
        Err(Error::IoFailure)
    );
}

#[test]
fn failure_behind_the_next_byte_does_not_fail_the_read() {
    let mut r = InputReader::from_reader(BrokenSource::new("12 ab\nc "));
    assert_eq!(r.next_unsigned(), Ok(12));
    assert_eq!(r.next_word(), Ok(String::from("ab")));
    assert_eq!(r.next_line(), Ok(String::new()));
    assert_eq!(r.next_char(), Ok('c'));
    assert_eq!(r.has_more(), Ok(true));
    assert_eq!(r.next_char(), Err(Error::IoFailure));
    assert_eq!(r.has_more(), Err(Error::IoFailure));
}

#[test]
fn memory_source_can_fail_behind_its_last_byte() {
    let input = b"12 ab\nc";
    for capacity in 1..=input.len() {
        for chunk in 1..=input.len() {
            let source = MemorySource::with_chunk(input.to_vec(), chunk).failing();
            let mut r = InputReader::from_reader(source);
            assert_eq!(r.set_buf_size(capacity), Ok(()));
            assert_eq!(r.next_unsigned(), Ok(12));
            assert_eq!(r.next_word(), Ok(String::from("ab")));
            assert_eq!(r.next_line(), Ok(String::new()));
            assert_eq!(r.has_more(), Ok(true));
            assert_eq!(r.next_char(), Err(Error::IoFailure));
            assert_eq!(r.has_more(), Err(Error::IoFailure));
            assert_eq!(r.next_line(), Err(Error::IoFailure));
        }
    }
    let mut r = InputReader::from_reader(MemorySource::new(b"7".to_vec()).failing());
    assert_eq!(r.next_unsigned(), Err(Error::IoFailure));
    let mut r = InputReader::from_reader(MemorySource::new(Vec::new()).failing());
    assert_eq!(r.has_more(), Err(Error::IoFailure));
}

#[test]
fn count_beyond_the_buffer_is_a_failure() {
    let mut r = InputReader::from_reader(LyingSource);
    assert_eq!(r.has_more(), Err(Error::IoFailure));
    assert_eq!(r.next_word(), Err(Error::IoFailure));
}

#[test]
fn source_is_not_asked_again_after_its_end() {
    let mut r = InputReader::from_reader(RestlessSource { reads: 0 });
    assert_eq!(r.set_buf_size(1), Ok(()));
    assert_eq!(r.next_unsigned(), Ok(7));
    assert_eq!(r.has_more(), Ok(false));
    assert_eq!(r.has_more(), Ok(false));
    assert_eq!(r.next_unsigned(), Err(Error::EndOfInput));
    assert_eq!(r.next_line(), Err(Error::EndOfInput));
}

#[test]
fn source_is_asked_for_whole_buffers_and_only_when_needed() {
    let offers = std::rc::Rc::new(std::cell::RefCell::new(Vec::new()));
    let source = WatchedSource {
        inner: MemorySource::new(b"12 345 6".to_vec()),
        offers: offers.clone(),
    };
    let mut r = InputReader::from_reader(source);
    assert_eq!(r.set_buf_size(4), Ok(()));
    assert!(offers.borrow().is_empty());
    assert_eq!(r.has_more(), Ok(true));
    assert_eq!(r.has_more(), Ok(true));
    assert_eq!(*offers.borrow(), vec![4]);
    assert_eq!(r.next_unsigned(), Ok(12));
    assert_eq!(*offers.borrow(), vec![4]);
    assert_eq!(r.next_unsigned(), Ok(345));
    assert_eq!(*offers.borrow(), vec![4, 4]);
    assert_eq!(r.set_buf_size(3), Ok(()));
    assert_eq!(r.next_unsigned(), Ok(6));
    assert_eq!(*offers.borrow(), vec![4, 4, 3]);
    assert_eq!(r.has_more(), Ok(false));
    assert_eq!(r.next_unsigned(), Err(Error::EndOfInput));
    assert_eq!(*offers.borrow(), vec![4, 4, 3]);
}

#[test]
fn buffer_is_filled_only_when_it_is_empty() {
    let mut r = InputReader::from_reader(BrokenSource::new("1 2 3 "));
    assert_eq!(r.next_unsigned(), Ok(1));
    assert_eq!(r.next_unsigned(), Ok(2));
    assert_eq!(r.next_unsigned(), Ok(3));
    assert_eq!(r.has_more(), Ok(true));
    assert_eq!(r.has_more(), Ok(true));
    assert_eq!(r.next_unsigned(), Err(Error::IoFailure));
}
