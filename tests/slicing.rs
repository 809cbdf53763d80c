use slicer::{
    fast_path_extent, parse_range, slice_stream_wrapper, CountModeEnum, RangeError, SliceIdx,
    SliceStream,
};

fn run(range: &str, input: &[u8], mode: CountModeEnum) -> Vec<u8> {
    let (start, end) = parse_range(range).unwrap();
    slice_stream_wrapper(start, end, input, mode)
}

fn run_fast(range: &str, input: &[u8]) -> Vec<u8> {
    let (start, end) = parse_range(range).unwrap();
    match fast_path_extent(start, end, input.len() as u64) {
        Some((off, n)) => input[off as usize..(off + n) as usize].to_vec(),
        None => Vec::new(),
    }
}

fn run_pushed(range: &str, input: &[u8], mode: CountModeEnum) -> Vec<u8> {
    let (start, end) = parse_range(range).unwrap();
    let mut st = SliceStream::new(start, end, mode);
    let mut out = Vec::new();
    for &c in input {
        if st.is_done() {
            break;
        }
        st.push(c, &mut out);
    }
    st.finish(&mut out);
    out
}

#[test]
fn first_line_of_two() {
    assert_eq!(run("0:1", b"hello\nworld\n", CountModeEnum::Line), b"hello\n".to_vec());
}

#[test]
fn last_bytes_from_end() {
    // "-5:" keeps the last five bytes; the whole second line is six bytes.
    assert_eq!(run("-5:", b"hello\nworld\n", CountModeEnum::Byte), b"orld\n".to_vec());
    assert_eq!(run("-6:", b"hello\nworld\n", CountModeEnum::Byte), b"world\n".to_vec());
}

#[test]
fn relative_end() {
    assert_eq!(run("1:+3", b"abcdef", CountModeEnum::Byte), b"bcd".to_vec());
    assert_eq!(run_fast("1:+3", b"abcdef"), b"bcd".to_vec());
}

#[test]
fn equal_bounds_give_nothing() {
    assert_eq!(run("2:2", b"abcdef", CountModeEnum::Byte), Vec::<u8>::new());
    assert_eq!(run_fast("2:2", b"abcdef"), Vec::<u8>::new());
}

#[test]
fn end_offset_past_length_is_clamped() {
    let file = b"0123456789";
    let (start, end) = parse_range("-100:").unwrap();
    assert_eq!(fast_path_extent(start, end, 10), Some((0, 10)));
    assert_eq!(run_fast("-100:", file), file.to_vec());
    assert_eq!(run("-100:", file, CountModeEnum::Byte), file.to_vec());
}

#[test]
fn byte_substring_from_start() {
    let s = b"the quick brown fox";
    assert_eq!(run("4:9", s, CountModeEnum::Byte), b"quick".to_vec());
    assert_eq!(run("0:19", s, CountModeEnum::Byte), s.to_vec());
    assert_eq!(run("3:100", s, CountModeEnum::Byte), b" quick brown fox".to_vec());
}

#[test]
fn line_ranges_from_start() {
    let s = b"a\nbb\nccc\ndd";
    assert_eq!(run("1:3", s, CountModeEnum::Line), b"bb\nccc\n".to_vec());
    assert_eq!(run("3:4", s, CountModeEnum::Line), b"dd".to_vec());
    assert_eq!(run("0:0", s, CountModeEnum::Line), Vec::<u8>::new());
    assert_eq!(run("5:9", s, CountModeEnum::Line), Vec::<u8>::new());
}

#[test]
fn fast_path_matches_engine() {
    let s = b"0123456789abcdef";
    for r in ["3:7", "-4:", ":-3", "2:-2", "-6:-2", "-5:12", "5:+4", "-8:+3", "9:2", "-3:-9", "20:", "-20:5", "-20:-3", "-30:-20", "-17:-1"] {
        assert_eq!(run(r, s, CountModeEnum::Byte), run_fast(r, s), "range {}", r);
        assert_eq!(run_pushed(r, s, CountModeEnum::Byte), run_fast(r, s), "range {}", r);
    }
}

#[test]
fn end_from_end_on_input_shorter_than_start_offset() {
    // Both bounds from the end on an input with fewer units than the start
    // offset: the start clamps to 0, the end is counted from the input's end.
    let s = b"0123456789";
    assert_eq!(run("-100:-95", s, CountModeEnum::Byte), Vec::<u8>::new());
    assert_eq!(run_fast("-100:-95", s), Vec::<u8>::new());
    assert_eq!(run("-10:-2", b"abcdef", CountModeEnum::Byte), b"abcd".to_vec());
    assert_eq!(run_fast("-10:-2", b"abcdef"), b"abcd".to_vec());
    assert_eq!(run("-3:-1", b"ab", CountModeEnum::Byte), b"a".to_vec());
    assert_eq!(run_fast("-3:-1", b"ab"), b"a".to_vec());
    assert_eq!(run("-10:-8", b"abcdef", CountModeEnum::Byte), Vec::<u8>::new());
    assert_eq!(run_fast("-10:-8", b"abcdef"), Vec::<u8>::new());
    assert_eq!(run("-5:-1", b"abc", CountModeEnum::Byte), b"ab".to_vec());
    assert_eq!(run_pushed("-5:-1", b"abc", CountModeEnum::Byte), b"ab".to_vec());
    assert_eq!(run("-9:-1", b"a\nb\nc\n", CountModeEnum::Line), b"a\nb\n".to_vec());
}

#[test]
fn empty_when_start_not_before_end() {
    assert_eq!(run("5:3", b"abcdefgh", CountModeEnum::Byte), Vec::<u8>::new());
    assert_eq!(run("-2:-5", b"abcdefgh", CountModeEnum::Byte), Vec::<u8>::new());
    assert_eq!(run("-3:1", b"a\nb\nc\nd\n", CountModeEnum::Line), Vec::<u8>::new());
    assert_eq!(run(":", b"", CountModeEnum::Line), Vec::<u8>::new());
}

#[test]
fn trailing_units() {
    assert_eq!(run("-2:", b"a\nb\nc\n", CountModeEnum::Line), b"b\nc\n".to_vec());
    assert_eq!(run("-5:", b"a\nb\nc\n", CountModeEnum::Line), b"a\nb\nc\n".to_vec());
    assert_eq!(run("-3:", b"abcdef", CountModeEnum::Byte), b"def".to_vec());
    assert_eq!(run("-9:", b"abcdef", CountModeEnum::Byte), b"abcdef".to_vec());
    // A final line without a delimiter is no unit.
    assert_eq!(run("-1:", b"a\nb\nc", CountModeEnum::Line), b"b\n".to_vec());
    assert_eq!(run("-5:", b"a\nb\nc", CountModeEnum::Line), b"a\nb\n".to_vec());
}

#[test]
fn start_offset_skips_raw_bytes_before_end_anchored_end() {
    // Line mode, "2:-1": the first two bytes are skipped, not two lines.
    assert_eq!(run("2:-1", b"ab\ncd\nef\n", CountModeEnum::Line), b"\ncd\n".to_vec());
    assert_eq!(run("0:", b"a\nb", CountModeEnum::Line), b"a\n".to_vec());
}

#[test]
fn end_anchored_start_with_start_anchored_end() {
    assert_eq!(run("-3:4", b"a\nb\nc\nd\ne\n", CountModeEnum::Line), b"c\nd\n".to_vec());
    assert_eq!(run("-3:9", b"a\nb\nc\nd\ne\n", CountModeEnum::Line), b"c\nd\ne\n".to_vec());
    assert_eq!(run("-4:+2", b"abcdefgh", CountModeEnum::Byte), b"ef".to_vec());
}

#[test]
fn stops_reading_once_done() {
    let (start, end) = parse_range("0:1").unwrap();
    let mut st = SliceStream::new(start, end, CountModeEnum::Line);
    let mut out = Vec::new();
    assert!(!st.is_done());
    for &c in b"xy\n" {
        st.push(c, &mut out);
    }
    assert!(st.is_done());
    assert_eq!(out, b"xy\n".to_vec());
}

#[test]
fn pushed_matches_whole_input() {
    let s = b"one\ntwo\nthree\nfour";
    for r in ["0:2", "1:", ":-1", "-2:", "-3:-1", "-2:10", "1:+2"] {
        for mode in [CountModeEnum::Line, CountModeEnum::Byte] {
            assert_eq!(run_pushed(r, s, mode), run(r, s, mode), "range {}", r);
        }
    }
}

#[test]
fn parse_sides() {
    assert_eq!(parse_range(":"), Ok((SliceIdx::FromStart(0), SliceIdx::FromEnd(0))));
    assert_eq!(parse_range("3:-2"), Ok((SliceIdx::FromStart(3), SliceIdx::FromEnd(2))));
    assert_eq!(parse_range("-7:+2"), Ok((SliceIdx::FromEnd(7), SliceIdx::FromEnd(5))));
    assert_eq!(parse_range("4:+6"), Ok((SliceIdx::FromStart(4), SliceIdx::FromStart(10))));
    assert_eq!(parse_range("+4:++6"), Ok((SliceIdx::FromStart(4), SliceIdx::FromStart(10))));
    assert_eq!(parse_range("1:2:3"), Err(RangeError::InvalidRange));
    assert_eq!(parse_range("-0:12"), Ok((SliceIdx::FromStart(0), SliceIdx::FromStart(12))));
}

#[test]
fn parse_errors() {
    assert_eq!(parse_range("12"), Err(RangeError::InvalidRange));
    assert_eq!(parse_range(""), Err(RangeError::InvalidRange));
    assert_eq!(parse_range("x:1"), Err(RangeError::InvalidRange));
    assert_eq!(parse_range("1:y"), Err(RangeError::InvalidRange));
    assert_eq!(parse_range("-:1"), Err(RangeError::InvalidRange));
    assert_eq!(parse_range("1:+"), Err(RangeError::InvalidRange));
    assert_eq!(parse_range("1:+-2"), Err(RangeError::InvalidRange));
    assert_eq!(parse_range(" 1:2"), Err(RangeError::InvalidRange));
    assert_eq!(parse_range("99999999999999999999:"), Err(RangeError::InvalidRange));
    assert_eq!(parse_range("-3:+5"), Err(RangeError::RangeOverflow));
    let big = format!("{}:+1", isize::MAX);
    assert_eq!(parse_range(&big), Ok((SliceIdx::FromStart(isize::MAX as usize), SliceIdx::FromStart(isize::MAX as usize + 1))));
    let min = format!("{}:", isize::MIN);
    assert_eq!(parse_range(&min), Ok((SliceIdx::FromEnd(isize::MAX as usize + 1), SliceIdx::FromEnd(0))));
    let over = format!("{}:", isize::MAX as usize + 1);
    assert_eq!(parse_range(&over), Err(RangeError::InvalidRange));
}

#[test]
fn relative_end_overflow() {
    let (start, _) = parse_range(&format!("{}:", isize::MAX)).unwrap();
    assert_eq!(start, SliceIdx::FromStart(isize::MAX as usize));
    let text = format!("{}:+{}", isize::MAX, usize::MAX);
    assert_eq!(parse_range(&text), Err(RangeError::RangeOverflow));
}

#[test]
fn boundary_from_signed() {
    assert_eq!(SliceIdx::from(0isize), SliceIdx::FromStart(0));
    assert_eq!(SliceIdx::from(7isize), SliceIdx::FromStart(7));
    assert_eq!(SliceIdx::from(-7isize), SliceIdx::FromEnd(7));
    assert_eq!(SliceIdx::from(isize::MIN), SliceIdx::FromEnd(isize::MAX as usize + 1));
}

#[test]
fn unit_counts() {
    assert_eq!(CountModeEnum::Byte.count(b'x'), 1);
    assert_eq!(CountModeEnum::Byte.count(b'\n'), 1);
    assert_eq!(CountModeEnum::Line.count(b'x'), 0);
    assert_eq!(CountModeEnum::Line.count(b'\n'), 1);
}

#[test]
fn fast_path_extents() {
    assert_eq!(fast_path_extent(SliceIdx::FromStart(2), SliceIdx::FromEnd(3), 10), Some((2, 5)));
    assert_eq!(fast_path_extent(SliceIdx::FromEnd(4), SliceIdx::FromStart(100), 10), Some((6, 4)));
    assert_eq!(fast_path_extent(SliceIdx::FromStart(7), SliceIdx::FromStart(7), 10), None);
    assert_eq!(fast_path_extent(SliceIdx::FromStart(12), SliceIdx::FromEnd(0), 10), None);
    assert_eq!(fast_path_extent(SliceIdx::FromStart(0), SliceIdx::FromEnd(0), 0), None);
}
