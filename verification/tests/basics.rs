use term_icon::raster::{GrayImage, RgbImage};
use term_icon::runs::{count_long_runs, find_spans, has_run_over};
use term_icon::sort::sort_selected;
use term_icon::text::{
    chars_of, find_chars, is_listed, numeral_chars, read_u32, split_lines, text_of, to_lower,
    to_upper, trim_chars,
};

#[test]
fn numerals_read_back() {
    for n in [0u32, 9, 10, 255, 4096, u32::MAX] {
        for radix in [2u32, 10, 16] {
            let digits = numeral_chars(u64::from(n), u64::from(radix), 4);
            assert!(digits.len() >= 4);
            assert_eq!(read_u32(&digits, radix), Some(n));
        }
    }
    assert_eq!(text_of(&numeral_chars(0x21, 16, 4)), "0021");
}

#[test]
fn malformed_numbers_are_refused() {
    for s in ["", "+", "-1", "12x", "4294967296", " 1"] {
        assert_eq!(read_u32(&chars_of(s), 10), None, "{s:?}");
    }
    assert_eq!(read_u32(&chars_of("+7"), 10), Some(7));
    assert_eq!(read_u32(&chars_of("ffFF"), 16), Some(0xFFFF));
}

#[test]
fn lines_split_as_in_the_standard_library() {
    for s in ["", "a", "a\n", "a\nb", "a\r\nb\r\n", "\n\n", "a\r"] {
        let got: Vec<String> = split_lines(&chars_of(s)).iter().map(|l| text_of(l)).collect();
        let want: Vec<String> = s.lines().map(|l| l.to_string()).collect();
        assert_eq!(got, want, "{s:?}");
    }
}

#[test]
fn case_and_trimming_follow_the_standard_library() {
    let s = "  \tAbc-Ünï 1\n ";
    let c = chars_of(s);
    assert_eq!(text_of(&to_upper(&c)), s.to_ascii_uppercase());
    assert_eq!(text_of(&to_lower(&c)), s.to_ascii_lowercase());
    assert_eq!(text_of(&trim_chars(&c)), s.trim());
}

#[test]
fn substrings_are_found_at_their_first_place() {
    let s = chars_of("abcabc");
    assert_eq!(find_chars(&s, &chars_of("ca")), Some(2));
    assert_eq!(find_chars(&s, &chars_of("")), Some(0));
    assert_eq!(find_chars(&s, &chars_of("x")), None);
    assert!(is_listed(&["a".to_string(), "b".to_string()], "b"));
    assert!(!is_listed(&[], "b"));
}

#[test]
fn runs_are_maximal() {
    let flags = [true, true, false, true, false, false, true, true, true];
    assert_eq!(find_spans(&flags), vec![(0, 1), (3, 3), (6, 8)]);
    assert!(has_run_over(&flags, 2));
    assert!(!has_run_over(&flags, 3));
    assert_eq!(count_long_runs(&flags), 2);
}

#[test]
fn sorting_is_stable() {
    let keys = [3, 1, 3, 2, 1];
    let keep = [true, true, true, false, true];
    assert_eq!(sort_selected(&keys, &keep), vec![1, 4, 0, 2]);
}

#[test]
fn rasters_check_their_size() {
    assert!(GrayImage::from_raw(2, 2, vec![0; 3]).is_none());
    assert!(GrayImage::from_raw(2, 2, vec![0; 4]).is_some());
    assert!(RgbImage::from_raw(2, 2, vec![0; 4]).is_none());
    assert!(RgbImage::from_raw(2, 2, vec![0; 12]).is_some());
}

#[test]
fn overlays_are_clipped() {
    let mut base = RgbImage::from_pixel(3, 3, (0, 0, 0));
    let top = RgbImage::from_pixel(2, 2, (5, 6, 7));
    base.overlay(&top, 2, 2);
    assert_eq!(base.get_pixel(2, 2), (5, 6, 7));
    assert_eq!(base.get_pixel(1, 1), (0, 0, 0));
    base.overlay(&top, 9, 9);
    assert_eq!(base.data.iter().filter(|v| **v != 0).count(), 3);
}
