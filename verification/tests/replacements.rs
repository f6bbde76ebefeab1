use replace_rs::Data;
use replace_rs::ReplaceError;

fn text(bytes: &[u8]) -> &str {
    std::str::from_utf8(bytes).unwrap()
}

#[test]
fn replace_some_stuff() {
    let mut d = Data::new(b"foo bar baz");

    d.replace_range(4..6, b"lol", false).unwrap();
    assert_eq!("foo lolr baz", text(&d.to_vec()));

    d.replace_range(4..6, b"lol", false).unwrap();
    assert_eq!("foo lolr baz", text(&d.to_vec()));

    d.replace_range(4..6, b"foobar", false).unwrap();
    assert_eq!("foo foobarr baz", text(&d.to_vec()));
}

#[test]
fn replace_multiple_lines() {
    let mut d = Data::new(b"lorem\nipsum\ndolor");

    d.replace_range(6..11, b"lol", false).unwrap();
    assert_eq!("lorem\nlol\ndolor", text(&d.to_vec()));

    d.replace_range(12..18, b"lol", false).unwrap();
    assert_eq!("lorem\nlol", text(&d.to_vec()));
}

#[test]
fn broken_replacements() {
    let mut d = Data::new(b"foo");

    d.replace_range_unless_touched(4..7, b"lol").unwrap();
    assert_eq!("foolol", text(&d.to_vec()));
}

#[test]
fn dont_replace_twice() {
    let mut d = Data::new(b"foo");

    d.replace_range_unless_touched(4..7, b"lol").unwrap();
    assert_eq!("foolol", text(&d.to_vec()));
    println!("{:?}", d);
    assert!(d.replace_range_unless_touched(4..7, b"lol").is_err());
}

#[test]
fn second_guarded_replacement_is_a_touch_conflict() {
    let mut d = Data::new(b"foo");
    assert_eq!(d.replace_range_unless_touched(4..7, b"lol"), Ok(()));
    assert_eq!(
        d.replace_range_unless_touched(4..7, b"lol"),
        Err(ReplaceError::TouchConflict)
    );
    assert_eq!("foolol", text(&d.to_vec()));
}

#[test]
fn empty_buffer_has_no_covering_segment() {
    let mut d = Data::new(b"");
    assert_eq!(d.to_vec(), Vec::<u8>::new());
    assert_eq!(
        d.replace_range(0..3, b"abc", false),
        Err(ReplaceError::NoCoveringSegment)
    );
    assert_eq!(
        d.replace_range_unless_touched(2..5, b"abc"),
        Err(ReplaceError::NoCoveringSegment)
    );
    assert_eq!(d.to_vec(), Vec::<u8>::new());
}

#[test]
fn default_buffer_is_empty() {
    let mut d = Data::default();
    assert_eq!(d.to_vec(), Vec::<u8>::new());
    assert_eq!(
        d.replace_range(1..2, b"x", false),
        Err(ReplaceError::NoCoveringSegment)
    );
}

#[test]
fn range_ending_at_zero_changes_nothing() {
    let mut d = Data::new(b"foo");
    assert_eq!(d.replace_range(0..0, b"lol", false), Ok(()));
    assert_eq!("foo", text(&d.to_vec()));
    assert_eq!(d.replace_range(5..0, b"lol", true), Ok(()));
    assert_eq!("foo", text(&d.to_vec()));
    // Nothing was touched, so a guarded replacement still goes through.
    assert_eq!(d.replace_range_unless_touched(0..3, b"bar"), Ok(()));

    let mut e = Data::new(b"");
    assert_eq!(e.replace_range(0..0, b"lol", true), Ok(()));
    assert_eq!(e.to_vec(), Vec::<u8>::new());
}

#[test]
fn round_trip_of_fresh_buffers() {
    let inputs: [&[u8]; 5] = [b"", b"a", b"foo bar baz", b"\x00\xff\x80", b"lorem\nipsum\ndolor"];
    for input in inputs.iter() {
        assert_eq!(Data::new(input).to_vec().as_slice(), *input);
    }
}

#[test]
fn flattening_has_no_effect() {
    let mut d = Data::new(b"foo bar baz");
    d.replace_range(4..7, b"qux", false).unwrap();
    let once = d.to_vec();
    let twice = d.to_vec();
    assert_eq!(once, twice);
    assert_eq!("foo qux baz", text(&once));
}

#[test]
fn replacing_the_same_range_again_changes_nothing() {
    let mut once = Data::new(b"hello world");
    once.replace_range(2..5, b"XY", false).unwrap();

    let mut twice = Data::new(b"hello world");
    twice.replace_range(2..5, b"XY", false).unwrap();
    twice.replace_range(2..5, b"XY", false).unwrap();

    assert_eq!("heXY world", text(&once.to_vec()));
    assert_eq!(once.to_vec(), twice.to_vec());
}

#[test]
fn replacing_again_past_the_end_repeats_the_last_byte() {
    let mut d = Data::new(b"foo");
    d.replace_range(4..7, b"lol", false).unwrap();
    assert_eq!("foolol", text(&d.to_vec()));
    d.replace_range(4..7, b"lol", false).unwrap();
    assert_eq!("foololl", text(&d.to_vec()));
}

#[test]
fn guarded_replacement_of_an_intersecting_range_fails() {
    let mut d = Data::new(b"0123456789");
    assert_eq!(d.replace_range(3..6, b"abc", true), Ok(()));
    let before = d.to_vec();
    assert_eq!(
        d.replace_range(5..8, b"x", true),
        Err(ReplaceError::TouchConflict)
    );
    assert_eq!(
        d.replace_range(1..4, b"x", true),
        Err(ReplaceError::TouchConflict)
    );
    assert_eq!(
        d.replace_range_unless_touched(4..5, b"x"),
        Err(ReplaceError::TouchConflict)
    );
    assert_eq!(d.to_vec(), before);
    // Without the guard the same range is accepted.
    assert_eq!(d.replace_range(4..5, b"x", false), Ok(()));
}

#[test]
fn replacement_past_the_end_extends_the_buffer() {
    let mut d = Data::new(b"abc");
    assert_eq!(d.replace_range(2..9, b"WXYZ", false), Ok(()));
    assert_eq!("abWXYZ", text(&d.to_vec()));

    let mut e = Data::new(b"abc");
    assert_eq!(e.replace_range(10..20, b"!", false), Ok(()));
    assert_eq!("abc!", text(&e.to_vec()));
    assert_eq!(e.to_vec().len(), 4);
}

#[test]
fn left_remainder_is_cut_at_the_start() {
    let mut d = Data::new(b"abcdef");
    d.replace_range(0..2, b"", false).unwrap();
    assert_eq!("cdef", text(&d.to_vec()));

    let mut e = Data::new(b"abcdef");
    e.replace_range(5..6, b"", false).unwrap();
    assert_eq!("abcdef", text(&e.to_vec()));
}

#[test]
fn right_remainder_keeps_the_last_byte() {
    let mut d = Data::new(b"abc");
    d.replace_range(1..3, b"X", false).unwrap();
    assert_eq!("aXc", text(&d.to_vec()));

    let mut e = Data::new(b"abc");
    e.replace_range(1..2, b"X", false).unwrap();
    assert_eq!("aXc", text(&e.to_vec()));
}

#[test]
fn later_replacement_discards_what_lies_between() {
    let mut first = Data::new(b"lorem\nipsum\ndolor");
    first.replace_range(6..11, b"lol", false).unwrap();
    first.replace_range(12..18, b"lol", false).unwrap();
    assert_eq!("lorem\nlol", text(&first.to_vec()));

    let mut second = Data::new(b"lorem\nipsum\ndolor");
    second.replace_range(12..18, b"lol", false).unwrap();
    assert_eq!("lorem\nipsum\nlol", text(&second.to_vec()));
    second.replace_range(6..11, b"lol", false).unwrap();
    assert_eq!("lorem\nlollol", text(&second.to_vec()));
}

#[test]
fn clone_is_independent() {
    let mut d = Data::new(b"foo bar");
    let kept = d.clone();
    d.replace_range(0..3, b"baz", false).unwrap();
    assert_eq!("baz bar", text(&d.to_vec()));
    assert_eq!("foo bar", text(&kept.to_vec()));
}

#[test]
fn deletion_commutes_with_a_replacement_past_the_end() {
    let mut first = Data::new(b"abcdef");
    first.replace_range(1..3, b"", false).unwrap();
    assert_eq!("adef", text(&first.to_vec()));
    first.replace_range(4..10, b"XY", false).unwrap();

    let mut second = Data::new(b"abcdef");
    second.replace_range(4..10, b"XY", false).unwrap();
    assert_eq!("abcdXY", text(&second.to_vec()));
    second.replace_range(1..3, b"", false).unwrap();

    assert_eq!("aXY", text(&first.to_vec()));
    assert_eq!(first.to_vec(), second.to_vec());
}

#[test]
fn start_past_the_first_segment_keeps_all_of_it() {
    let mut d = Data::new(b"abc");
    d.replace_range(7..9, b"Z", false).unwrap();
    assert_eq!("abcZ", text(&d.to_vec()));
    // The next replacement starts in the first segment, which now stands for
    // the positions before seven.
    d.replace_range(2..9, b"Q", false).unwrap();
    assert_eq!("abQZ", text(&d.to_vec()));
}

#[test]
fn unguarded_replacement_of_a_touched_range_is_accepted() {
    let mut d = Data::new(b"foo bar baz");
    d.replace_range(4..7, b"one", false).unwrap();
    assert_eq!(d.replace_range(4..7, b"two", false), Ok(()));
    assert_eq!("foo two baz", text(&d.to_vec()));
    assert_eq!(
        d.replace_range(4..7, b"three", true),
        Err(ReplaceError::TouchConflict)
    );
    assert_eq!("foo two baz", text(&d.to_vec()));
}
