use utf8_ranges::{encode_utf8, utf8_ranges, Utf8Range, Utf8Sequence};

fn ranges_of(s: &Utf8Sequence) -> Vec<Utf8Range> {
    match s {
        Utf8Sequence::One(r) => vec![*r],
        Utf8Sequence::Two(a) => a.to_vec(),
        Utf8Sequence::Three(a) => a.to_vec(),
        Utf8Sequence::Four(a) => a.to_vec(),
    }
}

fn accepts(s: &Utf8Sequence, b: &[u8]) -> bool {
    let rs = ranges_of(s);
    rs.len() == b.len() && rs.iter().zip(b.iter()).all(|(r, x)| r.start <= *x && *x <= r.end)
}

fn pairs(s: &Utf8Sequence) -> Vec<(u8, u8)> {
    ranges_of(s).iter().map(|r| (r.start, r.end)).collect()
}

fn count_accepting(seqs: &[Utf8Sequence], b: &[u8]) -> usize {
    seqs.iter().filter(|s| accepts(s, b)).count()
}

fn is_surrogate(c: u32) -> bool {
    (0xD800..=0xDFFF).contains(&c)
}

/// Checks that exactly the scalar values `lo..=hi` have their encoding
/// accepted, each once, and that no surrogate's encoding is accepted.
fn check_exact(seqs: &[Utf8Sequence], lo: u32, hi: u32) {
    for c in 0..=0x10FFFFu32 {
        let b = encode_utf8(c);
        let n = count_accepting(seqs, &b);
        if lo <= c && c <= hi && !is_surrogate(c) {
            assert_eq!(n, 1, "code point {:X}", c);
        } else {
            assert_eq!(n, 0, "code point {:X}", c);
        }
    }
}

fn all_strings_of_len(seqs: &[Utf8Sequence], len: usize) -> usize {
    // byte strings of the given length accepted, counted per sequence
    seqs.iter()
        .filter(|s| ranges_of(s).len() == len)
        .map(|s| ranges_of(s).iter().map(|r| (r.end - r.start) as usize + 1).product::<usize>())
        .sum()
}

#[test]
fn scratch() {
    println!("{:#?}", utf8_ranges('\u{0}', '\u{FFFF}'));
    println!("{:#?}", utf8_ranges('\u{80}', '\u{10FFFF}'));
    println!("{:#?}", utf8_ranges('\u{0}', '\u{10FFFF}'));
}

#[test]
fn single_nul() {
    let r = utf8_ranges('\u{0}', '\u{0}');
    assert_eq!(r.len(), 1);
    assert_eq!(r[0], Utf8Sequence::One(Utf8Range { start: 0, end: 0 }));
}

#[test]
fn whole_ascii() {
    let r = utf8_ranges('\u{0}', '\u{7F}');
    assert_eq!(r, vec![Utf8Sequence::One(Utf8Range { start: 0, end: 0x7F })]);
}

#[test]
fn whole_two_byte_class() {
    let r = utf8_ranges('\u{80}', '\u{7FF}');
    assert_eq!(r.len(), 1);
    assert_eq!(pairs(&r[0]), vec![(0xC2, 0xDF), (0x80, 0xBF)]);
}

#[test]
fn basic_plane() {
    let r = utf8_ranges('\u{0}', '\u{FFFF}');
    assert!(r.len() > 1);
    let lens: Vec<usize> = r.iter().map(|s| ranges_of(s).len()).collect();
    assert!(lens.contains(&1) && lens.contains(&2) && lens.contains(&3));
    assert!(!lens.contains(&4));
    // ascending by length class
    assert!(lens.windows(2).all(|w| w[0] <= w[1]));
    check_exact(&r, 0, 0xFFFF);
    // no byte string outside the scalar values' encodings: the product sizes
    // add up to the number of scalar values of each class
    assert_eq!(all_strings_of_len(&r, 1), 0x80);
    assert_eq!(all_strings_of_len(&r, 2), 0x800 - 0x80);
    assert_eq!(all_strings_of_len(&r, 3), 0x10000 - 0x1000);
    let p: Vec<Vec<(u8, u8)>> = r.iter().map(pairs).collect();
    assert_eq!(
        p,
        vec![
            vec![(0x00, 0x7F)],
            vec![(0xC2, 0xDF), (0x80, 0xBF)],
            vec![(0xE0, 0xE0), (0xA0, 0xBF), (0x80, 0xBF)],
            vec![(0xE1, 0xEC), (0x80, 0xBF), (0x80, 0xBF)],
            vec![(0xED, 0xED), (0x80, 0x9F), (0x80, 0xBF)],
            vec![(0xEE, 0xEF), (0x80, 0xBF), (0x80, 0xBF)],
        ]
    );
    assert_eq!(count_accepting(&r, &[0xED, 0xA0, 0x80]), 0);
}

#[test]
fn supplementary_planes() {
    let r = utf8_ranges('\u{10000}', '\u{10FFFF}');
    assert!(!r.is_empty());
    assert!(r.iter().all(|s| ranges_of(s).len() == 4));
    // a single range per position would accept F4 90 80 80, beyond U+10FFFF
    assert_eq!(count_accepting(&r, &[0xF4, 0x90, 0x80, 0x80]), 0);
    assert_eq!(count_accepting(&r, &[0xF0, 0x8F, 0xBF, 0xBF]), 0);
    assert_eq!(all_strings_of_len(&r, 4), 0x110000 - 0x10000);
    check_exact(&r, 0x10000, 0x10FFFF);
}

#[test]
fn backwards_interval_is_empty() {
    assert!(utf8_ranges('\u{5}', '\u{3}').is_empty());
}

#[test]
fn whole_code_space_is_small_and_exact() {
    let r = utf8_ranges('\u{0}', '\u{10FFFF}');
    assert!(r.len() < 20);
    check_exact(&r, 0, 0x10FFFF);
}

#[test]
fn round_trip_through_accepted_bytes() {
    let r = utf8_ranges('\u{3A5}', '\u{2A6DF}');
    for c in [0x3A5u32, 0x3FF, 0x400, 0x7FF, 0x800, 0xFFF, 0x1000, 0xD7FF, 0xE000, 0xFFFF, 0x10000, 0x2A6DF] {
        let b = encode_utf8(c);
        assert_eq!(count_accepting(&r, &b), 1);
        let s = std::str::from_utf8(&b).unwrap();
        assert_eq!(s.chars().next().unwrap() as u32, c);
    }
    assert_eq!(count_accepting(&r, &encode_utf8(0x3A4)), 0);
    assert_eq!(count_accepting(&r, &encode_utf8(0x2A6E0)), 0);
}

#[test]
fn pairwise_disjoint_and_ordered() {
    let r = utf8_ranges('\u{41}', '\u{1F600}');
    // the lowest bytes of each sequence spell ascending code points
    let firsts: Vec<u32> = r
        .iter()
        .map(|s| {
            let b: Vec<u8> = ranges_of(s).iter().map(|x| x.start).collect();
            std::str::from_utf8(&b).unwrap().chars().next().unwrap() as u32
        })
        .collect();
    assert!(firsts.windows(2).all(|w| w[0] < w[1]));
    check_exact(&r, 0x41, 0x1F600);
}

#[test]
fn no_surrogates_below_the_gap() {
    let r = utf8_ranges('\u{800}', '\u{D7FF}');
    assert_eq!(count_accepting(&r, &[0xED, 0xA0, 0x80]), 0);
    assert_eq!(count_accepting(&r, &[0xED, 0x9F, 0xBF]), 1);
    // overlong forms are never accepted
    assert_eq!(count_accepting(&r, &[0xE0, 0x80, 0x80]), 0);
    check_exact(&r, 0x800, 0xD7FF);
}

#[test]
fn split_changes_nothing_accepted() {
    let whole = utf8_ranges('\u{70}', '\u{12345}');
    let mut halves = utf8_ranges('\u{70}', '\u{1000}');
    halves.extend(utf8_ranges('\u{1001}', '\u{12345}'));
    for c in 0..0x13000u32 {
        let b = encode_utf8(c);
        assert_eq!(count_accepting(&whole, &b), count_accepting(&halves, &b));
    }
}

#[test]
fn unaligned_two_byte_interval() {
    let r = utf8_ranges('\u{85}', '\u{145}');
    let p: Vec<Vec<(u8, u8)>> = r.iter().map(pairs).collect();
    assert_eq!(
        p,
        vec![
            vec![(0xC2, 0xC2), (0x85, 0xBF)],
            vec![(0xC3, 0xC4), (0x80, 0xBF)],
            vec![(0xC5, 0xC5), (0x80, 0x85)],
        ]
    );
}

#[test]
fn encoder_matches_std() {
    for c in (0..=0x10FFFFu32).filter_map(char::from_u32) {
        let mut buf = [0u8; 4];
        let want = c.encode_utf8(&mut buf).as_bytes().to_vec();
        assert_eq!(encode_utf8(c as u32), want);
    }
}

#[test]
fn encoder_examples() {
    assert_eq!(encode_utf8(0x41), vec![0x41]);
    assert_eq!(encode_utf8(0xE9), vec![0xC3, 0xA9]);
    assert_eq!(encode_utf8(0x20AC), vec![0xE2, 0x82, 0xAC]);
    assert_eq!(encode_utf8(0x1F600), vec![0xF0, 0x9F, 0x98, 0x80]);
    assert_eq!(encode_utf8(0x10FFFF), vec![0xF4, 0x8F, 0xBF, 0xBF]);
}

#[test]
fn interval_across_the_surrogate_gap() {
    let r = utf8_ranges('\u{D000}', '\u{E000}');
    let b = encode_utf8(0xE000);
    assert_eq!(count_accepting(&r, &b), 1);
    assert_eq!(count_accepting(&r, &encode_utf8(0xD000)), 1);
    assert_eq!(count_accepting(&r, &encode_utf8(0xD7FF)), 1);
    assert_eq!(count_accepting(&r, &[0xED, 0xA0, 0x80]), 0);
    assert_eq!(count_accepting(&r, &[0xED, 0xBF, 0xBF]), 0);
    check_exact(&r, 0xD000, 0xE000);
}

#[test]
fn whole_code_space_accepts_no_surrogate() {
    let r = utf8_ranges('\u{0}', '\u{10FFFF}');
    for c in 0xD800..=0xDFFFu32 {
        assert_eq!(count_accepting(&r, &encode_utf8(c)), 0);
    }
    assert_eq!(all_strings_of_len(&r, 3), 0x10000 - 0x1000);
    assert_eq!(all_strings_of_len(&r, 4), 0x110000 - 0x10000);
}
