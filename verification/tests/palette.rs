use asciime_filter::{charset, AsciiMap, Brightness};

#[test]
fn charset_has_two_to_the_nbits_characters_ending_in_a_blank() {
    for nbits in 1..=6u32 {
        let chars = charset(nbits).unwrap();
        assert_eq!(chars.len(), 1usize << nbits);
        assert_eq!(*chars.last().unwrap(), ' ');
    }
}

#[test]
fn charset_rejects_depths_outside_one_to_six() {
    assert!(charset(0).is_none());
    assert!(charset(7).is_none());
    assert!(charset(u32::MAX).is_none());
}

#[test]
fn charset_of_one_bit_is_densest_and_blank() {
    assert_eq!(charset(1).unwrap(), vec!['$', ' ']);
}

#[test]
fn charset_of_two_bits_takes_every_sixteenth() {
    assert_eq!(charset(2).unwrap(), vec!['$', 'w', 'r', ' ']);
}

#[test]
fn index_is_brightness_shifted_right() {
    let map = AsciiMap::new(charset(2).unwrap());
    assert_eq!(map.nbits(), 2);
    assert_eq!(*map.index(Brightness::new(0)), '$');
    assert_eq!(*map.index(Brightness::new(63)), '$');
    assert_eq!(*map.index(Brightness::new(64)), 'w');
    assert_eq!(*map.index(Brightness::new(128)), 'r');
    assert_eq!(*map.index(Brightness::new(255)), ' ');
    assert_eq!(Brightness::new(200).as_ascii(&map), ' ');
}

#[test]
fn invert_twice_gives_the_palette_back() {
    let mut map = AsciiMap::new(charset(3).unwrap());
    let before = map.chars().to_vec();
    map.invert();
    let mut reversed = before.clone();
    reversed.reverse();
    assert_eq!(map.chars(), &reversed[..]);
    map.invert();
    assert_eq!(map.chars(), &before[..]);
}

#[test]
fn index_never_decreases_as_brightness_grows() {
    for nbits in 1..=6u32 {
        let chars = charset(nbits).unwrap();
        let map = AsciiMap::new(chars.clone());
        let mut last = 0usize;
        for b in 0..=255u8 {
            let at = (b >> (8 - nbits)) as usize;
            assert_eq!(*map.index(Brightness::new(b)), chars[at]);
            assert!(at >= last);
            last = at;
        }
        assert_eq!(last, chars.len() - 1);
    }
}

#[test]
fn palette_of_one_character_stands_for_every_brightness() {
    let map = AsciiMap::new(vec!['#']);
    assert_eq!(map.nbits(), 0);
    assert_eq!(*map.index(Brightness::new(0)), '#');
    assert_eq!(*map.index(Brightness::new(255)), '#');
}

#[test]
fn palette_of_all_256_levels_is_indexed_by_the_brightness_itself() {
    let chars: Vec<char> = (0..256u32).map(|i| char::from_u32(0x100 + i).unwrap()).collect();
    let map = AsciiMap::new(chars.clone());
    assert_eq!(map.nbits(), 8);
    for b in [0u8, 1, 100, 255] {
        assert_eq!(*map.index(Brightness::new(b)), chars[b as usize]);
    }
}
