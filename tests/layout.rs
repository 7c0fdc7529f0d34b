use thumbkey_layout::layout::{
    convert_for_printing, get_coordinates, is_space, is_tap, same_hand, swipe_is_good_for_hand,
    KeyPress, Layout, LayoutPermutations, ALL_CHARS, SPACE_POS,
};

const INIT_KEYS: [char; 85] = [
    //row 0
    'b','\0',';','\0','l',
    'z','\0','*','\0','c',
    '?','\0','#','\0','m',
    '\0','@','\0','|','p',
    '\0','$','\0','/','u',
    '\0','\"','\0','%','o',
    //row 1
    'j','\0','+','\0','d',
    'g','\0','\\','\0','n',
    'v','\0','x','\0','r',
    '\0','\'','\0','!','a',
    '\0','k','\0','-','i',
    '\0','~','\0','_','f',
    //row 2
    '\0','\0','\0','\0','\0',
    '=','\0','q','\0','s',
    ',','&','w','\0','t',
    '^','y','`','.','e',
    '\0',':','\0','\0','h',
];

/// A layout whose 80 letter slots hold 80 different characters.
fn distinct_layout() -> Layout {
    let mut keys = ['\0'; 85];
    let mut n: u32 = 0;
    for p in 0..85 {
        if !(60..65).contains(&p) {
            keys[p] = char::from_u32(0x100 + n).unwrap();
            n += 1;
        }
    }
    Layout::new(keys)
}

fn kp(pos: usize) -> KeyPress {
    KeyPress { pos }
}

#[test]
fn tap_and_space_positions() {
    assert!(is_tap(&kp(4)));
    assert!(is_tap(&kp(84)));
    assert!(!is_tap(&kp(0)));
    assert!(!is_tap(&kp(3)));
    assert!(is_space(&kp(SPACE_POS)));
    assert!(!is_space(&kp(84)));
}

#[test]
fn coordinates_of_positions() {
    assert_eq!(get_coordinates(&kp(0)), (0, 0));
    assert_eq!(get_coordinates(&kp(29)), (0, 5));
    assert_eq!(get_coordinates(&kp(34)), (1, 0));
    assert_eq!(get_coordinates(&kp(47)), (1, 3));
    assert_eq!(get_coordinates(&kp(69)), (2, 1));
    assert_eq!(get_coordinates(&kp(84)), (2, 4));
}

#[test]
fn hands_and_swipe_directions() {
    // columns 0..3 belong to the left thumb
    assert!(same_hand(&kp(4), &kp(14)));
    assert!(!same_hand(&kp(14), &kp(19)));
    assert!(same_hand(&kp(19), &kp(84)));
    // even swipe directions suit the left thumb, odd ones the right thumb
    assert!(swipe_is_good_for_hand(&kp(0)));
    assert!(!swipe_is_good_for_hand(&kp(1)));
    assert!(!swipe_is_good_for_hand(&kp(17)));
    assert!(swipe_is_good_for_hand(&kp(18)));
}

#[test]
fn printing_conversion() {
    assert_eq!(convert_for_printing('\0'), ' ');
    assert_eq!(convert_for_printing(' '), 'S');
    assert_eq!(convert_for_printing('q'), 'q');
}

#[test]
fn position_map_of_reference_layout() {
    let layout = Layout::new(INIT_KEYS);
    assert_eq!(layout.first_missing_char(), None);
    let map = layout.get_position_map();
    assert_eq!(map.get_key_position('b'), Some(kp(0)));
    assert_eq!(map.get_key_position('e'), Some(kp(79)));
    assert_eq!(map.get_key_position('h'), Some(kp(84)));
    assert_eq!(map.get_key_position(' '), Some(kp(SPACE_POS)));
    // the last of the empty slots wins
    assert_eq!(map.get_key_position('\0'), Some(kp(83)));
    // not on the layout, or outside the map's range
    assert_eq!(map.get_key_position('('), None);
    assert_eq!(map.get_key_position('é'), None);
    for c in ALL_CHARS.chars() {
        assert!(map.get_key_position(c).is_some());
    }
}

#[test]
fn space_on_a_slot_replaces_the_space_bar() {
    let mut keys = INIT_KEYS;
    keys[1] = ' ';
    let map = Layout::new(keys).get_position_map();
    assert_eq!(map.get_key_position(' '), Some(kp(1)));
}

#[test]
fn first_missing_character_is_named() {
    let mut keys = INIT_KEYS;
    // 'q' at 67 and '`' at 77 go missing; '`' comes first in the list
    keys[67] = '\0';
    keys[77] = '\0';
    assert_eq!(Layout::new(keys).first_missing_char(), Some('`'));
    keys[77] = '`';
    assert_eq!(Layout::new(keys).first_missing_char(), Some('q'));
}

#[test]
fn swap_of_letter_slots_skips_the_shift_key() {
    let mut layout = Layout::new(INIT_KEYS);
    layout.swap_letter_slots(0, 60);
    // letter slot 60 is position 65
    assert_eq!(layout.key_at(0), '=');
    assert_eq!(layout.key_at(65), 'b');
    layout.swap_letter_slots(80, 161);
    // 80 % 80 == 0 and 161 % 80 == 1
    assert_eq!(layout.key_at(0), '\0');
    assert_eq!(layout.key_at(1), '=');
}

#[test]
fn shuffle_keeps_characters() {
    let mut layout = Layout::new(INIT_KEYS);
    layout.shuffle(1000);
    let mut before: Vec<char> = INIT_KEYS.to_vec();
    let mut after: Vec<char> = layout.keys().to_vec();
    for p in 60..65 {
        assert_eq!(after[p], '\0');
    }
    before.sort();
    after.sort();
    assert_eq!(before, after);
    assert_eq!(layout.first_missing_char(), None);
}

#[test]
fn single_swap_neighbourhood_is_exhaustive() {
    let base = distinct_layout();
    let mut gen = LayoutPermutations::new(&base, 3);
    let mut seen: Vec<[char; 85]> = Vec::new();
    while let Some(l) = gen.next() {
        let keys = l.keys();
        let diff: Vec<usize> = (0..85).filter(|&p| keys[p] != base.keys()[p]).collect();
        assert_eq!(diff.len(), 2);
        assert_eq!(keys[diff[0]], base.keys()[diff[1]]);
        assert_eq!(keys[diff[1]], base.keys()[diff[0]]);
        assert!(diff.iter().all(|&p| !(60..65).contains(&p)));
        seen.push(keys);
    }
    assert_eq!(seen.len(), 80 * 79 / 2);
    seen.sort();
    seen.dedup();
    assert_eq!(seen.len(), 80 * 79 / 2);
    assert!(gen.next().is_none());
}

#[test]
fn single_swap_neighbourhood_order() {
    let base = Layout::new(INIT_KEYS);
    let mut gen = LayoutPermutations::new(&base, 1);
    let first = gen.next().unwrap();
    assert_eq!(first.key_at(0), '\0');
    assert_eq!(first.key_at(1), 'b');
    let second = gen.next().unwrap();
    assert_eq!(second.key_at(0), ';');
    assert_eq!(second.key_at(2), 'b');
}

#[test]
fn two_swap_neighbourhood_keeps_classes() {
    let base = distinct_layout();
    let mut gen = LayoutPermutations::two_swaps(&base);
    let letter_slots: Vec<usize> = (0..85).filter(|p| !(60..65).contains(p)).collect();
    let taps: Vec<char> =
        letter_slots.iter().filter(|&&p| p % 5 == 4).map(|&p| base.keys()[p]).collect();
    let mut count: usize = 0;
    while let Some(l) = gen.next() {
        if count % 997 == 0 {
            let keys = l.keys();
            for &p in &letter_slots {
                assert_eq!(taps.contains(&keys[p]), p % 5 == 4);
            }
        }
        count += 1;
    }
    // 16 taps and 64 swipes among the letter slots
    let swaps: usize = 16 * 15 / 2 + 64 * 63 / 2;
    assert_eq!(count, swaps * (swaps - 1) / 2);
}

#[test]
fn render_reference_layout() {
    let text = Layout::new(INIT_KEYS).render();
    let lines: Vec<&str> = text.lines().collect();
    assert_eq!(lines.len(), 12);
    assert_eq!(lines[0], " ;     | *     | #     |     | |     / |     % |");
    assert_eq!(lines[1], "   l   |   c   |   m   |   p   |   u   |   o   |");
    assert_eq!(lines[2], "     b |     z |     ? | @     | $     | \"     |");
    assert_eq!(lines[3], "------- ------- ------- ------- ------- -------");
    assert_eq!(lines[4], " +     | \\     | x     |     ! |     - |     _ |");
    assert_eq!(lines[8], "       | q     | w     | `   . |       |");
    assert_eq!(lines[9], "       |   s   |   t   |   e   |   h   |");
    assert_eq!(lines[10], "       |     = | &   , | y   ^ | :     |");
    assert!(text.ends_with("-------\n"));
}
