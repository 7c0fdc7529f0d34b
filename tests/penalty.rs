use thumbkey_layout::layout::{KeyPress, Layout, LayoutPosMap, SPACE_POS};
use thumbkey_layout::penalty::{
    init, penalty_terms, prepare_quartad_list, PenaltyTerm, QuartadList, TermCost, ALTERNATION_2,
    ALTERNATION_3, ALTERNATION_4, BASE, NUM_PENALTIES, SAME_THUMB_NONE_BETWEEN,
    SAME_THUMB_ONE_BETWEEN, SINGLE_THUMB_TRAVEL, SWIPE,
};

const INIT_KEYS: [char; 85] = [
    //row 0
    'b','\0',';','\0','l',
    'z','\0','*','\0','c',
    '?','\0','#','\0','m',
    '\0','@','\0','|','p',
    '\0','$','\0','/','u',
    '\0','\"','\0','%','o',
    //row 1
    'j','\0','+','\0','d',
    'g','\0','\\','\0','n',
    'v','\0','x','\0','r',
    '\0','\'','\0','!','a',
    '\0','k','\0','-','i',
    '\0','~','\0','_','f',
    //row 2
    '\0','\0','\0','\0','\0',
    '=','\0','q','\0','s',
    ',','&','w','\0','t',
    '^','y','`','.','e',
    '\0',':','\0','\0','h',
];

fn init_map() -> LayoutPosMap {
    Layout::new(INIT_KEYS).get_position_map()
}

/// The reference layout with 'b' moved to the tap next to 'a' (positions 49
/// and 54).
fn adjacent_map() -> LayoutPosMap {
    let mut layout = Layout::new(INIT_KEYS);
    layout.swap_keys(0, 54);
    layout.get_position_map()
}

fn entries(list: &QuartadList) -> Vec<(String, usize)> {
    (0..list.len())
        .map(|k| (list.window(k).iter().collect::<String>(), list.count(k)))
        .collect()
}

fn chars(s: &str) -> Vec<char> {
    s.chars().collect()
}

fn travel(penalty: usize, suffix_len: usize, from: usize, to: usize, weighted: bool) -> PenaltyTerm {
    PenaltyTerm {
        penalty,
        suffix_len,
        cost: TermCost::Travel { from: KeyPress { pos: from }, to: KeyPress { pos: to }, weighted },
    }
}

fn base(row: usize, col: usize) -> PenaltyTerm {
    PenaltyTerm { penalty: BASE, suffix_len: 1, cost: TermCost::Base { row, col } }
}

fn alternation(penalty: usize, keys: usize, alternates: bool) -> PenaltyTerm {
    PenaltyTerm { penalty, suffix_len: keys, cost: TermCost::Alternation { keys, alternates } }
}

#[test]
fn penalty_names() {
    let penalties = init();
    assert_eq!(penalties.len(), NUM_PENALTIES);
    assert_eq!(penalties[0].name(), "base penalty");
    assert_eq!(penalties[1].name(), "swipe penalty");
    assert_eq!(penalties[2].name(), "single thumb travel distance penalty");
    assert_eq!(penalties[3].name(), "both thumbs travel distance penalty, 0 in between");
    assert_eq!(penalties[5].name(), "both thumbs travel distance penalty, 2 in between");
    assert_eq!(penalties[8].name(), "length 4 alternation bonus");
}

#[test]
fn quartads_of_ab_ab() {
    let map = adjacent_map();
    let list = prepare_quartad_list("ab ab", &map);
    let expected: Vec<(String, usize)> = vec![
        ("a".to_string(), 1),
        ("ab".to_string(), 1),
        ("ab ".to_string(), 1),
        ("ab a".to_string(), 1),
        ("b ab".to_string(), 1),
    ];
    assert_eq!(entries(&list), expected);
    assert_eq!(list.count_of(&chars("ab")), 1);
    assert_eq!(list.count_of(&chars("b")), 0);
}

#[test]
fn quartads_of_empty_corpus() {
    let list = prepare_quartad_list("", &init_map());
    assert_eq!(list.len(), 0);
    assert_eq!(list.count_of(&chars("a")), 0);
}

#[test]
fn quartads_reset_at_delimiters() {
    let list = prepare_quartad_list("hello(world", &init_map());
    let got = entries(&list);
    let windows: Vec<&str> = got.iter().map(|(w, _)| w.as_str()).collect();
    assert_eq!(
        windows,
        vec!["h", "he", "hel", "hell", "ello", "w", "wo", "wor", "worl", "orld"]
    );
    assert!(got.iter().all(|(w, c)| !w.contains('(') && *c == 1));
}

#[test]
fn quartads_reset_at_characters_outside_the_map() {
    let list = prepare_quartad_list("a\u{e9}a\u{e9}ab", &init_map());
    assert_eq!(
        entries(&list),
        vec![("a".to_string(), 3), ("ab".to_string(), 1)]
    );
}

#[test]
fn quartads_count_repeats() {
    let list = prepare_quartad_list("aaaaaa", &init_map());
    assert_eq!(
        entries(&list),
        vec![
            ("a".to_string(), 1),
            ("aa".to_string(), 1),
            ("aaa".to_string(), 1),
            ("aaaa".to_string(), 3),
        ]
    );
    assert_eq!(list.count_of(&chars("aaaa")), 3);
    assert_eq!(list.count_of(&chars("aaaaa")), 0);
}

#[test]
fn quartads_are_deterministic() {
    let map = init_map();
    let text = "the quick brown fox jumps over the lazy dog, the end.";
    let first = entries(&prepare_quartad_list(text, &map));
    let second = entries(&prepare_quartad_list(text, &map));
    assert_eq!(first, second);
    assert!(first.iter().all(|(w, c)| (1..=4).contains(&w.chars().count()) && *c >= 1));
}

#[test]
fn terms_of_adjacent_taps() {
    let map = adjacent_map();
    let terms = penalty_terms(&chars("ab"), &map);
    assert_eq!(
        terms,
        vec![
            base(1, 4),
            travel(SINGLE_THUMB_TRAVEL, 2, 49, 54, false),
            travel(SAME_THUMB_NONE_BETWEEN, 2, 49, 54, false),
        ]
    );
}

#[test]
fn terms_stop_at_a_space() {
    let map = adjacent_map();
    assert_eq!(
        penalty_terms(&chars("ab a"), &map),
        vec![base(1, 3), travel(SINGLE_THUMB_TRAVEL, 2, SPACE_POS, 49, false)]
    );
    assert_eq!(
        penalty_terms(&chars("b ab"), &map),
        vec![
            base(1, 4),
            travel(SINGLE_THUMB_TRAVEL, 2, 49, 54, false),
            travel(SAME_THUMB_NONE_BETWEEN, 2, 49, 54, false),
        ]
    );
    // the space bar has no fixed cost and no swipe cost
    assert_eq!(
        penalty_terms(&chars("a "), &map),
        vec![travel(SINGLE_THUMB_TRAVEL, 2, 49, SPACE_POS, false)]
    );
}

#[test]
fn terms_of_alternating_thumbs() {
    // 'l' is a left tap at 4, 'o' a right tap at 29
    let terms = penalty_terms(&chars("lolo"), &init_map());
    assert_eq!(
        terms,
        vec![
            base(0, 5),
            travel(SINGLE_THUMB_TRAVEL, 2, 4, 29, false),
            alternation(ALTERNATION_2, 2, true),
            alternation(ALTERNATION_3, 3, true),
            travel(SAME_THUMB_ONE_BETWEEN, 3, 29, 29, true),
            alternation(ALTERNATION_4, 4, true),
        ]
    );
}

#[test]
fn terms_without_alternation() {
    // 'l' at 4 and 'c' at 9 are both left taps
    let terms = penalty_terms(&chars("lcl"), &init_map());
    assert_eq!(
        terms,
        vec![
            base(0, 0),
            travel(SINGLE_THUMB_TRAVEL, 2, 9, 4, false),
            travel(SAME_THUMB_NONE_BETWEEN, 2, 9, 4, false),
            alternation(ALTERNATION_3, 3, false),
        ]
    );
}

#[test]
fn terms_of_swipes() {
    let map = init_map();
    // 'b' at 0: a swipe of the left thumb towards a direction that suits it
    assert_eq!(
        penalty_terms(&chars("b"), &map),
        vec![
            base(0, 0),
            PenaltyTerm { penalty: SWIPE, suffix_len: 1, cost: TermCost::Swipe { good_for_hand: true } },
        ]
    );
    // '&' at 71: a swipe of the left thumb in an unsuitable direction
    assert_eq!(
        penalty_terms(&chars("&"), &map),
        vec![
            base(2, 2),
            PenaltyTerm { penalty: SWIPE, suffix_len: 1, cost: TermCost::Swipe { good_for_hand: false } },
        ]
    );
}

#[test]
fn terms_of_characters_without_position() {
    let map = init_map();
    assert_eq!(penalty_terms(&chars("a("), &map), vec![]);
    assert_eq!(penalty_terms(&chars("(a"), &map), vec![base(1, 3)]);
    assert_eq!(penalty_terms(&chars(""), &map), vec![]);
}

#[test]
fn breakdown_by_penalty_adds_up() {
    let map = init_map();
    let list = prepare_quartad_list("swipe keyboards, typed with two thumbs; all day long!", &map);
    let mut total: usize = 0;
    let mut by_penalty = [0usize; NUM_PENALTIES];
    for k in 0..list.len() {
        for term in penalty_terms(list.window(k), &map) {
            total += list.count(k) * (term.suffix_len + 1);
            by_penalty[term.penalty] += list.count(k) * (term.suffix_len + 1);
        }
    }
    assert!(total > 0);
    assert_eq!(by_penalty.iter().sum::<usize>(), total);
}
