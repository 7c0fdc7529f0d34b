//! The physical layout: positions, layouts, position maps and neighbour layouts.
//!
//! Key map format (position indices):
//!
//! ```text
//!          col 0    col 1    col 2    col 3    col 4    col 5
//!
//!          2   3 |  7   8 | 12  13 | 17  18 | 22  23 | 27  28
//! row 0      4   |    9   |   14   |   19   |   24   |   29
//!          1   0 |  6   5 | 11  10 | 16  15 | 21  20 | 26  25
//!        -------- -------- -------- -------- -------- --------
//!         32  33 | 37  38 | 42  43 | 47  48 | 52  53 | 57  58
//! row 1     34   |   39   |   44   |   49   |   54   |   59
//!         31  30 | 36  35 | 41  40 | 46  45 | 51  50 | 56  55
//!        -------- -------- -------- -------- -------- --------
//!                | 67  68 | 72  73 | 77  78 | 82  83 |
//! row 2    SHIFT |   69   |   74   |   79   |   84   | BACKSPACE
//!                | 66  65 | 71  70 | 76  75 | 81  80 |
//! ```
//!
//! A position is `(row * 6 + col) * 5 + sub`, where `sub == 4` is the tap of
//! the key and `sub` in `0..4` is the swipe whose angle in radians is
//! `(sub / 4 + 1 / 8) * 2 * PI`. The space bar has the reserved position 109,
//! outside the grid.
use vstd::prelude::*;

verus! {

/// The reserved position of the space bar.
pub const SPACE_POS: usize = 109;

// ----- positions -----

/// Row of the key that holds a position.
pub open spec fn spec_row(pos: int) -> int {
    pos / 5 / 6
}

/// Column of the key that holds a position.
pub open spec fn spec_col(pos: int) -> int {
    pos / 5 % 6
}

/// Sub-position of a position within its key.
pub open spec fn spec_sub(pos: int) -> int {
    pos % 5
}

/// The position of sub-position `sub` of the key at `(row, col)`.
pub open spec fn spec_compose(row: int, col: int, sub: int) -> int {
    (row * 6 + col) * 5 + sub
}

pub open spec fn spec_is_tap(pos: int) -> bool {
    spec_sub(pos) == 4
}

pub open spec fn spec_is_space(pos: int) -> bool {
    pos == 109
}

/// A position is typed with the left thumb when its key is in the left half.
pub open spec fn spec_is_left(pos: int) -> bool {
    spec_col(pos) < 3
}

/// A swipe that suits the left thumb: north-west or south-east.
pub open spec fn spec_is_good_for_left(pos: int) -> bool {
    spec_sub(pos) % 2 == 0
}

pub open spec fn spec_swipe_is_good_for_hand(pos: int) -> bool {
    spec_is_left(pos) == spec_is_good_for_left(pos)
}

pub open spec fn spec_same_hand(a: int, b: int) -> bool {
    spec_is_left(a) == spec_is_left(b)
}

/// The slot that letter slot number `i` (in `0..80`) stands for: the shift
/// key's slots are skipped.
pub open spec fn spec_to_index(i: int) -> int {
    if i >= 60 {
        i + 5
    } else {
        i
    }
}

/// A slot that may hold a letter: any slot of the grid but the shift key's.
pub open spec fn is_letter_slot(p: int) -> bool {
    0 <= p < 60 || 65 <= p < 85
}

/// Decomposing a grid position into (row, column, sub-position) and composing
/// the parts again gives the position back.
pub proof fn lemma_decompose_compose(pos: int)
    requires
        0 <= pos < 90,
    ensures
        0 <= spec_row(pos) < 3,
        0 <= spec_col(pos) < 6,
        0 <= spec_sub(pos) < 5,
        spec_compose(spec_row(pos), spec_col(pos), spec_sub(pos)) == pos,
{
}

/// Composing a position from (row, column, sub-position) and decomposing it
/// again gives the parts back.
pub proof fn lemma_compose_decompose(row: int, col: int, sub: int)
    requires
        0 <= row < 3,
        0 <= col < 6,
        0 <= sub < 5,
    ensures
        0 <= spec_compose(row, col, sub) < 90,
        spec_row(spec_compose(row, col, sub)) == row,
        spec_col(spec_compose(row, col, sub)) == col,
        spec_sub(spec_compose(row, col, sub)) == sub,
{
}

/// Letter slot numbers map one to one onto the letter slots, in order.
pub proof fn lemma_to_index_bijective(i: int, j: int)
    requires
        0 <= i < 80,
        0 <= j < 80,
    ensures
        is_letter_slot(spec_to_index(i)),
        i < j <==> spec_to_index(i) < spec_to_index(j),
        (i == j) <==> (spec_to_index(i) == spec_to_index(j)),
{
}

/// Every letter slot is the image of a letter slot number.
pub proof fn lemma_to_index_onto(p: int)
    requires
        is_letter_slot(p),
    ensures
        0 <= (if p >= 65 { p - 5 } else { p }) < 80,
        spec_to_index(if p >= 65 { p - 5 } else { p }) == p,
{
}

/// Maps a letter slot number in `0..80` to its slot, keeping the order.
pub(crate) fn to_index(orig: usize) -> (r: usize)
    requires
        orig < 80,
    ensures
        r == spec_to_index(orig as int),
        is_letter_slot(r as int),
{
    if orig >= 60 {
        orig + 5
    } else {
        orig
    }
}

/// One physical key action, identified by its position.
#[derive(Clone, Copy, PartialEq, Eq, Debug, Structural)]
pub struct KeyPress {
    pub pos: usize,
}

pub fn is_tap(key: &KeyPress) -> (r: bool)
    ensures
        r == spec_is_tap(key.pos as int),
{
    key.pos % 5 == 4
}

pub fn is_space(key: &KeyPress) -> (r: bool)
    ensures
        r == spec_is_space(key.pos as int),
{
    key.pos == 109
}

/// The (row, column) of the key that holds a position.
pub fn get_coordinates(key: &KeyPress) -> (r: (usize, usize))
    requires
        !spec_is_space(key.pos as int),
    ensures
        r.0 == spec_row(key.pos as int),
        r.1 == spec_col(key.pos as int),
{
    let spot = key.pos / 5;
    (spot / 6, spot % 6)
}

/// Whether a position is typed with the left thumb.
fn is_left(key: &KeyPress) -> (r: bool)
    requires
        !spec_is_space(key.pos as int),
    ensures
        r == spec_is_left(key.pos as int),
{
    let column = get_coordinates(key).1;
    column < 3
}

/// Whether a swipe suits the left thumb: either north-west or south-east.
fn is_good_for_left(key: &KeyPress) -> (r: bool)
    requires
        !spec_is_tap(key.pos as int),
    ensures
        r == spec_is_good_for_left(key.pos as int),
{
    (key.pos % 5) % 2 == 0
}

/// Whether a swipe's direction suits the thumb that performs it.
pub fn swipe_is_good_for_hand(key: &KeyPress) -> (r: bool)
    requires
        !spec_is_space(key.pos as int),
        !spec_is_tap(key.pos as int),
    ensures
        r == spec_swipe_is_good_for_hand(key.pos as int),
{
    is_left(key) == is_good_for_left(key)
}

/// Whether two positions are typed with the same thumb.
pub fn same_hand(key1: &KeyPress, key2: &KeyPress) -> (r: bool)
    requires
        !spec_is_space(key1.pos as int),
        !spec_is_space(key2.pos as int),
    ensures
        r == spec_same_hand(key1.pos as int, key2.pos as int),
{
    is_left(key1) == is_left(key2)
}


// ----- layouts -----

/// A fixed-size table indexed by position.
#[derive(Clone, Copy)]
pub struct KeyMap<T>(pub [T; 85]);

/// One assignment of characters to the slots of the keyboard; `'\0'` marks an
/// empty slot.
#[derive(Clone, Copy)]
pub struct Layout(KeyMap<char>);

/// The characters that every complete layout holds.
pub const ALL_CHARS: &'static str = "`~!@#$%^&*-_=+\\|;:\'\",./?qwertyuiopasdfghjklzxcvbnm";

impl View for Layout {
    type V = Seq<char>;

    /// The characters of the slots, in order of position.
    closed spec fn view(&self) -> Seq<char> {
        self.0.0@
    }
}

/// A layout has one character per slot.
pub broadcast proof fn lemma_layout_len(l: Layout)
    ensures
        #[trigger] l@.len() == 85,
{
}

/// `s` with the elements at `i` and `j` exchanged.
pub open spec fn swap_seq<T>(s: Seq<T>, i: int, j: int) -> Seq<T> {
    s.update(i, s[j]).update(j, s[i])
}

/// Exchanging two elements keeps the multiset of elements.
pub proof fn lemma_swap_keeps_multiset<T>(s: Seq<T>, i: int, j: int)
    requires
        0 <= i < s.len(),
        0 <= j < s.len(),
    ensures
        swap_seq(s, i, j).to_multiset() =~= s.to_multiset(),
        swap_seq(s, i, j).len() == s.len(),
{
    broadcast use vstd::seq_lib::to_multiset_update;
    broadcast use vstd::seq_lib::to_multiset_contains;
    broadcast use vstd::multiset::group_multiset_axioms;

    if i == j {
        assert(swap_seq(s, i, j) =~= s);
    } else {
        let t = s.update(i, s[j]);
        let m = s.to_multiset();
        assert(s.contains(s[i]));
        assert(t.len() == s.len() && t[i] == s[j]);
        assert(t.contains(s[j]));
        assert(t.to_multiset() =~= m.insert(s[j]).remove(s[i]));
        assert(t.update(j, s[i]).to_multiset() =~= t.to_multiset().insert(s[i]).remove(s[j]));
        assert(m.insert(s[j]).remove(s[i]).insert(s[i]).remove(s[j]) =~= m);
    }
}

/// Whether a layout holds every character of [`ALL_CHARS`].
pub open spec fn covers_required(l: Seq<char>) -> bool {
    forall|i: int| 0 <= i < ALL_CHARS@.len() ==> l.contains(#[trigger] ALL_CHARS@[i])
}

/// Draws a number, uniformly over `usize`.
///
/// Relies on `rand::random::<usize>`, which draws from the thread-local
/// generator; nothing is known of the value.
#[verifier::external_body]
fn random_number() -> usize {
    rand::random::<usize>()
}

impl Layout {
    pub fn new(keys: [char; 85]) -> (r: Layout)
        ensures
            r@ == keys@,
    {
        Layout(KeyMap(keys))
    }

    /// The characters of all slots, in order of position.
    pub fn keys(&self) -> (r: [char; 85])
        ensures
            r@ == self@,
    {
        self.0.0
    }

    /// The character at a slot.
    pub fn key_at(&self, pos: usize) -> (r: char)
        requires
            pos < 85,
        ensures
            r == self@[pos as int],
    {
        self.0.0[pos]
    }

    /// Exchanges the characters of two slots.
    pub fn swap_keys(&mut self, i: usize, j: usize)
        requires
            i < 85,
            j < 85,
        ensures
            final(self)@ == swap_seq(old(self)@, i as int, j as int),
    {
        let a = self.0.0[i];
        let b = self.0.0[j];
        self.0.0[i] = b;
        self.0.0[j] = a;
        assert(self@ =~= swap_seq(old(self)@, i as int, j as int));
    }

    /// Exchanges the characters of letter slots number `a % 80` and `b % 80`.
    pub fn swap_letter_slots(&mut self, a: usize, b: usize)
        ensures
            final(self)@ == swap_seq(
                old(self)@,
                spec_to_index((a % 80) as int),
                spec_to_index((b % 80) as int),
            ),
    {
        let i = to_index(a % 80);
        let j = to_index(b % 80);
        self.swap_keys(i, j);
    }

    /// Makes `times` random exchanges between letter slots.
    ///
    /// Whatever was drawn, the layout keeps its characters, each as often as
    /// before, and the shift key's slots keep theirs.
    pub fn shuffle(&mut self, times: usize)
        ensures
            final(self)@.len() == 85,
            final(self)@.to_multiset() == old(self)@.to_multiset(),
            forall|p: int| 0 <= p < 85 && !is_letter_slot(p) ==> final(self)@[p] == old(self)@[p],
            times == 0 ==> final(self)@ == old(self)@,
    {
        let mut k: usize = 0;
        while k < times
            invariant
                self@.len() == 85,
                k <= times,
                k == 0 ==> self@ == old(self)@,
                self@.to_multiset() == old(self)@.to_multiset(),
                forall|p: int| 0 <= p < 85 && !is_letter_slot(p) ==> self@[p] == old(self)@[p],
            decreases times - k,
        {
            let a = random_number();
            let b = random_number();
            let ghost before = self@;
            self.swap_letter_slots(a, b);
            proof {
                lemma_swap_keeps_multiset(
                    before,
                    spec_to_index((a % 80) as int),
                    spec_to_index((b % 80) as int),
                );
            }
            k = k + 1;
        }
    }

    /// Whether some slot holds `c`.
    pub fn contains_key(&self, c: char) -> (r: bool)
        ensures
            r == self@.contains(c),
    {
        let mut p: usize = 0;
        while p < 85
            invariant
                p <= 85,
                forall|q: int| 0 <= q < p ==> self@[q] != c,
            decreases 85 - p,
        {
            if self.0.0[p] == c {
                return true;
            }
            p = p + 1;
        }
        false
    }

    /// The first character of [`ALL_CHARS`] that no slot holds, if any.
    pub fn first_missing_char(&self) -> (r: Option<char>)
        ensures
            r is None <==> covers_required(self@),
            r matches Some(c) ==> exists|i: int|
                0 <= i < ALL_CHARS@.len() && ALL_CHARS@[i] == c && !self@.contains(c) && forall|
                    j: int,
                | 0 <= j < i ==> self@.contains(#[trigger] ALL_CHARS@[j]),
    {
        let mut done: Vec<char> = Vec::new();
        for c in it: ALL_CHARS.chars()
            invariant
                it.seq() == ALL_CHARS@,
                forall|j: int| 0 <= j < it.index() ==> self@.contains(#[trigger] ALL_CHARS@[j]),
        {
            if !self.contains_key(c) {
                return Some(c);
            }
        }
        None
    }
}

// ----- position maps -----

/// The last slot below `n` that holds the character with code `code`, or -1.
pub open spec fn last_slot_of(l: Seq<char>, code: int, n: int) -> int
    decreases n,
{
    if n <= 0 {
        -1
    } else if l[n - 1] as int == code {
        n - 1
    } else {
        last_slot_of(l, code, n - 1)
    }
}

/// What a layout's position map holds for the character with code `code` (in
/// `0..128`): the last slot that holds it; for a space that no slot holds, the
/// space bar; else nothing.
pub open spec fn position_entry(l: Seq<char>, code: int) -> Option<KeyPress> {
    let p = last_slot_of(l, code, 85);
    if p >= 0 {
        Some(KeyPress { pos: p as usize })
    } else if code == 32 {
        Some(KeyPress { pos: 109 })
    } else {
        None
    }
}

/// The index from character to position of one layout, for the characters
/// with codes below 128.
pub struct LayoutPosMap([Option<KeyPress>; 128]);

impl LayoutPosMap {
    /// Each entry names a slot of the grid, or the space bar for the space.
    #[verifier::type_invariant]
    closed spec fn inv(self) -> bool {
        map_wf(self.0@)
    }
}

impl View for LayoutPosMap {
    type V = Seq<Option<KeyPress>>;

    /// The entry of each character code below 128.
    closed spec fn view(&self) -> Seq<Option<KeyPress>> {
        self.0@
    }
}

/// The position of a character in a position map: "not present" for the
/// characters outside the map's range.
pub open spec fn lookup(m: Seq<Option<KeyPress>>, c: char) -> Option<KeyPress> {
    if (c as int) < 128 {
        m[c as int]
    } else {
        None
    }
}

/// Whether a character has a position in a position map.
pub open spec fn placeable(m: Seq<Option<KeyPress>>, c: char) -> bool {
    lookup(m, c) is Some
}

/// The position map of a layout.
pub open spec fn position_map_of(l: Seq<char>) -> Seq<Option<KeyPress>> {
    Seq::new(128, |code: int| position_entry(l, code))
}

/// A position map as a layout gives it: each entry names a slot of the grid,
/// or the space bar for the space character.
pub open spec fn map_wf(m: Seq<Option<KeyPress>>) -> bool {
    &&& m.len() == 128
    &&& forall|code: int|
        0 <= code < 128 && (#[trigger] m[code]) is Some ==> {
            let p = m[code]->0.pos;
            p < 85 || (p == 109 && code == 32)
        }
}

proof fn lemma_last_slot_bounds(l: Seq<char>, code: int, n: int)
    requires
        0 <= n,
    ensures
        -1 <= last_slot_of(l, code, n) < n,
        last_slot_of(l, code, n) >= 0 ==> l[last_slot_of(l, code, n)] as int == code,
        last_slot_of(l, code, n) < 0 ==> forall|q: int|
            0 <= q < n ==> #[trigger] l[q] as int != code,
    decreases n,
{
    if n > 0 {
        lemma_last_slot_bounds(l, code, n - 1);
    }
}

/// A layout's position map is well formed.
pub proof fn lemma_position_map_wf(l: Seq<char>)
    ensures
        map_wf(position_map_of(l)),
{
    assert forall|code: int|
        0 <= code < 128 && (#[trigger] position_map_of(l)[code]) is Some implies {
        let p = position_map_of(l)[code]->0.pos;
        p < 85 || (p == 109 && code == 32)
    } by {
        lemma_last_slot_bounds(l, code, 85);
    }
}

/// A character's code is never negative.
pub proof fn lemma_char_code_nonneg(c: char)
    ensures
        0 <= c as int,
{
}

/// The code point of a character.
pub(crate) fn char_code(c: char) -> (r: u32)
    ensures
        r as int == c as int,
{
    c as u32
}

impl Layout {
    /// Builds the character-to-position index of this layout.
    pub fn get_position_map(&self) -> (r: LayoutPosMap)
        ensures
            r@ == position_map_of(self@),
            map_wf(r@),
    {
        let mut map: [Option<KeyPress>; 128] = [None; 128];
        map[32] = Some(KeyPress { pos: 109 });
        let mut pos: usize = 0;
        while pos < 85
            invariant
                pos <= 85,
                self@.len() == 85,
                map@.len() == 128,
                forall|code: int|
                    0 <= code < 128 ==> #[trigger] map@[code] == (if last_slot_of(
                        self@,
                        code,
                        pos as int,
                    ) >= 0 {
                        Some(KeyPress { pos: last_slot_of(self@, code, pos as int) as usize })
                    } else if code == 32 {
                        Some(KeyPress { pos: 109 })
                    } else {
                        None
                    }),
            decreases 85 - pos,
        {
            let c = self.0.0[pos];
            assert(forall|code: int|
                #[trigger] last_slot_of(self@, code, pos + 1) == (if self@[pos as int] as int
                    == code {
                    pos as int
                } else {
                    last_slot_of(self@, code, pos as int)
                }));
            let code_c = char_code(c);
            if code_c < 128 {
                map[code_c as usize] = Some(KeyPress { pos });
            }
            pos = pos + 1;
        }
        assert(map@ =~= position_map_of(self@));
        proof {
            lemma_position_map_wf(self@);
        }
        LayoutPosMap(map)
    }
}

impl LayoutPosMap {
    /// The position of a character, or `None` where it has none.
    pub fn get_key_position(&self, kc: char) -> (r: Option<KeyPress>)
        ensures
            r == lookup(self@, kc),
            map_wf(self@),
    {
        proof {
            use_type_invariant(self);
        }
        let code = char_code(kc);
        if code < 128 {
            self.0[code as usize]
        } else {
            None
        }
    }
}

// ----- neighbour layouts -----

/// The pair of slots of letter slot numbers `i` and `j`.
pub open spec fn slot_pair(i: int, j: int) -> (usize, usize) {
    (spec_to_index(i) as usize, spec_to_index(j) as usize)
}

/// A swap between two taps or between two swipes.
pub open spec fn same_class(p: (usize, usize)) -> bool {
    spec_is_tap(p.0 as int) == spec_is_tap(p.1 as int)
}

/// The swaps of letter slot number `i` with the numbers `j..80`, in order;
/// where `constrained`, only those within one class.
pub open spec fn row_swaps(i: int, j: int, constrained: bool) -> Seq<(usize, usize)>
    decreases 80 - j,
{
    if j >= 80 {
        seq![]
    } else {
        let rest = row_swaps(i, j + 1, constrained);
        if !constrained || same_class(slot_pair(i, j)) {
            seq![slot_pair(i, j)] + rest
        } else {
            rest
        }
    }
}

/// The swaps of each letter slot number from `i` on with every later one, in
/// lexicographic order of the numbers; where `constrained`, only those within
/// one class.
pub open spec fn swaps_from(i: int, constrained: bool) -> Seq<(usize, usize)>
    decreases 80 - i,
{
    if i >= 80 {
        seq![]
    } else {
        row_swaps(i, i + 1, constrained) + swaps_from(i + 1, constrained)
    }
}

/// Every swap of two letter slots, in lexicographic order.
pub open spec fn single_swaps() -> Seq<(usize, usize)> {
    swaps_from(0, false)
}

/// Every swap of two letter slots of one class, in lexicographic order.
pub open spec fn class_swaps() -> Seq<(usize, usize)> {
    swaps_from(0, true)
}

/// A layout with one swap applied.
pub open spec fn apply_swap(l: Seq<char>, s: (usize, usize)) -> Seq<char> {
    swap_seq(l, s.0 as int, s.1 as int)
}

/// The list of swaps, built in order.
fn build_swaps(constrained: bool) -> (r: Vec<(usize, usize)>)
    ensures
        r@ == swaps_from(0, constrained),
{
    let mut swaps: Vec<(usize, usize)> = Vec::new();
    let mut i: usize = 0;
    while i < 80
        invariant
            i <= 80,
            swaps@ + swaps_from(i as int, constrained) == swaps_from(0, constrained),
        decreases 80 - i,
    {
        assert(swaps@ + row_swaps(i as int, i + 1, constrained) + swaps_from(i + 1, constrained)
            =~= swaps@ + swaps_from(i as int, constrained));
        let mut j: usize = i + 1;
        while j < 80
            invariant
                i < 80,
                i + 1 <= j <= 80,
                swaps@ + row_swaps(i as int, j as int, constrained) + swaps_from(i + 1, constrained)
                    == swaps_from(0, constrained),
            decreases 80 - j,
        {
            let a = to_index(i);
            let b = to_index(j);
            let ghost before = swaps@;
            if !constrained || ((a % 5 == 4) == (b % 5 == 4)) {
                swaps.push((a, b));
                assert(swaps@ + row_swaps(i as int, j + 1, constrained) =~= before + row_swaps(
                    i as int,
                    j as int,
                    constrained,
                ));
            }
            j = j + 1;
        }
        assert(swaps@ + row_swaps(i as int, j as int, constrained) =~= swaps@);
        i = i + 1;
    }
    assert(swaps@ + swaps_from(80, constrained) =~= swaps@);
    swaps
}

/// The layouts next to a base layout, drawn one at a time: either each
/// layout one swap of two letter slots away, or each layout that two
/// different swaps within one class (tap with tap, swipe with swipe) lead to.
pub struct LayoutPermutations {
    orig_layout: Layout,
    swaps: Vec<(usize, usize)>,
    two_swaps: bool,
    index: usize,
    second: usize,
}

impl LayoutPermutations {
    /// The base layout.
    pub closed spec fn base(&self) -> Seq<char> {
        self.orig_layout@
    }

    /// The swaps that the layouts are made of.
    pub closed spec fn swap_list(&self) -> Seq<(usize, usize)> {
        self.swaps@
    }

    /// Whether each layout is made of two swaps.
    pub closed spec fn makes_two_swaps(&self) -> bool {
        self.two_swaps
    }

    /// The index of the next swap; with two swaps, of the first one.
    pub closed spec fn cursor(&self) -> int {
        self.index as int
    }

    /// With two swaps, the index of the next second swap.
    pub closed spec fn second_cursor(&self) -> int {
        self.second as int
    }

    pub closed spec fn wf(&self) -> bool {
        &&& self.orig_layout@.len() == 85
        &&& forall|k: int|
            0 <= k < self.swaps@.len() ==> {
                &&& (#[trigger] self.swaps@[k]).0 < 85
                &&& self.swaps@[k].1 < 85
            }
        &&& if self.two_swaps {
            self.index < self.second < self.swaps@.len() || (self.index + 1 >= self.swaps@.len()
                && self.second == self.swaps@.len() && self.index <= self.swaps@.len())
        } else {
            self.index <= self.swaps@.len()
        }
    }

    /// Whether no layout is left.
    pub open spec fn exhausted(&self) -> bool {
        if self.makes_two_swaps() {
            self.cursor() + 1 >= self.swap_list().len()
        } else {
            self.cursor() >= self.swap_list().len()
        }
    }

    /// The layout that the next call of `next` hands out, where one is left.
    pub open spec fn upcoming(&self) -> Seq<char> {
        if self.makes_two_swaps() {
            apply_swap(
                apply_swap(self.base(), self.swap_list()[self.cursor()]),
                self.swap_list()[self.second_cursor()],
            )
        } else {
            apply_swap(self.base(), self.swap_list()[self.cursor()])
        }
    }

    /// The layouts one swap of two letter slots away from `layout`, in
    /// lexicographic order of the slots. The number of swaps per layout is
    /// not looked at: see [`LayoutPermutations::two_swaps`].
    pub fn new(layout: &Layout, _depth: usize) -> (r: LayoutPermutations)
        ensures
            r.wf(),
            r.base() == layout@,
            r.swap_list() == single_swaps(),
            !r.makes_two_swaps(),
            r.cursor() == 0,
    {
        let swaps = build_swaps(false);
        proof {
            lemma_swaps_in_grid(false);
        }
        LayoutPermutations { orig_layout: *layout, swaps, two_swaps: false, index: 0, second: 0 }
    }

    /// The layouts that two different swaps within one class lead to from
    /// `layout`, applied in order: the pairs of swaps come in lexicographic
    /// order of their indices in [`class_swaps`].
    pub fn two_swaps(layout: &Layout) -> (r: LayoutPermutations)
        ensures
            r.wf(),
            r.base() == layout@,
            r.swap_list() == class_swaps(),
            r.makes_two_swaps(),
            r.cursor() == 0,
            r.second_cursor() == 1,
    {
        let swaps = build_swaps(true);
        proof {
            lemma_swaps_in_grid(true);
            lemma_class_swaps_len();
        }
        LayoutPermutations { orig_layout: *layout, swaps, two_swaps: true, index: 0, second: 1 }
    }

    /// The next layout, or `None` when all were handed out.
    pub fn next(&mut self) -> (r: Option<Layout>)
        requires
            old(self).wf(),
        ensures
            final(self).wf(),
            final(self).base() == old(self).base(),
            final(self).swap_list() == old(self).swap_list(),
            final(self).makes_two_swaps() == old(self).makes_two_swaps(),
            old(self).exhausted() ==> r is None && *final(self) == *old(self),
            !old(self).exhausted() ==> (r matches Some(l) && l@ == old(self).upcoming()),
            !old(self).exhausted() ==> 0 <= old(self).cursor() < old(self).swap_list().len(),
            !old(self).exhausted() && old(self).makes_two_swaps() ==> old(self).cursor()
                < old(self).second_cursor() < old(self).swap_list().len(),
            !old(self).exhausted() && !old(self).makes_two_swaps() ==> final(self).cursor()
                == old(self).cursor() + 1,
            !old(self).exhausted() && old(self).makes_two_swaps() ==> {
                if old(self).second_cursor() + 1 < old(self).swap_list().len() {
                    final(self).cursor() == old(self).cursor() && final(self).second_cursor()
                        == old(self).second_cursor() + 1
                } else {
                    final(self).cursor() == old(self).cursor() + 1 && (final(self).cursor() + 1
                        >= final(self).swap_list().len() || final(self).second_cursor()
                        == final(self).cursor() + 1)
                }
            },
    {
        let n = self.swaps.len();
        if self.two_swaps {
            if n == 0 || self.index >= n - 1 {
                return None;
            }
            let mut current_layout = self.orig_layout;
            let (i, j) = self.swaps[self.index];
            current_layout.swap_keys(i, j);
            let (k, l) = self.swaps[self.second];
            current_layout.swap_keys(k, l);
            if self.second + 1 < n {
                self.second = self.second + 1;
            } else {
                self.index = self.index + 1;
                self.second = if self.index + 1 < n {
                    self.index + 1
                } else {
                    n
                };
            }
            Some(current_layout)
        } else {
            if self.index == n {
                return None;
            }
            let mut current_layout = self.orig_layout;
            let (i, j) = self.swaps[self.index];
            current_layout.swap_keys(i, j);
            self.index = self.index + 1;
            Some(current_layout)
        }
    }
}

proof fn lemma_row_swaps_in_grid(i: int, j: int, c: bool)
    requires
        0 <= i < 80,
        0 <= j,
    ensures
        forall|k: int|
            0 <= k < row_swaps(i, j, c).len() ==> {
                &&& (#[trigger] row_swaps(i, j, c)[k]).0 < 85
                &&& row_swaps(i, j, c)[k].1 < 85
            },
    decreases 80 - j,
{
    if j < 80 {
        lemma_row_swaps_in_grid(i, j + 1, c);
        let rest = row_swaps(i, j + 1, c);
        assert forall|k: int| 0 <= k < row_swaps(i, j, c).len() implies {
            &&& (#[trigger] row_swaps(i, j, c)[k]).0 < 85
            &&& row_swaps(i, j, c)[k].1 < 85
        } by {
            if !c || same_class(slot_pair(i, j)) {
                if k > 0 {
                    assert(row_swaps(i, j, c)[k] == rest[k - 1]);
                }
            }
        }
    }
}

proof fn lemma_swaps_from_in_grid(i: int, c: bool)
    requires
        0 <= i,
    ensures
        forall|k: int|
            0 <= k < swaps_from(i, c).len() ==> {
                &&& (#[trigger] swaps_from(i, c)[k]).0 < 85
                &&& swaps_from(i, c)[k].1 < 85
            },
    decreases 80 - i,
{
    if i < 80 {
        lemma_row_swaps_in_grid(i, i + 1, c);
        lemma_swaps_from_in_grid(i + 1, c);
        let r = row_swaps(i, i + 1, c);
        let t = swaps_from(i + 1, c);
        assert forall|k: int| 0 <= k < swaps_from(i, c).len() implies {
            &&& (#[trigger] swaps_from(i, c)[k]).0 < 85
            &&& swaps_from(i, c)[k].1 < 85
        } by {
            if k < r.len() {
                assert(swaps_from(i, c)[k] == r[k]);
            } else {
                assert(swaps_from(i, c)[k] == t[k - r.len()]);
            }
        }
    }
}

proof fn lemma_swaps_in_grid(c: bool)
    ensures
        forall|k: int|
            0 <= k < swaps_from(0, c).len() ==> {
                &&& (#[trigger] swaps_from(0, c)[k]).0 < 85
                &&& swaps_from(0, c)[k].1 < 85
            },
{
    lemma_swaps_from_in_grid(0, c);
}

proof fn lemma_class_swaps_len()
    ensures
        class_swaps().len() >= 2,
{
    assert(row_swaps(0, 2, true).len() >= 0);
    assert(row_swaps(0, 1, true) =~= seq![slot_pair(0, 1)] + row_swaps(0, 2, true));
    assert(row_swaps(0, 2, true) =~= seq![slot_pair(0, 2)] + row_swaps(0, 3, true));
    assert(class_swaps() =~= row_swaps(0, 1, true) + swaps_from(1, true));
}

/// `p` comes before `q` in lexicographic order.
pub open spec fn lex_lt(p: (usize, usize), q: (usize, usize)) -> bool {
    p.0 < q.0 || (p.0 == q.0 && p.1 < q.1)
}

proof fn lemma_row_swaps(i: int, j: int, c: bool)
    requires
        0 <= i < 80,
        0 <= j <= 80,
    ensures
        forall|k: int|
            0 <= k < row_swaps(i, j, c).len() ==> {
                let p = #[trigger] row_swaps(i, j, c)[k];
                &&& p.0 as int == spec_to_index(i)
                &&& spec_to_index(j) <= p.1 as int
                &&& is_letter_slot(p.1 as int)
                &&& (c ==> same_class(p))
            },
        forall|k: int, l: int|
            0 <= k < l < row_swaps(i, j, c).len() ==> (#[trigger] row_swaps(i, j, c)[k]).1
                < (#[trigger] row_swaps(i, j, c)[l]).1,
        !c ==> row_swaps(i, j, c).len() == 80 - j,
        !c ==> forall|b: int| j <= b < 80 ==> row_swaps(i, j, c).contains(#[trigger] slot_pair(i, b)),
    decreases 80 - j,
{
    if j < 80 {
        lemma_row_swaps(i, j + 1, c);
        let rest = row_swaps(i, j + 1, c);
        let r = row_swaps(i, j, c);
        if !c || same_class(slot_pair(i, j)) {
            assert(r == seq![slot_pair(i, j)] + rest);
            assert forall|k: int| 0 < k < r.len() implies #[trigger] r[k] == rest[k - 1] by {}
            assert(r[0] == slot_pair(i, j));
            if !c {
                assert forall|b: int| j <= b < 80 implies r.contains(#[trigger] slot_pair(i, b)) by {
                    if b == j {
                        assert(r[0] == slot_pair(i, b));
                    } else {
                        assert(rest.contains(slot_pair(i, b)));
                        let k = choose|k: int| 0 <= k < rest.len() && rest[k] == slot_pair(i, b);
                        assert(r[k + 1] == slot_pair(i, b));
                    }
                }
            }
        }
    }
}

proof fn lemma_swaps_from(i: int, c: bool)
    requires
        0 <= i <= 80,
    ensures
        forall|k: int|
            0 <= k < swaps_from(i, c).len() ==> {
                let p = #[trigger] swaps_from(i, c)[k];
                &&& spec_to_index(i) <= p.0 as int
                &&& p.0 < p.1
                &&& is_letter_slot(p.0 as int)
                &&& is_letter_slot(p.1 as int)
                &&& (c ==> same_class(p))
            },
        forall|k: int, l: int|
            0 <= k < l < swaps_from(i, c).len() ==> lex_lt(
                #[trigger] swaps_from(i, c)[k],
                #[trigger] swaps_from(i, c)[l],
            ),
        !c ==> swaps_from(i, c).len() == (80 - i) * (79 - i) / 2,
        !c ==> forall|a: int, b: int|
            i <= a < b < 80 ==> swaps_from(i, c).contains(#[trigger] slot_pair(a, b)),
    decreases 80 - i,
{
    if i < 80 {
        lemma_row_swaps(i, i + 1, c);
        lemma_swaps_from(i + 1, c);
        let r = row_swaps(i, i + 1, c);
        let t = swaps_from(i + 1, c);
        let s = swaps_from(i, c);
        assert(s == r + t);
        assert forall|k: int| r.len() <= k < s.len() implies #[trigger] s[k] == t[k - r.len()] by {}
        assert forall|k: int| 0 <= k < r.len() implies #[trigger] s[k] == r[k] by {}
        assert forall|k: int| 0 <= k < s.len() implies {
            let p = #[trigger] s[k];
            &&& spec_to_index(i) <= p.0 as int
            &&& p.0 < p.1
            &&& is_letter_slot(p.0 as int)
            &&& is_letter_slot(p.1 as int)
            &&& (c ==> same_class(p))
        } by {
            if k < r.len() {
                assert(s[k] == r[k]);
            } else {
                assert(s[k] == t[k - r.len()]);
            }
        }
        assert forall|k: int, l: int| 0 <= k < l < s.len() implies lex_lt(
            #[trigger] s[k],
            #[trigger] s[l],
        ) by {
            if l < r.len() {
                assert(r[k].1 < r[l].1);
            } else if k < r.len() {
                assert(s[l] == t[l - r.len()]);
            } else {
                assert(s[k] == t[k - r.len()]);
                assert(s[l] == t[l - r.len()]);
            }
        }
        if !c {
            let n = 80 - i;
            assert(n * (n - 1) / 2 == (n - 1) + (n - 1) * (n - 2) / 2) by (nonlinear_arith)
                requires
                    n >= 1,
            ;
            assert forall|a: int, b: int| i <= a < b < 80 implies s.contains(
                #[trigger] slot_pair(a, b),
            ) by {
                if a == i {
                    let k = choose|k: int| 0 <= k < r.len() && r[k] == slot_pair(a, b);
                    assert(s[k] == slot_pair(a, b));
                } else {
                    assert(t.contains(slot_pair(a, b)));
                    let k = choose|k: int| 0 <= k < t.len() && t[k] == slot_pair(a, b);
                    assert(s[k + r.len()] == slot_pair(a, b));
                }
            }
        }
    }
}

/// The letter slots of a layout hold pairwise different characters.
pub open spec fn distinct_letters(l: Seq<char>) -> bool {
    forall|p: int, q: int|
        is_letter_slot(p) && is_letter_slot(q) && p != q ==> #[trigger] l[p] != #[trigger] l[q]
}

/// The single-swap neighbourhood of a layout. With N = 80 letter slots there
/// are N * (N - 1) / 2 swaps, each of two different letter slots; every pair
/// of letter slots is swapped, and no pair twice. Each neighbour holds the
/// base's characters, each as often, and differs from the base at the two
/// swapped slots alone. Where the letter slots hold pairwise different
/// characters, the neighbours are pairwise different and none is the base.
pub proof fn lemma_single_swap_neighbourhood(base: Seq<char>)
    requires
        base.len() == 85,
    ensures
        single_swaps().len() == 80 * 79 / 2,
        forall|k: int|
            0 <= k < single_swaps().len() ==> {
                let p = #[trigger] single_swaps()[k];
                &&& is_letter_slot(p.0 as int)
                &&& is_letter_slot(p.1 as int)
                &&& p.0 < p.1
                &&& apply_swap(base, p).to_multiset() == base.to_multiset()
                &&& forall|q: int|
                    0 <= q < 85 && q != p.0 && q != p.1 ==> #[trigger] apply_swap(base, p)[q]
                        == base[q]
            },
        forall|k: int, l: int|
            0 <= k < l < single_swaps().len() ==> #[trigger] single_swaps()[k]
                != #[trigger] single_swaps()[l],
        forall|a: int, b: int|
            is_letter_slot(a) && is_letter_slot(b) && a < b ==> exists|k: int|
                0 <= k < single_swaps().len() && #[trigger] single_swaps()[k] == (
                a as usize,
                b as usize,
            ),
        distinct_letters(base) ==> forall|k: int, l: int|
            0 <= k < l < single_swaps().len() ==> apply_swap(base, #[trigger] single_swaps()[k])
                != apply_swap(base, #[trigger] single_swaps()[l]),
        distinct_letters(base) ==> forall|k: int|
            0 <= k < single_swaps().len() ==> apply_swap(base, #[trigger] single_swaps()[k])
                != base,
{
    let s = single_swaps();
    lemma_swaps_from(0, false);
    assert forall|k: int| 0 <= k < s.len() implies {
        let p = #[trigger] s[k];
        &&& is_letter_slot(p.0 as int)
        &&& is_letter_slot(p.1 as int)
        &&& p.0 < p.1
        &&& apply_swap(base, p).to_multiset() == base.to_multiset()
        &&& forall|q: int|
            0 <= q < 85 && q != p.0 && q != p.1 ==> #[trigger] apply_swap(base, p)[q] == base[q]
    } by {
        lemma_swap_keeps_multiset(base, s[k].0 as int, s[k].1 as int);
    }
    assert forall|k: int, l: int| 0 <= k < l < s.len() implies #[trigger] s[k] != #[trigger] s[l] by {
        assert(lex_lt(s[k], s[l]));
    }
    assert forall|a: int, b: int| is_letter_slot(a) && is_letter_slot(b) && a < b implies exists|
        k: int,
    | 0 <= k < s.len() && #[trigger] s[k] == (a as usize, b as usize) by {
        let a1 = if a >= 65 {
            a - 5
        } else {
            a
        };
        let b1 = if b >= 65 {
            b - 5
        } else {
            b
        };
        lemma_to_index_onto(a);
        lemma_to_index_onto(b);
        lemma_to_index_bijective(a1, b1);
        assert(s.contains(slot_pair(a1, b1)));
    }
    if distinct_letters(base) {
        assert forall|k: int, l: int| 0 <= k < l < s.len() implies apply_swap(
            base,
            #[trigger] s[k],
        ) != apply_swap(base, #[trigger] s[l]) by {
            let p = s[k];
            let q = s[l];
            assert(lex_lt(p, q));
            let x = apply_swap(base, p);
            let y = apply_swap(base, q);
            if p.0 != q.0 && p.0 != q.1 {
                assert(x[p.0 as int] == base[p.1 as int]);
                assert(y[p.0 as int] == base[p.0 as int]);
            } else if p.0 == q.0 {
                assert(x[p.1 as int] == base[p.0 as int]);
                assert(y[p.1 as int] == base[p.1 as int]);
            } else {
                assert(y[q.0 as int] == base[q.1 as int]);
                assert(x[q.0 as int] == base[q.0 as int]);
            }
        }
        assert forall|k: int| 0 <= k < s.len() implies apply_swap(base, #[trigger] s[k]) != base by {
            let p = s[k];
            assert(apply_swap(base, p)[p.0 as int] == base[p.1 as int]);
        }
    }
}

/// Each slot of `l` holds a character that `base` holds at a slot of the
/// same class: no tap character went to a swipe slot, nor the reverse.
pub open spec fn keeps_classes(base: Seq<char>, l: Seq<char>) -> bool {
    forall|p: int|
        0 <= p < 85 ==> exists|q: int|
            0 <= q < 85 && spec_is_tap(q) == spec_is_tap(p) && #[trigger] l[p] == base[q]
}

proof fn lemma_class_swap_keeps_classes(base: Seq<char>, p: (usize, usize))
    requires
        base.len() == 85,
        p.0 < 85,
        p.1 < 85,
        same_class(p),
    ensures
        keeps_classes(base, apply_swap(base, p)),
{
    let l = apply_swap(base, p);
    assert forall|x: int| 0 <= x < 85 implies exists|q: int|
        0 <= q < 85 && spec_is_tap(q) == spec_is_tap(x) && #[trigger] l[x] == base[q] by {
        if x == p.1 {
            assert(l[x] == base[p.0 as int]);
        } else if x == p.0 {
            assert(l[x] == base[p.1 as int]);
        } else {
            assert(l[x] == base[x]);
        }
    }
}

/// A layout that two swaps within one class lead to keeps the base's
/// characters, each as often, and puts no character of a tap slot on a swipe
/// slot, nor the reverse.
pub proof fn lemma_two_swaps_keep_classes(base: Seq<char>, k1: int, k2: int)
    requires
        base.len() == 85,
        0 <= k1 < class_swaps().len(),
        0 <= k2 < class_swaps().len(),
    ensures
        ({
            let l = apply_swap(apply_swap(base, class_swaps()[k1]), class_swaps()[k2]);
            &&& keeps_classes(base, l)
            &&& l.to_multiset() == base.to_multiset()
        }),
{
    lemma_swaps_from(0, true);
    let first = class_swaps()[k1];
    let second = class_swaps()[k2];
    let m = apply_swap(base, first);
    let l = apply_swap(m, second);
    lemma_class_swap_keeps_classes(base, first);
    lemma_swap_keeps_multiset(base, first.0 as int, first.1 as int);
    lemma_class_swap_keeps_classes(m, second);
    lemma_swap_keeps_multiset(m, second.0 as int, second.1 as int);
    assert forall|x: int| 0 <= x < 85 implies exists|q: int|
        0 <= q < 85 && spec_is_tap(q) == spec_is_tap(x) && #[trigger] l[x] == base[q] by {
        let y = choose|q: int| 0 <= q < 85 && spec_is_tap(q) == spec_is_tap(x) && l[x] == m[q];
        let z = choose|q: int| 0 <= q < 85 && spec_is_tap(q) == spec_is_tap(y) && m[y] == base[q];
        assert(l[x] == base[z]);
    }
}

// ----- rendering -----

/// How a slot's character is shown: an empty slot as a blank, the space as
/// `S`.
pub open spec fn printable(c: char) -> char {
    if c == '\0' {
        ' '
    } else if c == ' ' {
        'S'
    } else {
        c
    }
}

pub fn convert_for_printing(c: char) -> (r: char)
    ensures
        r == printable(c),
{
    if c == '\0' {
        ' '
    } else if c == ' ' {
        'S'
    } else {
        c
    }
}

/// Line `line` (0 to 2) of the drawing of key number `loc`: the two upper
/// swipes, the tap, or the two lower swipes.
pub open spec fn cell_text(l: Seq<char>, loc: int, line: int) -> Seq<char> {
    if line == 0 {
        seq![' ', printable(l[loc * 5 + 2]), ' ', ' ', ' ', printable(l[loc * 5 + 3]), ' ', '|']
    } else if line == 1 {
        seq![' ', ' ', ' ', printable(l[loc * 5 + 4]), ' ', ' ', ' ', '|']
    } else {
        seq![' ', printable(l[loc * 5 + 1]), ' ', ' ', ' ', printable(l[loc * 5 + 0]), ' ', '|']
    }
}

/// Line `line` of the keys in columns `0..n` of a row; the bottom row has no
/// key in the last column.
pub open spec fn cells_text(l: Seq<char>, row: int, line: int, n: int) -> Seq<char>
    decreases n,
{
    if n <= 0 {
        seq![]
    } else if row == 2 && n - 1 == 5 {
        cells_text(l, row, line, n - 1)
    } else {
        cells_text(l, row, line, n - 1) + cell_text(l, row * 6 + n - 1, line)
    }
}

/// The line drawn under each row.
pub open spec fn separator_text() -> Seq<char> {
    Seq::new(
        48,
        |i: int|
            if i == 47 {
                '\n'
            } else if i % 8 == 7 {
                ' '
            } else {
                '-'
            },
    )
}

/// The three lines of a row of keys and the separator under it.
pub open spec fn row_text(l: Seq<char>, row: int) -> Seq<char> {
    cells_text(l, row, 0, 6) + seq!['\n'] + cells_text(l, row, 1, 6) + seq!['\n'] + cells_text(
        l,
        row,
        2,
        6,
    ) + seq!['\n'] + separator_text()
}

/// The drawing of the first `n` rows of a layout.
pub open spec fn grid_text(l: Seq<char>, n: int) -> Seq<char>
    decreases n,
{
    if n <= 0 {
        seq![]
    } else {
        grid_text(l, n - 1) + row_text(l, n - 1)
    }
}

/// Builds a string of the characters, in order.
///
/// Relies on `String`'s `FromIterator<&char>`, which appends each character.
#[verifier::external_body]
fn string_of(chars: &Vec<char>) -> (r: String)
    ensures
        r@ == chars@,
{
    chars.iter().collect()
}

impl Layout {
    fn push_cell(&self, out: &mut Vec<char>, loc: usize, line: usize)
        requires
            loc < 17,
            line < 3,
        ensures
            final(out)@ == old(out)@ + cell_text(self@, loc as int, line as int),
    {
        let ghost start = out@;
        if line == 0 {
            out.push(' ');
            out.push(convert_for_printing(self.0.0[loc * 5 + 2]));
            out.push(' ');
            out.push(' ');
            out.push(' ');
            out.push(convert_for_printing(self.0.0[loc * 5 + 3]));
        } else if line == 1 {
            out.push(' ');
            out.push(' ');
            out.push(' ');
            out.push(convert_for_printing(self.0.0[loc * 5 + 4]));
            out.push(' ');
            out.push(' ');
        } else {
            out.push(' ');
            out.push(convert_for_printing(self.0.0[loc * 5 + 1]));
            out.push(' ');
            out.push(' ');
            out.push(' ');
            out.push(convert_for_printing(self.0.0[loc * 5]));
        }
        out.push(' ');
        out.push('|');
        assert(out@ =~= start + cell_text(self@, loc as int, line as int));
    }

    fn push_line(&self, out: &mut Vec<char>, row: usize, line: usize)
        requires
            row < 3,
            line < 3,
        ensures
            final(out)@ == old(out)@ + cells_text(self@, row as int, line as int, 6) + seq!['\n'],
    {
        let ghost start = out@;
        let mut col: usize = 0;
        while col < 6
            invariant
                row < 3,
                line < 3,
                col <= 6,
                self@.len() == 85,
                out@ == start + cells_text(self@, row as int, line as int, col as int),
            decreases 6 - col,
        {
            if !(row == 2 && col == 5) {
                self.push_cell(out, row * 6 + col, line);
            }
            col = col + 1;
            assert(out@ =~= start + cells_text(self@, row as int, line as int, col as int));
        }
        out.push('\n');
    }

    /// Draws the layout as a grid: for each row of keys, a line of the upper
    /// swipes, a line of the taps, a line of the lower swipes, and a
    /// separator.
    pub fn render(&self) -> (r: String)
        ensures
            r@ == grid_text(self@, 3),
    {
        let mut out: Vec<char> = Vec::new();
        let mut row: usize = 0;
        while row < 3
            invariant
                row <= 3,
                out@ == grid_text(self@, row as int),
            decreases 3 - row,
        {
            let ghost before = out@;
            self.push_line(&mut out, row, 0);
            self.push_line(&mut out, row, 1);
            self.push_line(&mut out, row, 2);
            let mut k: usize = 0;
            let ghost mid = out@;
            while k < 48
                invariant
                    k <= 48,
                    out@ == mid + separator_text().take(k as int),
                decreases 48 - k,
            {
                let c = if k == 47 {
                    '\n'
                } else if k % 8 == 7 {
                    ' '
                } else {
                    '-'
                };
                out.push(c);
                k = k + 1;
                assert(out@ =~= mid + separator_text().take(k as int));
            }
            assert(separator_text().take(48) =~= separator_text());
            assert(out@ =~= before + row_text(self@, row as int));
            row = row + 1;
        }
        string_of(&out)
    }
}

} // verus!
