//! Compiling a corpus into window counts, and choosing the penalty terms that
//! apply to one window.
use crate::layout::{
    char_code, get_coordinates, is_space, is_tap, lemma_char_code_nonneg,
    lookup, map_wf, placeable, same_hand, spec_col, spec_is_space, spec_is_tap, spec_row,
    spec_same_hand, spec_swipe_is_good_for_hand, swipe_is_good_for_hand, KeyPress, LayoutPosMap,
};
use std::collections::HashMap;
use vstd::prelude::*;

verus! {

broadcast use vstd::std_specs::hash::group_hash_axioms;

// ----- window counts -----

/// The first index of the run of placeable characters that ends just before
/// index `i`.
pub open spec fn run_start(s: Seq<char>, m: Seq<Option<KeyPress>>, i: int) -> int
    decreases i,
{
    if i <= 0 {
        0
    } else if !placeable(m, s[i - 1]) {
        i
    } else {
        run_start(s, m, i - 1)
    }
}

/// The window recorded for the placeable character at index `i`: the last at
/// most four characters up to and including it, none before the start of its
/// run.
pub open spec fn window_at(s: Seq<char>, m: Seq<Option<KeyPress>>, i: int) -> Seq<char> {
    let begin = run_start(s, m, i);
    let start = if begin > i - 3 {
        begin
    } else {
        i - 3
    };
    s.subrange(start, i + 1)
}

/// The index below `n` of the entry of window `w`, or -1.
pub open spec fn find_window(t: Seq<(Seq<char>, nat)>, w: Seq<char>, n: int) -> int
    decreases n,
{
    if n <= 0 {
        -1
    } else if t[n - 1].0 == w {
        n - 1
    } else {
        find_window(t, w, n - 1)
    }
}

/// Counts one more occurrence of `w`: a new window is appended with count 1.
pub open spec fn count_window(t: Seq<(Seq<char>, nat)>, w: Seq<char>) -> Seq<(Seq<char>, nat)> {
    let k = find_window(t, w, t.len() as int);
    if k >= 0 {
        t.update(k, (w, t[k].1 + 1))
    } else {
        t.push((w, 1))
    }
}

/// The window table of the first `n` characters of corpus `s` under position
/// map `m`: each window with its count, in order of first occurrence.
pub open spec fn quartad_entries(s: Seq<char>, m: Seq<Option<KeyPress>>, n: int) -> Seq<
    (Seq<char>, nat),
>
    decreases n,
{
    if n <= 0 {
        seq![]
    } else {
        let t = quartad_entries(s, m, n - 1);
        if placeable(m, s[n - 1]) {
            count_window(t, window_at(s, m, n - 1))
        } else {
            t
        }
    }
}

/// The window table of a whole corpus.
pub open spec fn quartad_table(s: Seq<char>, m: Seq<Option<KeyPress>>) -> Seq<(Seq<char>, nat)> {
    quartad_entries(s, m, s.len() as int)
}

/// The count of window `w` in a table, 0 where it is absent.
pub open spec fn count_in(t: Seq<(Seq<char>, nat)>, w: Seq<char>) -> nat {
    let k = find_window(t, w, t.len() as int);
    if k >= 0 {
        t[k].1
    } else {
        0
    }
}

/// A window of one to four characters with codes below 128.
pub open spec fn short_ascii(w: Seq<char>) -> bool {
    &&& 1 <= w.len() <= 4
    &&& forall|k: int| 0 <= k < w.len() ==> (#[trigger] w[k] as int) < 128
}

/// The hash key of a window: its characters as base-256 digits, each code
/// plus one.
pub open spec fn window_code(w: Seq<char>) -> int
    decreases w.len(),
{
    if w.len() == 0 {
        0
    } else {
        window_code(w.drop_last()) * 256 + (w.last() as int + 1)
    }
}

pub open spec fn code_cap(n: nat) -> int
    decreases n,
{
    if n == 0 {
        1
    } else {
        code_cap((n - 1) as nat) * 256
    }
}

proof fn lemma_code_bound(w: Seq<char>)
    requires
        forall|k: int| 0 <= k < w.len() ==> (#[trigger] w[k] as int) < 128,
    ensures
        0 <= window_code(w) < code_cap(w.len()),
        w.len() > 0 ==> window_code(w) > 0,
    decreases w.len(),
{
    if w.len() > 0 {
        let p = w.drop_last();
        assert(forall|k: int| 0 <= k < p.len() ==> p[k] == w[k]);
        lemma_code_bound(p);
        assert((w[w.len() - 1] as int) < 128);
        lemma_char_code_nonneg(w.last());
        let q = window_code(p);
        let c = code_cap(p.len());
        assert(q * 256 + 256 <= c * 256) by (nonlinear_arith)
            requires
                q < c,
        ;
    }
}

proof fn lemma_code_injective(w1: Seq<char>, w2: Seq<char>)
    requires
        forall|k: int| 0 <= k < w1.len() ==> (#[trigger] w1[k] as int) < 128,
        forall|k: int| 0 <= k < w2.len() ==> (#[trigger] w2[k] as int) < 128,
        window_code(w1) == window_code(w2),
    ensures
        w1 == w2,
    decreases w1.len(),
{
    lemma_code_bound(w1);
    lemma_code_bound(w2);
    if w1.len() > 0 && w2.len() > 0 {
        let first = w1.drop_last();
        let second = w2.drop_last();
        assert(forall|k: int| 0 <= k < first.len() ==> first[k] == w1[k]);
        assert(forall|k: int| 0 <= k < second.len() ==> second[k] == w2[k]);
        lemma_code_bound(first);
        lemma_code_bound(second);
        assert((w1[w1.len() - 1] as int) < 128);
        assert((w2[w2.len() - 1] as int) < 128);
        lemma_char_code_nonneg(w1.last());
        lemma_char_code_nonneg(w2.last());
        let x = window_code(w1);
        vstd::arithmetic::div_mod::lemma_fundamental_div_mod_converse(
            x,
            256,
            window_code(first),
            w1.last() as int + 1,
        );
        vstd::arithmetic::div_mod::lemma_fundamental_div_mod_converse(
            x,
            256,
            window_code(second),
            w2.last() as int + 1,
        );
        lemma_code_injective(first, second);
        assert(w1 =~= first.push(w1.last()));
        assert(w2 =~= second.push(w2.last()));
    }
}

proof fn lemma_find_window(t: Seq<(Seq<char>, nat)>, w: Seq<char>, n: int)
    requires
        0 <= n <= t.len(),
    ensures
        -1 <= find_window(t, w, n) < n,
        find_window(t, w, n) >= 0 ==> t[find_window(t, w, n)].0 == w,
        find_window(t, w, n) < 0 ==> forall|k: int| 0 <= k < n ==> #[trigger] t[k].0 != w,
        forall|k: int|
            0 <= k < n && t[k].0 == w && (forall|q: int|
                0 <= q < n && q != k ==> #[trigger] t[q].0 != w) ==> find_window(t, w, n) == k,
    decreases n,
{
    if n > 0 {
        lemma_find_window(t, w, n - 1);
    }
}

/// The windows of a table are pairwise different.
pub open spec fn distinct_windows(t: Seq<(Seq<char>, nat)>) -> bool {
    forall|i: int, j: int| 0 <= i < j < t.len() ==> t[i].0 != t[j].0
}

/// Counts of the windows of a corpus, in order of first occurrence.
pub struct QuartadList {
    index: HashMap<u64, usize>,
    windows: Vec<Vec<char>>,
    counts: Vec<usize>,
}

impl QuartadList {
    /// The table: each window with its count.
    pub closed spec fn entries(&self) -> Seq<(Seq<char>, nat)> {
        Seq::new(self.windows@.len(), |k: int| (self.windows@[k]@, self.counts@[k] as nat))
    }

    pub closed spec fn wf(&self) -> bool {
        &&& self.windows@.len() == self.counts@.len()
        &&& distinct_windows(self.entries())
        &&& forall|k: int| 0 <= k < self.windows@.len() ==> short_ascii(#[trigger] self.windows@[k]@)
        &&& forall|k: int|
            0 <= k < self.windows@.len() ==> {
                let c = window_code(#[trigger] self.windows@[k]@) as u64;
                &&& self.index@.contains_key(c)
                &&& self.index@[c] == k
            }
        &&& forall|c: u64|
            #[trigger] self.index@.contains_key(c) ==> {
                &&& self.index@[c] < self.windows@.len()
                &&& window_code(self.windows@[self.index@[c] as int]@) == c
            }
    }

    fn empty() -> (r: QuartadList)
        ensures
            r.wf(),
            r.entries() == Seq::<(Seq<char>, nat)>::empty(),
            r.counts@.len() == 0,
    {
        let r = QuartadList { index: HashMap::new(), windows: Vec::new(), counts: Vec::new() };
        assert(r.entries() =~= Seq::<(Seq<char>, nat)>::empty());
        r
    }

    /// Counts one more occurrence of window `w`, whose hash key is `code`.
    fn record(&mut self, w: Vec<char>, code: u64)
        requires
            old(self).wf(),
            short_ascii(w@),
            code == window_code(w@),
            forall|k: int| 0 <= k < old(self).counts@.len() ==> old(self).counts@[k] < usize::MAX,
        ensures
            final(self).wf(),
            final(self).entries() == count_window(old(self).entries(), w@),
            final(self).counts@.len() >= old(self).counts@.len(),
            forall|k: int|
                0 <= k < final(self).counts@.len() ==> #[trigger] final(self).counts@[k] <= 1
                    || (k < old(self).counts@.len() && final(self).counts@[k]
                    <= old(self).counts@[k] + 1),
    {
        let ghost t = self.entries();
        proof {
            lemma_code_bound(w@);
            assert(code_cap(4) == 0x1_0000_0000) by {
                reveal_with_fuel(code_cap, 5);
            }
            lemma_find_window(t, w@, t.len() as int);
        }
        match self.index.get(&code) {
            Some(k) => {
                let k = *k;
                proof {
                    let v = self.windows@[k as int]@;
                    lemma_code_injective(v, w@);
                    assert(t[k as int].0 == w@);
                }
                let c = self.counts[k] + 1;
                self.counts.set(k, c);
                assert(self.entries() =~= count_window(t, w@));
            },
            None => {
                proof {
                    assert forall|k: int| 0 <= k < t.len() implies #[trigger] t[k].0 != w@ by {
                        assert(self.index@.contains_key(window_code(self.windows@[k]@) as u64));
                    }
                }
                let n = self.windows.len();
                self.index.insert(code, n);
                self.windows.push(w);
                self.counts.push(1);
                assert(self.entries() =~= count_window(t, w@));
                assert(forall|k: int|
                    0 <= k < n ==> #[trigger] self.windows@[k] == old(self).windows@[k]);
            },
        }
    }
}

proof fn lemma_run_placeable(s: Seq<char>, m: Seq<Option<KeyPress>>, i: int)
    requires
        0 <= i <= s.len(),
    ensures
        0 <= run_start(s, m, i) <= i,
        forall|k: int| run_start(s, m, i) <= k < i ==> placeable(m, #[trigger] s[k]),
    decreases i,
{
    if i > 0 {
        lemma_run_placeable(s, m, i - 1);
    }
}

/// The characters of a string, in order.
fn chars_of(s: &str) -> (r: Vec<char>)
    ensures
        r@ == s@,
{
    let mut r: Vec<char> = Vec::new();
    for c in it: s.chars()
        invariant
            it.seq() == s@,
            r@ == it.seq().take(it.index() as int),
    {
        r.push(c);
    }
    r
}

/// The characters `chars[start..end]` and their hash key.
fn window_of(chars: &Vec<char>, start: usize, end: usize) -> (r: (Vec<char>, u64))
    requires
        start < end <= chars.len(),
        end - start <= 4,
        forall|k: int| start <= k < end ==> (#[trigger] chars@[k] as int) < 128,
    ensures
        r.0@ == chars@.subrange(start as int, end as int),
        r.1 == window_code(r.0@),
        short_ascii(r.0@),
{
    let mut w: Vec<char> = Vec::new();
    let mut code: u64 = 0;
    let mut k: usize = start;
    while k < end
        invariant
            start <= k <= end <= chars.len(),
            end - start <= 4,
            forall|q: int| start <= q < end ==> (#[trigger] chars@[q] as int) < 128,
            w@ == chars@.subrange(start as int, k as int),
            code == window_code(w@),
        decreases end - k,
    {
        let c = chars[k];
        let d = char_code(c);
        proof {
            lemma_code_bound(w@);
            assert(code_cap(3) == 0x100_0000) by {
                reveal_with_fuel(code_cap, 4);
            }
            assert(code_cap(w@.len()) <= code_cap(3)) by {
                reveal_with_fuel(code_cap, 4);
            }
        }
        let ghost before = w@;
        code = code * 256 + (d as u64 + 1);
        w.push(c);
        assert(w@.drop_last() =~= before);
        k = k + 1;
        assert(w@ =~= chars@.subrange(start as int, k as int));
    }
    (w, code)
}

/// Compiles a corpus into the counts of its windows: for each character that
/// has a position, the window of the last at most four characters up to it,
/// where a character without a position ends every window that would hold it.
pub fn prepare_quartad_list(string: &str, position_map: &LayoutPosMap) -> (r: QuartadList)
    ensures
        r.wf(),
        r.entries() == quartad_table(string@, position_map@),
{
    let chars = chars_of(string);
    let mut list = QuartadList::empty();
    let mut begin: usize = 0;
    let mut i: usize = 0;
    while i < chars.len()
        invariant
            chars@ == string@,
            i <= chars.len(),
            list.wf(),
            list.entries() == quartad_entries(string@, position_map@, i as int),
            begin == run_start(string@, position_map@, i as int),
            forall|k: int| 0 <= k < list.counts@.len() ==> #[trigger] list.counts@[k] <= i,
        decreases chars.len() - i,
    {
        let c = chars[i];
        match position_map.get_key_position(c) {
            Some(_) => {
                proof {
                    lemma_run_placeable(string@, position_map@, i as int);
                }
                let start = if i - begin < 3 {
                    begin
                } else {
                    i - 3
                };
                let (w, code) = window_of(&chars, start, i + 1);
                assert(w@ == window_at(string@, position_map@, i as int));
                list.record(w, code);
            },
            None => {
                begin = i + 1;
            },
        }
        i = i + 1;
    }
    list
}

impl QuartadList {
    /// The number of different windows.
    pub fn len(&self) -> (r: usize)
        ensures
            r == self.entries().len(),
    {
        self.windows.len()
    }

    /// The window of entry `k`.
    pub fn window(&self, k: usize) -> (r: &Vec<char>)
        requires
            k < self.entries().len(),
        ensures
            r@ == self.entries()[k as int].0,
    {
        &self.windows[k]
    }

    /// The count of entry `k`.
    pub fn count(&self, k: usize) -> (r: usize)
        requires
            self.wf(),
            k < self.entries().len(),
        ensures
            r == self.entries()[k as int].1,
    {
        self.counts[k]
    }
}

impl QuartadList {
    /// The count of window `w`, 0 where it was never seen.
    pub fn count_of(&self, w: &Vec<char>) -> (r: usize)
        requires
            self.wf(),
        ensures
            r == count_in(self.entries(), w@),
    {
        let ghost t = self.entries();
        proof {
            lemma_find_window(t, w@, t.len() as int);
        }
        if w.len() == 0 || w.len() > 4 {
            return 0;
        }
        let mut k: usize = 0;
        while k < w.len()
            invariant
                self.wf(),
                t == self.entries(),
                1 <= w@.len() <= 4,
                k <= w@.len(),
                forall|q: int| 0 <= q < k ==> (#[trigger] w@[q] as int) < 128,
            decreases w.len() - k,
        {
            if char_code(w[k]) >= 128 {
                proof {
                    lemma_find_window(t, w@, t.len() as int);
                    assert forall|j: int| 0 <= j < t.len() implies #[trigger] t[j].0 != w@ by {
                        assert(short_ascii(self.windows@[j]@));
                        if t[j].0 == w@ {
                            assert((t[j].0[k as int] as int) < 128);
                        }
                    }
                }
                return 0;
            }
            k = k + 1;
        }
        let (v, code) = window_of(w, 0, w.len());
        assert(v@ =~= w@);
        match self.index.get(&code) {
            Some(k) => {
                proof {
                    lemma_code_injective(self.windows@[*k as int]@, w@);
                    assert(t[*k as int].0 == w@);
                    assert forall|q: int| 0 <= q < t.len() && q != *k as int implies #[trigger] t[q].0
                        != w@ by {
                        if q < *k as int {
                            assert(t[q].0 != t[*k as int].0);
                        } else {
                            assert(t[*k as int].0 != t[q].0);
                        }
                    }
                }
                self.counts[*k]
            },
            None => {
                proof {
                    assert forall|k: int| 0 <= k < t.len() implies #[trigger] t[k].0 != w@ by {
                        assert(self.index@.contains_key(window_code(self.windows@[k]@) as u64));
                    }
                }
                0
            },
        }
    }
}

// ----- laws of the window table -----

/// The same corpus under the same position map always gives the same table.
pub proof fn lemma_quartad_table_deterministic(
    s1: Seq<char>,
    s2: Seq<char>,
    m1: Seq<Option<KeyPress>>,
    m2: Seq<Option<KeyPress>>,
)
    requires
        s1 == s2,
        m1 == m2,
    ensures
        quartad_table(s1, m1) == quartad_table(s2, m2),
{
}

/// Whether `w` stands in `s` at index `j` and no character of that stretch
/// lacks a position: the window spans no delimiter.
pub open spec fn occurs_within_run(
    s: Seq<char>,
    m: Seq<Option<KeyPress>>,
    w: Seq<char>,
    j: int,
) -> bool {
    &&& 0 <= j
    &&& j + w.len() <= s.len()
    &&& s.subrange(j, j + w.len()) == w
    &&& forall|q: int| j <= q < j + w.len() ==> placeable(m, #[trigger] s[q])
}

/// Every window of the table has one to four characters and stands somewhere
/// in the corpus without spanning a character that has no position; windows
/// are pairwise different and each was counted at least once.
pub proof fn lemma_windows_never_span_delimiters(s: Seq<char>, m: Seq<Option<KeyPress>>)
    ensures
        distinct_windows(quartad_table(s, m)),
        forall|k: int|
            0 <= k < quartad_table(s, m).len() ==> {
                let w = (#[trigger] quartad_table(s, m)[k]).0;
                &&& 1 <= w.len() <= 4
                &&& quartad_table(s, m)[k].1 >= 1
                &&& exists|j: int| occurs_within_run(s, m, w, j)
            },
{
    lemma_entries_within_runs(s, m, s.len() as int);
}

proof fn lemma_entries_within_runs(s: Seq<char>, m: Seq<Option<KeyPress>>, n: int)
    requires
        0 <= n <= s.len(),
    ensures
        distinct_windows(quartad_entries(s, m, n)),
        forall|k: int|
            0 <= k < quartad_entries(s, m, n).len() ==> {
                let w = (#[trigger] quartad_entries(s, m, n)[k]).0;
                &&& 1 <= w.len() <= 4
                &&& quartad_entries(s, m, n)[k].1 >= 1
                &&& exists|j: int| occurs_within_run(s, m, w, j)
            },
    decreases n,
{
    if n > 0 {
        lemma_entries_within_runs(s, m, n - 1);
        let t = quartad_entries(s, m, n - 1);
        if placeable(m, s[n - 1]) {
            let w = window_at(s, m, n - 1);
            lemma_run_placeable(s, m, n - 1);
            let begin = run_start(s, m, n - 1);
            let start = if begin > n - 1 - 3 {
                begin
            } else {
                n - 1 - 3
            };
            assert(occurs_within_run(s, m, w, start));
            lemma_find_window(t, w, t.len() as int);
            let u = quartad_entries(s, m, n);
            assert forall|k: int| 0 <= k < u.len() implies {
                let v = (#[trigger] u[k]).0;
                &&& 1 <= v.len() <= 4
                &&& u[k].1 >= 1
                &&& exists|j: int| occurs_within_run(s, m, v, j)
            } by {
                if k < t.len() && u[k].0 == t[k].0 {
                    assert(t[k] == t[k]);
                } else {
                    assert(u[k].0 == w);
                }
            }
        }
    }
}

/// The number of indices below `n` at which window `w` is recorded.
pub open spec fn occurrences(s: Seq<char>, m: Seq<Option<KeyPress>>, w: Seq<char>, n: int) -> nat
    decreases n,
{
    if n <= 0 {
        0
    } else if placeable(m, s[n - 1]) && window_at(s, m, n - 1) == w {
        occurrences(s, m, w, n - 1) + 1
    } else {
        occurrences(s, m, w, n - 1)
    }
}

/// The count of each window in the table is the number of characters of the
/// corpus at which it is recorded.
pub proof fn lemma_count_is_occurrences(s: Seq<char>, m: Seq<Option<KeyPress>>, w: Seq<char>)
    ensures
        count_in(quartad_table(s, m), w) == occurrences(s, m, w, s.len() as int),
{
    lemma_count_prefix(s, m, w, s.len() as int);
}

proof fn lemma_count_prefix(s: Seq<char>, m: Seq<Option<KeyPress>>, w: Seq<char>, n: int)
    requires
        0 <= n <= s.len(),
    ensures
        count_in(quartad_entries(s, m, n), w) == occurrences(s, m, w, n),
    decreases n,
{
    if n > 0 {
        lemma_count_prefix(s, m, w, n - 1);
        lemma_entries_within_runs(s, m, n - 1);
        let t = quartad_entries(s, m, n - 1);
        let u = quartad_entries(s, m, n);
        lemma_find_window(t, w, t.len() as int);
        if placeable(m, s[n - 1]) {
            let v = window_at(s, m, n - 1);
            lemma_find_window(t, v, t.len() as int);
            lemma_entries_within_runs(s, m, n);
            lemma_find_window(u, w, u.len() as int);
            let kt = find_window(t, w, t.len() as int);
            let ku = find_window(u, w, u.len() as int);
            if kt >= 0 {
                assert forall|q: int| 0 <= q < u.len() && q != kt implies #[trigger] u[q].0 != w by {
                    if q < kt {
                        assert(u[q].0 != u[kt].0);
                    } else {
                        assert(u[kt].0 != u[q].0);
                    }
                }
                assert(u[kt].0 == w);
                assert(ku == kt);
            } else if v == w {
                assert(u.len() == t.len() + 1);
                assert(u[t.len() as int].0 == w);
                assert forall|q: int| 0 <= q < u.len() && q != t.len() implies #[trigger] u[q].0
                    != w by {
                    assert(u[q] == t[q]);
                }
            } else {
                assert forall|q: int| 0 <= q < u.len() implies #[trigger] u[q].0 != w by {
                    if q < t.len() {
                        let kv = find_window(t, v, t.len() as int);
                        if q != kv {
                            assert(u[q] == t[q]);
                        }
                    }
                }
            }
        }
    }
}

// ----- penalty terms -----

/// Number of penalties of the model.
pub const NUM_PENALTIES: usize = 9;

/// Index of the fixed cost of each key.
pub const BASE: usize = 0;
/// Index of the cost of a swipe.
pub const SWIPE: usize = 1;
/// Index of the travel cost from the previous keystroke.
pub const SINGLE_THUMB_TRAVEL: usize = 2;
/// Index of the extra travel cost of two keystrokes in a row with one thumb.
pub const SAME_THUMB_NONE_BETWEEN: usize = 3;
/// Index of the travel cost of one thumb over one keystroke of the other.
pub const SAME_THUMB_ONE_BETWEEN: usize = 4;
/// Index of the travel cost of one thumb over two keystrokes of the other.
pub const SAME_THUMB_TWO_BETWEEN: usize = 5;
/// Index of the bonus for two keystrokes with alternating thumbs.
pub const ALTERNATION_2: usize = 6;
/// Index of the bonus for three keystrokes with alternating thumbs.
pub const ALTERNATION_3: usize = 7;
/// Index of the bonus for four keystrokes with alternating thumbs.
pub const ALTERNATION_4: usize = 8;

/// The name of each penalty, by index.
pub open spec fn penalty_name(i: int) -> Seq<char> {
    if i == 0 {
        "base penalty"@
    } else if i == 1 {
        "swipe penalty"@
    } else if i == 2 {
        "single thumb travel distance penalty"@
    } else if i == 3 {
        "both thumbs travel distance penalty, 0 in between"@
    } else if i == 4 {
        "both thumbs travel distance penalty, 1 in between"@
    } else if i == 5 {
        "both thumbs travel distance penalty, 2 in between"@
    } else if i == 6 {
        "length 2 alternation bonus"@
    } else if i == 7 {
        "length 3 alternation bonus"@
    } else {
        "length 4 alternation bonus"@
    }
}

/// One named penalty of the model.
pub struct KeyPenalty<'a> {
    name: &'a str,
}

impl<'a> KeyPenalty<'a> {
    pub closed spec fn spec_name(&self) -> Seq<char> {
        self.name@
    }

    pub fn name(&self) -> (r: &'a str)
        ensures
            r@ == self.spec_name(),
    {
        self.name
    }
}

/// The penalties of the model, in index order.
pub fn init<'a>() -> (r: Vec<KeyPenalty<'a>>)
    ensures
        r@.len() == NUM_PENALTIES,
        forall|i: int| 0 <= i < 9 ==> (#[trigger] r@[i]).spec_name() == penalty_name(i),
{
    let mut penalties: Vec<KeyPenalty<'a>> = Vec::new();
    // Thumbs move more naturally from the top side to the bottom middle.
    penalties.push(KeyPenalty { name: "base penalty" });
    // Swipes cost extra, more so in a direction that does not suit the thumb.
    penalties.push(KeyPenalty { name: "swipe penalty" });
    penalties.push(KeyPenalty { name: "single thumb travel distance penalty" });
    // Travel of one thumb with 0, 1 or 2 keystrokes of the other in between.
    penalties.push(KeyPenalty { name: "both thumbs travel distance penalty, 0 in between" });
    penalties.push(KeyPenalty { name: "both thumbs travel distance penalty, 1 in between" });
    penalties.push(KeyPenalty { name: "both thumbs travel distance penalty, 2 in between" });
    // Bonuses for alternating thumbs over 2, 3 and 4 keystrokes.
    penalties.push(KeyPenalty { name: "length 2 alternation bonus" });
    penalties.push(KeyPenalty { name: "length 3 alternation bonus" });
    penalties.push(KeyPenalty { name: "length 4 alternation bonus" });
    penalties
}

/// What a penalty term costs, before it is multiplied by the window's count.
#[derive(Clone, Copy, PartialEq, Eq, Debug, Structural)]
pub enum TermCost {
    /// The fixed cost of the key at `(row, col)`.
    Base { row: usize, col: usize },
    /// A swipe; the extra cost is due where its direction does not suit the
    /// thumb.
    Swipe { good_for_hand: bool },
    /// The time to travel from `from` to `to` and press (by Fitts's law),
    /// with the extra time to finish `from` where it is a swipe; `weighted`
    /// where other keystrokes lie between, which scales it down.
    Travel { from: KeyPress, to: KeyPress, weighted: bool },
    /// The bonus for alternating thumbs over `keys` keystrokes; it is worth
    /// nothing where the thumbs do not alternate.
    Alternation { keys: usize, alternates: bool },
}

/// One term of the penalty of a window: which penalty it counts towards, the
/// length of the window's suffix that it is charged to, and its cost.
#[derive(Clone, Copy, PartialEq, Eq, Debug, Structural)]
pub struct PenaltyTerm {
    pub penalty: usize,
    pub suffix_len: usize,
    pub cost: TermCost,
}

pub open spec fn term(penalty: usize, suffix_len: usize, cost: TermCost) -> PenaltyTerm {
    PenaltyTerm { penalty, suffix_len, cost }
}

/// A fixed-cost term names a key of the grid.
pub open spec fn in_grid(t: PenaltyTerm) -> bool {
    match t.cost {
        TermCost::Base { row, col } => row < 3 && col < 6,
        _ => true,
    }
}

/// The position of the `k`-th character of `w` counted back from its last
/// one (`k == 0`), or `None` where there is none or it has no position.
pub open spec fn key_back(w: Seq<char>, m: Seq<Option<KeyPress>>, k: int) -> Option<KeyPress> {
    if k < w.len() {
        lookup(m, w[w.len() - 1 - k])
    } else {
        None
    }
}

/// Whether the last `n` characters of `w` hold a space.
pub open spec fn suffix_has_space(w: Seq<char>, n: int) -> bool {
    exists|q: int| w.len() - n <= q < w.len() && 0 <= q && #[trigger] w[q] == ' '
}

/// The terms of the last key alone: its fixed cost and, for a swipe, the
/// swipe cost. The space bar has neither.
pub open spec fn one_key_terms(curr: KeyPress) -> Seq<PenaltyTerm> {
    let p = curr.pos as int;
    if spec_is_space(p) {
        seq![]
    } else {
        let base = seq![
            term(BASE, 1, TermCost::Base { row: spec_row(p) as usize, col: spec_col(p) as usize }),
        ];
        if spec_is_tap(p) {
            base
        } else {
            base.push(
                term(SWIPE, 1, TermCost::Swipe { good_for_hand: spec_swipe_is_good_for_hand(p) }),
            )
        }
    }
}

pub open spec fn same_thumb(a: KeyPress, b: KeyPress) -> bool {
    spec_same_hand(a.pos as int, b.pos as int)
}

/// The terms of the last two keys, where neither is a space.
pub open spec fn two_key_terms(old1: KeyPress, curr: KeyPress) -> Seq<PenaltyTerm> {
    if same_thumb(old1, curr) {
        seq![term(SAME_THUMB_NONE_BETWEEN, 2, TermCost::Travel { from: old1, to: curr, weighted: false })]
    } else {
        seq![term(ALTERNATION_2, 2, TermCost::Alternation { keys: 2, alternates: true })]
    }
}

/// The terms of the last three keys, where none is a space.
pub open spec fn three_key_terms(old2: KeyPress, old1: KeyPress, curr: KeyPress) -> Seq<
    PenaltyTerm,
> {
    let bonus = seq![
        term(
            ALTERNATION_3,
            3,
            TermCost::Alternation { keys: 3, alternates: !same_thumb(old2, old1) && !same_thumb(old1, curr) },
        ),
    ];
    if same_thumb(old2, curr) && !same_thumb(old2, old1) {
        bonus.push(term(SAME_THUMB_ONE_BETWEEN, 3, TermCost::Travel { from: old2, to: curr, weighted: true }))
    } else {
        bonus
    }
}

/// The terms of the last four keys, where none is a space.
pub open spec fn four_key_terms(
    old3: KeyPress,
    old2: KeyPress,
    old1: KeyPress,
    curr: KeyPress,
) -> Seq<PenaltyTerm> {
    let bonus = seq![
        term(
            ALTERNATION_4,
            4,
            TermCost::Alternation {
                keys: 4,
                alternates: !same_thumb(old3, old2) && !same_thumb(old2, old1) && !same_thumb(old1, curr),
            },
        ),
    ];
    if same_thumb(old3, curr) && !same_thumb(old3, old1) && !same_thumb(old3, old2) {
        bonus.push(term(SAME_THUMB_TWO_BETWEEN, 4, TermCost::Travel { from: old3, to: curr, weighted: true }))
    } else {
        bonus
    }
}

/// The penalty terms of window `w` under position map `m`, in the order in
/// which they are evaluated. Nothing is charged where the last character has
/// no position. The terms that look back stop at the first earlier character
/// that has no position, and those over two keys or more at a space.
pub open spec fn penalty_terms_of(w: Seq<char>, m: Seq<Option<KeyPress>>) -> Seq<PenaltyTerm> {
    match key_back(w, m, 0) {
        None => seq![],
        Some(curr) => {
            let one = one_key_terms(curr);
            match key_back(w, m, 1) {
                None => one,
                Some(old1) => {
                    let travel = one.push(
                        term(
                            SINGLE_THUMB_TRAVEL,
                            2,
                            TermCost::Travel { from: old1, to: curr, weighted: false },
                        ),
                    );
                    if suffix_has_space(w, 2) {
                        travel
                    } else {
                        let upto2 = travel + two_key_terms(old1, curr);
                        match key_back(w, m, 2) {
                            None => upto2,
                            Some(old2) => {
                                if suffix_has_space(w, 3) {
                                    upto2
                                } else {
                                    let upto3 = upto2 + three_key_terms(old2, old1, curr);
                                    match key_back(w, m, 3) {
                                        None => upto3,
                                        Some(old3) => {
                                            if suffix_has_space(w, 4) {
                                                upto3
                                            } else {
                                                upto3 + four_key_terms(old3, old2, old1, curr)
                                            }
                                        },
                                    }
                                }
                            },
                        }
                    }
                },
            }
        },
    }
}

/// Whether the last `n` characters of `w` hold a space.
fn suffix_holds_space(w: &Vec<char>, n: usize) -> (r: bool)
    requires
        n <= w@.len(),
    ensures
        r == suffix_has_space(w@, n as int),
{
    let mut q: usize = w.len() - n;
    while q < w.len()
        invariant
            w@.len() - n <= q <= w@.len(),
            forall|k: int| w@.len() - n <= k < q ==> w@[k] != ' ',
        decreases w.len() - q,
    {
        if w[q] == ' ' {
            return true;
        }
        q = q + 1;
    }
    false
}

/// The position of the `k`-th character of `w` counted back from the last.
fn key_back_of(w: &Vec<char>, position_map: &LayoutPosMap, k: usize) -> (r: Option<KeyPress>)
    ensures
        r == key_back(w@, position_map@, k as int),
{
    if k < w.len() {
        position_map.get_key_position(w[w.len() - 1 - k])
    } else {
        None
    }
}

/// In a layout's position map only the space character can be at the space
/// bar.
proof fn lemma_only_space_at_space_bar(m: Seq<Option<KeyPress>>, c: char)
    requires
        map_wf(m),
        c != ' ',
        lookup(m, c) is Some,
    ensures
        !spec_is_space(lookup(m, c)->0.pos as int),
{
    lemma_char_code_nonneg(c);
    assert(m[c as int] is Some);
    if c as int == 32 {
        assert(c == ' ');
    }
}

/// The penalty terms of one window under the position map of the layout
/// being scored. The caller multiplies each term's cost by the window's
/// count and adds it to the total, and to the term's penalty.
pub fn penalty_terms(window: &Vec<char>, position_map: &LayoutPosMap) -> (r: Vec<PenaltyTerm>)
    ensures
        r@ == penalty_terms_of(window@, position_map@),
        forall|i: int| 0 <= i < r@.len() ==> in_grid(#[trigger] r@[i]),
{
    let ghost w = window@;
    let ghost m = position_map@;
    let mut terms: Vec<PenaltyTerm> = Vec::new();
    if window.len() == 0 {
        return terms;
    }
    let last = window[window.len() - 1];
    let curr = match position_map.get_key_position(last) {
        None => {
            return terms;
        },
        Some(k) => k,
    };
    proof {
        lemma_char_code_nonneg(last);
        assert(m[last as int] is Some);
    }
    // One key penalties.
    if !is_space(&curr) {
        let (row, col) = get_coordinates(&curr);
        terms.push(PenaltyTerm { penalty: BASE, suffix_len: 1, cost: TermCost::Base { row, col } });
        if !is_tap(&curr) {
            let good_for_hand = swipe_is_good_for_hand(&curr);
            terms.push(
                PenaltyTerm { penalty: SWIPE, suffix_len: 1, cost: TermCost::Swipe { good_for_hand } },
            );
        }
    }
    assert(terms@ =~= one_key_terms(curr));
    assert(forall|i: int| 0 <= i < terms@.len() ==> in_grid(#[trigger] terms@[i]));
    // Two key penalties.
    let old1 = match key_back_of(window, position_map, 1) {
        None => {
            return terms;
        },
        Some(k) => k,
    };
    terms.push(
        PenaltyTerm {
            penalty: SINGLE_THUMB_TRAVEL,
            suffix_len: 2,
            cost: TermCost::Travel { from: old1, to: curr, weighted: false },
        },
    );
    if suffix_holds_space(window, 2) {
        return terms;
    }
    proof {
        assert(w[w.len() - 1] != ' ');
        assert(w[w.len() - 2] != ' ');
        lemma_only_space_at_space_bar(m, w[w.len() - 1]);
        lemma_only_space_at_space_bar(m, w[w.len() - 2]);
    }
    let ghost upto1 = terms@;
    if same_hand(&old1, &curr) {
        terms.push(
            PenaltyTerm {
                penalty: SAME_THUMB_NONE_BETWEEN,
                suffix_len: 2,
                cost: TermCost::Travel { from: old1, to: curr, weighted: false },
            },
        );
    } else {
        terms.push(
            PenaltyTerm {
                penalty: ALTERNATION_2,
                suffix_len: 2,
                cost: TermCost::Alternation { keys: 2, alternates: true },
            },
        );
    }
    assert(terms@ =~= upto1 + two_key_terms(old1, curr));
    // Three key penalties.
    let old2 = match key_back_of(window, position_map, 2) {
        None => {
            return terms;
        },
        Some(k) => k,
    };
    if suffix_holds_space(window, 3) {
        return terms;
    }
    proof {
        assert(w[w.len() - 3] != ' ');
        lemma_only_space_at_space_bar(m, w[w.len() - 3]);
    }
    let ghost upto2 = terms@;
    let alternates3 = !same_hand(&old2, &old1) && !same_hand(&old1, &curr);
    terms.push(
        PenaltyTerm {
            penalty: ALTERNATION_3,
            suffix_len: 3,
            cost: TermCost::Alternation { keys: 3, alternates: alternates3 },
        },
    );
    if same_hand(&old2, &curr) && !same_hand(&old2, &old1) {
        terms.push(
            PenaltyTerm {
                penalty: SAME_THUMB_ONE_BETWEEN,
                suffix_len: 3,
                cost: TermCost::Travel { from: old2, to: curr, weighted: true },
            },
        );
    }
    assert(terms@ =~= upto2 + three_key_terms(old2, old1, curr));
    // Four key penalties.
    let old3 = match key_back_of(window, position_map, 3) {
        None => {
            return terms;
        },
        Some(k) => k,
    };
    if suffix_holds_space(window, 4) {
        return terms;
    }
    proof {
        assert(w[w.len() - 4] != ' ');
        lemma_only_space_at_space_bar(m, w[w.len() - 4]);
    }
    let ghost upto3 = terms@;
    let alternates4 = !same_hand(&old3, &old2) && !same_hand(&old2, &old1) && !same_hand(
        &old1,
        &curr,
    );
    terms.push(
        PenaltyTerm {
            penalty: ALTERNATION_4,
            suffix_len: 4,
            cost: TermCost::Alternation { keys: 4, alternates: alternates4 },
        },
    );
    if same_hand(&old3, &curr) && !same_hand(&old3, &old1) && !same_hand(&old3, &old2) {
        terms.push(
            PenaltyTerm {
                penalty: SAME_THUMB_TWO_BETWEEN,
                suffix_len: 4,
                cost: TermCost::Travel { from: old3, to: curr, weighted: true },
            },
        );
    }
    assert(terms@ =~= upto3 + four_key_terms(old3, old2, old1, curr));
    terms
}

// ----- totals and their breakdown -----

/// The sum of `cost` over the terms.
pub open spec fn terms_cost(terms: Seq<PenaltyTerm>, cost: spec_fn(PenaltyTerm) -> int) -> int
    decreases terms.len(),
{
    if terms.len() == 0 {
        0
    } else {
        terms_cost(terms.drop_last(), cost) + cost(terms.last())
    }
}

/// The sum of `cost` over the terms that count towards penalty `k`.
pub open spec fn penalty_cost(terms: Seq<PenaltyTerm>, cost: spec_fn(PenaltyTerm) -> int, k: int) -> int
    decreases terms.len(),
{
    if terms.len() == 0 {
        0
    } else {
        penalty_cost(terms.drop_last(), cost, k) + if terms.last().penalty == k {
            cost(terms.last())
        } else {
            0
        }
    }
}

/// The sum over the penalties `0..n` of the cost of the terms counted
/// towards each.
pub open spec fn breakdown_cost(terms: Seq<PenaltyTerm>, cost: spec_fn(PenaltyTerm) -> int, n: int) -> int
    decreases n,
{
    if n <= 0 {
        0
    } else {
        breakdown_cost(terms, cost, n - 1) + penalty_cost(terms, cost, n - 1)
    }
}

/// The total cost of a table scored with position map `m`: for each window,
/// its count times the cost of its terms.
pub open spec fn table_cost(
    t: Seq<(Seq<char>, nat)>,
    m: Seq<Option<KeyPress>>,
    cost: spec_fn(PenaltyTerm) -> int,
) -> int
    decreases t.len(),
{
    if t.len() == 0 {
        0
    } else {
        table_cost(t.drop_last(), m, cost) + t.last().1 * terms_cost(
            penalty_terms_of(t.last().0, m),
            cost,
        )
    }
}

/// The part of [`table_cost`] that counts towards penalty `k`.
pub open spec fn table_penalty_cost(
    t: Seq<(Seq<char>, nat)>,
    m: Seq<Option<KeyPress>>,
    cost: spec_fn(PenaltyTerm) -> int,
    k: int,
) -> int
    decreases t.len(),
{
    if t.len() == 0 {
        0
    } else {
        table_penalty_cost(t.drop_last(), m, cost, k) + t.last().1 * penalty_cost(
            penalty_terms_of(t.last().0, m),
            cost,
            k,
        )
    }
}

/// The sum over the penalties `0..n` of [`table_penalty_cost`].
pub open spec fn table_breakdown_cost(
    t: Seq<(Seq<char>, nat)>,
    m: Seq<Option<KeyPress>>,
    cost: spec_fn(PenaltyTerm) -> int,
    n: int,
) -> int
    decreases n,
{
    if n <= 0 {
        0
    } else {
        table_breakdown_cost(t, m, cost, n - 1) + table_penalty_cost(t, m, cost, n - 1)
    }
}

/// Every term of a window counts towards one of the penalties and is charged
/// to a suffix of the window of one to four characters.
pub proof fn lemma_terms_well_placed(w: Seq<char>, m: Seq<Option<KeyPress>>)
    ensures
        forall|i: int|
            0 <= i < penalty_terms_of(w, m).len() ==> {
                &&& (#[trigger] penalty_terms_of(w, m)[i]).penalty < NUM_PENALTIES
                &&& 1 <= penalty_terms_of(w, m)[i].suffix_len <= 4
                &&& penalty_terms_of(w, m)[i].suffix_len <= w.len()
            },
{
}

proof fn lemma_breakdown_push(
    terms: Seq<PenaltyTerm>,
    x: PenaltyTerm,
    cost: spec_fn(PenaltyTerm) -> int,
    n: int,
)
    requires
        0 <= n,
    ensures
        breakdown_cost(terms.push(x), cost, n) == breakdown_cost(terms, cost, n) + if x.penalty
            < n {
            cost(x)
        } else {
            0
        },
    decreases n,
{
    assert(terms.push(x).drop_last() =~= terms);
    if n > 0 {
        lemma_breakdown_push(terms, x, cost, n - 1);
    }
}

proof fn lemma_window_breakdown(terms: Seq<PenaltyTerm>, cost: spec_fn(PenaltyTerm) -> int)
    requires
        forall|i: int| 0 <= i < terms.len() ==> (#[trigger] terms[i]).penalty < NUM_PENALTIES,
    ensures
        breakdown_cost(terms, cost, NUM_PENALTIES as int) == terms_cost(terms, cost),
    decreases terms.len(),
{
    if terms.len() == 0 {
        lemma_breakdown_empty(terms, cost, NUM_PENALTIES as int);
    } else {
        let t = terms.drop_last();
        assert(forall|i: int| 0 <= i < t.len() ==> t[i] == terms[i]);
        lemma_window_breakdown(t, cost);
        assert(t.push(terms.last()) =~= terms);
        lemma_breakdown_push(t, terms.last(), cost, NUM_PENALTIES as int);
    }
}

proof fn lemma_breakdown_empty(terms: Seq<PenaltyTerm>, cost: spec_fn(PenaltyTerm) -> int, n: int)
    requires
        terms.len() == 0,
    ensures
        breakdown_cost(terms, cost, n) == 0,
    decreases n,
{
    if n > 0 {
        lemma_breakdown_empty(terms, cost, n - 1);
    }
}

proof fn lemma_table_breakdown_push(
    t: Seq<(Seq<char>, nat)>,
    e: (Seq<char>, nat),
    m: Seq<Option<KeyPress>>,
    cost: spec_fn(PenaltyTerm) -> int,
    n: int,
)
    requires
        0 <= n,
    ensures
        table_breakdown_cost(t.push(e), m, cost, n) == table_breakdown_cost(t, m, cost, n) + e.1
            * breakdown_cost(penalty_terms_of(e.0, m), cost, n),
    decreases n,
{
    assert(t.push(e).drop_last() =~= t);
    if n > 0 {
        lemma_table_breakdown_push(t, e, m, cost, n - 1);
        let c = e.1 as int;
        let a = breakdown_cost(penalty_terms_of(e.0, m), cost, n - 1);
        let b = penalty_cost(penalty_terms_of(e.0, m), cost, n - 1);
        assert(c * (a + b) == c * a + c * b) by (nonlinear_arith);
    }
}

proof fn lemma_table_breakdown_empty(
    t: Seq<(Seq<char>, nat)>,
    m: Seq<Option<KeyPress>>,
    cost: spec_fn(PenaltyTerm) -> int,
    n: int,
)
    requires
        t.len() == 0,
    ensures
        table_breakdown_cost(t, m, cost, n) == 0,
    decreases n,
{
    if n > 0 {
        lemma_table_breakdown_empty(t, m, cost, n - 1);
    }
}

/// Whatever each term costs, the costs of the penalties of a table, each the
/// sum over its windows of count times the cost of the window's terms that
/// count towards it, add up to the table's total cost: the breakdown by
/// penalty loses no term and counts none twice.
pub proof fn lemma_breakdown_adds_up_to_total(
    t: Seq<(Seq<char>, nat)>,
    m: Seq<Option<KeyPress>>,
    cost: spec_fn(PenaltyTerm) -> int,
)
    ensures
        table_breakdown_cost(t, m, cost, NUM_PENALTIES as int) == table_cost(t, m, cost),
    decreases t.len(),
{
    if t.len() == 0 {
        lemma_table_breakdown_empty(t, m, cost, NUM_PENALTIES as int);
    } else {
        let u = t.drop_last();
        let e = t.last();
        lemma_breakdown_adds_up_to_total(u, m, cost);
        assert(u.push(e) =~= t);
        lemma_table_breakdown_push(u, e, m, cost, NUM_PENALTIES as int);
        lemma_terms_well_placed(e.0, m);
        lemma_window_breakdown(penalty_terms_of(e.0, m), cost);
    }
}

} // verus!
