//! The glyph brightness index: characters of a palette paired with their
//! measured brightness, kept sorted ascending by brightness, with a
//! binary-search nearest-brightness lookup.
//!
//! The lookup clamps asymmetrically: a query above every stored brightness
//! resolves to the last (brightest) entry, while any other query resolves to
//! the first entry whose brightness is at or above it.

use vstd::prelude::*;

verus! {

use vstd::seq_lib::group_to_multiset_ensures;
use vstd::std_specs::iter::IteratorSpec;
use crate::glyph::average_brightness;

broadcast use group_to_multiset_ensures;

/// Entries are ordered by non-decreasing brightness.
pub open spec fn sorted_by_brightness(s: Seq<(char, u32)>) -> bool {
    forall|i: int, j: int| 0 <= i <= j < s.len() ==> s[i].1 <= s[j].1
}

/// The characters of an entry sequence, in entry order.
pub open spec fn char_seq(s: Seq<(char, u32)>) -> Seq<char> {
    s.map_values(|e: (char, u32)| e.0)
}

/// The entries of `s` de-duplicated by character: each character keeps its
/// first entry only, and a later entry whose character already occurred is
/// dropped.
pub open spec fn dedup_by_char(s: Seq<(char, u32)>) -> Seq<(char, u32)>
    decreases s.len(),
{
    if s.len() == 0 {
        Seq::empty()
    } else if char_seq(s.drop_last()).contains(s.last().0) {
        dedup_by_char(s.drop_last())
    } else {
        dedup_by_char(s.drop_last()).push(s.last())
    }
}

/// The first position whose brightness is at or above `q`, or `s.len()` if
/// every entry is below `q`.
pub open spec fn first_ge(s: Seq<(char, u32)>, q: u32) -> int
    decreases s.len(),
{
    if s.len() == 0 {
        0
    } else if s[0].1 >= q {
        0
    } else {
        1 + first_ge(s.drop_first(), q)
    }
}

/// The entry position the nearest-brightness lookup chooses for query `q`:
/// the insertion point of `q`, clamped to the last entry when `q` lies above
/// every stored brightness.
pub open spec fn nearest_index(s: Seq<(char, u32)>, q: u32) -> int {
    if first_ge(s, q) < s.len() {
        first_ge(s, q)
    } else {
        s.len() - 1
    }
}

/// What `first_ge` finds: everything before it is below `q`, and the entry
/// at it (when it is in bounds) is at or above `q`.
pub proof fn lemma_first_ge_props(s: Seq<(char, u32)>, q: u32)
    ensures
        0 <= first_ge(s, q) <= s.len(),
        forall|j: int| 0 <= j < first_ge(s, q) ==> s[j].1 < q,
        first_ge(s, q) < s.len() ==> s[first_ge(s, q)].1 >= q,
    decreases s.len(),
{
    if s.len() > 0 && s[0].1 < q {
        let t = s.drop_first();
        lemma_first_ge_props(t, q);
        assert forall|j: int| 0 <= j < first_ge(s, q) implies s[j].1 < q by {
            if j > 0 {
                assert(t[j - 1] == s[j]);
            }
        };
        if first_ge(s, q) < s.len() {
            assert(t[first_ge(t, q)] == s[first_ge(s, q)]);
        }
    }
}

/// A single-entry index answers every query with its one entry, whatever the
/// query's value.
pub proof fn lemma_nearest_single(s: Seq<(char, u32)>, q: u32)
    requires
        s.len() == 1,
    ensures
        nearest_index(s, q) == 0,
{
    if s[0].1 < q {
        assert(first_ge(s.drop_first(), q) == 0);
    }
}

/// Querying the lowest stored brightness selects the first (darkest) entry;
/// querying the highest selects an entry of exactly the highest brightness.
pub proof fn lemma_nearest_extremes(s: Seq<(char, u32)>)
    requires
        sorted_by_brightness(s),
        s.len() > 0,
    ensures
        nearest_index(s, s[0].1) == 0,
        s[nearest_index(s, s[s.len() - 1].1)].1 == s[s.len() - 1].1,
{
    lemma_first_ge_props(s, s[0].1);
    let hi = s[s.len() - 1].1;
    lemma_first_ge_props(s, hi);
    assert(first_ge(s, hi) < s.len());
}

/// A brightness-sorted character palette: each renderable character paired
/// with its measured brightness, ordered ascending by brightness.
pub struct CharacterSet {
    chars: Vec<(char, u32)>,
}

impl View for CharacterSet {
    type V = Seq<(char, u32)>;

    closed spec fn view(&self) -> Seq<(char, u32)> {
        self.chars@
    }
}

impl CharacterSet {
    #[verifier::type_invariant]
    spec fn inv(self) -> bool {
        sorted_by_brightness(self.chars@) && char_seq(self.chars@).no_duplicates()
    }

    /// Builds an index from measured `(character, brightness)` entries:
    /// de-duplicates them by character (each character keeps its first
    /// entry), then sorts ascending by brightness. The index holds each
    /// distinct character of the input exactly once.
    pub fn from_entries(entries: Vec<(char, u32)>) -> (s: Self)
        ensures
            sorted_by_brightness(s@),
            char_seq(s@).no_duplicates(),
            s@.to_multiset() == dedup_by_char(entries@).to_multiset(),
            forall|c: char| char_seq(s@).contains(c) <==> char_seq(entries@).contains(c),
    {
        let deduped = dedup_entries(&entries);
        let ghost dview = deduped@;
        let sorted = sort_entries(deduped);
        proof {
            char_seq(dview).lemma_multiset_has_no_duplicates();
            char_seq(sorted@).lemma_multiset_has_no_duplicates_conv();
            assert forall|c: char|
                char_seq(sorted@).contains(c) <==> char_seq(entries@).contains(c) by {
                assert(char_seq(sorted@).contains(c) <==> char_seq(sorted@).to_multiset().count(c)
                    > 0);
                assert(char_seq(dview).contains(c) <==> char_seq(dview).to_multiset().count(c)
                    > 0);
            };
        }
        CharacterSet { chars: sorted }
    }

    /// Measures each character's brightness through the font and builds the
    /// index: the characters are de-duplicated (each kept once) and the
    /// entries sorted ascending by brightness.
    pub fn new(chars: Vec<char>, font: fontdue::Font) -> (s: Self)
        ensures
            sorted_by_brightness(s@),
            char_seq(s@).no_duplicates(),
            forall|c: char| char_seq(s@).contains(c) <==> chars@.contains(c),
    {
        let mut entries: Vec<(char, u32)> = Vec::new();
        let mut i: usize = 0;
        while i < chars.len()
            invariant
                i <= chars@.len(),
                entries@.len() == i,
                char_seq(entries@) == chars@.subrange(0, i as int),
            decreases chars@.len() - i,
        {
            let b = average_brightness(chars[i], &font);
            entries.push((chars[i], b));
            proof {
                assert(char_seq(entries@) =~= chars@.subrange(0, i as int + 1));
            }
            i = i + 1;
        }
        proof {
            assert(char_seq(entries@) =~= chars@);
        }
        Self::from_entries(entries)
    }

    /// De-duplicates the characters of `chars` and builds the sorted index
    /// from them. The index holds each distinct character of `chars`
    /// exactly once, sorted ascending by brightness.
    pub fn from_string(chars: &str, font: fontdue::Font) -> (s: Self)
        ensures
            sorted_by_brightness(s@),
            char_seq(s@).no_duplicates(),
            forall|c: char| char_seq(s@).contains(c) <==> chars@.contains(c),
    {
        Self::new(str_chars(chars), font)
    }

    /// The stored entries, darkest first.
    pub fn chars(&self) -> (r: &Vec<(char, u32)>)
        ensures
            r@ == self@,
    {
        &self.chars
    }

    /// The last (brightest) entry, or `None` on an empty index.
    pub fn highest_brightness(&self) -> (r: Option<(char, u32)>)
        ensures
            r == (if self@.len() == 0 {
                None::<(char, u32)>
            } else {
                Some(self@[self@.len() - 1])
            }),
            forall|j: int| 0 <= j < self@.len() ==> (#[trigger] self@[j]).1 <= self@[self@.len()
                - 1].1,
    {
        proof {
            use_type_invariant(self);
        }
        if self.chars.len() == 0 {
            None
        } else {
            Some(self.chars[self.chars.len() - 1])
        }
    }

    /// The first (darkest) entry, or `None` on an empty index.
    pub fn lowest_brightness(&self) -> (r: Option<(char, u32)>)
        ensures
            r == (if self@.len() == 0 {
                None::<(char, u32)>
            } else {
                Some(self@[0])
            }),
            forall|j: int| 0 <= j < self@.len() ==> self@[0].1 <= (#[trigger] self@[j]).1,
    {
        proof {
            use_type_invariant(self);
        }
        if self.chars.len() == 0 {
            None
        } else {
            Some(self.chars[0])
        }
    }

    /// Looks up the character nearest to `brightness`: a binary search for
    /// the insertion point of the query, clamped to the last entry when the
    /// query lies above every stored brightness. Returns `None` only on an
    /// empty index.
    pub fn nearest_brightness(&self, brightness: u32) -> (r: Option<char>)
        ensures
            r is Some <==> self@.len() > 0,
            self@.len() > 0 ==> r == Some(self@[nearest_index(self@, brightness)].0),
    {
        proof {
            use_type_invariant(self);
        }
        let n = self.chars.len();
        if n == 0 {
            return None;
        }
        let mut lo: usize = 0;
        let mut hi: usize = n;
        while lo < hi
            invariant
                lo <= hi <= n,
                n == self.chars@.len(),
                sorted_by_brightness(self.chars@),
                forall|j: int| 0 <= j < lo ==> self.chars@[j].1 < brightness,
                forall|j: int| hi <= j < n ==> self.chars@[j].1 >= brightness,
            decreases hi - lo,
        {
            let mid = lo + (hi - lo) / 2;
            if self.chars[mid].1 < brightness {
                lo = mid + 1;
            } else {
                hi = mid;
            }
        }
        proof {
            lemma_first_ge_props(self.chars@, brightness);
            let fg = first_ge(self.chars@, brightness);
            if fg < lo {
                assert(self.chars@[fg].1 < brightness);
            }
            if lo < fg {
                assert(self.chars@[lo as int].1 < brightness);
            }
            assert(lo as int == fg);
        }
        let idx = if lo >= n {
            n - 1
        } else {
            lo
        };
        Some(self.chars[idx].0)
    }
}

/// Whether some entry of `v` carries the character `c`.
fn contains_entry_char(v: &Vec<(char, u32)>, c: char) -> (r: bool)
    ensures
        r == char_seq(v@).contains(c),
{
    let mut j: usize = 0;
    while j < v.len()
        invariant
            j <= v@.len(),
            forall|k: int| 0 <= k < j ==> (#[trigger] v@[k]).0 != c,
        decreases v@.len() - j,
    {
        if v[j].0 == c {
            assert(char_seq(v@)[j as int] == c);
            return true;
        }
        j = j + 1;
    }
    proof {
        assert forall|k: int| 0 <= k < char_seq(v@).len() implies char_seq(v@)[k] != c by {
            assert(char_seq(v@)[k] == v@[k].0);
        };
    }
    false
}

/// Keeps each character's first entry, dropping every later entry whose
/// character already occurred.
fn dedup_entries(input: &Vec<(char, u32)>) -> (out: Vec<(char, u32)>)
    ensures
        out@ == dedup_by_char(input@),
        char_seq(out@).no_duplicates(),
        forall|c: char| char_seq(out@).contains(c) <==> char_seq(input@).contains(c),
{
    let mut out: Vec<(char, u32)> = Vec::new();
    proof {
        assert(input@.subrange(0, 0) =~= Seq::<(char, u32)>::empty());
    }
    let mut i: usize = 0;
    while i < input.len()
        invariant
            i <= input@.len(),
            out@ == dedup_by_char(input@.subrange(0, i as int)),
            char_seq(out@).no_duplicates(),
            forall|c: char|
                char_seq(out@).contains(c) <==> char_seq(input@.subrange(0, i as int)).contains(
                    c,
                ),
        decreases input@.len() - i,
    {
        let ghost prefix = input@.subrange(0, i as int);
        let ghost prefix1 = input@.subrange(0, i as int + 1);
        let e = input[i];
        proof {
            assert(prefix1.drop_last() =~= prefix);
            assert(prefix1.last() == e);
            assert(char_seq(prefix1) =~= char_seq(prefix).push(e.0));
            assert forall|c: char|
                char_seq(prefix1).contains(c) implies char_seq(prefix).contains(c) || c
                == e.0 by {
                let k = choose|k: int|
                    0 <= k < char_seq(prefix1).len() && char_seq(prefix1)[k] == c;
                if k < char_seq(prefix).len() {
                    assert(char_seq(prefix)[k] == c);
                }
            };
            assert forall|c: char|
                char_seq(prefix).contains(c) implies char_seq(prefix1).contains(c) by {
                let k = choose|k: int| 0 <= k < char_seq(prefix).len() && char_seq(prefix)[k]
                    == c;
                assert(char_seq(prefix1)[k] == c);
            };
            assert(char_seq(prefix1)[char_seq(prefix).len() as int] == e.0);
            assert(char_seq(prefix1).contains(e.0));
        }
        if !contains_entry_char(&out, e.0) {
            let ghost old_out = out@;
            out.push(e);
            proof {
                assert(!char_seq(prefix).contains(e.0));
                assert(out@ =~= dedup_by_char(prefix1));
                assert(char_seq(out@) =~= char_seq(old_out).push(e.0));
                assert(!char_seq(old_out).contains(e.0));
                assert forall|a: int, b: int|
                    0 <= a < char_seq(out@).len() && 0 <= b < char_seq(out@).len() && a
                    != b implies char_seq(out@)[a] != char_seq(out@)[b] by {
                    let last = char_seq(old_out).len() as int;
                    if a == last && b < last {
                        if char_seq(old_out)[b] == e.0 {
                            assert(char_seq(old_out).contains(e.0));
                        }
                    }
                    if b == last && a < last {
                        if char_seq(old_out)[a] == e.0 {
                            assert(char_seq(old_out).contains(e.0));
                        }
                    }
                };
                assert forall|c: char|
                    char_seq(out@).contains(c) implies char_seq(prefix1).contains(c) by {
                    let k = choose|k: int| 0 <= k < char_seq(out@).len() && char_seq(out@)[k]
                        == c;
                    if k < char_seq(old_out).len() {
                        assert(char_seq(old_out)[k] == c);
                        assert(char_seq(old_out).contains(c));
                        assert(char_seq(prefix).contains(c));
                    } else {
                        assert(char_seq(out@)[char_seq(old_out).len() as int] == e.0);
                        assert(char_seq(prefix1)[char_seq(prefix).len() as int] == c);
                    }
                    assert(char_seq(prefix1).contains(c));
                };
                assert forall|c: char|
                    char_seq(prefix1).contains(c) implies char_seq(out@).contains(c) by {
                    if char_seq(prefix).contains(c) {
                        assert(char_seq(old_out).contains(c));
                        let k = choose|k: int|
                            0 <= k < char_seq(old_out).len() && char_seq(old_out)[k] == c;
                        assert(char_seq(out@)[k] == c);
                    } else {
                        assert(char_seq(out@)[char_seq(old_out).len() as int] == c);
                    }
                };
            }
        } else {
            proof {
                assert(char_seq(prefix).contains(e.0));
                assert(out@ == dedup_by_char(prefix1));
            }
        }
        i = i + 1;
    }
    proof {
        assert(input@.subrange(0, input@.len() as int) =~= input@);
    }
    out
}

/// Sorts the entries ascending by brightness (insertion sort), preserving
/// the entries and their characters as a multiset.
fn sort_entries(input: Vec<(char, u32)>) -> (out: Vec<(char, u32)>)
    ensures
        sorted_by_brightness(out@),
        out@.to_multiset() == input@.to_multiset(),
        char_seq(out@).to_multiset() == char_seq(input@).to_multiset(),
        out@.len() == input@.len(),
{
    let mut out: Vec<(char, u32)> = Vec::new();
    let mut i: usize = 0;
    while i < input.len()
        invariant
            i <= input@.len(),
            out@.len() == i,
            sorted_by_brightness(out@),
            out@.to_multiset() == input@.subrange(0, i as int).to_multiset(),
            char_seq(out@).to_multiset() == char_seq(input@.subrange(0, i as int)).to_multiset(),
        decreases input@.len() - i,
    {
        let x = input[i];
        let mut j: usize = 0;
        while j < out.len() && out[j].1 <= x.1
            invariant
                j <= out@.len(),
                forall|k: int| 0 <= k < j ==> out@[k].1 <= x.1,
            decreases out@.len() - j,
        {
            j = j + 1;
        }
        let ghost old_out = out@;
        let ghost prefix = input@.subrange(0, i as int);
        let ghost prefix1 = input@.subrange(0, i as int + 1);
        out.insert(j, x);
        proof {
            old_out.insert_ensures(j as int, x);
            assert forall|a: int, b: int| 0 <= a <= b < out@.len() implies out@[a].1
                <= out@[b].1 by {
                if a < j && b > j {
                    assert(out@[a] == old_out[a]);
                    assert(out@[b] == old_out[b - 1]);
                    assert(old_out[a].1 <= x.1);
                    assert(j <= b - 1);
                }
            };
            assert(prefix1 =~= prefix.push(x));
            assert(char_seq(out@) =~= char_seq(old_out).insert(j as int, x.0)) by {
                char_seq(old_out).insert_ensures(j as int, x.0);
            };
            assert(char_seq(prefix1) =~= char_seq(prefix).push(x.0));
        }
        i = i + 1;
    }
    proof {
        assert(input@.subrange(0, input@.len() as int) =~= input@);
    }
    out
}

/// Collects the characters of `s` by iterating `str::chars`.
fn str_chars(s: &str) -> (r: Vec<char>)
    ensures
        r@ == s@,
{
    broadcast use vstd::string::axiom_spec_iter;
    broadcast use vstd::string::next_postcondition;

    let mut it = s.chars();
    let mut out: Vec<char> = Vec::new();
    loop
        invariant
            it.decrease() is Some,
            out@ + it.remaining() == s@,
        ensures
            out@ == s@,
        decreases it.decrease()->0,
    {
        match it.next() {
            Some(c) => {
                out.push(c);
                proof {
                    assert(out@ + it.remaining() =~= s@);
                }
            },
            None => {
                proof {
                    assert(out@ =~= s@);
                }
                break;
            },
        }
    }
    out
}

} // verus!
