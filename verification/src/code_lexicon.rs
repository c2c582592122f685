//! The model service's dictionary: entries keyed by their compact code (the preedit without
//! spaces, for example `buru`), looked up by every prefix of an input.
use vstd::prelude::*;
use vstd::string::*;
use crate::dict_text::compact_code;
use crate::lexicon::{
    inserted_all, lists_sorted_from, lookup, sorted_by_prior, Lexicon as CodeTable, LexiconEntry,
};
use crate::text::string_from_range;

verus! {

/// The first `max` entries of a list (all of them when it is shorter).
pub open spec fn at_most(l: Seq<LexiconEntry>, max: nat) -> Seq<LexiconEntry> {
    if l.len() <= max {
        l
    } else {
        l.take(max as int)
    }
}

/// The entries under the first `n` prefixes of `code` (shortest first), at most `max` from
/// each.
pub open spec fn gathered(
    v: Seq<(Seq<char>, Seq<LexiconEntry>)>,
    code: Seq<char>,
    max: nat,
    n: int,
) -> Seq<LexiconEntry>
    decreases n,
{
    if n <= 0 {
        seq![]
    } else {
        gathered(v, code, max, n - 1) + at_most(lookup(v, code.take(n)), max)
    }
}

/// Adjacent entries with the same text collapsed into the first; it takes the code and
/// consumed keys of a later one that consumes more keys.
pub open spec fn merged_dups(s: Seq<LexiconEntry>) -> Seq<LexiconEntry>
    decreases s.len(),
{
    if s.len() == 0 {
        seq![]
    } else {
        let d = merged_dups(s.drop_last());
        let x = s.last();
        if d.len() > 0 && d.last().text@ == x.text@ {
            if x.consumed_keys > d.last().consumed_keys {
                d.update(
                    d.len() - 1,
                    LexiconEntry { consumed_keys: x.consumed_keys, code: x.code, ..d.last() },
                )
            } else {
                d
            }
        } else {
            d.push(x)
        }
    }
}

/// The first code recorded for a word.
pub open spec fn first_code(entries: Seq<LexiconEntry>, word: Seq<char>) -> Option<Seq<char>>
    decreases entries.len(),
{
    if entries.len() == 0 {
        None
    } else {
        match first_code(entries.drop_last(), word) {
            Some(c) => Some(c),
            None => if entries.last().text@ == word {
                Some(entries.last().code@)
            } else {
                None
            },
        }
    }
}

/// The model service's dictionary.
pub struct Lexicon {
    table: CodeTable,
    entries_seen: Ghost<Seq<LexiconEntry>>,
    pinyin_by_word: Vec<(String, String)>,
}

impl Lexicon {
    /// The entry lists by compact code.
    pub closed spec fn codes(&self) -> Seq<(Seq<char>, Seq<LexiconEntry>)> {
        self.table@
    }

    /// The code of a word: the first one it was loaded with.
    pub closed spec fn pinyin_spec(&self, word: Seq<char>) -> Option<Seq<char>> {
        first_code(self.entries_seen@, word)
    }

    /// The invariant: the code table is well formed and the word index holds each loaded
    /// word once, with its first code.
    pub closed spec fn wf(&self) -> bool {
        &&& self.table.wf()
        &&& forall|a: int, b: int|
            0 <= a < b < self.pinyin_by_word@.len() ==> (#[trigger] self.pinyin_by_word@[a]).0@
                != (#[trigger] self.pinyin_by_word@[b]).0@
        &&& forall|a: int|
            0 <= a < self.pinyin_by_word@.len() ==> first_code(
                self.entries_seen@,
                (#[trigger] self.pinyin_by_word@[a]).0@,
            ) == Some(self.pinyin_by_word@[a].1@)
        &&& forall|w: Seq<char>|
            #[trigger] first_code(self.entries_seen@, w) is Some ==> exists|a: int|
                0 <= a < self.pinyin_by_word@.len() && (#[trigger] self.pinyin_by_word@[a]).0@ == w
    }

    /// Builds the dictionary from parsed entries: entries with the same code and text merge
    /// (the greater prior wins), every code's list is sorted by descending prior, and each
    /// word remembers the first code it came with.
    pub fn from_entries(entries: Vec<LexiconEntry>) -> (lexicon: Self)
        ensures
            lexicon.wf(),
            lists_sorted_from(lexicon.codes(), inserted_all(entries@, entries@.len() as int)),
            forall|w: Seq<char>| #[trigger] lexicon.pinyin_spec(w) == first_code(entries@, w),
    {
        let ghost all = entries@;
        let mut pinyin_by_word: Vec<(String, String)> = Vec::new();
        let mut i: usize = 0;
        while i < entries.len()
            invariant
                i <= entries@.len(),
                all == entries@,
                forall|a: int, b: int|
                    0 <= a < b < pinyin_by_word@.len() ==> (#[trigger] pinyin_by_word@[a]).0@
                        != (#[trigger] pinyin_by_word@[b]).0@,
                forall|a: int|
                    0 <= a < pinyin_by_word@.len() ==> first_code(
                        all.take(i as int),
                        (#[trigger] pinyin_by_word@[a]).0@,
                    ) == Some(pinyin_by_word@[a].1@),
                forall|w: Seq<char>|
                    #[trigger] first_code(all.take(i as int), w) is Some ==> exists|a: int|
                        0 <= a < pinyin_by_word@.len() && (#[trigger] pinyin_by_word@[a]).0@ == w,
            decreases entries.len() - i,
        {
            let mut known = false;
            let mut j: usize = 0;
            while j < pinyin_by_word.len()
                invariant
                    j <= pinyin_by_word@.len(),
                    i < entries@.len(),
                    !known ==> forall|k: int|
                        0 <= k < j ==> (#[trigger] pinyin_by_word@[k]).0@ != entries@[i as int].text@,
                    known ==> exists|k: int|
                        0 <= k < pinyin_by_word@.len() && (#[trigger] pinyin_by_word@[k]).0@
                            == entries@[i as int].text@,
                decreases pinyin_by_word.len() - j,
            {
                if !known && pinyin_by_word[j].0 == entries[i].text {
                    known = true;
                }
                j = j + 1;
            }
            let ghost prev = all.take(i as int);
            let ghost next = all.take(i + 1);
            let ghost x = all[i as int];
            proof {
                assert(next.drop_last() =~= prev);
                assert(next.last() == x);
            }
            if !known {
                let ghost old_pairs = pinyin_by_word@;
                proof {
                    if first_code(prev, x.text@) is Some {
                        let a = choose|a: int|
                            0 <= a < old_pairs.len() && (#[trigger] old_pairs[a]).0@ == x.text@;
                        assert(old_pairs[a].0@ != x.text@);
                    }
                }
                pinyin_by_word.push((entries[i].text.clone(), entries[i].code.clone()));
                proof {
                    assert forall|a: int, b: int|
                        0 <= a < b < pinyin_by_word@.len() implies (#[trigger] pinyin_by_word@[a]).0@
                            != (#[trigger] pinyin_by_word@[b]).0@ by {
                        assert(pinyin_by_word@[a] == old_pairs[a]);
                        if b < old_pairs.len() {
                            assert(pinyin_by_word@[b] == old_pairs[b]);
                        }
                    }
                    assert forall|a: int|
                        0 <= a < pinyin_by_word@.len() implies first_code(
                        next,
                        (#[trigger] pinyin_by_word@[a]).0@,
                    ) == Some(pinyin_by_word@[a].1@) by {
                        if a < old_pairs.len() {
                            assert(pinyin_by_word@[a] == old_pairs[a]);
                        }
                    }
                    assert forall|w: Seq<char>|
                        #[trigger] first_code(next, w) is Some implies exists|a: int|
                            0 <= a < pinyin_by_word@.len() && (#[trigger] pinyin_by_word@[a]).0@ == w by {
                        if first_code(prev, w) is Some {
                            let a = choose|a: int|
                                0 <= a < old_pairs.len() && (#[trigger] old_pairs[a]).0@ == w;
                            assert(pinyin_by_word@[a] == old_pairs[a]);
                        } else {
                            assert(pinyin_by_word@[old_pairs.len() as int].0@ == w);
                        }
                    }
                }
            } else {
                proof {
                    let k = choose|k: int|
                        0 <= k < pinyin_by_word@.len() && (#[trigger] pinyin_by_word@[k]).0@ == x.text@;
                    assert(first_code(prev, x.text@) is Some);
                    assert forall|a: int|
                        0 <= a < pinyin_by_word@.len() implies first_code(
                        next,
                        (#[trigger] pinyin_by_word@[a]).0@,
                    ) == Some(pinyin_by_word@[a].1@) by {
                        assert(first_code(prev, pinyin_by_word@[a].0@) is Some);
                    }
                    assert forall|w: Seq<char>|
                        #[trigger] first_code(next, w) is Some implies exists|a: int|
                            0 <= a < pinyin_by_word@.len() && (#[trigger] pinyin_by_word@[a]).0@ == w by {
                        if first_code(prev, w) is None {
                            assert(w == x.text@);
                        }
                    }
                }
            }
            i = i + 1;
        }
        proof {
            assert(all.take(all.len() as int) =~= all);
        }
        let table = CodeTable::from_entries(entries);
        Lexicon { table, entries_seen: Ghost(all), pinyin_by_word }
    }

    /// The code a word was first loaded with.
    pub fn pinyin_of(&self, word: &str) -> (r: Option<String>)
        requires
            self.wf(),
        ensures
            match r {
                Some(c) => self.pinyin_spec(word@) == Some(c@),
                None => self.pinyin_spec(word@) is None,
            },
    {
        let w = word.to_owned();
        let mut i: usize = 0;
        while i < self.pinyin_by_word.len()
            invariant
                self.wf(),
                w@ == word@,
                i <= self.pinyin_by_word@.len(),
                forall|k: int| 0 <= k < i ==> (#[trigger] self.pinyin_by_word@[k]).0@ != word@,
            decreases self.pinyin_by_word.len() - i,
        {
            if self.pinyin_by_word[i].0 == w {
                return Some(self.pinyin_by_word[i].1.clone());
            }
            i = i + 1;
        }
        None
    }

    /// The words with a known code.
    pub closed spec fn known_words(&self) -> Set<Seq<char>> {
        self.pinyin_by_word@.map_values(|p: (String, String)| p.0@).to_set()
    }

    /// The number of words with a known code.
    pub fn word_count(&self) -> (n: usize)
        requires
            self.wf(),
        ensures
            n == self.known_words().len(),
    {
        proof {
            let s = self.pinyin_by_word@.map_values(|p: (String, String)| p.0@);
            assert forall|a: int, b: int| 0 <= a < b < s.len() implies s[a] != s[b] by {
                assert(s[a] == self.pinyin_by_word@[a].0@);
                assert(s[b] == self.pinyin_by_word@[b].0@);
            }
            s.unique_seq_to_set();
        }
        self.pinyin_by_word.len()
    }

    /// The entries whose code is a prefix of the input's compact code: at most
    /// `max_candidates` per prefix, shortest prefix first, then sorted by descending prior
    /// (stable), adjacent duplicates by text merged (keeping the longest consumption), and at
    /// most `max_candidates` in all. Nothing for an input without letters.
    pub fn candidates_for(&self, input: &str, max_candidates: usize) -> (r: Vec<LexiconEntry>)
        requires
            self.wf(),
        ensures
            compact_code(input@).len() == 0 ==> r@.len() == 0,
            compact_code(input@).len() > 0 ==> exists|sorted: Seq<LexiconEntry>|
                sorted_by_prior(
                    sorted,
                    gathered(
                        self.codes(),
                        compact_code(input@),
                        max_candidates as nat,
                        compact_code(input@).len() as int,
                    ),
                ) && r@ == at_most(merged_dups(sorted), max_candidates as nat),
    {
        let code = crate::dict_text::normalize_code(input);
        let chars = crate::text::chars_of(code.as_str());
        let n = chars.len();
        if n == 0 {
            return Vec::new();
        }
        let ghost v = self.table@;
        let mut all: Vec<LexiconEntry> = Vec::new();
        let mut done: usize = 0;
        while done < n
            invariant
                done <= n,
                n == chars@.len(),
                chars@ == compact_code(input@),
                self.table.wf(),
                v == self.table@,
                all@ == gathered(v, chars@, max_candidates as nat, done as int),
            decreases n - done,
        {
            let len = done + 1;
            let prefix = string_from_range(&chars, 0, len);
            proof {
                assert(chars@.subrange(0, len as int) =~= chars@.take(len as int));
            }
            let list = self.table.entries_for_key(&prefix);
            let mut k: usize = 0;
            let ghost before = all@;
            while k < list.len() && k < max_candidates
                invariant
                    k <= list@.len(),
                    k <= max_candidates,
                    all@ == before + list@.take(k as int),
                decreases list.len() - k,
            {
                all.push(list[k].clone());
                k = k + 1;
                proof {
                    assert(all@ =~= before + list@.take(k as int));
                }
            }
            proof {
                if list@.len() <= max_candidates {
                    assert(list@.take(k as int) =~= list@);
                }
                assert(all@ =~= gathered(v, chars@, max_candidates as nat, len as int));
            }
            done = len;
        }
        let ghost g = all@;
        let sorted = crate::lexicon::sort_by_prior(all);
        let ghost sv = sorted@;
        let mut merged: Vec<LexiconEntry> = Vec::new();
        let mut j: usize = 0;
        while j < sorted.len()
            invariant
                j <= sorted@.len(),
                sv == sorted@,
                merged@ == merged_dups(sv.take(j as int)),
            decreases sorted.len() - j,
        {
            proof {
                assert(sv.take(j + 1).drop_last() =~= sv.take(j as int));
            }
            let x = &sorted[j];
            let m = merged.len();
            if m > 0 && merged[m - 1].text == x.text {
                if x.consumed_keys > merged[m - 1].consumed_keys {
                    let mut last = merged[m - 1].clone();
                    last.consumed_keys = x.consumed_keys;
                    last.code = x.code.clone();
                    merged.set(m - 1, last);
                }
            } else {
                merged.push(x.clone());
            }
            j = j + 1;
        }
        proof {
            assert(sv.take(sv.len() as int) =~= sv);
        }
        let ghost full = merged@;
        if merged.len() > max_candidates {
            merged.truncate(max_candidates);
        }
        proof {
            if full.len() > max_candidates {
                assert(merged@ =~= full.take(max_candidates as int));
            }
            assert(g == gathered(v, chars@, max_candidates as nat, n as int));
            assert(v == self.codes());
            assert(chars@ == compact_code(input@));
            assert(g == gathered(
                self.codes(),
                compact_code(input@),
                max_candidates as nat,
                compact_code(input@).len() as int,
            ));
            assert(sorted_by_prior(sv, g));
            assert(merged@ == at_most(merged_dups(sv), max_candidates as nat));
        }
        merged
    }
}

} // verus!
