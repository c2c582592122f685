//! Dictionary entries indexed by their syllable sequence (for example `bu ru`), not by the raw
//! letter string, so segmentations such as `xi an` and `xian` stay distinct.
use vstd::prelude::*;
use vstd::string::*;
use crate::order::{float_greater, float_gt, sort_desc_stable, stable_desc, total_key, total_order_key};
use crate::text::{ascii_lower, chars_of, lemma_push_to_set, push_char, string_from_chars, to_ascii_lower};

verus! {

/// One dictionary word under one syllable code.
#[derive(Debug)]
pub struct LexiconEntry {
    pub text: String,
    /// Syllable sequence, for example `bu ru`.
    pub code: String,
    /// The preedit as written in the dictionary file.
    pub preedit: String,
    /// Number of input letters consumed by the full syllable sequence.
    pub consumed_keys: usize,
    /// Bit pattern of the `f32` dictionary weight from the third tab-separated column.
    pub prior_bits: u32,
}

impl Clone for LexiconEntry {
    fn clone(&self) -> (r: Self)
        ensures
            r == *self,
    {
        LexiconEntry {
            text: self.text.clone(),
            code: self.code.clone(),
            preedit: self.preedit.clone(),
            consumed_keys: self.consumed_keys,
            prior_bits: self.prior_bits,
        }
    }
}

/// The parts of `s` between single spaces, as `str::split(' ')` yields them.
pub open spec fn split_spaces(s: Seq<char>) -> Seq<Seq<char>>
    decreases s.len(),
{
    if s.len() == 0 {
        seq![seq![]]
    } else {
        let prev = split_spaces(s.drop_last());
        if s.last() == ' ' {
            prev.push(seq![])
        } else {
            prev.update(prev.len() - 1, prev.last().push(s.last()))
        }
    }
}

proof fn lemma_split_spaces_nonempty(s: Seq<char>)
    ensures
        split_spaces(s).len() > 0,
    decreases s.len(),
{
    if s.len() > 0 {
        lemma_split_spaces_nonempty(s.drop_last());
    }
}

/// Executable counterpart of [`split_spaces`].
pub fn split_on_spaces(s: &String) -> (parts: Vec<String>)
    ensures
        parts@.map_values(|p: String| p@) == split_spaces(s@),
{
    let chars = chars_of(s.as_str());
    let mut parts: Vec<String> = Vec::new();
    let mut current = String::new();
    let mut i: usize = 0;
    while i < chars.len()
        invariant
            i <= chars@.len(),
            chars@ == s@,
            parts@.map_values(|p: String| p@).push(current@) == split_spaces(chars@.take(i as int)),
        decreases chars.len() - i,
    {
        proof {
            lemma_split_spaces_nonempty(chars@.take(i as int));
            assert(chars@.take(i + 1).drop_last() =~= chars@.take(i as int));
        }
        let ghost prev_parts = parts@.map_values(|p: String| p@);
        if chars[i] == ' ' {
            let done = current;
            parts.push(done);
            current = String::new();
            proof {
                assert(parts@.map_values(|p: String| p@) =~= prev_parts.push(done@));
            }
        } else {
            push_char(&mut current, chars[i]);
        }
        i = i + 1;
        proof {
            let full = parts@.map_values(|p: String| p@).push(current@);
            assert(full =~= split_spaces(chars@.take(i as int)));
        }
    }
    proof {
        assert(chars@.take(chars@.len() as int) =~= chars@);
    }
    let ghost before = parts@.map_values(|p: String| p@);
    let last = current;
    parts.push(last);
    proof {
        assert(parts@.map_values(|p: String| p@) =~= before.push(last@));
    }
    parts
}

/// The order keys of the entries' priors.
pub open spec fn prior_keys(l: Seq<LexiconEntry>) -> Seq<int> {
    l.map_values(|e: LexiconEntry| total_key(e.prior_bits))
}

/// `out` is `inp` stably sorted by descending prior.
pub open spec fn sorted_by_prior(out: Seq<LexiconEntry>, inp: Seq<LexiconEntry>) -> bool {
    exists|idx: Seq<int>| stable_desc(out, prior_keys(out), inp, prior_keys(inp), idx)
}

/// Position of the first entry of `l` with text `text`.
pub open spec fn text_pos(l: Seq<LexiconEntry>, text: Seq<char>) -> Option<int> {
    if exists|j: int| 0 <= j < l.len() && (#[trigger] l[j]).text@ == text {
        Some(choose|j: int| 0 <= j < l.len() && (#[trigger] l[j]).text@ == text)
    } else {
        None
    }
}

/// No two entries of the list share a text.
pub open spec fn distinct_texts(l: Seq<LexiconEntry>) -> bool {
    forall|i: int, j: int| 0 <= i < j < l.len() ==> (#[trigger] l[i]).text@ != (#[trigger] l[j]).text@
}

/// The entry list after inserting `e`: an entry with the same text keeps its fields and takes
/// `e`'s prior when that is greater; otherwise `e` is appended.
pub open spec fn list_inserted(l: Seq<LexiconEntry>, e: LexiconEntry) -> Seq<LexiconEntry> {
    match text_pos(l, e.text@) {
        Some(j) => if float_gt(e.prior_bits, l[j].prior_bits) {
            l.update(j, LexiconEntry { prior_bits: e.prior_bits, ..l[j] })
        } else {
            l
        },
        None => l.push(e),
    }
}

/// Position of code `code` in the lexicon view.
pub open spec fn code_pos(v: Seq<(Seq<char>, Seq<LexiconEntry>)>, code: Seq<char>) -> Option<int> {
    if exists|i: int| 0 <= i < v.len() && (#[trigger] v[i]).0 == code {
        Some(choose|i: int| 0 <= i < v.len() && (#[trigger] v[i]).0 == code)
    } else {
        None
    }
}

/// The entries stored under `code`, empty when the code is absent.
pub open spec fn lookup(v: Seq<(Seq<char>, Seq<LexiconEntry>)>, code: Seq<char>) -> Seq<LexiconEntry> {
    match code_pos(v, code) {
        Some(i) => v[i].1,
        None => seq![],
    }
}

/// The lexicon view after inserting `e` under its code.
pub open spec fn inserted(v: Seq<(Seq<char>, Seq<LexiconEntry>)>, e: LexiconEntry) -> Seq<
    (Seq<char>, Seq<LexiconEntry>),
> {
    match code_pos(v, e.code@) {
        Some(i) => v.update(i, (v[i].0, list_inserted(v[i].1, e))),
        None => v.push((e.code@, seq![e])),
    }
}

/// The lexicon view after inserting `entries[0..k]` in order into an empty lexicon.
pub open spec fn inserted_all(entries: Seq<LexiconEntry>, k: int) -> Seq<(Seq<char>, Seq<LexiconEntry>)>
    decreases k,
{
    if k <= 0 {
        seq![]
    } else {
        inserted(inserted_all(entries, k - 1), entries[k - 1])
    }
}

/// The in-memory dictionary: entry lists by syllable code, and the syllables of all codes.
#[derive(Debug)]
pub struct Lexicon {
    codes: Vec<String>,
    lists: Vec<Vec<LexiconEntry>>,
    syllables: Vec<String>,
}

impl View for Lexicon {
    type V = Seq<(Seq<char>, Seq<LexiconEntry>)>;

    closed spec fn view(&self) -> Seq<(Seq<char>, Seq<LexiconEntry>)> {
        Seq::new(self.codes@.len(), |i: int| (self.codes@[i]@, self.lists@[i]@))
    }
}

/// The syllables of the codes of `entries[0..k]`.
pub open spec fn code_syllables(entries: Seq<LexiconEntry>, k: int) -> Set<Seq<char>>
    decreases k,
{
    if k <= 0 {
        Set::empty()
    } else {
        code_syllables(entries, k - 1) + split_spaces(entries[k - 1].code@).to_set()
    }
}

/// Every list of `out` is the list of `inp` under the same code, stably sorted by prior.
pub open spec fn lists_sorted_from(
    out: Seq<(Seq<char>, Seq<LexiconEntry>)>,
    inp: Seq<(Seq<char>, Seq<LexiconEntry>)>,
) -> bool {
    &&& out.len() == inp.len()
    &&& forall|i: int|
        0 <= i < out.len() ==> (#[trigger] out[i]).0 == inp[i].0 && sorted_by_prior(out[i].1, inp[i].1)
}

/// The non-empty syllables of a path, lowercased.
pub open spec fn key_parts(parts: Seq<Seq<char>>) -> Seq<Seq<char>>
    decreases parts.len(),
{
    if parts.len() == 0 {
        seq![]
    } else {
        let prev = key_parts(parts.drop_last());
        if parts.last().len() == 0 {
            prev
        } else {
            prev.push(parts.last().map_values(|c: char| ascii_lower(c)))
        }
    }
}

/// The lookup key of a syllable sequence: its non-empty syllables, lowercased, joined with
/// single spaces.
pub open spec fn syllable_key(parts: Seq<Seq<char>>) -> Seq<char> {
    crate::syllable::joined(key_parts(parts))
}

/// All entries, list after list in code order.
pub open spec fn flattened(v: Seq<(Seq<char>, Seq<LexiconEntry>)>, k: int) -> Seq<LexiconEntry>
    decreases k,
{
    if k <= 0 {
        seq![]
    } else {
        flattened(v, k - 1) + v[k - 1].1
    }
}

/// Consecutive entries with the same text collapse into the first of them.
pub open spec fn dedup_text(s: Seq<LexiconEntry>) -> Seq<LexiconEntry>
    decreases s.len(),
{
    if s.len() == 0 {
        seq![]
    } else {
        let prev = dedup_text(s.drop_last());
        if prev.len() > 0 && prev.last().text@ == s.last().text@ {
            prev
        } else {
            prev.push(s.last())
        }
    }
}

impl Lexicon {
    /// The lexicon's invariant: codes are distinct, every list holds entries of its code with
    /// distinct texts, and the syllable list has no duplicates.
    pub closed spec fn wf(&self) -> bool {
        &&& self.codes@.len() == self.lists@.len()
        &&& forall|i: int, j: int|
            0 <= i < j < self.codes@.len() ==> (#[trigger] self.codes@[i])@ != (
            #[trigger] self.codes@[j])@
        &&& forall|i: int| 0 <= i < self.lists@.len() ==> distinct_texts(#[trigger] self.lists@[i]@)
        &&& forall|i: int, j: int|
            0 <= i < j < self.syllables@.len() ==> (#[trigger] self.syllables@[i])@ != (
            #[trigger] self.syllables@[j])@
    }

    /// The syllables of all codes inserted so far, without duplicates.
    pub closed spec fn syllable_set(&self) -> Set<Seq<char>> {
        self.syllables@.map_values(|s: String| s@).to_set()
    }

    /// An empty lexicon.
    pub fn new() -> (lexicon: Self)
        ensures
            lexicon.wf(),
            lexicon@ == Seq::<(Seq<char>, Seq<LexiconEntry>)>::empty(),
            lexicon.syllable_set() == Set::<Seq<char>>::empty(),
    {
        let lexicon = Lexicon { codes: Vec::new(), lists: Vec::new(), syllables: Vec::new() };
        assert(lexicon@ =~= Seq::<(Seq<char>, Seq<LexiconEntry>)>::empty());
        assert(lexicon.syllable_set() =~= Set::<Seq<char>>::empty());
        lexicon
    }

    /// Adds `entry` under its code; an entry with the same text there keeps its fields and
    /// takes the greater prior. The code's syllables join the syllable set.
    pub fn insert(&mut self, entry: LexiconEntry)
        requires
            old(self).wf(),
        ensures
            final(self).wf(),
            final(self)@ == inserted(old(self)@, entry),
            final(self).syllable_set() == old(self).syllable_set() + split_spaces(entry.code@).to_set(),
    {
        let parts = split_on_spaces(&entry.code);
        let mut k: usize = 0;
        while k < parts.len()
            invariant
                self.wf(),
                self@ == old(self)@,
                k <= parts@.len(),
                parts@.map_values(|p: String| p@) == split_spaces(entry.code@),
                self.syllable_set() == old(self).syllable_set() + split_spaces(entry.code@).take(k as int).to_set(),
            decreases parts.len() - k,
        {
            self.add_syllable(&parts[k]);
            proof {
                let sp = split_spaces(entry.code@);
                assert(sp.take(k + 1) =~= sp.take(k as int).push(sp[k as int]));
                assert(sp[k as int] == parts@[k as int]@);
                lemma_push_to_set(sp.take(k as int), sp[k as int]);
                assert(self.syllable_set() =~= old(self).syllable_set() + sp.take(k + 1).to_set());
            }
            k = k + 1;
        }
        proof {
            let sp = split_spaces(entry.code@);
            assert(sp.take(parts@.len() as int) =~= sp);
        }
        let ghost v = self@;
        let mut i: usize = 0;
        while i < self.codes.len()
            invariant
                self.wf(),
                self@ == v,
                v == old(self)@,
                i <= self.codes@.len(),
                forall|j: int| 0 <= j < i ==> (#[trigger] v[j]).0 != entry.code@,
                self.syllable_set() == old(self).syllable_set() + split_spaces(entry.code@).to_set(),
            decreases self.codes.len() - i,
        {
            if self.codes[i] == entry.code {
                assert(v[i as int].0 == entry.code@);
                proof {
                    assert(code_pos(v, entry.code@) == Some(i as int)) by {
                        let c = choose|j: int| 0 <= j < v.len() && (#[trigger] v[j]).0 == entry.code@;
                        if c != i {
                            assert(self.codes@[c]@ == self.codes@[i as int]@);
                        }
                    }
                }
                let ghost old_lists = self.lists@;
                let mut list = self.lists.remove(i);
                insert_into_list(&mut list, entry);
                self.lists.insert(i, list);
                proof {
                    assert(self.lists@ =~= old_lists.update(i as int, list));
                    assert(forall|j: int| 0 <= j < self.lists@.len() && j != i ==> self.lists@[j] == old_lists[j]);
                    assert(self@ =~= inserted(v, entry));
                }
                return;
            }
            i = i + 1;
        }
        let code = entry.code.clone();
        let mut list = Vec::new();
        list.push(entry);
        let ghost old_codes = self.codes@;
        let ghost old_lists = self.lists@;
        self.codes.push(code);
        self.lists.push(list);
        proof {
            assert forall|a: int, b: int| 0 <= a < b < self.codes@.len() implies (
            #[trigger] self.codes@[a])@ != (#[trigger] self.codes@[b])@ by {
                if b == old_codes.len() {
                    assert(v[a].0 == old_codes[a]@);
                } else {
                    assert(self.codes@[a] == old_codes[a]);
                    assert(self.codes@[b] == old_codes[b]);
                }
            }
            assert forall|a: int| 0 <= a < self.lists@.len() implies distinct_texts(
                #[trigger] self.lists@[a]@,
            ) by {
                if a < old_lists.len() {
                    assert(self.lists@[a] == old_lists[a]);
                }
            }
            assert(code_pos(v, entry.code@) is None);
            assert(self@ =~= inserted(v, entry));
        }
    }

    /// Builds a lexicon from entries: they are inserted in order, and then every code's list is
    /// sorted by descending prior, equal priors keeping insertion order. The texts of a list are
    /// already distinct, so no adjacent duplicates remain to collapse.
    pub fn from_entries(entries: Vec<LexiconEntry>) -> (lexicon: Self)
        ensures
            lexicon.wf(),
            lists_sorted_from(lexicon@, inserted_all(entries@, entries@.len() as int)),
            lexicon.syllable_set() == code_syllables(entries@, entries@.len() as int),
    {
        let mut lexicon = Lexicon::new();
        let n = entries.len();
        let ghost all = entries@;
        let mut entries = entries;
        let mut rev: Vec<LexiconEntry> = Vec::new();
        while entries.len() > 0
            invariant
                rev@.len() + entries@.len() == all.len(),
                forall|i: int| 0 <= i < entries@.len() ==> #[trigger] entries@[i] == all[i],
                forall|i: int| 0 <= i < rev@.len() ==> #[trigger] rev@[i] == all[all.len() - 1 - i],
            decreases entries.len(),
        {
            let e = entries.pop().unwrap();
            rev.push(e);
        }
        let mut k: usize = 0;
        while rev.len() > 0
            invariant
                lexicon.wf(),
                n == all.len(),
                k + rev@.len() == all.len(),
                forall|i: int| 0 <= i < rev@.len() ==> #[trigger] rev@[i] == all[all.len() - 1 - i],
                lexicon@ == inserted_all(all, k as int),
                lexicon.syllable_set() == code_syllables(all, k as int),
            decreases rev.len(),
        {
            let e = rev.pop().unwrap();
            assert(e == all[k as int]);
            lexicon.insert(e);
            k = k + 1;
        }
        let ghost unsorted = lexicon@;
        let mut i: usize = 0;
        while i < lexicon.lists.len()
            invariant
                lexicon.wf(),
                i <= lexicon.lists@.len(),
                lexicon@.len() == unsorted.len(),
                lexicon.syllable_set() == code_syllables(all, all.len() as int),
                forall|j: int| 0 <= j < unsorted.len() ==> (#[trigger] lexicon@[j]).0 == unsorted[j].0,
                forall|j: int| 0 <= j < i ==> sorted_by_prior((#[trigger] lexicon@[j]).1, unsorted[j].1),
                forall|j: int| i <= j < unsorted.len() ==> (#[trigger] lexicon@[j]).1 == unsorted[j].1,
            decreases lexicon.lists.len() - i,
        {
            let ghost before = lexicon@;
            let ghost old_lists = lexicon.lists@;
            let list = lexicon.lists.remove(i);
            let sorted = sort_by_prior(list);
            lexicon.lists.insert(i, sorted);
            proof {
                assert(lexicon.lists@ =~= old_lists.update(i as int, sorted));
                assert forall|j: int| 0 <= j < lexicon@.len() implies (#[trigger] lexicon@[j]).0
                    == before[j].0 && (j != i ==> lexicon@[j].1 == before[j].1) && (j == i
                    ==> lexicon@[j].1 == sorted@) by {
                    if j != i {
                        assert(lexicon.lists@[j] == old_lists[j]);
                    }
                }
            }
            i = i + 1;
        }
        proof {
            assert(lists_sorted_from(lexicon@, unsorted));
        }
        lexicon
    }

    /// Exact-match lookup for a segmented syllable sequence such as `["bu", "ru"]`.
    pub fn entries_for(&self, syllables: &[&str]) -> (entries: Vec<LexiconEntry>)
        requires
            self.wf(),
        ensures
            entries@ == (if syllable_key(syllables@.map_values(|s: &str| s@)).len() == 0 {
                seq![]
            } else {
                lookup(self@, syllable_key(syllables@.map_values(|s: &str| s@)))
            }),
    {
        let key = join_syllables(syllables);
        if key.as_str().unicode_len() == 0 {
            return Vec::new();
        }
        self.entries_for_key(&key)
    }

    /// The entries stored under `key`.
    pub fn entries_for_key(&self, key: &String) -> (entries: Vec<LexiconEntry>)
        requires
            self.wf(),
        ensures
            entries@ == lookup(self@, key@),
    {
        let mut i: usize = 0;
        while i < self.codes.len()
            invariant
                self.wf(),
                i <= self.codes@.len(),
                forall|j: int| 0 <= j < i ==> (#[trigger] self@[j]).0 != key@,
            decreases self.codes.len() - i,
        {
            if self.codes[i] == *key {
                assert(self@[i as int].0 == key@);
                proof {
                    assert(code_pos(self@, key@) == Some(i as int)) by {
                        let c = choose|j: int| 0 <= j < self@.len() && (#[trigger] self@[j]).0 == key@;
                        if c != i {
                            assert(self.codes@[c]@ == self.codes@[i as int]@);
                        }
                    }
                }
                return clone_entries(&self.lists[i]);
            }
            i = i + 1;
        }
        assert(code_pos(self@, key@) is None);
        Vec::new()
    }

    /// The highest-prior entries over all codes: all entries sorted by descending prior (equal
    /// priors in code order), adjacent duplicates by text collapsed, at most `max_entries`.
    pub fn top_entries(&self, max_entries: usize) -> (entries: Vec<LexiconEntry>)
        requires
            self.wf(),
        ensures
            exists|sorted: Seq<LexiconEntry>|
                sorted_by_prior(sorted, flattened(self@, self@.len() as int)) && entries@
                    == dedup_text(sorted).take(
                    if dedup_text(sorted).len() < max_entries {
                        dedup_text(sorted).len() as int
                    } else {
                        max_entries as int
                    },
                ),
    {
        let mut all: Vec<LexiconEntry> = Vec::new();
        let mut i: usize = 0;
        while i < self.lists.len()
            invariant
                self.wf(),
                i <= self.lists@.len(),
                all@ == flattened(self@, i as int),
            decreases self.lists.len() - i,
        {
            let list = clone_entries(&self.lists[i]);
            let mut j: usize = 0;
            let ghost base = all@;
            while j < list.len()
                invariant
                    j <= list@.len(),
                    all@ == base + list@.take(j as int),
                decreases list.len() - j,
            {
                all.push(list[j].clone());
                proof {
                    assert(list@.take(j + 1) =~= list@.take(j as int).push(list@[j as int]));
                }
                j = j + 1;
            }
            proof {
                assert(list@.take(list@.len() as int) =~= list@);
                assert(self@[i as int].1 == self.lists@[i as int]@);
            }
            i = i + 1;
        }
        let sorted = sort_by_prior(all);
        let mut result = dedup_by_text(&sorted);
        if result.len() > max_entries {
            result.truncate(max_entries);
        }
        proof {
            let d = dedup_text(sorted@);
            if d.len() < max_entries {
                assert(d.take(d.len() as int) =~= d);
            }
            assert(sorted_by_prior(sorted@, flattened(self@, self@.len() as int)));
        }
        result
    }

    /// Valid pinyin syllables derived from the dictionary codes.
    pub fn syllables(&self) -> (s: &Vec<String>)
        ensures
            s@.map_values(|x: String| x@).to_set() == self.syllable_set(),
    {
        &self.syllables
    }

    /// Adds one syllable to the syllable list unless it is present.
    fn add_syllable(&mut self, syllable: &String)
        requires
            old(self).wf(),
        ensures
            final(self).wf(),
            final(self)@ == old(self)@,
            final(self).syllable_set() == old(self).syllable_set().insert(syllable@),
    {
        let mut i: usize = 0;
        while i < self.syllables.len()
            invariant
                self.wf(),
                self == old(self),
                i <= self.syllables@.len(),
                forall|j: int| 0 <= j < i ==> (#[trigger] self.syllables@[j])@ != syllable@,
            decreases self.syllables.len() - i,
        {
            if self.syllables[i] == *syllable {
                proof {
                    let sv = self.syllables@.map_values(|s: String| s@);
                    assert(sv[i as int] == syllable@);
                    assert(self.syllable_set() =~= old(self).syllable_set().insert(syllable@));
                }
                return;
            }
            i = i + 1;
        }
        let ghost old_sv = self.syllables@.map_values(|s: String| s@);
        let ghost old_syl = self.syllables@;
        self.syllables.push(syllable.clone());
        proof {
            let sv = self.syllables@.map_values(|s: String| s@);
            assert(sv =~= old_sv.push(syllable@));
            lemma_push_to_set(old_sv, syllable@);
            assert forall|a: int, b: int| 0 <= a < b < self.syllables@.len() implies (
            #[trigger] self.syllables@[a])@ != (#[trigger] self.syllables@[b])@ by {
                if b == old_syl.len() {
                    assert(self.syllables@[a] == old_syl[a]);
                } else {
                    assert(self.syllables@[a] == old_syl[a]);
                    assert(self.syllables@[b] == old_syl[b]);
                }
            }
            assert(self.syllable_set() =~= old(self).syllable_set().insert(syllable@));
        }
    }
}

/// A copy of an entry list.
fn clone_entries(list: &Vec<LexiconEntry>) -> (r: Vec<LexiconEntry>)
    ensures
        r@ == list@,
{
    let mut r: Vec<LexiconEntry> = Vec::new();
    let mut j: usize = 0;
    while j < list.len()
        invariant
            j <= list@.len(),
            r@ == list@.take(j as int),
        decreases list.len() - j,
    {
        r.push(list[j].clone());
        proof {
            assert(list@.take(j + 1) =~= list@.take(j as int).push(list@[j as int]));
        }
        j = j + 1;
    }
    assert(list@.take(list@.len() as int) =~= list@);
    r
}

/// `list` stably sorted by descending prior.
pub fn sort_by_prior(list: Vec<LexiconEntry>) -> (sorted: Vec<LexiconEntry>)
    ensures
        sorted_by_prior(sorted@, list@),
        distinct_texts(list@) ==> distinct_texts(sorted@),
{
    let mut keys: Vec<i128> = Vec::new();
    let mut j: usize = 0;
    while j < list.len()
        invariant
            j <= list@.len(),
            keys@.len() == j,
            forall|k: int| 0 <= k < j ==> #[trigger] keys@[k] as int == total_key(list@[k].prior_bits),
        decreases list.len() - j,
    {
        keys.push(total_order_key(list[j].prior_bits) as i128);
        j = j + 1;
    }
    let ghost inp = list@;
    let (sorted, out_keys, Ghost(idx)) = sort_desc_stable(list, keys);
    proof {
        assert(keys@.map_values(|k: i128| k as int) =~= prior_keys(inp));
        let ok = out_keys@.map_values(|k: i128| k as int);
        assert forall|k: int| 0 <= k < sorted@.len() implies ok[k] == #[trigger] prior_keys(sorted@)[k] by {
            assert(ok[k] == prior_keys(inp)[idx[k]]);
        }
        assert(ok =~= prior_keys(sorted@));
        assert(stable_desc(sorted@, prior_keys(sorted@), inp, prior_keys(inp), idx));
        if distinct_texts(inp) {
            assert forall|a: int, b: int| 0 <= a < b < sorted@.len() implies (
            #[trigger] sorted@[a]).text@ != (#[trigger] sorted@[b]).text@ by {
                if idx[a] < idx[b] {
                    assert(inp[idx[a]].text@ != inp[idx[b]].text@);
                } else {
                    assert(inp[idx[b]].text@ != inp[idx[a]].text@);
                }
            }
        }
    }
    sorted
}

/// Collapses adjacent entries with equal texts into the first of them.
fn dedup_by_text(s: &Vec<LexiconEntry>) -> (r: Vec<LexiconEntry>)
    ensures
        r@ == dedup_text(s@),
{
    let mut r: Vec<LexiconEntry> = Vec::new();
    let mut j: usize = 0;
    while j < s.len()
        invariant
            j <= s@.len(),
            r@ == dedup_text(s@.take(j as int)),
        decreases s.len() - j,
    {
        proof {
            assert(s@.take(j + 1).drop_last() =~= s@.take(j as int));
        }
        if r.len() > 0 && r[r.len() - 1].text == s[j].text {
        } else {
            r.push(s[j].clone());
        }
        j = j + 1;
    }
    assert(s@.take(s@.len() as int) =~= s@);
    r
}

/// The lookup key of a syllable sequence, as [`syllable_key`] defines it.
pub fn join_syllables(syllables: &[&str]) -> (key: String)
    ensures
        key@ == syllable_key(syllables@.map_values(|s: &str| s@)),
{
    let ghost parts = syllables@.map_values(|s: &str| s@);
    let mut key = String::new();
    let mut count: usize = 0;
    let mut i: usize = 0;
    while i < syllables.len()
        invariant
            i <= syllables@.len(),
            parts == syllables@.map_values(|s: &str| s@),
            key@ == syllable_key(parts.take(i as int)),
            count == key_parts(parts.take(i as int)).len(),
            count <= i,
        decreases syllables.len() - i,
    {
        proof {
            assert(parts.take(i + 1).drop_last() =~= parts.take(i as int));
            assert(parts.take(i + 1).last() == syllables@[i as int]@);
        }
        let chars = chars_of(syllables[i]);
        if chars.len() > 0 {
            let mut lower: Vec<char> = Vec::new();
            let mut j: usize = 0;
            while j < chars.len()
                invariant
                    j <= chars@.len(),
                    lower@ == chars@.take(j as int).map_values(|c: char| ascii_lower(c)),
                decreases chars.len() - j,
            {
                lower.push(to_ascii_lower(chars[j]));
                proof {
                    assert(chars@.take(j + 1).map_values(|c: char| ascii_lower(c)) =~= chars@.take(
                        j as int,
                    ).map_values(|c: char| ascii_lower(c)).push(ascii_lower(chars@[j as int])));
                }
                j = j + 1;
            }
            proof {
                assert(chars@.take(chars@.len() as int) =~= chars@);
            }
            let ghost prev_key = key@;
            let ghost prev_parts = key_parts(parts.take(i as int));
            if count > 0 {
                push_char(&mut key, ' ');
            }
            let word = string_from_chars(&lower);
            key.append(word.as_str());
            proof {
                let kp = key_parts(parts.take(i + 1));
                assert(kp == prev_parts.push(lower@));
                assert(kp.drop_last() =~= prev_parts);
                if count == 0 {
                    assert(key@ =~= crate::syllable::joined(kp));
                } else {
                    assert(key@ =~= crate::syllable::joined(kp));
                }
            }
            count = count + 1;
        }
        i = i + 1;
    }
    proof {
        assert(parts.take(syllables@.len() as int) =~= parts);
    }
    key
}

/// Inserts `entry` into one code's list.
#[verifier::loop_isolation(false)]
fn insert_into_list(list: &mut Vec<LexiconEntry>, entry: LexiconEntry)
    requires
        distinct_texts(old(list)@),
    ensures
        distinct_texts(final(list)@),
        final(list)@ == list_inserted(old(list)@, entry),
{
    let ghost l = list@;
    let mut j: usize = 0;
    while j < list.len()
        invariant
            list@ == l,
            distinct_texts(l),
            j <= l.len(),
            forall|k: int| 0 <= k < j ==> (#[trigger] l[k]).text@ != entry.text@,
        decreases list.len() - j,
    {
        if list[j].text == entry.text {
            proof {
                assert(text_pos(l, entry.text@) == Some(j as int)) by {
                    let c = choose|k: int| 0 <= k < l.len() && (#[trigger] l[k]).text@ == entry.text@;
                    if c != j {
                        assert(l[c].text@ == l[j as int].text@);
                    }
                }
            }
            if float_greater(entry.prior_bits, list[j].prior_bits) {
                let mut existing = list[j].clone();
                existing.prior_bits = entry.prior_bits;
                list.set(j, existing);
                proof {
                    assert forall|a: int, b: int| 0 <= a < b < list@.len() implies (
                    #[trigger] list@[a]).text@ != (#[trigger] list@[b]).text@ by {
                        assert(list@[a].text@ == l[a].text@);
                        assert(list@[b].text@ == l[b].text@);
                    }
                    assert(list@ =~= list_inserted(l, entry));
                }
            } else {
                assert(list@ == list_inserted(l, entry));
            }
            return;
        }
        j = j + 1;
    }
    proof {
        assert(text_pos(l, entry.text@) is None);
    }
    list.push(entry);
    proof {
        assert forall|a: int, b: int| 0 <= a < b < list@.len() implies (#[trigger] list@[a]).text@
            != (#[trigger] list@[b]).text@ by {
            if b == l.len() {
                assert(l[a].text@ != entry.text@);
            }
        }
    }
}

} // verus!
