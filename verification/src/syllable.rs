//! Pinyin syllable table and segmentation of composition input into syllable edges.
//!
//! Positions are letter indices into the composition input, which holds ASCII letters and
//! apostrophes (forced syllable boundaries that consume no letters).
use vstd::prelude::*;
use vstd::string::*;
use crate::text::{
    apostrophe, chars_of, push_char, string_from_range, lemma_lex_order, lex_less, lex_lt, match_at, matches_at,
};

verus! {

/// A syllable that occurs in the input between two letter positions.
#[derive(Debug, Clone, PartialEq)]
pub struct SyllableEdge {
    /// Letter index where the syllable starts.
    pub start: usize,
    /// Letter index after the last letter of the syllable.
    pub end: usize,
    pub syllable: String,
}

impl View for SyllableEdge {
    type V = (int, int, Seq<char>);

    open spec fn view(&self) -> (int, int, Seq<char>) {
        (self.start as int, self.end as int, self.syllable@)
    }
}

/// The views of a sequence of edges.
pub open spec fn edge_views(edges: Seq<SyllableEdge>) -> Seq<(int, int, Seq<char>)> {
    edges.map_values(|e: SyllableEdge| e@)
}

/// The valid syllables, non-empty, distinct and in sorted order.
#[derive(Debug)]
pub struct SyllableTable {
    syllables: Vec<String>,
    letters: Vec<Vec<char>>,
}

impl View for SyllableTable {
    type V = Seq<Seq<char>>;

    closed spec fn view(&self) -> Seq<Seq<char>> {
        self.letters@.map_values(|v: Vec<char>| v@)
    }
}

/// Non-empty syllables, strictly increasing in `lex_lt` order.
pub open spec fn sorted_syllables(t: Seq<Seq<char>>) -> bool {
    &&& forall|i: int| 0 <= i < t.len() ==> #[trigger] t[i].len() > 0
    &&& forall|i: int, j: int| 0 <= i < j < t.len() ==> lex_lt(#[trigger] t[i], #[trigger] t[j])
}

/// One segmentation step from position `q` reaches `p`: an apostrophe is skipped, otherwise a
/// syllable of the table matches at `q` and ends at `p`.
pub open spec fn step(t: Seq<Seq<char>>, input: Seq<char>, q: int, p: int) -> bool {
    &&& 0 <= q < input.len()
    &&& if input[q] == apostrophe() {
        p == q + 1
    } else {
        exists|i: int| 0 <= i < t.len() && matches_at(t[i], input, q) && p == q + t[i].len()
    }
}

/// Position `p` is reached from position 0 by segmentation steps.
pub open spec fn reachable(t: Seq<Seq<char>>, input: Seq<char>, p: int) -> bool
    decreases p, 1int, 0int,
{
    p == 0 || (0 < p && reached_below(t, input, p, p))
}

/// Some reachable position below `min(q, p)` steps to `p`.
pub open spec fn reached_below(t: Seq<Seq<char>>, input: Seq<char>, p: int, q: int) -> bool
    decreases p, 0int, q,
{
    if q <= 0 || p <= 0 {
        false
    } else if q > p {
        reached_below(t, input, p, p)
    } else {
        reached_below(t, input, p, q - 1) || (reachable(t, input, q - 1) && step(
            t,
            input,
            q - 1,
            p,
        ))
    }
}

/// The edges of table syllables `t[0..k]` that match at `p`, in table order.
pub open spec fn edges_at(t: Seq<Seq<char>>, input: Seq<char>, p: int, k: int) -> Seq<
    (int, int, Seq<char>),
>
    decreases k,
{
    if k <= 0 {
        seq![]
    } else {
        let prev = edges_at(t, input, p, k - 1);
        if matches_at(t[k - 1], input, p) {
            prev.push((p, p + t[k - 1].len(), t[k - 1]))
        } else {
            prev
        }
    }
}

/// All edges that start before position `k`: for every reachable position that is not an
/// apostrophe, the syllables matching there, by start position and then in table order.
pub open spec fn all_edges(t: Seq<Seq<char>>, input: Seq<char>, k: int) -> Seq<
    (int, int, Seq<char>),
>
    decreases k,
{
    if k <= 0 {
        seq![]
    } else {
        let prev = all_edges(t, input, k - 1);
        if reachable(t, input, k - 1) && input[k - 1] != apostrophe() {
            prev + edges_at(t, input, k - 1, t.len() as int)
        } else {
            prev
        }
    }
}

impl SyllableTable {
    /// The table is well formed: syllables non-empty, distinct and sorted.
    pub closed spec fn wf(&self) -> bool {
        &&& self.syllables@.len() == self.letters@.len()
        &&& forall|i: int|
            0 <= i < self.letters@.len() ==> #[trigger] self.letters@[i]@ == self.syllables@[i]@
        &&& sorted_syllables(self@)
    }

    /// Builds the table from a list of syllables: empty strings are dropped, duplicates
    /// collapse, and the result is sorted.
    pub fn from_set(syllables: &Vec<String>) -> (table: Self)
        ensures
            table.wf(),
            sorted_syllables(table@),
            forall|s: Seq<char>|
                #![trigger table@.contains(s)]
                table@.contains(s) <==> (s.len() > 0 && exists|i: int|
                    0 <= i < syllables@.len() && #[trigger] syllables@[i]@ == s),
    {
        let mut table = SyllableTable { syllables: Vec::new(), letters: Vec::new() };
        let mut k: usize = 0;
        while k < syllables.len()
            invariant
                k <= syllables@.len(),
                table.wf(),
                forall|s: Seq<char>|
                    #![trigger table@.contains(s)]
                    table@.contains(s) <==> (s.len() > 0 && exists|i: int|
                        0 <= i < k && #[trigger] syllables@[i]@ == s),
            decreases syllables.len() - k,
        {
            let letters = chars_of(syllables[k].as_str());
            if letters.len() > 0 {
                table.insert_sorted(syllables[k].clone(), letters);
            }
            proof {
                assert forall|s: Seq<char>|
                    #![trigger table@.contains(s)]
                    table@.contains(s) <==> (s.len() > 0 && exists|i: int|
                        0 <= i < k + 1 && #[trigger] syllables@[i]@ == s) by {
                    if s.len() > 0 && exists|i: int|
                        0 <= i < k + 1 && #[trigger] syllables@[i]@ == s {
                        let i = choose|i: int| 0 <= i < k + 1 && #[trigger] syllables@[i]@ == s;
                        if i < k {
                            assert(syllables@[i]@ == s);
                        }
                    }
                }
            }
            k = k + 1;
        }
        table
    }

    /// Inserts `syllable` at its sorted position unless it is already present.
    fn insert_sorted(&mut self, syllable: String, letters: Vec<char>)
        requires
            old(self).wf(),
            letters@ == syllable@,
            letters@.len() > 0,
        ensures
            final(self).wf(),
            forall|s: Seq<char>|
                #![trigger final(self)@.contains(s)]
                final(self)@.contains(s) <==> (old(self)@.contains(s) || s == letters@),
    {
        let ghost t = self@;
        let mut k: usize = 0;
        while k < self.letters.len() && lex_less(&self.letters[k], &letters)
            invariant
                self.wf(),
                self@ == t,
                k <= self.letters@.len(),
                forall|i: int| 0 <= i < k ==> lex_lt(#[trigger] t[i], letters@),
            decreases self.letters.len() - k,
        {
            k = k + 1;
        }
        if k < self.letters.len() && vec_chars_eq(&self.letters[k], &letters) {
            assert(t[k as int] == letters@);
            assert(self@.contains(letters@));
            return;
        }
        proof {
            if k < t.len() {
                lemma_lex_order(t[k as int], letters@, letters@);
                assert(lex_lt(letters@, t[k as int]));
                assert forall|j: int| k <= j < t.len() implies lex_lt(letters@, #[trigger] t[j]) by {
                    if j > k {
                        lemma_lex_order(letters@, t[k as int], t[j]);
                    }
                }
            }
        }
        self.syllables.insert(k, syllable);
        self.letters.insert(k, letters);
        proof {
            let nt = self@;
            assert(nt =~= t.insert(k as int, letters@));
            assert forall|s: Seq<char>|
                #![trigger nt.contains(s)]
                nt.contains(s) <==> (t.contains(s) || s == letters@) by {
                if nt.contains(s) {
                    let i = choose|i: int| 0 <= i < nt.len() && nt[i] == s;
                    if i < k {
                        assert(t[i] == s);
                    } else if i > k {
                        assert(t[i - 1] == s);
                    }
                }
                if t.contains(s) {
                    let i = choose|i: int| 0 <= i < t.len() && t[i] == s;
                    if i < k {
                        assert(nt[i] == s);
                    } else {
                        assert(nt[i + 1] == s);
                    }
                }
                if s == letters@ {
                    assert(nt[k as int] == s);
                }
            }
        }
    }

    /// Index of the longest syllable matching at `p` (the first of that length), if any.
    fn longest_at(&self, input: &Vec<char>, p: usize) -> (r: Option<usize>)
        requires
            self.wf(),
        ensures
            match r {
                Some(j) => j < self@.len() && longest_match(self@, input@, p as int, self@.len() as int) == Some(self@[j as int]),
                None => longest_match(self@, input@, p as int, self@.len() as int) is None,
            },
    {
        let mut best: Option<usize> = None;
        let mut j: usize = 0;
        while j < self.letters.len()
            invariant
                self.wf(),
                j <= self@.len(),
                match best {
                    Some(b) => b < j && longest_match(self@, input@, p as int, j as int) == Some(self@[b as int]),
                    None => longest_match(self@, input@, p as int, j as int) is None,
                },
            decreases self.letters.len() - j,
        {
            if match_at(&self.letters[j], input, p) {
                match best {
                    None => { best = Some(j); },
                    Some(b) => {
                        if self.letters[j].len() > self.letters[b].len() {
                            best = Some(j);
                        }
                    },
                }
            }
            j = j + 1;
        }
        best
    }

    /// All syllable edges reachable from position 0. Apostrophes are forced syllable
    /// boundaries that consume no letters. The input is a composition, which the state machine
    /// keeps ASCII (normalized to lowercase letters and apostrophes), so letter positions are
    /// character positions.
    pub fn edges(&self, input: &str) -> (result: Vec<SyllableEdge>)
        requires
            self.wf(),
            input.is_ascii(),
        ensures
            edge_views(result@) == all_edges(self@, input@, input@.len() as int),
    {
        let chars = chars_of(input);
        let n = chars.len();
        let ghost t = self@;
        let mut reach: Vec<bool> = Vec::new();
        reach.push(true);
        let mut r: usize = 0;
        while r < n
            invariant
                r <= n,
                n == chars@.len(),
                reach@.len() == r + 1,
                forall|p: int| 0 <= p <= r ==> reach@[p] == (p == 0),
            decreases n - r,
        {
            reach.push(false);
            r = r + 1;
        }
        let mut result: Vec<SyllableEdge> = Vec::new();
        let mut start: usize = 0;
        while start < n
            invariant
                self.wf(),
                t == self@,
                n == chars@.len(),
                chars@ == input@,
                start <= n,
                reach@.len() == n + 1,
                forall|p: int|
                    0 <= p <= n ==> #[trigger] reach@[p] == (p == 0 || reached_below(
                        t,
                        chars@,
                        p,
                        start as int,
                    )),
                edge_views(result@) == all_edges(t, chars@, start as int),
            decreases n - start,
        {
            proof {
                if start > 0 {
                    lemma_reached_below_clamp(t, chars@, start as int, start as int);
                }
            }
            if reach[start] {
                if chars[start] == '\'' {
                    reach.set(start + 1, true);
                    proof {
                        assert forall|p: int| 0 <= p <= n implies #[trigger] reach@[p] == (p == 0
                            || reached_below(t, chars@, p, start + 1)) by {
                            lemma_reached_below_next(t, chars@, p, start as int);
                        }
                        assert(edges_at(t, chars@, start as int, t.len() as int).len() >= 0);
                    }
                } else {
                    let ghost before = result@;
                    let mut j: usize = 0;
                    while j < self.letters.len()
                        invariant
                            self.wf(),
                            t == self@,
                            n == chars@.len(),
                            start < n,
                            chars@[start as int] != apostrophe(),
                            reachable(t, chars@, start as int),
                            j <= t.len(),
                            reach@.len() == n + 1,
                            forall|p: int|
                                0 <= p <= n ==> #[trigger] reach@[p] == (p == 0 || reached_below(
                                    t,
                                    chars@,
                                    p,
                                    start as int,
                                ) || (p > start && exists|i: int|
                                    0 <= i < j && matches_at(t[i], chars@, start as int) && p
                                        == start + t[i].len())),
                            edge_views(result@) == edge_views(before) + edges_at(
                                t,
                                chars@,
                                start as int,
                                j as int,
                            ),
                        decreases self.letters.len() - j,
                    {
                        let syl = &self.letters[j];
                        if match_at(syl, &chars, start) {
                            let end = start + syl.len();
                            reach.set(end, true);
                            let ghost old_result = result@;
                            result.push(
                                SyllableEdge {
                                    start,
                                    end,
                                    syllable: self.syllables[j].clone(),
                                },
                            );
                            proof {
                                assert(t[j as int] == self.syllables@[j as int]@);
                                assert(edge_views(result@) =~= edge_views(old_result).push(
                                    (start as int, end as int, t[j as int]),
                                ));
                                assert(edge_views(result@) =~= edge_views(before) + edges_at(
                                    t,
                                    chars@,
                                    start as int,
                                    j + 1,
                                ));
                            }
                        } else {
                            proof {
                                assert(edge_views(result@) =~= edge_views(before) + edges_at(
                                    t,
                                    chars@,
                                    start as int,
                                    j + 1,
                                ));
                            }
                        }
                        proof {
                            assert forall|p: int| 0 <= p <= n implies #[trigger] reach@[p] == (p
                                == 0 || reached_below(t, chars@, p, start as int) || (p > start
                                && exists|i: int|
                                0 <= i < j + 1 && matches_at(t[i], chars@, start as int) && p
                                    == start + t[i].len())) by {
                                if p > start && exists|i: int|
                                    0 <= i < j + 1 && matches_at(t[i], chars@, start as int) && p
                                        == start + t[i].len() {
                                    let i = choose|i: int|
                                        0 <= i < j + 1 && matches_at(t[i], chars@, start as int)
                                            && p == start + t[i].len();
                                    if i == j {
                                        assert(reach@[p]);
                                    }
                                }
                            }
                        }
                        j = j + 1;
                    }
                    proof {
                        assert forall|p: int| 0 <= p <= n implies #[trigger] reach@[p] == (p == 0
                            || reached_below(t, chars@, p, start + 1)) by {
                            lemma_reached_below_next(t, chars@, p, start as int);
                        }
                        assert(edge_views(result@) =~= all_edges(t, chars@, start + 1));
                    }
                }
            } else {
                proof {
                    assert forall|p: int| 0 <= p <= n implies #[trigger] reach@[p] == (p == 0
                        || reached_below(t, chars@, p, start + 1)) by {
                        lemma_reached_below_next(t, chars@, p, start as int);
                    }
                }
            }
            start = start + 1;
        }
        result
    }
}

/// The longest syllable of `t[0..k]` matching at `p`; among equally long ones the first.
pub open spec fn longest_match(t: Seq<Seq<char>>, input: Seq<char>, p: int, k: int) -> Option<
    Seq<char>,
>
    decreases k,
{
    if k <= 0 {
        None
    } else {
        let prev = longest_match(t, input, p, k - 1);
        if matches_at(t[k - 1], input, p) && (prev is None || t[k - 1].len() > prev->0.len()) {
            Some(t[k - 1])
        } else {
            prev
        }
    }
}

/// The display segments of `input[p..]`: apostrophes are skipped, the longest syllable at each
/// position is taken, and the first position where no syllable matches starts a verbatim tail
/// that runs to the end of the input.
pub open spec fn segments_from(t: Seq<Seq<char>>, input: Seq<char>, p: int) -> Seq<
    (int, int, Seq<char>),
>
    decreases input.len() - p,
{
    if p < 0 || p >= input.len() {
        seq![]
    } else if input[p] == apostrophe() {
        segments_from(t, input, p + 1)
    } else {
        match longest_match(t, input, p, t.len() as int) {
            Some(s) => if s.len() > 0 && p + s.len() <= input.len() {
                seq![(p, p + s.len(), s)] + segments_from(t, input, p + s.len())
            } else {
                seq![]
            },
            None => seq![(p, input.len() as int, input.subrange(p, input.len() as int))],
        }
    }
}

/// The texts of a list of segments.
pub open spec fn seg_texts(segs: Seq<(int, int, Seq<char>)>) -> Seq<Seq<char>> {
    segs.map_values(|seg: (int, int, Seq<char>)| seg.2)
}

/// The texts joined with single spaces.
pub open spec fn joined(texts: Seq<Seq<char>>) -> Seq<char>
    decreases texts.len(),
{
    if texts.len() == 0 {
        seq![]
    } else if texts.len() == 1 {
        texts[0]
    } else {
        joined(texts.drop_last()) + seq![' '] + texts.last()
    }
}

/// Display cursor for input cursor `c`, searching from segment `i` whose display form starts at
/// `off`; `total` is the display length used when the cursor lies past every segment.
pub open spec fn cursor_from(
    segs: Seq<(int, int, Seq<char>)>,
    c: int,
    i: int,
    off: int,
    total: int,
) -> int
    decreases segs.len() - i,
{
    if i < 0 || i >= segs.len() {
        total
    } else {
        let (s, e, text) = segs[i];
        let dend = off + text.len();
        if c < s {
            off
        } else if c < e {
            off + c - s
        } else if c == e {
            if i + 1 < segs.len() {
                dend + 1
            } else {
                dend
            }
        } else {
            cursor_from(segs, c, i + 1, dend + 1, total)
        }
    }
}

/// The spaced display form of `input`.
pub open spec fn preedit_of(t: Seq<Seq<char>>, input: Seq<char>) -> Seq<char> {
    joined(seg_texts(segments_from(t, input, 0)))
}

/// The display cursor that corresponds to input cursor `cursor`.
pub open spec fn preedit_cursor_of(t: Seq<Seq<char>>, input: Seq<char>, cursor: int) -> int {
    let segs = segments_from(t, input, 0);
    if segs.len() == 0 {
        0
    } else {
        let c = if cursor < input.len() {
            cursor
        } else {
            input.len() as int
        };
        cursor_from(segs, c, 0, 0, preedit_of(t, input).len() as int)
    }
}

/// The shape of the display segments: ordered, non-empty, within `[p, n]`, and each text is the
/// input between its bounds.
pub open spec fn segments_shaped(segs: Seq<(int, int, Seq<char>)>, input: Seq<char>, p: int) -> bool {
    &&& forall|i: int|
        0 <= i < segs.len() ==> p <= (#[trigger] segs[i]).0 < segs[i].1 <= input.len()
            && segs[i].2 == input.subrange(segs[i].0, segs[i].1)
    &&& forall|i: int| 0 <= i < segs.len() - 1 ==> (#[trigger] segs[i]).1 <= segs[i + 1].0
}

proof fn lemma_longest_match_matches(t: Seq<Seq<char>>, input: Seq<char>, p: int, k: int)
    ensures
        longest_match(t, input, p, k) matches Some(s) ==> matches_at(s, input, p),
    decreases k,
{
    if k > 0 {
        lemma_longest_match_matches(t, input, p, k - 1);
    }
}

proof fn lemma_segments_shaped(t: Seq<Seq<char>>, input: Seq<char>, p: int)
    requires
        0 <= p,
    ensures
        segments_shaped(segments_from(t, input, p), input, p),
    decreases input.len() - p,
{
    let segs = segments_from(t, input, p);
    if p >= input.len() {
    } else if input[p] == apostrophe() {
        lemma_segments_shaped(t, input, p + 1);
    } else {
        lemma_longest_match_matches(t, input, p, t.len() as int);
        match longest_match(t, input, p, t.len() as int) {
            Some(s) => {
                if s.len() > 0 {
                    lemma_segments_shaped(t, input, p + s.len());
                    let rest = segments_from(t, input, p + s.len());
                    assert(segs == seq![(p, p + s.len(), s)] + rest);
                    assert forall|i: int| 0 <= i < segs.len() - 1 implies (#[trigger] segs[i]).1
                        <= segs[i + 1].0 by {
                        if i > 0 {
                            assert(segs[i] == rest[i - 1]);
                        }
                    }
                    assert forall|i: int| 0 <= i < segs.len() implies p <= (#[trigger] segs[i]).0
                        < segs[i].1 <= input.len() && segs[i].2 == input.subrange(
                        segs[i].0,
                        segs[i].1,
                    ) by {
                        if i > 0 {
                            assert(segs[i] == rest[i - 1]);
                        }
                    }
                }
            },
            None => {
                assert forall|i: int, j: int|
                    0 <= i < segs.len() && 0 <= j < t.len() && matches_at(
                        #[trigger] t[j],
                        input,
                        (#[trigger] segs[i]).0,
                    ) implies t[j].len() <= segs[i].1 - segs[i].0 by {
                    assert(segs[i].0 == p);
                }
            },
        }
    }
}

/// Where text `i` starts once the texts are joined with single spaces.
pub open spec fn display_start(texts: Seq<Seq<char>>, i: int) -> int
    decreases i,
{
    if i <= 0 {
        0
    } else {
        display_start(texts, i - 1) + texts[i - 1].len() + 1
    }
}

proof fn lemma_display_start_prefix(texts: Seq<Seq<char>>, i: int)
    requires
        0 <= i < texts.len(),
    ensures
        display_start(texts.drop_last(), i) == display_start(texts, i),
        display_start(texts, i) >= 0,
    decreases i,
{
    if i > 0 {
        lemma_display_start_prefix(texts, i - 1);
    }
}

proof fn lemma_joined_len(texts: Seq<Seq<char>>)
    requires
        texts.len() > 0,
    ensures
        joined(texts).len() == display_start(texts, texts.len() - 1) + texts.last().len(),
        display_start(texts, texts.len() - 1) >= 0,
    decreases texts.len(),
{
    lemma_display_start_prefix(texts, texts.len() - 1);
    if texts.len() > 1 {
        let p = texts.drop_last();
        lemma_joined_len(p);
        lemma_display_start_prefix(texts, texts.len() - 2);
    }
}

proof fn lemma_end_before_last(segs: Seq<(int, int, Seq<char>)>, input: Seq<char>, i: int)
    requires
        segments_shaped(segs, input, 0),
        0 <= i < segs.len() - 1,
    ensures
        segs[i].1 < segs.last().1,
    decreases segs.len() - i,
{
    assert(segs[i].1 <= segs[i + 1].0);
    assert(segs[i + 1].0 < segs[i + 1].1);
    if i + 1 < segs.len() - 1 {
        lemma_end_before_last(segs, input, i + 1);
    }
}

#[verifier::spinoff_prover]
#[verifier::rlimit(30)]
proof fn lemma_cursor_from_order(
    segs: Seq<(int, int, Seq<char>)>,
    input: Seq<char>,
    c1: int,
    c2: int,
    i: int,
)
    requires
        segments_shaped(segs, input, 0),
        0 <= i < segs.len(),
        c1 <= c2,
    ensures
        ({
            let texts = seg_texts(segs);
            let total = joined(texts).len() as int;
            let off = display_start(texts, i);
            &&& off <= cursor_from(segs, c1, i, off, total)
            &&& cursor_from(segs, c1, i, off, total) <= cursor_from(segs, c2, i, off, total)
            &&& cursor_from(segs, c2, i, off, total) <= total
            &&& c2 >= segs.last().1 ==> cursor_from(segs, c2, i, off, total) == total
        }),
    decreases segs.len() - i,
{
    let texts = seg_texts(segs);
    lemma_joined_len(texts);
    let total = joined(texts).len() as int;
    let off = display_start(texts, i);
    let seg = segs[i];
    assert(texts[i] == seg.2);
    assert(seg.2 == input.subrange(seg.0, seg.1));
    assert(seg.2.len() == seg.1 - seg.0);
    if i + 1 < segs.len() {
        lemma_cursor_from_order(segs, input, c1, c2, i + 1);
        lemma_end_before_last(segs, input, i);
        assert(seg.1 <= segs[i + 1].0);
        assert(display_start(texts, i + 1) == off + seg.2.len() + 1);
        lemma_cursor_from_order(segs, input, c2, c2, i + 1);
        lemma_cursor_from_order(segs, input, c1, c1, i + 1);
    } else {
        assert(texts.last() == seg.2);
        assert(total == off + seg.2.len());
    }
}

proof fn lemma_end_before_start(segs: Seq<(int, int, Seq<char>)>, input: Seq<char>, k: int, i: int)
    requires
        segments_shaped(segs, input, 0),
        0 <= k < i < segs.len(),
    ensures
        segs[k].1 <= segs[i].0,
        k < i - 1 ==> segs[k].1 < segs[i].0,
    decreases i - k,
{
    assert(segs[k].1 <= segs[k + 1].0);
    if k + 1 < i {
        lemma_end_before_start(segs, input, k + 1, i);
        assert(segs[k + 1].0 < segs[k + 1].1);
    }
}

proof fn lemma_cursor_from_inside(
    segs: Seq<(int, int, Seq<char>)>,
    input: Seq<char>,
    c: int,
    k: int,
    i: int,
)
    requires
        segments_shaped(segs, input, 0),
        0 <= k <= i < segs.len(),
        segs[i].0 <= c < segs[i].1,
    ensures
        cursor_from(
            segs,
            c,
            k,
            display_start(seg_texts(segs), k),
            joined(seg_texts(segs)).len() as int,
        ) == display_start(seg_texts(segs), i) + c - segs[i].0,
    decreases i - k,
{
    let texts = seg_texts(segs);
    if k < i {
        lemma_end_before_start(segs, input, k, i);
        assert(segs[k].0 < segs[k].1);
        assert(texts[k] == segs[k].2);
        assert(segs[k].2 == input.subrange(segs[k].0, segs[k].1));
        lemma_cursor_from_inside(segs, input, c, k + 1, i);
    }
}

/// An input cursor inside a displayed segment keeps its offset from the segment's start: it
/// maps to where the segment starts in the display plus that offset.
pub proof fn law_cursor_inside_segment(t: Seq<Seq<char>>, input: Seq<char>, c: int, i: int)
    requires
        0 <= i < segments_from(t, input, 0).len(),
        segments_from(t, input, 0)[i].0 <= c < segments_from(t, input, 0)[i].1,
    ensures
        preedit_cursor_of(t, input, c) == display_start(seg_texts(segments_from(t, input, 0)), i)
            + c - segments_from(t, input, 0)[i].0,
{
    let segs = segments_from(t, input, 0);
    lemma_segments_shaped(t, input, 0);
    lemma_cursor_from_inside(segs, input, c, 0, i);
}

/// The display cursor lies within the display and at or after its start, never moves left
/// when the input cursor moves right, and sits at the display's end for an input cursor at or
/// past the end of the input; an empty display puts it at zero.
pub proof fn law_display_cursor(t: Seq<Seq<char>>, input: Seq<char>, c1: int, c2: int)
    requires
        c1 <= c2,
    ensures
        0 <= preedit_cursor_of(t, input, c1),
        preedit_cursor_of(t, input, c1) <= preedit_cursor_of(t, input, c2),
        preedit_cursor_of(t, input, c2) <= preedit_of(t, input).len(),
        c2 >= input.len() ==> preedit_cursor_of(t, input, c2) == preedit_of(t, input).len(),
        preedit_of(t, input).len() == 0 ==> preedit_cursor_of(t, input, c2) == 0,
{
    let segs = segments_from(t, input, 0);
    lemma_segments_shaped(t, input, 0);
    if segs.len() > 0 {
        let n = input.len() as int;
        let a = if c1 < n {
            c1
        } else {
            n
        };
        let b = if c2 < n {
            c2
        } else {
            n
        };
        lemma_cursor_from_order(segs, input, a, b, 0);
        let texts = seg_texts(segs);
        lemma_joined_len(texts);
        let last = segs.last();
        assert(texts.last() == last.2);
        assert(last.2 == input.subrange(last.0, last.1));
        assert(last.1 <= n);
    }
}

proof fn lemma_longest_match_longest(t: Seq<Seq<char>>, input: Seq<char>, p: int, k: int)
    requires
        0 <= k <= t.len(),
    ensures
        longest_match(t, input, p, k) is None ==> forall|j: int|
            0 <= j < k ==> !matches_at(#[trigger] t[j], input, p),
        longest_match(t, input, p, k) matches Some(s) ==> forall|j: int|
            0 <= j < k && matches_at(#[trigger] t[j], input, p) ==> t[j].len() <= s.len(),
    decreases k,
{
    if k > 0 {
        lemma_longest_match_longest(t, input, p, k - 1);
    }
}

proof fn lemma_segments_longest(t: Seq<Seq<char>>, input: Seq<char>, p: int)
    requires
        0 <= p,
    ensures
        forall|i: int, j: int|
            0 <= i < segments_from(t, input, p).len() && 0 <= j < t.len() && matches_at(
                #[trigger] t[j],
                input,
                (#[trigger] segments_from(t, input, p)[i]).0,
            ) ==> t[j].len() <= segments_from(t, input, p)[i].1 - segments_from(t, input, p)[i].0,
    decreases input.len() - p,
{
    let segs = segments_from(t, input, p);
    if p >= input.len() {
    } else if input[p] == apostrophe() {
        lemma_segments_longest(t, input, p + 1);
        assert(segs == segments_from(t, input, p + 1));
    } else {
        lemma_longest_match_longest(t, input, p, t.len() as int);
        lemma_longest_match_matches(t, input, p, t.len() as int);
        match longest_match(t, input, p, t.len() as int) {
            Some(s) => {
                if s.len() > 0 && p + s.len() <= input.len() {
                    lemma_segments_longest(t, input, p + s.len());
                    let rest = segments_from(t, input, p + s.len());
                    assert forall|i: int, j: int|
                        0 <= i < segs.len() && 0 <= j < t.len() && matches_at(
                            #[trigger] t[j],
                            input,
                            (#[trigger] segs[i]).0,
                        ) implies t[j].len() <= segs[i].1 - segs[i].0 by {
                        if i > 0 {
                            assert(segs[i] == rest[i - 1]);
                        }
                    }
                }
            },
            None => {
                assert forall|i: int, j: int|
                    0 <= i < segs.len() && 0 <= j < t.len() && matches_at(
                        #[trigger] t[j],
                        input,
                        (#[trigger] segs[i]).0,
                    ) implies t[j].len() <= segs[i].1 - segs[i].0 by {
                    assert(segs[i].0 == p);
                }
            },
        }
    }
}

/// Every segment of the display is a longest match: no syllable of the table that matches the
/// input where a segment starts is longer than that segment. (The verbatim tail starts where
/// no syllable matches at all.)
pub proof fn law_segments_are_longest(t: Seq<Seq<char>>, input: Seq<char>)
    ensures
        forall|i: int, j: int|
            0 <= i < segments_from(t, input, 0).len() && 0 <= j < t.len() && matches_at(
                #[trigger] t[j],
                input,
                (#[trigger] segments_from(t, input, 0)[i]).0,
            ) ==> t[j].len() <= segments_from(t, input, 0)[i].1 - segments_from(t, input, 0)[i].0,
{
    lemma_segments_longest(t, input, 0);
}

/// Display segments: `(start, end, text)` for each syllable or verbatim tail.
fn preedit_segments(input: &Vec<char>, table: &SyllableTable) -> (segs: Vec<(usize, usize, String)>)
    requires
        table.wf(),
    ensures
        seg_views(segs@) == segments_from(table@, input@, 0),
{
    let n = input.len();
    let ghost t = table@;
    let mut segs: Vec<(usize, usize, String)> = Vec::new();
    let mut position: usize = 0;
    while position < n
        invariant
            table.wf(),
            t == table@,
            n == input@.len(),
            position <= n,
            segments_from(t, input@, 0) == seg_views(segs@) + segments_from(
                t,
                input@,
                position as int,
            ),
        ensures
            position == n,
            segments_from(t, input@, 0) == seg_views(segs@) + segments_from(
                t,
                input@,
                position as int,
            ),
        decreases n - position,
    {
        if input[position] == '\'' {
            position = position + 1;
            continue;
        }
        let matched = table.longest_at(input, position);
        proof {
            lemma_longest_match_matches(t, input@, position as int, t.len() as int);
        }
        match matched {
            Some(j) => {
                let end = position + table.letters[j].len();
                let ghost old_segs = segs@;
                segs.push((position, end, table.syllables[j].clone()));
                proof {
                    assert(t[j as int] == table.syllables@[j as int]@);
                    assert(seg_views(segs@) =~= seg_views(old_segs).push(
                        (position as int, end as int, t[j as int]),
                    ));
                }
                position = end;
            },
            None => {
                let ghost old_segs = segs@;
                let tail = string_from_range(input, position, n);
                segs.push((position, n, tail));
                proof {
                    assert(seg_views(segs@) =~= seg_views(old_segs).push(
                        (position as int, n as int, input@.subrange(position as int, n as int)),
                    ));
                }
                position = n;
                break;
            },
        }
    }
    assert(position == n);
    assert(segments_from(t, input@, position as int) =~= Seq::<(int, int, Seq<char>)>::empty());
    assert(seg_views(segs@) + segments_from(t, input@, position as int) =~= seg_views(segs@));
    segs
}

/// The views of a list of display segments.
pub open spec fn seg_views(segs: Seq<(usize, usize, String)>) -> Seq<(int, int, Seq<char>)> {
    segs.map_values(|seg: (usize, usize, String)| (seg.0 as int, seg.1 as int, seg.2@))
}

/// Display form of the composition: the longest valid syllables from the start joined with
/// spaces, with the unsegmentable tail kept verbatim. The composition is ASCII, as the state
/// machine keeps it.
pub fn spaced_preedit(input: &str, table: &SyllableTable) -> (preedit: String)
    requires
        table.wf(),
        input.is_ascii(),
        input@.len() <= isize::MAX,
    ensures
        preedit@ == preedit_of(table@, input@),
{
    spaced_preedit_with_cursor(input, input.len(), table).0
}

/// Returns the display preedit and the cursor offset within that display.
///
/// The cursor indexes the raw pinyin input, while the display form inserts spaces and removes
/// apostrophe boundaries; every frontend uses this one offset convention. The composition is
/// ASCII, as the state machine keeps it.
pub fn spaced_preedit_with_cursor(input: &str, cursor: usize, table: &SyllableTable) -> (res: (
    String,
    usize,
))
    requires
        table.wf(),
        input.is_ascii(),
        input@.len() <= isize::MAX,
    ensures
        res.0@ == preedit_of(table@, input@),
        res.1 == preedit_cursor_of(table@, input@, cursor as int),
{
    let chars = chars_of(input);
    let n = chars.len();
    let segs = preedit_segments(&chars, table);
    let ghost t = table@;
    let ghost sv = seg_views(segs@);
    proof {
        lemma_segments_shaped(t, chars@, 0);
    }
    if segs.len() == 0 {
        return (String::new(), 0);
    }
    let mut preedit = String::new();
    let mut i: usize = 0;
    while i < segs.len()
        invariant
            sv == seg_views(segs@),
            segments_shaped(sv, chars@, 0),
            n == chars@.len(),
            i <= segs@.len(),
            preedit@ == joined(seg_texts(sv.take(i as int))),
        decreases segs.len() - i,
    {
        proof {
            let texts = seg_texts(sv.take(i + 1));
            assert(texts.drop_last() =~= seg_texts(sv.take(i as int)));
            assert(texts.last() == segs@[i as int].2@);
        }
        if i > 0 {
            push_char(&mut preedit, ' ');
        }
        preedit.append(segs[i].2.as_str());
        proof {
            let texts = seg_texts(sv.take(i + 1));
            if i == 0 {
                assert(texts.len() == 1);
            }
            assert(preedit@ =~= joined(texts));
        }
        i = i + 1;
    }
    proof {
        assert(sv.take(segs@.len() as int) =~= sv);
    }
    let total = preedit.as_str().unicode_len();
    let c = if cursor < n {
        cursor
    } else {
        n
    };
    let display = display_cursor(&segs, c, total, Ghost(chars@));
    (preedit, display)
}

/// The display cursor for input cursor `c` over shaped segments of `input`.
fn display_cursor(
    segs: &Vec<(usize, usize, String)>,
    c: usize,
    total: usize,
    Ghost(input): Ghost<Seq<char>>,
) -> (r: usize)
    requires
        segments_shaped(seg_views(segs@), input, 0),
        input.len() <= isize::MAX,
        c <= input.len(),
        segs@.len() > 0,
    ensures
        r == cursor_from(seg_views(segs@), c as int, 0, 0, total as int),
{
    let ghost sv = seg_views(segs@);
    let mut k: usize = 0;
    let mut off: usize = 0;
    while k < segs.len()
        invariant
            sv == seg_views(segs@),
            segments_shaped(sv, input, 0),
            input.len() <= isize::MAX,
            c <= input.len(),
            k <= segs@.len(),
            k < segs@.len() ==> off <= 2 * sv[k as int].0,
            cursor_from(sv, c as int, 0, 0, total as int) == cursor_from(
                sv,
                c as int,
                k as int,
                off as int,
                total as int,
            ),
        decreases segs.len() - k,
    {
        let s = segs[k].0;
        let e = segs[k].1;
        proof {
            assert(sv[k as int].2 == input.subrange(s as int, e as int));
            assert(sv[k as int].2.len() == e - s);
        }
        let dend = off + (e - s);
        if c < s {
            return off;
        }
        if c < e {
            return off + (c - s);
        }
        if c == e {
            if k + 1 < segs.len() {
                return dend + 1;
            } else {
                return dend;
            }
        }
        off = dend + 1;
        k = k + 1;
        proof {
            if k < segs@.len() {
                assert(sv[k - 1].1 <= sv[k as int].0);
            }
        }
    }
    total
}

/// Two sorted tables with the same syllables are the same table: the table depends on its
/// syllables only as a set.
pub proof fn law_sorted_table_unique(t1: Seq<Seq<char>>, t2: Seq<Seq<char>>)
    requires
        sorted_syllables(t1),
        sorted_syllables(t2),
        forall|s: Seq<char>|
            #![trigger t1.contains(s)]
            #![trigger t2.contains(s)]
            t1.contains(s) <==> t2.contains(s),
    ensures
        t1 == t2,
    decreases t1.len(),
{
    if t1.len() == 0 {
        if t2.len() > 0 {
            assert(t2.contains(t2[0]));
            assert(t1.contains(t2[0]));
        }
        assert(t1 =~= t2);
    } else if t2.len() == 0 {
        assert(t1.contains(t1[0]));
    } else {
        let a = t1[0];
        let b = t2[0];
        assert(t1.contains(a));
        assert(t2.contains(a));
        assert(t2.contains(b));
        assert(t1.contains(b));
        lemma_lex_order(a, b, a);
        lemma_lex_order(b, a, b);
        if a != b {
            let j = choose|j: int| 0 <= j < t2.len() && t2[j] == a;
            let k = choose|k: int| 0 <= k < t1.len() && t1[k] == b;
            assert(j > 0 && k > 0);
            assert(lex_lt(t2[0], t2[j]));
            assert(lex_lt(t1[0], t1[k]));
        }
        let r1 = t1.drop_first();
        let r2 = t2.drop_first();
        assert forall|s: Seq<char>|
            #![trigger r1.contains(s)]
            #![trigger r2.contains(s)]
            r1.contains(s) <==> r2.contains(s) by {
            if r1.contains(s) {
                let i = choose|i: int| 0 <= i < r1.len() && r1[i] == s;
                assert(t1[i + 1] == s);
                assert(lex_lt(t1[0], t1[i + 1]));
                assert(t1.contains(s));
                let m = choose|m: int| 0 <= m < t2.len() && t2[m] == s;
                assert(m != 0);
                assert(r2[m - 1] == s);
            }
            if r2.contains(s) {
                let i = choose|i: int| 0 <= i < r2.len() && r2[i] == s;
                assert(t2[i + 1] == s);
                assert(lex_lt(t2[0], t2[i + 1]));
                assert(t2.contains(s));
                let m = choose|m: int| 0 <= m < t1.len() && t1[m] == s;
                assert(m != 0);
                assert(r1[m - 1] == s);
            }
        }
        assert forall|i: int, j: int| 0 <= i < j < r1.len() implies lex_lt(
            #[trigger] r1[i],
            #[trigger] r1[j],
        ) by {
            assert(r1[i] == t1[i + 1] && r1[j] == t1[j + 1]);
        }
        assert forall|i: int, j: int| 0 <= i < j < r2.len() implies lex_lt(
            #[trigger] r2[i],
            #[trigger] r2[j],
        ) by {
            assert(r2[i] == t2[i + 1] && r2[j] == t2[j + 1]);
        }
        assert forall|i: int| 0 <= i < r1.len() implies #[trigger] r1[i].len() > 0 by {
            assert(r1[i] == t1[i + 1]);
        }
        assert forall|i: int| 0 <= i < r2.len() implies #[trigger] r2[i].len() > 0 by {
            assert(r2[i] == t2[i + 1]);
        }
        law_sorted_table_unique(r1, r2);
        assert(t1 =~= seq![a] + r1);
        assert(t2 =~= seq![b] + r2);
    }
}

proof fn lemma_edges_at(t: Seq<Seq<char>>, input: Seq<char>, p: int, k: int)
    requires
        sorted_syllables(t),
        0 <= k <= t.len(),
    ensures
        forall|i: int|
            0 <= i < edges_at(t, input, p, k).len() ==> {
                let e = #[trigger] edges_at(t, input, p, k)[i];
                &&& e.0 == p
                &&& e.1 == p + e.2.len()
                &&& matches_at(e.2, input, p)
                &&& exists|m: int| 0 <= m < k && #[trigger] t[m] == e.2
            },
        forall|i: int, j: int|
            0 <= i < j < edges_at(t, input, p, k).len() ==> lex_lt(
                (#[trigger] edges_at(t, input, p, k)[i]).2,
                (#[trigger] edges_at(t, input, p, k)[j]).2,
            ),
        forall|m: int|
            0 <= m < k && matches_at(#[trigger] t[m], input, p) ==> edges_at(t, input, p, k).contains(
                (p, p + t[m].len(), t[m]),
            ),
    decreases k,
{
    if k > 0 {
        lemma_edges_at(t, input, p, k - 1);
        let prev = edges_at(t, input, p, k - 1);
        let e = edges_at(t, input, p, k);
        if matches_at(t[k - 1], input, p) {
            assert forall|i: int| 0 <= i < e.len() implies {
                let x = #[trigger] e[i];
                &&& x.0 == p
                &&& x.1 == p + x.2.len()
                &&& matches_at(x.2, input, p)
                &&& exists|m: int| 0 <= m < k && #[trigger] t[m] == x.2
            } by {
                if i < prev.len() {
                    assert(e[i] == prev[i]);
                } else {
                    assert(t[k - 1] == e[i].2);
                }
            }
            assert forall|i: int, j: int| 0 <= i < j < e.len() implies lex_lt(
                (#[trigger] e[i]).2,
                (#[trigger] e[j]).2,
            ) by {
                assert(e[i] == prev[i]);
                if j < prev.len() {
                    assert(e[j] == prev[j]);
                } else {
                    let x = prev[i];
                    let m = choose|m: int| 0 <= m < k - 1 && #[trigger] t[m] == x.2;
                    assert(lex_lt(t[m], t[k - 1]));
                }
            }
            assert forall|m: int| 0 <= m < k && matches_at(#[trigger] t[m], input, p) implies e.contains(
                (p, p + t[m].len(), t[m]),
            ) by {
                if m < k - 1 {
                    let i = choose|i: int| 0 <= i < prev.len() && prev[i] == (p, p + t[m].len(), t[m]);
                    assert(e[i] == prev[i]);
                } else {
                    assert(e[e.len() - 1] == (p, p + t[m].len(), t[m]));
                }
            }
        } else {
            assert forall|i: int| 0 <= i < e.len() implies {
                let x = #[trigger] e[i];
                &&& x.0 == p
                &&& x.1 == p + x.2.len()
                &&& matches_at(x.2, input, p)
                &&& exists|m: int| 0 <= m < k && #[trigger] t[m] == x.2
            } by {
                let x = prev[i];
                let m = choose|m: int| 0 <= m < k - 1 && #[trigger] t[m] == x.2;
                assert(t[m] == x.2);
            }
        }
    }
}

/// The edges starting before `k`, by the syllables of the table that match at reachable
/// positions other than apostrophes.
proof fn lemma_all_edges(t: Seq<Seq<char>>, input: Seq<char>, k: int)
    requires
        sorted_syllables(t),
        0 <= k <= input.len(),
    ensures
        forall|i: int|
            0 <= i < all_edges(t, input, k).len() ==> {
                let e = #[trigger] all_edges(t, input, k)[i];
                &&& 0 <= e.0 < k
                &&& reachable(t, input, e.0)
                &&& input[e.0] != apostrophe()
                &&& t.contains(e.2)
                &&& matches_at(e.2, input, e.0)
                &&& e.1 == e.0 + e.2.len()
            },
        forall|i: int, j: int|
            0 <= i < j < all_edges(t, input, k).len() ==> {
                let a = #[trigger] all_edges(t, input, k)[i];
                let b = #[trigger] all_edges(t, input, k)[j];
                a.0 < b.0 || (a.0 == b.0 && lex_lt(a.2, b.2))
            },
        forall|q: int, s: Seq<char>|
            0 <= q < k && reachable(t, input, q) && input[q] != apostrophe() && #[trigger] t.contains(s)
                && #[trigger] matches_at(s, input, q) ==> all_edges(t, input, k).contains(
                (q, q + s.len(), s),
            ),
    decreases k,
{
    if k > 0 {
        lemma_all_edges(t, input, k - 1);
        let prev = all_edges(t, input, k - 1);
        let e = all_edges(t, input, k);
        let q = k - 1;
        if reachable(t, input, q) && input[q] != apostrophe() {
            let ea = edges_at(t, input, q, t.len() as int);
            lemma_edges_at(t, input, q, t.len() as int);
            assert(e == prev + ea);
            assert forall|i: int| 0 <= i < e.len() implies {
                let x = #[trigger] e[i];
                &&& 0 <= x.0 < k
                &&& reachable(t, input, x.0)
                &&& input[x.0] != apostrophe()
                &&& t.contains(x.2)
                &&& matches_at(x.2, input, x.0)
                &&& x.1 == x.0 + x.2.len()
            } by {
                if i < prev.len() {
                    assert(e[i] == prev[i]);
                } else {
                    assert(e[i] == ea[i - prev.len()]);
                    let m = choose|m: int| 0 <= m < t.len() && #[trigger] t[m] == ea[i - prev.len()].2;
                    assert(t.contains(t[m]));
                }
            }
            assert forall|i: int, j: int| 0 <= i < j < e.len() implies {
                let a = #[trigger] e[i];
                let b = #[trigger] e[j];
                a.0 < b.0 || (a.0 == b.0 && lex_lt(a.2, b.2))
            } by {
                if j < prev.len() {
                    assert(e[i] == prev[i] && e[j] == prev[j]);
                } else if i < prev.len() {
                    assert(e[i] == prev[i]);
                    assert(e[j] == ea[j - prev.len()]);
                } else {
                    assert(e[i] == ea[i - prev.len()]);
                    assert(e[j] == ea[j - prev.len()]);
                }
            }
            assert forall|r: int, s: Seq<char>|
                0 <= r < k && reachable(t, input, r) && input[r] != apostrophe() && #[trigger] t.contains(
                    s,
                ) && #[trigger] matches_at(s, input, r) implies e.contains((r, r + s.len(), s)) by {
                if r < k - 1 {
                    let i = choose|i: int| 0 <= i < prev.len() && prev[i] == (r, r + s.len(), s);
                    assert(e[i] == prev[i]);
                } else {
                    let m = choose|m: int| 0 <= m < t.len() && t[m] == s;
                    assert(matches_at(t[m], input, q));
                    let i = choose|i: int| 0 <= i < ea.len() && ea[i] == (q, q + t[m].len(), t[m]);
                    assert(e[prev.len() + i] == ea[i]);
                }
            }
        } else {
            assert forall|r: int, s: Seq<char>|
                0 <= r < k && reachable(t, input, r) && input[r] != apostrophe() && #[trigger] t.contains(
                    s,
                ) && #[trigger] matches_at(s, input, r) implies e.contains((r, r + s.len(), s)) by {
                assert(r < k - 1);
            }
        }
    }
}

/// The edges of an input are exactly the table syllables that match at a reachable position
/// other than an apostrophe, each ending where its letters end; they come ordered by start
/// and then by syllable, so none repeats.
pub proof fn law_edges_exact(t: Seq<Seq<char>>, input: Seq<char>)
    requires
        sorted_syllables(t),
    ensures
        forall|x: (int, int, Seq<char>)|
            #[trigger] all_edges(t, input, input.len() as int).contains(x) <==> {
                &&& 0 <= x.0 < input.len()
                &&& reachable(t, input, x.0)
                &&& input[x.0] != apostrophe()
                &&& t.contains(x.2)
                &&& matches_at(x.2, input, x.0)
                &&& x.1 == x.0 + x.2.len()
            },
        forall|i: int, j: int|
            0 <= i < j < all_edges(t, input, input.len() as int).len() ==> {
                let a = #[trigger] all_edges(t, input, input.len() as int)[i];
                let b = #[trigger] all_edges(t, input, input.len() as int)[j];
                a.0 < b.0 || (a.0 == b.0 && lex_lt(a.2, b.2))
            },
{
    let n = input.len() as int;
    lemma_all_edges(t, input, n);
    let e = all_edges(t, input, n);
    assert forall|x: (int, int, Seq<char>)| #[trigger] e.contains(x) <==> {
        &&& 0 <= x.0 < input.len()
        &&& reachable(t, input, x.0)
        &&& input[x.0] != apostrophe()
        &&& t.contains(x.2)
        &&& matches_at(x.2, input, x.0)
        &&& x.1 == x.0 + x.2.len()
    } by {
        if e.contains(x) {
            let i = choose|i: int| 0 <= i < e.len() && e[i] == x;
            assert(e[i] == x);
        }
        if 0 <= x.0 < input.len() && reachable(t, input, x.0) && input[x.0] != apostrophe()
            && t.contains(x.2) && matches_at(x.2, input, x.0) && x.1 == x.0 + x.2.len() {
            assert(e.contains((x.0, x.0 + x.2.len(), x.2)));
        }
    }
}

/// A syllable of the table that does not start with an apostrophe, typed on its own, yields
/// the edge that spans all of it.
pub proof fn law_syllable_spans_itself(t: Seq<Seq<char>>, s: Seq<char>)
    requires
        sorted_syllables(t),
        t.contains(s),
        s[0] != apostrophe(),
    ensures
        all_edges(t, s, s.len() as int).contains((0, s.len() as int, s)),
{
    let i = choose|i: int| 0 <= i < t.len() && t[i] == s;
    assert(t[i].len() > 0);
    assert(s.subrange(0, s.len() as int) =~= s);
    law_edges_exact(t, s);
}

/// Equality of two character vectors.
pub fn vec_chars_eq(a: &Vec<char>, b: &Vec<char>) -> (r: bool)
    ensures
        r == (a@ == b@),
{
    if a.len() != b.len() {
        return false;
    }
    let r = match_at(a, b, 0);
    proof {
        if r {
            assert(b@.subrange(0, a@.len() as int) =~= b@);
        } else {
            assert(a@.len() == b@.len());
            if a@ == b@ {
                assert(b@.subrange(0, a@.len() as int) =~= b@);
            }
        }
    }
    r
}

/// `reached_below` is unchanged by raising its bound past `p`.
proof fn lemma_reached_below_clamp(t: Seq<Seq<char>>, input: Seq<char>, p: int, q: int)
    requires
        0 < p <= q,
    ensures
        reached_below(t, input, p, q) == reached_below(t, input, p, p),
{
}

/// Raising the bound of `reached_below` from `q` to `q + 1` adds the steps from `q`.
proof fn lemma_reached_below_next(t: Seq<Seq<char>>, input: Seq<char>, p: int, q: int)
    requires
        0 <= q,
        0 <= p,
    ensures
        (p == 0 || reached_below(t, input, p, q + 1)) == (p == 0 || reached_below(t, input, p, q)
            || (reachable(t, input, q) && step(t, input, q, p))),
{
    if p > 0 && q + 1 > p {
        assert(reached_below(t, input, p, q + 1) == reached_below(t, input, p, p));
        if q >= p {
            assert(reached_below(t, input, p, q) == reached_below(t, input, p, p));
        }
    }
}

} // verus!
