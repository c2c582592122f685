//! Dictionary candidate lattice: word edges over syllable segmentations, completion
//! reachability, and candidate extraction.
use vstd::prelude::*;
use vstd::string::*;
use crate::lexicon::{Lexicon, LexiconEntry, lookup, syllable_key, join_syllables};
use crate::syllable::{
    all_edges, edge_views, joined, law_edges_exact, sorted_syllables, SyllableEdge, SyllableTable,
};
use crate::order::{float_gt, reorders, total_key};
use crate::text::{lemma_lex_order, lex_less, lex_lt, push_char};
use crate::user_freq::UserFreq;

verus! {

/// Menu size when the caller gives none.
pub const DEFAULT_MAX_CANDIDATES: usize = 16;

/// Longest word, in syllables.
pub const MAX_WORD_SYLLABLES: usize = 8;

/// Syllable paths explored from one start position.
pub const MAX_PATHS_PER_START: usize = 64;

/// Dictionary words taken per syllable code.
pub const MAX_WORDS_PER_CODE: usize = 32;

/// A menu candidate.
#[derive(Debug, PartialEq)]
pub struct Candidate {
    /// Stable across refreshes: `d:` + text, so the model rerank can echo the same id and the
    /// UI can preserve the selection.
    pub id: String,
    pub text: String,
    /// Syllable preedit of the first word, for example `bu ru`.
    pub preedit: String,
    /// Number of input letters consumed by the first word.
    pub consumedkeys: usize,
    /// Bit pattern of the `f32` base score (dictionary prior plus user frequency boost).
    pub base_score_bits: u32,
    pub kind: String,
}

impl Clone for Candidate {
    fn clone(&self) -> (r: Self)
        ensures
            r == *self,
    {
        Candidate {
            id: self.id.clone(),
            text: self.text.clone(),
            preedit: self.preedit.clone(),
            consumedkeys: self.consumedkeys,
            base_score_bits: self.base_score_bits,
            kind: self.kind.clone(),
        }
    }
}

/// A dictionary word spanning input letters `start..end`.
#[derive(Debug)]
pub struct WordEdge {
    pub start: usize,
    pub end: usize,
    pub entry: LexiconEntry,
}

impl View for WordEdge {
    type V = (int, int, LexiconEntry);

    open spec fn view(&self) -> (int, int, LexiconEntry) {
        (self.start as int, self.end as int, self.entry)
    }
}

/// The views of a list of word edges.
pub open spec fn word_views(w: Seq<WordEdge>) -> Seq<(int, int, LexiconEntry)> {
    w.map_values(|x: WordEdge| x@)
}

/// A queued syllable path: the position it reaches and its syllables.
pub type PathState = (int, Seq<Seq<char>>);

/// Appends to the queue, for each edge of `es[0..k]` that starts at `next`, the path extended
/// by that edge, unless a path with the same end and syllables was queued before.
pub open spec fn push_edges(
    es: Seq<(int, int, Seq<char>)>,
    k: int,
    next: int,
    syls: Seq<Seq<char>>,
    q: Seq<PathState>,
    v: Set<(int, Seq<char>)>,
) -> (Seq<PathState>, Set<(int, Seq<char>)>)
    decreases k,
{
    if k <= 0 {
        (q, v)
    } else {
        let (q1, v1) = push_edges(es, k - 1, next, syls, q, v);
        let e = es[k - 1];
        if e.0 == next {
            let ns = syls.push(e.2);
            if v1.contains((e.1, joined(ns))) {
                (q1, v1)
            } else {
                (q1.push((e.1, ns)), v1.insert((e.1, joined(ns))))
            }
        } else {
            (q1, v1)
        }
    }
}

/// The dictionary entries for a syllable path, at most [`MAX_WORDS_PER_CODE`].
pub open spec fn path_entries(lex: Seq<(Seq<char>, Seq<LexiconEntry>)>, syls: Seq<Seq<char>>) -> Seq<
    LexiconEntry,
> {
    let all = if syllable_key(syls).len() == 0 {
        seq![]
    } else {
        lookup(lex, syllable_key(syls))
    };
    if all.len() <= MAX_WORDS_PER_CODE {
        all
    } else {
        all.take(MAX_WORDS_PER_CODE as int)
    }
}

/// Breadth-first search over syllable paths from start `s`: each dequeued path contributes
/// its dictionary words; paths shorter than [`MAX_WORD_SYLLABLES`] are extended by the edges
/// at their end (and after an apostrophe there); at most [`MAX_PATHS_PER_START`] paths are
/// dequeued.
pub open spec fn bfs(
    es: Seq<(int, int, Seq<char>)>,
    input: Seq<char>,
    lex: Seq<(Seq<char>, Seq<LexiconEntry>)>,
    s: int,
    q: Seq<PathState>,
    v: Set<(int, Seq<char>)>,
    explored: int,
    words: Seq<(int, int, LexiconEntry)>,
) -> Seq<(int, int, LexiconEntry)>
    decreases MAX_PATHS_PER_START - explored,
{
    if q.len() == 0 || explored >= MAX_PATHS_PER_START {
        words
    } else {
        let (pos, syls) = q[0];
        let found = path_entries(lex, syls).map_values(|e: LexiconEntry| (s, pos, e));
        let rest = q.drop_first();
        if syls.len() >= MAX_WORD_SYLLABLES {
            bfs(es, input, lex, s, rest, v, explored + 1, words + found)
        } else {
            let (q1, v1) = push_edges(es, es.len() as int, pos, syls, rest, v);
            let (q2, v2) = if 0 <= pos < input.len() && input[pos] == '\'' {
                push_edges(es, es.len() as int, pos + 1, syls, q1, v1)
            } else {
                (q1, v1)
            };
            bfs(es, input, lex, s, q2, v2, explored + 1, words + found)
        }
    }
}

/// Some edge starts at `p`.
pub open spec fn has_start(es: Seq<(int, int, Seq<char>)>, p: int) -> bool {
    exists|i: int| 0 <= i < es.len() && (#[trigger] es[i]).0 == p
}

/// The word edges of every start position below `k`, by start position.
pub open spec fn word_edges_upto(
    es: Seq<(int, int, Seq<char>)>,
    input: Seq<char>,
    lex: Seq<(Seq<char>, Seq<LexiconEntry>)>,
    k: int,
) -> Seq<(int, int, LexiconEntry)>
    decreases k,
{
    if k <= 0 {
        seq![]
    } else {
        let prev = word_edges_upto(es, input, lex, k - 1);
        if has_start(es, k - 1) {
            prev + bfs(es, input, lex, k - 1, seq![(k - 1, seq![])], Set::empty(), 0, seq![])
        } else {
            prev
        }
    }
}

} // verus!

verus! {

/// The views of a list of strings.
pub open spec fn str_views(v: Seq<String>) -> Seq<Seq<char>> {
    v.map_values(|s: String| s@)
}

/// A copy of a list of strings.
pub fn clone_strings(v: &Vec<String>) -> (r: Vec<String>)
    ensures
        r@ == v@,
{
    let mut r: Vec<String> = Vec::new();
    let mut i: usize = 0;
    while i < v.len()
        invariant
            i <= v@.len(),
            r@ == v@.take(i as int),
        decreases v.len() - i,
    {
        r.push(v[i].clone());
        proof {
            assert(v@.take(i + 1) =~= v@.take(i as int).push(v@[i as int]));
        }
        i = i + 1;
    }
    assert(v@.take(v@.len() as int) =~= v@);
    r
}

/// The strings joined with single spaces.
pub fn join_spaces(v: &Vec<String>) -> (r: String)
    ensures
        r@ == joined(str_views(v@)),
{
    let mut r = String::new();
    let mut i: usize = 0;
    while i < v.len()
        invariant
            i <= v@.len(),
            r@ == joined(str_views(v@.take(i as int))),
        decreases v.len() - i,
    {
        proof {
            assert(str_views(v@.take(i + 1)).drop_last() =~= str_views(v@.take(i as int)));
        }
        if i > 0 {
            push_char(&mut r, ' ');
        }
        r.append(v[i].as_str());
        proof {
            let t = str_views(v@.take(i + 1));
            if i == 0 {
                assert(t.len() == 1);
            }
            assert(r@ =~= joined(t));
        }
        i = i + 1;
    }
    assert(v@.take(v@.len() as int) =~= v@);
    r
}

/// The edge views of a list of syllable edges.
pub open spec fn evs(es: Seq<SyllableEdge>) -> Seq<(int, int, Seq<char>)> {
    edge_views(es)
}

/// The set of visited `(end, key)` pairs.
pub open spec fn visited_set(v: Seq<(usize, String)>) -> Set<(int, Seq<char>)> {
    v.map_values(|p: (usize, String)| (p.0 as int, p.1@)).to_set()
}

/// The queued paths from `head` on.
pub open spec fn queue_view(q: Seq<(usize, Vec<String>)>, head: int) -> Seq<PathState> {
    q.skip(head).map_values(|p: (usize, Vec<String>)| (p.0 as int, str_views(p.1@)))
}

/// Queues the extensions of `syls` by the edges starting at `next`.
fn push_edges_exec(
    es: &Vec<SyllableEdge>,
    next: usize,
    syls: &Vec<String>,
    queue: &mut Vec<(usize, Vec<String>)>,
    head: usize,
    visited: &mut Vec<(usize, String)>,
)
    requires
        head <= old(queue)@.len(),
    ensures
        head <= final(queue)@.len(),
        (queue_view(final(queue)@, head as int), visited_set(final(visited)@)) == push_edges(
            evs(es@),
            es@.len() as int,
            next as int,
            str_views(syls@),
            queue_view(old(queue)@, head as int),
            visited_set(old(visited)@),
        ),
{
    let ghost e = evs(es@);
    let ghost sv = str_views(syls@);
    let mut k: usize = 0;
    while k < es.len()
        invariant
            k <= es@.len(),
            e == evs(es@),
            sv == str_views(syls@),
            head <= queue@.len(),
            (queue_view(queue@, head as int), visited_set(visited@)) == push_edges(
                e,
                k as int,
                next as int,
                sv,
                queue_view(old(queue)@, head as int),
                visited_set(old(visited)@),
            ),
        decreases es.len() - k,
    {
        if es[k].start == next {
            let mut ns = clone_strings(syls);
            ns.push(es[k].syllable.clone());
            let key = join_spaces(&ns);
            let end = es[k].end;
            let ghost nsv = str_views(ns@);
            proof {
                assert(nsv =~= sv.push(e[k as int].2));
            }
            let mut found = false;
            let mut j: usize = 0;
            while j < visited.len()
                invariant
                    j <= visited@.len(),
                    !found ==> forall|a: int| 0 <= a < j ==> (#[trigger] visited@[a]).0 != end || visited@[a].1@ != key@,
                    found ==> visited_set(visited@).contains((end as int, key@)),
                decreases visited.len() - j,
            {
                if !found && visited[j].0 == end && visited[j].1 == key {
                    found = true;
                    proof {
                        let m = visited@.map_values(|p: (usize, String)| (p.0 as int, p.1@));
                        assert(m[j as int] == (end as int, key@));
                        assert(m.contains((end as int, key@)));
                    }
                }
                j = j + 1;
            }
            proof {
                if !found {
                    let m = visited@.map_values(|p: (usize, String)| (p.0 as int, p.1@));
                    assert(!m.contains((end as int, key@))) by {
                        if m.contains((end as int, key@)) {
                            let a = choose|a: int| 0 <= a < m.len() && m[a] == (end as int, key@);
                            assert(visited@[a].0 == end && visited@[a].1@ == key@);
                        }
                    }
                }
            }
            if !found {
                let ghost old_q = queue@;
                let ghost old_v = visited@;
                let key2 = key.clone();
                visited.push((end, key2));
                queue.push((end, ns));
                proof {
                    assert(queue_view(queue@, head as int) =~= queue_view(old_q, head as int).push(
                        (end as int, nsv),
                    ));
                    let m0 = old_v.map_values(|p: (usize, String)| (p.0 as int, p.1@));
                    let m1 = visited@.map_values(|p: (usize, String)| (p.0 as int, p.1@));
                    assert(m1 =~= m0.push((end as int, key@)));
                    crate::text::lemma_push_to_set(m0, (end as int, key@));
                }
            }
        }
        k = k + 1;
    }
}

} // verus!

verus! {

/// The dictionary entries of a syllable path, at most [`MAX_WORDS_PER_CODE`].
fn path_entries_exec(lexicon: &Lexicon, syls: &Vec<String>) -> (r: Vec<LexiconEntry>)
    requires
        lexicon.wf(),
    ensures
        r@ == path_entries(lexicon@, str_views(syls@)),
{
    let mut refs: Vec<&str> = Vec::new();
    let mut i: usize = 0;
    while i < syls.len()
        invariant
            i <= syls@.len(),
            refs@.len() == i,
            forall|j: int| 0 <= j < i ==> (#[trigger] refs@[j])@ == syls@[j]@,
        decreases syls.len() - i,
    {
        refs.push(syls[i].as_str());
        i = i + 1;
    }
    proof {
        assert(refs@.map_values(|s: &str| s@) =~= str_views(syls@));
    }
    let mut all = lexicon.entries_for(refs.as_slice());
    if all.len() > MAX_WORDS_PER_CODE {
        all.truncate(MAX_WORDS_PER_CODE);
    }
    all
}

/// The accumulated words of the search come first in its result.
proof fn lemma_bfs_prefix(
    es: Seq<(int, int, Seq<char>)>,
    input: Seq<char>,
    lex: Seq<(Seq<char>, Seq<LexiconEntry>)>,
    s: int,
    q: Seq<PathState>,
    v: Set<(int, Seq<char>)>,
    explored: int,
    words: Seq<(int, int, LexiconEntry)>,
)
    ensures
        bfs(es, input, lex, s, q, v, explored, words) == words + bfs(
            es,
            input,
            lex,
            s,
            q,
            v,
            explored,
            seq![],
        ),
    decreases MAX_PATHS_PER_START - explored,
{
    if q.len() == 0 || explored >= MAX_PATHS_PER_START {
        assert(words + Seq::<(int, int, LexiconEntry)>::empty() =~= words);
    } else {
        let (pos, syls) = q[0];
        let found = path_entries(lex, syls).map_values(|e: LexiconEntry| (s, pos, e));
        let rest = q.drop_first();
        if syls.len() >= MAX_WORD_SYLLABLES {
            lemma_bfs_prefix(es, input, lex, s, rest, v, explored + 1, words + found);
            lemma_bfs_prefix(es, input, lex, s, rest, v, explored + 1, seq![] + found);
            assert(seq![] + found =~= found);
            assert((words + found) + bfs(es, input, lex, s, rest, v, explored + 1, seq![]) =~= words
                + (found + bfs(es, input, lex, s, rest, v, explored + 1, seq![])));
        } else {
            let (q1, v1) = push_edges(es, es.len() as int, pos, syls, rest, v);
            let (q2, v2) = if 0 <= pos < input.len() && input[pos] == '\'' {
                push_edges(es, es.len() as int, pos + 1, syls, q1, v1)
            } else {
                (q1, v1)
            };
            lemma_bfs_prefix(es, input, lex, s, q2, v2, explored + 1, words + found);
            lemma_bfs_prefix(es, input, lex, s, q2, v2, explored + 1, seq![] + found);
            assert(seq![] + found =~= found);
            assert((words + found) + bfs(es, input, lex, s, q2, v2, explored + 1, seq![]) =~= words
                + (found + bfs(es, input, lex, s, q2, v2, explored + 1, seq![])));
        }
    }
}

/// Appends the word edges found by the bounded breadth-first search from `start`.
fn bfs_from(
    es: &Vec<SyllableEdge>,
    input: &Vec<char>,
    lexicon: &Lexicon,
    start: usize,
    words: &mut Vec<WordEdge>,
)
    requires
        lexicon.wf(),
    ensures
        word_views(final(words)@) == word_views(old(words)@) + bfs(
            evs(es@),
            input@,
            lexicon@,
            start as int,
            seq![(start as int, seq![])],
            Set::empty(),
            0,
            seq![],
        ),
{
    let ghost e = evs(es@);
    let mut queue: Vec<(usize, Vec<String>)> = Vec::new();
    queue.push((start, Vec::new()));
    let mut head: usize = 0;
    let mut visited: Vec<(usize, String)> = Vec::new();
    let mut explored: usize = 0;
    proof {
        assert(queue@.skip(0) =~= queue@);
        assert(str_views(queue@[0].1@) =~= Seq::<Seq<char>>::empty());
        assert(queue_view(queue@, 0) =~= seq![(start as int, Seq::<Seq<char>>::empty())]);
        assert(visited_set(visited@) =~= Set::<(int, Seq<char>)>::empty());
        lemma_bfs_prefix(
            e,
            input@,
            lexicon@,
            start as int,
            queue_view(queue@, 0),
            visited_set(visited@),
            0,
            word_views(words@),
        );
    }
    let ghost result = bfs(
        e,
        input@,
        lexicon@,
        start as int,
        queue_view(queue@, 0),
        visited_set(visited@),
        0,
        word_views(words@),
    );
    while head < queue.len() && explored < MAX_PATHS_PER_START
        invariant
            lexicon.wf(),
            e == evs(es@),
            head <= queue@.len(),
            explored <= MAX_PATHS_PER_START,
            result == bfs(
                e,
                input@,
                lexicon@,
                start as int,
                queue_view(queue@, head as int),
                visited_set(visited@),
                explored as int,
                word_views(words@),
            ),
        decreases MAX_PATHS_PER_START - explored,
    {
        let pos = queue[head].0;
        let syls = clone_strings(&queue[head].1);
        let ghost q = queue_view(queue@, head as int);
        proof {
            assert(q[0] == (pos as int, str_views(syls@)));
        }
        head = head + 1;
        proof {
            assert(queue_view(queue@, head as int) =~= q.drop_first());
        }
        explored = explored + 1;
        let found = path_entries_exec(lexicon, &syls);
        let ghost before_words = word_views(words@);
        let mut j: usize = 0;
        while j < found.len()
            invariant
                j <= found@.len(),
                word_views(words@) == before_words + found@.take(j as int).map_values(
                    |x: LexiconEntry| (start as int, pos as int, x),
                ),
            decreases found.len() - j,
        {
            let ghost w0 = word_views(words@);
            words.push(WordEdge { start, end: pos, entry: found[j].clone() });
            proof {
                assert(found@.take(j + 1).map_values(|x: LexiconEntry| (start as int, pos as int, x))
                    =~= found@.take(j as int).map_values(
                    |x: LexiconEntry| (start as int, pos as int, x),
                ).push((start as int, pos as int, found@[j as int])));
                assert(word_views(words@) =~= w0.push((start as int, pos as int, found@[j as int])));
            }
            j = j + 1;
        }
        proof {
            assert(found@.take(found@.len() as int) =~= found@);
        }
        if syls.len() < MAX_WORD_SYLLABLES {
            push_edges_exec(es, pos, &syls, &mut queue, head, &mut visited);
            if pos < input.len() && input[pos] == '\'' {
                push_edges_exec(es, pos + 1, &syls, &mut queue, head, &mut visited);
            }
        }
    }
}

/// Some edge starts at `p`.
fn starts_at(es: &Vec<SyllableEdge>, p: usize) -> (r: bool)
    ensures
        r == has_start(evs(es@), p as int),
{
    let mut k: usize = 0;
    while k < es.len()
        invariant
            k <= es@.len(),
            forall|i: int| 0 <= i < k ==> (#[trigger] es@[i]).start != p,
        decreases es.len() - k,
    {
        if es[k].start == p {
            assert(evs(es@)[k as int].0 == p);
            return true;
        }
        k = k + 1;
    }
    proof {
        if has_start(evs(es@), p as int) {
            let i = choose|i: int| 0 <= i < evs(es@).len() && (#[trigger] evs(es@)[i]).0 == p;
            assert(es@[i].start == p);
        }
    }
    false
}

/// All word edges: for every start position in order, the breadth-first search from there.
fn enumerate_word_edges(input: &Vec<char>, es: &Vec<SyllableEdge>, lexicon: &Lexicon) -> (words: Vec<WordEdge>)
    requires
        lexicon.wf(),
    ensures
        word_views(words@) == word_edges_upto(evs(es@), input@, lexicon@, input@.len() as int),
{
    let mut words: Vec<WordEdge> = Vec::new();
    let mut p: usize = 0;
    while p < input.len()
        invariant
            lexicon.wf(),
            p <= input@.len(),
            word_views(words@) == word_edges_upto(evs(es@), input@, lexicon@, p as int),
        decreases input.len() - p,
    {
        if starts_at(es, p) {
            bfs_from(es, input, lexicon, p, &mut words);
        }
        p = p + 1;
    }
    words
}

} // verus!

verus! {

/// Position `n` is reached from position `p` by a chain of word edges.
pub open spec fn reach_end(w: Seq<(int, int, LexiconEntry)>, n: int, p: int) -> bool
    decreases n - p, w.len() + 1,
{
    p == n || (0 <= p < n && reach_via(w, n, p, w.len() as int))
}

/// One of the words `w[0..k]` starts at `p` and ends where `n` is reached.
pub open spec fn reach_via(w: Seq<(int, int, LexiconEntry)>, n: int, p: int, k: int) -> bool
    decreases n - p, k,
{
    if k <= 0 || k > w.len() || p < 0 || p >= n {
        false
    } else {
        reach_via(w, n, p, k - 1) || (w[k - 1].0 == p && p < w[k - 1].1 <= n && reach_end(
            w,
            n,
            w[k - 1].1,
        ))
    }
}

/// The largest end of the edges `es[0..k]`, zero if there are none.
pub open spec fn max_end(es: Seq<(int, int, Seq<char>)>, k: int) -> int
    decreases k,
{
    if k <= 0 {
        0
    } else {
        let prev = max_end(es, k - 1);
        if es[k - 1].1 > prev {
            es[k - 1].1
        } else {
            prev
        }
    }
}

/// The words of `w[0..k]` that start at 0 and qualify as menu words: when a complete
/// covering path exists, those that continue to the end; otherwise those ending at `prefix_end`.
pub open spec fn select_first(
    w: Seq<(int, int, LexiconEntry)>,
    n: int,
    complete: bool,
    prefix_end: int,
    k: int,
) -> Seq<(int, int, LexiconEntry)>
    decreases k,
{
    if k <= 0 {
        seq![]
    } else {
        let prev = select_first(w, n, complete, prefix_end, k - 1);
        let x = w[k - 1];
        let qualifies = if complete {
            reach_end(w, n, x.1)
        } else {
            x.1 == prefix_end
        };
        if x.0 == 0 && qualifies {
            prev.push(x)
        } else {
            prev
        }
    }
}

/// The menu words of `input`: the first-segment words of complete covering paths, or the words
/// reaching the end of the longest valid syllable prefix when no complete path exists.
pub open spec fn first_words_of(
    t: Seq<Seq<char>>,
    input: Seq<char>,
    lex: Seq<(Seq<char>, Seq<LexiconEntry>)>,
) -> Seq<(int, int, LexiconEntry)> {
    let n = input.len() as int;
    let es = all_edges(t, input, n);
    let w = word_edges_upto(es, input, lex, n);
    select_first(w, n, reach_end(w, n, 0), max_end(es, es.len() as int), w.len() as int)
}

/// Every edge spans at least one letter and ends within the input.
pub open spec fn edges_within(es: Seq<(int, int, Seq<char>)>, n: int) -> bool {
    forall|i: int| 0 <= i < es.len() ==> 0 <= (#[trigger] es[i]).0 < es[i].1 <= n
}

/// A queued path from start `s` is either the empty one at `s` or ends past `s` within `n`.
pub open spec fn path_within(s: int, n: int, x: PathState) -> bool {
    (x.1.len() == 0 && x.0 == s) || (s < x.0 <= n)
}

/// Every word starts at `s` and ends past it, within `n`.
pub open spec fn words_from(s: int, n: int, w: Seq<(int, int, LexiconEntry)>) -> bool {
    forall|i: int| 0 <= i < w.len() ==> (#[trigger] w[i]).0 == s && s < w[i].1 <= n
}

proof fn lemma_push_edges_within(
    es: Seq<(int, int, Seq<char>)>,
    k: int,
    next: int,
    syls: Seq<Seq<char>>,
    q: Seq<PathState>,
    v: Set<(int, Seq<char>)>,
    s: int,
    n: int,
)
    requires
        edges_within(es, n),
        0 <= k <= es.len(),
        s <= next,
        forall|i: int| 0 <= i < q.len() ==> path_within(s, n, #[trigger] q[i]),
    ensures
        forall|i: int|
            0 <= i < push_edges(es, k, next, syls, q, v).0.len() ==> path_within(
                s,
                n,
                #[trigger] push_edges(es, k, next, syls, q, v).0[i],
            ),
    decreases k,
{
    if k > 0 {
        lemma_push_edges_within(es, k - 1, next, syls, q, v, s, n);
        let (q1, v1) = push_edges(es, k - 1, next, syls, q, v);
        let e = es[k - 1];
        assert(0 <= e.0 < e.1 <= n);
        let r = push_edges(es, k, next, syls, q, v).0;
        assert forall|i: int| 0 <= i < r.len() implies path_within(s, n, #[trigger] r[i]) by {
            if i < q1.len() {
                assert(r[i] == q1[i]);
            }
        }
    }
}

proof fn lemma_bfs_within(
    es: Seq<(int, int, Seq<char>)>,
    input: Seq<char>,
    lex: Seq<(Seq<char>, Seq<LexiconEntry>)>,
    s: int,
    q: Seq<PathState>,
    v: Set<(int, Seq<char>)>,
    explored: int,
    words: Seq<(int, int, LexiconEntry)>,
)
    requires
        edges_within(es, input.len() as int),
        forall|i: int| 0 <= i < q.len() ==> path_within(s, input.len() as int, #[trigger] q[i]),
        words_from(s, input.len() as int, words),
    ensures
        words_from(s, input.len() as int, bfs(es, input, lex, s, q, v, explored, words)),
    decreases MAX_PATHS_PER_START - explored,
{
    let n = input.len() as int;
    if q.len() > 0 && explored < MAX_PATHS_PER_START {
        let (pos, syls) = q[0];
        assert(path_within(s, n, q[0]));
        let found = path_entries(lex, syls).map_values(|e: LexiconEntry| (s, pos, e));
        if syls.len() == 0 {
            assert(syllable_key(syls).len() == 0);
            assert(path_entries(lex, syls).len() == 0);
        }
        let nw = words + found;
        assert forall|i: int| 0 <= i < nw.len() implies (#[trigger] nw[i]).0 == s && s < nw[i].1 <= n by {
            if i < words.len() {
                assert(nw[i] == words[i]);
            } else {
                assert(nw[i] == found[i - words.len()]);
            }
        }
        let rest = q.drop_first();
        assert forall|i: int| 0 <= i < rest.len() implies path_within(s, n, #[trigger] rest[i]) by {
            assert(rest[i] == q[i + 1]);
        }
        if syls.len() >= MAX_WORD_SYLLABLES {
            lemma_bfs_within(es, input, lex, s, rest, v, explored + 1, nw);
        } else {
            lemma_push_edges_within(es, es.len() as int, pos, syls, rest, v, s, n);
            let (q1, v1) = push_edges(es, es.len() as int, pos, syls, rest, v);
            if 0 <= pos < input.len() && input[pos] == '\'' {
                lemma_push_edges_within(es, es.len() as int, pos + 1, syls, q1, v1, s, n);
            }
            let (q2, v2) = if 0 <= pos < input.len() && input[pos] == '\'' {
                push_edges(es, es.len() as int, pos + 1, syls, q1, v1)
            } else {
                (q1, v1)
            };
            lemma_bfs_within(es, input, lex, s, q2, v2, explored + 1, nw);
        }
    }
}

proof fn lemma_word_edges_within(
    es: Seq<(int, int, Seq<char>)>,
    input: Seq<char>,
    lex: Seq<(Seq<char>, Seq<LexiconEntry>)>,
    k: int,
)
    requires
        edges_within(es, input.len() as int),
        k <= input.len(),
    ensures
        forall|i: int|
            0 <= i < word_edges_upto(es, input, lex, k).len() ==> 0 <= (
            #[trigger] word_edges_upto(es, input, lex, k)[i]).0 < word_edges_upto(es, input, lex, k)[i].1
                <= input.len(),
    decreases k,
{
    if k > 0 {
        lemma_word_edges_within(es, input, lex, k - 1);
        let prev = word_edges_upto(es, input, lex, k - 1);
        let w = word_edges_upto(es, input, lex, k);
        if has_start(es, k - 1) {
            let q0: Seq<PathState> = seq![(k - 1, Seq::<Seq<char>>::empty())];
            assert(path_within(k - 1, input.len() as int, q0[0]));
            lemma_bfs_within(es, input, lex, k - 1, q0, Set::empty(), 0, seq![]);
            let b = bfs(es, input, lex, k - 1, q0, Set::empty(), 0, seq![]);
            assert forall|i: int| 0 <= i < w.len() implies 0 <= (#[trigger] w[i]).0 < w[i].1 <= input.len() by {
                if i < prev.len() {
                    assert(w[i] == prev[i]);
                } else {
                    assert(w[i] == b[i - prev.len()]);
                }
            }
        }
    }
}

proof fn lemma_select_first(
    w: Seq<(int, int, LexiconEntry)>,
    n: int,
    complete: bool,
    prefix_end: int,
    k: int,
)
    requires
        0 <= k <= w.len(),
    ensures
        forall|i: int|
            0 <= i < select_first(w, n, complete, prefix_end, k).len() ==> {
                let x = #[trigger] select_first(w, n, complete, prefix_end, k)[i];
                &&& exists|j: int| 0 <= j < k && #[trigger] w[j] == x
                &&& x.0 == 0
                &&& if complete {
                    reach_end(w, n, x.1)
                } else {
                    x.1 == prefix_end
                }
            },
    decreases k,
{
    if k > 0 {
        lemma_select_first(w, n, complete, prefix_end, k - 1);
        let prev = select_first(w, n, complete, prefix_end, k - 1);
        let r = select_first(w, n, complete, prefix_end, k);
        assert forall|i: int| 0 <= i < r.len() implies {
            let x = #[trigger] r[i];
            &&& exists|j: int| 0 <= j < k && #[trigger] w[j] == x
            &&& x.0 == 0
            &&& if complete {
                reach_end(w, n, x.1)
            } else {
                x.1 == prefix_end
            }
        } by {
            if i < prev.len() {
                assert(r[i] == prev[i]);
                let j = choose|j: int| 0 <= j < k - 1 && #[trigger] w[j] == prev[i];
                assert(w[j] == r[i]);
            } else {
                assert(r[i] == w[k - 1]);
            }
        }
    }
}

/// Each menu word starts at the first letter and spans at least one letter of the input. When
/// some chain of dictionary words covers the whole input, each menu word is the first word of
/// such a chain; otherwise each ends where the longest run of valid syllables from the start
/// ends.
pub proof fn law_first_words_cover(
    t: Seq<Seq<char>>,
    input: Seq<char>,
    lex: Seq<(Seq<char>, Seq<LexiconEntry>)>,
)
    requires
        sorted_syllables(t),
    ensures
        ({
            let n = input.len() as int;
            let es = all_edges(t, input, n);
            let w = word_edges_upto(es, input, lex, n);
            let f = first_words_of(t, input, lex);
            forall|i: int|
                0 <= i < f.len() ==> {
                    &&& (#[trigger] f[i]).0 == 0
                    &&& 0 < f[i].1 <= n
                    &&& reach_end(w, n, 0) ==> reach_end(w, n, f[i].1)
                    &&& !reach_end(w, n, 0) ==> f[i].1 == max_end(es, es.len() as int)
                }
        }),
{
    let n = input.len() as int;
    let es = all_edges(t, input, n);
    law_edges_exact(t, input);
    assert forall|i: int| 0 <= i < es.len() implies 0 <= (#[trigger] es[i]).0 < es[i].1 <= n by {
        assert(es.contains(es[i]));
        let e = es[i];
        let m = choose|m: int| 0 <= m < t.len() && t[m] == e.2;
        assert(t[m].len() > 0);
    }
    let w = word_edges_upto(es, input, lex, n);
    lemma_word_edges_within(es, input, lex, n);
    let complete = reach_end(w, n, 0);
    let pe = max_end(es, es.len() as int);
    lemma_select_first(w, n, complete, pe, w.len() as int);
    let f = first_words_of(t, input, lex);
    assert forall|i: int| 0 <= i < f.len() implies {
        &&& (#[trigger] f[i]).0 == 0
        &&& 0 < f[i].1 <= n
        &&& reach_end(w, n, 0) ==> reach_end(w, n, f[i].1)
        &&& !reach_end(w, n, 0) ==> f[i].1 == max_end(es, es.len() as int)
    } by {
        let j = choose|j: int| 0 <= j < w.len() && #[trigger] w[j] == f[i];
        assert(0 <= w[j].0 < w[j].1 <= n);
    }
}

proof fn lemma_reach_via_grows(w: Seq<(int, int, LexiconEntry)>, n: int, p: int, k: int, m: int)
    requires
        k <= m <= w.len(),
        reach_via(w, n, p, k),
    ensures
        reach_via(w, n, p, m),
    decreases m - k,
{
    if k < m {
        lemma_reach_via_grows(w, n, p, k, m - 1);
    }
}

/// Reaching the end is closed under chaining: a word from `p` to `q` within the input, where
/// `q` reaches the end, makes `p` reach the end too.
pub proof fn law_reach_end_chains(w: Seq<(int, int, LexiconEntry)>, n: int, j: int)
    requires
        0 <= j < w.len(),
        0 <= w[j].0 < w[j].1 <= n,
        reach_end(w, n, w[j].1),
    ensures
        reach_end(w, n, w[j].0),
{
    let p = w[j].0;
    assert(reach_via(w, n, p, j + 1));
    lemma_reach_via_grows(w, n, p, j + 1, w.len() as int);
}

/// `c` lists the positions in `w` of words laid end to end from the first letter to `n`.
pub open spec fn covering_chain(w: Seq<(int, int, LexiconEntry)>, n: int, c: Seq<int>) -> bool {
    &&& c.len() > 0
    &&& forall|i: int| 0 <= i < c.len() ==> 0 <= #[trigger] c[i] < w.len()
    &&& w[c[0]].0 == 0
    &&& forall|i: int| 0 <= i < c.len() - 1 ==> w[#[trigger] c[i]].1 == w[c[i + 1]].0
    &&& w[c[c.len() - 1]].1 == n
}

proof fn lemma_chain_reaches(w: Seq<(int, int, LexiconEntry)>, n: int, c: Seq<int>, i: int)
    requires
        covering_chain(w, n, c),
        forall|k: int| 0 <= k < w.len() ==> 0 <= (#[trigger] w[k]).0 < w[k].1 <= n,
        0 <= i < c.len(),
    ensures
        reach_end(w, n, w[c[i]].0),
        reach_end(w, n, w[c[i]].1),
    decreases c.len() - i,
{
    let x = w[c[i]];
    if i == c.len() - 1 {
        assert(x.1 == n);
    } else {
        lemma_chain_reaches(w, n, c, i + 1);
        assert(w[c[i]].1 == w[c[i + 1]].0);
    }
    law_reach_end_chains(w, n, c[i]);
}

proof fn lemma_select_first_keeps(
    w: Seq<(int, int, LexiconEntry)>,
    n: int,
    complete: bool,
    prefix_end: int,
    k: int,
    j: int,
)
    requires
        0 <= j < k <= w.len(),
        w[j].0 == 0,
        if complete {
            reach_end(w, n, w[j].1)
        } else {
            w[j].1 == prefix_end
        },
    ensures
        select_first(w, n, complete, prefix_end, k).contains(w[j]),
    decreases k,
{
    let r = select_first(w, n, complete, prefix_end, k);
    if j < k - 1 {
        lemma_select_first_keeps(w, n, complete, prefix_end, k - 1, j);
        let prev = select_first(w, n, complete, prefix_end, k - 1);
        let i = choose|i: int| 0 <= i < prev.len() && prev[i] == w[j];
        assert(r[i] == prev[i]);
    } else {
        assert(r[r.len() - 1] == w[j]);
    }
}

/// When dictionary words laid end to end cover the whole input, the menu words are not empty:
/// they hold the first word of every such chain.
pub proof fn law_covering_chain_in_menu(
    t: Seq<Seq<char>>,
    input: Seq<char>,
    lex: Seq<(Seq<char>, Seq<LexiconEntry>)>,
    c: Seq<int>,
)
    requires
        sorted_syllables(t),
        covering_chain(
            word_edges_upto(all_edges(t, input, input.len() as int), input, lex, input.len() as int),
            input.len() as int,
            c,
        ),
    ensures
        first_words_of(t, input, lex).contains(
            word_edges_upto(all_edges(t, input, input.len() as int), input, lex, input.len() as int)[c[0]],
        ),
        first_words_of(t, input, lex).len() > 0,
{
    let n = input.len() as int;
    let es = all_edges(t, input, n);
    law_edges_exact(t, input);
    assert forall|i: int| 0 <= i < es.len() implies 0 <= (#[trigger] es[i]).0 < es[i].1 <= n by {
        assert(es.contains(es[i]));
        let e = es[i];
        let m = choose|m: int| 0 <= m < t.len() && t[m] == e.2;
        assert(t[m].len() > 0);
    }
    let w = word_edges_upto(es, input, lex, n);
    lemma_word_edges_within(es, input, lex, n);
    lemma_chain_reaches(w, n, c, 0);
    assert(reach_end(w, n, 0));
    let pe = max_end(es, es.len() as int);
    lemma_select_first_keeps(w, n, true, pe, w.len() as int, c[0]);
}

/// Generates menu candidates from the dictionary.
pub struct CandidateEngine<'a> {
    pub lexicon: &'a Lexicon,
    pub user_freq: &'a UserFreq,
}

impl<'a> CandidateEngine<'a> {
    pub fn new(lexicon: &'a Lexicon, user_freq: &'a UserFreq) -> (engine: Self)
        ensures
            engine.lexicon == lexicon,
            engine.user_freq == user_freq,
    {
        CandidateEngine { lexicon, user_freq }
    }

    /// The menu words for `input`, before scoring: first-segment words that participate in a
    /// complete covering path; when no complete path exists, the words reaching the end of the
    /// longest valid syllable prefix. The syllable table is the lexicon's syllables, sorted.
    /// The input is a composition, which the state machine keeps ASCII (normalized to
    /// lowercase letters and apostrophes).
    pub fn first_words(&self, input: &str) -> (words: Vec<WordEdge>)
        requires
            self.lexicon.wf(),
            input.is_ascii(),
        ensures
            exists|t: Seq<Seq<char>>|
                {
                    &&& sorted_syllables(t)
                    &&& forall|s: Seq<char>|
                        #![trigger t.contains(s)]
                        t.contains(s) <==> (s.len() > 0 && self.lexicon.syllable_set().contains(s))
                    &&& word_views(words@) == first_words_of(t, input@, self.lexicon@)
                },
    {
        let syl = self.lexicon.syllables();
        let table = SyllableTable::from_set(syl);
        proof {
            assert forall|s: Seq<char>|
                #![trigger table@.contains(s)]
                table@.contains(s) <==> (s.len() > 0 && self.lexicon.syllable_set().contains(s)) by {
                let sv = syl@;
                if s.len() > 0 && self.lexicon.syllable_set().contains(s) {
                    let m = sv.map_values(|x: String| x@);
                    let i = choose|i: int| 0 <= i < m.len() && m[i] == s;
                    assert(sv[i]@ == s);
                }
                if table@.contains(s) {
                    let i = choose|i: int| 0 <= i < sv.len() && #[trigger] sv[i]@ == s;
                    let m = sv.map_values(|x: String| x@);
                    assert(m[i] == s);
                }
            }
        }
        let es = table.edges(input);
        let chars = crate::text::chars_of(input);
        let n = chars.len();
        let words = enumerate_word_edges(&chars, &es, self.lexicon);
        let ghost e = evs(es@);
        let ghost w = word_views(words@);
        // Whether position p reaches the end through word edges, from the end backwards.
        let mut reach: Vec<bool> = Vec::new();
        let mut r: usize = 0;
        while r < n
            invariant
                r <= n,
                reach@.len() == r,
            decreases n - r,
        {
            reach.push(false);
            r = r + 1;
        }
        reach.push(true);
        let mut p = n;
        while p > 0
            invariant
                p <= n,
                n == chars@.len(),
                w == word_views(words@),
                reach@.len() == n + 1,
                forall|q: int| p <= q <= n ==> #[trigger] reach@[q] == reach_end(w, n as int, q),
            decreases p,
        {
            p = p - 1;
            let mut found = false;
            let mut k: usize = 0;
            while k < words.len()
                invariant
                    p < n,
                    n == chars@.len(),
                    w == word_views(words@),
                    k <= words@.len(),
                    reach@.len() == n + 1,
                    forall|q: int| p < q <= n ==> #[trigger] reach@[q] == reach_end(w, n as int, q),
                    found == reach_via(w, n as int, p as int, k as int),
                decreases words.len() - k,
            {
                let ws = words[k].start;
                let we = words[k].end;
                if ws == p && p < we && we <= n && reach[we] {
                    found = true;
                }
                k = k + 1;
            }
            reach.set(p, found);
        }
        let complete = reach[0];
        let mut prefix_end: usize = 0;
        let mut k: usize = 0;
        while k < es.len()
            invariant
                k <= es@.len(),
                e == evs(es@),
                prefix_end == max_end(e, k as int),
            decreases es.len() - k,
        {
            if es[k].end > prefix_end {
                prefix_end = es[k].end;
            }
            k = k + 1;
        }
        let total = words.len();
        let mut words = words;
        let mut picked: Vec<WordEdge> = Vec::new();
        // Move the words out in order, keeping the qualifying ones.
        let mut rev: Vec<WordEdge> = Vec::new();
        while words.len() > 0
            invariant
                rev@.len() + words@.len() == w.len(),
                forall|i: int| 0 <= i < words@.len() ==> (#[trigger] words@[i])@ == w[i],
                forall|i: int| 0 <= i < rev@.len() ==> (#[trigger] rev@[i])@ == w[w.len() - 1 - i],
            decreases words.len(),
        {
            let x = words.pop().unwrap();
            rev.push(x);
        }
        let mut i: usize = 0;
        while rev.len() > 0
            invariant
                i + rev@.len() == w.len(),
                w.len() == total,
                forall|j: int| 0 <= j < rev@.len() ==> (#[trigger] rev@[j])@ == w[w.len() - 1 - j],
                reach@.len() == n + 1,
                n == chars@.len(),
                forall|q: int| 0 <= q <= n ==> #[trigger] reach@[q] == reach_end(w, n as int, q),
                complete == reach_end(w, n as int, 0),
                word_views(picked@) == select_first(w, n as int, complete, prefix_end as int, i as int),
            decreases rev.len(),
        {
            let x = rev.pop().unwrap();
            assert(x@ == w[i as int]);
            let qualifies = if complete {
                x.end <= n && reach[x.end]
            } else {
                x.end == prefix_end
            };
            let ghost p0 = word_views(picked@);
            if x.start == 0 && qualifies {
                picked.push(x);
                proof {
                    assert(word_views(picked@) =~= p0.push(w[i as int]));
                }
            }
            i = i + 1;
        }
        picked
    }
}

} // verus!

verus! {

/// The menu candidate for a first word with the given base score: id `d:` plus the text, the
/// word's syllable code as preedit, and the letters it spans as consumed keys.
pub fn candidate_for(word: &WordEdge, base_score_bits: u32) -> (c: Candidate)
    ensures
        c.id@ == seq!['d', ':'] + word.entry.text@,
        c.text@ == word.entry.text@,
        c.preedit@ == word.entry.code@,
        c.consumedkeys == word.end,
        c.base_score_bits == base_score_bits,
        c.kind@ == "dictionary"@,
{
    let mut id = String::new();
    push_char(&mut id, 'd');
    push_char(&mut id, ':');
    id.append(word.entry.text.as_str());
    Candidate {
        id,
        text: word.entry.text.clone(),
        preedit: word.entry.code.clone(),
        consumedkeys: word.end,
        base_score_bits,
        kind: "dictionary".to_owned(),
    }
}

/// Position of the candidate with text `text`, if any.
pub open spec fn cand_pos(c: Seq<Candidate>, text: Seq<char>) -> Option<int> {
    if exists|j: int| 0 <= j < c.len() && (#[trigger] c[j]).text@ == text {
        Some(choose|j: int| 0 <= j < c.len() && (#[trigger] c[j]).text@ == text)
    } else {
        None
    }
}

/// One candidate per text, in order of first appearance; a later candidate with the same text
/// replaces the kept one when its score is greater.
pub open spec fn best_by_text(c: Seq<Candidate>) -> Seq<Candidate>
    decreases c.len(),
{
    if c.len() == 0 {
        seq![]
    } else {
        let prev = best_by_text(c.drop_last());
        let x = c.last();
        match cand_pos(prev, x.text@) {
            Some(i) => if float_gt(x.base_score_bits, prev[i].base_score_bits) {
                prev.update(i, x)
            } else {
                prev
            },
            None => prev.push(x),
        }
    }
}

/// Menu order: higher score first, then fewer characters, then text order.
pub open spec fn cand_before(a: Candidate, b: Candidate) -> bool {
    let ka = total_key(a.base_score_bits);
    let kb = total_key(b.base_score_bits);
    ka > kb || (ka == kb && (a.text@.len() < b.text@.len() || (a.text@.len() == b.text@.len()
        && lex_lt(a.text@, b.text@))))
}

proof fn lemma_cand_order(a: Candidate, b: Candidate, c: Candidate)
    ensures
        !cand_before(a, a),
        a.text@ != b.text@ ==> cand_before(a, b) || cand_before(b, a),
        cand_before(a, b) && cand_before(b, c) ==> cand_before(a, c),
        cand_before(a, b) ==> !cand_before(b, a),
{
    lemma_lex_order(a.text@, b.text@, c.text@);
    lemma_lex_order(b.text@, a.text@, a.text@);
    lemma_lex_order(a.text@, a.text@, a.text@);
    lemma_lex_order(a.text@, b.text@, a.text@);
}

/// The ranked menu: one candidate per text (the best-scored), ordered by [`cand_before`], at
/// most `max(max_candidates, 1)`.
pub open spec fn ranked(out: Seq<Candidate>, cands: Seq<Candidate>, max_candidates: usize) -> bool {
    let best = best_by_text(cands);
    let limit = if max_candidates == 0 {
        1
    } else {
        max_candidates as int
    };
    exists|sorted: Seq<Candidate>, idx: Seq<int>|
        {
            &&& reorders(sorted, best, idx)
            &&& forall|i: int, j: int|
                0 <= i < j < sorted.len() ==> cand_before(#[trigger] sorted[i], #[trigger] sorted[j])
            &&& out == if sorted.len() <= limit {
                sorted
            } else {
                sorted.take(limit)
            }
        }
}

proof fn lemma_best_distinct(c: Seq<Candidate>)
    ensures
        forall|i: int, j: int|
            0 <= i < j < best_by_text(c).len() ==> (#[trigger] best_by_text(c)[i]).text@ != (
            #[trigger] best_by_text(c)[j]).text@,
    decreases c.len(),
{
    if c.len() > 0 {
        lemma_best_distinct(c.drop_last());
        let prev = best_by_text(c.drop_last());
        let x = c.last();
        match cand_pos(prev, x.text@) {
            Some(k) => {
                let b = best_by_text(c);
                assert forall|i: int, j: int| 0 <= i < j < b.len() implies (#[trigger] b[i]).text@
                    != (#[trigger] b[j]).text@ by {
                    assert(prev[k].text@ == x.text@);
                }
            },
            None => {},
        }
    }
}

/// A ranked menu holds each text once and no more than `max(max_candidates, 1)` candidates.
pub proof fn law_ranked_menu_is_distinct(out: Seq<Candidate>, cands: Seq<Candidate>, max_candidates: usize)
    requires
        ranked(out, cands, max_candidates),
    ensures
        forall|i: int, j: int| 0 <= i < j < out.len() ==> (#[trigger] out[i]).text@ != (#[trigger] out[j]).text@,
        out.len() <= if max_candidates == 0 {
            1
        } else {
            max_candidates as int
        },
{
    let best = best_by_text(cands);
    lemma_best_distinct(cands);
    let limit = if max_candidates == 0 {
        1
    } else {
        max_candidates as int
    };
    let (sorted, idx) = choose|sorted: Seq<Candidate>, idx: Seq<int>|
        {
            &&& reorders(sorted, best, idx)
            &&& forall|i: int, j: int|
                0 <= i < j < sorted.len() ==> cand_before(#[trigger] sorted[i], #[trigger] sorted[j])
            &&& out == if sorted.len() <= limit {
                sorted
            } else {
                sorted.take(limit)
            }
        };
    assert forall|i: int, j: int| 0 <= i < j < out.len() implies (#[trigger] out[i]).text@ != (
    #[trigger] out[j]).text@ by {
        assert(out[i] == sorted[i] && out[j] == sorted[j]);
        assert(sorted[i] == best[idx[i]] && sorted[j] == best[idx[j]]);
        if idx[i] < idx[j] {
            assert(best[idx[i]].text@ != best[idx[j]].text@);
        } else {
            assert(best[idx[j]].text@ != best[idx[i]].text@);
        }
    }
}

/// Keeps one candidate per text: the first seen, replaced by any later one that scores
/// strictly higher; sorts by descending score, then character count, then text; and keeps at
/// most `max_candidates` (at least one).
pub fn rank_candidates(cands: Vec<Candidate>, max_candidates: usize) -> (out: Vec<Candidate>)
    ensures
        ranked(out@, cands@, max_candidates),
{
    let ghost input = cands@;
    let mut best: Vec<Candidate> = Vec::new();
    let mut k: usize = 0;
    while k < cands.len()
        invariant
            k <= cands@.len(),
            input == cands@,
            best@ == best_by_text(input.take(k as int)),
        decreases cands.len() - k,
    {
        proof {
            assert(input.take(k + 1).drop_last() =~= input.take(k as int));
            assert(input.take(k + 1).last() == input[k as int]);
            lemma_best_distinct(input.take(k as int));
        }
        let ghost prev = best@;
        let mut j: usize = 0;
        let mut replaced = false;
        while j < best.len()
            invariant
                j <= best@.len(),
                best@.len() == prev.len(),
                forall|a: int, b: int|
                    0 <= a < b < prev.len() ==> (#[trigger] prev[a]).text@ != (#[trigger] prev[b]).text@,
                !replaced ==> best@ == prev && forall|a: int| 0 <= a < j ==> (#[trigger] prev[a]).text@ != cands@[k as int].text@,
                replaced ==> best@ == best_by_text(input.take(k + 1)),
                input == cands@,
                k < cands@.len(),
                prev == best_by_text(input.take(k as int)),
                input.take(k + 1).drop_last() == input.take(k as int),
                input.take(k + 1).last() == input[k as int],
            decreases best.len() - j,
        {
            if !replaced && best[j].text == cands[k].text {
                proof {
                    assert(cand_pos(prev, cands@[k as int].text@) == Some(j as int)) by {
                        let c = choose|a: int| 0 <= a < prev.len() && (#[trigger] prev[a]).text@ == cands@[k as int].text@;
                        if c != j {
                            assert(prev[c].text@ == prev[j as int].text@);
                        }
                    }
                }
                let ghost x = cands@[k as int];
                if crate::order::float_greater(cands[k].base_score_bits, best[j].base_score_bits) {
                    best.set(j, cands[k].clone());
                    proof {
                        assert(best@ =~= prev.update(j as int, x));
                    }
                }
                replaced = true;
                proof {
                    assert(best_by_text(input.take(k + 1)) == if float_gt(x.base_score_bits, prev[j as int].base_score_bits) {
                        prev.update(j as int, x)
                    } else {
                        prev
                    });
                }
            }
            j = j + 1;
        }
        if !replaced {
            proof {
                assert(cand_pos(prev, cands@[k as int].text@) is None);
            }
            best.push(cands[k].clone());
        }
        k = k + 1;
    }
    proof {
        assert(input.take(input.len() as int) =~= input);
        lemma_best_distinct(input);
    }
    let ghost b = best@;
    // Insertion sort under the strict menu order.
    let mut sorted: Vec<Candidate> = Vec::new();
    let ghost mut idx: Seq<int> = Seq::empty();
    let mut i: usize = 0;
    while i < best.len()
        invariant
            b == best@,
            b == best_by_text(input),
            i <= b.len(),
            forall|x: int, y: int| 0 <= x < y < b.len() ==> (#[trigger] b[x]).text@ != (#[trigger] b[y]).text@,
            sorted@.len() == i,
            idx.len() == i,
            forall|x: int| 0 <= x < i ==> 0 <= #[trigger] idx[x] < i && sorted@[x] == b[idx[x]],
            forall|x: int, y: int| 0 <= x < y < i ==> #[trigger] idx[x] != #[trigger] idx[y],
            forall|x: int, y: int| 0 <= x < y < i ==> cand_before(#[trigger] sorted@[x], #[trigger] sorted@[y]),
        decreases best.len() - i,
    {
        let mut p: usize = 0;
        while p < sorted.len() && cand_precedes(&sorted[p], &best[i])
            invariant
                p <= sorted@.len(),
                i < best@.len(),
                b == best@,
                forall|x: int| 0 <= x < p ==> cand_before(#[trigger] sorted@[x], b[i as int]),
            decreases sorted.len() - p,
        {
            p = p + 1;
        }
        let ghost old_sorted = sorted@;
        let ghost old_idx = idx;
        sorted.insert(p, best[i].clone());
        proof {
            idx = old_idx.insert(p as int, i as int);
            let x = b[i as int];
            if p < old_sorted.len() {
                let y = old_sorted[p as int];
                assert(y == b[old_idx[p as int]]);
                assert(y.text@ != x.text@);
                lemma_cand_order(x, y, y);
                assert(cand_before(x, y));
            }
            assert forall|u: int, v: int| 0 <= u < v < sorted@.len() implies cand_before(
                #[trigger] sorted@[u],
                #[trigger] sorted@[v],
            ) by {
                if u < p && v == p {
                } else if u == p && v > p {
                    assert(sorted@[v] == old_sorted[v - 1]);
                    if v - 1 > p {
                        lemma_cand_order(x, old_sorted[p as int], old_sorted[v - 1]);
                    }
                } else if u < p && v > p {
                    assert(sorted@[u] == old_sorted[u]);
                    assert(sorted@[v] == old_sorted[v - 1]);
                } else if u > p {
                    assert(sorted@[u] == old_sorted[u - 1]);
                    assert(sorted@[v] == old_sorted[v - 1]);
                } else {
                    assert(sorted@[u] == old_sorted[u]);
                    assert(sorted@[v] == old_sorted[v]);
                }
            }
            assert forall|u: int| 0 <= u < i + 1 implies 0 <= #[trigger] idx[u] < i + 1 && sorted@[u]
                == b[idx[u]] by {
                if u > p {
                    assert(idx[u] == old_idx[u - 1]);
                } else if u < p {
                    assert(idx[u] == old_idx[u]);
                }
            }
            assert forall|u: int, v: int| 0 <= u < v < i + 1 implies #[trigger] idx[u] != #[trigger] idx[v] by {
                if u > p {
                    assert(idx[u] == old_idx[u - 1]);
                } else if u < p {
                    assert(idx[u] == old_idx[u]);
                }
                if v > p {
                    assert(idx[v] == old_idx[v - 1]);
                } else if v < p {
                    assert(idx[v] == old_idx[v]);
                }
            }
        }
        i = i + 1;
    }
    let limit = if max_candidates == 0 {
        1
    } else {
        max_candidates
    };
    let ghost full = sorted@;
    if sorted.len() > limit {
        sorted.truncate(limit);
    }
    proof {
        assert(reorders(full, b, idx));
        if full.len() > limit {
            assert(sorted@ =~= full.take(limit as int));
        }
    }
    sorted
}

/// Every kept candidate is one of the given candidates.
proof fn lemma_best_members(c: Seq<Candidate>)
    ensures
        forall|i: int|
            0 <= i < best_by_text(c).len() ==> exists|j: int|
                0 <= j < c.len() && #[trigger] best_by_text(c)[i] == c[j],
    decreases c.len(),
{
    if c.len() > 0 {
        let p = c.drop_last();
        lemma_best_members(p);
        let prev = best_by_text(p);
        let b = best_by_text(c);
        let x = c.last();
        assert forall|i: int| 0 <= i < b.len() implies exists|j: int|
            0 <= j < c.len() && #[trigger] b[i] == c[j] by {
            if b[i] == x {
                assert(c[c.len() - 1] == x);
            } else {
                assert(i < prev.len() && b[i] == prev[i]);
                let j = choose|j: int| 0 <= j < p.len() && prev[i] == p[j];
                assert(c[j] == p[j]);
            }
        }
    }
}

/// What a ranked menu is made of: candidates taken from the input, each text once, in menu
/// order, and no more than `max(max_candidates, 1)` of them.
pub proof fn law_ranked_menu_order(out: Seq<Candidate>, cands: Seq<Candidate>, max_candidates: usize)
    requires
        ranked(out, cands, max_candidates),
    ensures
        forall|i: int|
            0 <= i < out.len() ==> exists|j: int| 0 <= j < cands.len() && #[trigger] out[i] == cands[j],
        forall|i: int, j: int| 0 <= i < j < out.len() ==> cand_before(#[trigger] out[i], #[trigger] out[j]),
        forall|i: int, j: int| 0 <= i < j < out.len() ==> (#[trigger] out[i]).text@ != (#[trigger] out[j]).text@,
        out.len() <= if max_candidates == 0 {
            1
        } else {
            max_candidates as int
        },
{
    law_ranked_menu_is_distinct(out, cands, max_candidates);
    lemma_best_members(cands);
    let best = best_by_text(cands);
    let limit = if max_candidates == 0 {
        1
    } else {
        max_candidates as int
    };
    let (sorted, idx) = choose|sorted: Seq<Candidate>, idx: Seq<int>|
        {
            &&& reorders(sorted, best, idx)
            &&& forall|i: int, j: int|
                0 <= i < j < sorted.len() ==> cand_before(#[trigger] sorted[i], #[trigger] sorted[j])
            &&& out == if sorted.len() <= limit {
                sorted
            } else {
                sorted.take(limit)
            }
        };
    assert forall|i: int| 0 <= i < out.len() implies exists|j: int|
        0 <= j < cands.len() && #[trigger] out[i] == cands[j] by {
        assert(out[i] == sorted[i]);
        assert(sorted[i] == best[idx[i]]);
        assert(exists|j: int| 0 <= j < cands.len() && #[trigger] best[idx[i]] == cands[j]);
    }
    assert forall|i: int, j: int| 0 <= i < j < out.len() implies cand_before(
        #[trigger] out[i],
        #[trigger] out[j],
    ) by {
        assert(out[i] == sorted[i] && out[j] == sorted[j]);
    }
}

/// `c` is the menu candidate of the first word `w` scored `bits`, as [`candidate_for`] makes it.
pub open spec fn candidate_of(c: Candidate, w: WordEdge, bits: u32) -> bool {
    &&& c.id@ == seq!['d', ':'] + w.entry.text@
    &&& c.text@ == w.entry.text@
    &&& c.preedit@ == w.entry.code@
    &&& c.consumedkeys == w.end
    &&& c.base_score_bits == bits
    &&& c.kind@ == "dictionary"@
}

/// The dictionary menu for first words with their base scores (`score_bits[i]` scores
/// `words[i]`): each word becomes its candidate, and the candidates are ranked as
/// [`rank_candidates`] ranks them.
pub fn dictionary_menu(words: &Vec<WordEdge>, score_bits: &Vec<u32>, max_candidates: usize) -> (out:
    Vec<Candidate>)
    requires
        words@.len() == score_bits@.len(),
    ensures
        exists|cands: Seq<Candidate>|
            {
                &&& cands.len() == words@.len()
                &&& forall|i: int|
                    0 <= i < cands.len() ==> candidate_of(
                        #[trigger] cands[i],
                        words@[i],
                        score_bits@[i],
                    )
                &&& ranked(out@, cands, max_candidates)
            },
        forall|i: int|
            0 <= i < out@.len() ==> exists|j: int|
                0 <= j < words@.len() && candidate_of(#[trigger] out@[i], words@[j], score_bits@[j]),
        forall|i: int, j: int|
            0 <= i < j < out@.len() ==> cand_before(#[trigger] out@[i], #[trigger] out@[j]),
        forall|i: int, j: int|
            0 <= i < j < out@.len() ==> (#[trigger] out@[i]).text@ != (#[trigger] out@[j]).text@,
        out@.len() <= if max_candidates == 0 {
            1
        } else {
            max_candidates as int
        },
{
    let mut cands: Vec<Candidate> = Vec::new();
    let mut i: usize = 0;
    while i < words.len()
        invariant
            i <= words@.len(),
            words@.len() == score_bits@.len(),
            cands@.len() == i,
            forall|k: int| 0 <= k < i ==> candidate_of(#[trigger] cands@[k], words@[k], score_bits@[k]),
        decreases words.len() - i,
    {
        cands.push(candidate_for(&words[i], score_bits[i]));
        i = i + 1;
    }
    let ghost cs = cands@;
    let out = rank_candidates(cands, max_candidates);
    proof {
        law_ranked_menu_order(out@, cs, max_candidates);
        assert forall|i: int| 0 <= i < out@.len() implies exists|j: int|
            0 <= j < words@.len() && candidate_of(#[trigger] out@[i], words@[j], score_bits@[j]) by {
            let j = choose|j: int| 0 <= j < cs.len() && #[trigger] out@[i] == cs[j];
            assert(candidate_of(cs[j], words@[j], score_bits@[j]));
        }
    }
    out
}

/// Executable counterpart of [`cand_before`].
fn cand_precedes(a: &Candidate, b: &Candidate) -> (r: bool)
    ensures
        r == cand_before(*a, *b),
{
    let ka = crate::order::total_order_key(a.base_score_bits);
    let kb = crate::order::total_order_key(b.base_score_bits);
    if ka != kb {
        return ka > kb;
    }
    let la = a.text.as_str().unicode_len();
    let lb = b.text.as_str().unicode_len();
    if la != lb {
        return la < lb;
    }
    let ca = crate::text::chars_of(a.text.as_str());
    let cb = crate::text::chars_of(b.text.as_str());
    lex_less(&ca, &cb)
}

} // verus!
