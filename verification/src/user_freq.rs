//! User word frequency and its text file format, one `word<TAB>count` line per word. Counts
//! stay local; reading and writing the file is left to the caller.
use vstd::prelude::*;
use crate::scan::{all_digits, digits_value, lines, lines_of, lines_state, parse_unsigned, rows, strip_cr, trim, trim_chars, trim_end_set, trim_start_set, unsigned_digits, CharSet};
use crate::text::{chars_of, push_char, string_from_chars, string_from_range};

verus! {

/// Selection counts per word, in first-recorded order.
#[derive(Debug)]
pub struct UserFreq {
    counts: Vec<(String, u32)>,
}

/// The count stored for `w` (the last pair naming it), zero when absent.
pub open spec fn count_in(s: Seq<(Seq<char>, u32)>, w: Seq<char>) -> u32
    decreases s.len(),
{
    if s.len() == 0 {
        0
    } else if s.last().0 == w {
        s.last().1
    } else {
        count_in(s.drop_last(), w)
    }
}

/// `c + 1`, saturating at `u32::MAX`.
pub open spec fn sat_inc32(c: u32) -> u32 {
    if c < u32::MAX {
        (c + 1) as u32
    } else {
        c
    }
}

impl View for UserFreq {
    type V = Seq<(Seq<char>, u32)>;

    closed spec fn view(&self) -> Seq<(Seq<char>, u32)> {
        self.counts@.map_values(|p: (String, u32)| (p.0@, p.1))
    }
}

proof fn lemma_count_in_update(s: Seq<(Seq<char>, u32)>, i: int, c: u32, w: Seq<char>)
    requires
        0 <= i < s.len(),
        forall|a: int, b: int| 0 <= a < b < s.len() ==> (#[trigger] s[a]).0 != (#[trigger] s[b]).0,
    ensures
        count_in(s, s[i].0) == s[i].1,
        count_in(s.update(i, (s[i].0, c)), w) == (if w == s[i].0 {
            c
        } else {
            count_in(s, w)
        }),
    decreases s.len(),
{
    let t = s.update(i, (s[i].0, c));
    if i < s.len() - 1 {
        assert(t.drop_last() =~= s.drop_last().update(i, (s[i].0, c)));
        lemma_count_in_update(s.drop_last(), i, c, w);
        assert(s.drop_last()[i] == s[i]);
    } else {
        assert(t.drop_last() =~= s.drop_last());
    }
}

proof fn lemma_count_in_absent(s: Seq<(Seq<char>, u32)>, w: Seq<char>)
    requires
        forall|a: int| 0 <= a < s.len() ==> (#[trigger] s[a]).0 != w,
    ensures
        count_in(s, w) == 0,
    decreases s.len(),
{
    if s.len() > 0 {
        lemma_count_in_absent(s.drop_last(), w);
    }
}

/// Every recorded word is one the file format can hold and every count is at least one.
pub open spec fn plain_counts(s: Seq<(Seq<char>, u32)>) -> bool {
    forall|i: int| 0 <= i < s.len() ==> plain_word(#[trigger] s[i].0) && s[i].1 >= 1
}

proof fn lemma_plain_update(s: Seq<(Seq<char>, u32)>, i: int, w: Seq<char>, c: u32)
    requires
        0 <= i < s.len(),
    ensures
        plain_counts(s) && plain_word(w) && c >= 1 ==> plain_counts(s.update(i, (w, c))),
{
    if plain_counts(s) && plain_word(w) && c >= 1 {
        let t = s.update(i, (w, c));
        assert forall|j: int| 0 <= j < t.len() implies plain_word(#[trigger] t[j].0) && t[j].1 >= 1 by {
            if j != i {
                assert(t[j] == s[j]);
            }
        }
    }
}

proof fn lemma_plain_push(s: Seq<(Seq<char>, u32)>, w: Seq<char>, c: u32)
    ensures
        plain_counts(s) && plain_word(w) && c >= 1 ==> plain_counts(s.push((w, c))),
{
    if plain_counts(s) && plain_word(w) && c >= 1 {
        let t = s.push((w, c));
        assert forall|j: int| 0 <= j < t.len() implies plain_word(#[trigger] t[j].0) && t[j].1 >= 1 by {
            if j < s.len() {
                assert(t[j] == s[j]);
            }
        }
    }
}

impl UserFreq {
    /// No word appears twice.
    pub closed spec fn wf(&self) -> bool {
        forall|a: int, b: int|
            0 <= a < b < self.counts@.len() ==> (#[trigger] self.counts@[a]).0@ != (
            #[trigger] self.counts@[b]).0@
    }

    /// The selection count of `w`.
    pub open spec fn spec_count(&self, w: Seq<char>) -> u32 {
        count_in(self@, w)
    }

    /// No selections yet.
    pub fn new() -> (f: Self)
        ensures
            f.wf(),
            f@ == Seq::<(Seq<char>, u32)>::empty(),
            forall|w: Seq<char>| f.spec_count(w) == 0,
    {
        let f = UserFreq { counts: Vec::new() };
        assert(f@ =~= Seq::<(Seq<char>, u32)>::empty());
        f
    }

    /// Records one selection of `word`: its count grows by one (saturating) and no other
    /// count changes.
    pub fn record(&mut self, word: &str)
        requires
            old(self).wf(),
        ensures
            final(self).wf(),
            forall|w: Seq<char>|
                #[trigger] final(self).spec_count(w) == if w == word@ {
                    sat_inc32(old(self).spec_count(w))
                } else {
                    old(self).spec_count(w)
                },
            plain_counts(old(self)@) && plain_word(word@) ==> plain_counts(final(self)@),
    {
        let ghost s = self@;
        let w = word.to_owned();
        let mut i: usize = 0;
        while i < self.counts.len()
            invariant
                self.wf(),
                self@ == s,
                s == old(self)@,
                w@ == word@,
                i <= self.counts@.len(),
                forall|j: int| 0 <= j < i ==> (#[trigger] self.counts@[j]).0@ != word@,
            decreases self.counts.len() - i,
        {
            if self.counts[i].0 == w {
                let count = self.counts[i].1;
                let next = count.saturating_add(1);
                let name = self.counts[i].0.clone();
                let ghost old_counts = self.counts@;
                self.counts.set(i, (name, next));
                proof {
                    assert(s[i as int] == (word@, count));
                    assert(self@ =~= s.update(i as int, (word@, next)));
                    lemma_plain_update(s, i as int, word@, next);
                    lemma_count_in_update(s, i as int, next, word@);
                    assert forall|w: Seq<char>| #[trigger] count_in(self@, w) == if w == word@ {
                        sat_inc32(count_in(s, w))
                    } else {
                        count_in(s, w)
                    } by {
                        lemma_count_in_update(s, i as int, next, w);
                    }
                    assert forall|a: int, b: int|
                        0 <= a < b < self.counts@.len() implies (#[trigger] self.counts@[a]).0@ != (
                        #[trigger] self.counts@[b]).0@ by {
                        assert(self.counts@[a].0@ == old_counts[a].0@);
                        assert(self.counts@[b].0@ == old_counts[b].0@);
                    }
                }
                return;
            }
            i = i + 1;
        }
        let ghost old_counts = self.counts@;
        self.counts.push((w, 1));
        proof {
            lemma_count_in_absent(s, word@);
            assert(self@ =~= s.push((word@, 1u32)));
            lemma_plain_push(s, word@, 1);
            assert(self@.drop_last() =~= s);
            assert forall|a: int, b: int|
                0 <= a < b < self.counts@.len() implies (#[trigger] self.counts@[a]).0@ != (
                #[trigger] self.counts@[b]).0@ by {
                assert(self.counts@[a] == old_counts[a]);
                if b < old_counts.len() {
                    assert(self.counts@[b] == old_counts[b]);
                }
            }
        }
    }

    /// Sets the count of `word`; no other count changes.
    pub fn set_count(&mut self, word: &str, count: u32)
        requires
            old(self).wf(),
        ensures
            final(self).wf(),
            forall|w: Seq<char>|
                #[trigger] final(self).spec_count(w) == if w == word@ {
                    count
                } else {
                    old(self).spec_count(w)
                },
            plain_counts(old(self)@) && plain_word(word@) && count >= 1 ==> plain_counts(
                final(self)@,
            ),
    {
        let ghost s = self@;
        let w = word.to_owned();
        let mut i: usize = 0;
        while i < self.counts.len()
            invariant
                self.wf(),
                self@ == s,
                s == old(self)@,
                w@ == word@,
                i <= self.counts@.len(),
                forall|j: int| 0 <= j < i ==> (#[trigger] self.counts@[j]).0@ != word@,
            decreases self.counts.len() - i,
        {
            if self.counts[i].0 == w {
                let name = self.counts[i].0.clone();
                let ghost old_counts = self.counts@;
                self.counts.set(i, (name, count));
                proof {
                    assert(s[i as int].0 == word@);
                    assert(self@ =~= s.update(i as int, (word@, count)));
                    lemma_plain_update(s, i as int, word@, count);
                    assert forall|x: Seq<char>| #[trigger] count_in(self@, x) == if x == word@ {
                        count
                    } else {
                        count_in(s, x)
                    } by {
                        lemma_count_in_update(s, i as int, count, x);
                    }
                    assert forall|a: int, b: int|
                        0 <= a < b < self.counts@.len() implies (#[trigger] self.counts@[a]).0@ != (
                        #[trigger] self.counts@[b]).0@ by {
                        assert(self.counts@[a].0@ == old_counts[a].0@);
                        assert(self.counts@[b].0@ == old_counts[b].0@);
                    }
                }
                return;
            }
            i = i + 1;
        }
        let ghost old_counts = self.counts@;
        self.counts.push((w, count));
        proof {
            lemma_count_in_absent(s, word@);
            assert(self@ =~= s.push((word@, count)));
            lemma_plain_push(s, word@, count);
            assert(self@.drop_last() =~= s);
            assert forall|a: int, b: int|
                0 <= a < b < self.counts@.len() implies (#[trigger] self.counts@[a]).0@ != (
                #[trigger] self.counts@[b]).0@ by {
                assert(self.counts@[a] == old_counts[a]);
                if b < old_counts.len() {
                    assert(self.counts@[b] == old_counts[b]);
                }
            }
        }
    }

    /// The selection count of `word`, zero if it was never selected.
    pub fn count(&self, word: &str) -> (c: u32)
        ensures
            c == self.spec_count(word@),
    {
        let ghost s = self@;
        let w = word.to_owned();
        let mut i = self.counts.len();
        assert(s.take(i as int) =~= s);
        while i > 0
            invariant
                self@ == s,
                w@ == word@,
                i <= s.len(),
                count_in(s, word@) == count_in(s.take(i as int), word@),
            decreases i,
        {
            proof {
                assert(s.take(i as int).drop_last() =~= s.take(i - 1));
                assert(s.take(i as int).last() == s[i - 1]);
            }
            if self.counts[i - 1].0 == w {
                return self.counts[i - 1].1;
            }
            i = i - 1;
        }
        assert(s.take(0) =~= Seq::<(Seq<char>, u32)>::empty());
        0
    }

    /// The recorded words and their counts, in first-recorded order.
    pub fn entries(&self) -> (e: &Vec<(String, u32)>)
        ensures
            e@.map_values(|p: (String, u32)| (p.0@, p.1)) == self@,
    {
        &self.counts
    }
}

impl Default for UserFreq {
    fn default() -> (f: Self)
        ensures
            f.wf(),
            forall|w: Seq<char>| f.spec_count(w) == 0,
    {
        UserFreq::new()
    }
}

/// The position of the first tab of `l`, or its length when it has none.
pub open spec fn first_tab(l: Seq<char>) -> nat
    decreases l.len(),
{
    if l.len() == 0 {
        0
    } else if l[0] == '\t' {
        0
    } else {
        1 + first_tab(l.drop_first())
    }
}

/// What one line of the frequency file records: the word before the first tab and the count
/// after it (trimmed, read as a `u32`, and at least one), when there is a tab, the word is not
/// empty and the count reads.
pub open spec fn freq_line(l: Seq<char>) -> Option<(Seq<char>, u32)> {
    let k = first_tab(l);
    if k >= l.len() || k == 0 {
        None
    } else {
        match parse_unsigned(trim(l.skip(k + 1int)), u32::MAX as nat) {
            Some(n) => Some((l.take(k as int), if n == 0 {
                1u32
            } else {
                n as u32
            })),
            None => None,
        }
    }
}

/// The count that the lines of a frequency file give `w`: the last line that records it
/// decides; zero when none does.
pub open spec fn text_count(ls: Seq<Seq<char>>, w: Seq<char>) -> u32
    decreases ls.len(),
{
    if ls.len() == 0 {
        0
    } else {
        match freq_line(ls.last()) {
            Some(p) => if p.0 == w {
                p.1
            } else {
                text_count(ls.drop_last(), w)
            },
            None => text_count(ls.drop_last(), w),
        }
    }
}

proof fn lemma_first_tab(l: Seq<char>, k: int)
    requires
        0 <= k <= l.len(),
        forall|j: int| 0 <= j < k ==> l[j] != '\t',
        k == l.len() || l[k] == '\t',
    ensures
        first_tab(l) == k,
    decreases k,
{
    if k > 0 {
        lemma_first_tab(l.drop_first(), k - 1);
    }
}

proof fn lemma_first_tab_before(l: Seq<char>, j: int)
    requires
        0 <= j < first_tab(l),
    ensures
        j < l.len(),
        l[j] != '\t',
    decreases l.len(),
{
    if j > 0 {
        lemma_first_tab_before(l.drop_first(), j - 1);
    }
}

/// A line without a newline records a word the format can hold, with a count of at least one.
proof fn lemma_freq_line_plain(l: Seq<char>)
    requires
        !l.contains('\n'),
    ensures
        freq_line(l) matches Some(p) ==> plain_word(p.0) && p.1 >= 1,
{
    let k = first_tab(l);
    if let Some(p) = freq_line(l) {
        let w = l.take(k as int);
        assert(p.0 == w);
        if w.contains('\t') {
            let j = choose|j: int| 0 <= j < w.len() && w[j] == '\t';
            lemma_first_tab_before(l, j);
        }
        if w.contains('\n') {
            let j = choose|j: int| 0 <= j < w.len() && w[j] == '\n';
            assert(l[j] == '\n');
        }
    }
}

proof fn lemma_lines_state_no_newline(s: Seq<char>)
    ensures
        forall|i: int|
            0 <= i < lines_state(s).0.len() ==> !(#[trigger] lines_state(s).0[i]).contains('\n'),
        !lines_state(s).1.contains('\n'),
    decreases s.len(),
{
    if s.len() > 0 {
        lemma_lines_state_no_newline(s.drop_last());
        let (done, cur) = lines_state(s.drop_last());
        if s.last() == '\n' {
            let sc = strip_cr(cur);
            if sc.contains('\n') {
                let j = choose|j: int| 0 <= j < sc.len() && sc[j] == '\n';
                assert(cur[j] == '\n');
            }
            let d = done.push(sc);
            assert forall|i: int| 0 <= i < d.len() implies !(#[trigger] d[i]).contains('\n') by {
                if i < done.len() {
                    assert(d[i] == done[i]);
                }
            }
            assert(!Seq::<char>::empty().contains('\n'));
        } else {
            let c = cur.push(s.last());
            if c.contains('\n') {
                let j = choose|j: int| 0 <= j < c.len() && c[j] == '\n';
                if j < cur.len() {
                    assert(cur[j] == '\n');
                }
            }
        }
    }
}

/// No line of a text holds a newline.
proof fn lemma_lines_no_newline(s: Seq<char>)
    ensures
        forall|i: int| 0 <= i < lines(s).len() ==> !(#[trigger] lines(s)[i]).contains('\n'),
{
    lemma_lines_state_no_newline(s);
    let (done, cur) = lines_state(s);
    if cur.len() > 0 {
        let d = done.push(cur);
        assert forall|i: int| 0 <= i < d.len() implies !(#[trigger] d[i]).contains('\n') by {
            if i < done.len() {
                assert(d[i] == done[i]);
            }
        }
    }
}

/// Reads one line of the frequency file as [`freq_line`] states.
fn parse_freq_line(l: &Vec<char>) -> (r: Option<(String, u32)>)
    ensures
        match r {
            Some(p) => freq_line(l@) == Some((p.0@, p.1)),
            None => freq_line(l@) is None,
        },
{
    let mut k: usize = 0;
    while k < l.len() && l[k] != '\t'
        invariant
            k <= l@.len(),
            forall|j: int| 0 <= j < k ==> l@[j] != '\t',
        decreases l.len() - k,
    {
        k = k + 1;
    }
    proof {
        lemma_first_tab(l@, k as int);
    }
    if k >= l.len() || k == 0 {
        return None;
    }
    let rest = string_from_range(l, k + 1, l.len());
    let rest_chars = chars_of(rest.as_str());
    let trimmed = string_from_chars(&trim_chars(&rest_chars, CharSet::Space));
    proof {
        assert(l@.subrange(k + 1, l@.len() as int) =~= l@.skip(k + 1));
    }
    match crate::scan::parse_unsigned_max(trimmed.as_str(), 0xffff_ffff) {
        Some(n) => {
            let word = string_from_range(l, 0, k);
            proof {
                assert(l@.subrange(0, k as int) =~= l@.take(k as int));
            }
            let c: u32 = if n == 0 {
                1
            } else {
                n as u32
            };
            Some((word, c))
        },
        None => None,
    }
}

/// The decimal digit `d` (below ten).
pub open spec fn digit_char(d: nat) -> char {
    if d == 0 {
        '0'
    } else if d == 1 {
        '1'
    } else if d == 2 {
        '2'
    } else if d == 3 {
        '3'
    } else if d == 4 {
        '4'
    } else if d == 5 {
        '5'
    } else if d == 6 {
        '6'
    } else if d == 7 {
        '7'
    } else if d == 8 {
        '8'
    } else {
        '9'
    }
}

/// The decimal digits of `n`, without leading zeros.
pub open spec fn decimal(n: nat) -> Seq<char>
    decreases n,
{
    if n < 10 {
        seq![digit_char(n)]
    } else {
        decimal(n / 10).push(digit_char(n % 10))
    }
}

fn digit_of(d: u32) -> (c: char)
    requires
        d < 10,
    ensures
        c == digit_char(d as nat),
{
    if d == 0 {
        '0'
    } else if d == 1 {
        '1'
    } else if d == 2 {
        '2'
    } else if d == 3 {
        '3'
    } else if d == 4 {
        '4'
    } else if d == 5 {
        '5'
    } else if d == 6 {
        '6'
    } else if d == 7 {
        '7'
    } else if d == 8 {
        '8'
    } else {
        '9'
    }
}

/// Appends the decimal digits of `n`.
fn push_decimal(s: &mut String, n: u32)
    ensures
        final(s)@ == old(s)@ + decimal(n as nat),
    decreases n,
{
    if n >= 10 {
        push_decimal(s, n / 10);
    }
    push_char(s, digit_of(n % 10));
    proof {
        if n >= 10 {
            assert(decimal(n as nat) == decimal((n / 10) as nat).push(digit_char((n % 10) as nat)));
        }
        assert(final(s)@ =~= old(s)@ + decimal(n as nat));
    }
}

/// The frequency file's text for the given counts: one `word<TAB>count` line per word.
pub open spec fn freq_text(s: Seq<(Seq<char>, u32)>) -> Seq<char>
    decreases s.len(),
{
    if s.len() == 0 {
        seq![]
    } else {
        freq_text(s.drop_last()) + s.last().0 + seq!['\t'] + decimal(s.last().1 as nat) + seq![
            '\n',
        ]
    }
}

/// A word that the file format can hold: non-empty, without tabs and newlines.
pub open spec fn plain_word(w: Seq<char>) -> bool {
    w.len() > 0 && !w.contains('\t') && !w.contains('\n')
}

proof fn lemma_digit_value(d: nat)
    requires
        d < 10,
    ensures
        (digit_char(d) as u32) - ('0' as u32) == d,
        '0' <= digit_char(d) <= '9',
{
}

proof fn lemma_decimal(n: nat)
    ensures
        decimal(n).len() > 0,
        all_digits(decimal(n)),
        digits_value(decimal(n)) == n,
        !crate::scan::is_space(decimal(n)[0]),
        !crate::scan::is_space(decimal(n).last()),
        decimal(n)[0] != '+',
        !decimal(n).contains('\t'),
        !decimal(n).contains('\n'),
    decreases n,
{
    if n < 10 {
        lemma_digit_value(n);
        assert(decimal(n).drop_last() =~= Seq::<char>::empty());
        assert(decimal(n).last() == digit_char(n));
        assert(digits_value(decimal(n)) == digits_value(decimal(n).drop_last()) * 10 + ((digit_char(n) as u32) - ('0' as u32)) as nat);
        assert(digits_value(decimal(n)) == n);
    } else {
        lemma_decimal(n / 10);
        lemma_digit_value(n % 10);
        let s = decimal(n / 10);
        let t = s.push(digit_char(n % 10));
        assert(t.drop_last() =~= s);
        assert(digits_value(t) == digits_value(s) * 10 + (n % 10));
        assert((n / 10) * 10 + n % 10 == n);
        assert(decimal(n) == t);
        assert(digits_value(decimal(n)) == n);
        assert forall|i: int| 0 <= i < t.len() implies '0' <= #[trigger] t[i] && t[i] <= '9' by {
            if i < s.len() {
                assert(t[i] == s[i]);
            }
        }
        assert(t[0] == s[0]);
        if t.contains('\t') {
            let i = choose|i: int| 0 <= i < t.len() && t[i] == '\t';
            assert('0' <= t[i] <= '9');
        }
        if t.contains('\n') {
            let i = choose|i: int| 0 <= i < t.len() && t[i] == '\n';
            assert('0' <= t[i] <= '9');
        }
    }
}

proof fn lemma_freq_line_of(w: Seq<char>, c: u32)
    requires
        plain_word(w),
        c >= 1,
    ensures
        freq_line(w + seq!['\t'] + decimal(c as nat)) == Some((w, c)),
{
    let d = decimal(c as nat);
    let l = w + seq!['\t'] + d;
    lemma_decimal(c as nat);
    assert forall|j: int| 0 <= j < w.len() implies l[j] != '\t' by {
        assert(l[j] == w[j]);
        if w[j] == '\t' {
            assert(w.contains('\t'));
        }
    }
    lemma_first_tab(l, w.len() as int);
    assert(l.skip(w.len() + 1int) =~= d);
    assert(l.take(w.len() as int) =~= w);
    assert(trim_start_set(d, CharSet::Space) == d);
    assert(trim_end_set(d, CharSet::Space) == d);
    assert(unsigned_digits(d) == d);
}

proof fn lemma_lines_append(a: Seq<char>, l: Seq<char>)
    requires
        lines_state(a).1 == Seq::<char>::empty(),
        !l.contains('\n'),
    ensures
        lines_state(a + l + seq!['\n']) == (lines_state(a).0.push(strip_cr(l)), Seq::<char>::empty()),
{
    lemma_lines_prefix(a, l, l.len() as int);
    let b = a + l + seq!['\n'];
    assert(l.take(l.len() as int) =~= l);
    assert(b.drop_last() =~= a + l.take(l.len() as int));
    assert(b.last() == '\n');
}

proof fn lemma_lines_prefix(a: Seq<char>, l: Seq<char>, k: int)
    requires
        lines_state(a).1 == Seq::<char>::empty(),
        !l.contains('\n'),
        0 <= k <= l.len(),
    ensures
        lines_state(a + l.take(k)) == (lines_state(a).0, l.take(k)),
    decreases k,
{
    if k == 0 {
        assert(a + l.take(0) =~= a);
        assert(l.take(0) =~= Seq::<char>::empty());
    } else {
        lemma_lines_prefix(a, l, k - 1);
        let b = a + l.take(k);
        assert(b.drop_last() =~= a + l.take(k - 1));
        assert(b.last() == l[k - 1]);
        if l[k - 1] == '\n' {
            assert(l.contains('\n'));
        }
        assert(l.take(k - 1).push(l[k - 1]) =~= l.take(k));
    }
}

proof fn lemma_text_lines(s: Seq<(Seq<char>, u32)>)
    requires
        forall|i: int| 0 <= i < s.len() ==> plain_word(#[trigger] s[i].0) && s[i].1 >= 1,
    ensures
        lines_state(freq_text(s)).1 == Seq::<char>::empty(),
        forall|w: Seq<char>| #[trigger] text_count(lines_state(freq_text(s)).0, w) == count_in(s, w),
    decreases s.len(),
{
    if s.len() > 0 {
        let p = s.drop_last();
        assert forall|i: int| 0 <= i < p.len() implies plain_word(#[trigger] p[i].0) && p[i].1 >= 1 by {
            assert(p[i] == s[i]);
        }
        lemma_text_lines(p);
        let e = s.last();
        assert(plain_word(s[s.len() - 1].0));
        let line = e.0 + seq!['\t'] + decimal(e.1 as nat);
        lemma_decimal(e.1 as nat);
        assert(!line.contains('\n')) by {
            if line.contains('\n') {
                let i = choose|i: int| 0 <= i < line.len() && line[i] == '\n';
                if i < e.0.len() {
                    assert(e.0[i] == '\n');
                    assert(e.0.contains('\n'));
                } else if i > e.0.len() {
                    let d = decimal(e.1 as nat);
                    assert(d[i - e.0.len() - 1] == '\n');
                    assert(d.contains('\n'));
                }
            }
        };
        assert(freq_text(s) =~= freq_text(p) + line + seq!['\n']);
        lemma_lines_append(freq_text(p), line);
        assert(line.last() == decimal(e.1 as nat).last());
        assert(strip_cr(line) == line);
        lemma_freq_line_of(e.0, e.1);
        let ls = lines_state(freq_text(s)).0;
        assert(ls.drop_last() == lines_state(freq_text(p)).0);
        assert(ls.last() == line);
        assert forall|w: Seq<char>| #[trigger] text_count(ls, w) == count_in(s, w) by {
            assert(freq_line(ls.last()) == Some((e.0, e.1)));
            assert(text_count(ls.drop_last(), w) == count_in(p, w));
        }
    }
}

/// Writing counts as text and reading the text back gives every word its count, for words
/// the format can hold (non-empty, without tabs or newlines) and counts of at least one.
pub proof fn law_text_round_trip(f: UserFreq)
    requires
        plain_counts(f@),
    ensures
        forall|w: Seq<char>| #[trigger] text_count(lines(freq_text(f@)), w) == f.spec_count(w),
{
    lemma_text_lines(f@);
}

impl UserFreq {
    /// The counts a frequency file's text gives: for each line that records a word and a
    /// count, the last such line decides.
    pub fn from_text(contents: &str) -> (f: UserFreq)
        ensures
            f.wf(),
            forall|w: Seq<char>| #[trigger] f.spec_count(w) == text_count(lines(contents@), w),
            plain_counts(f@),
    {
        let ls = lines_of(contents);
        let mut f = UserFreq::new();
        proof {
            lemma_lines_no_newline(contents@);
        }
        let mut i: usize = 0;
        while i < ls.len()
            invariant
                i <= ls@.len(),
                rows(ls@) == lines(contents@),
                forall|j: int|
                    0 <= j < lines(contents@).len() ==> !(#[trigger] lines(contents@)[j]).contains(
                        '\n',
                    ),
                plain_counts(f@),
                f.wf(),
                forall|w: Seq<char>| #[trigger] f.spec_count(w) == text_count(rows(ls@).take(i as int), w),
            decreases ls.len() - i,
        {
            proof {
                assert(rows(ls@).take(i + 1).drop_last() =~= rows(ls@).take(i as int));
                assert(rows(ls@).take(i + 1).last() == ls@[i as int]@);
            }
            proof {
                assert(rows(ls@)[i as int] == ls@[i as int]@);
                lemma_freq_line_plain(ls@[i as int]@);
            }
            match parse_freq_line(&ls[i]) {
                Some(p) => {
                    f.set_count(p.0.as_str(), p.1);
                },
                None => {},
            }
            i = i + 1;
        }
        proof {
            assert(rows(ls@).take(ls@.len() as int) =~= rows(ls@));
        }
        f
    }

    /// The frequency file's text: one `word<TAB>count` line per word, in first-recorded
    /// order.
    pub fn to_text(&self) -> (r: String)
        ensures
            r@ == freq_text(self@),
    {
        let mut r = String::new();
        let mut i: usize = 0;
        while i < self.counts.len()
            invariant
                i <= self.counts@.len(),
                r@ == freq_text(self@.take(i as int)),
            decreases self.counts.len() - i,
        {
            proof {
                assert(self@.take(i + 1).drop_last() =~= self@.take(i as int));
                assert(self@.take(i + 1).last() == (self.counts@[i as int].0@, self.counts@[i as int].1));
            }
            r.append(self.counts[i].0.as_str());
            push_char(&mut r, '\t');
            push_decimal(&mut r, self.counts[i].1);
            push_char(&mut r, '\n');
            i = i + 1;
        }
        proof {
            assert(self@.take(self@.len() as int) =~= self@);
        }
        r
    }
}

} // verus!
