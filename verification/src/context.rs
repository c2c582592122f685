//! The model service's per-session context: the texts committed in each session, trimmed to
//! the last eight and to a character budget, with a revision that counts the commits.
use vstd::prelude::*;
use vstd::string::*;
use crate::lattice::str_views;
use crate::state::wrap_inc;

verus! {

/// Committed texts kept per session at most.
pub const MAX_COMMITS: usize = 8;

/// The number of characters of all texts.
pub open spec fn total_chars(c: Seq<Seq<char>>) -> nat
    decreases c.len(),
{
    if c.len() == 0 {
        0
    } else {
        total_chars(c.drop_last()) + c.last().len()
    }
}

/// The last `n` characters of `s` (all of `s` when it is shorter).
pub open spec fn last_chars(s: Seq<char>, n: nat) -> Seq<char> {
    if s.len() > n {
        s.skip(s.len() - n)
    } else {
        s
    }
}

/// The kept context: the oldest texts are dropped while more than eight are kept or they hold
/// more than `max_chars` characters; a single text that is still too long keeps its last
/// `max_chars` characters.
pub open spec fn trimmed(c: Seq<Seq<char>>, max_chars: nat) -> Seq<Seq<char>>
    decreases c.len(),
{
    if c.len() <= MAX_COMMITS && total_chars(c) <= max_chars {
        c
    } else if c.len() > 1 {
        trimmed(c.drop_first(), max_chars)
    } else {
        seq![last_chars(c[0], max_chars)]
    }
}

proof fn lemma_total_prefix(c: Seq<Seq<char>>, i: int)
    requires
        0 <= i < c.len(),
    ensures
        total_chars(c.take(i + 1)) == total_chars(c.take(i)) + c[i].len(),
{
    assert(c.take(i + 1).drop_last() =~= c.take(i));
}

proof fn lemma_total_monotone(c: Seq<Seq<char>>, i: int)
    requires
        0 <= i <= c.len(),
    ensures
        total_chars(c.take(i)) <= total_chars(c),
    decreases c.len() - i,
{
    if i < c.len() {
        lemma_total_prefix(c, i);
        lemma_total_monotone(c, i + 1);
    } else {
        assert(c.take(i) =~= c);
    }
}

/// Whether the texts hold at most `max_chars` characters.
fn fits(c: &Vec<String>, max_chars: usize) -> (b: bool)
    ensures
        b == (total_chars(str_views(c@)) <= max_chars),
{
    let ghost v = str_views(c@);
    let mut acc: usize = 0;
    let mut i: usize = 0;
    while i < c.len()
        invariant
            i <= c@.len(),
            v == str_views(c@),
            acc == total_chars(v.take(i as int)),
            acc <= max_chars,
        decreases c.len() - i,
    {
        let n = c[i].as_str().unicode_len();
        proof {
            lemma_total_prefix(v, i as int);
        }
        if n > max_chars - acc {
            proof {
                lemma_total_monotone(v, i + 1);
            }
            return false;
        }
        acc = acc + n;
        i = i + 1;
    }
    proof {
        assert(v.take(v.len() as int) =~= v);
    }
    true
}

/// The last `n` characters of a text.
fn last_chars_of(s: &String, n: usize) -> (r: String)
    ensures
        r@ == last_chars(s@, n as nat),
{
    let v = crate::text::chars_of(s.as_str());
    if v.len() > n {
        let r = crate::text::string_from_range(&v, v.len() - n, v.len());
        proof {
            assert(v@.subrange(v@.len() - n, v@.len() as int) =~= v@.skip(v@.len() - n));
        }
        r
    } else {
        s.clone()
    }
}

/// Trims a session's committed texts as [`trimmed`] states.
pub fn trim_context(commits: &mut Vec<String>, max_chars: usize)
    ensures
        str_views(final(commits)@) == trimmed(str_views(old(commits)@), max_chars as nat),
{
    loop
        invariant_except_break
            trimmed(str_views(commits@), max_chars as nat) == trimmed(
                str_views(old(commits)@),
                max_chars as nat,
            ),
        ensures
            str_views(commits@) == trimmed(str_views(old(commits)@), max_chars as nat),
        decreases commits@.len(),
    {
        let ghost v = str_views(commits@);
        if commits.len() <= MAX_COMMITS && fits(commits, max_chars) {
            break;
        }
        if commits.len() > 1 {
            commits.remove(0);
            proof {
                assert(str_views(commits@) =~= v.drop_first());
            }
            continue;
        }
        if commits.len() == 1 {
            let last = last_chars_of(&commits[0], max_chars);
            commits.set(0, last);
            proof {
                assert(str_views(commits@) =~= seq![last_chars(v[0], max_chars as nat)]);
            }
        }
        break;
    }
}

/// The kept context always fits: at most eight texts holding at most `max_chars`
/// characters in all.
pub proof fn law_trimmed_context_fits(c: Seq<Seq<char>>, max_chars: nat)
    ensures
        trimmed(c, max_chars).len() <= MAX_COMMITS,
        total_chars(trimmed(c, max_chars)) <= max_chars,
    decreases c.len(),
{
    if c.len() <= MAX_COMMITS && total_chars(c) <= max_chars {
    } else if c.len() > 1 {
        law_trimmed_context_fits(c.drop_first(), max_chars);
    } else {
        let t = seq![last_chars(c[0], max_chars)];
        assert(t.drop_last() =~= Seq::<Seq<char>>::empty());
        assert(total_chars(Seq::<Seq<char>>::empty()) == 0);
        assert(total_chars(t) == total_chars(t.drop_last()) + t.last().len());
        assert(total_chars(t) == t[0].len());
    }
}

/// One session's committed texts and revision.
#[derive(Debug, Clone)]
pub struct ContextSession {
    pub id: String,
    pub commits: Vec<String>,
    pub revision: u64,
}

/// The committed context of every session.
#[derive(Debug, Clone)]
pub struct SessionStore {
    sessions: Vec<ContextSession>,
    max_chars: usize,
}

impl SessionStore {
    /// The store's invariant: one entry per session id, none for the empty id.
    pub closed spec fn wf(&self) -> bool {
        &&& forall|i: int, j: int|
            0 <= i < j < self.sessions@.len() ==> (#[trigger] self.sessions@[i]).id@ != (
            #[trigger] self.sessions@[j]).id@
        &&& forall|i: int| 0 <= i < self.sessions@.len() ==> (#[trigger] self.sessions@[i]).id@.len() > 0
    }

    /// The character budget of each session's context.
    pub closed spec fn max_chars_spec(&self) -> nat {
        self.max_chars as nat
    }

    /// The position of session `id`.
    closed spec fn pos(&self, id: Seq<char>) -> Option<int> {
        if exists|i: int| 0 <= i < self.sessions@.len() && (#[trigger] self.sessions@[i]).id@ == id {
            Some(choose|i: int| 0 <= i < self.sessions@.len() && (#[trigger] self.sessions@[i]).id@ == id)
        } else {
            None
        }
    }

    /// The committed texts of session `id` (none for an unknown session).
    pub closed spec fn context_of(&self, id: Seq<char>) -> Seq<Seq<char>> {
        match self.pos(id) {
            Some(i) => str_views(self.sessions@[i].commits@),
            None => seq![],
        }
    }

    /// The revision of session `id` (zero for an unknown session).
    pub closed spec fn revision_of(&self, id: Seq<char>) -> u64 {
        match self.pos(id) {
            Some(i) => self.sessions@[i].revision,
            None => 0,
        }
    }

    proof fn lemma_pos(&self, k: int)
        requires
            self.wf(),
            0 <= k < self.sessions@.len(),
        ensures
            self.pos(self.sessions@[k].id@) == Some(k),
    {
        let id = self.sessions@[k].id@;
        let c = choose|i: int| 0 <= i < self.sessions@.len() && (#[trigger] self.sessions@[i]).id@ == id;
        if c != k {
            if c < k {
                assert(self.sessions@[c].id@ != self.sessions@[k].id@);
            } else {
                assert(self.sessions@[k].id@ != self.sessions@[c].id@);
            }
        }
    }

    /// Replacing the session at `idx` (whose id stays `id`) changes no other session.
    proof fn lemma_replace_elsewhere(a: SessionStore, b: SessionStore, idx: int, id: Seq<char>)
        requires
            a.wf(),
            b.wf(),
            0 <= idx < a.sessions@.len(),
            b.sessions@.len() == a.sessions@.len(),
            a.sessions@[idx].id@ == id,
            b.sessions@[idx].id@ == id,
            forall|k: int| 0 <= k < a.sessions@.len() && k != idx ==> b.sessions@[k] == a.sessions@[k],
        ensures
            forall|other: Seq<char>| other != id ==> #[trigger] b.context_of(other) == a.context_of(other),
            forall|other: Seq<char>| other != id ==> #[trigger] b.revision_of(other) == a.revision_of(other),
    {
        assert forall|other: Seq<char>|
            #![trigger b.context_of(other)]
            #![trigger b.revision_of(other)]
            other != id implies b.context_of(other) == a.context_of(other) && b.revision_of(other)
                == a.revision_of(other) by {
            if let Some(k) = b.pos(other) {
                b.lemma_pos(k);
                assert(k != idx);
                assert(b.sessions@[k] == a.sessions@[k]);
                a.lemma_pos(k);
            } else {
                if let Some(k) = a.pos(other) {
                    assert(k != idx);
                    assert(b.sessions@[k] == a.sessions@[k]);
                    assert(b.sessions@[k].id@ == other);
                }
            }
        }
    }

    /// An empty store whose contexts keep at most `max_chars` characters.
    pub fn new(max_chars: usize) -> (s: Self)
        ensures
            s.wf(),
            s.max_chars_spec() == max_chars,
            forall|id: Seq<char>| #[trigger] s.context_of(id) == Seq::<Seq<char>>::empty(),
            forall|id: Seq<char>| #[trigger] s.revision_of(id) == 0,
    {
        SessionStore { sessions: Vec::new(), max_chars }
    }

    fn find(&self, id: &str) -> (r: Option<usize>)
        requires
            self.wf(),
        ensures
            match r {
                Some(i) => self.pos(id@) == Some(i as int) && i < self.sessions@.len(),
                None => self.pos(id@) is None,
            },
    {
        let key = id.to_owned();
        let mut i: usize = 0;
        while i < self.sessions.len()
            invariant
                i <= self.sessions@.len(),
                self.wf(),
                key@ == id@,
                forall|j: int| 0 <= j < i ==> (#[trigger] self.sessions@[j]).id@ != id@,
            decreases self.sessions.len() - i,
        {
            if self.sessions[i].id == key {
                proof {
                    self.lemma_pos(i as int);
                }
                return Some(i);
            }
            i = i + 1;
        }
        None
    }

    /// The committed texts of a session, oldest first.
    pub fn context(&self, session_id: &str) -> (r: Vec<String>)
        requires
            self.wf(),
        ensures
            str_views(r@) == self.context_of(session_id@),
    {
        match self.find(session_id) {
            Some(i) => crate::lattice::clone_strings(&self.sessions[i].commits),
            None => Vec::new(),
        }
    }

    /// The revision of a session: how many texts it has committed since it was created.
    pub fn revision(&self, session_id: &str) -> (r: u64)
        requires
            self.wf(),
        ensures
            r == self.revision_of(session_id@),
    {
        match self.find(session_id) {
            Some(i) => self.sessions[i].revision,
            None => 0,
        }
    }

    /// Records a committed text: it is appended to the session's context, which is trimmed,
    /// and the revision advances. An empty session id or text changes nothing. Returns the
    /// session's revision.
    pub fn commit(&mut self, session_id: &str, text: &str) -> (r: u64)
        requires
            old(self).wf(),
        ensures
            final(self).wf(),
            final(self).max_chars_spec() == old(self).max_chars_spec(),
            session_id@.len() == 0 || text@.len() == 0 ==> *final(self) == *old(self) && r
                == old(self).revision_of(session_id@),
            session_id@.len() > 0 && text@.len() > 0 ==> {
                &&& final(self).context_of(session_id@) == trimmed(
                    old(self).context_of(session_id@).push(text@),
                    old(self).max_chars_spec(),
                )
                &&& r == wrap_inc(old(self).revision_of(session_id@))
                &&& final(self).revision_of(session_id@) == r
            },
            forall|other: Seq<char>|
                other != session_id@ ==> #[trigger] final(self).context_of(other) == old(self).context_of(other),
            forall|other: Seq<char>|
                other != session_id@ ==> #[trigger] final(self).revision_of(other) == old(self).revision_of(other),
    {
        if session_id.unicode_len() == 0 || text.unicode_len() == 0 {
            return self.revision(session_id);
        }
        let ghost old_self = *self;
        let idx = match self.find(session_id) {
            Some(i) => i,
            None => {
                self.sessions.push(
                    ContextSession { id: session_id.to_owned(), commits: Vec::new(), revision: 0 },
                );
                proof {
                    assert(self.wf()) by {
                        assert forall|i: int, j: int|
                            0 <= i < j < self.sessions@.len() implies (
                            #[trigger] self.sessions@[i]).id@ != (#[trigger] self.sessions@[j]).id@ by {
                            if j == self.sessions@.len() - 1 {
                                assert(old_self.sessions@[i].id@ != session_id@);
                            }
                        }
                    }
                    self.lemma_pos(self.sessions@.len() - 1);
                    assert forall|other: Seq<char>| other != session_id@ implies #[trigger] self.pos(other)
                        == old_self.pos(other) by {
                        if let Some(k) = self.pos(other) {
                            self.lemma_pos(k);
                            assert(k < old_self.sessions@.len());
                            old_self.lemma_pos(k);
                        } else {
                            if let Some(k) = old_self.pos(other) {
                                assert(self.sessions@[k] == old_self.sessions@[k]);
                            }
                        }
                    }
                }
                self.sessions.len() - 1
            },
        };
        let ghost mid = *self;
        proof {
            assert forall|other: Seq<char>|
                #![trigger mid.context_of(other)]
                #![trigger mid.revision_of(other)]
                other != session_id@ implies mid.context_of(other) == old_self.context_of(other)
                    && mid.revision_of(other) == old_self.revision_of(other) by {
                if mid.pos(other) is Some {
                    let k = mid.pos(other)->0;
                    assert(mid.pos(other) == old_self.pos(other));
                    if k < old_self.sessions@.len() {
                        assert(mid.sessions@[k] == old_self.sessions@[k]);
                    }
                }
            }
            assert(mid.sessions@[idx as int].id@ == session_id@);
        }
        let mut session = self.sessions.remove(idx);
        let owned = text.to_owned();
        let ghost pushed = session.commits@.push(owned);
        session.commits.push(owned);
        trim_context(&mut session.commits, self.max_chars);
        session.revision = if session.revision < u64::MAX {
            session.revision + 1
        } else {
            0
        };
        let r = session.revision;
        self.sessions.insert(idx, session);
        proof {
            assert(self.sessions@ =~= mid.sessions@.update(idx as int, self.sessions@[idx as int]));
            assert(self.wf()) by {
                assert forall|i: int, j: int|
                    0 <= i < j < self.sessions@.len() implies (#[trigger] self.sessions@[i]).id@ != (
                    #[trigger] self.sessions@[j]).id@ by {
                    assert(mid.sessions@[i].id@ != mid.sessions@[j].id@);
                }
            }
            self.lemma_pos(idx as int);
            assert(str_views(pushed) =~= str_views(mid.sessions@[idx as int].commits@).push(text@));
            Self::lemma_replace_elsewhere(mid, *self, idx as int, session_id@);
            assert forall|other: Seq<char>|
                #![trigger self.context_of(other)]
                #![trigger self.revision_of(other)]
                other != session_id@ implies self.context_of(other) == old_self.context_of(other)
                    && self.revision_of(other) == old_self.revision_of(other) by {
                assert(self.context_of(other) == mid.context_of(other));
                assert(mid.context_of(other) == old_self.context_of(other));
                assert(self.revision_of(other) == mid.revision_of(other));
                assert(mid.revision_of(other) == old_self.revision_of(other));
            }
        }
        r
    }

    /// Forgets a session's context; its revision starts over. An empty session id changes
    /// nothing. Returns the session's revision afterwards.
    pub fn reset(&mut self, session_id: &str) -> (r: u64)
        requires
            old(self).wf(),
        ensures
            final(self).wf(),
            final(self).max_chars_spec() == old(self).max_chars_spec(),
            session_id@.len() == 0 ==> *final(self) == *old(self) && r == old(self).revision_of(
                session_id@,
            ),
            session_id@.len() > 0 ==> final(self).context_of(session_id@) == Seq::<
                Seq<char>,
            >::empty() && final(self).revision_of(session_id@) == 0 && r == 0,
            forall|other: Seq<char>|
                other != session_id@ ==> #[trigger] final(self).context_of(other) == old(self).context_of(other),
            forall|other: Seq<char>|
                other != session_id@ ==> #[trigger] final(self).revision_of(other) == old(self).revision_of(other),
    {
        if session_id.unicode_len() == 0 {
            return self.revision(session_id);
        }
        let ghost old_self = *self;
        match self.find(session_id) {
            Some(idx) => {
                self.sessions.remove(idx);
                proof {
                    assert(self.wf()) by {
                        assert forall|i: int, j: int|
                            0 <= i < j < self.sessions@.len() implies (
                            #[trigger] self.sessions@[i]).id@ != (#[trigger] self.sessions@[j]).id@ by {
                            let oi = if i < idx { i } else { i + 1 };
                            let oj = if j < idx { j } else { j + 1 };
                            assert(old_self.sessions@[oi].id@ != old_self.sessions@[oj].id@);
                        }
                    }
                    if let Some(k) = self.pos(session_id@) {
                        let ok = if k < idx { k } else { k + 1 };
                        assert(old_self.sessions@[ok].id@ == session_id@);
                        old_self.lemma_pos(ok);
                    }
                    assert forall|other: Seq<char>|
                        #![trigger self.context_of(other)]
                        #![trigger self.revision_of(other)]
                        other != session_id@ implies self.context_of(other) == old_self.context_of(
                            other,
                        ) && self.revision_of(other) == old_self.revision_of(other) by {
                        if let Some(k) = self.pos(other) {
                            self.lemma_pos(k);
                            let ok = if k < idx { k } else { k + 1 };
                            assert(self.sessions@[k] == old_self.sessions@[ok]);
                            assert(old_self.sessions@[ok].id@ == other);
                            old_self.lemma_pos(ok);
                            assert(old_self.pos(other) == Some(ok));
                        } else {
                            if let Some(k) = old_self.pos(other) {
                                assert(old_self.sessions@[k].id@ == other);
                                assert(old_self.sessions@[idx as int].id@ == session_id@);
                                assert(k != idx);
                                let nk = if k < idx { k } else { k - 1 };
                                assert(self.sessions@[nk] == old_self.sessions@[k]);
                                assert(self.sessions@[nk].id@ == other);
                                assert(false);
                            }
                        }
                    }
                }
            },
            None => {},
        }
        0
    }
}

} // verus!
