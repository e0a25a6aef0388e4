//! The poll that every guild member can vote in, and the bot's shared state.
use vstd::prelude::*;
use crate::text::{append, decimal, digits, push_decimal};

verus! {

/// The position of the first entry for `choice`; `entries.len()` where there is none.
pub open spec fn choice_index(entries: Seq<(Seq<char>, u32)>, choice: Seq<char>) -> nat
    decreases entries.len(),
{
    if entries.len() == 0 {
        0
    } else {
        let r = choice_index(entries.drop_last(), choice);
        if r < entries.len() - 1 {
            r
        } else if entries.last().0 == choice {
            (entries.len() - 1) as nat
        } else {
            entries.len()
        }
    }
}

/// The number of votes for `choice` (0 where nobody voted for it).
pub open spec fn count_of(entries: Seq<(Seq<char>, u32)>, choice: Seq<char>) -> u32 {
    let k = choice_index(entries, choice);
    if k < entries.len() {
        entries[k as int].1
    } else {
        0
    }
}

/// The entries after one more vote for `choice`: its count grows by one, or it comes last
/// with one vote.
pub open spec fn one_more(entries: Seq<(Seq<char>, u32)>, choice: Seq<char>) -> Seq<(Seq<char>, u32)> {
    let k = choice_index(entries, choice);
    if k < entries.len() {
        entries.update(k as int, (choice, (entries[k as int].1 + 1) as u32))
    } else {
        entries.push((choice, 1u32))
    }
}

proof fn lemma_choice_index_stable(s: Seq<(Seq<char>, u32)>, c: Seq<char>, m: int)
    requires
        0 <= m <= s.len(),
        choice_index(s.take(m), c) < m,
    ensures
        choice_index(s, c) == choice_index(s.take(m), c),
    decreases s.len() - m,
{
    if s.len() == m {
        assert(s.take(m) =~= s);
    } else {
        let t = s.drop_last();
        assert(t.take(m) =~= s.take(m));
        lemma_choice_index_stable(t, c, m);
    }
}

proof fn lemma_choice_index_found(s: Seq<(Seq<char>, u32)>, c: Seq<char>)
    requires
        choice_index(s, c) < s.len(),
    ensures
        s[choice_index(s, c) as int].0 == c,
    decreases s.len(),
{
    let t = s.drop_last();
    if choice_index(t, c) < t.len() {
        lemma_choice_index_found(t, c);
    }
}

/// A vote adds exactly one to its choice and leaves every other choice's count as it was.
pub proof fn lemma_vote_counts_once(entries: Seq<(Seq<char>, u32)>, choice: Seq<char>, other: Seq<char>)
    requires
        count_of(entries, choice) < u32::MAX,
    ensures
        count_of(one_more(entries, choice), choice) == count_of(entries, choice) + 1,
        other != choice ==> count_of(one_more(entries, choice), other) == count_of(entries, other),
{
    let k = choice_index(entries, choice);
    let e2 = one_more(entries, choice);
    if k < entries.len() {
        lemma_choice_index_found(entries, choice);
        lemma_choice_index_same(entries, e2, choice);
        lemma_choice_index_same(entries, e2, other);
        if choice_index(entries, other) < entries.len() {
            lemma_choice_index_found(entries, other);
        }
    } else {
        lemma_choice_index_push(entries, choice, other);
    }
}

proof fn lemma_choice_index_same(s: Seq<(Seq<char>, u32)>, u: Seq<(Seq<char>, u32)>, c: Seq<char>)
    requires
        s.len() == u.len(),
        forall|i: int| 0 <= i < s.len() ==> (#[trigger] s[i]).0 == u[i].0,
    ensures
        choice_index(s, c) == choice_index(u, c),
    decreases s.len(),
{
    if s.len() > 0 {
        lemma_choice_index_same(s.drop_last(), u.drop_last(), c);
    }
}

proof fn lemma_choice_index_push(s: Seq<(Seq<char>, u32)>, c: Seq<char>, d: Seq<char>)
    requires
        choice_index(s, c) == s.len(),
    ensures
        count_of(s.push((c, 1u32)), c) == 1,
        d != c ==> count_of(s.push((c, 1u32)), d) == count_of(s, d),
{
    let u = s.push((c, 1u32));
    assert(u.drop_last() =~= s);
    assert(u.last() == (c, 1u32));
    assert(choice_index(u, c) == s.len());
    if d != c {
        if choice_index(s, d) < s.len() {
            assert(choice_index(u, d) == choice_index(s, d));
        } else {
            assert(choice_index(u, d) == u.len());
        }
    }
}

/// No choice comes twice in `entries`.
pub open spec fn choices_distinct(entries: Seq<(Seq<char>, u32)>) -> bool {
    forall|i: int, j: int| 0 <= i < j < entries.len() ==> entries[i].0 != entries[j].0
}

proof fn lemma_choice_index_absent(s: Seq<(Seq<char>, u32)>, c: Seq<char>)
    requires
        choice_index(s, c) == s.len(),
    ensures
        forall|i: int| 0 <= i < s.len() ==> (#[trigger] s[i]).0 != c,
    decreases s.len(),
{
    if s.len() > 0 {
        let t = s.drop_last();
        lemma_choice_index_absent(t, c);
        assert forall|i: int| 0 <= i < s.len() implies (#[trigger] s[i]).0 != c by {
            if i < t.len() {
                assert(s[i] == t[i]);
            }
        }
    }
}

/// A vote keeps every choice once.
pub proof fn lemma_vote_keeps_choices_distinct(entries: Seq<(Seq<char>, u32)>, choice: Seq<char>)
    requires
        choices_distinct(entries),
    ensures
        choices_distinct(one_more(entries, choice)),
{
    let k = choice_index(entries, choice);
    let u = one_more(entries, choice);
    if k < entries.len() {
        lemma_choice_index_found(entries, choice);
        assert forall|i: int, j: int| 0 <= i < j < u.len() implies u[i].0 != u[j].0 by {
            assert(u[i].0 == entries[i].0 && u[j].0 == entries[j].0);
        }
    } else {
        lemma_choice_index_absent(entries, choice);
        assert forall|i: int, j: int| 0 <= i < j < u.len() implies u[i].0 != u[j].0 by {
            assert(u[i] == entries[i]);
            if j < entries.len() {
                assert(u[j] == entries[j]);
            }
        }
    }
}

/// The votes of a poll: each choice once, with its number of votes, in the order of the first
/// vote.
pub struct VoteTally {
    entries: Vec<(String, u32)>,
}

impl VoteTally {
    #[verifier::type_invariant]
    spec fn well_formed(self) -> bool {
        choices_distinct(self@)
    }
}

impl View for VoteTally {
    type V = Seq<(Seq<char>, u32)>;

    closed spec fn view(&self) -> Seq<(Seq<char>, u32)> {
        self.entries@.map_values(|e: (String, u32)| (e.0@, e.1))
    }
}

impl VoteTally {
    /// A poll with no vote.
    pub fn new() -> (t: VoteTally)
        ensures
            t@ == Seq::<(Seq<char>, u32)>::empty(),
    {
        let t = VoteTally { entries: Vec::new() };
        assert(t@ =~= Seq::<(Seq<char>, u32)>::empty());
        t
    }

    fn index_of(&self, choice: &String) -> (k: usize)
        ensures
            k == choice_index(self@, choice@),
            k <= self@.len(),
    {
        let ghost s = self@;
        let mut i: usize = 0;
        while i < self.entries.len()
            invariant
                i <= self.entries.len(),
                s == self@,
                s.len() == self.entries.len(),
                choice_index(s.take(i as int), choice@) == i,
            decreases self.entries.len() - i,
        {
            proof {
                assert(s.take(i + 1).drop_last() =~= s.take(i as int));
                assert(s[i as int].0 == self.entries@[i as int].0@);
            }
            if self.entries[i].0 == *choice {
                proof {
                    lemma_choice_index_stable(s, choice@, i + 1);
                }
                return i;
            }
            i = i + 1;
        }
        assert(s.take(s.len() as int) =~= s);
        self.entries.len()
    }

    /// The number of votes for `choice`.
    pub fn votes_for(&self, choice: &String) -> (n: u32)
        ensures
            n == count_of(self@, choice@),
    {
        let k = self.index_of(choice);
        if k < self.entries.len() {
            self.entries[k].1
        } else {
            0
        }
    }

    /// One more vote for `choice`; answers its new number of votes.
    pub fn vote(&mut self, choice: String) -> (n: u32)
        requires
            count_of(old(self)@, choice@) < u32::MAX,
        ensures
            final(self)@ == one_more(old(self)@, choice@),
            n == count_of(old(self)@, choice@) + 1,
    {
        proof {
            use_type_invariant(&*self);
            lemma_vote_keeps_choices_distinct(self@, choice@);
        }
        let ghost before = self@;
        let k = self.index_of(&choice);
        let mut entries: Vec<(String, u32)> = Vec::new();
        std::mem::swap(&mut entries, &mut self.entries);
        let ghost target = one_more(before, choice@);
        let n = if k < entries.len() {
            let n = entries[k].1 + 1;
            proof {
                lemma_choice_index_found(before, choice@);
            }
            entries.set(k, (choice, n));
            n
        } else {
            entries.push((choice, 1));
            1
        };
        assert(entries@.map_values(|e: (String, u32)| (e.0@, e.1)) =~= target);
        self.entries = entries;
        n
    }

    /// The choices and their votes, in order; no choice comes twice.
    pub fn entries(&self) -> (v: &Vec<(String, u32)>)
        ensures
            v@.map_values(|e: (String, u32)| (e.0@, e.1)) == self@,
            choices_distinct(self@),
    {
        proof {
            use_type_invariant(self);
        }
        &self.entries
    }
}

/// The answer to a vote.
pub open spec fn vote_text(choice: Seq<char>, n: u32) -> Seq<char> {
    "Successfully voted for "@ + choice + ". "@ + choice + " now has "@ + decimal(n as int) + " votes!"@
}

/// Registers a vote for `choice` and answers with its new number of votes.
pub fn vote(tally: &mut VoteTally, choice: String) -> (m: String)
    requires
        count_of(old(tally)@, choice@) < u32::MAX,
    ensures
        final(tally)@ == one_more(old(tally)@, choice@),
        m@ == vote_text(choice@, (count_of(old(tally)@, choice@) + 1) as u32),
{
    let n = tally.vote(choice.clone());
    let mut m = "Successfully voted for ".to_owned();
    append(&mut m, choice.as_str());
    append(&mut m, ". ");
    append(&mut m, choice.as_str());
    append(&mut m, " now has ");
    push_decimal(&mut m, n as i64);
    append(&mut m, " votes!");
    m
}

/// The answer about one choice.
pub open spec fn choice_text(choice: Seq<char>, n: u32) -> Seq<char> {
    if n == 0 {
        "Nobody has voted for "@ + choice + " yet"@
    } else {
        decimal(n as int) + " people have voted for "@ + choice
    }
}

proof fn lemma_digits_start(n: nat)
    ensures
        digits(n).len() >= 1,
        digits(n)[0] != 'N',
    decreases n,
{
    if n >= 10 {
        lemma_digits_start(n / 10);
        assert(digits(n)[0] == digits(n / 10)[0]);
    }
}

/// The answer about a choice says that nobody voted for it exactly when its count is 0.
pub proof fn lemma_nobody_only_at_zero(choice: Seq<char>, n: u32)
    ensures
        (choice_text(choice, n) == "Nobody has voted for "@ + choice + " yet"@) <==> n == 0,
{
    if n > 0 {
        reveal_strlit("Nobody has voted for ");
        lemma_digits_start(n as nat);
        let lhs = choice_text(choice, n);
        let rhs = "Nobody has voted for "@ + choice + " yet"@;
        assert(lhs[0] == digits(n as nat)[0]);
        assert(rhs[0] == 'N');
        assert(lhs != rhs);
    }
}

/// After a vote for a choice, the answer about it counts that vote: it tells the new number of
/// votes, never that nobody voted.
pub proof fn lemma_answer_after_vote(entries: Seq<(Seq<char>, u32)>, choice: Seq<char>)
    requires
        count_of(entries, choice) < u32::MAX,
    ensures
        count_of(one_more(entries, choice), choice) == count_of(entries, choice) + 1,
        choice_text(choice, count_of(one_more(entries, choice), choice)) == decimal(
            count_of(entries, choice) + 1,
        ) + " people have voted for "@ + choice,
        choice_text(choice, count_of(one_more(entries, choice), choice)) != "Nobody has voted for "@ + choice
            + " yet"@,
{
    lemma_vote_counts_once(entries, choice, choice);
    lemma_nobody_only_at_zero(choice, count_of(one_more(entries, choice), choice));
}

/// Every choice with its votes, one after the other.
pub open spec fn all_votes_text(entries: Seq<(Seq<char>, u32)>) -> Seq<char>
    decreases entries.len(),
{
    if entries.len() == 0 {
        seq![]
    } else {
        all_votes_text(entries.drop_last()) + entries.last().0 + ": "@ + decimal(
            entries.last().1 as int,
        ) + " votes"@
    }
}

/// The answer about all choices.
pub open spec fn getvotes_text(entries: Seq<(Seq<char>, u32)>) -> Seq<char> {
    if all_votes_text(entries).len() == 0 {
        "Nobody has voted for anything yet :("@
    } else {
        all_votes_text(entries)
    }
}

/// The answer to a request for the votes of `choice`, or of every choice.
pub fn getvotes(tally: &VoteTally, choice: Option<String>) -> (m: String)
    ensures
        m@ == match choice {
            Some(c) => choice_text(c@, count_of(tally@, c@)),
            None => getvotes_text(tally@),
        },
        choice matches Some(c) ==> (m@ == "Nobody has voted for "@ + c@ + " yet"@ <==> count_of(tally@, c@) == 0),
{
    proof {
        if let Some(c) = &choice {
            lemma_nobody_only_at_zero(c@, count_of(tally@, c@));
        }
    }
    match choice {
        Some(c) => {
            let n = tally.votes_for(&c);
            if n == 0 {
                let mut m = "Nobody has voted for ".to_owned();
                append(&mut m, c.as_str());
                append(&mut m, " yet");
                m
            } else {
                let mut m = String::new();
                push_decimal(&mut m, n as i64);
                append(&mut m, " people have voted for ");
                append(&mut m, c.as_str());
                m
            }
        },
        None => {
            let entries = tally.entries();
            let ghost s = tally@;
            let mut response = String::new();
            let mut i: usize = 0;
            while i < entries.len()
                invariant
                    i <= entries.len(),
                    s == entries@.map_values(|e: (String, u32)| (e.0@, e.1)),
                    response@ == all_votes_text(s.take(i as int)),
                decreases entries.len() - i,
            {
                proof {
                    assert(s.take(i + 1).drop_last() =~= s.take(i as int));
                }
                append(&mut response, entries[i].0.as_str());
                append(&mut response, ": ");
                push_decimal(&mut response, entries[i].1 as i64);
                append(&mut response, " votes");
                i = i + 1;
            }
            assert(s.take(s.len() as int) =~= s);
            if response.as_str().is_empty() {
                "Nobody has voted for anything yet :(".to_owned()
            } else {
                response
            }
        },
    }
}

/// What the bot keeps between commands: the poll and the title of the song playing.
pub struct Data {
    pub votes: VoteTally,
    pub music: String,
}

impl Data {
    /// The state when the bot starts: no vote, no song.
    pub fn new() -> (d: Data)
        ensures
            d.votes@ == Seq::<(Seq<char>, u32)>::empty(),
            d.music@ == Seq::<char>::empty(),
    {
        Data { votes: VoteTally::new(), music: String::new() }
    }
}

} // verus!
