//! Process-wide usage counter: command name -> number of attempted uses.
//!
//! The counter is mutated exactly once per dispatch, when the dispatch
//! pipeline finishes its `before` stage, whether or not the handler later
//! succeeds: it measures attempted usage, not successful usage. It lives
//! in process memory only and starts empty.

use vstd::prelude::*;

verus! {

/// Counts how often each command name was dispatched.
///
/// The mapping is kept as an association list with pairwise distinct
/// names ([`CommandCounter::wf`]); [`CommandCounter::count_of`] is the
/// mathematical reading every contract speaks of.
pub struct CommandCounter {
    /// Name/count pairs; names are pairwise distinct.
    pub entries: Vec<(String, u64)>,
}

/// The count `name` has in the association list `s` (0 when absent):
/// the value of the first pair whose name equals `name`.
pub open spec fn count_in(s: Seq<(String, u64)>, name: Seq<char>) -> u64
    decreases s.len(),
{
    if s.len() == 0 {
        0u64
    } else if s[0].0@ == name {
        s[0].1
    } else {
        count_in(s.skip(1), name)
    }
}

/// How one `record` call relates the counter before (`pre`) and after
/// (`post`): the recorded name's count grows by one (saturating at
/// `u64::MAX`) and every other name's count is unchanged.
pub open spec fn record_step(pre: CommandCounter, post: CommandCounter, name: Seq<char>) -> bool {
    &&& post.count_of(name) == if pre.count_of(name) == u64::MAX {
        u64::MAX
    } else {
        (pre.count_of(name) + 1) as u64
    }
    &&& forall|other: Seq<char>|
        other != name ==> post.count_of(other) == pre.count_of(other)
}

impl CommandCounter {
    /// Names in the list are pairwise distinct.
    pub open spec fn wf(self) -> bool {
        forall|i: int, j: int|
            0 <= i < j < self.entries@.len() ==> self.entries@[i].0@ != self.entries@[j].0@
    }

    /// The count recorded for `name`; 0 when `name` was never recorded.
    pub open spec fn count_of(self, name: Seq<char>) -> u64 {
        count_in(self.entries@, name)
    }

    /// An empty counter: every count is 0.
    pub fn new() -> (c: CommandCounter)
        ensures
            c.wf(),
            forall|name: Seq<char>| c.count_of(name) == 0,
    {
        CommandCounter { entries: Vec::new() }
    }

    /// Records one attempted use of `name`: its count grows by one
    /// (saturating at `u64::MAX`), all other counts stay as they were.
    pub fn record(&mut self, name: &String)
        requires
            old(self).wf(),
        ensures
            final(self).wf(),
            record_step(*old(self), *final(self), name@),
    {
        let ghost s0 = self.entries@;
        let mut i: usize = 0;
        while i < self.entries.len()
            invariant
                self.entries@ == s0,
                s0 == old(self).entries@,
                old(self).wf(),
                i <= s0.len(),
                forall|j: int| 0 <= j < i ==> s0[j].0@ != name@,
            decreases s0.len() - i,
        {
            if self.entries[i].0 == *name {
                let c0 = self.entries[i].1;
                let c1 = if c0 == u64::MAX {
                    u64::MAX
                } else {
                    c0 + 1
                };
                let key = self.entries[i].0.clone();
                self.entries.set(i, (key, c1));
                proof {
                    lemma_count_in_first_match(s0, name@, i as int);
                    lemma_count_in_first_match(self.entries@, name@, i as int);
                    assert forall|other: Seq<char>| other != name@ implies
                        count_in(self.entries@, other) == count_in(s0, other) by {
                        lemma_count_in_update_other(s0, i as int, self.entries@[i as int], other);
                    }
                }
                return;
            }
            i = i + 1;
        }
        self.entries.push((name.clone(), 1));
        proof {
            lemma_count_in_first_match(self.entries@, name@, s0.len() as int);
            lemma_count_in_absent(s0, name@);
            assert forall|other: Seq<char>| other != name@ implies
                count_in(self.entries@, other) == count_in(s0, other) by {
                lemma_count_in_push_other(s0, self.entries@.last(), other);
            }
        }
    }

    /// The count recorded so far for `name`.
    pub fn get(&self, name: &String) -> (r: u64)
        ensures
            r == self.count_of(name@),
    {
        let ghost s0 = self.entries@;
        let mut i: usize = 0;
        while i < self.entries.len()
            invariant
                self.entries@ == s0,
                i <= s0.len(),
                forall|j: int| 0 <= j < i ==> s0[j].0@ != name@,
            decreases s0.len() - i,
        {
            if self.entries[i].0 == *name {
                proof {
                    lemma_count_in_first_match(s0, name@, i as int);
                }
                return self.entries[i].1;
            }
            i = i + 1;
        }
        proof {
            lemma_count_in_absent(s0, name@);
        }
        0
    }

    /// An immutable copy of the full mapping, pair for pair.
    pub fn snapshot(&self) -> (r: Vec<(String, u64)>)
        ensures
            r@.len() == self.entries@.len(),
            forall|i: int|
                0 <= i < r@.len() ==> r@[i].0@ == self.entries@[i].0@ && r@[i].1
                    == self.entries@[i].1,
    {
        let mut r: Vec<(String, u64)> = Vec::new();
        let mut i: usize = 0;
        while i < self.entries.len()
            invariant
                i <= self.entries@.len(),
                r@.len() == i,
                forall|j: int|
                    0 <= j < i ==> r@[j].0@ == self.entries@[j].0@ && r@[j].1
                        == self.entries@[j].1,
            decreases self.entries@.len() - i,
        {
            let key = self.entries[i].0.clone();
            let val = self.entries[i].1;
            r.push((key, val));
            i = i + 1;
        }
        r
    }
}

/// When the first `i` names of `s` differ from `name` and `s[i]` carries
/// `name`, the list's count for `name` is `s[i]`'s value.
proof fn lemma_count_in_first_match(s: Seq<(String, u64)>, name: Seq<char>, i: int)
    requires
        0 <= i < s.len(),
        forall|j: int| 0 <= j < i ==> s[j].0@ != name,
        s[i].0@ == name,
    ensures
        count_in(s, name) == s[i].1,
    decreases i,
{
    if i > 0 {
        lemma_count_in_first_match(s.skip(1), name, i - 1);
    }
}

/// A name carried by no pair of `s` counts 0.
proof fn lemma_count_in_absent(s: Seq<(String, u64)>, name: Seq<char>)
    requires
        forall|j: int| 0 <= j < s.len() ==> s[j].0@ != name,
    ensures
        count_in(s, name) == 0,
    decreases s.len(),
{
    if s.len() > 0 {
        lemma_count_in_absent(s.skip(1), name);
    }
}

/// Replacing the pair at `i` by one with the same name leaves every
/// other name's count unchanged.
proof fn lemma_count_in_update_other(s: Seq<(String, u64)>, i: int, p: (String, u64), other: Seq<char>)
    requires
        0 <= i < s.len(),
        p.0@ == s[i].0@,
        other != s[i].0@,
    ensures
        count_in(s.update(i, p), other) == count_in(s, other),
    decreases s.len(),
{
    if i == 0 {
        assert(s.update(0, p).skip(1) =~= s.skip(1));
    } else {
        assert(s.update(i, p).skip(1) =~= s.skip(1).update(i - 1, p));
        lemma_count_in_update_other(s.skip(1), i - 1, p, other);
    }
}

/// Appending a pair for one name leaves every other name's count
/// unchanged.
proof fn lemma_count_in_push_other(s: Seq<(String, u64)>, p: (String, u64), other: Seq<char>)
    requires
        p.0@ != other,
    ensures
        count_in(s.push(p), other) == count_in(s, other),
    decreases s.len(),
{
    if s.len() == 0 {
        assert(s.push(p)[0] == p);
        assert(s.push(p).skip(1) =~= Seq::<(String, u64)>::empty());
        assert(count_in(s.push(p), other) == count_in(s.push(p).skip(1), other));
        assert(count_in(Seq::<(String, u64)>::empty(), other) == 0);
    } else {
        assert(s.push(p)[0] == s[0]);
        assert(s.push(p).skip(1) =~= s.skip(1).push(p));
        lemma_count_in_push_other(s.skip(1), p, other);
    }
}

/// Usage counts attempted dispatches: along any chain of counter states
/// linked by `record` calls for one command name, the final count for
/// that name exceeds the initial one by exactly the number of calls,
/// independent of what any handler later did.
pub proof fn lemma_usage_counts_attempts(chain: Seq<CommandCounter>, name: Seq<char>)
    requires
        chain.len() >= 1,
        forall|i: int|
            0 <= i < chain.len() - 1 ==> record_step(#[trigger] chain[i], chain[i + 1], name),
        chain[0].count_of(name) + chain.len() - 1 <= u64::MAX,
    ensures
        chain.last().count_of(name) == chain[0].count_of(name) + chain.len() - 1,
    decreases chain.len(),
{
    if chain.len() > 1 {
        assert(record_step(chain[0], chain[1], name));
        lemma_usage_counts_attempts(chain.skip(1), name);
    }
}

} // verus!
