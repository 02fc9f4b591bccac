//! The bucket registry: owns every named rate-limit bucket, resolves
//! the scope key a message falls under, and answers admission queries.

use crate::bucket::{
    admit_outcome, finish_wait_outcome, revert_step, AdmitResult, Bucket, Scope, ScopeKey,
    MAX_TICK,
};
use crate::message::Message;
use vstd::prelude::*;

verus! {

/// The identity `msg` is tracked under for a bucket of scope `scope`.
/// A message outside any guild falls back to its channel for
/// [`Scope::PerGuild`]: a direct-message channel stands for itself.
pub open spec fn key_for_spec(scope: Scope, msg: Message) -> ScopeKey {
    match scope {
        Scope::Global => ScopeKey::All,
        Scope::PerUser => ScopeKey::User(msg.author_id),
        Scope::PerChannel => ScopeKey::Channel(msg.channel_id),
        Scope::PerGuild => match msg.guild_id {
            Some(g) => ScopeKey::Guild(g),
            None => ScopeKey::Channel(msg.channel_id),
        },
    }
}

/// Resolves the scope key `msg` is tracked under for scope `scope`.
pub fn scope_key_for(scope: Scope, msg: &Message) -> (k: ScopeKey)
    ensures
        k == key_for_spec(scope, *msg),
{
    match scope {
        Scope::Global => ScopeKey::All,
        Scope::PerUser => ScopeKey::User(msg.author_id),
        Scope::PerChannel => ScopeKey::Channel(msg.channel_id),
        Scope::PerGuild => match msg.guild_id {
            Some(g) => ScopeKey::Guild(g),
            None => ScopeKey::Channel(msg.channel_id),
        },
    }
}

/// The bucket stored under `name` in the association list `s` (the
/// first pair with that name), or `None`.
pub open spec fn bucket_in(s: Seq<(String, Bucket)>, name: Seq<char>) -> Option<Bucket>
    decreases s.len(),
{
    if s.len() == 0 {
        None
    } else if s[0].0@ == name {
        Some(s[0].1)
    } else {
        bucket_in(s.skip(1), name)
    }
}

/// Owns all named buckets; commands refer to them by name.
pub struct BucketRegistry {
    /// Name/bucket pairs; names are pairwise distinct.
    pub buckets: Vec<(String, Bucket)>,
}

impl BucketRegistry {
    /// Names are pairwise distinct and every bucket is well-formed.
    pub open spec fn wf(self) -> bool {
        &&& forall|i: int, j: int|
            0 <= i < j < self.buckets@.len() ==> self.buckets@[i].0@ != self.buckets@[j].0@
        &&& forall|i: int| 0 <= i < self.buckets@.len() ==> (#[trigger] self.buckets@[i]).1.wf()
    }

    /// The bucket configured under `name`, if any.
    pub open spec fn bucket_of(self, name: Seq<char>) -> Option<Bucket> {
        bucket_in(self.buckets@, name)
    }

    /// An empty registry: no names are limited.
    pub fn new() -> (r: BucketRegistry)
        ensures
            r.wf(),
            forall|name: Seq<char>| r.bucket_of(name) is None,
    {
        let r = BucketRegistry { buckets: Vec::new() };
        proof {
            assert forall|name: Seq<char>| r.bucket_of(name) is None by {
                lemma_bucket_in_absent(r.buckets@, name);
            }
        }
        r
    }

    /// Registers `bucket` under a name not yet taken.
    pub fn add_bucket(&mut self, name: String, bucket: Bucket)
        requires
            old(self).wf(),
            old(self).bucket_of(name@) is None,
            bucket.wf(),
        ensures
            final(self).wf(),
            final(self).bucket_of(name@) == Some(bucket),
            forall|n: Seq<char>| n != name@ ==> final(self).bucket_of(n) == old(self).bucket_of(n),
    {
        let ghost s0 = self.buckets@;
        proof {
            lemma_bucket_in_some_means_present(s0, name@);
        }
        self.buckets.push((name, bucket));
        proof {
            lemma_bucket_in_first_match(self.buckets@, self.buckets@.last().0@, s0.len() as int);
            assert forall|n: Seq<char>| n != self.buckets@.last().0@ implies self.bucket_of(n)
                == bucket_in(s0, n) by {
                lemma_bucket_in_push_other(s0, self.buckets@.last(), n);
            }
        }
    }

    /// Index of the bucket stored under `name`, if any.
    fn find_bucket(&self, name: &String) -> (r: Option<usize>)
        ensures
            match r {
                Some(i) => i < self.buckets@.len() && self.buckets@[i as int].0@ == name@
                    && self.bucket_of(name@) == Some(self.buckets@[i as int].1) && forall|j: int|
                    0 <= j < i ==> self.buckets@[j].0@ != name@,
                None => self.bucket_of(name@) is None,
            },
    {
        let mut i: usize = 0;
        while i < self.buckets.len()
            invariant
                i <= self.buckets@.len(),
                forall|j: int| 0 <= j < i ==> self.buckets@[j].0@ != name@,
            decreases self.buckets@.len() - i,
        {
            if self.buckets[i].0 == *name {
                proof {
                    lemma_bucket_in_first_match(self.buckets@, name@, i as int);
                }
                return Some(i);
            }
            i = i + 1;
        }
        proof {
            lemma_bucket_in_absent(self.buckets@, name@);
        }
        None
    }

    /// The scope key `msg` falls under for the bucket named
    /// `bucket_name`, when such a bucket is configured.
    pub fn scope_key_of(&self, bucket_name: &String, msg: &Message) -> (r: Option<ScopeKey>)
        ensures
            match self.bucket_of(bucket_name@) {
                None => r is None,
                Some(b) => r == Some(key_for_spec(b.scope, *msg)),
            },
    {
        match self.find_bucket(bucket_name) {
            None => None,
            Some(i) => Some(scope_key_for(self.buckets[i].1.scope, msg)),
        }
    }

    /// How many callers hold a waiter slot of the bucket named
    /// `bucket_name` (0 when none is configured).
    pub fn waiters_of(&self, bucket_name: &String) -> (r: u64)
        ensures
            r == match self.bucket_of(bucket_name@) {
                None => 0u64,
                Some(b) => b.waiters,
            },
    {
        match self.find_bucket(bucket_name) {
            None => 0,
            Some(i) => self.buckets[i].1.waiters,
        }
    }

    /// One admission attempt against the bucket named `bucket_name` for
    /// the scope key `msg` falls under, at instant `now`. A name with
    /// no bucket configured is not limited: the attempt is allowed and
    /// nothing changes.
    pub fn try_admit(&mut self, bucket_name: &String, msg: &Message, now: u64) -> (r: AdmitResult)
        requires
            old(self).wf(),
            now <= MAX_TICK,
        ensures
            final(self).wf(),
            match old(self).bucket_of(bucket_name@) {
                None => r == AdmitResult::Allowed && *final(self) == *old(self),
                Some(b) => {
                    &&& final(self).bucket_of(bucket_name@) matches Some(b2) && admit_outcome(
                        b,
                        b2,
                        key_for_spec(b.scope, *msg),
                        now,
                        r,
                    )
                    &&& forall|n: Seq<char>|
                        n != bucket_name@ ==> final(self).bucket_of(n) == old(self).bucket_of(n)
                },
            },
    {
        match self.find_bucket(bucket_name) {
            None => AdmitResult::Allowed,
            Some(i) => {
                let ghost s0 = self.buckets@;
                let mut pair = self.buckets.remove(i);
                let key = scope_key_for(pair.1.scope, msg);
                let r = pair.1.try_admit(key, now);
                self.buckets.insert(i, pair);
                proof {
                    assert(self.buckets@ =~= s0.update(i as int, self.buckets@[i as int]));
                    lemma_bucket_in_first_match(self.buckets@, bucket_name@, i as int);
                    assert forall|n: Seq<char>| n != bucket_name@ implies self.bucket_of(n)
                        == bucket_in(s0, n) by {
                        lemma_bucket_in_update_other(
                            s0,
                            i as int,
                            self.buckets@[i as int],
                            n,
                        );
                    }
                }
                r
            },
        }
    }

    /// A waiter's retry against the bucket named `bucket_name` (see
    /// [`Bucket::finish_wait`]); `key` is the scope key it was admitted
    /// to wait under.
    pub fn finish_wait(&mut self, bucket_name: &String, key: ScopeKey, now: u64) -> (r:
        AdmitResult)
        requires
            old(self).wf(),
            now <= MAX_TICK,
            old(self).bucket_of(bucket_name@) matches Some(b) && b.waiters >= 1,
        ensures
            final(self).wf(),
            match old(self).bucket_of(bucket_name@) {
                None => false,
                Some(b) => {
                    &&& final(self).bucket_of(bucket_name@) matches Some(b2)
                        && finish_wait_outcome(b, b2, key, now, r)
                    &&& forall|n: Seq<char>|
                        n != bucket_name@ ==> final(self).bucket_of(n) == old(self).bucket_of(n)
                },
            },
    {
        let i = self.find_bucket(bucket_name).unwrap();
        let ghost s0 = self.buckets@;
        let mut pair = self.buckets.remove(i);
        let r = pair.1.finish_wait(key, now);
        self.buckets.insert(i, pair);
        proof {
            assert(self.buckets@ =~= s0.update(i as int, self.buckets@[i as int]));
            lemma_bucket_in_first_match(self.buckets@, bucket_name@, i as int);
            assert forall|n: Seq<char>| n != bucket_name@ implies self.bucket_of(n) == bucket_in(
                s0,
                n,
            ) by {
                lemma_bucket_in_update_other(s0, i as int, self.buckets@[i as int], n);
            }
        }
        r
    }

    /// Gives one token back to `key` in the bucket named `bucket_name`
    /// (see [`Bucket::give_back`]). A name with no bucket configured
    /// changes nothing.
    pub fn revert(&mut self, bucket_name: &String, key: ScopeKey)
        requires
            old(self).wf(),
        ensures
            final(self).wf(),
            match old(self).bucket_of(bucket_name@) {
                None => *final(self) == *old(self),
                Some(b) => {
                    &&& final(self).bucket_of(bucket_name@) matches Some(b2) && revert_step(
                        b,
                        b2,
                        key,
                    )
                    &&& forall|n: Seq<char>|
                        n != bucket_name@ ==> final(self).bucket_of(n) == old(self).bucket_of(n)
                },
            },
    {
        match self.find_bucket(bucket_name) {
            None => {},
            Some(i) => {
                let ghost s0 = self.buckets@;
                let mut pair = self.buckets.remove(i);
                pair.1.give_back(key);
                self.buckets.insert(i, pair);
                proof {
                    assert(self.buckets@ =~= s0.update(i as int, self.buckets@[i as int]));
                    lemma_bucket_in_first_match(self.buckets@, bucket_name@, i as int);
                    assert forall|n: Seq<char>| n != bucket_name@ implies self.bucket_of(n)
                        == bucket_in(s0, n) by {
                        lemma_bucket_in_update_other(
                            s0,
                            i as int,
                            self.buckets@[i as int],
                            n,
                        );
                    }
                }
            },
        }
    }
}

/// When the first `i` names of `s` differ from `name` and `s[i]`
/// carries `name`, the lookup returns `s[i]`'s bucket.
proof fn lemma_bucket_in_first_match(s: Seq<(String, Bucket)>, name: Seq<char>, i: int)
    requires
        0 <= i < s.len(),
        forall|j: int| 0 <= j < i ==> s[j].0@ != name,
        s[i].0@ == name,
    ensures
        bucket_in(s, name) == Some(s[i].1),
    decreases i,
{
    if i > 0 {
        lemma_bucket_in_first_match(s.skip(1), name, i - 1);
    }
}

/// A name carried by no pair of `s` has no bucket.
proof fn lemma_bucket_in_absent(s: Seq<(String, Bucket)>, name: Seq<char>)
    requires
        forall|j: int| 0 <= j < s.len() ==> s[j].0@ != name,
    ensures
        bucket_in(s, name) is None,
    decreases s.len(),
{
    if s.len() > 0 {
        lemma_bucket_in_absent(s.skip(1), name);
    }
}

/// A name with no bucket is carried by no pair of `s`.
proof fn lemma_bucket_in_some_means_present(s: Seq<(String, Bucket)>, name: Seq<char>)
    requires
        bucket_in(s, name) is None,
    ensures
        forall|j: int| 0 <= j < s.len() ==> s[j].0@ != name,
    decreases s.len(),
{
    if s.len() > 0 {
        lemma_bucket_in_some_means_present(s.skip(1), name);
        assert forall|j: int| 0 <= j < s.len() implies s[j].0@ != name by {
            if j > 0 {
                assert(s.skip(1)[j - 1] == s[j]);
            }
        }
    }
}

/// Replacing the pair at `i` by one with the same name leaves every
/// other name's bucket unchanged.
proof fn lemma_bucket_in_update_other(
    s: Seq<(String, Bucket)>,
    i: int,
    p: (String, Bucket),
    name: Seq<char>,
)
    requires
        0 <= i < s.len(),
        p.0@ == s[i].0@,
        name != s[i].0@,
    ensures
        bucket_in(s.update(i, p), name) == bucket_in(s, name),
    decreases s.len(),
{
    if i == 0 {
        assert(s.update(0, p).skip(1) =~= s.skip(1));
    } else {
        assert(s.update(i, p).skip(1) =~= s.skip(1).update(i - 1, p));
        lemma_bucket_in_update_other(s.skip(1), i - 1, p, name);
    }
}

/// Appending a pair for one name leaves every other name's bucket
/// unchanged.
proof fn lemma_bucket_in_push_other(s: Seq<(String, Bucket)>, p: (String, Bucket), name: Seq<char>)
    requires
        p.0@ != name,
    ensures
        bucket_in(s.push(p), name) == bucket_in(s, name),
    decreases s.len(),
{
    if s.len() == 0 {
        assert(s.push(p)[0] == p);
        assert(s.push(p).skip(1) =~= Seq::<(String, Bucket)>::empty());
        assert(bucket_in(s.push(p), name) == bucket_in(s.push(p).skip(1), name));
        assert(bucket_in(Seq::<(String, Bucket)>::empty(), name) is None);
    } else {
        assert(s.push(p)[0] == s[0]);
        assert(s.push(p).skip(1) =~= s.skip(1).push(p));
        lemma_bucket_in_push_other(s.skip(1), p, name);
    }
}

} // verus!
