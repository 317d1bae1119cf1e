//! The key-value settings store.
//!
//! The one behaviorally relevant entry is `seconds_per_round` (default 6),
//! used to convert minute- and hour-scoped effect durations into round
//! equivalents.

use vstd::prelude::*;

verus! {

/// A key-value settings store with unique keys.
pub struct Settings {
    /// Entries in insertion order; keys are unique.
    pub entries: Vec<(String, u64)>,
}

/// No two entries share a key.
pub open spec fn keys_unique(s: Seq<(String, u64)>) -> bool {
    forall|i: int, j: int|
        0 <= i < j < s.len() ==> (#[trigger] s[i]).0@ != (#[trigger] s[j]).0@
}

/// The value stored under a key, if any.
pub open spec fn lookup(s: Seq<(String, u64)>, key: Seq<char>) -> Option<u64>
    decreases s.len(),
{
    if s.len() == 0 {
        None
    } else if s[0].0@ == key {
        Some(s[0].1)
    } else {
        lookup(s.drop_first(), key)
    }
}

/// The `seconds_per_round` setting, defaulting to 6 when absent.
pub open spec fn spec_seconds_per_round(s: Seq<(String, u64)>) -> u64 {
    match lookup(s, "seconds_per_round"@) {
        Some(v) => v,
        None => 6,
    }
}

/// A key that occurs in no entry looks up to nothing.
pub proof fn lemma_lookup_absent(s: Seq<(String, u64)>, key: Seq<char>)
    requires
        forall|i: int| 0 <= i < s.len() ==> (#[trigger] s[i]).0@ != key,
    ensures
        lookup(s, key) is None,
    decreases s.len(),
{
    if s.len() > 0 {
        assert forall|i: int| 0 <= i < s.drop_first().len() implies (
        #[trigger] s.drop_first()[i]).0@ != key by {
            assert(s.drop_first()[i] == s[i + 1]);
        }
        lemma_lookup_absent(s.drop_first(), key);
    }
}

/// Appending an entry changes only the lookups that found nothing before.
pub proof fn lemma_lookup_push(s: Seq<(String, u64)>, p: (String, u64), key: Seq<char>)
    ensures
        lookup(s.push(p), key) == (if lookup(s, key) is Some {
            lookup(s, key)
        } else if p.0@ == key {
            Some(p.1)
        } else {
            None
        }),
    decreases s.len(),
{
    if s.len() == 0 {
        assert(s.push(p)[0] == p);
        assert(s.push(p).drop_first() =~= s);
        assert(lookup(s.push(p).drop_first(), key) == lookup(s, key));
    } else {
        assert(s.push(p)[0] == s[0]);
        assert(s.push(p).drop_first() =~= s.drop_first().push(p));
        lemma_lookup_push(s.drop_first(), p, key);
        assert(lookup(s.push(p).drop_first(), key) == lookup(s.drop_first().push(p), key));
    }
}

/// Removing an entry with another key does not change a lookup.
pub proof fn lemma_lookup_remove(s: Seq<(String, u64)>, i: int, key: Seq<char>)
    requires
        0 <= i < s.len(),
        s[i].0@ != key,
    ensures
        lookup(s.remove(i), key) == lookup(s, key),
    decreases s.len(),
{
    if i == 0 {
        assert(s.remove(0) =~= s.drop_first());
    } else {
        assert(s.remove(i)[0] == s[0]);
        assert(s.remove(i).drop_first() =~= s.drop_first().remove(i - 1));
        assert(s.drop_first()[i - 1] == s[i]);
        if s[0].0@ != key {
            lemma_lookup_remove(s.drop_first(), i - 1, key);
        }
    }
}

impl Settings {
    /// Well-formedness: keys are unique.
    pub open spec fn wf(self) -> bool {
        keys_unique(self.entries@)
    }

    /// An empty store.
    pub fn new() -> (r: Settings)
        ensures
            r.wf(),
            r.entries@.len() == 0,
    {
        Settings { entries: Vec::new() }
    }

    /// The value stored under a key, if any.
    #[verifier::loop_isolation(false)]
    pub fn get(&self, key: &String) -> (r: Option<u64>)
        ensures
            r == lookup(self.entries@, key@),
    {
        let ghost s = self.entries@;
        let n = self.entries.len();
        let mut i: usize = 0;
        proof {
            assert(s.skip(0) =~= s);
        }
        while i < n
            invariant
                i <= n,
                lookup(s, key@) == lookup(s.skip(i as int), key@),
            decreases n - i,
        {
            proof {
                assert(s.skip(i as int)[0] == s[i as int]);
                assert(s.skip(i as int).drop_first() =~= s.skip(i + 1));
            }
            if self.entries[i].0.eq(key) {
                return Some(self.entries[i].1);
            }
            i += 1;
        }
        None
    }

    /// Stores a value under a key, replacing an existing entry for that key.
    #[verifier::loop_isolation(false)]
    pub fn set(&mut self, key: String, value: u64)
        requires
            old(self).wf(),
        ensures
            final(self).wf(),
            lookup(final(self).entries@, key@) == Some(value),
            forall|k: Seq<char>|
                k != key@ ==> #[trigger] lookup(final(self).entries@, k) == lookup(
                    old(self).entries@,
                    k,
                ),
    {
        let ghost s0 = self.entries@;
        let n = self.entries.len();
        let mut i: usize = 0;
        while i < n
            invariant
                i <= n,
                self.entries@ == s0,
                forall|k: int| 0 <= k < i ==> (#[trigger] s0[k]).0@ != key@,
            decreases n - i,
        {
            if self.entries[i].0.eq(&key) {
                proof {
                    assert forall|t: int| 0 <= t < s0.len() && t != i implies (#[trigger] s0[t]).0@
                        != key@ by {
                        if t > i {
                            assert(s0[i as int].0@ != s0[t].0@);
                        }
                    }
                    s0.remove_ensures(i as int);
                }
                self.entries.remove(i);
                let ghost s1 = self.entries@;
                self.entries.push((key, value));
                proof {
                    assert forall|x: int, y: int| 0 <= x < y < self.entries@.len() implies (
                    #[trigger] self.entries@[x]).0@ != (#[trigger] self.entries@[y]).0@ by {
                        if y < s1.len() {
                            let x0 = if x < i { x } else { x + 1 };
                            let y0 = if y < i { y } else { y + 1 };
                            assert(s1[x] == s0[x0]);
                            assert(s1[y] == s0[y0]);
                        } else {
                            let x0 = if x < i { x } else { x + 1 };
                            assert(s1[x] == s0[x0]);
                        }
                    }
                    lemma_lookup_push(s1, (key, value), key@);
                    assert forall|t: int| 0 <= t < s1.len() implies (#[trigger] s1[t]).0@
                        != key@ by {
                        let t0 = if t < i { t } else { t + 1 };
                        assert(s1[t] == s0[t0]);
                    }
                    lemma_lookup_absent(s1, key@);
                    assert forall|k: Seq<char>| k != key@ implies #[trigger] lookup(
                        self.entries@,
                        k,
                    ) == lookup(s0, k) by {
                        lemma_lookup_push(s1, (key, value), k);
                        lemma_lookup_remove(s0, i as int, k);
                    }
                }
                return ;
            }
            i += 1;
        }
        let ghost s1 = self.entries@;
        self.entries.push((key, value));
        proof {
            assert forall|x: int, y: int| 0 <= x < y < self.entries@.len() implies (
            #[trigger] self.entries@[x]).0@ != (#[trigger] self.entries@[y]).0@ by {
                if y == s1.len() {
                    assert(s1[x].0@ != key@);
                }
            }
            lemma_lookup_push(s1, (key, value), key@);
            lemma_lookup_absent(s1, key@);
            assert forall|k: Seq<char>| k != key@ implies #[trigger] lookup(self.entries@, k)
                == lookup(s1, k) by {
                lemma_lookup_push(s1, (key, value), k);
            }
        }
    }

    /// The `seconds_per_round` setting, defaulting to 6 when absent.
    pub fn seconds_per_round(&self) -> (spr: u64)
        ensures
            spr == spec_seconds_per_round(self.entries@),
    {
        let key = String::from_str("seconds_per_round");
        match self.get(&key) {
            Some(v) => v,
            None => 6,
        }
    }
}

} // verus!
