//! Effect ledgers.
//!
//! A combat session owns a ledger of [`TimedEffect`]s, each scoped to one
//! participant and counted in rounds (minute- and hour-scoped durations are
//! converted at attach time). Ticking a round decrements every duration and
//! removes the effects that reach zero, reporting them as one list of expiry
//! events.
//!
//! An [`ActiveLedger`] holds persistent, entity-scoped [`ActiveEffect`]s that
//! outlive combat sessions. Timed entries decay with rounds like combat
//! effects; rest-bound entries carry no numeric duration, are invariant under
//! round ticking, and are cleared only by a matching rest event.

use vstd::prelude::*;

use crate::duration::{is_rest_bound, rest_clears, DurationUnit, RestKind};
use crate::errors::EngineError;
use crate::roster::EntityKind;

verus! {

/// A status effect attached to one participant of a combat session, counted
/// in rounds.
pub struct TimedEffect {
    /// Identifier, unique within the owning ledger.
    pub id: u64,
    /// The participant the effect is attached to.
    pub participant: u64,
    /// Display name.
    pub name: String,
    /// Description shown to the user.
    pub description: String,
    /// Rounds remaining; the effect expires when this reaches zero.
    pub duration: u64,
    /// Rounds at attach time, kept for percentage display.
    pub total_duration: u64,
}

/// A timed effect never has more remaining duration than its total.
pub open spec fn timed_effect_wf(e: TimedEffect) -> bool {
    e.duration <= e.total_duration
}

/// Whether the effect outlives one more elapsed round.
pub open spec fn timed_survives(e: TimedEffect) -> bool {
    e.duration > 1
}

/// The effect after one elapsed round.
pub open spec fn tick_timed_one(e: TimedEffect) -> TimedEffect {
    TimedEffect { duration: (e.duration - 1) as u64, ..e }
}

/// The ledger after one elapsed round: every surviving effect decremented,
/// the rest removed.
pub open spec fn after_timed_tick(s: Seq<TimedEffect>) -> Seq<TimedEffect>
    decreases s.len(),
{
    if s.len() == 0 {
        Seq::empty()
    } else if timed_survives(s[0]) {
        seq![tick_timed_one(s[0])] + after_timed_tick(s.drop_first())
    } else {
        after_timed_tick(s.drop_first())
    }
}

/// The expiry events of one elapsed round: the identifiers of the effects
/// whose duration reaches zero, in ledger order.
pub open spec fn expired_timed_ids(s: Seq<TimedEffect>) -> Seq<u64>
    decreases s.len(),
{
    if s.len() == 0 {
        Seq::empty()
    } else if timed_survives(s[0]) {
        expired_timed_ids(s.drop_first())
    } else {
        seq![s[0].id] + expired_timed_ids(s.drop_first())
    }
}

/// The ledger after `n` elapsed rounds.
pub open spec fn after_timed_ticks(s: Seq<TimedEffect>, n: nat) -> Seq<TimedEffect>
    decreases n,
{
    if n == 0 {
        s
    } else {
        after_timed_tick(after_timed_ticks(s, (n - 1) as nat))
    }
}

/// The ledger with every effect of one participant removed (the cascade of
/// removing that participant).
pub open spec fn without_participant(s: Seq<TimedEffect>, pid: u64) -> Seq<TimedEffect>
    decreases s.len(),
{
    if s.len() == 0 {
        Seq::empty()
    } else if s[0].participant == pid {
        without_participant(s.drop_first(), pid)
    } else {
        seq![s[0]] + without_participant(s.drop_first(), pid)
    }
}

/// The identifiers removed by [`without_participant`], in ledger order.
pub open spec fn removed_for_participant(s: Seq<TimedEffect>, pid: u64) -> Seq<u64>
    decreases s.len(),
{
    if s.len() == 0 {
        Seq::empty()
    } else if s[0].participant == pid {
        seq![s[0].id] + removed_for_participant(s.drop_first(), pid)
    } else {
        removed_for_participant(s.drop_first(), pid)
    }
}

/// No two effects share an identifier.
pub open spec fn timed_ids_unique(s: Seq<TimedEffect>) -> bool {
    forall|i: int, j: int|
        0 <= i < j < s.len() ==> (#[trigger] s[i]).id != (#[trigger] s[j]).id
}

/// Some effect carries the identifier.
pub open spec fn has_timed_id(s: Seq<TimedEffect>, id: u64) -> bool {
    exists|i: int| 0 <= i < s.len() && (#[trigger] s[i]).id == id
}

/// How often an identifier occurs in a list of events.
pub open spec fn count_id(s: Seq<u64>, id: u64) -> nat
    decreases s.len(),
{
    if s.len() == 0 {
        0
    } else {
        (if s[0] == id {
            1nat
        } else {
            0nat
        }) + count_id(s.drop_first(), id)
    }
}

/// An identifier absent from the ledger neither survives a tick nor expires
/// by it.
pub proof fn lemma_timed_tick_absent(s: Seq<TimedEffect>, id: u64)
    requires
        !has_timed_id(s, id),
    ensures
        !has_timed_id(after_timed_tick(s), id),
        count_id(expired_timed_ids(s), id) == 0,
    decreases s.len(),
{
    if s.len() == 0 {
    } else {
        assert forall|k: int| 0 <= k < s.drop_first().len() implies (#[trigger] s.drop_first()[k]).id
            != id by {
            assert(s.drop_first()[k] == s[k + 1]);
        }
        lemma_timed_tick_absent(s.drop_first(), id);
        if !timed_survives(s[0]) {
            assert(expired_timed_ids(s)[0] == s[0].id);
            assert(expired_timed_ids(s).drop_first() =~= expired_timed_ids(s.drop_first()));
        }
        if timed_survives(s[0]) {
            if has_timed_id(after_timed_tick(s), id) {
                let w = choose|w: int|
                    0 <= w < after_timed_tick(s).len() && (#[trigger] after_timed_tick(s)[w]).id
                        == id;
                if w > 0 {
                    assert(after_timed_tick(s)[w] == after_timed_tick(s.drop_first())[w - 1]);
                }
            }
        }
    }
}

/// Every entry of the ticked ledger is a surviving entry of the old one,
/// decremented.
pub proof fn lemma_timed_tick_entries(s: Seq<TimedEffect>)
    ensures
        forall|x: TimedEffect| #[trigger] after_timed_tick(s).contains(x) ==> exists|k: int|
            0 <= k < s.len() && timed_survives(#[trigger] s[k]) && x == tick_timed_one(s[k]),
    decreases s.len(),
{
    if s.len() == 0 {
    } else {
        lemma_timed_tick_entries(s.drop_first());
        assert forall|x: TimedEffect| #[trigger] after_timed_tick(s).contains(x) implies exists|
            k: int,
        | 0 <= k < s.len() && timed_survives(#[trigger] s[k]) && x == tick_timed_one(s[k]) by {
            let w = choose|w: int|
                0 <= w < after_timed_tick(s).len() && after_timed_tick(s)[w] == x;
            if timed_survives(s[0]) {
                if w == 0 {
                    assert(timed_survives(s[0]) && x == tick_timed_one(s[0]));
                } else {
                    assert(after_timed_tick(s.drop_first())[w - 1] == x);
                    assert(after_timed_tick(s.drop_first()).contains(x));
                    let k = choose|k: int|
                        0 <= k < s.drop_first().len() && timed_survives(
                            #[trigger] s.drop_first()[k],
                        ) && x == tick_timed_one(s.drop_first()[k]);
                    assert(s.drop_first()[k] == s[k + 1]);
                }
            } else {
                assert(after_timed_tick(s.drop_first()).contains(x));
                let k = choose|k: int|
                    0 <= k < s.drop_first().len() && timed_survives(#[trigger] s.drop_first()[k])
                        && x == tick_timed_one(s.drop_first()[k]);
                assert(s.drop_first()[k] == s[k + 1]);
            }
        }
    }
}

/// Ticking never introduces a duplicate identifier.
pub proof fn lemma_timed_tick_unique(s: Seq<TimedEffect>)
    requires
        timed_ids_unique(s),
    ensures
        timed_ids_unique(after_timed_tick(s)),
    decreases s.len(),
{
    if s.len() > 0 {
        assert forall|i: int, j: int| 0 <= i < j < s.drop_first().len() implies (
        #[trigger] s.drop_first()[i]).id != (#[trigger] s.drop_first()[j]).id by {
            assert(s.drop_first()[i] == s[i + 1]);
            assert(s.drop_first()[j] == s[j + 1]);
        }
        lemma_timed_tick_unique(s.drop_first());
        if timed_survives(s[0]) {
            lemma_timed_tick_entries(s.drop_first());
            let t = after_timed_tick(s);
            assert forall|i: int, j: int| 0 <= i < j < t.len() implies (#[trigger] t[i]).id != (
            #[trigger] t[j]).id by {
                if i == 0 {
                    assert(t[j] == after_timed_tick(s.drop_first())[j - 1]);
                    assert(after_timed_tick(s.drop_first()).contains(t[j]));
                    let k = choose|k: int|
                        0 <= k < s.drop_first().len() && timed_survives(
                            #[trigger] s.drop_first()[k],
                        ) && t[j] == tick_timed_one(s.drop_first()[k]);
                    assert(s.drop_first()[k] == s[k + 1]);
                    assert(t[j].id == s[k + 1].id);
                } else {
                    assert(t[i] == after_timed_tick(s.drop_first())[i - 1]);
                    assert(t[j] == after_timed_tick(s.drop_first())[j - 1]);
                }
            }
        }
    }
}

/// Ticking preserves identifier uniqueness, the duration invariant, and any
/// identifier bound.
pub proof fn lemma_timed_tick_preserves_wf(s: Seq<TimedEffect>, bound: u64)
    requires
        timed_ids_unique(s),
        forall|i: int|
            0 <= i < s.len() ==> timed_effect_wf(#[trigger] s[i]) && s[i].id < bound,
    ensures
        timed_ids_unique(after_timed_tick(s)),
        forall|i: int|
            0 <= i < after_timed_tick(s).len() ==> timed_effect_wf(
                #[trigger] after_timed_tick(s)[i],
            ) && after_timed_tick(s)[i].id < bound,
{
    lemma_timed_tick_unique(s);
    lemma_timed_tick_entries(s);
    assert forall|i: int| 0 <= i < after_timed_tick(s).len() implies timed_effect_wf(
        #[trigger] after_timed_tick(s)[i],
    ) && after_timed_tick(s)[i].id < bound by {
        assert(after_timed_tick(s).contains(after_timed_tick(s)[i]));
    }
}

/// One tick, seen from one present effect: a surviving effect stays with its
/// duration decremented and no expiry event; an effect whose duration is at
/// most one is removed and reported exactly once.
pub proof fn lemma_timed_tick_step(s: Seq<TimedEffect>, e: TimedEffect)
    requires
        timed_ids_unique(s),
        s.contains(e),
    ensures
        timed_survives(e) ==> after_timed_tick(s).contains(tick_timed_one(e)),
        !timed_survives(e) ==> !has_timed_id(after_timed_tick(s), e.id),
        count_id(expired_timed_ids(s), e.id) == (if timed_survives(e) {
            0nat
        } else {
            1nat
        }),
    decreases s.len(),
{
    let w = choose|w: int| 0 <= w < s.len() && s[w] == e;
    assert forall|i: int, j: int| 0 <= i < j < s.drop_first().len() implies (
    #[trigger] s.drop_first()[i]).id != (#[trigger] s.drop_first()[j]).id by {
        assert(s.drop_first()[i] == s[i + 1]);
        assert(s.drop_first()[j] == s[j + 1]);
    }
    if w == 0 {
        assert forall|k: int| 0 <= k < s.drop_first().len() implies (#[trigger] s.drop_first()[k]).id
            != e.id by {
            assert(s.drop_first()[k] == s[k + 1]);
        }
        lemma_timed_tick_absent(s.drop_first(), e.id);
        if timed_survives(e) {
            assert(after_timed_tick(s)[0] == tick_timed_one(e));
        } else {
            if has_timed_id(after_timed_tick(s), e.id) {
                let v = choose|v: int|
                    0 <= v < after_timed_tick(s).len() && (#[trigger] after_timed_tick(s)[v]).id
                        == e.id;
            }
            assert(expired_timed_ids(s)[0] == e.id);
            assert(expired_timed_ids(s).drop_first() =~= expired_timed_ids(s.drop_first()));
        }
        if timed_survives(e) {
            assert(expired_timed_ids(s) =~= expired_timed_ids(s.drop_first()));
        }
    } else {
        assert(s.drop_first()[w - 1] == s[w]);
        assert(s.drop_first().contains(e));
        lemma_timed_tick_step(s.drop_first(), e);
        assert(s[0].id != e.id);
        if timed_survives(s[0]) {
            if timed_survives(e) {
                let v = choose|v: int|
                    0 <= v < after_timed_tick(s.drop_first()).len() && after_timed_tick(
                        s.drop_first(),
                    )[v] == tick_timed_one(e);
                assert(after_timed_tick(s)[v + 1] == tick_timed_one(e));
            } else {
                if has_timed_id(after_timed_tick(s), e.id) {
                    let v = choose|v: int|
                        0 <= v < after_timed_tick(s).len() && (#[trigger] after_timed_tick(
                            s,
                        )[v]).id == e.id;
                    if v == 0 {
                        assert(after_timed_tick(s)[0] == tick_timed_one(s[0]));
                    } else {
                        assert(after_timed_tick(s)[v] == after_timed_tick(s.drop_first())[v - 1]);
                    }
                }
            }
            assert(expired_timed_ids(s) =~= expired_timed_ids(s.drop_first()));
        } else {
            if !timed_survives(e) {
                if has_timed_id(after_timed_tick(s), e.id) {
                }
            } else {
                let v = choose|v: int|
                    0 <= v < after_timed_tick(s.drop_first()).len() && after_timed_tick(
                        s.drop_first(),
                    )[v] == tick_timed_one(e);
            }
            assert(expired_timed_ids(s)[0] == s[0].id);
            assert(expired_timed_ids(s).drop_first() =~= expired_timed_ids(s.drop_first()));
        }
    }
}

/// An identifier absent from the ledger never reappears and never produces a
/// further expiry event, however many rounds elapse.
pub proof fn lemma_expired_effect_stays_gone(s: Seq<TimedEffect>, id: u64, n: nat)
    requires
        !has_timed_id(s, id),
    ensures
        !has_timed_id(after_timed_ticks(s, n), id),
        forall|j: nat|
            j < n ==> count_id(expired_timed_ids(#[trigger] after_timed_ticks(s, j)), id) == 0,
    decreases n,
{
    if n > 0 {
        lemma_expired_effect_stays_gone(s, id, (n - 1) as nat);
        lemma_timed_tick_absent(after_timed_ticks(s, (n - 1) as nat), id);
    }
}

/// Law: a rounds-scoped effect expires exactly once. Starting from a ledger
/// that holds an effect `e` with `duration == d >= 1`, the first `d - 1`
/// ticks each keep the effect with its duration decremented and report no
/// expiry event for it; the `d`-th tick removes it and reports it exactly
/// once. In particular, ticking exactly `total_duration` times after an
/// attach (where `duration == total_duration`) drives the duration to zero
/// and yields one expiry event, never more.
pub proof fn lemma_rounds_effect_expires_once(s: Seq<TimedEffect>, e: TimedEffect, k: nat)
    requires
        timed_ids_unique(s),
        s.contains(e),
        1 <= e.duration,
        1 <= k <= e.duration,
    ensures
        count_id(expired_timed_ids(after_timed_ticks(s, (k - 1) as nat)), e.id) == (if k
            == e.duration {
            1nat
        } else {
            0nat
        }),
        k < e.duration ==> after_timed_ticks(s, k).contains(
            (TimedEffect { duration: (e.duration - k) as u64, ..e }),
        ),
        k == e.duration ==> !has_timed_id(after_timed_ticks(s, k), e.id),
        timed_ids_unique(after_timed_ticks(s, k)),
    decreases k,
{
    if k == 1 {
        lemma_timed_tick_step(s, e);
        lemma_timed_tick_unique(s);
        assert(after_timed_ticks(s, 0) == s);
        if 1 < e.duration {
            assert(tick_timed_one(e) == (TimedEffect { duration: (e.duration - 1) as u64, ..e }));
        }
    } else {
        lemma_rounds_effect_expires_once(s, e, (k - 1) as nat);
        let prev = after_timed_ticks(s, (k - 1) as nat);
        let e_prev = TimedEffect { duration: (e.duration - (k - 1)) as u64, ..e };
        assert(prev.contains(e_prev));
        lemma_timed_tick_step(prev, e_prev);
        lemma_timed_tick_unique(prev);
        if k < e.duration {
            assert(tick_timed_one(e_prev) == (TimedEffect {
                duration: (e.duration - k) as u64,
                ..e
            }));
        }
    }
}

/// The ledger with one participant's effects removed keeps exactly the other
/// entries, and reports exactly the removed identifiers.
pub proof fn lemma_without_participant_entries(s: Seq<TimedEffect>, pid: u64)
    ensures
        forall|x: TimedEffect| #[trigger] without_participant(s, pid).contains(x) <==> s.contains(
            x,
        ) && x.participant != pid,
    decreases s.len(),
{
    lemma_without_participant_entries_aux(s, pid);
    assert forall|x: TimedEffect|
        s.contains(x) && x.participant != pid implies #[trigger] without_participant(
        s,
        pid,
    ).contains(x) by {
        let w = choose|w: int| 0 <= w < s.len() && s[w] == x;
        lemma_without_participant_keeps(s, pid, w);
    }
}

proof fn lemma_without_participant_entries_aux(s: Seq<TimedEffect>, pid: u64)
    ensures
        forall|x: TimedEffect| #[trigger] without_participant(s, pid).contains(x) ==> s.contains(x)
            && x.participant != pid,
    decreases s.len(),
{
    if s.len() > 0 {
        lemma_without_participant_entries_aux(s.drop_first(), pid);
        assert forall|x: TimedEffect| #[trigger] without_participant(s, pid).contains(
            x,
        ) implies s.contains(x) && x.participant != pid by {
            let t = without_participant(s, pid);
            let w = choose|w: int| 0 <= w < t.len() && t[w] == x;
            if s[0].participant == pid {
                assert(without_participant(s.drop_first(), pid).contains(x));
            } else {
                if w > 0 {
                    assert(t[w] == without_participant(s.drop_first(), pid)[w - 1]);
                    assert(without_participant(s.drop_first(), pid).contains(x));
                }
            }
            if s.drop_first().contains(x) {
                let v = choose|v: int| 0 <= v < s.drop_first().len() && s.drop_first()[v] == x;
                assert(s[v + 1] == x);
            }
        }
    }
}

proof fn lemma_without_participant_keeps(s: Seq<TimedEffect>, pid: u64, w: int)
    requires
        0 <= w < s.len(),
        s[w].participant != pid,
    ensures
        without_participant(s, pid).contains(s[w]),
    decreases s.len(),
{
    if w == 0 {
        assert(without_participant(s, pid)[0] == s[0]);
    } else {
        lemma_without_participant_keeps(s.drop_first(), pid, w - 1);
        assert(s.drop_first()[w - 1] == s[w]);
        let t = without_participant(s.drop_first(), pid);
        let v = choose|v: int| 0 <= v < t.len() && t[v] == s[w];
        if s[0].participant != pid {
            assert(without_participant(s, pid)[v + 1] == s[w]);
        }
    }
}

/// Removing a participant's effects preserves identifier uniqueness, the
/// duration invariant, and any identifier bound.
pub proof fn lemma_without_participant_preserves_wf(s: Seq<TimedEffect>, pid: u64, bound: u64)
    requires
        timed_ids_unique(s),
        forall|i: int|
            0 <= i < s.len() ==> timed_effect_wf(#[trigger] s[i]) && s[i].id < bound,
    ensures
        timed_ids_unique(without_participant(s, pid)),
        forall|i: int|
            0 <= i < without_participant(s, pid).len() ==> timed_effect_wf(
                #[trigger] without_participant(s, pid)[i],
            ) && without_participant(s, pid)[i].id < bound,
    decreases s.len(),
{
    lemma_without_participant_entries(s, pid);
    assert forall|i: int| 0 <= i < without_participant(s, pid).len() implies timed_effect_wf(
        #[trigger] without_participant(s, pid)[i],
    ) && without_participant(s, pid)[i].id < bound by {
        assert(without_participant(s, pid).contains(without_participant(s, pid)[i]));
    }
    if s.len() > 0 {
        assert forall|i: int, j: int| 0 <= i < j < s.drop_first().len() implies (
        #[trigger] s.drop_first()[i]).id != (#[trigger] s.drop_first()[j]).id by {
            assert(s.drop_first()[i] == s[i + 1]);
            assert(s.drop_first()[j] == s[j + 1]);
        }
        assert forall|i: int| 0 <= i < s.drop_first().len() implies timed_effect_wf(
            #[trigger] s.drop_first()[i],
        ) && s.drop_first()[i].id < bound by {
            assert(s.drop_first()[i] == s[i + 1]);
        }
        lemma_without_participant_preserves_wf(s.drop_first(), pid, bound);
        if s[0].participant != pid {
            lemma_without_participant_entries(s.drop_first(), pid);
            let t = without_participant(s, pid);
            assert forall|i: int, j: int| 0 <= i < j < t.len() implies (#[trigger] t[i]).id != (
            #[trigger] t[j]).id by {
                if i == 0 {
                    assert(t[j] == without_participant(s.drop_first(), pid)[j - 1]);
                    assert(without_participant(s.drop_first(), pid).contains(t[j]));
                    assert(s.drop_first().contains(t[j]));
                    let k = choose|k: int|
                        0 <= k < s.drop_first().len() && s.drop_first()[k] == t[j];
                    assert(s.drop_first()[k] == s[k + 1]);
                } else {
                    assert(t[i] == without_participant(s.drop_first(), pid)[i - 1]);
                    assert(t[j] == without_participant(s.drop_first(), pid)[j - 1]);
                }
            }
        }
    }
}

/// The timed-effect ledger of one combat session.
pub struct EffectLedger {
    /// Effects in attach order.
    pub effects: Vec<TimedEffect>,
    /// Next identifier to assign; all present identifiers are below it.
    pub next_id: u64,
}

impl EffectLedger {
    /// Well-formedness: identifiers are unique and below `next_id`, and no
    /// effect has more remaining duration than its total.
    pub open spec fn wf(self) -> bool {
        &&& timed_ids_unique(self.effects@)
        &&& forall|i: int|
            0 <= i < self.effects@.len() ==> timed_effect_wf(#[trigger] self.effects@[i])
                && self.effects@[i].id < self.next_id
    }

    /// An empty ledger.
    pub fn new() -> (l: EffectLedger)
        ensures
            l.wf(),
            l.effects@.len() == 0,
            l.next_id == 0,
    {
        EffectLedger { effects: Vec::new(), next_id: 0 }
    }

    /// Attaches an effect, already converted to rounds, with a fresh
    /// identifier; its remaining duration starts at its total.
    pub fn attach(
        &mut self,
        participant: u64,
        name: String,
        description: String,
        rounds: u64,
    ) -> (id: u64)
        requires
            old(self).wf(),
            old(self).next_id < u64::MAX,
        ensures
            final(self).wf(),
            id == old(self).next_id,
            final(self).next_id == old(self).next_id + 1,
            final(self).effects@ == old(self).effects@.push(
                (TimedEffect {
                    id: old(self).next_id,
                    participant,
                    name,
                    description,
                    duration: rounds,
                    total_duration: rounds,
                }),
            ),
    {
        let id = self.next_id;
        self.effects.push(TimedEffect {
            id,
            participant,
            name,
            description,
            duration: rounds,
            total_duration: rounds,
        });
        self.next_id = id + 1;
        id
    }

    /// One elapsed round: decrements every duration, removes the effects
    /// that reach zero, and returns their identifiers as the round's expiry
    /// events.
    #[verifier::loop_isolation(false)]
    pub fn tick_round(&mut self) -> (expired: Vec<u64>)
        requires
            old(self).wf(),
        ensures
            final(self).wf(),
            final(self).next_id == old(self).next_id,
            final(self).effects@ == after_timed_tick(old(self).effects@),
            expired@ == expired_timed_ids(old(self).effects@),
    {
        let ghost s = self.effects@;
        let mut kept: Vec<TimedEffect> = Vec::new();
        let mut expired: Vec<u64> = Vec::new();
        while self.effects.len() > 0
            invariant
                self.next_id == old(self).next_id,
                after_timed_tick(s) == kept@ + after_timed_tick(self.effects@),
                expired_timed_ids(s) == expired@ + expired_timed_ids(self.effects@),
            decreases self.effects@.len(),
        {
            let ghost cur = self.effects@;
            let e = self.effects.remove(0);
            proof {
                assert(cur.remove(0) =~= cur.drop_first());
            }
            if e.duration > 1 {
                let ghost k0 = kept@;
                kept.push(TimedEffect { duration: e.duration - 1, ..e });
                proof {
                    assert(kept@ + after_timed_tick(self.effects@) =~= k0 + after_timed_tick(cur));
                }
            } else {
                let ghost x0 = expired@;
                expired.push(e.id);
                proof {
                    assert(expired@ + expired_timed_ids(self.effects@) =~= x0 + expired_timed_ids(
                        cur,
                    ));
                }
            }
        }
        proof {
            assert(self.effects@ =~= Seq::<TimedEffect>::empty());
            assert(after_timed_tick(s) =~= kept@);
            assert(expired_timed_ids(s) =~= expired@);
            lemma_timed_tick_preserves_wf(s, old(self).next_id);
        }
        self.effects = kept;
        expired
    }

    /// Removes every effect attached to one participant (the cascade of
    /// removing that participant) and returns their identifiers.
    #[verifier::loop_isolation(false)]
    pub fn remove_for_participant(&mut self, pid: u64) -> (removed: Vec<u64>)
        requires
            old(self).wf(),
        ensures
            final(self).wf(),
            final(self).next_id == old(self).next_id,
            final(self).effects@ == without_participant(old(self).effects@, pid),
            removed@ == removed_for_participant(old(self).effects@, pid),
    {
        let ghost s = self.effects@;
        let mut kept: Vec<TimedEffect> = Vec::new();
        let mut removed: Vec<u64> = Vec::new();
        while self.effects.len() > 0
            invariant
                self.next_id == old(self).next_id,
                without_participant(s, pid) == kept@ + without_participant(self.effects@, pid),
                removed_for_participant(s, pid) == removed@ + removed_for_participant(
                    self.effects@,
                    pid,
                ),
            decreases self.effects@.len(),
        {
            let ghost cur = self.effects@;
            let e = self.effects.remove(0);
            proof {
                assert(cur.remove(0) =~= cur.drop_first());
            }
            if e.participant == pid {
                let ghost x0 = removed@;
                removed.push(e.id);
                proof {
                    assert(removed@ + removed_for_participant(self.effects@, pid) =~= x0
                        + removed_for_participant(cur, pid));
                }
            } else {
                let ghost k0 = kept@;
                kept.push(e);
                proof {
                    assert(kept@ + without_participant(self.effects@, pid) =~= k0
                        + without_participant(cur, pid));
                }
            }
        }
        proof {
            assert(self.effects@ =~= Seq::<TimedEffect>::empty());
            assert(without_participant(s, pid) =~= kept@);
            assert(removed_for_participant(s, pid) =~= removed@);
            lemma_without_participant_preserves_wf(s, pid, old(self).next_id);
        }
        self.effects = kept;
        removed
    }

    /// Number of effects in the ledger.
    pub fn len(&self) -> (n: usize)
        ensures
            n == self.effects@.len(),
    {
        self.effects.len()
    }
}

/// A persistent status effect on a player or opponent, outliving any single
/// combat session.
#[derive(Clone, Copy)]
pub struct ActiveEffect {
    /// Identifier, unique within the owning ledger.
    pub id: u64,
    /// The effect template this is an instance of.
    pub template: u64,
    /// The entity the effect sits on.
    pub entity: u64,
    /// Discriminator for the entity reference.
    pub kind: EntityKind,
    /// Rounds remaining for a timed unit; `None` means "until a rest clears
    /// it" and is legal only for rest-bound units.
    pub remaining: Option<u64>,
    /// The unit the duration was expressed in.
    pub unit: DurationUnit,
    /// Creation timestamp, supplied by the caller.
    pub created_at: u64,
}

/// A rest-bound effect carries no numeric duration; every other effect
/// carries one.
pub open spec fn active_effect_wf(e: ActiveEffect) -> bool {
    is_rest_bound(e.unit) <==> e.remaining is None
}

/// Whether the effect outlives one more elapsed round: rest-bound effects
/// always do; a timed one only while more than one round remains.
pub open spec fn active_survives(e: ActiveEffect) -> bool {
    is_rest_bound(e.unit) || (e.remaining matches Some(d) && d > 1)
}

/// The effect after one elapsed round: rest-bound effects are untouched,
/// timed ones are decremented.
pub open spec fn tick_active_one(e: ActiveEffect) -> ActiveEffect {
    if is_rest_bound(e.unit) {
        e
    } else {
        match e.remaining {
            Some(d) => ActiveEffect { remaining: Some((d - 1) as u64), ..e },
            None => e,
        }
    }
}

/// The ledger after one elapsed round.
pub open spec fn after_active_tick(s: Seq<ActiveEffect>) -> Seq<ActiveEffect>
    decreases s.len(),
{
    if s.len() == 0 {
        Seq::empty()
    } else if active_survives(s[0]) {
        seq![tick_active_one(s[0])] + after_active_tick(s.drop_first())
    } else {
        after_active_tick(s.drop_first())
    }
}

/// The expiry events of one elapsed round.
pub open spec fn expired_active_ids(s: Seq<ActiveEffect>) -> Seq<u64>
    decreases s.len(),
{
    if s.len() == 0 {
        Seq::empty()
    } else if active_survives(s[0]) {
        expired_active_ids(s.drop_first())
    } else {
        seq![s[0].id] + expired_active_ids(s.drop_first())
    }
}

/// The ledger after `n` elapsed rounds.
pub open spec fn after_active_ticks(s: Seq<ActiveEffect>, n: nat) -> Seq<ActiveEffect>
    decreases n,
{
    if n == 0 {
        s
    } else {
        after_active_tick(after_active_ticks(s, (n - 1) as nat))
    }
}

/// The rest-bound entries of the ledger, in order.
pub open spec fn rest_bound_entries(s: Seq<ActiveEffect>) -> Seq<ActiveEffect>
    decreases s.len(),
{
    if s.len() == 0 {
        Seq::empty()
    } else if is_rest_bound(s[0].unit) {
        seq![s[0]] + rest_bound_entries(s.drop_first())
    } else {
        rest_bound_entries(s.drop_first())
    }
}

/// Whether a rest of the given kind on the given entity clears this effect.
pub open spec fn rest_removes(e: ActiveEffect, entity: u64, kind: EntityKind, rest: RestKind) -> bool {
    e.entity == entity && e.kind == kind && rest_clears(e.unit, rest)
}

/// The ledger after a rest event on one entity.
pub open spec fn after_rest(s: Seq<ActiveEffect>, entity: u64, kind: EntityKind, rest: RestKind) -> Seq<ActiveEffect>
    decreases s.len(),
{
    if s.len() == 0 {
        Seq::empty()
    } else if rest_removes(s[0], entity, kind, rest) {
        after_rest(s.drop_first(), entity, kind, rest)
    } else {
        seq![s[0]] + after_rest(s.drop_first(), entity, kind, rest)
    }
}

/// The identifiers cleared by a rest event, in ledger order.
pub open spec fn cleared_by_rest(s: Seq<ActiveEffect>, entity: u64, kind: EntityKind, rest: RestKind) -> Seq<u64>
    decreases s.len(),
{
    if s.len() == 0 {
        Seq::empty()
    } else if rest_removes(s[0], entity, kind, rest) {
        seq![s[0].id] + cleared_by_rest(s.drop_first(), entity, kind, rest)
    } else {
        cleared_by_rest(s.drop_first(), entity, kind, rest)
    }
}

/// The ledger with every instance of one effect template removed (the
/// cascade of deleting that template).
pub open spec fn without_template(s: Seq<ActiveEffect>, template: u64) -> Seq<ActiveEffect>
    decreases s.len(),
{
    if s.len() == 0 {
        Seq::empty()
    } else if s[0].template == template {
        without_template(s.drop_first(), template)
    } else {
        seq![s[0]] + without_template(s.drop_first(), template)
    }
}

/// The identifiers removed by [`without_template`], in ledger order.
pub open spec fn removed_for_template(s: Seq<ActiveEffect>, template: u64) -> Seq<u64>
    decreases s.len(),
{
    if s.len() == 0 {
        Seq::empty()
    } else if s[0].template == template {
        seq![s[0].id] + removed_for_template(s.drop_first(), template)
    } else {
        removed_for_template(s.drop_first(), template)
    }
}

/// No two active effects share an identifier.
pub open spec fn active_ids_unique(s: Seq<ActiveEffect>) -> bool {
    forall|i: int, j: int|
        0 <= i < j < s.len() ==> (#[trigger] s[i]).id != (#[trigger] s[j]).id
}

/// Law: rest-bound effects are invariant under round ticking. One elapsed
/// round leaves the rest-bound entries of the ledger exactly as they were.
pub proof fn lemma_rest_bound_tick_invariant_step(s: Seq<ActiveEffect>)
    ensures
        rest_bound_entries(after_active_tick(s)) == rest_bound_entries(s),
    decreases s.len(),
{
    if s.len() == 0 {
        assert(rest_bound_entries(after_active_tick(s)) =~= rest_bound_entries(s));
    } else {
        lemma_rest_bound_tick_invariant_step(s.drop_first());
        if active_survives(s[0]) {
            let t = seq![tick_active_one(s[0])] + after_active_tick(s.drop_first());
            assert(t[0] == tick_active_one(s[0]));
            assert(t.drop_first() =~= after_active_tick(s.drop_first()));
            if is_rest_bound(s[0].unit) {
                assert(tick_active_one(s[0]) == s[0]);
                assert(rest_bound_entries(t) =~= seq![s[0]] + rest_bound_entries(
                    after_active_tick(s.drop_first()),
                ));
                assert(rest_bound_entries(s) =~= seq![s[0]] + rest_bound_entries(s.drop_first()));
            }
        } else {
            assert(!is_rest_bound(s[0].unit));
        }
    }
}

/// Law: rest-bound effects are invariant under any number of round ticks.
pub proof fn lemma_rest_bound_tick_invariant(s: Seq<ActiveEffect>, n: nat)
    ensures
        rest_bound_entries(after_active_ticks(s, n)) == rest_bound_entries(s),
    decreases n,
{
    if n > 0 {
        lemma_rest_bound_tick_invariant(s, (n - 1) as nat);
        lemma_rest_bound_tick_invariant_step(after_active_ticks(s, (n - 1) as nat));
    }
}

/// A rest keeps exactly the entries it does not clear.
pub proof fn lemma_after_rest_entries(s: Seq<ActiveEffect>, entity: u64, kind: EntityKind, rest: RestKind)
    ensures
        forall|x: ActiveEffect| #[trigger] after_rest(s, entity, kind, rest).contains(x)
            <==> s.contains(x) && !rest_removes(x, entity, kind, rest),
    decreases s.len(),
{
    if s.len() > 0 {
        lemma_after_rest_entries(s.drop_first(), entity, kind, rest);
        let t = after_rest(s, entity, kind, rest);
        let t1 = after_rest(s.drop_first(), entity, kind, rest);
        assert forall|x: ActiveEffect| #[trigger] t.contains(x) implies s.contains(x)
            && !rest_removes(x, entity, kind, rest) by {
            let w = choose|w: int| 0 <= w < t.len() && t[w] == x;
            if !rest_removes(s[0], entity, kind, rest) && w > 0 {
                assert(t[w] == t1[w - 1]);
            }
            if rest_removes(s[0], entity, kind, rest) || w > 0 {
                assert(t1.contains(x));
                let v = choose|v: int| 0 <= v < s.drop_first().len() && s.drop_first()[v] == x;
                assert(s[v + 1] == x);
            }
        }
        assert forall|x: ActiveEffect|
            s.contains(x) && !rest_removes(x, entity, kind, rest) implies #[trigger] t.contains(
            x,
        ) by {
            let w = choose|w: int| 0 <= w < s.len() && s[w] == x;
            if w == 0 {
                assert(t[0] == x);
            } else {
                assert(s.drop_first()[w - 1] == x);
                assert(t1.contains(x));
                let v = choose|v: int| 0 <= v < t1.len() && t1[v] == x;
                if rest_removes(s[0], entity, kind, rest) {
                    assert(t[v] == x);
                } else {
                    assert(t[v + 1] == x);
                }
            }
        }
    }
}

/// Law: the rest-clearing rule. A short rest clears exactly the
/// short-rest-bound effects of the entity and never a long-rest-bound one; a
/// long rest clears both rest-bound kinds; timed effects are never cleared
/// by a rest.
pub proof fn lemma_rest_clearing_rule(s: Seq<ActiveEffect>, entity: u64, kind: EntityKind)
    ensures
        forall|x: ActiveEffect| #[trigger] after_rest(s, entity, kind, RestKind::Short).contains(x)
            <==> s.contains(x) && !(x.entity == entity && x.kind == kind
            && x.unit is ShortRest),
        forall|x: ActiveEffect| #[trigger] after_rest(s, entity, kind, RestKind::Long).contains(x)
            <==> s.contains(x) && !(x.entity == entity && x.kind == kind && is_rest_bound(
            x.unit,
        )),
{
    lemma_after_rest_entries(s, entity, kind, RestKind::Short);
    lemma_after_rest_entries(s, entity, kind, RestKind::Long);
}

/// Every entry of the ticked ledger is a surviving entry of the old one,
/// ticked.
pub proof fn lemma_active_tick_entries(s: Seq<ActiveEffect>)
    ensures
        forall|x: ActiveEffect| #[trigger] after_active_tick(s).contains(x) ==> exists|k: int|
            0 <= k < s.len() && active_survives(#[trigger] s[k]) && x == tick_active_one(s[k]),
    decreases s.len(),
{
    if s.len() > 0 {
        lemma_active_tick_entries(s.drop_first());
        assert forall|x: ActiveEffect| #[trigger] after_active_tick(s).contains(x) implies exists|
            k: int,
        | 0 <= k < s.len() && active_survives(#[trigger] s[k]) && x == tick_active_one(s[k]) by {
            let w = choose|w: int|
                0 <= w < after_active_tick(s).len() && after_active_tick(s)[w] == x;
            if active_survives(s[0]) && w == 0 {
                assert(active_survives(s[0]) && x == tick_active_one(s[0]));
            } else {
                if active_survives(s[0]) {
                    assert(after_active_tick(s.drop_first())[w - 1] == x);
                }
                assert(after_active_tick(s.drop_first()).contains(x));
                let k = choose|k: int|
                    0 <= k < s.drop_first().len() && active_survives(#[trigger] s.drop_first()[k])
                        && x == tick_active_one(s.drop_first()[k]);
                assert(s.drop_first()[k] == s[k + 1]);
            }
        }
    }
}

/// Ticking preserves identifier uniqueness, each entry's invariant, and any
/// identifier bound.
pub proof fn lemma_active_tick_preserves_wf(s: Seq<ActiveEffect>, bound: u64)
    requires
        active_ids_unique(s),
        forall|i: int|
            0 <= i < s.len() ==> active_effect_wf(#[trigger] s[i]) && s[i].id < bound,
    ensures
        active_ids_unique(after_active_tick(s)),
        forall|i: int|
            0 <= i < after_active_tick(s).len() ==> active_effect_wf(
                #[trigger] after_active_tick(s)[i],
            ) && after_active_tick(s)[i].id < bound,
    decreases s.len(),
{
    lemma_active_tick_entries(s);
    assert forall|i: int| 0 <= i < after_active_tick(s).len() implies active_effect_wf(
        #[trigger] after_active_tick(s)[i],
    ) && after_active_tick(s)[i].id < bound by {
        assert(after_active_tick(s).contains(after_active_tick(s)[i]));
    }
    if s.len() > 0 {
        assert forall|i: int, j: int| 0 <= i < j < s.drop_first().len() implies (
        #[trigger] s.drop_first()[i]).id != (#[trigger] s.drop_first()[j]).id by {
            assert(s.drop_first()[i] == s[i + 1]);
            assert(s.drop_first()[j] == s[j + 1]);
        }
        assert forall|i: int| 0 <= i < s.drop_first().len() implies active_effect_wf(
            #[trigger] s.drop_first()[i],
        ) && s.drop_first()[i].id < bound by {
            assert(s.drop_first()[i] == s[i + 1]);
        }
        lemma_active_tick_preserves_wf(s.drop_first(), bound);
        if active_survives(s[0]) {
            lemma_active_tick_entries(s.drop_first());
            let t = after_active_tick(s);
            assert forall|i: int, j: int| 0 <= i < j < t.len() implies (#[trigger] t[i]).id != (
            #[trigger] t[j]).id by {
                if i == 0 {
                    assert(t[j] == after_active_tick(s.drop_first())[j - 1]);
                    assert(after_active_tick(s.drop_first()).contains(t[j]));
                    let k = choose|k: int|
                        0 <= k < s.drop_first().len() && active_survives(
                            #[trigger] s.drop_first()[k],
                        ) && t[j] == tick_active_one(s.drop_first()[k]);
                    assert(s.drop_first()[k] == s[k + 1]);
                    assert(t[j].id == s[k + 1].id);
                } else {
                    assert(t[i] == after_active_tick(s.drop_first())[i - 1]);
                    assert(t[j] == after_active_tick(s.drop_first())[j - 1]);
                }
            }
        }
    }
}

/// A rest preserves identifier uniqueness, each entry's invariant, and any
/// identifier bound.
pub proof fn lemma_after_rest_preserves_wf(
    s: Seq<ActiveEffect>,
    entity: u64,
    kind: EntityKind,
    rest: RestKind,
    bound: u64,
)
    requires
        active_ids_unique(s),
        forall|i: int|
            0 <= i < s.len() ==> active_effect_wf(#[trigger] s[i]) && s[i].id < bound,
    ensures
        active_ids_unique(after_rest(s, entity, kind, rest)),
        forall|i: int|
            0 <= i < after_rest(s, entity, kind, rest).len() ==> active_effect_wf(
                #[trigger] after_rest(s, entity, kind, rest)[i],
            ) && after_rest(s, entity, kind, rest)[i].id < bound,
    decreases s.len(),
{
    lemma_after_rest_entries(s, entity, kind, rest);
    assert forall|i: int| 0 <= i < after_rest(s, entity, kind, rest).len() implies active_effect_wf(
        #[trigger] after_rest(s, entity, kind, rest)[i],
    ) && after_rest(s, entity, kind, rest)[i].id < bound by {
        assert(after_rest(s, entity, kind, rest).contains(after_rest(s, entity, kind, rest)[i]));
    }
    if s.len() > 0 {
        assert forall|i: int, j: int| 0 <= i < j < s.drop_first().len() implies (
        #[trigger] s.drop_first()[i]).id != (#[trigger] s.drop_first()[j]).id by {
            assert(s.drop_first()[i] == s[i + 1]);
            assert(s.drop_first()[j] == s[j + 1]);
        }
        assert forall|i: int| 0 <= i < s.drop_first().len() implies active_effect_wf(
            #[trigger] s.drop_first()[i],
        ) && s.drop_first()[i].id < bound by {
            assert(s.drop_first()[i] == s[i + 1]);
        }
        lemma_after_rest_preserves_wf(s.drop_first(), entity, kind, rest, bound);
        if !rest_removes(s[0], entity, kind, rest) {
            lemma_after_rest_entries(s.drop_first(), entity, kind, rest);
            let t = after_rest(s, entity, kind, rest);
            let t1 = after_rest(s.drop_first(), entity, kind, rest);
            assert forall|i: int, j: int| 0 <= i < j < t.len() implies (#[trigger] t[i]).id != (
            #[trigger] t[j]).id by {
                if i == 0 {
                    assert(t[j] == t1[j - 1]);
                    assert(t1.contains(t[j]));
                    assert(s.drop_first().contains(t[j]));
                    let k = choose|k: int|
                        0 <= k < s.drop_first().len() && s.drop_first()[k] == t[j];
                    assert(s.drop_first()[k] == s[k + 1]);
                } else {
                    assert(t[i] == t1[i - 1]);
                    assert(t[j] == t1[j - 1]);
                }
            }
        }
    }
}

/// Deleting a template keeps exactly the instances of other templates.
pub proof fn lemma_without_template_entries(s: Seq<ActiveEffect>, template: u64)
    ensures
        forall|x: ActiveEffect| #[trigger] without_template(s, template).contains(x)
            <==> s.contains(x) && x.template != template,
    decreases s.len(),
{
    if s.len() > 0 {
        lemma_without_template_entries(s.drop_first(), template);
        let t = without_template(s, template);
        let t1 = without_template(s.drop_first(), template);
        assert forall|x: ActiveEffect| #[trigger] t.contains(x) implies s.contains(x) && x.template
            != template by {
            let w = choose|w: int| 0 <= w < t.len() && t[w] == x;
            if s[0].template != template && w > 0 {
                assert(t[w] == t1[w - 1]);
            }
            if s[0].template == template || w > 0 {
                assert(t1.contains(x));
                let v = choose|v: int| 0 <= v < s.drop_first().len() && s.drop_first()[v] == x;
                assert(s[v + 1] == x);
            }
        }
        assert forall|x: ActiveEffect|
            s.contains(x) && x.template != template implies #[trigger] t.contains(x) by {
            let w = choose|w: int| 0 <= w < s.len() && s[w] == x;
            if w == 0 {
                assert(t[0] == x);
            } else {
                assert(s.drop_first()[w - 1] == x);
                assert(t1.contains(x));
                let v = choose|v: int| 0 <= v < t1.len() && t1[v] == x;
                if s[0].template == template {
                    assert(t[v] == x);
                } else {
                    assert(t[v + 1] == x);
                }
            }
        }
    }
}

/// Deleting a template preserves identifier uniqueness, each entry's
/// invariant, and any identifier bound.
pub proof fn lemma_without_template_preserves_wf(s: Seq<ActiveEffect>, template: u64, bound: u64)
    requires
        active_ids_unique(s),
        forall|i: int|
            0 <= i < s.len() ==> active_effect_wf(#[trigger] s[i]) && s[i].id < bound,
    ensures
        active_ids_unique(without_template(s, template)),
        forall|i: int|
            0 <= i < without_template(s, template).len() ==> active_effect_wf(
                #[trigger] without_template(s, template)[i],
            ) && without_template(s, template)[i].id < bound,
    decreases s.len(),
{
    lemma_without_template_entries(s, template);
    assert forall|i: int| 0 <= i < without_template(s, template).len() implies active_effect_wf(
        #[trigger] without_template(s, template)[i],
    ) && without_template(s, template)[i].id < bound by {
        assert(without_template(s, template).contains(without_template(s, template)[i]));
    }
    if s.len() > 0 {
        assert forall|i: int, j: int| 0 <= i < j < s.drop_first().len() implies (
        #[trigger] s.drop_first()[i]).id != (#[trigger] s.drop_first()[j]).id by {
            assert(s.drop_first()[i] == s[i + 1]);
            assert(s.drop_first()[j] == s[j + 1]);
        }
        assert forall|i: int| 0 <= i < s.drop_first().len() implies active_effect_wf(
            #[trigger] s.drop_first()[i],
        ) && s.drop_first()[i].id < bound by {
            assert(s.drop_first()[i] == s[i + 1]);
        }
        lemma_without_template_preserves_wf(s.drop_first(), template, bound);
        if s[0].template != template {
            lemma_without_template_entries(s.drop_first(), template);
            let t = without_template(s, template);
            let t1 = without_template(s.drop_first(), template);
            assert forall|i: int, j: int| 0 <= i < j < t.len() implies (#[trigger] t[i]).id != (
            #[trigger] t[j]).id by {
                if i == 0 {
                    assert(t[j] == t1[j - 1]);
                    assert(t1.contains(t[j]));
                    assert(s.drop_first().contains(t[j]));
                    let k = choose|k: int|
                        0 <= k < s.drop_first().len() && s.drop_first()[k] == t[j];
                    assert(s.drop_first()[k] == s[k + 1]);
                } else {
                    assert(t[i] == t1[i - 1]);
                    assert(t[j] == t1[j - 1]);
                }
            }
        }
    }
}

/// The ledger of persistent, entity-scoped effects.
pub struct ActiveLedger {
    /// Effects in attach order.
    pub effects: Vec<ActiveEffect>,
    /// Next identifier to assign; all present identifiers are below it.
    pub next_id: u64,
}

impl ActiveLedger {
    /// Well-formedness: identifiers are unique and below `next_id`, and
    /// every entry carries a numeric duration exactly when its unit is not
    /// rest-bound.
    pub open spec fn wf(self) -> bool {
        &&& active_ids_unique(self.effects@)
        &&& forall|i: int|
            0 <= i < self.effects@.len() ==> active_effect_wf(#[trigger] self.effects@[i])
                && self.effects@[i].id < self.next_id
    }

    /// An empty ledger.
    pub fn new() -> (l: ActiveLedger)
        ensures
            l.wf(),
            l.effects@.len() == 0,
            l.next_id == 0,
    {
        ActiveLedger { effects: Vec::new(), next_id: 0 }
    }

    /// Attaches a persistent effect instance to an entity. A missing
    /// duration on a unit that is not rest-bound — and a present one on a
    /// unit that is — is a data-integrity violation, reported, not silently
    /// repaired.
    pub fn attach(
        &mut self,
        template: u64,
        entity: u64,
        kind: EntityKind,
        remaining: Option<u64>,
        unit: DurationUnit,
        created_at: u64,
    ) -> (res: Result<u64, EngineError>)
        requires
            old(self).wf(),
            old(self).next_id < u64::MAX,
        ensures
            final(self).wf(),
            res is Err <==> (is_rest_bound(unit) != (remaining is None)),
            res is Err ==> res->Err_0 == EngineError::IntegrityViolation && *final(self) == *old(
                self,
            ),
            res is Ok ==> res->Ok_0 == old(self).next_id && final(self).next_id == old(
                self,
            ).next_id + 1 && final(self).effects@ == old(self).effects@.push(
                (ActiveEffect {
                    id: old(self).next_id,
                    template,
                    entity,
                    kind,
                    remaining,
                    unit,
                    created_at,
                }),
            ),
    {
        let rest_bound = crate::duration::unit_is_rest_bound(&unit);
        if rest_bound != remaining.is_none() {
            return Err(EngineError::IntegrityViolation);
        }
        let id = self.next_id;
        self.effects.push(ActiveEffect { id, template, entity, kind, remaining, unit, created_at });
        self.next_id = id + 1;
        Ok(id)
    }

    /// One elapsed combat round: decrements every timed entry, removes those
    /// that reach zero and returns their identifiers; rest-bound entries are
    /// untouched.
    #[verifier::loop_isolation(false)]
    pub fn tick_round(&mut self) -> (expired: Vec<u64>)
        requires
            old(self).wf(),
        ensures
            final(self).wf(),
            final(self).next_id == old(self).next_id,
            final(self).effects@ == after_active_tick(old(self).effects@),
            expired@ == expired_active_ids(old(self).effects@),
    {
        let ghost s = self.effects@;
        let mut kept: Vec<ActiveEffect> = Vec::new();
        let mut expired: Vec<u64> = Vec::new();
        while self.effects.len() > 0
            invariant
                self.next_id == old(self).next_id,
                after_active_tick(s) == kept@ + after_active_tick(self.effects@),
                expired_active_ids(s) == expired@ + expired_active_ids(self.effects@),
            decreases self.effects@.len(),
        {
            let ghost cur = self.effects@;
            let e = self.effects.remove(0);
            proof {
                assert(cur.remove(0) =~= cur.drop_first());
            }
            let survives = if crate::duration::unit_is_rest_bound(&e.unit) {
                true
            } else {
                match e.remaining {
                    Some(d) => d > 1,
                    None => false,
                }
            };
            if survives {
                let ticked = if crate::duration::unit_is_rest_bound(&e.unit) {
                    e
                } else {
                    match e.remaining {
                        Some(d) => ActiveEffect { remaining: Some(d - 1), ..e },
                        None => e,
                    }
                };
                let ghost k0 = kept@;
                kept.push(ticked);
                proof {
                    assert(ticked == tick_active_one(cur[0]));
                    assert(kept@ + after_active_tick(self.effects@) =~= k0 + after_active_tick(
                        cur,
                    ));
                }
            } else {
                let ghost x0 = expired@;
                expired.push(e.id);
                proof {
                    assert(expired@ + expired_active_ids(self.effects@) =~= x0 + expired_active_ids(
                        cur,
                    ));
                }
            }
        }
        proof {
            assert(self.effects@ =~= Seq::<ActiveEffect>::empty());
            assert(after_active_tick(s) =~= kept@);
            assert(expired_active_ids(s) =~= expired@);
            lemma_active_tick_preserves_wf(s, old(self).next_id);
        }
        self.effects = kept;
        expired
    }

    /// A rest event on one entity: clears every effect the rest-clearing
    /// rule matches and returns their identifiers.
    #[verifier::loop_isolation(false)]
    pub fn apply_rest(&mut self, entity: u64, kind: EntityKind, rest: RestKind) -> (cleared: Vec<
        u64,
    >)
        requires
            old(self).wf(),
        ensures
            final(self).wf(),
            final(self).next_id == old(self).next_id,
            final(self).effects@ == after_rest(old(self).effects@, entity, kind, rest),
            cleared@ == cleared_by_rest(old(self).effects@, entity, kind, rest),
    {
        let ghost s = self.effects@;
        let mut kept: Vec<ActiveEffect> = Vec::new();
        let mut cleared: Vec<u64> = Vec::new();
        while self.effects.len() > 0
            invariant
                self.next_id == old(self).next_id,
                after_rest(s, entity, kind, rest) == kept@ + after_rest(
                    self.effects@,
                    entity,
                    kind,
                    rest,
                ),
                cleared_by_rest(s, entity, kind, rest) == cleared@ + cleared_by_rest(
                    self.effects@,
                    entity,
                    kind,
                    rest,
                ),
            decreases self.effects@.len(),
        {
            let ghost cur = self.effects@;
            let e = self.effects.remove(0);
            proof {
                assert(cur.remove(0) =~= cur.drop_first());
            }
            if e.entity == entity && e.kind == kind && crate::duration::unit_cleared_by(
                &e.unit,
                &rest,
            ) {
                let ghost x0 = cleared@;
                cleared.push(e.id);
                proof {
                    assert(cleared@ + cleared_by_rest(self.effects@, entity, kind, rest) =~= x0
                        + cleared_by_rest(cur, entity, kind, rest));
                }
            } else {
                let ghost k0 = kept@;
                kept.push(e);
                proof {
                    assert(kept@ + after_rest(self.effects@, entity, kind, rest) =~= k0
                        + after_rest(cur, entity, kind, rest));
                }
            }
        }
        proof {
            assert(self.effects@ =~= Seq::<ActiveEffect>::empty());
            assert(after_rest(s, entity, kind, rest) =~= kept@);
            assert(cleared_by_rest(s, entity, kind, rest) =~= cleared@);
            lemma_after_rest_preserves_wf(s, entity, kind, rest, old(self).next_id);
        }
        self.effects = kept;
        cleared
    }

    /// Removes every instance of one effect template (the cascade of
    /// deleting that template) and returns their identifiers.
    #[verifier::loop_isolation(false)]
    pub fn remove_for_template(&mut self, template: u64) -> (removed: Vec<u64>)
        requires
            old(self).wf(),
        ensures
            final(self).wf(),
            final(self).next_id == old(self).next_id,
            final(self).effects@ == without_template(old(self).effects@, template),
            removed@ == removed_for_template(old(self).effects@, template),
    {
        let ghost s = self.effects@;
        let mut kept: Vec<ActiveEffect> = Vec::new();
        let mut removed: Vec<u64> = Vec::new();
        while self.effects.len() > 0
            invariant
                self.next_id == old(self).next_id,
                without_template(s, template) == kept@ + without_template(
                    self.effects@,
                    template,
                ),
                removed_for_template(s, template) == removed@ + removed_for_template(
                    self.effects@,
                    template,
                ),
            decreases self.effects@.len(),
        {
            let ghost cur = self.effects@;
            let e = self.effects.remove(0);
            proof {
                assert(cur.remove(0) =~= cur.drop_first());
            }
            if e.template == template {
                let ghost x0 = removed@;
                removed.push(e.id);
                proof {
                    assert(removed@ + removed_for_template(self.effects@, template) =~= x0
                        + removed_for_template(cur, template));
                }
            } else {
                let ghost k0 = kept@;
                kept.push(e);
                proof {
                    assert(kept@ + without_template(self.effects@, template) =~= k0
                        + without_template(cur, template));
                }
            }
        }
        proof {
            assert(self.effects@ =~= Seq::<ActiveEffect>::empty());
            assert(without_template(s, template) =~= kept@);
            assert(removed_for_template(s, template) =~= removed@);
            lemma_without_template_preserves_wf(s, template, old(self).next_id);
        }
        self.effects = kept;
        removed
    }

    /// Number of effects in the ledger.
    pub fn len(&self) -> (n: usize)
        ensures
            n == self.effects@.len(),
    {
        self.effects.len()
    }
}

} // verus!
