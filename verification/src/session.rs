//! Combat session state machine.
//!
//! A session is `Running` or `Ended`. While running, it tracks the current
//! round (starting at 1 and never decreasing), the currently active
//! participant, the roster, and the session's timed effects. Advancing past
//! the last participant in turn order wraps to the first, increments the
//! round and ticks the effect ledger. Operations on an ended session fail
//! with an invalid-state condition rather than silently doing nothing, and
//! removing a participant cascades to its effects and never leaves the
//! active pointer dangling.

use vstd::prelude::*;

use crate::duration::{is_rest_bound, rounds_equivalent, DurationUnit};
use crate::effects::{
    after_timed_tick, expired_timed_ids, lemma_timed_tick_entries, removed_for_participant,
    without_participant, EffectLedger, TimedEffect,
};
use crate::errors::EngineError;
use crate::roster::{
    has_id, index_of_id, lemma_index_of_id, spec_turn_order, EntityKind, Participant, Roster,
};

verus! {

/// Whether a combat session still accepts turn and round operations.
#[derive(Clone, Copy, Debug, PartialEq, Eq, Structural)]
pub enum SessionStatus {
    Running,
    Ended,
}

/// What a participant looks like before it enters a session: the roster
/// assigns the identifier.
pub struct ParticipantInit {
    /// The underlying player or opponent record.
    pub entity: u64,
    /// Discriminator for the entity reference.
    pub kind: EntityKind,
    /// Display name to snapshot.
    pub name: String,
    /// Initiative score; higher acts first.
    pub initiative: i64,
}

/// The first position of an identifier in a turn order (or `s.len()` if it
/// does not occur).
pub open spec fn first_index_of(s: Seq<u64>, id: u64) -> int
    decreases s.len(),
{
    if s.len() == 0 {
        0
    } else if s[0] == id {
        0
    } else {
        1 + first_index_of(s.drop_first(), id)
    }
}

/// [`first_index_of`] finds the first occurrence, if any.
pub proof fn lemma_first_index_of(s: Seq<u64>, id: u64)
    ensures
        s.contains(id) ==> 0 <= first_index_of(s, id) < s.len() && s[first_index_of(s, id)] == id,
        !s.contains(id) ==> first_index_of(s, id) == s.len(),
        forall|k: int| 0 <= k < first_index_of(s, id) ==> s[k] != id,
    decreases s.len(),
{
    if s.len() == 0 {
    } else if s[0] == id {
    } else {
        lemma_first_index_of(s.drop_first(), id);
        assert forall|k: int| 0 <= k < first_index_of(s, id) implies s[k] != id by {
            if k > 0 {
                assert(s.drop_first()[k - 1] == s[k]);
            }
        }
        if s.contains(id) {
            let w = choose|w: int| 0 <= w < s.len() && s[w] == id;
            assert(s.drop_first()[w - 1] == s[w]);
            assert(s.drop_first().contains(id));
            assert(s.drop_first()[first_index_of(s.drop_first(), id)] == s[first_index_of(s, id)]);
        } else {
            if s.drop_first().contains(id) {
                let w = choose|w: int|
                    0 <= w < s.drop_first().len() && s.drop_first()[w] == id;
                assert(s.drop_first()[w] == s[w + 1]);
            }
        }
    }
}

/// Whether advancing the turn wraps past the end of the turn order (and so
/// ends the round): the active participant is the last in turn order.
pub open spec fn wrap_occurs(r: Seq<Participant>, active: Option<u64>) -> bool {
    match active {
        None => false,
        Some(cur) => spec_turn_order(r).len() > 0 && first_index_of(spec_turn_order(r), cur) + 1
            >= spec_turn_order(r).len(),
    }
}

/// The active participant after one turn advance: the next entry of the turn
/// order, wrapping to the first; from a cleared pointer, the first entry; on
/// an empty roster, none.
pub open spec fn next_active(r: Seq<Participant>, active: Option<u64>) -> Option<u64> {
    let ord = spec_turn_order(r);
    if ord.len() == 0 {
        None
    } else {
        match active {
            None => Some(ord[0]),
            Some(cur) => {
                if first_index_of(ord, cur) + 1 < ord.len() {
                    Some(ord[first_index_of(ord, cur) + 1])
                } else {
                    Some(ord[0])
                }
            },
        }
    }
}

/// A live combat encounter: roster, round counter, active participant and
/// the session's timed effects.
pub struct CombatSession {
    /// Opaque session identifier.
    pub id: u64,
    /// The chapter the combat belongs to.
    pub chapter: u64,
    /// The encounter it originated from, if any.
    pub encounter: Option<u64>,
    /// Current round, starting at 1 and monotonically non-decreasing.
    pub round: u64,
    /// The participant whose turn it is, if any; always present in the
    /// roster.
    pub active: Option<u64>,
    /// Whether the session still accepts turn and round operations.
    pub status: SessionStatus,
    /// Creation timestamp, supplied by the caller.
    pub created_at: u64,
    /// The participants of this session.
    pub roster: Roster,
    /// The timed effects of this session.
    pub effects: EffectLedger,
}

impl CombatSession {
    /// Well-formedness: the roster and ledger invariants hold, the round is
    /// at least 1, the active pointer (if set) references a present
    /// participant, and every effect targets a present participant.
    pub open spec fn wf(self) -> bool {
        &&& self.roster.wf()
        &&& self.effects.wf()
        &&& self.round >= 1
        &&& match self.active {
            Some(a) => has_id(self.roster.participants@, a),
            None => true,
        }
        &&& forall|i: int|
            0 <= i < self.effects.effects@.len() ==> has_id(
                self.roster.participants@,
                (#[trigger] self.effects.effects@[i]).participant,
            )
    }

    /// Starts a combat session: round 1, running, no effects, and the first
    /// participant in turn order active (none on an empty roster).
    /// Participant identifiers are assigned in insertion order.
    #[verifier::loop_isolation(false)]
    pub fn start(
        id: u64,
        chapter: u64,
        encounter: Option<u64>,
        participants: Vec<ParticipantInit>,
        created_at: u64,
    ) -> (s: CombatSession)
        requires
            participants@.len() < u64::MAX,
        ensures
            s.wf(),
            s.id == id,
            s.chapter == chapter,
            s.encounter == encounter,
            s.created_at == created_at,
            s.status is Running,
            s.round == 1,
            s.effects.effects@.len() == 0,
            s.effects.next_id == 0,
            s.roster.next_id == participants@.len(),
            s.roster.participants@.len() == participants@.len(),
            forall|i: int|
                0 <= i < participants@.len() ==> (#[trigger] s.roster.participants@[i]).id
                    == i as u64 && s.roster.participants@[i].entity == participants@[i].entity
                    && s.roster.participants@[i].kind == participants@[i].kind
                    && s.roster.participants@[i].name == participants@[i].name
                    && s.roster.participants@[i].initiative == participants@[i].initiative,
            s.active == next_active(s.roster.participants@, None),
    {
        let ghost inits = participants@;
        let mut remaining = participants;
        let mut roster = Roster::new();
        while remaining.len() > 0
            invariant
                roster.wf(),
                remaining@.len() <= inits.len(),
                roster.participants@.len() + remaining@.len() == inits.len(),
                roster.next_id == roster.participants@.len(),
                remaining@ == inits.skip(roster.participants@.len() as int),
                forall|i: int|
                    0 <= i < roster.participants@.len() ==> (#[trigger] roster.participants@[i]).id
                        == i as u64 && roster.participants@[i].entity == inits[i].entity
                        && roster.participants@[i].kind == inits[i].kind
                        && roster.participants@[i].name == inits[i].name
                        && roster.participants@[i].initiative == inits[i].initiative,
            decreases remaining@.len(),
        {
            let ghost before = remaining@;
            let ghost done = roster.participants@.len() as int;
            let p = remaining.remove(0);
            proof {
                assert(before.remove(0) =~= before.drop_first());
                assert(before[0] == inits[done]);
                assert(inits.skip(done).drop_first() =~= inits.skip(done + 1));
            }
            let added = roster.add_participant(p.entity, p.kind, p.name, p.initiative, false);
            proof {
                assert(added is Ok);
            }
            match added {
                Ok(_) => (),
                Err(_) => (),
            }
        }
        proof {
            assert(roster.participants@.len() == inits.len());
        }
        let order = roster.turn_order();
        let active = if order.len() > 0 {
            Some(order[0])
        } else {
            None
        };
        CombatSession {
            id,
            chapter,
            encounter,
            round: 1,
            active,
            status: SessionStatus::Running,
            created_at,
            roster,
            effects: EffectLedger::new(),
        }
    }

    /// Recomputes the turn order of the roster.
    pub fn turn_order(&self) -> (order: Vec<u64>)
        ensures
            order@ == spec_turn_order(self.roster.participants@),
    {
        self.roster.turn_order()
    }

    /// Moves the active pointer to the next participant in turn order. On a
    /// wrap past the last participant the round is incremented and the
    /// effect ledger is ticked; the expiry events of that tick are returned.
    /// On an empty roster the pointer is cleared and the round does not
    /// advance. On an ended session the call fails and changes nothing.
    pub fn advance_turn(&mut self) -> (res: Result<Vec<u64>, EngineError>)
        requires
            old(self).wf(),
            old(self).round < u64::MAX,
        ensures
            final(self).wf(),
            final(self).id == old(self).id,
            final(self).chapter == old(self).chapter,
            final(self).encounter == old(self).encounter,
            final(self).created_at == old(self).created_at,
            final(self).status == old(self).status,
            final(self).roster == old(self).roster,
            final(self).effects.next_id == old(self).effects.next_id,
            old(self).status is Ended ==> res is Err && res->Err_0 == EngineError::InvalidState
                && *final(self) == *old(self),
            old(self).status is Running ==> res is Ok && final(self).active == next_active(
                old(self).roster.participants@,
                old(self).active,
            ),
            old(self).status is Running && wrap_occurs(
                old(self).roster.participants@,
                old(self).active,
            ) ==> final(self).round == old(self).round + 1 && final(self).effects.effects@
                == after_timed_tick(old(self).effects.effects@) && res->Ok_0@ == expired_timed_ids(
                old(self).effects.effects@,
            ),
            old(self).status is Running && !wrap_occurs(
                old(self).roster.participants@,
                old(self).active,
            ) ==> final(self).round == old(self).round && final(self).effects == old(self).effects
                && res->Ok_0@ == Seq::<u64>::empty(),
    {
        match self.status {
            SessionStatus::Ended => {
                return Err(EngineError::InvalidState);
            },
            SessionStatus::Running => (),
        }
        let ghost r = self.roster.participants@;
        let order = self.roster.turn_order();
        if order.len() == 0 {
            self.active = None;
            return Ok(Vec::new());
        }
        match self.active {
            None => {
                self.active = Some(order[0]);
                Ok(Vec::new())
            },
            Some(cur) => {
                proof {
                    let w = choose|w: int| 0 <= w < r.len() && (#[trigger] r[w]).id == cur;
                    assert(spec_turn_order(r).contains(cur));
                }
                let p = position_of(&order, cur);
                if p + 1 < order.len() {
                    self.active = Some(order[p + 1]);
                    Ok(Vec::new())
                } else {
                    let expired = self.effects.tick_round();
                    self.round = self.round + 1;
                    self.active = Some(order[0]);
                    proof {
                        lemma_timed_tick_entries(old(self).effects.effects@);
                        assert forall|i: int| 0 <= i < self.effects.effects@.len() implies has_id(
                            self.roster.participants@,
                            (#[trigger] self.effects.effects@[i]).participant,
                        ) by {
                            assert(self.effects.effects@.contains(self.effects.effects@[i]));
                        }
                    }
                    Ok(expired)
                }
            },
        }
    }

    /// Explicitly overrides which participant is active, without advancing
    /// the round. The participant must exist; an ended session rejects the
    /// call.
    pub fn set_active(&mut self, participant: u64) -> (res: Result<(), EngineError>)
        requires
            old(self).wf(),
        ensures
            final(self).wf(),
            res is Err <==> old(self).status is Ended || !has_id(
                old(self).roster.participants@,
                participant,
            ),
            old(self).status is Ended ==> res->Err_0 == EngineError::InvalidState,
            old(self).status is Running && !has_id(old(self).roster.participants@, participant)
                ==> res->Err_0 == EngineError::NotFound,
            res is Err ==> *final(self) == *old(self),
            res is Ok ==> *final(self) == (CombatSession {
                active: Some(participant),
                ..*old(self)
            }),
    {
        match self.status {
            SessionStatus::Ended => {
                return Err(EngineError::InvalidState);
            },
            SessionStatus::Running => (),
        }
        if !self.roster.contains_id(participant) {
            return Err(EngineError::NotFound);
        }
        self.active = Some(participant);
        Ok(())
    }

    /// Ends the session. The transition is terminal: turn and round
    /// operations on an ended session fail, and ending it twice is itself an
    /// invalid-state error. The session stays queryable for history.
    pub fn end(&mut self) -> (res: Result<(), EngineError>)
        requires
            old(self).wf(),
        ensures
            final(self).wf(),
            res is Err <==> old(self).status is Ended,
            res is Err ==> res->Err_0 == EngineError::InvalidState && *final(self) == *old(self),
            res is Ok ==> *final(self) == (CombatSession {
                status: SessionStatus::Ended,
                ..*old(self)
            }),
    {
        match self.status {
            SessionStatus::Ended => Err(EngineError::InvalidState),
            SessionStatus::Running => {
                self.status = SessionStatus::Ended;
                Ok(())
            },
        }
    }

    /// Adds a participant mid-combat with a fresh identifier. Duplicate
    /// entities are rejected only when the caller requests uniqueness, since
    /// several identical opponents may fight. An ended session rejects the
    /// call.
    pub fn add_participant(
        &mut self,
        entity: u64,
        kind: EntityKind,
        name: String,
        initiative: i64,
        require_unique: bool,
    ) -> (res: Result<u64, EngineError>)
        requires
            old(self).wf(),
            old(self).roster.next_id < u64::MAX,
        ensures
            final(self).wf(),
            final(self).id == old(self).id,
            final(self).chapter == old(self).chapter,
            final(self).encounter == old(self).encounter,
            final(self).created_at == old(self).created_at,
            final(self).round == old(self).round,
            final(self).status == old(self).status,
            final(self).active == old(self).active,
            final(self).effects == old(self).effects,
            res is Err <==> old(self).status is Ended || (require_unique
                && crate::roster::has_entity(old(self).roster.participants@, entity, kind)),
            old(self).status is Ended ==> res->Err_0 == EngineError::InvalidState,
            old(self).status is Running && res is Err ==> res->Err_0
                == EngineError::IntegrityViolation,
            res is Err ==> *final(self) == *old(self),
            res is Ok ==> res->Ok_0 == old(self).roster.next_id && final(self).roster.next_id
                == old(self).roster.next_id + 1 && final(self).roster.participants@ == old(self).roster.participants@.push(
                (Participant { id: old(self).roster.next_id, entity, kind, name, initiative }),
            ),
    {
        match self.status {
            SessionStatus::Ended => {
                return Err(EngineError::InvalidState);
            },
            SessionStatus::Running => (),
        }
        let res = self.roster.add_participant(entity, kind, name, initiative, require_unique);
        proof {
            if res is Ok {
                let r0 = old(self).roster.participants@;
                let r1 = self.roster.participants@;
                assert forall|i: int| 0 <= i < self.effects.effects@.len() implies has_id(
                    r1,
                    (#[trigger] self.effects.effects@[i]).participant,
                ) by {
                    let pid = self.effects.effects@[i].participant;
                    let w = choose|w: int| 0 <= w < r0.len() && (#[trigger] r0[w]).id == pid;
                    assert(r1[w] == r0[w]);
                }
                if old(self).active is Some {
                    let a = old(self).active->Some_0;
                    let w = choose|w: int| 0 <= w < r0.len() && (#[trigger] r0[w]).id == a;
                    assert(r1[w] == r0[w]);
                }
            }
        }
        res
    }

    /// Removes a participant and, by cascade, every effect attached to it;
    /// the removed effect identifiers are returned. If the removed
    /// participant was active, the active pointer is cleared — it is never
    /// left dangling — and the caller is expected to advance the turn. An
    /// ended session rejects the call.
    pub fn remove_participant(&mut self, participant: u64) -> (res: Result<Vec<u64>, EngineError>)
        requires
            old(self).wf(),
        ensures
            final(self).wf(),
            final(self).id == old(self).id,
            final(self).chapter == old(self).chapter,
            final(self).encounter == old(self).encounter,
            final(self).created_at == old(self).created_at,
            final(self).round == old(self).round,
            final(self).status == old(self).status,
            final(self).roster.next_id == old(self).roster.next_id,
            final(self).effects.next_id == old(self).effects.next_id,
            res is Err <==> old(self).status is Ended || !has_id(
                old(self).roster.participants@,
                participant,
            ),
            old(self).status is Ended ==> res->Err_0 == EngineError::InvalidState,
            old(self).status is Running && !has_id(old(self).roster.participants@, participant)
                ==> res->Err_0 == EngineError::NotFound,
            res is Err ==> final(self).roster.participants@ == old(self).roster.participants@
                && final(self).effects.effects@ == old(self).effects.effects@ && final(self).active
                == old(self).active,
            res is Ok ==> final(self).roster.participants@ == old(self).roster.participants@.remove(
                index_of_id(old(self).roster.participants@, participant),
            ) && final(self).effects.effects@ == without_participant(
                old(self).effects.effects@,
                participant,
            ) && res->Ok_0@ == removed_for_participant(old(self).effects.effects@, participant)
                && final(self).active == (if old(self).active == Some(participant) {
                None
            } else {
                old(self).active
            }),
    {
        match self.status {
            SessionStatus::Ended => {
                return Err(EngineError::InvalidState);
            },
            SessionStatus::Running => (),
        }
        let ghost r0 = self.roster.participants@;
        let removed = match self.roster.remove_participant(participant) {
            Err(e) => {
                return Err(e);
            },
            Ok(()) => self.effects.remove_for_participant(participant),
        };
        let was_active = match self.active {
            Some(a) => a == participant,
            None => false,
        };
        if was_active {
            self.active = None;
        }
        proof {
            lemma_index_of_id(r0, participant);
            let idx = index_of_id(r0, participant);
            let r1 = self.roster.participants@;
            r0.remove_ensures(idx);
            crate::effects::lemma_without_participant_entries(
                old(self).effects.effects@,
                participant,
            );
            assert forall|i: int| 0 <= i < self.effects.effects@.len() implies has_id(
                r1,
                (#[trigger] self.effects.effects@[i]).participant,
            ) by {
                assert(self.effects.effects@.contains(self.effects.effects@[i]));
                let pid = self.effects.effects@[i].participant;
                assert(old(self).effects.effects@.contains(self.effects.effects@[i]));
                assert(pid != participant);
                assert(has_id(r0, pid));
                let w = choose|w: int| 0 <= w < r0.len() && (#[trigger] r0[w]).id == pid;
                assert(w != idx);
                if w < idx {
                    assert(r1[w] == r0[w]);
                } else {
                    assert(r1[w - 1] == r0[w]);
                }
            }
            match self.active {
                Some(a) => {
                    assert(a != participant);
                    let w = choose|w: int| 0 <= w < r0.len() && (#[trigger] r0[w]).id == a;
                    assert(w != idx);
                    if w < idx {
                        assert(r1[w] == r0[w]);
                    } else {
                        assert(r1[w - 1] == r0[w]);
                    }
                },
                None => (),
            }
        }
        Ok(removed)
    }

    /// Attaches a timed effect to a participant of this session, converting
    /// the duration to rounds with the given `seconds_per_round`. A
    /// participant that does not belong to the session is a reference
    /// mismatch; a rest-bound unit carries no round count and is rejected as
    /// an integrity violation (rest-bound effects belong to the persistent
    /// ledger); an ended session rejects the call.
    pub fn attach_effect(
        &mut self,
        participant: u64,
        name: String,
        description: String,
        amount: u32,
        unit: DurationUnit,
        seconds_per_round: u64,
    ) -> (res: Result<u64, EngineError>)
        requires
            old(self).wf(),
            old(self).effects.next_id < u64::MAX,
            seconds_per_round >= 1,
        ensures
            final(self).wf(),
            final(self).id == old(self).id,
            final(self).chapter == old(self).chapter,
            final(self).encounter == old(self).encounter,
            final(self).created_at == old(self).created_at,
            final(self).round == old(self).round,
            final(self).status == old(self).status,
            final(self).active == old(self).active,
            final(self).roster == old(self).roster,
            res is Err <==> old(self).status is Ended || !has_id(
                old(self).roster.participants@,
                participant,
            ) || is_rest_bound(unit),
            old(self).status is Ended ==> res->Err_0 == EngineError::InvalidState,
            old(self).status is Running && !has_id(old(self).roster.participants@, participant)
                ==> res->Err_0 == EngineError::ReferenceMismatch,
            old(self).status is Running && has_id(old(self).roster.participants@, participant)
                && is_rest_bound(unit) ==> res->Err_0 == EngineError::IntegrityViolation,
            res is Err ==> final(self).effects.effects@ == old(self).effects.effects@ && final(self).effects.next_id == old(self).effects.next_id,
            res is Ok ==> res->Ok_0 == old(self).effects.next_id && final(self).effects.next_id
                == old(self).effects.next_id + 1 && final(self).effects.effects@ == old(self).effects.effects@.push(
                (TimedEffect {
                    id: old(self).effects.next_id,
                    participant,
                    name,
                    description,
                    duration: rounds_equivalent(
                        amount as int,
                        unit,
                        seconds_per_round as int,
                    ) as u64,
                    total_duration: rounds_equivalent(
                        amount as int,
                        unit,
                        seconds_per_round as int,
                    ) as u64,
                }),
            ),
    {
        match self.status {
            SessionStatus::Ended => {
                return Err(EngineError::InvalidState);
            },
            SessionStatus::Running => (),
        }
        if !self.roster.contains_id(participant) {
            return Err(EngineError::ReferenceMismatch);
        }
        if crate::duration::unit_is_rest_bound(&unit) {
            return Err(EngineError::IntegrityViolation);
        }
        let rounds = crate::duration::convert_to_rounds(amount, &unit, seconds_per_round);
        let id = self.effects.attach(participant, name, description, rounds);
        proof {
            let e0 = old(self).effects.effects@;
            assert forall|i: int| 0 <= i < self.effects.effects@.len() implies has_id(
                self.roster.participants@,
                (#[trigger] self.effects.effects@[i]).participant,
            ) by {
                if i < e0.len() {
                    assert(self.effects.effects@[i] == e0[i]);
                }
            }
        }
        Ok(id)
    }

    /// One elapsed round for this session's effects: every duration is
    /// decremented and the expired effects are removed and returned as one
    /// list of expiry events. The round counter itself is driven by
    /// [`CombatSession::advance_turn`]. An ended session rejects the call.
    pub fn tick_round(&mut self) -> (res: Result<Vec<u64>, EngineError>)
        requires
            old(self).wf(),
        ensures
            final(self).wf(),
            final(self).id == old(self).id,
            final(self).chapter == old(self).chapter,
            final(self).encounter == old(self).encounter,
            final(self).created_at == old(self).created_at,
            final(self).round == old(self).round,
            final(self).status == old(self).status,
            final(self).active == old(self).active,
            final(self).roster == old(self).roster,
            final(self).effects.next_id == old(self).effects.next_id,
            res is Err <==> old(self).status is Ended,
            res is Err ==> res->Err_0 == EngineError::InvalidState && *final(self) == *old(self),
            res is Ok ==> final(self).effects.effects@ == after_timed_tick(
                old(self).effects.effects@,
            ) && res->Ok_0@ == expired_timed_ids(old(self).effects.effects@),
    {
        match self.status {
            SessionStatus::Ended => {
                return Err(EngineError::InvalidState);
            },
            SessionStatus::Running => (),
        }
        let expired = self.effects.tick_round();
        proof {
            lemma_timed_tick_entries(old(self).effects.effects@);
            assert forall|i: int| 0 <= i < self.effects.effects@.len() implies has_id(
                self.roster.participants@,
                (#[trigger] self.effects.effects@[i]).participant,
            ) by {
                assert(self.effects.effects@.contains(self.effects.effects@[i]));
            }
        }
        Ok(expired)
    }
}

/// Finds the first position of an identifier known to occur in a turn order.
#[verifier::loop_isolation(false)]
fn position_of(order: &Vec<u64>, id: u64) -> (p: usize)
    requires
        order@.contains(id),
    ensures
        p == first_index_of(order@, id),
        p < order@.len(),
        order@[p as int] == id,
{
    proof {
        lemma_first_index_of(order@, id);
    }
    let n = order.len();
    let mut j: usize = 0;
    while j < n
        invariant
            j <= n,
            forall|k: int| 0 <= k < j ==> order@[k] != id,
        decreases n - j,
    {
        if order[j] == id {
            proof {
                let fi = first_index_of(order@, id);
                if fi < j {
                    assert(order@[fi] != id);
                }
            }
            return j;
        }
        j += 1;
    }
    proof {
        assert(false);
    }
    0
}

} // verus!
