//! Participant roster: the ordered set of combat participants with their
//! initiative values, and the turn order derived from them.
//!
//! Turn order sorts participants by descending initiative; ties are broken by
//! insertion order, so the order is a deterministic function of the roster
//! alone and is recomputed on demand, never cached across mutations.

use vstd::prelude::*;
use vstd::seq_lib::{to_multiset_build, to_multiset_contains, to_multiset_insert, to_multiset_len};

use crate::errors::EngineError;

verus! {

/// Whether a participant stands for a player character or an opponent.
#[derive(Clone, Copy, Debug, PartialEq, Eq, Structural)]
pub enum EntityKind {
    Player,
    Opponent,
}

/// A player or opponent entered into a combat session's turn order.
///
/// The display name is a snapshot taken when the participant is added, so a
/// later rename of the underlying entity does not rewrite combat history.
pub struct Participant {
    /// Identifier, unique within the owning roster.
    pub id: u64,
    /// The underlying player or opponent record.
    pub entity: u64,
    /// Discriminator for the entity reference.
    pub kind: EntityKind,
    /// Display-name snapshot.
    pub name: String,
    /// Initiative score; higher acts first.
    pub initiative: i64,
}

/// The strict precedence used for turn order, on (initiative, insertion
/// index) pairs: higher initiative first, earlier insertion breaking ties.
pub open spec fn turn_precedes(a: (i64, usize), b: (i64, usize)) -> bool {
    a.0 > b.0 || (a.0 == b.0 && a.1 < b.1)
}

/// The first position in `s` whose entry `x` precedes (or `s.len()` if none),
/// i.e. where a stable insertion sort places `x`.
pub open spec fn turn_insert_pos(s: Seq<(i64, usize)>, x: (i64, usize)) -> int
    decreases s.len(),
{
    if s.len() == 0 {
        0
    } else if turn_precedes(x, s[0]) {
        0
    } else {
        1 + turn_insert_pos(s.drop_first(), x)
    }
}

/// `s` with `x` inserted at its turn-order position.
pub open spec fn turn_insert(s: Seq<(i64, usize)>, x: (i64, usize)) -> Seq<(i64, usize)> {
    s.insert(turn_insert_pos(s, x), x)
}

/// Stable insertion sort of (initiative, insertion index) pairs by
/// [`turn_precedes`].
pub open spec fn sorted_pairs(s: Seq<(i64, usize)>) -> Seq<(i64, usize)>
    decreases s.len(),
{
    if s.len() == 0 {
        Seq::empty()
    } else {
        turn_insert(sorted_pairs(s.drop_last()), s.last())
    }
}

/// The (initiative, insertion index) pair of each roster entry, in insertion
/// order.
pub open spec fn roster_pairs(r: Seq<Participant>) -> Seq<(i64, usize)> {
    Seq::new(r.len(), |i: int| (r[i].initiative, i as usize))
}

/// The turn order of a roster: participant identifiers sorted by descending
/// initiative, ties broken by insertion order.
pub open spec fn spec_turn_order(r: Seq<Participant>) -> Seq<u64> {
    sorted_pairs(roster_pairs(r)).map_values(|p: (i64, usize)| r[p.1 as int].id)
}

/// No entry of `s` strictly precedes an earlier entry.
pub open spec fn pairs_ordered(s: Seq<(i64, usize)>) -> bool {
    forall|i: int, j: int| 0 <= i < j < s.len() ==> !turn_precedes(#[trigger] s[j], #[trigger] s[i])
}

/// The insertion position splits `s` into entries that do not come after `x`
/// and entries that `x` precedes.
pub proof fn lemma_turn_insert_pos(s: Seq<(i64, usize)>, x: (i64, usize))
    ensures
        0 <= turn_insert_pos(s, x) <= s.len(),
        forall|k: int| 0 <= k < turn_insert_pos(s, x) ==> !turn_precedes(x, #[trigger] s[k]),
        turn_insert_pos(s, x) < s.len() ==> turn_precedes(x, s[turn_insert_pos(s, x)]),
    decreases s.len(),
{
    if s.len() == 0 {
    } else if turn_precedes(x, s[0]) {
    } else {
        lemma_turn_insert_pos(s.drop_first(), x);
        assert forall|k: int| 0 <= k < turn_insert_pos(s, x) implies !turn_precedes(
            x,
            #[trigger] s[k],
        ) by {
            if k > 0 {
                assert(s.drop_first()[k - 1] == s[k]);
            }
        }
        if turn_insert_pos(s, x) < s.len() {
            assert(s.drop_first()[turn_insert_pos(s, x) - 1] == s[turn_insert_pos(s, x)]);
        }
    }
}

/// Inserting at the turn-order position keeps the multiset of entries, plus
/// the new one.
pub proof fn lemma_turn_insert_multiset(s: Seq<(i64, usize)>, x: (i64, usize))
    ensures
        turn_insert(s, x).to_multiset() == s.to_multiset().insert(x),
        turn_insert(s, x).len() == s.len() + 1,
{
    lemma_turn_insert_pos(s, x);
    to_multiset_insert(s, turn_insert_pos(s, x), x);
    to_multiset_len(s);
    to_multiset_len(turn_insert(s, x));
}

/// Sorting permutes the pairs: the multiset of entries is unchanged.
pub proof fn lemma_sorted_pairs_multiset(s: Seq<(i64, usize)>)
    ensures
        sorted_pairs(s).to_multiset() == s.to_multiset(),
        sorted_pairs(s).len() == s.len(),
    decreases s.len(),
{
    if s.len() == 0 {
        assert(s =~= Seq::<(i64, usize)>::empty());
        assert(sorted_pairs(s) =~= Seq::<(i64, usize)>::empty());
    } else {
        lemma_sorted_pairs_multiset(s.drop_last());
        lemma_turn_insert_multiset(sorted_pairs(s.drop_last()), s.last());
        to_multiset_build(s.drop_last(), s.last());
        assert(s.drop_last().push(s.last()) =~= s);
    }
}

/// Sorting keeps exactly the entries of the input.
pub proof fn lemma_sorted_pairs_contains(s: Seq<(i64, usize)>)
    ensures
        forall|y: (i64, usize)| sorted_pairs(s).contains(y) <==> s.contains(y),
{
    lemma_sorted_pairs_multiset(s);
    assert forall|y: (i64, usize)| sorted_pairs(s).contains(y) <==> s.contains(y) by {
        to_multiset_contains(s, y);
        to_multiset_contains(sorted_pairs(s), y);
    }
}

/// Inserting at the turn-order position preserves ordering.
pub proof fn lemma_turn_insert_ordered(s: Seq<(i64, usize)>, x: (i64, usize))
    requires
        pairs_ordered(s),
    ensures
        pairs_ordered(turn_insert(s, x)),
{
    let p = turn_insert_pos(s, x);
    let t = turn_insert(s, x);
    lemma_turn_insert_pos(s, x);
    s.insert_ensures(p, x);
    assert forall|i: int, j: int| 0 <= i < j < t.len() implies !turn_precedes(
        #[trigger] t[j],
        #[trigger] t[i],
    ) by {
        if i < p && j == p {
            assert(t[i] == s[i]);
            assert(t[j] == x);
        } else if i == p && j > p {
            assert(t[i] == x);
            assert(t[j] == s[j - 1]);
            if p < s.len() && turn_precedes(s[j - 1], x) {
                assert(turn_precedes(x, s[p]));
                if j - 1 > p {
                    assert(!turn_precedes(s[j - 1], s[p]));
                }
            }
        } else if i < p && j > p {
            assert(t[i] == s[i]);
            assert(t[j] == s[j - 1]);
        } else if i > p && j > p {
            assert(t[i] == s[i - 1]);
            assert(t[j] == s[j - 1]);
        } else {
            assert(t[i] == s[i]);
            assert(t[j] == s[j]);
        }
    }
}

/// The sorted pairs are ordered by [`turn_precedes`].
pub proof fn lemma_sorted_pairs_ordered(s: Seq<(i64, usize)>)
    ensures
        pairs_ordered(sorted_pairs(s)),
    decreases s.len(),
{
    if s.len() == 0 {
    } else {
        lemma_sorted_pairs_ordered(s.drop_last());
        lemma_turn_insert_ordered(sorted_pairs(s.drop_last()), s.last());
    }
}

/// No two roster entries share an identifier.
pub open spec fn ids_unique(r: Seq<Participant>) -> bool {
    forall|i: int, j: int|
        0 <= i < j < r.len() ==> (#[trigger] r[i]).id != (#[trigger] r[j]).id
}

/// Some roster entry carries the identifier.
pub open spec fn has_id(r: Seq<Participant>, id: u64) -> bool {
    exists|i: int| 0 <= i < r.len() && (#[trigger] r[i]).id == id
}

/// Some roster entry references the given entity.
pub open spec fn has_entity(r: Seq<Participant>, entity: u64, kind: EntityKind) -> bool {
    exists|i: int| 0 <= i < r.len() && (#[trigger] r[i]).entity == entity && r[i].kind == kind
}

/// The first roster position carrying the identifier (or `r.len()` if none).
pub open spec fn index_of_id(r: Seq<Participant>, id: u64) -> int
    decreases r.len(),
{
    if r.len() == 0 {
        0
    } else if r[0].id == id {
        0
    } else {
        1 + index_of_id(r.drop_first(), id)
    }
}

/// [`index_of_id`] finds the first entry with the identifier, if any.
pub proof fn lemma_index_of_id(r: Seq<Participant>, id: u64)
    ensures
        has_id(r, id) ==> 0 <= index_of_id(r, id) < r.len() && r[index_of_id(r, id)].id == id,
        !has_id(r, id) ==> index_of_id(r, id) == r.len(),
        forall|k: int| 0 <= k < index_of_id(r, id) ==> (#[trigger] r[k]).id != id,
    decreases r.len(),
{
    if r.len() == 0 {
    } else if r[0].id == id {
    } else {
        lemma_index_of_id(r.drop_first(), id);
        assert forall|k: int| 0 <= k < index_of_id(r, id) implies (#[trigger] r[k]).id != id by {
            if k > 0 {
                assert(r.drop_first()[k - 1] == r[k]);
            }
        }
        if has_id(r, id) {
            let w = choose|i: int| 0 <= i < r.len() && (#[trigger] r[i]).id == id;
            assert(r.drop_first()[w - 1] == r[w]);
            assert(has_id(r.drop_first(), id));
            assert(r.drop_first()[index_of_id(r.drop_first(), id)] == r[index_of_id(r, id)]);
        } else {
            if has_id(r.drop_first(), id) {
                let w = choose|i: int|
                    0 <= i < r.drop_first().len() && (#[trigger] r.drop_first()[i]).id == id;
                assert(r.drop_first()[w] == r[w + 1]);
            }
        }
    }
}

/// Every turn-order entry names a roster participant, and every roster
/// participant appears in the turn order.
pub proof fn lemma_turn_order_ids(r: Seq<Participant>)
    requires
        r.len() <= usize::MAX,
    ensures
        spec_turn_order(r).len() == r.len(),
        forall|j: int| 0 <= j < r.len() ==> has_id(r, #[trigger] spec_turn_order(r)[j]),
        forall|k: int| 0 <= k < r.len() ==> spec_turn_order(r).contains((#[trigger] r[k]).id),
{
    let rp = roster_pairs(r);
    let pairs = sorted_pairs(rp);
    lemma_sorted_pairs_multiset(rp);
    lemma_sorted_pairs_contains(rp);
    assert forall|j: int| 0 <= j < r.len() implies has_id(r, #[trigger] spec_turn_order(r)[j]) by {
        assert(pairs.contains(pairs[j]));
        assert(rp.contains(pairs[j]));
        let i = choose|i: int| 0 <= i < rp.len() && rp[i] == pairs[j];
        assert(spec_turn_order(r)[j] == r[pairs[j].1 as int].id);
        assert(r[i].id == spec_turn_order(r)[j]);
    }
    assert forall|k: int| 0 <= k < r.len() implies spec_turn_order(r).contains(
        (#[trigger] r[k]).id,
    ) by {
        assert(rp.contains(rp[k]));
        assert(pairs.contains(rp[k]));
        let j = choose|j: int| 0 <= j < pairs.len() && pairs[j] == rp[k];
        assert(spec_turn_order(r)[j] == r[rp[k].1 as int].id);
        assert(spec_turn_order(r)[j] == r[k].id);
    }
}

/// With unique participant identifiers the turn order repeats none of them.
pub proof fn lemma_turn_order_no_duplicates(r: Seq<Participant>)
    requires
        r.len() <= usize::MAX,
        ids_unique(r),
    ensures
        spec_turn_order(r).no_duplicates(),
{
    let rp = roster_pairs(r);
    let pairs = sorted_pairs(rp);
    lemma_sorted_pairs_multiset(rp);
    lemma_sorted_pairs_contains(rp);
    assert forall|i: int, j: int|
        0 <= i < spec_turn_order(r).len() && 0 <= j < spec_turn_order(r).len() && i
            != j implies #[trigger] spec_turn_order(r)[i] != #[trigger] spec_turn_order(r)[j] by {
        assert(pairs.contains(pairs[i]));
        assert(pairs.contains(pairs[j]));
        assert(rp.contains(pairs[i]));
        assert(rp.contains(pairs[j]));
        let a = choose|a: int| 0 <= a < rp.len() && rp[a] == pairs[i];
        let b = choose|b: int| 0 <= b < rp.len() && rp[b] == pairs[j];
        assert(pairs[i].1 == a && pairs[j].1 == b);
        assert(spec_turn_order(r)[i] == r[a].id);
        assert(spec_turn_order(r)[j] == r[b].id);
        if spec_turn_order(r)[i] == spec_turn_order(r)[j] {
            // unique identifiers force the same roster position, hence the
            // same pair, contradicting that the sorted pairs are a
            // permutation of the duplicate-free roster pairs
            assert(a == b);
            assert(pairs[i] == pairs[j]);
            assert(rp.no_duplicates()) by {
                assert forall|x: int, y: int|
                    0 <= x < rp.len() && 0 <= y < rp.len() && x != y implies rp[x] != rp[y] by {
                    assert(rp[x].1 == x as usize && rp[y].1 == y as usize);
                }
            }
            rp.lemma_multiset_has_no_duplicates();
            pairs.lemma_multiset_has_no_duplicates_conv();
            assert(pairs.no_duplicates());
        }
    }
}

/// Law: turn order is deterministic. It is a pure function of the roster, so
/// computing it twice over an unchanged roster yields identical sequences.
pub proof fn lemma_turn_order_deterministic(r1: Seq<Participant>, r2: Seq<Participant>)
    requires
        r1 == r2,
    ensures
        spec_turn_order(r1) == spec_turn_order(r2),
{
}

/// The roster of a combat session: participants in insertion order, plus the
/// counter that hands out fresh participant identifiers.
pub struct Roster {
    /// Participants in insertion order.
    pub participants: Vec<Participant>,
    /// Next identifier to assign; all present identifiers are below it.
    pub next_id: u64,
}

impl Roster {
    /// Well-formedness: identifiers are unique and below `next_id`.
    pub open spec fn wf(self) -> bool {
        &&& ids_unique(self.participants@)
        &&& forall|i: int|
            0 <= i < self.participants@.len() ==> (#[trigger] self.participants@[i]).id
                < self.next_id
    }

    /// An empty roster.
    pub fn new() -> (r: Roster)
        ensures
            r.wf(),
            r.participants@.len() == 0,
            r.next_id == 0,
    {
        Roster { participants: Vec::new(), next_id: 0 }
    }

    /// Number of participants.
    pub fn len(&self) -> (n: usize)
        ensures
            n == self.participants@.len(),
    {
        self.participants.len()
    }

    /// Whether a participant with this identifier is present.
    #[verifier::loop_isolation(false)]
    pub fn contains_id(&self, id: u64) -> (found: bool)
        ensures
            found == has_id(self.participants@, id),
    {
        let n = self.participants.len();
        let mut i: usize = 0;
        while i < n
            invariant
                n == self.participants@.len(),
                i <= n,
                forall|k: int| 0 <= k < i ==> (#[trigger] self.participants@[k]).id != id,
            decreases n - i,
        {
            if self.participants[i].id == id {
                return true;
            }
            i += 1;
        }
        false
    }

    /// Whether some participant references the given entity.
    #[verifier::loop_isolation(false)]
    pub fn contains_entity(&self, entity: u64, kind: &EntityKind) -> (found: bool)
        ensures
            found == has_entity(self.participants@, entity, *kind),
    {
        let n = self.participants.len();
        let mut i: usize = 0;
        while i < n
            invariant
                n == self.participants@.len(),
                i <= n,
                forall|k: int|
                    0 <= k < i ==> !((#[trigger] self.participants@[k]).entity == entity
                        && self.participants@[k].kind == *kind),
            decreases n - i,
        {
            if self.participants[i].entity == entity && self.participants[i].kind == *kind {
                return true;
            }
            i += 1;
        }
        false
    }

    /// Adds a participant with a fresh identifier, snapshotting its display
    /// name. When `require_unique` is set, a participant already referencing
    /// the same entity is rejected as an integrity violation; otherwise
    /// repeated tokens of the same entity are allowed.
    pub fn add_participant(
        &mut self,
        entity: u64,
        kind: EntityKind,
        name: String,
        initiative: i64,
        require_unique: bool,
    ) -> (res: Result<u64, EngineError>)
        requires
            old(self).wf(),
            old(self).next_id < u64::MAX,
        ensures
            final(self).wf(),
            res is Err <==> require_unique && has_entity(old(self).participants@, entity, kind),
            res is Err ==> res->Err_0 == EngineError::IntegrityViolation && *final(self) == *old(
                self,
            ),
            res is Ok ==> res->Ok_0 == old(self).next_id && final(self).next_id == old(
                self,
            ).next_id + 1 && final(self).participants@ == old(self).participants@.push(
                (Participant { id: old(self).next_id, entity, kind, name, initiative }),
            ),
    {
        if require_unique && self.contains_entity(entity, &kind) {
            return Err(EngineError::IntegrityViolation);
        }
        let id = self.next_id;
        self.participants.push(Participant { id, entity, kind, name, initiative });
        self.next_id = id + 1;
        Ok(id)
    }

    /// Removes the participant with the given identifier; absent identifiers
    /// are reported, not ignored.
    #[verifier::loop_isolation(false)]
    pub fn remove_participant(&mut self, id: u64) -> (res: Result<(), EngineError>)
        requires
            old(self).wf(),
        ensures
            final(self).wf(),
            final(self).next_id == old(self).next_id,
            res is Err <==> !has_id(old(self).participants@, id),
            res is Err ==> res->Err_0 == EngineError::NotFound && final(self).participants@ == old(
                self,
            ).participants@,
            res is Ok ==> final(self).participants@ == old(self).participants@.remove(
                index_of_id(old(self).participants@, id),
            ),
    {
        let ghost s = self.participants@;
        proof {
            lemma_index_of_id(s, id);
        }
        let n = self.participants.len();
        let mut i: usize = 0;
        while i < n
            invariant
                i <= n,
                self.participants@ == s,
                self.next_id == old(self).next_id,
                forall|k: int| 0 <= k < i ==> (#[trigger] s[k]).id != id,
            decreases n - i,
        {
            if self.participants[i].id == id {
                proof {
                    let idx = index_of_id(s, id);
                    assert(has_id(s, id));
                    if idx < i {
                        assert(s[idx].id != id);
                    }
                    if idx > i {
                        assert(s[i as int].id != id);
                    }
                    assert(idx == i);
                    s.remove_ensures(i as int);
                    assert forall|x: int, y: int|
                        0 <= x < y < s.remove(i as int).len() implies (#[trigger] s.remove(
                        i as int,
                    )[x]).id != (#[trigger] s.remove(i as int)[y]).id by {
                        let x0 = if x < i { x } else { x + 1 };
                        let y0 = if y < i { y } else { y + 1 };
                        assert(s.remove(i as int)[x] == s[x0]);
                        assert(s.remove(i as int)[y] == s[y0]);
                    }
                    assert forall|x: int| 0 <= x < s.remove(i as int).len() implies (
                    #[trigger] s.remove(i as int)[x]).id < self.next_id by {
                        let x0 = if x < i { x } else { x + 1 };
                        assert(s.remove(i as int)[x] == s[x0]);
                    }
                }
                self.participants.remove(i);
                return Ok(());
            }
            i += 1;
        }
        assert(!has_id(s, id));
        Err(EngineError::NotFound)
    }

    /// Recomputes the turn order: participant identifiers sorted by
    /// descending initiative, ties broken by insertion order.
    #[verifier::loop_isolation(false)]
    pub fn turn_order(&self) -> (order: Vec<u64>)
        ensures
            order@ == spec_turn_order(self.participants@),
            order@.len() == self.participants@.len(),
            forall|j: int| 0 <= j < order@.len() ==> has_id(self.participants@, #[trigger] order@[j]),
            forall|k: int|
                0 <= k < self.participants@.len() ==> order@.contains(
                    (#[trigger] self.participants@[k]).id,
                ),
            ids_unique(self.participants@) ==> order@.no_duplicates(),
    {
        let ghost r = self.participants@;
        let n = self.participants.len();
        let mut pairs: Vec<(i64, usize)> = Vec::new();
        let mut i: usize = 0;
        while i < n
            invariant
                r == self.participants@,
                n == r.len(),
                i <= n,
                pairs@ == sorted_pairs(roster_pairs(r).take(i as int)),
            decreases n - i,
        {
            let x = (self.participants[i].initiative, i);
            proof {
                lemma_sorted_pairs_multiset(roster_pairs(r).take(i as int));
            }
            let mut j: usize = 0;
            while j < pairs.len() && !turn_precedes_exec(&x, &pairs[j])
                invariant
                    j <= pairs@.len(),
                    forall|k: int| 0 <= k < j ==> !turn_precedes(x, #[trigger] pairs@[k]),
                decreases pairs@.len() - j,
            {
                j += 1;
            }
            proof {
                lemma_turn_insert_pos(pairs@, x);
                let p = turn_insert_pos(pairs@, x);
                if j < p {
                    assert(!turn_precedes(x, pairs@[j as int]));
                }
                if p < j {
                    assert(turn_precedes(x, pairs@[p]));
                }
                assert(j == p);
            }
            pairs.insert(j, x);
            proof {
                assert(roster_pairs(r).take(i + 1).drop_last() =~= roster_pairs(r).take(i as int));
                assert(roster_pairs(r).take(i + 1).last() == x);
                assert(pairs@ == sorted_pairs(roster_pairs(r).take(i + 1)));
            }
            i += 1;
        }
        proof {
            assert(roster_pairs(r).take(n as int) =~= roster_pairs(r));
            lemma_sorted_pairs_multiset(roster_pairs(r));
            lemma_sorted_pairs_contains(roster_pairs(r));
            assert forall|m: int| 0 <= m < pairs@.len() implies (#[trigger] pairs@[m]).1
                < n by {
                assert(pairs@.contains(pairs@[m]));
                assert(roster_pairs(r).contains(pairs@[m]));
                let w = choose|w: int| 0 <= w < roster_pairs(r).len() && roster_pairs(r)[w]
                    == pairs@[m];
                assert(pairs@[m].1 == w as usize);
            }
        }
        let mut order: Vec<u64> = Vec::new();
        let m = pairs.len();
        let mut k: usize = 0;
        while k < m
            invariant
                r == self.participants@,
                n == r.len(),
                pairs@ == sorted_pairs(roster_pairs(r)),
                m == pairs@.len(),
                forall|t: int| 0 <= t < m ==> (#[trigger] pairs@[t]).1 < n,
                k <= m,
                order@.len() == k,
                forall|t: int| 0 <= t < k ==> order@[t] == r[(#[trigger] pairs@[t]).1 as int].id,
            decreases m - k,
        {
            let idx = pairs[k].1;
            order.push(self.participants[idx].id);
            k += 1;
        }
        proof {
            assert(order@ =~= spec_turn_order(r));
            lemma_turn_order_ids(r);
            if ids_unique(r) {
                lemma_turn_order_no_duplicates(r);
            }
        }
        order
    }
}

/// Executable form of [`turn_precedes`].
pub fn turn_precedes_exec(a: &(i64, usize), b: &(i64, usize)) -> (r: bool)
    ensures
        r == turn_precedes(*a, *b),
{
    a.0 > b.0 || (a.0 == b.0 && a.1 < b.1)
}

} // verus!
