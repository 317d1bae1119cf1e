//! The schema migration plan of the persistence gateway.
//!
//! Migrations form an explicit, linear list: version numbers strictly
//! increase, each step is applied at most once, and a persisted
//! "highest applied version" marker tracks progress, so applying the plan is
//! idempotent. The engine only computes which steps to run; executing the
//! SQL against the store is the caller's concern.

use vstd::prelude::*;

use crate::errors::EngineError;

verus! {

/// One schema migration step.
pub struct Migration {
    /// Position in the linear history; strictly increasing across the plan.
    pub version: u64,
    /// Human-readable summary of the step.
    pub description: String,
    /// The SQL to run against the store.
    pub sql: String,
}

/// Version numbers strictly increase along the plan.
pub open spec fn versions_increasing(s: Seq<Migration>) -> bool {
    forall|i: int, j: int|
        0 <= i < j < s.len() ==> (#[trigger] s[i]).version < (#[trigger] s[j]).version
}

/// The positions of the steps a store at `highest_applied` still needs, in
/// plan order.
pub open spec fn spec_pending(s: Seq<Migration>, highest_applied: u64) -> Seq<usize>
    decreases s.len(),
{
    if s.len() == 0 {
        Seq::empty()
    } else if s.last().version > highest_applied {
        spec_pending(s.drop_last(), highest_applied).push((s.len() - 1) as usize)
    } else {
        spec_pending(s.drop_last(), highest_applied)
    }
}

/// The marker after applying the whole plan: the last version, if it goes
/// beyond the old marker.
pub open spec fn advanced_marker(s: Seq<Migration>, highest_applied: u64) -> u64 {
    if s.len() > 0 && s.last().version > highest_applied {
        s.last().version
    } else {
        highest_applied
    }
}

/// A plan whose versions are all applied has nothing pending.
pub proof fn lemma_pending_empty(s: Seq<Migration>, highest_applied: u64)
    requires
        forall|i: int| 0 <= i < s.len() ==> (#[trigger] s[i]).version <= highest_applied,
    ensures
        spec_pending(s, highest_applied) == Seq::<usize>::empty(),
    decreases s.len(),
{
    if s.len() == 0 {
        assert(spec_pending(s, highest_applied) =~= Seq::<usize>::empty());
    } else {
        lemma_pending_empty(s.drop_last(), highest_applied);
    }
}

/// Law: applying the plan is idempotent. Once the marker has advanced past
/// the whole plan, a second application schedules nothing.
pub proof fn lemma_apply_idempotent(s: Seq<Migration>, highest_applied: u64)
    requires
        versions_increasing(s),
    ensures
        spec_pending(s, advanced_marker(s, highest_applied)) == Seq::<usize>::empty(),
{
    if s.len() > 0 {
        assert forall|i: int| 0 <= i < s.len() implies (#[trigger] s[i]).version
            <= advanced_marker(s, highest_applied) by {
            if i < s.len() - 1 {
                assert(s[i].version < s[s.len() - 1].version);
            }
        }
    }
    lemma_pending_empty(s, advanced_marker(s, highest_applied));
}

/// An ordered, linear migration plan.
pub struct MigrationPlan {
    /// The steps, with strictly increasing versions.
    pub steps: Vec<Migration>,
}

impl MigrationPlan {
    /// Well-formedness: versions strictly increase.
    pub open spec fn wf(self) -> bool {
        versions_increasing(self.steps@)
    }

    /// Builds a plan, rejecting any list whose versions do not strictly
    /// increase.
    #[verifier::loop_isolation(false)]
    pub fn new(steps: Vec<Migration>) -> (res: Result<MigrationPlan, EngineError>)
        ensures
            res is Ok <==> versions_increasing(steps@),
            res is Ok ==> res->Ok_0.steps@ == steps@,
            res is Err ==> res->Err_0 == EngineError::IntegrityViolation,
    {
        let n = steps.len();
        if n > 1 {
            let mut i: usize = 0;
            while i < n - 1
                invariant
                    n == steps@.len(),
                    n > 1,
                    i <= n - 1,
                    forall|k: int|
                        0 <= k < i ==> (#[trigger] steps@[k]).version < steps@[k + 1].version,
                decreases n - i,
            {
                if steps[i].version >= steps[i + 1].version {
                    return Err(EngineError::IntegrityViolation);
                }
                i += 1;
            }
        }
        proof {
            assert forall|x: int, y: int| 0 <= x < y < steps@.len() implies (
            #[trigger] steps@[x]).version < (#[trigger] steps@[y]).version by {
                lemma_version_chain(steps@, x, y);
            }
        }
        Ok(MigrationPlan { steps })
    }

    /// Number of steps in the plan.
    pub fn len(&self) -> (n: usize)
        ensures
            n == self.steps@.len(),
    {
        self.steps.len()
    }

    /// The step at a position.
    pub fn step(&self, i: usize) -> (m: &Migration)
        requires
            i < self.steps@.len(),
        ensures
            *m == self.steps@[i as int],
    {
        &self.steps[i]
    }

    /// The positions of the steps a store at `highest_applied` still needs,
    /// in plan order.
    #[verifier::loop_isolation(false)]
    pub fn pending(&self, highest_applied: u64) -> (idx: Vec<usize>)
        ensures
            idx@ == spec_pending(self.steps@, highest_applied),
    {
        let ghost s = self.steps@;
        let n = self.steps.len();
        let mut idx: Vec<usize> = Vec::new();
        let mut i: usize = 0;
        while i < n
            invariant
                i <= n,
                idx@ == spec_pending(s.take(i as int), highest_applied),
            decreases n - i,
        {
            proof {
                assert(s.take(i + 1).drop_last() =~= s.take(i as int));
                assert(s.take(i + 1).last() == s[i as int]);
            }
            if self.steps[i].version > highest_applied {
                idx.push(i);
            }
            i += 1;
        }
        proof {
            assert(s.take(n as int) =~= s);
        }
        idx
    }
}

/// Chained adjacent version increases give the pairwise order.
proof fn lemma_version_chain(s: Seq<Migration>, i: int, j: int)
    requires
        forall|k: int| 0 <= k && k + 1 < s.len() ==> (#[trigger] s[k]).version < s[k + 1].version,
        0 <= i < j < s.len(),
    ensures
        s[i].version < s[j].version,
    decreases j - i,
{
    if i + 1 < j {
        lemma_version_chain(s, i, j - 1);
    }
}

/// The campaign tracker's schema history: the eleven migrations that build
/// the consolidated relational schema, in order.
pub fn standard_plan() -> (plan: MigrationPlan)
    ensures
        plan.wf(),
        plan.steps@.len() == 11,
        forall|i: int| 0 <= i < 11 ==> (#[trigger] plan.steps@[i]).version == i + 1,
        plan.steps@[0].description@ == "create parties table"@,
        plan.steps@[1].description@ == "create players table"@,
        plan.steps@[2].description@ == "create effects table"@,
        plan.steps@[3].description@ == "create immunities table"@,
        plan.steps@[4].description@ == "create resistances table"@,
        plan.steps@[5].description@ == "create chapters table"@,
        plan.steps@[6].description@ == "create encounters table"@,
        plan.steps@[7].description@ == "create opponents table"@,
        plan.steps@[8].description@ == "create tokens table"@,
        plan.steps@[9].description@ == "create encounter_opponents table"@,
        plan.steps@[10].description@ == "create active_effects table"@,
{
    let mut steps: Vec<Migration> = Vec::new();
    steps.push(Migration {
        version: 1,
        description: String::from_str("create parties table"),
        sql: String::from_str(
            "CREATE TABLE IF NOT EXISTS parties(\
             id INTEGER PRIMARY KEY AUTOINCREMENT,\
             name TEXT NOT NULL,\
             description TEXT,\
             icon TEXT NOT NULL,\
             players TEXT)",
        ),
    });
    steps.push(Migration {
        version: 2,
        description: String::from_str("create players table"),
        sql: String::from_str(
            "CREATE TABLE IF NOT EXISTS players(\
             details TEXT,\
             effects TEXT,\
             ep INTEGER,\
             health INTEGER,\
             max_health INTEGER,\
             image TEXT,\
             icon TEXT NOT NULL,\
             id INTEGER PRIMARY KEY AUTOINCREMENT,\
             immunities TEXT,\
             level INTEGER,\
             name TEXT NOT NULL,\
             overview TEXT,\
             resistances TEXT,\
             role TEXT)",
        ),
    });
    steps.push(Migration {
        version: 3,
        description: String::from_str("create effects table"),
        sql: String::from_str(
            "CREATE TABLE IF NOT EXISTS effects(\
             description TEXT,\
             value INTEGER,\
             duration INTEGER,\
             duration_type TEXT NOT NULL,\
             icon TEXT NOT NULL,\
             id INTEGER PRIMARY KEY AUTOINCREMENT,\
             name TEXT NOT NULL,\
             type TEXT NOT NULL)",
        ),
    });
    steps.push(Migration {
        version: 4,
        description: String::from_str("create immunities table"),
        sql: String::from_str(
            "CREATE TABLE IF NOT EXISTS immunities(\
             id INTEGER PRIMARY KEY AUTOINCREMENT,\
             name TEXT NOT NULL,\
             description TEXT,\
             icon TEXT NOT NULL)",
        ),
    });
    steps.push(Migration {
        version: 5,
        description: String::from_str("create resistances table"),
        sql: String::from_str(
            "CREATE TABLE IF NOT EXISTS resistances (\
             id INTEGER PRIMARY KEY AUTOINCREMENT,\
             name TEXT NOT NULL,\
             description TEXT,\
             icon TEXT NOT NULL)",
        ),
    });
    steps.push(Migration {
        version: 6,
        description: String::from_str("create chapters table"),
        sql: String::from_str(
            "CREATE TABLE IF NOT EXISTS chapters (\
             id INTEGER PRIMARY KEY AUTOINCREMENT,\
             party INTEGER NOT NULL,\
             name TEXT NOT NULL,\
             description TEXT,\
             icon TEXT NOT NULL,\
             state TEXT NOT NULL,\
             battlemap TEXT,\
             tokens TEXT,\
             encounters TEXT)",
        ),
    });
    steps.push(Migration {
        version: 7,
        description: String::from_str("create encounters table"),
        sql: String::from_str(
            "CREATE TABLE IF NOT EXISTS encounters (\
             id INTEGER PRIMARY KEY AUTOINCREMENT,\
             element TEXT NOT NULL,\
             name TEXT NOT NULL,\
             description TEXT,\
             images TEXT,\
             color TEXT NOT NULL,\
             type TEXT NOT NULL,\
             experience INTEGER,\
             passed INTEGER NOT NULL,\
             dice INTEGER,\
             skill TEXT,\
             difficulties TEXT,\
             opponents TEXT)",
        ),
    });
    steps.push(Migration {
        version: 8,
        description: String::from_str("create opponents table"),
        sql: String::from_str(
            "CREATE TABLE IF NOT EXISTS opponents (\
             id INTEGER PRIMARY KEY AUTOINCREMENT,\
             name TEXT NOT NULL,\
             details TEXT,\
             health INTEGER NOT NULL,\
             max_health INTEGER NOT NULL,\
             image TEXT,\
             icon TEXT NOT NULL,\
             labels TEXT,\
             level INTEGER NOT NULL,\
             resistances TEXT,\
             immunities TEXT,\
             effects TEXT)",
        ),
    });
    steps.push(Migration {
        version: 9,
        description: String::from_str("create tokens table"),
        sql: String::from_str(
            "CREATE TABLE IF NOT EXISTS tokens (\
             id INTEGER PRIMARY KEY AUTOINCREMENT,\
             entity INTEGER NOT NULL,\
             coordinates TEXT NOT NULL,\
             chapter INTEGER NOT NULL,\
             type TEXT NOT NULL)",
        ),
    });
    steps.push(Migration {
        version: 10,
        description: String::from_str("create encounter_opponents table"),
        sql: String::from_str(
            "CREATE TABLE IF NOT EXISTS encounter_opponents (\
             id INTEGER PRIMARY KEY AUTOINCREMENT,\
             name TEXT NOT NULL,\
             details TEXT,\
             health INTEGER NOT NULL,\
             max_health INTEGER NOT NULL,\
             image TEXT,\
             icon TEXT NOT NULL,\
             labels TEXT,\
             level INTEGER NOT NULL,\
             resistances TEXT,\
             immunities TEXT,\
             effects TEXT,\
             blueprint INTEGER NOT NULL)",
        ),
    });
    steps.push(Migration {
        version: 11,
        description: String::from_str("create active_effects table"),
        sql: String::from_str(
            "CREATE TABLE IF NOT EXISTS active_effects (\
             id INTEGER PRIMARY KEY AUTOINCREMENT,\
             effect_id INTEGER NOT NULL,\
             entity_id INTEGER NOT NULL,\
             entity_type TEXT NOT NULL,\
             remaining_duration INTEGER,\
             duration_type TEXT NOT NULL,\
             created_at DATETIME DEFAULT CURRENT_TIMESTAMP)",
        ),
    });
    MigrationPlan { steps }
}

/// The database file name for a deployment profile, in the form the SQL
/// plugin expects, e.g. "sqlite:inracker_dev.db".
pub fn db_file_name(profile: &str) -> (r: String)
    ensures
        r@ == "sqlite:"@ + profile@ + ".db"@,
{
    let mut name = String::from_str("sqlite:");
    name.append(profile);
    name.append(".db");
    name
}

/// The persisted "highest applied version" marker of a store.
pub struct MigrationTracker {
    /// Highest migration version already applied; 0 before any.
    pub highest_applied: u64,
}

impl MigrationTracker {
    /// A fresh store: nothing applied yet.
    pub fn new() -> (t: MigrationTracker)
        ensures
            t.highest_applied == 0,
    {
        MigrationTracker { highest_applied: 0 }
    }

    /// Computes the steps to run against the store and advances the marker
    /// past them. Each step is scheduled at most once across repeated calls:
    /// a second application of the same plan schedules nothing.
    pub fn apply(&mut self, plan: &MigrationPlan) -> (idx: Vec<usize>)
        requires
            plan.wf(),
        ensures
            idx@ == spec_pending(plan.steps@, old(self).highest_applied),
            final(self).highest_applied == advanced_marker(
                plan.steps@,
                old(self).highest_applied,
            ),
    {
        let idx = plan.pending(self.highest_applied);
        let n = plan.len();
        if n > 0 {
            let last = plan.step(n - 1);
            if last.version > self.highest_applied {
                self.highest_applied = last.version;
            }
        }
        idx
    }
}

} // verus!
