//! Schema migrations: checksummed definitions, validation and ordering by version, and a
//! runner that plans, applies and rolls back against the set of applied versions.
use vstd::prelude::*;
use crate::crypto::{checksum_text, sha256_checksum};
use crate::text::{opt_view, str_eq};

verus! {

#[derive(Debug, Clone, PartialEq, Eq)]
pub struct Migration {
    pub version: u64,
    pub name: String,
    pub up_sql: String,
    pub down_sql: Option<String>,
    pub checksum: String,
}

pub struct MigrationView {
    pub version: u64,
    pub name: Seq<char>,
    pub up_sql: Seq<char>,
    pub down_sql: Option<Seq<char>>,
    pub checksum: Seq<char>,
}

impl View for Migration {
    type V = MigrationView;

    open spec fn view(&self) -> MigrationView {
        MigrationView {
            version: self.version,
            name: self.name@,
            up_sql: self.up_sql@,
            down_sql: opt_view(self.down_sql),
            checksum: self.checksum@,
        }
    }
}

#[derive(Debug, Clone, PartialEq, Eq)]
pub struct AppliedMigration {
    pub version: u64,
    pub checksum: String,
}

pub struct AppliedView {
    pub version: u64,
    pub checksum: Seq<char>,
}

impl View for AppliedMigration {
    type V = AppliedView;

    open spec fn view(&self) -> AppliedView {
        AppliedView { version: self.version, checksum: self.checksum@ }
    }
}

#[derive(Debug, Clone, PartialEq, Eq)]
pub struct MigrationPlan {
    pub pending: Vec<Migration>,
    pub already_applied: Vec<AppliedMigration>,
}

#[derive(Debug, Clone, Copy, PartialEq, Eq, Structural)]
pub enum MigrationError {
    DuplicateVersion,
    InvalidChecksum,
    ChecksumDrift { version: u64 },
    MissingRollback { version: u64 },
    UnknownMigration { version: u64 },
}

pub open spec fn migration_views(v: Seq<Migration>) -> Seq<MigrationView> {
    v.map_values(|m: Migration| m@)
}

pub open spec fn applied_views(v: Seq<AppliedMigration>) -> Seq<AppliedView> {
    v.map_values(|a: AppliedMigration| a@)
}

/// The checksum of a migration: `sha256:` and the hex SHA-256 of the UTF-8 name, a newline,
/// the up script, a newline and the down script (nothing when there is none).
pub open spec fn migration_checksum(name: Seq<char>, up_sql: Seq<char>, down_sql: Option<Seq<char>>) -> Seq<char> {
    let down = match down_sql {
        Some(d) => d,
        None => Seq::empty(),
    };
    checksum_text(
        vstd::utf8::encode_utf8(name) + seq![10u8] + vstd::utf8::encode_utf8(up_sql) + seq![10u8]
            + vstd::utf8::encode_utf8(down),
    )
}

pub open spec fn checksum_matches(m: MigrationView) -> bool {
    m.checksum == migration_checksum(m.name, m.up_sql, m.down_sql)
}

/// What is wrong with migration `m` coming after `earlier`, if anything.
pub open spec fn problem_with(earlier: Seq<MigrationView>, m: MigrationView) -> Option<MigrationError> {
    if exists|j: int| 0 <= j < earlier.len() && (#[trigger] earlier[j]).version == m.version {
        Some(MigrationError::DuplicateVersion)
    } else if !checksum_matches(m) {
        Some(MigrationError::InvalidChecksum)
    } else {
        None
    }
}

/// The problem of the first migration, in the given order, that has one.
pub open spec fn first_problem(ms: Seq<MigrationView>) -> Option<MigrationError>
    decreases ms.len(),
{
    if ms.len() == 0 {
        None
    } else {
        match first_problem(ms.drop_last()) {
            Some(e) => Some(e),
            None => problem_with(ms.drop_last(), ms.last()),
        }
    }
}

/// `m` put into `s` before the first migration of a greater version.
pub open spec fn insert_migration(s: Seq<MigrationView>, m: MigrationView) -> Seq<MigrationView>
    decreases s.len(),
{
    if s.len() == 0 {
        seq![m]
    } else if m.version < s[0].version {
        seq![m] + s
    } else {
        seq![s[0]] + insert_migration(s.drop_first(), m)
    }
}

/// The migrations ordered by version.
pub open spec fn by_version(ms: Seq<MigrationView>) -> Seq<MigrationView>
    decreases ms.len(),
{
    if ms.len() == 0 {
        Seq::empty()
    } else {
        insert_migration(by_version(ms.drop_last()), ms.last())
    }
}

/// What `MigrationRunner::validate` gives for `ms`.
pub open spec fn validated(ms: Seq<MigrationView>) -> Result<Seq<MigrationView>, MigrationError> {
    match first_problem(ms) {
        Some(e) => Err(e),
        None => Ok(by_version(ms)),
    }
}

pub open spec fn migrations_ordered(s: Seq<MigrationView>) -> bool {
    forall|i: int, j: int| 0 <= i < j < s.len() ==> (#[trigger] s[i]).version < (#[trigger] s[j]).version
}

pub open spec fn records_ordered(s: Seq<AppliedView>) -> bool {
    forall|i: int, j: int| 0 <= i < j < s.len() ==> (#[trigger] s[i]).version < (#[trigger] s[j]).version
}

/// The applied record of `version`.
pub open spec fn record_of(s: Seq<AppliedView>, version: u64) -> Option<AppliedView> {
    if exists|i: int| 0 <= i < s.len() && (#[trigger] s[i]).version == version {
        Some(s[choose|i: int| 0 <= i < s.len() && (#[trigger] s[i]).version == version])
    } else {
        None
    }
}

/// The pending migrations and the records already applied, for migrations taken in order
/// `ordered`; an applied version whose checksum differs is drift.
pub open spec fn plan_of(applied: Seq<AppliedView>, ordered: Seq<MigrationView>) -> Result<
    (Seq<MigrationView>, Seq<AppliedView>),
    MigrationError,
>
    decreases ordered.len(),
{
    if ordered.len() == 0 {
        Ok((Seq::empty(), Seq::empty()))
    } else {
        match plan_of(applied, ordered.drop_last()) {
            Err(e) => Err(e),
            Ok(p) => {
                let m = ordered.last();
                match record_of(applied, m.version) {
                    Some(rec) => if rec.checksum == m.checksum {
                        Ok((p.0, p.1.push(rec)))
                    } else {
                        Err(MigrationError::ChecksumDrift { version: m.version })
                    },
                    None => Ok((p.0.push(m), p.1)),
                }
            },
        }
    }
}

/// What `MigrationRunner::plan` gives for `ms` against the records `applied`.
pub open spec fn planned(applied: Seq<AppliedView>, ms: Seq<MigrationView>) -> Result<
    (Seq<MigrationView>, Seq<AppliedView>),
    MigrationError,
> {
    match validated(ms) {
        Err(e) => Err(e),
        Ok(o) => plan_of(applied, o),
    }
}

/// `r` put into `s` before the first record of a greater version.
pub open spec fn insert_record(s: Seq<AppliedView>, r: AppliedView) -> Seq<AppliedView>
    decreases s.len(),
{
    if s.len() == 0 {
        seq![r]
    } else if r.version < s[0].version {
        seq![r] + s
    } else {
        seq![s[0]] + insert_record(s.drop_first(), r)
    }
}

/// The records `s` with one record added for each migration of `pending`.
pub open spec fn record_all(s: Seq<AppliedView>, pending: Seq<MigrationView>) -> Seq<AppliedView>
    decreases pending.len(),
{
    if pending.len() == 0 {
        s
    } else {
        insert_record(
            record_all(s, pending.drop_last()),
            AppliedView { version: pending.last().version, checksum: pending.last().checksum },
        )
    }
}

/// The first migration of `s` with version `version`.
pub open spec fn migration_of(s: Seq<MigrationView>, version: u64) -> Option<MigrationView> {
    if exists|i: int| 0 <= i < s.len() && (#[trigger] s[i]).version == version {
        Some(s[choose|i: int| 0 <= i < s.len() && (#[trigger] s[i]).version == version])
    } else {
        None
    }
}

/// `s` without the record of `version`.
pub open spec fn without_version(s: Seq<AppliedView>, version: u64) -> Seq<AppliedView>
    decreases s.len(),
{
    if s.len() == 0 {
        s
    } else if s.last().version == version {
        without_version(s.drop_last(), version)
    } else {
        without_version(s.drop_last(), version).push(s.last())
    }
}

// ---------------------------------------------------------------------------------------
// Lemmas about the orderings.

proof fn lemma_insert_migration(s: Seq<MigrationView>, m: MigrationView, p: int)
    requires
        migrations_ordered(s),
        0 <= p <= s.len(),
        forall|j: int| 0 <= j < p ==> (#[trigger] s[j]).version < m.version,
        p < s.len() ==> m.version < s[p].version,
    ensures
        insert_migration(s, m) == s.insert(p, m),
        migrations_ordered(s.insert(p, m)),
    decreases s.len(),
{
    if s.len() == 0 {
        assert(s.insert(p, m) =~= seq![m]);
    } else if p == 0 {
        assert(s.insert(p, m) =~= seq![m] + s);
    } else {
        let t = s.drop_first();
        assert forall|j: int| 0 <= j < p - 1 implies (#[trigger] t[j]).version < m.version by {
            assert(t[j] == s[j + 1]);
        }
        lemma_insert_migration(t, m, p - 1);
        assert(s.insert(p, m) =~= seq![s[0]] + t.insert(p - 1, m));
    }
    let r = s.insert(p, m);
    assert forall|i: int, j: int| 0 <= i < j < r.len() implies (#[trigger] r[i]).version < (
    #[trigger] r[j]).version by {
        if i < p && j < p {
        } else if i < p && j == p {
        } else if i < p {
            assert(r[j] == s[j - 1]);
        } else if i == p {
            assert(r[j] == s[j - 1]);
        } else {
            assert(r[i] == s[i - 1]);
            assert(r[j] == s[j - 1]);
        }
    }
}

proof fn lemma_insert_record(s: Seq<AppliedView>, r: AppliedView, p: int)
    requires
        records_ordered(s),
        0 <= p <= s.len(),
        forall|j: int| 0 <= j < p ==> (#[trigger] s[j]).version < r.version,
        p < s.len() ==> r.version < s[p].version,
    ensures
        insert_record(s, r) == s.insert(p, r),
        records_ordered(s.insert(p, r)),
    decreases s.len(),
{
    if s.len() == 0 {
        assert(s.insert(p, r) =~= seq![r]);
    } else if p == 0 {
        assert(s.insert(p, r) =~= seq![r] + s);
    } else {
        let t = s.drop_first();
        assert forall|j: int| 0 <= j < p - 1 implies (#[trigger] t[j]).version < r.version by {
            assert(t[j] == s[j + 1]);
        }
        lemma_insert_record(t, r, p - 1);
        assert(s.insert(p, r) =~= seq![s[0]] + t.insert(p - 1, r));
    }
    let q = s.insert(p, r);
    assert forall|i: int, j: int| 0 <= i < j < q.len() implies (#[trigger] q[i]).version < (
    #[trigger] q[j]).version by {
        if i < p && j < p {
        } else if i < p && j == p {
        } else if i < p {
            assert(q[j] == s[j - 1]);
        } else if i == p {
            assert(q[j] == s[j - 1]);
        } else {
            assert(q[i] == s[i - 1]);
            assert(q[j] == s[j - 1]);
        }
    }
}

proof fn lemma_record_at(s: Seq<AppliedView>, i: int)
    requires
        records_ordered(s),
        0 <= i < s.len(),
    ensures
        record_of(s, s[i].version) == Some(s[i]),
{
    let k = choose|k: int| 0 <= k < s.len() && (#[trigger] s[k]).version == s[i].version;
    if k != i {
        assert(s[k].version != s[i].version);
    }
}

proof fn lemma_migration_at(s: Seq<MigrationView>, i: int)
    requires
        migrations_ordered(s),
        0 <= i < s.len(),
    ensures
        migration_of(s, s[i].version) == Some(s[i]),
{
    let k = choose|k: int| 0 <= k < s.len() && (#[trigger] s[k]).version == s[i].version;
    if k != i {
        assert(s[k].version != s[i].version);
    }
}

proof fn lemma_first_problem_extends(ms: Seq<MigrationView>, i: int)
    requires
        0 <= i <= ms.len(),
        first_problem(ms.take(i)) is Some,
    ensures
        first_problem(ms) == first_problem(ms.take(i)),
    decreases ms.len() - i,
{
    if i < ms.len() {
        assert(ms.take(i + 1).drop_last() =~= ms.take(i));
        lemma_first_problem_extends(ms, i + 1);
    } else {
        assert(ms.take(i) =~= ms);
    }
}

proof fn lemma_plan_extends(applied: Seq<AppliedView>, o: Seq<MigrationView>, i: int)
    requires
        0 <= i <= o.len(),
        plan_of(applied, o.take(i)) is Err,
    ensures
        plan_of(applied, o) == plan_of(applied, o.take(i)),
    decreases o.len() - i,
{
    if i < o.len() {
        assert(o.take(i + 1).drop_last() =~= o.take(i));
        lemma_plan_extends(applied, o, i + 1);
    } else {
        assert(o.take(i) =~= o);
    }
}

/// Without duplicate versions, `by_version` orders the migrations strictly by version and keeps
/// exactly the given ones.
proof fn lemma_by_version(ms: Seq<MigrationView>)
    requires
        forall|i: int, j: int| 0 <= i < j < ms.len() ==> (#[trigger] ms[i]).version != (#[trigger] ms[j]).version,
    ensures
        migrations_ordered(by_version(ms)),
        by_version(ms).to_multiset() == ms.to_multiset(),
    decreases ms.len(),
{
    broadcast use vstd::seq_lib::group_to_multiset_ensures;

    if ms.len() > 0 {
        let rest = ms.drop_last();
        let m = ms.last();
        lemma_by_version(rest);
        let s = by_version(rest);
        assert forall|k: int| 0 <= k < s.len() implies (#[trigger] s[k]).version != m.version by {
            assert(s.to_multiset().count(s[k]) > 0);
            assert(rest.to_multiset().count(s[k]) > 0);
            assert(rest.contains(s[k]));
            let j = choose|j: int| 0 <= j < rest.len() && rest[j] == s[k];
            assert(ms[j] == rest[j]);
            assert(ms[ms.len() - 1] == m);
        }
        let p = position_for(s, m.version) as int;
        lemma_position_for(s, m.version);
        lemma_insert_migration(s, m, p);
        assert(ms =~= rest.push(m));
        vstd::seq_lib::lemma_multiset_commutative(s.take(p), s.skip(p));
        assert(s.insert(p, m) =~= s.take(p).push(m) + s.skip(p));
        vstd::seq_lib::lemma_multiset_commutative(s.take(p).push(m), s.skip(p));
        assert(s =~= s.take(p) + s.skip(p));
    }
}

/// The number of migrations of `s` with a version below `v`, where `s` is ordered.
pub open spec fn position_for(s: Seq<MigrationView>, v: u64) -> nat
    decreases s.len(),
{
    if s.len() == 0 {
        0
    } else if s[0].version < v {
        1 + position_for(s.drop_first(), v)
    } else {
        0
    }
}

proof fn lemma_position_for(s: Seq<MigrationView>, v: u64)
    requires
        migrations_ordered(s),
        forall|k: int| 0 <= k < s.len() ==> (#[trigger] s[k]).version != v,
    ensures
        0 <= position_for(s, v) <= s.len(),
        forall|j: int| 0 <= j < position_for(s, v) ==> (#[trigger] s[j]).version < v,
        position_for(s, v) < s.len() ==> v < s[position_for(s, v) as int].version,
    decreases s.len(),
{
    if s.len() > 0 {
        let t = s.drop_first();
        assert forall|k: int| 0 <= k < t.len() implies (#[trigger] t[k]).version != v by {
            assert(t[k] == s[k + 1]);
        }
        assert forall|i: int, j: int| 0 <= i < j < t.len() implies (#[trigger] t[i]).version < (
        #[trigger] t[j]).version by {
            assert(t[i] == s[i + 1]);
            assert(t[j] == s[j + 1]);
        }
        lemma_position_for(t, v);
        if s[0].version < v {
            assert forall|j: int| 0 <= j < position_for(s, v) implies (#[trigger] s[j]).version < v by {
                if j > 0 {
                    assert(s[j] == t[j - 1]);
                }
            }
            if position_for(s, v) < s.len() {
                assert(s[position_for(s, v) as int] == t[position_for(t, v) as int]);
            }
        }
    }
}

// ---------------------------------------------------------------------------------------
// Executable code.

fn copy_migration(m: &Migration) -> (r: Migration)
    ensures
        r@ == m@,
{
    let down_sql = match &m.down_sql {
        Some(d) => Some(d.clone()),
        None => None,
    };
    Migration {
        version: m.version,
        name: m.name.clone(),
        up_sql: m.up_sql.clone(),
        down_sql,
        checksum: m.checksum.clone(),
    }
}

fn copy_record(a: &AppliedMigration) -> (r: AppliedMigration)
    ensures
        r@ == a@,
{
    AppliedMigration { version: a.version, checksum: a.checksum.clone() }
}

fn push_str_bytes(out: &mut Vec<u8>, s: &str)
    ensures
        final(out)@ == old(out)@ + vstd::utf8::encode_utf8(s@),
{
    let b = s.as_bytes();
    let ghost start = out@;
    let mut i: usize = 0;
    while i < b.len()
        invariant
            b@ == vstd::utf8::encode_utf8(s@),
            i <= b.len(),
            out@ == start + b@.take(i as int),
        decreases b.len() - i,
    {
        out.push(b[i]);
        i = i + 1;
        assert(out@ =~= start + b@.take(i as int));
    }
    assert(b@.take(i as int) =~= b@);
}

fn checksum_for(name: &str, up_sql: &str, down_sql: &Option<String>) -> (r: String)
    ensures
        r@ == migration_checksum(name@, up_sql@, opt_view(*down_sql)),
{
    let mut bytes: Vec<u8> = Vec::new();
    push_str_bytes(&mut bytes, name);
    bytes.push(10u8);
    push_str_bytes(&mut bytes, up_sql);
    bytes.push(10u8);
    match down_sql {
        Some(d) => push_str_bytes(&mut bytes, d.as_str()),
        None => {
            assert(vstd::utf8::encode_utf8(Seq::<char>::empty()) =~= Seq::<u8>::empty());
        },
    }
    proof {
        let down = match opt_view(*down_sql) {
            Some(d) => d,
            None => Seq::empty(),
        };
        assert(bytes@ =~= vstd::utf8::encode_utf8(name@) + seq![10u8] + vstd::utf8::encode_utf8(up_sql@)
            + seq![10u8] + vstd::utf8::encode_utf8(down));
    }
    sha256_checksum(bytes.as_slice())
}

impl Migration {
    /// A migration whose checksum covers its name and both scripts.
    pub fn new(version: u64, name: &str, up_sql: &str, down_sql: Option<String>) -> (m: Self)
        ensures
            m@ == (MigrationView {
                version,
                name: name@,
                up_sql: up_sql@,
                down_sql: opt_view(down_sql),
                checksum: migration_checksum(name@, up_sql@, opt_view(down_sql)),
            }),
    {
        let checksum = checksum_for(name, up_sql, &down_sql);
        Migration { version, name: name.to_string(), up_sql: up_sql.to_string(), down_sql, checksum }
    }

    /// Whether the stored checksum is the one the name and scripts give.
    pub fn verify_checksum(&self) -> (r: bool)
        ensures
            r == checksum_matches(self@),
    {
        let expected = checksum_for(self.name.as_str(), self.up_sql.as_str(), &self.down_sql);
        str_eq(self.checksum.as_str(), expected.as_str())
    }
}

/// Tracks which migration versions are applied, with their checksums.
#[derive(Debug)]
pub struct MigrationRunner {
    applied: Vec<AppliedMigration>,
}

impl MigrationRunner {
    /// The applied records, ordered by version.
    pub closed spec fn records(&self) -> Seq<AppliedView> {
        applied_views(self.applied@)
    }

    pub closed spec fn wf(&self) -> bool {
        records_ordered(self.records())
    }

    /// A runner with nothing applied.
    pub fn new() -> (r: Self)
        ensures
            r.wf(),
            r.records() == Seq::<AppliedView>::empty(),
    {
        let r = MigrationRunner { applied: Vec::new() };
        assert(r.records() =~= Seq::<AppliedView>::empty());
        r
    }

    /// Checks that no version occurs twice and every checksum matches, in the given order, and
    /// gives the migrations ordered by version.
    pub fn validate(migrations: &Vec<Migration>) -> (r: Result<Vec<Migration>, MigrationError>)
        ensures
            match validated(migration_views(migrations@)) {
                Ok(o) => r matches Ok(v) && migration_views(v@) == o,
                Err(e) => r == Err::<Vec<Migration>, MigrationError>(e),
            },
    {
        let ghost ms = migration_views(migrations@);
        let mut i: usize = 0;
        assert(ms.take(0) =~= Seq::<MigrationView>::empty());
        while i < migrations.len()
            invariant
                ms == migration_views(migrations@),
                i <= migrations.len(),
                first_problem(ms.take(i as int)) is None,
            decreases migrations.len() - i,
        {
            let m = &migrations[i];
            let ghost pre = ms.take(i as int);
            assert(ms.take(i + 1).drop_last() =~= pre);
            assert(ms.take(i + 1).last() == m@);
            let mut j: usize = 0;
            while j < i && migrations[j].version != m.version
                invariant
                    ms == migration_views(migrations@),
                    j <= i < migrations.len(),
                    pre == ms.take(i as int),
                    m@ == ms[i as int],
                    forall|k: int| 0 <= k < j ==> (#[trigger] pre[k]).version != m@.version,
                decreases i - j,
            {
                j = j + 1;
            }
            let dup = j < i;
            if dup {
                assert(pre[j as int].version == m@.version);
            }
            if dup {
                proof {
                    lemma_first_problem_extends(ms, i + 1);
                }
                return Err(MigrationError::DuplicateVersion);
            }
            if !m.verify_checksum() {
                proof {
                    lemma_first_problem_extends(ms, i + 1);
                }
                return Err(MigrationError::InvalidChecksum);
            }
            i = i + 1;
        }
        assert(ms.take(i as int) =~= ms);
        let mut ordered: Vec<Migration> = Vec::new();
        let mut k: usize = 0;
        assert(ms.take(0) =~= Seq::<MigrationView>::empty());
        assert(migration_views(ordered@) =~= Seq::<MigrationView>::empty());
        proof {
            lemma_no_duplicates(ms);
        }
        while k < migrations.len()
            invariant
                ms == migration_views(migrations@),
                k <= migrations.len(),
                migration_views(ordered@) == by_version(ms.take(k as int)),
                forall|a: int, b: int| 0 <= a < b < ms.len() ==> (#[trigger] ms[a]).version != (#[trigger] ms[b]).version,
            decreases migrations.len() - k,
        {
            let m = &migrations[k];
            let ghost s = migration_views(ordered@);
            let ghost pre = ms.take(k as int);
            proof {
                assert(ms.take(k + 1).drop_last() =~= pre);
                assert(ms.take(k + 1).last() == m@);
                assert forall|a: int, b: int| 0 <= a < b < pre.len() implies (#[trigger] pre[a]).version
                    != (#[trigger] pre[b]).version by {
                    assert(pre[a] == ms[a]);
                    assert(pre[b] == ms[b]);
                }
                lemma_by_version(pre);
                broadcast use vstd::seq_lib::group_to_multiset_ensures;
                assert forall|q: int| 0 <= q < s.len() implies (#[trigger] s[q]).version != m@.version by {
                    assert(s.to_multiset().count(s[q]) > 0);
                    assert(pre.contains(s[q]));
                    let j = choose|j: int| 0 <= j < pre.len() && pre[j] == s[q];
                    assert(ms[j] == pre[j]);
                }
                lemma_position_for(s, m@.version);
            }
            let mut p: usize = 0;
            while p < ordered.len() && ordered[p].version < m.version
                invariant
                    s == migration_views(ordered@),
                    p <= ordered.len(),
                    forall|j: int| 0 <= j < p ==> (#[trigger] s[j]).version < m@.version,
                    position_for(s, m@.version) >= p,
                    migrations_ordered(s),
                decreases ordered.len() - p,
            {
                proof {
                    lemma_position_step(s, m@.version, p as int);
                }
                p = p + 1;
            }
            proof {
                if p < ordered.len() {
                    assert(s[p as int].version >= m@.version);
                    lemma_position_at_most(s, m@.version, p as int);
                }
                lemma_insert_migration(s, m@, p as int);
            }
            ordered.insert(p, copy_migration(m));
            assert(migration_views(ordered@) =~= s.insert(p as int, m@));
            k = k + 1;
        }
        assert(ms.take(k as int) =~= ms);
        Ok(ordered)
    }

    fn record_index(&self, version: u64) -> (r: Option<usize>)
        requires
            self.wf(),
        ensures
            r matches Some(i) ==> i < self.records().len() && self.records()[i as int].version == version
                && record_of(self.records(), version) == Some(self.records()[i as int]),
            r is None ==> record_of(self.records(), version) is None,
    {
        let mut i: usize = 0;
        while i < self.applied.len()
            invariant
                self.wf(),
                i <= self.applied.len(),
                forall|j: int| 0 <= j < i ==> (#[trigger] self.records()[j]).version != version,
            decreases self.applied.len() - i,
        {
            if self.applied[i].version == version {
                proof {
                    lemma_record_at(self.records(), i as int);
                }
                return Some(i);
            }
            i = i + 1;
        }
        None
    }

    /// Splits the validated migrations into those still pending and the records of those
    /// already applied; an applied version whose checksum changed is drift.
    pub fn plan(&self, migrations: &Vec<Migration>) -> (r: Result<MigrationPlan, MigrationError>)
        requires
            self.wf(),
        ensures
            match planned(self.records(), migration_views(migrations@)) {
                Ok(p) => r matches Ok(plan) && migration_views(plan.pending@) == p.0 && applied_views(
                    plan.already_applied@,
                ) == p.1,
                Err(e) => r == Err::<MigrationPlan, MigrationError>(e),
            },
    {
        let ordered = Self::validate(migrations)?;
        let ghost o = migration_views(ordered@);
        let mut pending: Vec<Migration> = Vec::new();
        let mut already_applied: Vec<AppliedMigration> = Vec::new();
        let mut i: usize = 0;
        assert(o.take(0) =~= Seq::<MigrationView>::empty());
        assert(migration_views(pending@) =~= Seq::<MigrationView>::empty());
        assert(applied_views(already_applied@) =~= Seq::<AppliedView>::empty());
        while i < ordered.len()
            invariant
                self.wf(),
                o == migration_views(ordered@),
                validated(migration_views(migrations@)) == Ok::<Seq<MigrationView>, MigrationError>(o),
                i <= ordered.len(),
                plan_of(self.records(), o.take(i as int)) == Ok::<
                    (Seq<MigrationView>, Seq<AppliedView>),
                    MigrationError,
                >((migration_views(pending@), applied_views(already_applied@))),
            decreases ordered.len() - i,
        {
            let m = &ordered[i];
            assert(o.take(i + 1).drop_last() =~= o.take(i as int));
            assert(o.take(i + 1).last() == m@);
            match self.record_index(m.version) {
                Some(k) => {
                    let record = &self.applied[k];
                    if !str_eq(record.checksum.as_str(), m.checksum.as_str()) {
                        proof {
                            assert(self.records()[k as int] == record@);
                            assert(plan_of(self.records(), o.take(i + 1)) == Err::<
                                (Seq<MigrationView>, Seq<AppliedView>),
                                MigrationError,
                            >(MigrationError::ChecksumDrift { version: m.version }));
                            lemma_plan_extends(self.records(), o, i + 1);
                            assert(validated(migration_views(migrations@)) == Ok::<Seq<MigrationView>, MigrationError>(o));
                        }
                        return Err(MigrationError::ChecksumDrift { version: m.version });
                    }
                    let ghost before = already_applied@;
                    already_applied.push(copy_record(record));
                    assert(applied_views(already_applied@) =~= applied_views(before).push(record@));
                },
                None => {
                    let ghost before = pending@;
                    pending.push(copy_migration(m));
                    assert(migration_views(pending@) =~= migration_views(before).push(m@));
                },
            }
            i = i + 1;
        }
        assert(o.take(i as int) =~= o);
        Ok(MigrationPlan { pending, already_applied })
    }

    /// Plans the migrations and records every pending one as applied.
    pub fn apply(&mut self, migrations: &Vec<Migration>) -> (r: Result<MigrationPlan, MigrationError>)
        requires
            old(self).wf(),
        ensures
            final(self).wf(),
            match planned(old(self).records(), migration_views(migrations@)) {
                Ok(p) => r matches Ok(plan) && migration_views(plan.pending@) == p.0 && applied_views(
                    plan.already_applied@,
                ) == p.1 && final(self).records() == record_all(old(self).records(), p.0),
                Err(e) => r == Err::<MigrationPlan, MigrationError>(e) && final(self).records() == old(
                    self,
                ).records(),
            },
    {
        let plan = self.plan(migrations)?;
        let ghost p = migration_views(plan.pending@);
        let ghost start = self.records();
        proof {
            lemma_plan_pending_new(start, migration_views(migrations@));
        }
        let mut i: usize = 0;
        assert(p.take(0) =~= Seq::<MigrationView>::empty());
        while i < plan.pending.len()
            invariant
                self.wf(),
                p == migration_views(plan.pending@),
                i <= plan.pending.len(),
                self.records() == record_all(start, p.take(i as int)),
                forall|a: int, b: int| 0 <= a < b < p.len() ==> (#[trigger] p[a]).version < (#[trigger] p[b]).version,
                forall|a: int| 0 <= a < p.len() ==> record_of(start, (#[trigger] p[a]).version) is None,
            decreases plan.pending.len() - i,
        {
            let m = &plan.pending[i];
            let ghost s = self.records();
            proof {
                assert(p.take(i + 1).drop_last() =~= p.take(i as int));
                assert(p.take(i + 1).last() == m@);
                lemma_record_all_versions(start, p, i as int);
            }
            let mut q: usize = 0;
            while q < self.applied.len() && self.applied[q].version < m.version
                invariant
                    s == self.records(),
                    q <= self.applied.len(),
                    forall|j: int| 0 <= j < q ==> (#[trigger] s[j]).version < m@.version,
                decreases self.applied.len() - q,
            {
                q = q + 1;
            }
            proof {
                if q < self.applied.len() {
                    assert(s.contains(s[q as int]));
                    assert(s[q as int].version != m@.version);
                }
                lemma_insert_record(s, AppliedView { version: m@.version, checksum: m@.checksum }, q as int);
            }
            let rec = AppliedMigration { version: m.version, checksum: m.checksum.clone() };
            self.applied.insert(q, rec);
            assert(self.records() =~= s.insert(q as int, rec@));
            i = i + 1;
        }
        assert(p.take(i as int) =~= p);
        Ok(plan)
    }

    /// Rolls back migration `version`: it must be among the validated migrations, have a down
    /// script and be applied; its record is removed and the migration returned.
    pub fn rollback(&mut self, migrations: &Vec<Migration>, version: u64) -> (r: Result<Migration, MigrationError>)
        requires
            old(self).wf(),
        ensures
            final(self).wf(),
            match validated(migration_views(migrations@)) {
                Err(e) => r == Err::<Migration, MigrationError>(e) && final(self).records() == old(self).records(),
                Ok(o) => match migration_of(o, version) {
                    None => r == Err::<Migration, MigrationError>(MigrationError::UnknownMigration { version })
                        && final(self).records() == old(self).records(),
                    Some(m) => if m.down_sql is None {
                        r == Err::<Migration, MigrationError>(MigrationError::MissingRollback { version })
                            && final(self).records() == old(self).records()
                    } else if record_of(old(self).records(), version) is None {
                        r == Err::<Migration, MigrationError>(MigrationError::UnknownMigration { version })
                            && final(self).records() == old(self).records()
                    } else {
                        r matches Ok(x) && x@ == m && final(self).records() == without_version(
                            old(self).records(),
                            version,
                        )
                    },
                },
            },
    {
        let ordered = Self::validate(migrations)?;
        let ghost o = migration_views(ordered@);
        proof {
            lemma_validated_ordered(migration_views(migrations@));
        }
        let mut i: usize = 0;
        while i < ordered.len() && ordered[i].version != version
            invariant
                o == migration_views(ordered@),
                i <= ordered.len(),
                forall|j: int| 0 <= j < i ==> (#[trigger] o[j]).version != version,
            decreases ordered.len() - i,
        {
            i = i + 1;
        }
        if i == ordered.len() {
            return Err(MigrationError::UnknownMigration { version });
        }
        proof {
            lemma_migration_at(o, i as int);
        }
        let migration = &ordered[i];
        if migration.down_sql.is_none() {
            return Err(MigrationError::MissingRollback { version });
        }
        match self.record_index(version) {
            None => Err(MigrationError::UnknownMigration { version }),
            Some(k) => {
                let ghost s = self.records();
                self.applied.remove(k);
                proof {
                    lemma_remove_record(s, k as int);
                }
                assert(self.records() =~= s.remove(k as int));
                Ok(copy_migration(migration))
            },
        }
    }

    /// The applied records, ordered by version.
    pub fn applied(&self) -> (r: Vec<AppliedMigration>)
        ensures
            applied_views(r@) == self.records(),
    {
        let mut r: Vec<AppliedMigration> = Vec::new();
        let mut i: usize = 0;
        while i < self.applied.len()
            invariant
                i <= self.applied.len(),
                applied_views(r@) == self.records().take(i as int),
            decreases self.applied.len() - i,
        {
            let ghost before = r@;
            r.push(copy_record(&self.applied[i]));
            assert(self.records()[i as int] == self.applied@[i as int]@);
            assert(applied_views(r@) =~= applied_views(before).push(self.applied@[i as int]@));
            assert(self.records().take(i + 1) =~= self.records().take(i as int).push(self.records()[i as int]));
            i = i + 1;
        }
        assert(self.records().take(i as int) =~= self.records());
        r
    }
}

proof fn lemma_position_step(s: Seq<MigrationView>, v: u64, p: int)
    requires
        0 <= p < s.len(),
        s[p].version < v,
        migrations_ordered(s),
        forall|j: int| 0 <= j < p ==> (#[trigger] s[j]).version < v,
    ensures
        position_for(s, v) >= p + 1,
    decreases p,
{
    let t = s.drop_first();
    if p > 0 {
        assert forall|i: int, j: int| 0 <= i < j < t.len() implies (#[trigger] t[i]).version < (
        #[trigger] t[j]).version by {
            assert(t[i] == s[i + 1]);
            assert(t[j] == s[j + 1]);
        }
        assert forall|j: int| 0 <= j < p - 1 implies (#[trigger] t[j]).version < v by {
            assert(t[j] == s[j + 1]);
        }
        assert(s[0].version < v);
        lemma_position_step(t, v, p - 1);
    }
}

proof fn lemma_position_at_most(s: Seq<MigrationView>, v: u64, p: int)
    requires
        0 <= p < s.len(),
        s[p].version >= v,
        migrations_ordered(s),
    ensures
        position_for(s, v) <= p,
    decreases p,
{
    if p > 0 {
        let t = s.drop_first();
        assert forall|i: int, j: int| 0 <= i < j < t.len() implies (#[trigger] t[i]).version < (
        #[trigger] t[j]).version by {
            assert(t[i] == s[i + 1]);
            assert(t[j] == s[j + 1]);
        }
        assert(t[p - 1] == s[p]);
        lemma_position_at_most(t, v, p - 1);
    }
}

proof fn lemma_no_duplicates(ms: Seq<MigrationView>)
    requires
        first_problem(ms) is None,
    ensures
        forall|a: int, b: int| 0 <= a < b < ms.len() ==> (#[trigger] ms[a]).version != (#[trigger] ms[b]).version,
    decreases ms.len(),
{
    if ms.len() > 0 {
        let rest = ms.drop_last();
        lemma_no_duplicates(rest);
        assert forall|a: int, b: int| 0 <= a < b < ms.len() implies (#[trigger] ms[a]).version != (
        #[trigger] ms[b]).version by {
            if b < ms.len() - 1 {
                assert(ms[a] == rest[a]);
                assert(ms[b] == rest[b]);
            } else {
                assert(ms[a] == rest[a]);
                if rest[a].version == ms.last().version {
                    assert(problem_with(rest, ms.last()) is Some);
                }
            }
        }
    }
}

/// Validated migrations are ordered strictly by version and are exactly the ones given.
pub proof fn lemma_validated_ordered(ms: Seq<MigrationView>)
    ensures
        validated(ms) matches Ok(o) ==> migrations_ordered(o) && o.to_multiset() == ms.to_multiset(),
{
    if first_problem(ms) is None {
        lemma_no_duplicates(ms);
        lemma_by_version(ms);
    }
}

proof fn lemma_plan_of_pending(applied: Seq<AppliedView>, o: Seq<MigrationView>)
    requires
        migrations_ordered(o),
    ensures
        plan_of(applied, o) matches Ok(p) ==> (forall|a: int, b: int| 0 <= a < b < p.0.len() ==> (
        #[trigger] p.0[a]).version < (#[trigger] p.0[b]).version) && (forall|a: int|
            0 <= a < p.0.len() ==> record_of(applied, (#[trigger] p.0[a]).version) is None) && (forall|
            a: int,
        | 0 <= a < p.0.len() ==> o.contains(#[trigger] p.0[a])),
    decreases o.len(),
{
    if o.len() > 0 {
        let rest = o.drop_last();
        assert forall|a: int, b: int| 0 <= a < b < rest.len() implies (#[trigger] rest[a]).version < (
        #[trigger] rest[b]).version by {
            assert(rest[a] == o[a]);
            assert(rest[b] == o[b]);
        }
        lemma_plan_of_pending(applied, rest);
        if let Ok(p) = plan_of(applied, o) {
            let q = plan_of(applied, rest)->Ok_0;
            let m = o.last();
            assert forall|a: int| 0 <= a < q.0.len() implies (#[trigger] q.0[a]).version < m.version by {
                assert(rest.contains(q.0[a]));
                let j = choose|j: int| 0 <= j < rest.len() && rest[j] == q.0[a];
                assert(o[j] == rest[j]);
            }
            assert forall|a: int| 0 <= a < p.0.len() implies o.contains(#[trigger] p.0[a]) by {
                if a < q.0.len() {
                    assert(p.0[a] == q.0[a] || p.0 == q.0);
                    assert(rest.contains(q.0[a]));
                    let j = choose|j: int| 0 <= j < rest.len() && rest[j] == q.0[a];
                    assert(o[j] == rest[j]);
                } else {
                    assert(p.0[a] == m);
                    assert(o[o.len() - 1] == m);
                }
            }
        }
    }
}

proof fn lemma_plan_pending_new(applied: Seq<AppliedView>, ms: Seq<MigrationView>)
    ensures
        planned(applied, ms) matches Ok(p) ==> (forall|a: int, b: int| 0 <= a < b < p.0.len() ==> (
        #[trigger] p.0[a]).version < (#[trigger] p.0[b]).version) && (forall|a: int|
            0 <= a < p.0.len() ==> record_of(applied, (#[trigger] p.0[a]).version) is None),
{
    lemma_validated_ordered(ms);
    if let Ok(o) = validated(ms) {
        lemma_plan_of_pending(applied, o);
    }
}

/// The number of records of `s` that `insert_record` puts before `r`.
pub open spec fn record_position(s: Seq<AppliedView>, r: AppliedView) -> nat
    decreases s.len(),
{
    if s.len() == 0 || r.version < s[0].version {
        0
    } else {
        1 + record_position(s.drop_first(), r)
    }
}

proof fn lemma_insert_record_is_insert(s: Seq<AppliedView>, r: AppliedView)
    ensures
        record_position(s, r) <= s.len(),
        insert_record(s, r) == s.insert(record_position(s, r) as int, r),
    decreases s.len(),
{
    if s.len() == 0 {
        assert(s.insert(0, r) =~= seq![r]);
    } else if r.version < s[0].version {
        assert(s.insert(0, r) =~= seq![r] + s);
    } else {
        let t = s.drop_first();
        lemma_insert_record_is_insert(t, r);
        assert(s.insert(record_position(s, r) as int, r) =~= seq![s[0]] + t.insert(record_position(t, r) as int, r));
    }
}

proof fn lemma_insert_record_contents(s: Seq<AppliedView>, r: AppliedView)
    ensures
        forall|x: AppliedView| #[trigger] insert_record(s, r).contains(x) ==> s.contains(x) || x == r,
{
    lemma_insert_record_is_insert(s, r);
    let p = record_position(s, r) as int;
    let w = insert_record(s, r);
    assert forall|x: AppliedView| #[trigger] w.contains(x) implies s.contains(x) || x == r by {
        let k = choose|k: int| 0 <= k < w.len() && w[k] == x;
        if k < p {
            assert(s[k] == x);
        } else if k > p {
            assert(s[k - 1] == x);
        }
    }
}

proof fn lemma_record_all_versions(start: Seq<AppliedView>, p: Seq<MigrationView>, i: int)
    requires
        0 <= i < p.len(),
        forall|a: int, b: int| 0 <= a < b < p.len() ==> (#[trigger] p[a]).version < (#[trigger] p[b]).version,
        forall|a: int| 0 <= a < p.len() ==> record_of(start, (#[trigger] p[a]).version) is None,
    ensures
        forall|x: AppliedView| #[trigger] record_all(start, p.take(i)).contains(x) ==> x.version != p[i].version,
    decreases i,
{
    if i > 0 {
        let q = p.take(i);
        assert(q.drop_last() =~= p.take(i - 1));
        lemma_record_all_versions(start, p, i - 1);
        let base = record_all(start, p.take(i - 1));
        let rec = AppliedView { version: p[i - 1].version, checksum: p[i - 1].checksum };
        lemma_insert_record_contents(base, rec);
        assert forall|x: AppliedView| #[trigger] record_all(start, q).contains(x) implies x.version != p[i].version by {
            assert(record_all(start, q) == insert_record(base, rec));
            if base.contains(x) {
                lemma_record_all_versions_from(start, p, i - 1, x);
            }
        }
    } else {
        assert(p.take(0) =~= Seq::<MigrationView>::empty());
        assert forall|x: AppliedView| #[trigger] record_all(start, p.take(i)).contains(x) implies x.version != p[i].version by {
            assert(record_all(start, p.take(0)) == start);
            if x.version == p[i].version {
                let j = choose|j: int| 0 <= j < start.len() && start[j] == x;
                assert(start[j].version == p[i].version);
                assert(record_of(start, p[i].version) is Some);
            }
        }
    }
}

proof fn lemma_record_all_versions_from(start: Seq<AppliedView>, p: Seq<MigrationView>, i: int, x: AppliedView)
    requires
        0 <= i < p.len(),
        forall|a: int, b: int| 0 <= a < b < p.len() ==> (#[trigger] p[a]).version < (#[trigger] p[b]).version,
        forall|a: int| 0 <= a < p.len() ==> record_of(start, (#[trigger] p[a]).version) is None,
        record_all(start, p.take(i)).contains(x),
    ensures
        forall|k: int| i <= k < p.len() ==> x.version != (#[trigger] p[k]).version,
    decreases i,
{
    if i > 0 {
        let q = p.take(i);
        assert(q.drop_last() =~= p.take(i - 1));
        let base = record_all(start, p.take(i - 1));
        let rec = AppliedView { version: p[i - 1].version, checksum: p[i - 1].checksum };
        lemma_insert_record_contents(base, rec);
        assert(record_all(start, q) == insert_record(base, rec));
        if base.contains(x) {
            lemma_record_all_versions_from(start, p, i - 1, x);
        }
    } else {
        assert(p.take(0) =~= Seq::<MigrationView>::empty());
        assert(record_all(start, p.take(0)) == start);
        assert forall|k: int| i <= k < p.len() implies x.version != (#[trigger] p[k]).version by {
            if x.version == p[k].version {
                let j = choose|j: int| 0 <= j < start.len() && start[j] == x;
                assert(start[j].version == p[k].version);
                assert(record_of(start, p[k].version) is Some);
            }
        }
    }
}

proof fn lemma_remove_record(s: Seq<AppliedView>, k: int)
    requires
        records_ordered(s),
        0 <= k < s.len(),
    ensures
        s.remove(k) == without_version(s, s[k].version),
        records_ordered(s.remove(k)),
    decreases s.len(),
{
    let v = s[k].version;
    let t = s.drop_last();
    if k == s.len() - 1 {
        assert(s.remove(k) =~= t);
        lemma_keeps_all(t, v);
    } else {
        assert forall|i: int, j: int| 0 <= i < j < t.len() implies (#[trigger] t[i]).version < (
        #[trigger] t[j]).version by {
            assert(t[i] == s[i]);
            assert(t[j] == s[j]);
        }
        assert(t[k] == s[k]);
        lemma_remove_record(t, k);
        assert(s.last().version != v);
        assert(s.remove(k) =~= t.remove(k).push(s.last()));
    }
    let q = s.remove(k);
    assert forall|i: int, j: int| 0 <= i < j < q.len() implies (#[trigger] q[i]).version < (
    #[trigger] q[j]).version by {
        if i < k && j < k {
        } else if i < k {
            assert(q[j] == s[j + 1]);
        } else {
            assert(q[i] == s[i + 1]);
            assert(q[j] == s[j + 1]);
        }
    }
}

proof fn lemma_keeps_all(s: Seq<AppliedView>, v: u64)
    requires
        forall|i: int| 0 <= i < s.len() ==> (#[trigger] s[i]).version < v,
    ensures
        without_version(s, v) == s,
    decreases s.len(),
{
    if s.len() > 0 {
        let t = s.drop_last();
        assert forall|i: int| 0 <= i < t.len() implies (#[trigger] t[i]).version < v by {
            assert(t[i] == s[i]);
        }
        lemma_keeps_all(t, v);
        assert(s =~= t.push(s.last()));
    }
}


proof fn lemma_record_position(s: Seq<AppliedView>, r: AppliedView)
    requires
        records_ordered(s),
        forall|k: int| 0 <= k < s.len() ==> (#[trigger] s[k]).version != r.version,
    ensures
        record_position(s, r) <= s.len(),
        forall|j: int| 0 <= j < record_position(s, r) ==> (#[trigger] s[j]).version < r.version,
        record_position(s, r) < s.len() ==> r.version < s[record_position(s, r) as int].version,
    decreases s.len(),
{
    if s.len() > 0 && !(r.version < s[0].version) {
        let t = s.drop_first();
        assert forall|k: int| 0 <= k < t.len() implies (#[trigger] t[k]).version != r.version by {
            assert(t[k] == s[k + 1]);
        }
        assert forall|i: int, j: int| 0 <= i < j < t.len() implies (#[trigger] t[i]).version < (
        #[trigger] t[j]).version by {
            assert(t[i] == s[i + 1]);
            assert(t[j] == s[j + 1]);
        }
        lemma_record_position(t, r);
        assert(s[0].version != r.version);
        assert forall|j: int| 0 <= j < record_position(s, r) implies (#[trigger] s[j]).version < r.version by {
            if j > 0 {
                assert(s[j] == t[j - 1]);
            }
        }
        if record_position(s, r) < s.len() {
            assert(s[record_position(s, r) as int] == t[record_position(t, r) as int]);
        }
    }
}

/// Adding a record of a new version keeps the records ordered, finds the new record under its
/// version and leaves every other version as it was.
proof fn lemma_record_of_insert(s: Seq<AppliedView>, r: AppliedView, v: u64)
    requires
        records_ordered(s),
        forall|k: int| 0 <= k < s.len() ==> (#[trigger] s[k]).version != r.version,
    ensures
        records_ordered(insert_record(s, r)),
        record_of(insert_record(s, r), v) == if v == r.version {
            Some(r)
        } else {
            record_of(s, v)
        },
{
    lemma_record_position(s, r);
    let p = record_position(s, r) as int;
    lemma_insert_record(s, r, p);
    let w = s.insert(p, r);
    if v == r.version {
        assert(w[p] == r);
        lemma_record_at(w, p);
    } else if record_of(s, v) is Some {
        let k = choose|k: int| 0 <= k < s.len() && (#[trigger] s[k]).version == v;
        lemma_record_at(s, k);
        let idx = if k < p { k } else { k + 1 };
        assert(w[idx] == s[k]);
        lemma_record_at(w, idx);
    } else {
        assert forall|i: int| 0 <= i < w.len() implies (#[trigger] w[i]).version != v by {
            if i < p {
                assert(w[i] == s[i]);
            } else if i > p {
                assert(w[i] == s[i - 1]);
            }
        }
    }
}

/// After recording the pending migrations, each of their versions is found with the
/// migration's checksum and every other version is found as before.
proof fn lemma_record_all_lookup(start: Seq<AppliedView>, p: Seq<MigrationView>, v: u64)
    requires
        records_ordered(start),
        forall|a: int, b: int| 0 <= a < b < p.len() ==> (#[trigger] p[a]).version < (#[trigger] p[b]).version,
        forall|a: int| 0 <= a < p.len() ==> record_of(start, (#[trigger] p[a]).version) is None,
    ensures
        records_ordered(record_all(start, p)),
        forall|a: int| 0 <= a < p.len() && (#[trigger] p[a]).version == v ==> record_of(record_all(start, p), v)
            == Some(AppliedView { version: v, checksum: p[a].checksum }),
        (forall|a: int| 0 <= a < p.len() ==> (#[trigger] p[a]).version != v) ==> record_of(
            record_all(start, p),
            v,
        ) == record_of(start, v),
    decreases p.len(),
{
    if p.len() > 0 {
        let q = p.drop_last();
        let n = p.len() - 1;
        assert forall|a: int, b: int| 0 <= a < b < q.len() implies (#[trigger] q[a]).version < (
        #[trigger] q[b]).version by {
            assert(q[a] == p[a]);
            assert(q[b] == p[b]);
        }
        assert forall|a: int| 0 <= a < q.len() implies record_of(start, (#[trigger] q[a]).version) is None by {
            assert(q[a] == p[a]);
        }
        lemma_record_all_lookup(start, q, v);
        let base = record_all(start, q);
        let rec = AppliedView { version: p[n].version, checksum: p[n].checksum };
        assert(p.take(n) =~= q);
        lemma_record_all_versions(start, p, n);
        assert forall|k: int| 0 <= k < base.len() implies (#[trigger] base[k]).version != rec.version by {
            assert(base.contains(base[k]));
        }
        lemma_record_of_insert(base, rec, v);
        assert forall|a: int| 0 <= a < p.len() && (#[trigger] p[a]).version == v implies record_of(
            record_all(start, p),
            v,
        ) == Some(AppliedView { version: v, checksum: p[a].checksum }) by {
            if a < n {
                assert(q[a] == p[a]);
                assert(p[a].version < p[n].version);
            }
        }
        if forall|a: int| 0 <= a < p.len() ==> (#[trigger] p[a]).version != v {
            assert(p[n].version != v);
            assert forall|a: int| 0 <= a < q.len() implies (#[trigger] q[a]).version != v by {
                assert(q[a] == p[a]);
            }
        }
    }
}

/// What a successful plan says of each migration: an applied version carries the migration's
/// checksum, and an unapplied one is pending.
proof fn lemma_plan_of_facts(applied: Seq<AppliedView>, o: Seq<MigrationView>)
    requires
        plan_of(applied, o) is Ok,
    ensures
        forall|i: int| 0 <= i < o.len() ==> match record_of(applied, (#[trigger] o[i]).version) {
            Some(rec) => rec.checksum == o[i].checksum,
            None => plan_of(applied, o)->Ok_0.0.contains(o[i]),
        },
        plan_of(applied, o)->Ok_0.0.len() + plan_of(applied, o)->Ok_0.1.len() == o.len(),
    decreases o.len(),
{
    if o.len() > 0 {
        let rest = o.drop_last();
        lemma_plan_of_facts(applied, rest);
        let q = plan_of(applied, rest)->Ok_0;
        let pp = plan_of(applied, o)->Ok_0;
        assert forall|i: int| 0 <= i < o.len() implies match record_of(applied, (#[trigger] o[i]).version) {
            Some(rec) => rec.checksum == o[i].checksum,
            None => pp.0.contains(o[i]),
        } by {
            if i < rest.len() {
                assert(rest[i] == o[i]);
                if record_of(applied, o[i].version) is None {
                    let k = choose|k: int| 0 <= k < q.0.len() && q.0[k] == o[i];
                    assert(pp.0[k] == o[i]);
                }
            } else {
                if record_of(applied, o[i].version) is None {
                    assert(pp.0[pp.0.len() - 1] == o[i]);
                }
            }
        }
    }
}

/// Applying a plan leaves nothing pending: planning the same migrations again after a
/// successful apply finds every one of them already applied.
pub proof fn lemma_apply_then_nothing_pending(applied: Seq<AppliedView>, ms: Seq<MigrationView>)
    requires
        records_ordered(applied),
        planned(applied, ms) is Ok,
    ensures
        (planned(record_all(applied, planned(applied, ms)->Ok_0.0), ms) matches Ok(again) && again.0.len() == 0
            && again.1.len() == ms.len()),
{
    broadcast use vstd::seq_lib::group_to_multiset_ensures;

    lemma_validated_ordered(ms);
    let o = validated(ms)->Ok_0;
    let pending = plan_of(applied, o)->Ok_0.0;
    lemma_plan_of_pending(applied, o);
    lemma_plan_of_facts(applied, o);
    let after = record_all(applied, pending);
    assert forall|i: int| 0 <= i < o.len() implies (record_of(after, (#[trigger] o[i]).version) matches Some(
        rec,
    ) && rec.checksum == o[i].checksum) by {
        let v = o[i].version;
        lemma_record_all_lookup(applied, pending, v);
        if record_of(applied, v) is None {
            let a = choose|a: int| 0 <= a < pending.len() && pending[a] == o[i];
            assert(pending[a].version == v);
        } else {
            assert forall|a: int| 0 <= a < pending.len() implies (#[trigger] pending[a]).version != v by {
                assert(record_of(applied, pending[a].version) is None);
            }
        }
    }
    lemma_plan_all_applied(after, o, o.len() as int);
    assert(o.take(o.len() as int) =~= o);
    assert(o.len() == ms.len()) by {
        assert(o.to_multiset().len() == ms.to_multiset().len());
    }
}

proof fn lemma_plan_all_applied(applied: Seq<AppliedView>, o: Seq<MigrationView>, n: int)
    requires
        0 <= n <= o.len(),
        forall|i: int| 0 <= i < o.len() ==> (record_of(applied, (#[trigger] o[i]).version) matches Some(rec)
            && rec.checksum == o[i].checksum),
    ensures
        (plan_of(applied, o.take(n)) matches Ok(p) && p.0.len() == 0 && p.1.len() == n),
    decreases n,
{
    if n > 0 {
        lemma_plan_all_applied(applied, o, n - 1);
        assert(o.take(n).drop_last() =~= o.take(n - 1));
        assert(o.take(n).last() == o[n - 1]);
    } else {
        assert(o.take(0) =~= Seq::<MigrationView>::empty());
    }
}

/// A rollback after which the migration is applied again restores its record: rolling back
/// removes exactly the record of that version and keeps the others ordered.
pub proof fn lemma_rollback_removes_only_version(s: Seq<AppliedView>, k: int)
    requires
        records_ordered(s),
        0 <= k < s.len(),
    ensures
        without_version(s, s[k].version) == s.remove(k),
        records_ordered(without_version(s, s[k].version)),
        record_of(without_version(s, s[k].version), s[k].version) is None,
{
    lemma_remove_record(s, k);
    let w = s.remove(k);
    assert forall|i: int| 0 <= i < w.len() implies (#[trigger] w[i]).version != s[k].version by {
        if i < k {
            assert(w[i] == s[i]);
        } else {
            assert(w[i] == s[i + 1]);
        }
    }
}
} // verus!
