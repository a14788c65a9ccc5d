//! Scoped byte/file quota accounting for media uploads and generated outputs.
//!
//! A reservation holds bytes and files against a scope until it is committed (the
//! amounts become used) or released (they are given back).
use vstd::prelude::*;
use crate::text::{is_plain_name, owned, plain_name, str_eq};

verus! {

#[derive(Debug, Clone, Copy, PartialEq, Eq, Structural)]
pub enum QuotaError {
    InvalidScope,
    ByteLimit,
    FileLimit,
    Overflow,
    ReservationClosed,
}

#[derive(Debug, Clone, Copy, PartialEq, Eq, Structural)]
pub struct QuotaLimit {
    pub max_bytes: u64,
    pub max_files: u64,
}

#[derive(Debug, Clone, Copy, PartialEq, Eq, Structural, Default)]
pub struct QuotaUsage {
    pub used_bytes: u64,
    pub used_files: u64,
    pub reserved_bytes: u64,
    pub reserved_files: u64,
}

/// Largest scope name, in bytes.
pub const MAX_SCOPE_BYTES: usize = 128;

pub open spec fn saturating_sum(a: u64, b: u64) -> u64 {
    if a + b > u64::MAX {
        u64::MAX
    } else {
        (a + b) as u64
    }
}

pub open spec fn saturating_diff(a: u64, b: u64) -> u64 {
    if a < b {
        0
    } else {
        (a - b) as u64
    }
}

pub open spec fn zero_usage() -> QuotaUsage {
    QuotaUsage { used_bytes: 0, used_files: 0, reserved_bytes: 0, reserved_files: 0 }
}

pub open spec fn total_bytes_of(u: QuotaUsage) -> u64 {
    saturating_sum(u.used_bytes, u.reserved_bytes)
}

pub open spec fn total_files_of(u: QuotaUsage) -> u64 {
    saturating_sum(u.used_files, u.reserved_files)
}

/// The usage after `bytes` and `files` are reserved.
pub open spec fn reserved_usage(u: QuotaUsage, bytes: u64, files: u64) -> QuotaUsage {
    QuotaUsage {
        reserved_bytes: (u.reserved_bytes + bytes) as u64,
        reserved_files: (u.reserved_files + files) as u64,
        ..u
    }
}

/// The usage after a reservation of `bytes` and `files` is given back.
pub open spec fn released_usage(u: QuotaUsage, bytes: u64, files: u64) -> QuotaUsage {
    QuotaUsage {
        reserved_bytes: saturating_diff(u.reserved_bytes, bytes),
        reserved_files: saturating_diff(u.reserved_files, files),
        ..u
    }
}

/// The usage after a reservation of `bytes` and `files` becomes used; `None` when a used
/// counter would overflow.
pub open spec fn committed_usage(u: QuotaUsage, bytes: u64, files: u64) -> Option<QuotaUsage> {
    if u.used_bytes + bytes > u64::MAX || u.used_files + files > u64::MAX {
        None
    } else {
        Some(
            QuotaUsage {
                used_bytes: (u.used_bytes + bytes) as u64,
                used_files: (u.used_files + files) as u64,
                ..released_usage(u, bytes, files)
            },
        )
    }
}

/// What is left of the usage when committing fails on a used counter: the reservation is
/// already given back, and the bytes are counted as used when only the file count overflowed.
pub open spec fn failed_commit_usage(u: QuotaUsage, bytes: u64, files: u64) -> QuotaUsage {
    let r = released_usage(u, bytes, files);
    if u.used_bytes + bytes > u64::MAX {
        r
    } else {
        QuotaUsage { used_bytes: (u.used_bytes + bytes) as u64, ..r }
    }
}

/// Why `reserve` refuses `bytes` and `files` against an account, if it does.
pub open spec fn reserve_refusal(limit: QuotaLimit, u: QuotaUsage, bytes: u64, files: u64) -> Option<
    QuotaError,
> {
    if total_bytes_of(u) + bytes > u64::MAX || total_files_of(u) + files > u64::MAX {
        Some(QuotaError::Overflow)
    } else if total_bytes_of(u) + bytes > limit.max_bytes {
        Some(QuotaError::ByteLimit)
    } else if total_files_of(u) + files > limit.max_files {
        Some(QuotaError::FileLimit)
    } else {
        None
    }
}

impl QuotaUsage {
    /// Used plus reserved bytes, saturating.
    pub fn total_bytes(self) -> (r: u64)
        ensures
            r == total_bytes_of(self),
    {
        self.used_bytes.saturating_add(self.reserved_bytes)
    }

    /// Used plus reserved files, saturating.
    pub fn total_files(self) -> (r: u64)
        ensures
            r == total_files_of(self),
    {
        self.used_files.saturating_add(self.reserved_files)
    }
}

/// One scope's limit and usage.
pub struct Account {
    pub scope: Seq<char>,
    pub limit: QuotaLimit,
    pub usage: QuotaUsage,
}

#[derive(Debug, Clone)]
struct ScopeAccount {
    scope: String,
    limit: QuotaLimit,
    usage: QuotaUsage,
}

spec fn account(a: ScopeAccount) -> Account {
    Account { scope: a.scope@, limit: a.limit, usage: a.usage }
}

pub open spec fn account_scopes(accounts: Seq<Account>) -> Seq<Seq<char>> {
    accounts.map_values(|a: Account| a.scope)
}

/// The account of `scope`, if it is configured.
pub open spec fn account_of(accounts: Seq<Account>, scope: Seq<char>) -> Option<Account> {
    if account_scopes(accounts).contains(scope) {
        Some(accounts[account_scopes(accounts).index_of(scope)])
    } else {
        None
    }
}

pub open spec fn accounts_wf(accounts: Seq<Account>) -> bool {
    forall|i: int, j: int|
        0 <= i < accounts.len() && 0 <= j < accounts.len() && i != j ==> #[trigger] accounts[i].scope
            != #[trigger] accounts[j].scope
}

proof fn lemma_account_at(accounts: Seq<Account>, i: int)
    requires
        accounts_wf(accounts),
        0 <= i < accounts.len(),
    ensures
        account_of(accounts, accounts[i].scope) == Some(accounts[i]),
{
    let ids = account_scopes(accounts);
    assert(ids[i] == accounts[i].scope);
    let k = ids.index_of(accounts[i].scope);
    assert(ids[k] == accounts[k].scope);
}

proof fn lemma_account_absent(accounts: Seq<Account>, scope: Seq<char>)
    requires
        forall|i: int| 0 <= i < accounts.len() ==> (#[trigger] accounts[i]).scope != scope,
    ensures
        account_of(accounts, scope) is None,
{
    let ids = account_scopes(accounts);
    if ids.contains(scope) {
        let k = ids.index_of(scope);
        assert(ids[k] == accounts[k].scope);
    }
}

/// Every scope but `i`'s keeps its account, and `i`'s scope now maps to `after[i]`.
proof fn lemma_accounts_update(before: Seq<Account>, after: Seq<Account>, i: int)
    requires
        accounts_wf(before),
        before.len() == after.len(),
        0 <= i < before.len(),
        after[i].scope == before[i].scope,
        forall|j: int| 0 <= j < before.len() && j != i ==> after[j] == before[j],
    ensures
        accounts_wf(after),
        account_of(after, before[i].scope) == Some(after[i]),
        forall|k: Seq<char>| k != before[i].scope ==> account_of(after, k) == account_of(before, k),
{
    assert forall|x: int, y: int|
        0 <= x < after.len() && 0 <= y < after.len() && x != y implies #[trigger] after[x].scope
        != #[trigger] after[y].scope by {
        assert(after[x].scope == before[x].scope && after[y].scope == before[y].scope);
    }
    lemma_account_at(after, i);
    assert forall|k: Seq<char>| k != before[i].scope implies account_of(after, k) == account_of(
        before,
        k,
    ) by {
        let ids = account_scopes(after);
        if ids.contains(k) {
            let j = ids.index_of(k);
            assert(ids[j] == after[j].scope);
            lemma_account_at(after, j);
            lemma_account_at(before, j);
        } else {
            assert forall|j: int| 0 <= j < before.len() implies (#[trigger] before[j]).scope != k by {
                assert(ids[j] == after[j].scope);
            }
            lemma_account_absent(before, k);
        }
    }
}

/// Per-scope limits and usage.
#[derive(Debug)]
pub struct MediaQuota {
    accounts: Vec<ScopeAccount>,
}

#[derive(Debug, Clone, Copy, PartialEq, Eq, Structural)]
enum ReservationState {
    Open,
    Committed,
    Released,
}

/// Bytes and files held against one scope of a quota.
#[derive(Debug)]
pub struct QuotaReservation {
    scope: String,
    bytes: u64,
    files: u64,
    state: ReservationState,
}

impl QuotaReservation {
    pub closed spec fn scope_view(&self) -> Seq<char> {
        self.scope@
    }

    pub closed spec fn bytes(&self) -> u64 {
        self.bytes
    }

    pub closed spec fn files(&self) -> u64 {
        self.files
    }

    /// Neither committed nor released yet.
    pub closed spec fn is_open(&self) -> bool {
        self.state == ReservationState::Open
    }

    pub closed spec fn is_committed(&self) -> bool {
        self.state == ReservationState::Committed
    }

    /// Turns the reserved amounts into used ones, once.
    pub fn commit(&mut self, quota: &mut MediaQuota) -> (r: Result<(), QuotaError>)
        requires
            old(quota).wf(),
        ensures
            final(quota).wf(),
            final(self).scope_view() == old(self).scope_view(),
            final(self).bytes() == old(self).bytes(),
            final(self).files() == old(self).files(),
            !old(self).is_open() ==> r == Err::<(), _>(QuotaError::ReservationClosed)
                && final(quota).accounts() == old(quota).accounts() && *final(self) == *old(self),
            old(self).is_open() && account_of(old(quota).accounts(), old(self).scope_view()) is None
                ==> r == Err::<(), _>(QuotaError::InvalidScope) && final(quota).accounts() == old(quota).accounts() && *final(self) == *old(self),
            old(self).is_open() && account_of(old(quota).accounts(), old(self).scope_view()) is Some
                ==> ({
                let a = account_of(old(quota).accounts(), old(self).scope_view()).unwrap();
                let c = committed_usage(a.usage, old(self).bytes(), old(self).files());
                &&& account_of(final(quota).accounts(), old(self).scope_view()) == Some(
                    Account {
                        usage: match c {
                            Some(u) => u,
                            None => failed_commit_usage(a.usage, old(self).bytes(), old(self).files()),
                        },
                        ..a
                    },
                )
                &&& forall|k: Seq<char>|
                    k != old(self).scope_view() ==> account_of(final(quota).accounts(), k)
                        == account_of(old(quota).accounts(), k)
                &&& c is Some ==> r is Ok && final(self).is_committed()
                &&& c is None ==> r == Err::<(), _>(QuotaError::Overflow) && final(self).is_open()
            }),
    {
        if self.state != ReservationState::Open {
            return Err(QuotaError::ReservationClosed);
        }
        let i = match quota.find(self.scope.as_str()) {
            None => {
                return Err(QuotaError::InvalidScope);
            },
            Some(i) => i,
        };
        let ghost before = quota.accounts();
        let a = &quota.accounts[i];
        let mut usage = a.usage;
        usage.reserved_bytes = usage.reserved_bytes.saturating_sub(self.bytes);
        usage.reserved_files = usage.reserved_files.saturating_sub(self.files);
        let mut result: Result<(), QuotaError> = Ok(());
        match usage.used_bytes.checked_add(self.bytes) {
            None => {
                result = Err(QuotaError::Overflow);
            },
            Some(b) => {
                usage.used_bytes = b;
                match usage.used_files.checked_add(self.files) {
                    None => {
                        result = Err(QuotaError::Overflow);
                    },
                    Some(f) => {
                        usage.used_files = f;
                    },
                }
            },
        }
        let entry = ScopeAccount { scope: a.scope.clone(), limit: a.limit, usage };
        quota.replace(i, entry);
        proof {
            lemma_accounts_update(before, quota.accounts(), i as int);
        }
        if result.is_ok() {
            self.state = ReservationState::Committed;
        }
        result
    }

    /// Gives the reserved amounts back, once.
    pub fn release(&mut self, quota: &mut MediaQuota) -> (r: Result<(), QuotaError>)
        requires
            old(quota).wf(),
        ensures
            final(quota).wf(),
            final(self).scope_view() == old(self).scope_view(),
            final(self).bytes() == old(self).bytes(),
            final(self).files() == old(self).files(),
            !old(self).is_open() ==> r == Err::<(), _>(QuotaError::ReservationClosed)
                && final(quota).accounts() == old(quota).accounts() && *final(self) == *old(self),
            old(self).is_open() && account_of(old(quota).accounts(), old(self).scope_view()) is None
                ==> r == Err::<(), _>(QuotaError::InvalidScope) && final(quota).accounts() == old(quota).accounts() && *final(self) == *old(self),
            old(self).is_open() && account_of(old(quota).accounts(), old(self).scope_view()) is Some
                ==> ({
                let a = account_of(old(quota).accounts(), old(self).scope_view()).unwrap();
                &&& r is Ok
                &&& !final(self).is_open() && !final(self).is_committed()
                &&& account_of(final(quota).accounts(), old(self).scope_view()) == Some(
                    Account {
                        usage: released_usage(a.usage, old(self).bytes(), old(self).files()),
                        ..a
                    },
                )
                &&& forall|k: Seq<char>|
                    k != old(self).scope_view() ==> account_of(final(quota).accounts(), k)
                        == account_of(old(quota).accounts(), k)
            }),
    {
        if self.state != ReservationState::Open {
            return Err(QuotaError::ReservationClosed);
        }
        let i = match quota.find(self.scope.as_str()) {
            None => {
                return Err(QuotaError::InvalidScope);
            },
            Some(i) => i,
        };
        let ghost before = quota.accounts();
        let a = &quota.accounts[i];
        let mut usage = a.usage;
        usage.reserved_bytes = usage.reserved_bytes.saturating_sub(self.bytes);
        usage.reserved_files = usage.reserved_files.saturating_sub(self.files);
        let entry = ScopeAccount { scope: a.scope.clone(), limit: a.limit, usage };
        quota.replace(i, entry);
        proof {
            lemma_accounts_update(before, quota.accounts(), i as int);
        }
        self.state = ReservationState::Released;
        Ok(())
    }

    /// The scope the reservation holds against.
    pub fn scope(&self) -> (r: &str)
        ensures
            r@ == self.scope_view(),
    {
        self.scope.as_str()
    }
}

impl MediaQuota {
    /// Limits and usage of the configured scopes, in the order they were first configured.
    pub closed spec fn accounts(&self) -> Seq<Account> {
        self.accounts@.map_values(|a: ScopeAccount| account(a))
    }

    pub closed spec fn wf(&self) -> bool {
        accounts_wf(self.accounts())
    }

    /// A quota with no scope configured.
    pub fn new() -> (q: MediaQuota)
        ensures
            q.wf(),
            q.accounts() == Seq::<Account>::empty(),
    {
        let q = MediaQuota { accounts: Vec::new() };
        assert(q.accounts() =~= Seq::<Account>::empty());
        q
    }

    fn find(&self, scope: &str) -> (r: Option<usize>)
        requires
            self.wf(),
        ensures
            r matches Some(i) ==> i < self.accounts().len() && self.accounts()[i as int].scope
                == scope@ && account_of(self.accounts(), scope@) == Some(
                self.accounts()[i as int],
            ),
            r is None ==> account_of(self.accounts(), scope@) is None,
    {
        let mut i: usize = 0;
        while i < self.accounts.len()
            invariant
                self.wf(),
                i <= self.accounts@.len(),
                forall|j: int| 0 <= j < i ==> (#[trigger] self.accounts()[j]).scope != scope@,
            decreases self.accounts@.len() - i,
        {
            if str_eq(self.accounts[i].scope.as_str(), scope) {
                proof {
                    lemma_account_at(self.accounts(), i as int);
                }
                return Some(i);
            }
            i = i + 1;
        }
        proof {
            lemma_account_absent(self.accounts(), scope@);
        }
        None
    }

    fn replace(&mut self, i: usize, entry: ScopeAccount)
        requires
            i < old(self).accounts@.len(),
        ensures
            final(self).accounts@.len() == old(self).accounts@.len(),
            final(self).accounts() == old(self).accounts().update(i as int, account(entry)),
    {
        self.accounts.set(i, entry);
        assert(self.accounts() =~= old(self).accounts().update(i as int, account(entry)));
    }

    /// Sets the limit of `scope` and clears its usage; refused for an invalid scope name.
    pub fn configure(&mut self, scope: &str, limit: QuotaLimit) -> (r: Result<(), QuotaError>)
        requires
            old(self).wf(),
        ensures
            final(self).wf(),
            !plain_name(scope@, MAX_SCOPE_BYTES as nat) ==> r == Err::<(), _>(
                QuotaError::InvalidScope,
            ) && final(self).accounts() == old(self).accounts(),
            plain_name(scope@, MAX_SCOPE_BYTES as nat) ==> r is Ok && account_of(
                final(self).accounts(),
                scope@,
            ) == Some(Account { scope: scope@, limit, usage: zero_usage() }) && forall|
                k: Seq<char>,
            |
                k != scope@ ==> account_of(final(self).accounts(), k) == account_of(
                    old(self).accounts(),
                    k,
                ),
    {
        if !is_plain_name(scope, MAX_SCOPE_BYTES) {
            return Err(QuotaError::InvalidScope);
        }
        let usage = QuotaUsage { used_bytes: 0, used_files: 0, reserved_bytes: 0, reserved_files: 0 };
        let entry = ScopeAccount { scope: owned(scope), limit, usage };
        let ghost before = self.accounts();
        match self.find(scope) {
            Some(i) => {
                self.replace(i, entry);
                proof {
                    lemma_accounts_update(before, self.accounts(), i as int);
                }
            },
            None => {
                self.accounts.push(entry);
                proof {
                    let after = self.accounts();
                    assert(after =~= before.push(account(entry)));
                    assert forall|x: int, y: int|
                        0 <= x < after.len() && 0 <= y < after.len() && x != y implies #[trigger] after[x].scope
                        != #[trigger] after[y].scope by {
                        if x < before.len() && y < before.len() {
                            assert(after[x] == before[x] && after[y] == before[y]);
                        } else if x < before.len() {
                            assert(after[x] == before[x]);
                            lemma_account_at(before, x);
                        } else {
                            assert(after[y] == before[y]);
                            lemma_account_at(before, y);
                        }
                    }
                    lemma_account_at(after, before.len() as int);
                    assert forall|k: Seq<char>| k != scope@ implies account_of(after, k)
                        == account_of(before, k) by {
                        let ids = account_scopes(after);
                        if ids.contains(k) {
                            let j = ids.index_of(k);
                            assert(ids[j] == after[j].scope);
                            lemma_account_at(after, j);
                            lemma_account_at(before, j);
                        } else {
                            assert forall|j: int| 0 <= j < before.len() implies (
                            #[trigger] before[j]).scope != k by {
                                assert(after[j] == before[j]);
                                assert(ids[j] == after[j].scope);
                            }
                            lemma_account_absent(before, k);
                        }
                    }
                }
            },
        }
        Ok(())
    }

    /// The usage of `scope`; refused for an invalid or unconfigured scope.
    pub fn usage(&self, scope: &str) -> (r: Result<QuotaUsage, QuotaError>)
        requires
            self.wf(),
        ensures
            match account_of(self.accounts(), scope@) {
                Some(a) => plain_name(scope@, MAX_SCOPE_BYTES as nat) ==> r == Ok::<
                    QuotaUsage,
                    QuotaError,
                >(a.usage),
                None => r == Err::<QuotaUsage, _>(QuotaError::InvalidScope),
            },
            !plain_name(scope@, MAX_SCOPE_BYTES as nat) ==> r == Err::<QuotaUsage, _>(
                QuotaError::InvalidScope,
            ),
    {
        if !is_plain_name(scope, MAX_SCOPE_BYTES) {
            return Err(QuotaError::InvalidScope);
        }
        match self.find(scope) {
            Some(i) => Ok(self.accounts[i].usage),
            None => Err(QuotaError::InvalidScope),
        }
    }

    /// Holds `bytes` and `files` against `scope` when both are positive and the scope's
    /// used plus reserved amounts stay within its limits.
    pub fn reserve(&mut self, scope: &str, bytes: u64, files: u64) -> (r: Result<
        QuotaReservation,
        QuotaError,
    >)
        requires
            old(self).wf(),
        ensures
            final(self).wf(),
            !plain_name(scope@, MAX_SCOPE_BYTES as nat) ==> r == Err::<QuotaReservation, _>(
                QuotaError::InvalidScope,
            ),
            plain_name(scope@, MAX_SCOPE_BYTES as nat) && (bytes == 0 || files == 0) ==> r
                == Err::<QuotaReservation, _>(QuotaError::Overflow),
            plain_name(scope@, MAX_SCOPE_BYTES as nat) && bytes > 0 && files > 0 && account_of(
                old(self).accounts(),
                scope@,
            ) is None ==> r == Err::<QuotaReservation, _>(QuotaError::InvalidScope),
            r is Err ==> final(self).accounts() == old(self).accounts(),
            r is Ok ==> (account_of(final(self).accounts(), scope@) matches Some(a) && total_bytes_of(a.usage)
                <= a.limit.max_bytes && total_files_of(a.usage) <= a.limit.max_files),
            plain_name(scope@, MAX_SCOPE_BYTES as nat) && bytes > 0 && files > 0 && account_of(
                old(self).accounts(),
                scope@,
            ) is Some ==> ({
                let a = account_of(old(self).accounts(), scope@).unwrap();
                match reserve_refusal(a.limit, a.usage, bytes, files) {
                    Some(e) => r == Err::<QuotaReservation, _>(e),
                    None => r matches Ok(res) && res.scope_view() == scope@ && res.bytes() == bytes
                        && res.files() == files && res.is_open() && account_of(
                        final(self).accounts(),
                        scope@,
                    ) == Some(Account { usage: reserved_usage(a.usage, bytes, files), ..a })
                        && forall|k: Seq<char>|
                        k != scope@ ==> account_of(final(self).accounts(), k) == account_of(
                            old(self).accounts(),
                            k,
                        ),
                }
            }),
    {
        if !is_plain_name(scope, MAX_SCOPE_BYTES) {
            return Err(QuotaError::InvalidScope);
        }
        if bytes == 0 || files == 0 {
            return Err(QuotaError::Overflow);
        }
        let i = match self.find(scope) {
            None => {
                return Err(QuotaError::InvalidScope);
            },
            Some(i) => i,
        };
        let a = &self.accounts[i];
        let usage = a.usage;
        let limit = a.limit;
        let tb = usage.total_bytes();
        let tf = usage.total_files();
        if tb.checked_add(bytes).is_none() {
            return Err(QuotaError::Overflow);
        }
        if tf.checked_add(files).is_none() {
            return Err(QuotaError::Overflow);
        }
        if tb + bytes > limit.max_bytes {
            return Err(QuotaError::ByteLimit);
        }
        if tf + files > limit.max_files {
            return Err(QuotaError::FileLimit);
        }
        let new_usage = QuotaUsage {
            reserved_bytes: usage.reserved_bytes + bytes,
            reserved_files: usage.reserved_files + files,
            ..usage
        };
        let entry = ScopeAccount { scope: a.scope.clone(), limit, usage: new_usage };
        let ghost before = self.accounts();
        self.replace(i, entry);
        proof {
            lemma_accounts_update(before, self.accounts(), i as int);
            lemma_reserve_within_limits(limit, usage, bytes, files);
        }
        Ok(QuotaReservation { scope: owned(scope), bytes, files, state: ReservationState::Open })
    }
}

impl Default for MediaQuota {
    fn default() -> (q: Self)
        ensures
            q.wf(),
            q.accounts() == Seq::<Account>::empty(),
    {
        MediaQuota::new()
    }
}

/// A reservation that `reserve` grants leaves the scope's used plus reserved amounts
/// within its limits.
pub proof fn lemma_reserve_within_limits(limit: QuotaLimit, u: QuotaUsage, bytes: u64, files: u64)
    requires
        reserve_refusal(limit, u, bytes, files) is None,
    ensures
        total_bytes_of(reserved_usage(u, bytes, files)) <= limit.max_bytes,
        total_files_of(reserved_usage(u, bytes, files)) <= limit.max_files,
{
}

/// Releasing a reservation gives back exactly what reserving it took.
pub proof fn lemma_release_undoes_reserve(limit: QuotaLimit, u: QuotaUsage, bytes: u64, files: u64)
    requires
        reserve_refusal(limit, u, bytes, files) is None,
    ensures
        released_usage(reserved_usage(u, bytes, files), bytes, files) == u,
{
}

/// Committing a reservation leaves the reserved amounts as they were before it and adds
/// its amounts to the used ones.
pub proof fn lemma_commit_after_reserve(limit: QuotaLimit, u: QuotaUsage, bytes: u64, files: u64)
    requires
        reserve_refusal(limit, u, bytes, files) is None,
    ensures
        committed_usage(reserved_usage(u, bytes, files), bytes, files) == Some(
            QuotaUsage {
                used_bytes: (u.used_bytes + bytes) as u64,
                used_files: (u.used_files + files) as u64,
                ..u
            },
        ),
{
}

} // verus!
