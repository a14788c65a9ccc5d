//! Role-based access control: roles grant permissions and inherit other roles.
//!
//! A role may only inherit roles that exist already, so inheritance never loops. A check
//! walks the roles depth first, parents in name order, and refuses to visit any role twice
//! in one check.
use vstd::prelude::*;
use crate::media_project_templates::{insert_name, sort_names, sorted_names};
use crate::text::{contains_str, is_plain_name, is_token_text, owned, plain_name, seq_lt, str_eq, token_text, views};

verus! {

#[derive(Debug, Clone, Copy, PartialEq, Eq, Structural)]
pub enum RbacError {
    InvalidName,
    DuplicateRole,
    MissingRole,
    Cycle,
    InvalidPermission,
}

/// A role; its permissions and parents are distinct and in string order.
#[derive(Debug, Clone, PartialEq, Eq)]
pub struct Role {
    pub name: String,
    pub permissions: Vec<String>,
    pub inherits: Vec<String>,
}

pub struct RoleView {
    pub name: Seq<char>,
    pub permissions: Seq<Seq<char>>,
    pub inherits: Seq<Seq<char>>,
}

impl View for Role {
    type V = RoleView;

    open spec fn view(&self) -> RoleView {
        RoleView {
            name: self.name@,
            permissions: views(self.permissions@),
            inherits: views(self.inherits@),
        }
    }
}

pub const MAX_ROLE_BYTES: usize = 64;

pub const MAX_PERMISSION_BYTES: usize = 128;

pub open spec fn valid_role_name(s: Seq<char>) -> bool {
    plain_name(s, MAX_ROLE_BYTES as nat)
}

pub open spec fn valid_permission(s: Seq<char>) -> bool {
    token_text(s, MAX_PERMISSION_BYTES as nat)
}

pub open spec fn role_names(rs: Seq<RoleView>) -> Seq<Seq<char>> {
    rs.map_values(|r: RoleView| r.name)
}

/// The role `name`, if it exists.
pub open spec fn role_of(rs: Seq<RoleView>, name: Seq<char>) -> Option<RoleView> {
    if role_names(rs).contains(name) {
        Some(rs[role_names(rs).index_of(name)])
    } else {
        None
    }
}

/// Why `add_role` refuses a role, if it does.
pub open spec fn add_refusal(
    rs: Seq<RoleView>,
    name: Seq<char>,
    permissions: Seq<Seq<char>>,
    inherits: Seq<Seq<char>>,
) -> Option<RbacError> {
    if !valid_role_name(name) {
        Some(RbacError::InvalidName)
    } else if role_of(rs, name) is Some {
        Some(RbacError::DuplicateRole)
    } else if exists|i: int| 0 <= i < permissions.len() && !valid_permission(#[trigger] permissions[i]) {
        Some(RbacError::InvalidPermission)
    } else if exists|i: int| 0 <= i < inherits.len() && !valid_role_name(#[trigger] inherits[i]) {
        Some(RbacError::InvalidName)
    } else if inherits.contains(name) {
        Some(RbacError::Cycle)
    } else if exists|i: int| 0 <= i < inherits.len() && role_of(rs, #[trigger] inherits[i]) is None {
        Some(RbacError::MissingRole)
    } else {
        None
    }
}

/// Whether a role grants `permission` itself, or grants everything (`*`).
pub open spec fn grants(r: RoleView, permission: Seq<char>) -> bool {
    r.permissions.contains(permission) || r.permissions.contains(seq!['*'])
}

/// Visiting role `name` with the roles `seen` so far in this check: the answer and the
/// roles seen afterwards. `fuel` bounds the depth; one more than the number of roles is
/// always enough, as every level visits a new role.
pub open spec fn visit(
    rs: Seq<RoleView>,
    name: Seq<char>,
    permission: Seq<char>,
    seen: Seq<Seq<char>>,
    fuel: nat,
) -> (Result<bool, RbacError>, Seq<Seq<char>>)
    decreases fuel, 0nat,
{
    if fuel == 0 || seen.contains(name) {
        (Err(RbacError::Cycle), seen)
    } else {
        let s = seen.push(name);
        match role_of(rs, name) {
            None => (Err(RbacError::MissingRole), s),
            Some(r) => if grants(r, permission) {
                (Ok(true), s)
            } else {
                visit_all(rs, r.inherits, permission, s, (fuel - 1) as nat)
            },
        }
    }
}

/// Visiting `names` in turn until one grants the permission or fails.
pub open spec fn visit_all(
    rs: Seq<RoleView>,
    names: Seq<Seq<char>>,
    permission: Seq<char>,
    seen: Seq<Seq<char>>,
    fuel: nat,
) -> (Result<bool, RbacError>, Seq<Seq<char>>)
    decreases fuel, names.len() + 1,
{
    if names.len() == 0 {
        (Ok(false), seen)
    } else {
        let (res, s) = visit(rs, names[0], permission, seen, fuel);
        match res {
            Ok(false) => visit_all(rs, names.drop_first(), permission, s, fuel),
            _ => (res, s),
        }
    }
}

pub open spec fn roles_wf(rs: Seq<RoleView>) -> bool {
    forall|i: int, j: int|
        0 <= i < rs.len() && 0 <= j < rs.len() && i != j ==> #[trigger] rs[i].name != #[trigger] rs[j].name
}

/// Every role inherits only roles added before it, so inheritance has no cycle.
pub open spec fn inherits_earlier(rs: Seq<RoleView>) -> bool {
    forall|i: int, j: int|
        0 <= i < rs.len() && 0 <= j < rs[i].inherits.len() ==> #[trigger] added_before(rs, i, j)
}

/// Parent `j` of role `i` is a role added before it.
pub open spec fn added_before(rs: Seq<RoleView>, i: int, j: int) -> bool {
    exists|k: int| 0 <= k < i && rs[k].name == rs[i].inherits[j]
}

proof fn lemma_insert_name_members(s: Seq<Seq<char>>, x: Seq<char>)
    ensures
        forall|y: Seq<char>| #[trigger] insert_name(s, x).contains(y) ==> s.contains(y) || y == x,
    decreases s.len(),
{
    if s.len() > 0 && !seq_lt(s.last(), x) && s.last() != x {
        lemma_insert_name_members(s.drop_last(), x);
        assert forall|y: Seq<char>| #[trigger] insert_name(s, x).contains(y) implies s.contains(y) || y == x by {
            let t = insert_name(s.drop_last(), x);
            if y != s.last() {
                assert(t.push(s.last()).contains(y));
                let i = choose|i: int| 0 <= i < t.len() + 1 && t.push(s.last())[i] == y;
                assert(t.contains(y));
                if s.drop_last().contains(y) {
                    let j = choose|j: int| 0 <= j < s.drop_last().len() && s.drop_last()[j] == y;
                    assert(s[j] == y);
                }
            } else {
                assert(s[s.len() - 1] == y);
            }
        }
    } else if s.len() > 0 && s.last() == x {
    } else {
        assert forall|y: Seq<char>| #[trigger] insert_name(s, x).contains(y) implies s.contains(y) || y == x by {
            let i = choose|i: int| 0 <= i < s.len() + 1 && s.push(x)[i] == y;
            if i < s.len() {
                assert(s[i] == y);
            }
        }
    }
}

/// Every name that `sorted_names` keeps was given.
pub proof fn lemma_sorted_names_members(v: Seq<Seq<char>>)
    ensures
        forall|y: Seq<char>| #[trigger] sorted_names(v).contains(y) ==> v.contains(y),
    decreases v.len(),
{
    if v.len() > 0 {
        lemma_sorted_names_members(v.drop_last());
        lemma_insert_name_members(sorted_names(v.drop_last()), v.last());
        assert forall|y: Seq<char>| #[trigger] sorted_names(v).contains(y) implies v.contains(y) by {
            if sorted_names(v.drop_last()).contains(y) {
                assert(v.drop_last().contains(y));
                let j = choose|j: int| 0 <= j < v.drop_last().len() && v.drop_last()[j] == y;
                assert(v[j] == y);
            } else {
                assert(v[v.len() - 1] == y);
            }
        }
    }
}

proof fn lemma_role_at(rs: Seq<RoleView>, i: int)
    requires
        roles_wf(rs),
        0 <= i < rs.len(),
    ensures
        role_of(rs, rs[i].name) == Some(rs[i]),
{
    let ids = role_names(rs);
    assert(ids[i] == rs[i].name);
    let k = ids.index_of(rs[i].name);
    assert(ids[k] == rs[k].name);
}

proof fn lemma_role_absent(rs: Seq<RoleView>, name: Seq<char>)
    requires
        forall|i: int| 0 <= i < rs.len() ==> (#[trigger] rs[i]).name != name,
    ensures
        role_of(rs, name) is None,
{
    let ids = role_names(rs);
    if ids.contains(name) {
        let k = ids.index_of(name);
        assert(ids[k] == rs[k].name);
    }
}

fn all_permissions_valid(v: &Vec<String>) -> (r: bool)
    ensures
        r == forall|j: int| 0 <= j < v@.len() ==> valid_permission(#[trigger] views(v@)[j]),
{
    let mut i: usize = 0;
    while i < v.len()
        invariant
            i <= v@.len(),
            forall|j: int| 0 <= j < i ==> valid_permission(#[trigger] views(v@)[j]),
        decreases v@.len() - i,
    {
        if !is_token_text(v[i].as_str(), MAX_PERMISSION_BYTES) {
            assert(!valid_permission(views(v@)[i as int]));
            return false;
        }
        i = i + 1;
    }
    true
}

fn all_role_names_valid(v: &Vec<String>) -> (r: bool)
    ensures
        r == forall|j: int| 0 <= j < v@.len() ==> valid_role_name(#[trigger] views(v@)[j]),
{
    let mut i: usize = 0;
    while i < v.len()
        invariant
            i <= v@.len(),
            forall|j: int| 0 <= j < i ==> valid_role_name(#[trigger] views(v@)[j]),
        decreases v@.len() - i,
    {
        if !is_plain_name(v[i].as_str(), MAX_ROLE_BYTES) {
            assert(!valid_role_name(views(v@)[i as int]));
            return false;
        }
        i = i + 1;
    }
    true
}

/// The roles of a policy.
#[derive(Debug, Clone)]
pub struct RbacPolicy {
    roles: Vec<Role>,
}

impl RbacPolicy {
    /// The roles, in the order they were added.
    pub closed spec fn roles(&self) -> Seq<RoleView> {
        self.roles@.map_values(|r: Role| r@)
    }

    pub closed spec fn wf(&self) -> bool {
        roles_wf(self.roles()) && inherits_earlier(self.roles())
    }

    pub fn new() -> (p: RbacPolicy)
        ensures
            p.wf(),
            p.roles() == Seq::<RoleView>::empty(),
    {
        let p = RbacPolicy { roles: Vec::new() };
        assert(p.roles() =~= Seq::<RoleView>::empty());
        p
    }

    /// Inheritance never loops: each role inherits only roles added before it.
    pub proof fn lemma_no_inheritance_cycle(&self)
        requires
            self.wf(),
        ensures
            inherits_earlier(self.roles()),
    {
    }

    fn find(&self, name: &str) -> (r: Option<usize>)
        requires
            self.wf(),
        ensures
            r matches Some(i) ==> i < self.roles().len() && self.roles()[i as int].name == name@
                && role_of(self.roles(), name@) == Some(self.roles()[i as int]),
            r is None ==> role_of(self.roles(), name@) is None,
    {
        let mut i: usize = 0;
        while i < self.roles.len()
            invariant
                self.wf(),
                i <= self.roles@.len(),
                forall|j: int| 0 <= j < i ==> (#[trigger] self.roles()[j]).name != name@,
            decreases self.roles@.len() - i,
        {
            if str_eq(self.roles[i].name.as_str(), name) {
                proof {
                    lemma_role_at(self.roles(), i as int);
                }
                return Some(i);
            }
            i = i + 1;
        }
        proof {
            lemma_role_absent(self.roles(), name@);
        }
        None
    }

    /// Adds role `name` granting `permissions` and inheriting the existing roles `inherits`.
    pub fn add_role(&mut self, name: &str, permissions: Vec<String>, inherits: Vec<String>) -> (r:
        Result<(), RbacError>)
        requires
            old(self).wf(),
        ensures
            final(self).wf(),
            match add_refusal(old(self).roles(), name@, views(permissions@), views(inherits@)) {
                Some(e) => r == Err::<(), _>(e) && final(self).roles() == old(self).roles(),
                None => r is Ok && final(self).roles() == old(self).roles().push(
                    RoleView {
                        name: name@,
                        permissions: sorted_names(views(permissions@)),
                        inherits: sorted_names(views(inherits@)),
                    },
                ),
            },
    {
        if !is_plain_name(name, MAX_ROLE_BYTES) {
            return Err(RbacError::InvalidName);
        }
        if self.find(name).is_some() {
            return Err(RbacError::DuplicateRole);
        }
        if !all_permissions_valid(&permissions) {
            return Err(RbacError::InvalidPermission);
        }
        if !all_role_names_valid(&inherits) {
            return Err(RbacError::InvalidName);
        }
        if contains_str(&inherits, name) {
            return Err(RbacError::Cycle);
        }
        if !self.all_known(&inherits) {
            return Err(RbacError::MissingRole);
        }
        let role = Role {
            name: owned(name),
            permissions: sort_names(&permissions),
            inherits: sort_names(&inherits),
        };
        let ghost before = self.roles();
        self.roles.push(role);
        proof {
            let after = self.roles();
            assert(after =~= before.push(role@));
            lemma_sorted_names_members(views(inherits@));
            assert(inherits_earlier(before));
            assert forall|i: int, j: int|
                0 <= i < after.len() && 0 <= j < after[i].inherits.len() implies #[trigger] added_before(
                after,
                i,
                j,
            ) by {
                if i < before.len() {
                    assert(after[i] == before[i]);
                    assert(0 <= j < before[i].inherits.len());
                    assert(added_before(before, i, j));
                    let y = before[i].inherits[j];
                    let k = choose|k: int| 0 <= k < i && before[k].name == y;
                    assert(after[k] == before[k]);
                } else {
                    let y = after[i].inherits[j];
                    assert(sorted_names(views(inherits@)).contains(y));
                    assert(views(inherits@).contains(y));
                    let q = choose|q: int| 0 <= q < views(inherits@).len() && views(inherits@)[q] == y;
                    assert(role_of(before, views(inherits@)[q]) is Some);
                    let k = role_names(before).index_of(y);
                    assert(role_names(before)[k] == before[k].name);
                    assert(after[k] == before[k]);
                }
            }
            assert forall|a: int, c: int|
                0 <= a < after.len() && 0 <= c < after.len() && a != c implies #[trigger] after[a].name
                != #[trigger] after[c].name by {
                if a < before.len() {
                    lemma_role_at(before, a);
                }
                if c < before.len() {
                    lemma_role_at(before, c);
                }
            }
            assert(roles_wf(after));
            assert(inherits_earlier(after));
        }
        Ok(())
    }

    fn all_known(&self, v: &Vec<String>) -> (r: bool)
        requires
            self.wf(),
        ensures
            r == forall|j: int| 0 <= j < v@.len() ==> role_of(self.roles(), #[trigger] views(v@)[j]) is Some,
    {
        let mut i: usize = 0;
        while i < v.len()
            invariant
                self.wf(),
                i <= v@.len(),
                forall|j: int| 0 <= j < i ==> role_of(self.roles(), #[trigger] views(v@)[j]) is Some,
            decreases v@.len() - i,
        {
            if self.find(v[i].as_str()).is_none() {
                assert(role_of(self.roles(), views(v@)[i as int]) is None);
                return false;
            }
            i = i + 1;
        }
        true
    }

    fn has(&self, name: &str, permission: &str, seen: &mut Vec<String>, fuel: usize) -> (r: Result<
        bool,
        RbacError,
    >)
        requires
            self.wf(),
        ensures
            (r, views(final(seen)@)) == visit(
                self.roles(),
                name@,
                permission@,
                views(old(seen)@),
                fuel as nat,
            ),
        decreases fuel,
    {
        if fuel == 0 || contains_str(seen, name) {
            return Err(RbacError::Cycle);
        }
        let ghost s0 = views(seen@);
        seen.push(owned(name));
        proof {
            assert(views(seen@) =~= s0.push(name@));
        }
        let i = match self.find(name) {
            None => {
                return Err(RbacError::MissingRole);
            },
            Some(i) => i,
        };
        let role = &self.roles[i];
        if contains_str(&role.permissions, permission) || contains_str(&role.permissions, "*") {
            proof {
                reveal_strlit("*");
                assert("*"@ =~= seq!['*']);
            }
            return Ok(true);
        }
        proof {
            reveal_strlit("*");
            assert("*"@ =~= seq!['*']);
        }
        let ghost parents = views(role.inherits@);
        let ghost start = views(seen@);
        proof {
            assert(role@ == self.roles()[i as int]);
            assert(parents.skip(0) =~= parents);
        }
        let mut k: usize = 0;
        while k < role.inherits.len()
            invariant
                self.wf(),
                0 < fuel,
                s0 == views(old(seen)@),
                parents == views(role.inherits@),
                k <= parents.len(),
                visit(self.roles(), name@, permission@, s0, fuel as nat) == visit_all(
                    self.roles(),
                    parents,
                    permission@,
                    start,
                    (fuel - 1) as nat,
                ),
                visit_all(self.roles(), parents, permission@, start, (fuel - 1) as nat) == visit_all(
                    self.roles(),
                    parents.skip(k as int),
                    permission@,
                    views(seen@),
                    (fuel - 1) as nat,
                ),
            decreases parents.len() - k,
        {
            let ghost rest = parents.skip(k as int);
            let ghost before = views(seen@);
            let res = self.has(role.inherits[k].as_str(), permission, seen, fuel - 1);
            proof {
                assert(rest.len() > 0);
                assert(rest[0] == parents[k as int]);
                assert(rest.drop_first() =~= parents.skip(k + 1));
            }
            match res {
                Ok(false) => {},
                _ => {
                    return res;
                },
            }
            k = k + 1;
        }
        proof {
            assert(parents.skip(k as int) =~= Seq::<Seq<char>>::empty());
        }
        Ok(false)
    }

    /// Whether any of `roles`, checked in turn, grants `permission` itself or through the
    /// roles it inherits.
    pub fn allows(&self, roles: Vec<String>, permission: &str) -> (r: Result<bool, RbacError>)
        requires
            self.wf(),
            self.roles().len() < usize::MAX,
        ensures
            !valid_permission(permission@) ==> r == Err::<bool, _>(RbacError::InvalidPermission),
            valid_permission(permission@) ==> r == visit_all(
                self.roles(),
                views(roles@),
                permission@,
                Seq::empty(),
                (self.roles().len() + 1) as nat,
            ).0,
    {
        if !is_token_text(permission, MAX_PERMISSION_BYTES) {
            return Err(RbacError::InvalidPermission);
        }
        let fuel = self.roles.len() + 1;
        let ghost names = views(roles@);
        let mut seen: Vec<String> = Vec::new();
        assert(views(seen@) =~= Seq::<Seq<char>>::empty());
        let mut k: usize = 0;
        assert(names.skip(0) =~= names);
        while k < roles.len()
            invariant
                self.wf(),
                valid_permission(permission@),
                fuel == self.roles().len() + 1,
                names == views(roles@),
                k <= names.len(),
                visit_all(self.roles(), names, permission@, Seq::empty(), fuel as nat) == visit_all(
                    self.roles(),
                    names.skip(k as int),
                    permission@,
                    views(seen@),
                    fuel as nat,
                ),
            decreases names.len() - k,
        {
            let ghost rest = names.skip(k as int);
            let res = self.has(roles[k].as_str(), permission, &mut seen, fuel);
            proof {
                assert(rest.len() > 0);
                assert(rest[0] == names[k as int]);
                assert(rest.drop_first() =~= names.skip(k + 1));
            }
            match res {
                Ok(false) => {},
                _ => {
                    return res;
                },
            }
            k = k + 1;
        }
        proof {
            assert(names.skip(k as int) =~= Seq::<Seq<char>>::empty());
            assert(names.skip(0) =~= names);
        }
        Ok(false)
    }
}

/// The roles seen during a check are distinct roles of the policy, with enough depth left
/// to visit every other role once.
pub open spec fn visit_ready(rs: Seq<RoleView>, seen: Seq<Seq<char>>, fuel: nat) -> bool {
    &&& roles_wf(rs)
    &&& seen.no_duplicates()
    &&& forall|x: Seq<char>| #[trigger] seen.contains(x) ==> role_of(rs, x) is Some
    &&& fuel + seen.len() >= rs.len() + 1
}

proof fn lemma_seen_bounded(rs: Seq<RoleView>, seen: Seq<Seq<char>>)
    requires
        seen.no_duplicates(),
        forall|x: Seq<char>| #[trigger] seen.contains(x) ==> role_of(rs, x) is Some,
    ensures
        seen.len() <= rs.len(),
{
    seen.unique_seq_to_set();
    role_names(rs).lemma_cardinality_of_set();
    assert(seen.to_set().subset_of(role_names(rs).to_set())) by {
        assert forall|x: Seq<char>| seen.to_set().contains(x) implies role_names(rs).to_set().contains(x) by {
            assert(seen.contains(x));
            assert(role_of(rs, x) is Some);
        }
    }
    vstd::set_lib::lemma_len_subset(seen.to_set(), role_names(rs).to_set());
}

/// Checking a role with depth to spare gives the same answer as with one more level, and a
/// check that finds nothing leaves distinct roles of the policy seen.
pub proof fn lemma_visit_fuel(
    rs: Seq<RoleView>,
    name: Seq<char>,
    permission: Seq<char>,
    seen: Seq<Seq<char>>,
    fuel: nat,
)
    requires
        visit_ready(rs, seen, fuel),
    ensures
        visit(rs, name, permission, seen, fuel) == visit(rs, name, permission, seen, fuel + 1),
        visit(rs, name, permission, seen, fuel).0 == Ok::<bool, RbacError>(false) ==> visit_ready(
            rs,
            visit(rs, name, permission, seen, fuel).1,
            fuel,
        ),
    decreases fuel, 0nat,
{
    lemma_seen_bounded(rs, seen);
    if !seen.contains(name) {
        let s = seen.push(name);
        if let Some(r) = role_of(rs, name) {
            if !grants(r, permission) {
                assert(visit_ready(rs, s, (fuel - 1) as nat)) by {
                    assert forall|x: Seq<char>| #[trigger] s.contains(x) implies role_of(rs, x) is Some by {
                        if x == name {
                            assert(role_of(rs, name) == Some(r));
                        } else {
                            let i = choose|i: int| 0 <= i < s.len() && s[i] == x;
                            assert(seen[i] == x);
                            assert(seen.contains(x));
                        }
                    }
                    assert forall|a: int, b: int| 0 <= a < s.len() && 0 <= b < s.len() && a != b implies s[a]
                        != s[b] by {
                        if a == seen.len() {
                            assert(seen.contains(s[b]) ==> s[b] != name);
                        } else if b == seen.len() {
                            assert(seen.contains(s[a]) ==> s[a] != name);
                        }
                    }
                }
                lemma_visit_all_fuel(rs, r.inherits, permission, s, (fuel - 1) as nat);
                let out = visit_all(rs, r.inherits, permission, s, (fuel - 1) as nat);
                if out.0 == Ok::<bool, RbacError>(false) {
                    assert(visit_ready(rs, out.1, fuel));
                }
            }
        }
    }
}

pub proof fn lemma_visit_all_fuel(
    rs: Seq<RoleView>,
    names: Seq<Seq<char>>,
    permission: Seq<char>,
    seen: Seq<Seq<char>>,
    fuel: nat,
)
    requires
        visit_ready(rs, seen, fuel),
    ensures
        visit_all(rs, names, permission, seen, fuel) == visit_all(rs, names, permission, seen, fuel + 1),
        visit_all(rs, names, permission, seen, fuel).0 == Ok::<bool, RbacError>(false) ==> visit_ready(
            rs,
            visit_all(rs, names, permission, seen, fuel).1,
            fuel,
        ),
    decreases fuel, names.len() + 1,
{
    if names.len() > 0 {
        lemma_visit_fuel(rs, names[0], permission, seen, fuel);
        let (res, s) = visit(rs, names[0], permission, seen, fuel);
        if res == Ok::<bool, RbacError>(false) {
            lemma_visit_all_fuel(rs, names.drop_first(), permission, s, fuel);
        }
    }
}

/// The depth bound of a check never decides its answer: with one more level than there
/// are roles, any further depth gives the same answer.
pub proof fn lemma_check_depth_suffices(
    rs: Seq<RoleView>,
    names: Seq<Seq<char>>,
    permission: Seq<char>,
    fuel: nat,
)
    requires
        roles_wf(rs),
        fuel >= rs.len() + 1,
    ensures
        visit_all(rs, names, permission, Seq::empty(), fuel) == visit_all(
            rs,
            names,
            permission,
            Seq::empty(),
            rs.len() + 1,
        ),
    decreases fuel,
{
    if fuel > rs.len() + 1 {
        lemma_check_depth_suffices(rs, names, permission, (fuel - 1) as nat);
        lemma_visit_all_fuel(rs, names, permission, Seq::empty(), (fuel - 1) as nat);
    }
}

impl Default for RbacPolicy {
    fn default() -> (p: Self)
        ensures
            p.wf(),
            p.roles() == Seq::<RoleView>::empty(),
    {
        RbacPolicy::new()
    }
}

} // verus!
