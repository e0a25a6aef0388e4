//! Guild roles: immunity, the default member role, and the administrator permission.
use vstd::prelude::*;
use crate::member::{MemberModel, MemberModelView};
use crate::text::{contains_str, find_str};

verus! {

/// A guild role as the rules read it: its id and its name.
pub struct Role {
    pub id: u64,
    pub name: String,
}

/// The name of the role that protects a member from removal.
pub open spec fn immunity_name() -> Seq<char> {
    "Imunidade"@
}

/// The name of the role that every new member gets.
pub open spec fn member_role_name() -> Seq<char> {
    "Membro"@
}

/// The position of the first role of `roles` named `name`; `roles.len()` where there is none.
pub open spec fn first_role_named(roles: Seq<Role>, name: Seq<char>) -> nat
    decreases roles.len(),
{
    if roles.len() == 0 {
        0
    } else {
        let r = first_role_named(roles.drop_last(), name);
        if r < roles.len() - 1 {
            r
        } else if roles.last().name@ == name {
            (roles.len() - 1) as nat
        } else {
            roles.len()
        }
    }
}

proof fn lemma_first_role_stable(s: Seq<Role>, name: Seq<char>, m: int)
    requires
        0 <= m <= s.len(),
        first_role_named(s.take(m), name) < m,
    ensures
        first_role_named(s, name) == first_role_named(s.take(m), name),
    decreases s.len() - m,
{
    if s.len() == m {
        assert(s.take(m) =~= s);
    } else {
        let t = s.drop_last();
        assert(t.take(m) =~= s.take(m));
        lemma_first_role_stable(t, name, m);
    }
}

proof fn lemma_first_role_none(s: Seq<Role>, name: Seq<char>)
    requires
        first_role_named(s, name) == s.len(),
    ensures
        forall|i: int| 0 <= i < s.len() ==> s[i].name@ != name,
    decreases s.len(),
{
    if s.len() > 0 {
        let t = s.drop_last();
        lemma_first_role_bound(t, name);
        lemma_first_role_none(t, name);
        assert forall|i: int| 0 <= i < s.len() implies s[i].name@ != name by {
            if i < t.len() {
                assert(s[i] == t[i]);
            }
        }
    }
}

proof fn lemma_first_role_found(s: Seq<Role>, name: Seq<char>)
    requires
        first_role_named(s, name) < s.len(),
    ensures
        s[first_role_named(s, name) as int].name@ == name,
    decreases s.len(),
{
    let t = s.drop_last();
    if first_role_named(t, name) < t.len() {
        lemma_first_role_found(t, name);
    }
}

proof fn lemma_first_role_bound(s: Seq<Role>, name: Seq<char>)
    ensures
        first_role_named(s, name) <= s.len(),
    decreases s.len(),
{
    if s.len() > 0 {
        lemma_first_role_bound(s.drop_last(), name);
    }
}

fn first_named_role(roles: &Vec<Role>, name: &String) -> (k: usize)
    ensures
        k == first_role_named(roles@, name@),
        k <= roles.len(),
{
    let mut i: usize = 0;
    while i < roles.len()
        invariant
            i <= roles.len(),
            first_role_named(roles@.take(i as int), name@) == i,
        decreases roles.len() - i,
    {
        proof {
            assert(roles@.take(i + 1).drop_last() =~= roles@.take(i as int));
        }
        if roles[i].name == *name {
            proof {
                lemma_first_role_stable(roles@, name@, i + 1);
            }
            return i;
        }
        i = i + 1;
    }
    assert(roles@.take(roles.len() as int) =~= roles@);
    roles.len()
}

/// A member is immune when the guild has a role named "Imunidade" and the member holds the
/// first such role.
pub open spec fn immune(m: MemberModelView, roles_guild: Seq<Role>) -> bool {
    let k = first_role_named(roles_guild, immunity_name());
    k < roles_guild.len() && m.member.roles.contains(roles_guild[k as int].id)
}

/// Whether the member is protected from removal by the immunity role.
pub fn is_immune(member_model: &MemberModel, roles_guild: &Vec<Role>) -> (b: bool)
    ensures
        b == immune(member_model@, roles_guild@),
{
    let name = "Imunidade".to_owned();
    let k = first_named_role(roles_guild, &name);
    if k >= roles_guild.len() {
        return false;
    }
    let id = roles_guild[k].id;
    let roles = &member_model.member().roles;
    let mut i: usize = 0;
    while i < roles.len()
        invariant
            i <= roles.len(),
            roles@ == member_model@.member.roles,
            forall|j: int| 0 <= j < i ==> roles@[j] != id,
            k == first_role_named(roles_guild@, immunity_name()),
            k < roles_guild.len(),
            id == roles_guild@[k as int].id,
        decreases roles.len() - i,
    {
        if roles[i] == id {
            assert(roles@[i as int] == id);
            return true;
        }
        i = i + 1;
    }
    false
}

proof fn lemma_first_role_prefix(s: Seq<Role>, name: Seq<char>, k: int)
    requires
        0 <= k <= s.len(),
        forall|i: int| 0 <= i < k ==> (#[trigger] s[i]).name@ != name,
    ensures
        first_role_named(s.take(k), name) == k,
    decreases k,
{
    if k > 0 {
        lemma_first_role_prefix(s, name, k - 1);
        assert(s.take(k).drop_last() =~= s.take(k - 1));
    }
}

/// The immunity role is the first role of the guild named "Imunidade": where the role at `k`
/// has that name and none before it does, a member is immune exactly when it holds that role,
/// at whatever place among its roles.
pub proof fn lemma_immune_iff_holds(m: MemberModelView, roles_guild: Seq<Role>, k: int)
    requires
        0 <= k < roles_guild.len(),
        roles_guild[k].name@ == immunity_name(),
        forall|i: int| 0 <= i < k ==> (#[trigger] roles_guild[i]).name@ != immunity_name(),
    ensures
        immune(m, roles_guild) <==> exists|j: int|
            0 <= j < m.member.roles.len() && #[trigger] m.member.roles[j] == roles_guild[k].id,
{
    lemma_first_role_prefix(roles_guild, immunity_name(), k);
    assert(roles_guild.take(k + 1).drop_last() =~= roles_guild.take(k));
    lemma_first_role_stable(roles_guild, immunity_name(), k + 1);
}

/// A member holding the guild's immunity role, at any place among its roles, is immune and is
/// never removed; a guild with no role named "Imunidade" protects nobody.
pub proof fn lemma_immunity_protects(m: MemberModelView, roles_guild: Seq<Role>, j: int)
    ensures
        first_role_named(roles_guild, immunity_name()) < roles_guild.len() && 0 <= j < m.member.roles.len()
            && m.member.roles[j] == roles_guild[first_role_named(roles_guild, immunity_name()) as int].id
            ==> immune(m, roles_guild) && !removable(m, roles_guild),
        (forall|i: int| 0 <= i < roles_guild.len() ==> (#[trigger] roles_guild[i]).name@ != immunity_name())
            ==> !immune(m, roles_guild),
{
    lemma_first_role_bound(roles_guild, immunity_name());
    if first_role_named(roles_guild, immunity_name()) < roles_guild.len() {
        lemma_first_role_found(roles_guild, immunity_name());
    }
}

/// A member is removed, once inactive too long, unless it is a bot or immune.
pub open spec fn removable(m: MemberModelView, roles_guild: Seq<Role>) -> bool {
    !m.member.bot && !immune(m, roles_guild)
}

/// Whether the bot removes this inactive member.
pub fn should_kick(member_model: &MemberModel, roles_guild: &Vec<Role>) -> (b: bool)
    ensures
        b == removable(member_model@, roles_guild@),
{
    !member_model.member().bot && !is_immune(member_model, roles_guild)
}

/// Whether the guild already has a role named `name` (the bot creates "Imunidade" otherwise).
pub fn has_role_named(roles: &Vec<Role>, name: &String) -> (b: bool)
    ensures
        b == exists|i: int| 0 <= i < roles.len() && roles@[i].name@ == name@,
{
    let k = first_named_role(roles, name);
    if k < roles.len() {
        proof {
            lemma_first_role_found(roles@, name@);
        }
        true
    } else {
        proof {
            lemma_first_role_none(roles@, name@);
        }
        false
    }
}


/// The first position of `roles` whose name contains "Membro"; `roles.len()` where there is
/// none.
pub open spec fn first_member_role(roles: Seq<Role>) -> nat
    decreases roles.len(),
{
    if roles.len() == 0 {
        0
    } else {
        let r = first_member_role(roles.drop_last());
        if r < roles.len() - 1 {
            r
        } else if contains_str(roles.last().name@, member_role_name()) {
            (roles.len() - 1) as nat
        } else {
            roles.len()
        }
    }
}

proof fn lemma_first_member_role_stable(s: Seq<Role>, m: int)
    requires
        0 <= m <= s.len(),
        first_member_role(s.take(m)) < m,
    ensures
        first_member_role(s) == first_member_role(s.take(m)),
    decreases s.len() - m,
{
    if s.len() == m {
        assert(s.take(m) =~= s);
    } else {
        let t = s.drop_last();
        assert(t.take(m) =~= s.take(m));
        lemma_first_member_role_stable(t, m);
    }
}

/// The role that new members get: the first role whose name contains "Membro"; `None` where
/// the guild has none (the bot creates one then).
pub fn member_role(roles: &Vec<Role>) -> (r: Option<u64>)
    ensures
        r == if first_member_role(roles@) < roles.len() {
            Some(roles@[first_member_role(roles@) as int].id)
        } else {
            None::<u64>
        },
{
    let wanted = "Membro".to_owned();
    let mut i: usize = 0;
    while i < roles.len()
        invariant
            i <= roles.len(),
            wanted@ == member_role_name(),
            first_member_role(roles@.take(i as int)) == i,
        decreases roles.len() - i,
    {
        proof {
            assert(roles@.take(i + 1).drop_last() =~= roles@.take(i as int));
        }
        if find_str(roles[i].name.as_str(), wanted.as_str()) {
            proof {
                lemma_first_member_role_stable(roles@, i + 1);
            }
            return Some(roles[i].id);
        }
        i = i + 1;
    }
    assert(roles@.take(roles.len() as int) =~= roles@);
    None
}

/// The bit of the administrator permission (`Permissions::ADMINISTRATOR`).
pub const ADMINISTRATOR: u64 = 8;

/// Whether a member with these permission bits may use the moderation commands.
pub fn has_administrator(permissions: u64) -> (b: bool)
    ensures
        b == (permissions & ADMINISTRATOR == ADMINISTRATOR),
{
    permissions & ADMINISTRATOR == ADMINISTRATOR
}

} // verus!
