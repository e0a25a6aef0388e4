//! Guild members as the bot tracks them: activity, silencing, and the table it keeps per guild.
use vstd::prelude::*;
use crate::calendar::{Moment, inactive_too_long, later_of, lemma_date_order, months_diff, now};
use crate::text::{append, bullet_list, decimal, push_bullets, push_decimal};

verus! {

/// A guild member as the rules read it: the user, the guild, the display name, whether the user
/// is a bot, the ids of the member's roles and when the member joined.
pub struct Member {
    pub user_id: u64,
    pub guild_id: u64,
    pub name: String,
    pub bot: bool,
    pub roles: Vec<u64>,
    pub joined_at: Option<Moment>,
}

/// The plain values of a `Member`.
pub struct MemberView {
    pub user_id: u64,
    pub guild_id: u64,
    pub name: Seq<char>,
    pub bot: bool,
    pub roles: Seq<u64>,
    pub joined_at: Option<Moment>,
}

impl View for Member {
    type V = MemberView;

    open spec fn view(&self) -> MemberView {
        MemberView {
            user_id: self.user_id,
            guild_id: self.guild_id,
            name: self.name@,
            bot: self.bot,
            roles: self.roles@,
            joined_at: self.joined_at,
        }
    }
}

/// Whether an optional point in time has the shape of a real one.
pub open spec fn opt_wf(t: Option<Moment>) -> bool {
    match t {
        Some(m) => m.wf(),
        None => true,
    }
}

impl Member {
    /// A copy of the member.
    pub fn duplicate(&self) -> (r: Member)
        ensures
            r@ == self@,
    {
        Member {
            user_id: self.user_id,
            guild_id: self.guild_id,
            name: self.name.clone(),
            bot: self.bot,
            roles: copy_ids(&self.roles),
            joined_at: self.joined_at,
        }
    }
}

fn copy_ids(v: &Vec<u64>) -> (r: Vec<u64>)
    ensures
        r@ == v@,
{
    let mut r: Vec<u64> = Vec::new();
    let mut i: usize = 0;
    while i < v.len()
        invariant
            i <= v.len(),
            r@ == v@.take(i as int),
        decreases v.len() - i,
    {
        r.push(v[i]);
        i = i + 1;
        assert(r@ =~= v@.take(i as int));
    }
    assert(v@.take(v.len() as int) =~= v@);
    r
}

/// The bot's record of a member: the member, whether the member counts as alive (active),
/// when the member was last active, and whether the member is silenced.
pub struct MemberModel {
    member: Member,
    is_alive: bool,
    last_time_active: Option<Moment>,
    is_silenced: bool,
}

/// The plain values of a `MemberModel`.
pub struct MemberModelView {
    pub member: MemberView,
    pub is_alive: bool,
    pub last_time_active: Option<Moment>,
    pub is_silenced: bool,
}

impl View for MemberModel {
    type V = MemberModelView;

    closed spec fn view(&self) -> MemberModelView {
        MemberModelView {
            member: self.member@,
            is_alive: self.is_alive,
            last_time_active: self.last_time_active,
            is_silenced: self.is_silenced,
        }
    }
}

impl MemberModelView {
    /// The user id under which the record is kept.
    pub open spec fn id(self) -> u64 {
        self.member.user_id
    }

    /// Its points in time have the shape of real ones.
    pub open spec fn dates_wf(self) -> bool {
        opt_wf(self.last_time_active) && opt_wf(self.member.joined_at)
    }
}

impl MemberModel {
    /// The record of a member who has just been seen: not yet alive, active now, not silenced.
    pub fn new(member: Member) -> (r: MemberModel)
        ensures
            r@.member == member@,
            !r@.is_alive,
            r@.last_time_active is Some,
            r@.last_time_active.unwrap().wf(),
            !r@.is_silenced,
    {
        MemberModel { member, is_alive: false, last_time_active: Some(now()), is_silenced: false }
    }

    /// A record with the given values.
    pub fn from_parts(
        member: Member,
        is_alive: bool,
        last_time_active: Option<Moment>,
        is_silenced: bool,
    ) -> (r: MemberModel)
        ensures
            r@ == (MemberModelView { member: member@, is_alive, last_time_active, is_silenced }),
    {
        MemberModel { member, is_alive, last_time_active, is_silenced }
    }

    /// Replaces the member.
    pub fn set_member(&mut self, member: Member)
        ensures
            final(self)@ == (MemberModelView { member: member@, ..old(self)@ }),
    {
        self.member = member;
    }

    /// Marks the member alive or not.
    pub fn set_living(&mut self, is_alive: bool)
        ensures
            final(self)@ == (MemberModelView { is_alive, ..old(self)@ }),
    {
        self.is_alive = is_alive;
    }

    /// Sets when the member was last active.
    pub fn set_last_time_active(&mut self, last_time_active: Option<Moment>)
        ensures
            final(self)@ == (MemberModelView { last_time_active, ..old(self)@ }),
    {
        self.last_time_active = last_time_active;
    }

    /// Silences the member or lifts it.
    pub fn set_silenced(&mut self, is_silenced: bool)
        ensures
            final(self)@ == (MemberModelView { is_silenced, ..old(self)@ }),
    {
        self.is_silenced = is_silenced;
    }

    /// The member.
    pub fn member(&self) -> (r: &Member)
        ensures
            r@ == self@.member,
    {
        &self.member
    }

    /// Whether the member is alive.
    pub fn is_alive(&self) -> (r: bool)
        ensures
            r == self@.is_alive,
    {
        self.is_alive
    }

    /// When the member was last active.
    pub fn last_time_active(&self) -> (r: Option<Moment>)
        ensures
            r == self@.last_time_active,
    {
        self.last_time_active
    }

    /// Whether the member is silenced.
    pub fn is_silenced(&self) -> (r: bool)
        ensures
            r == self@.is_silenced,
    {
        self.is_silenced
    }

    /// A copy of the record.
    pub fn duplicate(&self) -> (r: MemberModel)
        ensures
            r@ == self@,
    {
        MemberModel {
            member: self.member.duplicate(),
            is_alive: self.is_alive,
            last_time_active: self.last_time_active,
            is_silenced: self.is_silenced,
        }
    }
}


/// Every user id occurs at most once.
pub open spec fn ids_unique(s: Seq<MemberModelView>) -> bool {
    forall|i: int, j: int| 0 <= i < j < s.len() ==> s[i].id() != s[j].id()
}

/// Whether some record is kept under `id`.
pub open spec fn has_id(s: Seq<MemberModelView>, id: u64) -> bool {
    exists|i: int| 0 <= i < s.len() && s[i].id() == id
}

/// The position of the record kept under `id`.
pub open spec fn position_of(s: Seq<MemberModelView>, id: u64) -> int {
    choose|i: int| 0 <= i < s.len() && s[i].id() == id
}

/// The records of a guild, one per user, in the order in which they were added.
pub struct MemberTable {
    models: Vec<MemberModel>,
}

impl View for MemberTable {
    type V = Seq<MemberModelView>;

    closed spec fn view(&self) -> Seq<MemberModelView> {
        self.models@.map_values(|m: MemberModel| m@)
    }
}

impl MemberTable {
    #[verifier::type_invariant]
    spec fn well_formed(self) -> bool {
        &&& ids_unique(self@)
        &&& forall|i: int| 0 <= i < self@.len() ==> #[trigger] self@[i].dates_wf()
    }

    /// A table with no record.
    pub fn new() -> (t: MemberTable)
        ensures
            t@ == Seq::<MemberModelView>::empty(),
    {
        let t = MemberTable { models: Vec::new() };
        assert(t@ =~= Seq::<MemberModelView>::empty());
        t
    }

    /// The number of records.
    pub fn len(&self) -> (n: usize)
        ensures
            n == self@.len(),
    {
        self.models.len()
    }

    /// The record at position `i`.
    pub fn get_at(&self, i: usize) -> (m: &MemberModel)
        requires
            i < self@.len(),
        ensures
            m@ == self@[i as int],
    {
        &self.models[i]
    }

    /// The position of the record kept under `id`, if any (each user id occurs once).
    pub fn find(&self, id: u64) -> (r: Option<usize>)
        ensures
            r matches Some(i) ==> i < self@.len() && self@[i as int].id() == id && position_of(self@, id) == i,
            r is None <==> !has_id(self@, id),
            ids_unique(self@),
    {
        proof {
            use_type_invariant(self);
        }
        let mut i: usize = 0;
        while i < self.models.len()
            invariant
                i <= self.models.len(),
                self@.len() == self.models.len(),
                ids_unique(self@),
                forall|k: int| 0 <= k < i ==> self@[k].id() != id,
            decreases self.models.len() - i,
        {
            if self.models[i].member.user_id == id {
                proof {
                    assert(self@[i as int].id() == id);
                    let p = position_of(self@, id);
                    assert(self@[p].id() == id);
                }
                return Some(i);
            }
            i = i + 1;
        }
        None
    }

    /// The record kept under `id`, if any (each user id occurs once).
    pub fn get(&self, id: u64) -> (r: Option<&MemberModel>)
        ensures
            r matches Some(m) ==> has_id(self@, id) && m@ == self@[position_of(self@, id)],
            r is None <==> !has_id(self@, id),
            ids_unique(self@),
    {
        match self.find(id) {
            Some(i) => Some(&self.models[i]),
            None => None,
        }
    }

    /// Keeps `m` under its user id: it replaces the record kept there, or is added at the end.
    pub fn insert(&mut self, m: MemberModel)
        requires
            m@.dates_wf(),
        ensures
            final(self)@ == if has_id(old(self)@, m@.id()) {
                old(self)@.update(position_of(old(self)@, m@.id()), m@)
            } else {
                old(self)@.push(m@)
            },
    {
        proof {
            use_type_invariant(&*self);
        }
        match self.find(m.member.user_id) {
            Some(i) => {
                let ghost before = self@;
                let mut models: Vec<MemberModel> = Vec::new();
                std::mem::swap(&mut models, &mut self.models);
                proof {
                    assert(models@.map_values(|x: MemberModel| x@) == before);
                }
                models.set(i, m);
                proof {
                    assert(models@.map_values(|x: MemberModel| x@) =~= before.update(i as int, m@));
                }
                self.models = models;
            },
            None => {
                let ghost before = self@;
                let mut models: Vec<MemberModel> = Vec::new();
                std::mem::swap(&mut models, &mut self.models);
                proof {
                    assert(models@.map_values(|x: MemberModel| x@) == before);
                }
                models.push(m);
                proof {
                    assert(models@.map_values(|x: MemberModel| x@) =~= before.push(m@));
                }
                self.models = models;
            },
        }
    }
}


/// The silenced records of `s`, in order.
pub open spec fn silenced_only(s: Seq<MemberModelView>) -> Seq<MemberModelView>
    decreases s.len(),
{
    if s.len() == 0 {
        seq![]
    } else if s.last().is_silenced {
        silenced_only(s.drop_last()).push(s.last())
    } else {
        silenced_only(s.drop_last())
    }
}

proof fn lemma_silenced_only_from(s: Seq<MemberModelView>)
    ensures
        forall|k: int| 0 <= k < silenced_only(s).len() ==> exists|j: int| 0 <= j < s.len() && #[trigger] silenced_only(s)[k] == s[j],
        forall|k: int| 0 <= k < silenced_only(s).len() ==> (#[trigger] silenced_only(s)[k]).is_silenced,
    decreases s.len(),
{
    if s.len() > 0 {
        let t = s.drop_last();
        lemma_silenced_only_from(t);
        assert forall|k: int| 0 <= k < silenced_only(s).len() implies exists|j: int| 0 <= j < s.len() && #[trigger] silenced_only(s)[k] == s[j] by {
            if k < silenced_only(t).len() {
                let j = choose|j: int| 0 <= j < t.len() && silenced_only(t)[k] == t[j];
                assert(silenced_only(s)[k] == s[j]);
            } else {
                assert(silenced_only(s)[k] == s[s.len() - 1]);
            }
        }
    }
}

impl MemberTable {
    /// The silenced records only, in order.
    pub fn silenced(&self) -> (t: MemberTable)
        ensures
            t@ == silenced_only(self@),
    {
        proof {
            use_type_invariant(self);
        }
        let mut t = MemberTable::new();
        let mut i: usize = 0;
        while i < self.models.len()
            invariant
                i <= self.models.len(),
                self@.len() == self.models.len(),
                ids_unique(self@),
                forall|k: int| 0 <= k < self@.len() ==> #[trigger] self@[k].dates_wf(),
                t@ == silenced_only(self@.take(i as int)),
            decreases self.models.len() - i,
        {
            proof {
                assert(self@.take(i + 1).drop_last() =~= self@.take(i as int));
                assert(self@.take(i + 1).last() == self@[i as int]);
            }
            if self.models[i].is_silenced {
                proof {
                    assert(self.models@[i as int]@ == self@[i as int]);
                    lemma_silenced_only_from(self@.take(i as int));
                    if has_id(t@, self@[i as int].id()) {
                        let k = choose|k: int| 0 <= k < t@.len() && t@[k].id() == self@[i as int].id();
                        let j = choose|j: int| 0 <= j < self@.take(i as int).len() && #[trigger] silenced_only(self@.take(i as int))[k] == self@.take(i as int)[j];
                        assert(self@[j].id() == self@[i as int].id());
                    }
                }
                t.insert(self.models[i].duplicate());
            }
            i = i + 1;
        }
        proof {
            assert(self@.take(self@.len() as int) =~= self@);
        }
        t
    }
}

/// The silenced members of a guild (keyed by user id, in the table's order).
pub fn filter_silenced_member_models(member_models: MemberTable) -> (r: MemberTable)
    ensures
        r@ == silenced_only(member_models@),
{
    member_models.silenced()
}


impl MemberTable {
    /// Replaces the record at position `i` by `m`, kept under the same user id.
    fn put_at(&mut self, i: usize, m: MemberModel)
        requires
            i < old(self)@.len(),
            m@.id() == old(self)@[i as int].id(),
            m@.dates_wf(),
        ensures
            final(self)@ == old(self)@.update(i as int, m@),
    {
        proof {
            use_type_invariant(&*self);
        }
        let ghost before = self@;
        let mut models: Vec<MemberModel> = Vec::new();
        std::mem::swap(&mut models, &mut self.models);
        proof {
            assert(models@.map_values(|x: MemberModel| x@) == before);
        }
        models.set(i, m);
        proof {
            assert(models@.map_values(|x: MemberModel| x@) =~= before.update(i as int, m@));
        }
        self.models = models;
    }

    /// Marks the member kept under `id` as silenced or not; every user id still occurs once.
    pub fn set_silenced(&mut self, id: u64, is_silenced: bool)
        requires
            has_id(old(self)@, id),
        ensures
            final(self)@ == silence_set(old(self)@, id, is_silenced),
            has_id(silenced_only(final(self)@), id) == is_silenced,
            ids_unique(old(self)@),
            ids_unique(final(self)@),
    {
        proof {
            use_type_invariant(&*self);
        }
        let i = self.find(id).unwrap();
        let mut m = self.models[i].duplicate();
        proof {
            assert(self.models@[i as int]@ == self@[i as int]);
            assert(self@[i as int].dates_wf());
        }
        m.set_silenced(is_silenced);
        self.put_at(i, m);
        proof {
            lemma_silence_sets_flag(old(self)@, id, is_silenced);
        }
    }

    /// Takes off the record kept under `id`, if any; the others keep their order.
    pub fn remove(&mut self, id: u64)
        ensures
            final(self)@ == if has_id(old(self)@, id) {
                old(self)@.remove(position_of(old(self)@, id))
            } else {
                old(self)@
            },
    {
        proof {
            use_type_invariant(&*self);
        }
        match self.find(id) {
            Some(i) => {
                let ghost before = self@;
                let mut models: Vec<MemberModel> = Vec::new();
                std::mem::swap(&mut models, &mut self.models);
                proof {
                    assert(models@.map_values(|x: MemberModel| x@) == before);
                }
                models.remove(i);
                proof {
                    assert(models@.map_values(|x: MemberModel| x@) =~= before.remove(i as int));
                }
                self.models = models;
            },
            None => {},
        }
    }

    /// Whether the member kept under `id` is silenced (messages and calls of silenced members
    /// are cut).
    pub fn is_silenced_user(&self, id: u64) -> (b: bool)
        ensures
            b == has_id(silenced_only(self@), id),
    {
        let silenced = self.silenced();
        silenced.find(id).is_some()
    }

    /// The names of the records, in order.
    pub fn names(&self) -> (v: Vec<String>)
        ensures
            v.deep_view() == self@.map_values(|m: MemberModelView| m.member.name),
    {
        let mut v: Vec<String> = Vec::new();
        let mut i: usize = 0;
        while i < self.models.len()
            invariant
                i <= self.models.len(),
                self@.len() == self.models.len(),
                v.deep_view() == self@.take(i as int).map_values(|m: MemberModelView| m.member.name),
            decreases self.models.len() - i,
        {
            let ghost before = v.deep_view();
            v.push(self.models[i].member.name.clone());
            proof {
                assert(self.models@[i as int]@ == self@[i as int]);
                assert(v.deep_view() =~= before.push(self@[i as int].member.name));
                assert(self@.take(i + 1).map_values(|m: MemberModelView| m.member.name) =~= self@.take(i as int).map_values(|m: MemberModelView| m.member.name).push(self@[i as int].member.name));
            }
            i = i + 1;
        }
        assert(self@.take(self@.len() as int) =~= self@);
        v
    }

    /// The listing of the silenced members that the bot sends: a heading and one line per
    /// name; `None` where nobody is silenced.
    pub fn silenced_listing(&self) -> (r: Option<String>)
        ensures
            r matches Some(m) ==> m@ == "### LISTA DE MEMBROS SILENCIADOS"@ + bullet_list(
                silenced_only(self@).map_values(|m: MemberModelView| m.member.name),
            ),
            r is None <==> silenced_only(self@).len() == 0,
    {
        let silenced = self.silenced();
        let names = silenced.names();
        assert(names.deep_view().len() == names@.len());
        assert(silenced@.map_values(|m: MemberModelView| m.member.name).len() == silenced@.len());
        if names.len() == 0 {
            return None;
        }
        let mut lista = "### LISTA DE MEMBROS SILENCIADOS".to_owned();
        push_bullets(&mut lista, &names);
        Some(lista)
    }
}


/// The record of a member who is seen again: the new member data, not alive, not silenced,
/// keeping when the member was last active.
pub open spec fn refreshed(m: MemberView, last_time_active: Option<Moment>) -> MemberModelView {
    MemberModelView { member: m, is_alive: false, last_time_active, is_silenced: false }
}

impl MemberTable {
    /// Records the new data of a member: a member already kept gets a fresh record that keeps
    /// when it was last active; a new member is added, active now.
    pub fn refresh_member(&mut self, m: Member)
        requires
            opt_wf(m.joined_at),
        ensures
            has_id(old(self)@, m.user_id) ==> final(self)@ == old(self)@.update(
                position_of(old(self)@, m.user_id),
                refreshed(m@, old(self)@[position_of(old(self)@, m.user_id)].last_time_active),
            ),
            !has_id(old(self)@, m.user_id) ==> exists|t: Moment|
                t.wf() && final(self)@ == old(self)@.push(refreshed(m@, Some(t))),
    {
        proof {
            use_type_invariant(&*self);
        }
        match self.find(m.user_id) {
            Some(i) => {
                let last = self.models[i].last_time_active();
                proof {
                    assert(self.models@[i as int]@ == self@[i as int]);
                    assert(self@[i as int].dates_wf());
                }
                let mut fresh = MemberModel::new(m);
                fresh.set_last_time_active(last);
                self.insert(fresh);
            },
            None => {
                let fresh = MemberModel::new(m);
                let ghost t = fresh@.last_time_active.unwrap();
                self.insert(fresh);
                assert(final(self)@ == old(self)@.push(refreshed(m@, Some(t))));
            },
        }
    }

    /// The records of the members of a guild that the bot has never stored: every member, not
    /// alive, active now, not silenced.
    pub fn from_members(members: Vec<Member>) -> (t: MemberTable)
        requires
            forall|i: int, j: int| 0 <= i < j < members.len() ==> members[i].user_id != members[j].user_id,
            forall|i: int| 0 <= i < members.len() ==> opt_wf(#[trigger] members[i].joined_at),
        ensures
            t@.len() == members.len(),
            forall|i: int| 0 <= i < members.len() ==> {
                &&& (#[trigger] t@[i]).member == members[i]@
                &&& !t@[i].is_alive
                &&& t@[i].last_time_active is Some
                &&& t@[i].last_time_active.unwrap().wf()
                &&& !t@[i].is_silenced
            },
    {
        let mut t = MemberTable::new();
        let mut k: usize = 0;
        while k < members.len()
            invariant
                k <= members.len(),
                forall|a: int, b: int| 0 <= a < b < members.len() ==> members[a].user_id != members[b].user_id,
                forall|a: int| 0 <= a < members.len() ==> opt_wf(#[trigger] members[a].joined_at),
                t@.len() == k,
                forall|j: int| 0 <= j < k ==> {
                    &&& (#[trigger] t@[j]).member == members[j]@
                    &&& !t@[j].is_alive
                    &&& t@[j].last_time_active is Some
                    &&& t@[j].last_time_active.unwrap().wf()
                    &&& !t@[j].is_silenced
                },
            decreases members.len() - k,
        {
            let fresh = MemberModel::new(members[k].duplicate());
            proof {
                if has_id(t@, members[k as int].user_id) {
                    let j = choose|j: int| 0 <= j < t@.len() && t@[j].id() == members[k as int].user_id;
                    assert(t@[j].member == members[j]@);
                }
            }
            t.insert(fresh);
            k = k + 1;
        }
        t
    }
}


/// The bot's own name in the guild.
pub open spec fn bot_name() -> Seq<char> {
    "Marie Curie"@
}

/// The first position of `s` whose member is named `name`; `s.len()` where there is none.
pub open spec fn first_named(s: Seq<MemberModelView>, name: Seq<char>) -> nat
    decreases s.len(),
{
    if s.len() == 0 {
        0
    } else {
        let r = first_named(s.drop_last(), name);
        if r < s.len() - 1 {
            r
        } else if s.last().member.name == name {
            (s.len() - 1) as nat
        } else {
            s.len()
        }
    }
}

proof fn lemma_first_named_stable(s: Seq<MemberModelView>, name: Seq<char>, m: int)
    requires
        0 <= m <= s.len(),
        first_named(s.take(m), name) < m,
    ensures
        first_named(s, name) == first_named(s.take(m), name),
    decreases s.len() - m,
{
    if s.len() == m {
        assert(s.take(m) =~= s);
    } else {
        let t = s.drop_last();
        assert(t.take(m) =~= s.take(m));
        lemma_first_named_stable(t, name, m);
    }
}

/// When the bot joined the guild: the join date of the first record named after the bot;
/// `None` where there is no such record or it has no join date (the sweep cannot run then).
pub open spec fn bot_joined_at(s: Seq<MemberModelView>) -> Option<Moment> {
    let k = first_named(s, bot_name());
    if k < s.len() {
        s[k as int].member.joined_at
    } else {
        None
    }
}

/// A record after a message or a call of `author_id` at `now`: the author is alive and active
/// now; then every record active more than `days_limit` days before `now` stops being alive.
pub open spec fn after_activity(m: MemberModelView, author_id: u64, now: Moment, days_limit: int) -> MemberModelView {
    let m1 = if m.id() == author_id {
        MemberModelView { is_alive: true, last_time_active: Some(now), ..m }
    } else {
        m
    };
    match m1.last_time_active {
        Some(t) => if inactive_too_long(now, t, t, days_limit) {
            MemberModelView { is_alive: false, ..m1 }
        } else {
            m1
        },
        None => m1,
    }
}

/// The table after a message or a call of `author_id` at `now` (see `after_activity`).
pub open spec fn after_round(s: Seq<MemberModelView>, author_id: u64, now: Moment, days_limit: int) -> Seq<MemberModelView> {
    s.map_values(|m: MemberModelView| after_activity(m, author_id, now, days_limit))
}

/// Marking activity reads the join date of every record that is active afterwards; those
/// must have one.
pub open spec fn activity_defined(s: Seq<MemberModelView>, author_id: u64) -> bool {
    forall|i: int| 0 <= i < s.len() ==> ((#[trigger] s[i]).last_time_active is Some || s[i].id()
        == author_id) ==> s[i].member.joined_at is Some
}

/// Choosing whom to remove reads the join date of every record that is not alive; those must
/// have one.
pub open spec fn reap_defined(s: Seq<MemberModelView>) -> bool {
    forall|i: int| 0 <= i < s.len() ==> !(#[trigger] s[i]).is_alive ==> s[i].member.joined_at is Some
}

/// The user ids, in order, of the records that are not alive and whose last activity (or, if
/// none, join date), or the bot's own arrival if later, lies more than `days_limit` days before
/// `now`.
pub open spec fn reap_ids(s: Seq<MemberModelView>, bot_joined: Moment, now: Moment, days_limit: int) -> Seq<u64>
    decreases s.len(),
{
    if s.len() == 0 {
        seq![]
    } else {
        let m = s.last();
        let rest = reap_ids(s.drop_last(), bot_joined, now, days_limit);
        let since = match m.last_time_active {
            Some(t) => t,
            None => m.member.joined_at.unwrap(),
        };
        if !m.is_alive && inactive_too_long(now, since, bot_joined, days_limit) {
            rest.push(m.id())
        } else {
            rest
        }
    }
}

impl MemberTable {
    /// The join date of the bot itself (see `bot_joined_at`).
    pub fn bot_joined_at(&self) -> (r: Option<Moment>)
        ensures
            r == bot_joined_at(self@),
    {
        let name = "Marie Curie".to_owned();
        let mut i: usize = 0;
        while i < self.models.len()
            invariant
                i <= self.models.len(),
                self@.len() == self.models.len(),
                name@ == bot_name(),
                first_named(self@.take(i as int), bot_name()) == i,
            decreases self.models.len() - i,
        {
            proof {
                assert(self@.take(i + 1).drop_last() =~= self@.take(i as int));
                assert(self.models@[i as int]@ == self@[i as int]);
            }
            if self.models[i].member.name == name {
                proof {
                    lemma_first_named_stable(self@, bot_name(), i + 1);
                }
                return self.models[i].member.joined_at;
            }
            i = i + 1;
        }
        assert(self@.take(self@.len() as int) =~= self@);
        None
    }
}


fn mark_one(m: &MemberModel, author_id: u64, now: Moment, days_limit: i32) -> (r: MemberModel)
    requires
        now.wf(),
        m@.dates_wf(),
    ensures
        r@ == after_activity(m@, author_id, now, days_limit as int),
        r@.dates_wf(),
{
    let mut r = m.duplicate();
    if r.member.user_id == author_id {
        r.set_living(true);
        r.set_last_time_active(Some(now));
    }
    match r.last_time_active {
        Some(t) => {
            if months_diff(now, t, t, days_limit) {
                r.set_living(false);
            }
        },
        None => {},
    }
    r
}

impl MemberTable {
    /// Whether marking activity is defined here (see `activity_defined`).
    pub fn activity_is_defined(&self, author_id: u64) -> (b: bool)
        ensures
            b == activity_defined(self@, author_id),
    {
        let mut i: usize = 0;
        while i < self.models.len()
            invariant
                i <= self.models.len(),
                self@.len() == self.models.len(),
                forall|k: int| 0 <= k < i ==> ((#[trigger] self@[k]).last_time_active is Some || self@[k].id()
                    == author_id) ==> self@[k].member.joined_at is Some,
            decreases self.models.len() - i,
        {
            proof {
                assert(self.models@[i as int]@ == self@[i as int]);
            }
            let m = &self.models[i];
            if (m.last_time_active.is_some() || m.member.user_id == author_id) && m.member.joined_at.is_none() {
                return false;
            }
            i = i + 1;
        }
        true
    }

    /// Records a message or call of `author_id` at `now`, then ends the life of every member
    /// inactive for more than `days_limit` days.
    pub fn mark_activity(&mut self, author_id: u64, now: Moment, days_limit: i32)
        requires
            now.wf(),
            activity_defined(old(self)@, author_id),
        ensures
            final(self)@ == after_round(old(self)@, author_id, now, days_limit as int),
    {
        proof {
            use_type_invariant(&*self);
        }
        let ghost before = self@;
        let mut marked: Vec<MemberModel> = Vec::new();
        let mut i: usize = 0;
        while i < self.models.len()
            invariant
                i <= self.models.len(),
                now.wf(),
                before == self@,
                self@.len() == self.models.len(),
                forall|k: int| 0 <= k < self@.len() ==> #[trigger] self@[k].dates_wf(),
                marked@.len() == i,
                forall|k: int| 0 <= k < i ==> (#[trigger] marked@[k])@ == after_activity(
                    self@[k],
                    author_id,
                    now,
                    days_limit as int,
                ) && marked@[k]@.dates_wf(),
                ids_unique(self@),
            decreases self.models.len() - i,
        {
            proof {
                assert(self.models@[i as int]@ == self@[i as int]);
            }
            let m = mark_one(&self.models[i], author_id, now, days_limit);
            marked.push(m);
            i = i + 1;
        }
        let ghost target = before.map_values(
            |m: MemberModelView| after_activity(m, author_id, now, days_limit as int),
        );
        assert(marked@.map_values(|x: MemberModel| x@) =~= target);
        assert forall|a: int, b: int| 0 <= a < b < target.len() implies target[a].id() != target[b].id() by {
            assert(target[a].id() == before[a].id());
            assert(target[b].id() == before[b].id());
        }
        assert forall|k: int| 0 <= k < target.len() implies #[trigger] target[k].dates_wf() by {
            assert(target[k] == marked@[k]@);
        }
        self.models = marked;
    }

    /// Whether choosing whom to remove is defined here (see `reap_defined`).
    pub fn reap_is_defined(&self) -> (b: bool)
        ensures
            b == reap_defined(self@),
    {
        let mut i: usize = 0;
        while i < self.models.len()
            invariant
                i <= self.models.len(),
                self@.len() == self.models.len(),
                forall|k: int| 0 <= k < i ==> !(#[trigger] self@[k]).is_alive ==> self@[k].member.joined_at is Some,
            decreases self.models.len() - i,
        {
            proof {
                assert(self.models@[i as int]@ == self@[i as int]);
            }
            if !self.models[i].is_alive && self.models[i].member.joined_at.is_none() {
                return false;
            }
            i = i + 1;
        }
        true
    }

    /// The members to remove from the guild (see `reap_ids`), in the table's order.
    pub fn members_to_reap(&self, bot_joined: Moment, now: Moment, days_limit: i32) -> (v: Vec<u64>)
        requires
            bot_joined.wf(),
            now.wf(),
            reap_defined(self@),
        ensures
            v@ == reap_ids(self@, bot_joined, now, days_limit as int),
            forall|k: int| 0 <= k < v@.len() ==> exists|i: int|
                0 <= i < self@.len() && self@[i].id() == #[trigger] v@[k] && !self@[i].is_alive
                    && now.day_index() - bot_joined.day_index() > days_limit
                    && now.day_index() - last_seen(self@[i]).day_index() > days_limit,
            bot_joined.day_index() + days_limit >= now.day_index() ==> v@.len() == 0,
    {
        proof {
            use_type_invariant(self);
        }
        let mut v: Vec<u64> = Vec::new();
        let mut i: usize = 0;
        while i < self.models.len()
            invariant
                i <= self.models.len(),
                bot_joined.wf(),
                now.wf(),
                reap_defined(self@),
                self@.len() == self.models.len(),
                forall|k: int| 0 <= k < self@.len() ==> #[trigger] self@[k].dates_wf(),
                v@ == reap_ids(self@.take(i as int), bot_joined, now, days_limit as int),
            decreases self.models.len() - i,
        {
            proof {
                assert(self.models@[i as int]@ == self@[i as int]);
                assert(self@.take(i + 1).drop_last() =~= self@.take(i as int));
                assert(self@[i as int].dates_wf());
            }
            let m = &self.models[i];
            if !m.is_alive {
                let since = match m.last_time_active {
                    Some(t) => t,
                    None => m.member.joined_at.unwrap(),
                };
                if months_diff(now, since, bot_joined, days_limit) {
                    v.push(m.member.user_id);
                }
            }
            i = i + 1;
        }
        assert(self@.take(self@.len() as int) =~= self@);
        proof {
            lemma_reaped_inactive_since_arrival(self@, bot_joined, now, days_limit as int);
        }
        v
    }

    /// The inactivity rule, run when `author_id` writes or joins a call: the author's activity
    /// is recorded at the current time, every member inactive for more than `days_limit` days
    /// stops being alive, and the members to remove are chosen at the current time (see
    /// `reap_ids`). Where the bot has no record with a join date, or a date that the rule reads
    /// is missing, the rule cannot run: the table is then left as it is, or as marked, and the
    /// answer is `None`.
    pub fn inactivity_round(&mut self, author_id: u64, days_limit: i32) -> (r: Option<Vec<u64>>)
        ensures
            !(bot_joined_at(old(self)@) is Some && activity_defined(old(self)@, author_id)) ==> r is None
                && final(self)@ == old(self)@,
            bot_joined_at(old(self)@) is Some && activity_defined(old(self)@, author_id) ==> exists|t: Moment|
                t.wf() && final(self)@ == #[trigger] after_round(old(self)@, author_id, t, days_limit as int),
            r is Some <==> bot_joined_at(old(self)@) is Some && activity_defined(old(self)@, author_id)
                && reap_defined(final(self)@),
            r matches Some(ids) ==> exists|t: Moment|
                t.wf() && ids@ == #[trigger] reap_ids(
                    final(self)@,
                    bot_joined_at(old(self)@)->Some_0,
                    t,
                    days_limit as int,
                ),
    {
        proof {
            use_type_invariant(&*self);
        }
        let ghost before = self@;
        let bot_joined = match self.bot_joined_at() {
            Some(t) => t,
            None => return None,
        };
        if !self.activity_is_defined(author_id) {
            return None;
        }
        assert(bot_joined.wf()) by {
            assert(self@[first_named(self@, bot_name()) as int].dates_wf());
        }
        let marked_at = now();
        self.mark_activity(author_id, marked_at, days_limit);
        assert(marked_at.wf() && self@ == after_round(before, author_id, marked_at, days_limit as int));
        if !self.reap_is_defined() {
            return None;
        }
        let reaped_at = now();
        let ids = self.members_to_reap(bot_joined, reaped_at, days_limit);
        assert(reaped_at.wf() && ids@ == reap_ids(self@, bot_joined, reaped_at, days_limit as int));
        Some(ids)
    }
}


/// Adds a member who has just joined the guild to the table (a new record, active now).
pub fn save_member(table: &mut MemberTable, member: Member)
    requires
        opt_wf(member.joined_at),
    ensures
        exists|t: Moment|
            t.wf() && final(table)@ == if has_id(old(table)@, member.user_id) {
                old(table)@.update(position_of(old(table)@, member.user_id), #[trigger] refreshed(member@, Some(t)))
            } else {
                old(table)@.push(refreshed(member@, Some(t)))
            },
{
    let m = MemberModel::new(member);
    let ghost t = m@.last_time_active.unwrap();
    table.insert(m);
    assert(m@ == refreshed(member@, Some(t)));
}

/// How many days of inactivity a guild allows: the stored number, or 30 where none is stored.
pub fn life_time_days(stored: Option<i32>) -> (d: i32)
    ensures
        d == match stored {
            Some(n) => n,
            None => 30,
        },
{
    match stored {
        Some(n) => n,
        None => 30,
    }
}

/// The answer that tells the guild's allowed days of inactivity.
pub fn life_time_message(days: i32) -> (m: String)
    ensures
        m@ == "O **life_time** esta definida para: **"@ + decimal(days as int) + "** dias!"@,
{
    let mut m = "O **life_time** esta definida para: **".to_owned();
    push_decimal(&mut m, days as i64);
    append(&mut m, "** dias!");
    m
}

/// The reason given to a member removed for inactivity.
pub fn farewell_reason(name: &String) -> (m: String)
    ensures
        m@ == "Seu tempo aqui terminou; chegou a hora de partir "@ + name@ + "."@,
{
    let mut m = "Seu tempo aqui terminou; chegou a hora de partir ".to_owned();
    append(&mut m, name.as_str());
    append(&mut m, ".");
    m
}

/// The earlier record of a member: the member, whether it is active and since when.
pub struct Membro {
    membro: Member,
    ativo: bool,
    ativo_em: Option<Moment>,
}

/// The plain values of a `Membro`.
pub struct MembroView {
    pub membro: MemberView,
    pub ativo: bool,
    pub ativo_em: Option<Moment>,
}

impl View for Membro {
    type V = MembroView;

    closed spec fn view(&self) -> MembroView {
        MembroView { membro: self.membro@, ativo: self.ativo, ativo_em: self.ativo_em }
    }
}

impl Membro {
    /// A record of a member who is not active and has never been.
    pub fn new(membro: Member) -> (r: Membro)
        ensures
            r@ == (MembroView { membro: membro@, ativo: false, ativo_em: None }),
    {
        Membro { membro, ativo: false, ativo_em: None }
    }

    /// Replaces the member.
    pub fn set_membro(&mut self, membro: Member)
        ensures
            final(self)@ == (MembroView { membro: membro@, ..old(self)@ }),
    {
        self.membro = membro;
    }

    /// Marks the member active or not.
    pub fn set_ativo(&mut self, ativo: bool)
        ensures
            final(self)@ == (MembroView { ativo, ..old(self)@ }),
    {
        self.ativo = ativo;
    }

    /// Whether the member is active.
    pub fn ativo(&self) -> (r: bool)
        ensures
            r == self@.ativo,
    {
        self.ativo
    }

    /// The member.
    pub fn membro(&self) -> (r: &Member)
        ensures
            r@ == self@.membro,
    {
        &self.membro
    }

    /// Sets since when the member is active.
    pub fn set_ativo_em(&mut self, ativo_em: Option<Moment>)
        ensures
            final(self)@ == (MembroView { ativo_em, ..old(self)@ }),
    {
        self.ativo_em = ativo_em;
    }

    /// Since when the member is active.
    pub fn ativo_em(&self) -> (r: Option<Moment>)
        ensures
            r == self@.ativo_em,
    {
        self.ativo_em
    }
}


/// A user is among the silenced records exactly when one of its records is silenced.
pub proof fn lemma_silenced_only_members(s: Seq<MemberModelView>, id: u64)
    ensures
        has_id(silenced_only(s), id) <==> exists|i: int| 0 <= i < s.len() && s[i].id() == id && s[i].is_silenced,
    decreases s.len(),
{
    if s.len() > 0 {
        let t = s.drop_last();
        lemma_silenced_only_members(t, id);
        let r = silenced_only(s);
        let rt = silenced_only(t);
        if has_id(r, id) {
            let k = choose|k: int| 0 <= k < r.len() && r[k].id() == id;
            if k < rt.len() {
                assert(rt[k] == r[k]);
                let i = choose|i: int| 0 <= i < t.len() && t[i].id() == id && t[i].is_silenced;
                assert(s[i] == t[i]);
            } else {
                assert(s[s.len() - 1].id() == id && s[s.len() - 1].is_silenced);
            }
        }
        if exists|i: int| 0 <= i < s.len() && s[i].id() == id && s[i].is_silenced {
            let i = choose|i: int| 0 <= i < s.len() && s[i].id() == id && s[i].is_silenced;
            if i < t.len() {
                assert(t[i] == s[i]);
                let k = choose|k: int| 0 <= k < rt.len() && rt[k].id() == id;
                assert(r[k] == rt[k]);
            } else {
                assert(r[r.len() - 1] == s[i]);
            }
        }
    }
}

/// The records after the member kept under `id` is silenced (`flag` true) or its silence lifted.
pub open spec fn silence_set(s: Seq<MemberModelView>, id: u64, flag: bool) -> Seq<MemberModelView> {
    s.update(position_of(s, id), MemberModelView { is_silenced: flag, ..s[position_of(s, id)] })
}

/// Silencing a member who was not silenced and then lifting the silence gives the records back
/// as they were.
pub proof fn lemma_silence_then_lift(s: Seq<MemberModelView>, id: u64)
    requires
        ids_unique(s),
        has_id(s, id),
        !s[position_of(s, id)].is_silenced,
    ensures
        has_id(silence_set(s, id, true), id),
        silence_set(silence_set(s, id, true), id, false) == s,
{
    let p = position_of(s, id);
    let s1 = silence_set(s, id, true);
    assert(s1[p].id() == id);
    let q = position_of(s1, id);
    assert(s1[q].id() == id);
    if q != p {
        assert(s[q].id() == s1[q].id());
        if q < p {
            assert(s[q].id() != s[p].id());
        } else {
            assert(s[p].id() != s[q].id());
        }
    }
    assert(silence_set(s1, id, false) =~= s);
}

/// Silencing a member (or lifting its silence) is what decides whether its messages are cut:
/// after setting the flag, the member is among the silenced exactly when the flag is set.
pub proof fn lemma_silence_sets_flag(s: Seq<MemberModelView>, id: u64, flag: bool)
    requires
        ids_unique(s),
        has_id(s, id),
    ensures
        has_id(
            silenced_only(s.update(position_of(s, id), MemberModelView { is_silenced: flag, ..s[position_of(s, id)] })),
            id,
        ) == flag,
{
    let p = position_of(s, id);
    let u = s.update(p, MemberModelView { is_silenced: flag, ..s[p] });
    lemma_silenced_only_members(u, id);
    if flag {
        assert(u[p].id() == id && u[p].is_silenced);
    } else {
        if exists|i: int| 0 <= i < u.len() && u[i].id() == id && u[i].is_silenced {
            let i = choose|i: int| 0 <= i < u.len() && u[i].id() == id && u[i].is_silenced;
            if i != p {
                assert(s[i].id() == id);
                if i < p {
                    assert(s[i].id() != s[p].id());
                } else {
                    assert(s[p].id() != s[i].id());
                }
            }
        }
    }
}

/// The author of a message stays alive and active at that moment, whatever the allowed days
/// of inactivity (when not negative).
pub proof fn lemma_author_alive(m: MemberModelView, now: Moment, days_limit: int)
    requires
        days_limit >= 0,
    ensures
        after_activity(m, m.id(), now, days_limit).is_alive,
        after_activity(m, m.id(), now, days_limit).last_time_active == Some(now),
        after_activity(m, m.id(), now, days_limit).member == m.member,
{
}

/// When a record was last seen active: its last activity, or, if none, when it joined.
pub open spec fn last_seen(m: MemberModelView) -> Moment {
    match m.last_time_active {
        Some(t) => t,
        None => m.member.joined_at.unwrap(),
    }
}

/// A member is chosen for removal only when it is not alive and more than `days_limit` days
/// (in the bot's day count) separate `now` both from when it was last seen active and from the
/// bot's arrival: in particular no member is chosen within `days_limit` days of the arrival.
pub proof fn lemma_reaped_inactive_since_arrival(
    s: Seq<MemberModelView>,
    bot_joined: Moment,
    now: Moment,
    days_limit: int,
)
    requires
        forall|i: int| 0 <= i < s.len() ==> #[trigger] s[i].dates_wf(),
        reap_defined(s),
        bot_joined.wf(),
    ensures
        forall|k: int| 0 <= k < reap_ids(s, bot_joined, now, days_limit).len() ==> exists|i: int|
            0 <= i < s.len() && s[i].id() == #[trigger] reap_ids(s, bot_joined, now, days_limit)[k]
                && !s[i].is_alive && now.day_index() - bot_joined.day_index() > days_limit
                && now.day_index() - last_seen(s[i]).day_index() > days_limit,
        bot_joined.day_index() + days_limit >= now.day_index() ==> reap_ids(s, bot_joined, now, days_limit).len() == 0,
    decreases s.len(),
{
    if s.len() > 0 {
        let t = s.drop_last();
        assert forall|i: int| 0 <= i < t.len() implies #[trigger] t[i].dates_wf() by {
            assert(t[i] == s[i]);
        }
        assert(reap_defined(t)) by {
            assert forall|i: int| 0 <= i < t.len() implies !(#[trigger] t[i]).is_alive ==> t[i].member.joined_at is Some by {
                assert(t[i] == s[i]);
            }
        }
        lemma_reaped_inactive_since_arrival(t, bot_joined, now, days_limit);
        let r = reap_ids(s, bot_joined, now, days_limit);
        let rt = reap_ids(t, bot_joined, now, days_limit);
        let m = s[s.len() - 1];
        assert(m.dates_wf());
        if !m.is_alive && inactive_too_long(now, last_seen(m), bot_joined, days_limit) {
            let since = last_seen(m);
            assert(since.wf());
            let later = later_of(since, bot_joined);
            if since.secs <= later.secs {
                lemma_date_order(since, later);
            }
            if bot_joined.secs <= later.secs {
                lemma_date_order(bot_joined, later);
            }
        }
        assert forall|k: int| 0 <= k < r.len() implies exists|i: int|
            0 <= i < s.len() && s[i].id() == #[trigger] r[k] && !s[i].is_alive
                && now.day_index() - bot_joined.day_index() > days_limit
                && now.day_index() - last_seen(s[i]).day_index() > days_limit by {
            if k < rt.len() {
                assert(r[k] == rt[k]);
                let i = choose|i: int|
                    0 <= i < t.len() && t[i].id() == #[trigger] rt[k] && !t[i].is_alive
                        && now.day_index() - bot_joined.day_index() > days_limit
                        && now.day_index() - last_seen(t[i]).day_index() > days_limit;
                assert(s[i] == t[i]);
            } else {
                assert(r[k] == m.id());
            }
        }
    }
}

/// Only records that are not alive are chosen for removal.
pub proof fn lemma_reaped_not_alive(s: Seq<MemberModelView>, bot_joined: Moment, now: Moment, days_limit: int)
    ensures
        forall|k: int| 0 <= k < reap_ids(s, bot_joined, now, days_limit).len() ==> exists|i: int|
            0 <= i < s.len() && s[i].id() == #[trigger] reap_ids(s, bot_joined, now, days_limit)[k] && !s[i].is_alive,
    decreases s.len(),
{
    if s.len() > 0 {
        let t = s.drop_last();
        lemma_reaped_not_alive(t, bot_joined, now, days_limit);
        let r = reap_ids(s, bot_joined, now, days_limit);
        let rt = reap_ids(t, bot_joined, now, days_limit);
        assert forall|k: int| 0 <= k < r.len() implies exists|i: int|
            0 <= i < s.len() && s[i].id() == #[trigger] r[k] && !s[i].is_alive by {
            if k < rt.len() {
                assert(r[k] == rt[k]);
                let i = choose|i: int| 0 <= i < t.len() && t[i].id() == #[trigger] rt[k] && !t[i].is_alive;
                assert(s[i] == t[i]);
            } else {
                assert(r[k] == s[s.len() - 1].id());
            }
        }
    }
}

} // verus!
