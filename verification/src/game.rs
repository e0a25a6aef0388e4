//! The "town night" game: players, roles, the day's vote and the night's actions.
use vstd::prelude::*;
use crate::text::append;
use rand::Rng;
use crate::member::{MemberTable, has_id, position_of};

verus! {

/// The two phases of a game day.
#[derive(Clone, Copy, Debug, PartialEq, Eq, Structural)]
pub enum DAY {
    NIGHT,
    MORNING,
}

/// The roles of the game.
#[derive(Clone, Copy, Debug, PartialEq, Eq, Structural)]
pub enum ROLE {
    MEDIC,
    MURDERER,
    CARTOMANTE,
    VILLAGER,
}

/// The name of a role, as it is shown to the players.
pub open spec fn role_text(r: ROLE) -> Seq<char> {
    match r {
        ROLE::MEDIC => "MEDIC"@,
        ROLE::MURDERER => "MURDERER"@,
        ROLE::CARTOMANTE => "CARTOMANTE"@,
        ROLE::VILLAGER => "VILLAGER"@,
    }
}

impl ROLE {
    /// The name of the role (its `Debug` rendering).
    pub fn to_string(&self) -> (s: String)
        ensures
            s@ == role_text(*self),
    {
        match self {
            ROLE::MEDIC => "MEDIC".to_owned(),
            ROLE::MURDERER => "MURDERER".to_owned(),
            ROLE::CARTOMANTE => "CARTOMANTE".to_owned(),
            ROLE::VILLAGER => "VILLAGER".to_owned(),
        }
    }
}

/// A player: the user, the name, the role, whether the player has acted this phase and
/// whether the player is dead.
pub struct Player {
    pub id: u64,
    pub name: String,
    pub role: ROLE,
    pub action: bool,
    pub is_death: bool,
}

/// The plain values of a `Player`.
pub struct PlayerView {
    pub id: u64,
    pub name: Seq<char>,
    pub role: ROLE,
    pub action: bool,
    pub is_death: bool,
}

impl View for Player {
    type V = PlayerView;

    open spec fn view(&self) -> PlayerView {
        PlayerView {
            id: self.id,
            name: self.name@,
            role: self.role,
            action: self.action,
            is_death: self.is_death,
        }
    }
}

impl Player {
    /// A new player: a villager who has not acted and is alive.
    pub fn new(id: u64, name: String) -> (p: Player)
        ensures
            p@ == (PlayerView { id, name: name@, role: ROLE::VILLAGER, action: false, is_death: false }),
    {
        Player { id, name, role: ROLE::VILLAGER, action: false, is_death: false }
    }

    /// A copy of the player.
    pub fn duplicate(&self) -> (p: Player)
        ensures
            p@ == self@,
    {
        Player {
            id: self.id,
            name: self.name.clone(),
            role: self.role,
            action: self.action,
            is_death: self.is_death,
        }
    }
}

/// A game: the phase, the players, the day's votes (user id and number of votes, in the order
/// of the first vote) and the number of skips.
pub struct TownNight {
    pub day: DAY,
    pub players: Vec<Player>,
    pub votes: Vec<(u64, i32)>,
    pub skip: i32,
}

/// The plain values of a `TownNight`.
pub struct TownNightView {
    pub day: DAY,
    pub players: Seq<PlayerView>,
    pub votes: Seq<(u64, i32)>,
    pub skip: i32,
}

impl View for TownNight {
    type V = TownNightView;

    open spec fn view(&self) -> TownNightView {
        TownNightView {
            day: self.day,
            players: self.players@.map_values(|p: Player| p@),
            votes: self.votes@,
            skip: self.skip,
        }
    }
}

impl TownNight {
    /// A new game with `players`: it starts in the morning, with no vote and no skip.
    pub fn new(players: Vec<Player>) -> (g: TownNight)
        ensures
            g@ == (TownNightView {
                day: DAY::MORNING,
                players: players@.map_values(|p: Player| p@),
                votes: seq![],
                skip: 0,
            }),
    {
        let g = TownNight { day: DAY::MORNING, players, votes: Vec::new(), skip: 0 };
        assert(g@.votes =~= seq![]);
        g
    }
}


/// A player who can still act this phase: has not acted and is alive.
pub open spec fn can_act(p: PlayerView) -> bool {
    !p.action && !p.is_death
}

/// Whether a player with user id `id` can still act.
pub open spec fn may_act(ps: Seq<PlayerView>, id: u64) -> bool {
    exists|i: int| 0 <= i < ps.len() && can_act(ps[i]) && ps[i].id == id
}

/// A player after `owner` votes: the voter has now acted.
pub open spec fn after_vote(p: PlayerView, owner: u64) -> PlayerView {
    if can_act(p) && p.id == owner {
        PlayerView { action: true, ..p }
    } else {
        p
    }
}

/// The position of the first entry of `votes` for `id`; `votes.len()` where there is none.
pub open spec fn vote_index(votes: Seq<(u64, i32)>, id: u64) -> nat
    decreases votes.len(),
{
    if votes.len() == 0 {
        0
    } else {
        let r = vote_index(votes.drop_last(), id);
        if r < votes.len() - 1 {
            r
        } else if votes.last().0 == id {
            (votes.len() - 1) as nat
        } else {
            votes.len()
        }
    }
}

/// The number of votes for `id` (0 where nobody voted for `id`).
pub open spec fn vote_count(votes: Seq<(u64, i32)>, id: u64) -> i32 {
    let k = vote_index(votes, id);
    if k < votes.len() {
        votes[k as int].1
    } else {
        0
    }
}

/// The votes with `n` votes for `id`: the entry for `id` changes, or a new one comes last.
pub open spec fn votes_with(votes: Seq<(u64, i32)>, id: u64, n: i32) -> Seq<(u64, i32)> {
    let k = vote_index(votes, id);
    if k < votes.len() {
        votes.update(k as int, (id, n))
    } else {
        votes.push((id, n))
    }
}

proof fn lemma_vote_index_stable(s: Seq<(u64, i32)>, id: u64, m: int)
    requires
        0 <= m <= s.len(),
        vote_index(s.take(m), id) < m,
    ensures
        vote_index(s, id) == vote_index(s.take(m), id),
    decreases s.len() - m,
{
    if s.len() == m {
        assert(s.take(m) =~= s);
    } else {
        let t = s.drop_last();
        assert(t.take(m) =~= s.take(m));
        lemma_vote_index_stable(t, id, m);
    }
}

proof fn lemma_vote_index_found(s: Seq<(u64, i32)>, id: u64)
    requires
        vote_index(s, id) < s.len(),
    ensures
        s[vote_index(s, id) as int].0 == id,
    decreases s.len(),
{
    let t = s.drop_last();
    if vote_index(t, id) < t.len() {
        lemma_vote_index_found(t, id);
    }
}

fn find_vote(votes: &Vec<(u64, i32)>, id: u64) -> (k: usize)
    ensures
        k == vote_index(votes@, id),
        k <= votes.len(),
{
    let mut i: usize = 0;
    while i < votes.len()
        invariant
            i <= votes.len(),
            vote_index(votes@.take(i as int), id) == i,
        decreases votes.len() - i,
    {
        proof {
            assert(votes@.take(i + 1).drop_last() =~= votes@.take(i as int));
        }
        if votes[i].0 == id {
            proof {
                lemma_vote_index_stable(votes@, id, i + 1);
            }
            return i;
        }
        i = i + 1;
    }
    assert(votes@.take(votes.len() as int) =~= votes@);
    votes.len()
}

/// No user has two entries in `votes`.
pub open spec fn votes_distinct(votes: Seq<(u64, i32)>) -> bool {
    forall|i: int, j: int| 0 <= i < j < votes.len() ==> votes[i].0 != votes[j].0
}

proof fn lemma_vote_index_absent(s: Seq<(u64, i32)>, id: u64)
    requires
        vote_index(s, id) == s.len(),
    ensures
        forall|i: int| 0 <= i < s.len() ==> (#[trigger] s[i]).0 != id,
    decreases s.len(),
{
    if s.len() > 0 {
        let t = s.drop_last();
        lemma_vote_index_absent(t, id);
        assert forall|i: int| 0 <= i < s.len() implies (#[trigger] s[i]).0 != id by {
            if i < t.len() {
                assert(s[i] == t[i]);
            }
        }
    }
}

/// Setting the votes of one user keeps every user once in the votes.
pub proof fn lemma_votes_with_distinct(votes: Seq<(u64, i32)>, id: u64, n: i32)
    requires
        votes_distinct(votes),
    ensures
        votes_distinct(votes_with(votes, id, n)),
{
    let k = vote_index(votes, id);
    let u = votes_with(votes, id, n);
    if k < votes.len() {
        lemma_vote_index_found(votes, id);
        assert forall|i: int, j: int| 0 <= i < j < u.len() implies u[i].0 != u[j].0 by {
            assert(u[i].0 == votes[i].0 && u[j].0 == votes[j].0);
        }
    } else {
        lemma_vote_index_absent(votes, id);
        assert forall|i: int, j: int| 0 <= i < j < u.len() implies u[i].0 != u[j].0 by {
            assert(u[i] == votes[i]);
            if j < votes.len() {
                assert(u[j] == votes[j]);
            }
        }
    }
}

/// A vote counts when both the voter and the target can still act.
pub open spec fn vote_counts(ps: Seq<PlayerView>, owner: u64, target: u64) -> bool {
    may_act(ps, owner) && may_act(ps, target)
}

/// The game after `owner` votes for `target` (or for nobody): where there is a target, the
/// voter, if it can act, has acted; where both can act, the target gets one more vote. The
/// skip changes nothing.
pub open spec fn voted(g: TownNightView, owner: u64, target: Option<u64>) -> TownNightView {
    match target {
        Some(t) => TownNightView {
            players: g.players.map_values(|p: PlayerView| after_vote(p, owner)),
            votes: if vote_counts(g.players, owner, t) {
                votes_with(g.votes, t, (vote_count(g.votes, t) + 1) as i32)
            } else {
                g.votes
            },
            ..g
        },
        None => g,
    }
}

/// Registers the vote of `owner` for `target` during the day.
pub fn vote_player(owner: u64, target: Option<u64>, game: TownNight, skip: Option<String>) -> (g: TownNight)
    requires
        target matches Some(t) ==> (vote_counts(game@.players, owner, t) ==> vote_count(game@.votes, t) < i32::MAX),
        skip is Some ==> game.skip < i32::MAX,
    ensures
        g@ == voted(game@, owner, target),
        votes_distinct(game@.votes) ==> votes_distinct(g@.votes),
{
    let mut game = game;
    let ghost before = game@;
    proof {
        if let Some(t) = target {
            if votes_distinct(before.votes) {
                lemma_votes_with_distinct(before.votes, t, (vote_count(before.votes, t) + 1) as i32);
            }
        }
    }
    let mut is_owner = false;
    let mut is_target = false;
    if let Some(t) = target {
        let mut players: Vec<Player> = Vec::new();
        let mut i: usize = 0;
        while i < game.players.len()
            invariant
                i <= game.players.len(),
                game@ == before,
                players@.len() == i,
                forall|k: int| 0 <= k < i ==> (#[trigger] players@[k])@ == after_vote(before.players[k], owner),
                is_owner == exists|k: int| 0 <= k < i && can_act(before.players[k]) && before.players[k].id == owner,
                is_target == exists|k: int| 0 <= k < i && can_act(before.players[k]) && before.players[k].id == t,
            decreases game.players.len() - i,
        {
            let mut ele = game.players[i].duplicate();
            proof {
                assert(game.players@[i as int]@ == before.players[i as int]);
            }
            if !ele.action && !ele.is_death {
                if ele.id == owner {
                    is_owner = true;
                    ele.action = true;
                }
                if ele.id == t {
                    is_target = true;
                }
            }
            players.push(ele);
            i = i + 1;
        }
        assert(players@.map_values(|p: Player| p@) =~= before.players.map_values(|p: PlayerView| after_vote(p, owner)));
        game.players = players;
        if is_owner && is_target {
            let k = find_vote(&game.votes, t);
            let number_of_votes = if k < game.votes.len() {
                game.votes[k].1
            } else {
                0
            };
            let new_vote = number_of_votes + 1;
            if k < game.votes.len() {
                proof {
                    lemma_vote_index_found(game.votes@, t);
                }
                game.votes.set(k, (t, new_vote));
            } else {
                game.votes.push((t, new_vote));
            }
        }
    }
    if skip.is_some() {
        let _ = game.skip + 1;
    }
    game
}


/// Every player has acted this phase.
pub open spec fn all_acted(ps: Seq<PlayerView>) -> bool {
    forall|i: int| 0 <= i < ps.len() ==> (#[trigger] ps[i]).action
}

/// Whether every player has acted this phase (the phase can end).
pub fn everyone_acted(game: &TownNight) -> (b: bool)
    ensures
        b == all_acted(game@.players),
{
    let mut i: usize = 0;
    while i < game.players.len()
        invariant
            i <= game.players.len(),
            forall|k: int| 0 <= k < i ==> (#[trigger] game@.players[k]).action,
        decreases game.players.len() - i,
    {
        proof {
            assert(game.players@[i as int]@ == game@.players[i as int]);
        }
        if !game.players[i].action {
            return false;
        }
        i = i + 1;
    }
    true
}

/// The day's most voted user and its votes: scanning the votes in order, an entry replaces the
/// current choice only with strictly more votes; user 0 with 0 votes where no entry has more
/// than 0.
pub open spec fn most_voted(votes: Seq<(u64, i32)>) -> (u64, i32)
    decreases votes.len(),
{
    if votes.len() == 0 {
        (0, 0)
    } else {
        let best = most_voted(votes.drop_last());
        if votes.last().1 > best.1 {
            votes.last()
        } else {
            best
        }
    }
}

/// The user eliminated at the end of the day (see `most_voted`).
pub fn eliminated_user(votes: &Vec<(u64, i32)>) -> (id: u64)
    ensures
        id == most_voted(votes@).0,
{
    let mut max_vote: i32 = 0;
    let mut user_id: u64 = 0;
    let mut i: usize = 0;
    while i < votes.len()
        invariant
            i <= votes.len(),
            (user_id, max_vote) == most_voted(votes@.take(i as int)),
        decreases votes.len() - i,
    {
        proof {
            assert(votes@.take(i + 1).drop_last() =~= votes@.take(i as int));
        }
        let (id, numero_votes) = votes[i];
        if numero_votes > max_vote {
            max_vote = numero_votes;
            user_id = id;
        }
        i = i + 1;
    }
    assert(votes@.take(votes.len() as int) =~= votes@);
    user_id
}

/// The position of the first player with user id `id`; `ps.len()` where there is none.
pub open spec fn player_index(ps: Seq<PlayerView>, id: u64) -> nat
    decreases ps.len(),
{
    if ps.len() == 0 {
        0
    } else {
        let r = player_index(ps.drop_last(), id);
        if r < ps.len() - 1 {
            r
        } else if ps.last().id == id {
            (ps.len() - 1) as nat
        } else {
            ps.len()
        }
    }
}

proof fn lemma_player_index_stable(s: Seq<PlayerView>, id: u64, m: int)
    requires
        0 <= m <= s.len(),
        player_index(s.take(m), id) < m,
    ensures
        player_index(s, id) == player_index(s.take(m), id),
    decreases s.len() - m,
{
    if s.len() == m {
        assert(s.take(m) =~= s);
    } else {
        let t = s.drop_last();
        assert(t.take(m) =~= s.take(m));
        lemma_player_index_stable(t, id, m);
    }
}

/// The position of the first player with user id `id`, if any.
pub fn find_player(players: &Vec<Player>, id: u64) -> (r: Option<usize>)
    ensures
        r == if player_index(players@.map_values(|p: Player| p@), id) < players.len() {
            Some(player_index(players@.map_values(|p: Player| p@), id) as usize)
        } else {
            None::<usize>
        },
{
    let ghost ps = players@.map_values(|p: Player| p@);
    let mut i: usize = 0;
    while i < players.len()
        invariant
            i <= players.len(),
            ps == players@.map_values(|p: Player| p@),
            player_index(ps.take(i as int), id) == i,
        decreases players.len() - i,
    {
        proof {
            assert(ps.take(i + 1).drop_last() =~= ps.take(i as int));
        }
        if players[i].id == id {
            proof {
                lemma_player_index_stable(ps, id, i + 1);
            }
            return Some(i);
        }
        i = i + 1;
    }
    assert(ps.take(players.len() as int) =~= ps);
    None
}

/// The players with user id `id`, in order, none of them having acted.
pub open spec fn survivors(ps: Seq<PlayerView>, id: u64) -> Seq<PlayerView>
    decreases ps.len(),
{
    if ps.len() == 0 {
        seq![]
    } else if ps.last().id == id {
        survivors(ps.drop_last(), id).push(PlayerView { action: false, ..ps.last() })
    } else {
        survivors(ps.drop_last(), id)
    }
}

/// The game when the day's vote ends: only the players with the most voted user's id are kept
/// (the rule keeps the eliminated, not the others), it is night, the votes are cleared and
/// nobody has acted.
pub open spec fn day_ended(g: TownNightView) -> TownNightView {
    TownNightView {
        day: DAY::NIGHT,
        players: survivors(g.players, most_voted(g.votes).0),
        votes: seq![],
        skip: g.skip,
    }
}

/// The announcement of the day's elimination.
pub open spec fn elimination_text(name: Seq<char>) -> Seq<char> {
    "votacao acabou o "@ + name + " foi eliminado"@
}

/// Ends the day's vote: the announcement naming the first player of the most voted user, and
/// the game at night.
pub fn end_day(game: TownNight) -> (r: (String, TownNight))
    requires
        player_index(game@.players, most_voted(game@.votes).0) < game@.players.len(),
    ensures
        r.0@ == elimination_text(game@.players[player_index(game@.players, most_voted(game@.votes).0) as int].name),
        r.1@ == day_ended(game@),
{
    let ghost before = game@;
    let user_id = eliminated_user(&game.votes);
    let idx = find_player(&game.players, user_id).unwrap();
    let mut response = "votacao acabou o ".to_owned();
    append(&mut response, game.players[idx].name.as_str());
    append(&mut response, " foi eliminado");
    proof {
        assert(game.players@[idx as int]@ == before.players[idx as int]);
    }
    let mut kept: Vec<Player> = Vec::new();
    let mut i: usize = 0;
    while i < game.players.len()
        invariant
            i <= game.players.len(),
            game@ == before,
            kept@.map_values(|p: Player| p@) == survivors(before.players.take(i as int), user_id),
        decreases game.players.len() - i,
    {
        proof {
            assert(before.players.take(i + 1).drop_last() =~= before.players.take(i as int));
            assert(game.players@[i as int]@ == before.players[i as int]);
        }
        if game.players[i].id == user_id {
            let mut p = game.players[i].duplicate();
            p.action = false;
            let ghost prev = kept@.map_values(|p: Player| p@);
            kept.push(p);
            assert(kept@.map_values(|p: Player| p@) =~= prev.push(p@));
        }
        i = i + 1;
    }
    assert(before.players.take(before.players.len() as int) =~= before.players);
    let next = TownNight { day: DAY::NIGHT, players: kept, votes: Vec::new(), skip: game.skip };
    assert(next@ =~= day_ended(before));
    (response, next)
}


/// What the fortune teller learns about a player.
pub open spec fn reveal_text(name: Seq<char>, role: ROLE) -> Seq<char> {
    "O "@ + name + " e um "@ + role_text(role)
}

/// The players after the night action of the player `id` on `target`: a medic saves the first
/// player of the target, a murderer kills it, others change nothing. Only a player who can
/// still act, with a target, does anything.
pub open spec fn night_effect(ps: Seq<PlayerView>, id: u64, target: Option<u64>) -> Seq<PlayerView> {
    let k = player_index(ps, id);
    if k < ps.len() && can_act(ps[k as int]) && target is Some {
        let j = player_index(ps, target.unwrap());
        if j < ps.len() && ps[k as int].role == ROLE::MEDIC {
            ps.update(j as int, PlayerView { is_death: false, ..ps[j as int] })
        } else if j < ps.len() && ps[k as int].role == ROLE::MURDERER {
            ps.update(j as int, PlayerView { is_death: true, ..ps[j as int] })
        } else {
            ps
        }
    } else {
        ps
    }
}

/// The players after the night action of `id`: the effect, then the first player of `id` has
/// acted.
pub open spec fn night_acted(ps: Seq<PlayerView>, id: u64, target: Option<u64>) -> Seq<PlayerView> {
    let ps1 = night_effect(ps, id, target);
    let k = player_index(ps1, id);
    if k < ps1.len() {
        ps1.update(k as int, PlayerView { action: true, ..ps1[k as int] })
    } else {
        ps1
    }
}

/// What the fortune teller is told, if the player `id` is a fortune teller who can act and
/// the target is a player.
pub open spec fn night_reveal(ps: Seq<PlayerView>, id: u64, target: Option<u64>) -> Option<Seq<char>> {
    let k = player_index(ps, id);
    if k < ps.len() && can_act(ps[k as int]) && target is Some && ps[k as int].role == ROLE::CARTOMANTE {
        let j = player_index(ps, target.unwrap());
        if j < ps.len() {
            Some(reveal_text(ps[j as int].name, ps[j as int].role))
        } else {
            None
        }
    } else {
        None
    }
}

proof fn lemma_player_index_found(s: Seq<PlayerView>, id: u64)
    requires
        player_index(s, id) < s.len(),
    ensures
        s[player_index(s, id) as int].id == id,
    decreases s.len(),
{
    let t = s.drop_last();
    if player_index(t, id) < t.len() {
        lemma_player_index_found(t, id);
    }
}

proof fn lemma_player_index_ids(s: Seq<PlayerView>, u: Seq<PlayerView>, id: u64)
    requires
        s.len() == u.len(),
        forall|i: int| 0 <= i < s.len() ==> (#[trigger] s[i]).id == u[i].id,
    ensures
        player_index(s, id) == player_index(u, id),
    decreases s.len(),
{
    if s.len() > 0 {
        lemma_player_index_ids(s.drop_last(), u.drop_last(), id);
    }
}

impl TownNight {
    /// Replaces the player at position `i`.
    fn set_player(&mut self, i: usize, p: Player)
        requires
            i < old(self).players.len(),
        ensures
            final(self)@ == (TownNightView { players: old(self)@.players.update(i as int, p@), ..old(self)@ }),
    {
        let ghost before = self@;
        self.players.set(i, p);
        assert(self@.players =~= before.players.update(i as int, p@));
    }
}

/// The night action of the player `id` on `target`; answers what a fortune teller learns.
pub fn action_player(id: u64, target: Option<u64>, game: &mut TownNight) -> (told: Option<String>)
    ensures
        final(game)@ == (TownNightView { players: night_acted(old(game)@.players, id, target), ..old(game)@ }),
        match told {
            Some(m) => night_reveal(old(game)@.players, id, target) == Some(m@),
            None => night_reveal(old(game)@.players, id, target) is None,
        },
{
    let ghost before = game@;
    let mut told: Option<String> = None;
    if let Some(k) = find_player(&game.players, id) {
        let player = game.players[k].duplicate();
        proof {
            assert(game.players@[k as int]@ == before.players[k as int]);
        }
        if !player.action && !player.is_death {
            if let Some(t) = target {
                if player.role == ROLE::CARTOMANTE {
                    if let Some(j) = find_player(&game.players, t) {
                        let mut msg = "O ".to_owned();
                        append(&mut msg, game.players[j].name.as_str());
                        append(&mut msg, " e um ");
                        let role_name = game.players[j].role.to_string();
                        append(&mut msg, role_name.as_str());
                        proof {
                            assert(game.players@[j as int]@ == before.players[j as int]);
                        }
                        told = Some(msg);
                    }
                }
                if player.role == ROLE::MEDIC {
                    if let Some(j) = find_player(&game.players, t) {
                        let mut info = game.players[j].duplicate();
                        info.is_death = false;
                        proof {
                            assert(game.players@[j as int]@ == before.players[j as int]);
                        }
                        game.set_player(j, info);
                    }
                }
                if player.role == ROLE::MURDERER {
                    if let Some(j) = find_player(&game.players, t) {
                        let mut info = game.players[j].duplicate();
                        info.is_death = true;
                        proof {
                            assert(game.players@[j as int]@ == before.players[j as int]);
                        }
                        game.set_player(j, info);
                    }
                }
            }
        }
    }
    let ghost mid = game@.players;
    assert(mid == night_effect(before.players, id, target));
    if let Some(k2) = find_player(&game.players, id) {
        let mut p_a = game.players[k2].duplicate();
        p_a.action = true;
        proof {
            assert(game.players@[k2 as int]@ == mid[k2 as int]);
        }
        game.set_player(k2, p_a);
    }
    told
}

/// What the night's end shows: the first dead player's name when everyone has acted, whether
/// the murderers win, whether the village wins.
pub struct NightReport {
    pub killed: Option<String>,
    pub murderers_win: bool,
    pub village_wins: bool,
}


/// How many players alive are murderers (`murderers` true) or not.
pub open spec fn alive_count(ps: Seq<PlayerView>, murderers: bool) -> nat
    decreases ps.len(),
{
    if ps.len() == 0 {
        0
    } else if !ps.last().is_death && (ps.last().role == ROLE::MURDERER) == murderers {
        alive_count(ps.drop_last(), murderers) + 1
    } else {
        alive_count(ps.drop_last(), murderers)
    }
}

/// The position of the first dead player; `ps.len()` where nobody is dead.
pub open spec fn first_dead(ps: Seq<PlayerView>) -> nat
    decreases ps.len(),
{
    if ps.len() == 0 {
        0
    } else {
        let r = first_dead(ps.drop_last());
        if r < ps.len() - 1 {
            r
        } else if ps.last().is_death {
            (ps.len() - 1) as nat
        } else {
            ps.len()
        }
    }
}

proof fn lemma_alive_count_bound(s: Seq<PlayerView>, murderers: bool)
    ensures
        alive_count(s, murderers) <= s.len(),
    decreases s.len(),
{
    if s.len() > 0 {
        lemma_alive_count_bound(s.drop_last(), murderers);
    }
}

/// The night ends with a death when everyone has acted and someone is dead.
pub open spec fn night_ends(ps: Seq<PlayerView>) -> bool {
    all_acted(ps) && first_dead(ps) < ps.len()
}

/// The night ends only once every player has acted, and only with a dead player, the first
/// one of the game being the one announced: while a player has still to act, no death is
/// announced and the night goes on.
pub proof fn lemma_night_ends_after_everyone(ps: Seq<PlayerView>)
    ensures
        night_ends(ps) ==> forall|i: int| 0 <= i < ps.len() ==> (#[trigger] ps[i]).action,
        night_ends(ps) ==> ps[first_dead(ps) as int].is_death && forall|i: int|
            0 <= i < first_dead(ps) ==> !(#[trigger] ps[i]).is_death,
        (exists|i: int| 0 <= i < ps.len() && !(#[trigger] ps[i]).action) ==> !night_ends(ps),
        (forall|i: int| 0 <= i < ps.len() ==> (#[trigger] ps[i]).action)
            && (exists|i: int| 0 <= i < ps.len() && (#[trigger] ps[i]).is_death) ==> night_ends(ps),
{
    lemma_first_dead(ps);
}

proof fn lemma_first_dead(ps: Seq<PlayerView>)
    ensures
        first_dead(ps) <= ps.len(),
        first_dead(ps) < ps.len() ==> ps[first_dead(ps) as int].is_death,
        forall|i: int| 0 <= i < first_dead(ps) && i < ps.len() ==> !(#[trigger] ps[i]).is_death,
        (exists|i: int| 0 <= i < ps.len() && (#[trigger] ps[i]).is_death) ==> first_dead(ps) < ps.len(),
    decreases ps.len(),
{
    if ps.len() > 0 {
        let t = ps.drop_last();
        lemma_first_dead(t);
        assert forall|i: int| 0 <= i < first_dead(ps) && i < ps.len() implies !(#[trigger] ps[i]).is_death by {
            if i < t.len() {
                assert(ps[i] == t[i]);
            }
        }
        if exists|i: int| 0 <= i < ps.len() && (#[trigger] ps[i]).is_death {
            let i = choose|i: int| 0 <= i < ps.len() && (#[trigger] ps[i]).is_death;
            if i < t.len() {
                assert(t[i] == ps[i]);
            }
        }
        if first_dead(t) < t.len() {
            assert(ps[first_dead(t) as int] == t[first_dead(t) as int]);
        }
    }
}

/// Closes the night: when everyone has acted and someone is dead, the first dead player is
/// announced and the morning comes; the murderers win when they are at least as many as the
/// other living players, the village wins when no murderer lives.
pub fn resolve_night(game: &mut TownNight) -> (r: NightReport)
    ensures
        final(game)@ == if night_ends(old(game)@.players) {
            TownNightView { day: DAY::MORNING, ..old(game)@ }
        } else {
            old(game)@
        },
        match r.killed {
            Some(name) => night_ends(old(game)@.players) && name@ == old(game)@.players[first_dead(old(game)@.players) as int].name,
            None => !night_ends(old(game)@.players),
        },
        r.murderers_win == (alive_count(old(game)@.players, true) >= alive_count(old(game)@.players, false)),
        r.village_wins == (alive_count(old(game)@.players, true) == 0),
        r.killed is Some ==> all_acted(old(game)@.players),
        final(game)@.day != old(game)@.day ==> all_acted(old(game)@.players),
{
    let ghost ps = game@.players;
    let mut murders_live: usize = 0;
    let mut not_murders_live: usize = 0;
    let mut dead: Option<usize> = None;
    let mut i: usize = 0;
    while i < game.players.len()
        invariant
            i <= game.players.len(),
            ps == game@.players,
            murders_live == alive_count(ps.take(i as int), true),
            not_murders_live == alive_count(ps.take(i as int), false),
            murders_live <= i,
            not_murders_live <= i,
            match dead {
                Some(d) => d < i && first_dead(ps.take(i as int)) == d,
                None => first_dead(ps.take(i as int)) == i,
            },
        decreases game.players.len() - i,
    {
        proof {
            assert(ps.take(i + 1).drop_last() =~= ps.take(i as int));
            assert(game.players@[i as int]@ == ps[i as int]);
        }
        let p = &game.players[i];
        if !p.is_death && p.role == ROLE::MURDERER {
            murders_live = murders_live + 1;
        }
        if !p.is_death && p.role != ROLE::MURDERER {
            not_murders_live = not_murders_live + 1;
        }
        if dead.is_none() && p.is_death {
            dead = Some(i);
        }
        i = i + 1;
    }
    proof {
        assert(ps.take(ps.len() as int) =~= ps);
    }
    let all = everyone_acted(game);
    let mut killed: Option<String> = None;
    if all {
        if let Some(d) = dead {
            proof {
                assert(game.players@[d as int]@ == ps[d as int]);
            }
            killed = Some(game.players[d].name.clone());
            game.day = DAY::MORNING;
        }
    }
    NightReport {
        killed,
        murderers_win: murders_live >= not_murders_live,
        village_wins: murders_live == 0,
    }
}

/// The announcement of the night's death.
pub open spec fn killed_text(name: Seq<char>) -> Seq<char> {
    "O jogador "@ + name + " foi morto"@
}

/// The announcement of the night's death.
pub fn killed_message(name: &String) -> (m: String)
    ensures
        m@ == killed_text(name@),
{
    let mut m = "O jogador ".to_owned();
    append(&mut m, name.as_str());
    append(&mut m, " foi morto");
    m
}

/// The message that tells a player its role.
pub fn role_message(role: ROLE) -> (m: String)
    ensures
        m@ == "VC e o "@ + role_text(role),
{
    let mut m = "VC e o ".to_owned();
    let r = role.to_string();
    append(&mut m, r.as_str());
    m
}


/// The roles dealt in a game of `n` players, in order.
pub open spec fn role_plan(n: nat) -> Seq<ROLE> {
    if n == 4 {
        seq![ROLE::MURDERER]
    } else if 4 < n < 6 {
        seq![ROLE::MURDERER, ROLE::CARTOMANTE]
    } else if n >= 7 {
        seq![ROLE::MURDERER, ROLE::MURDERER, ROLE::CARTOMANTE, ROLE::MEDIC]
    } else {
        seq![]
    }
}

/// The plain values of a list of players.
pub open spec fn roster(v: Seq<Player>) -> Seq<PlayerView> {
    v.map_values(|p: Player| p@)
}

/// The players after dealing `role` to the player at `pick`: a murderer keeps its role.
pub open spec fn with_role(ps: Seq<PlayerView>, role: ROLE, pick: int) -> Seq<PlayerView> {
    if ps[pick].role != ROLE::MURDERER {
        ps.update(pick, PlayerView { role, ..ps[pick] })
    } else {
        ps
    }
}

/// The players after dealing the roles of `plan` in order to the players at `picks`.
pub open spec fn dealt(ps: Seq<PlayerView>, plan: Seq<ROLE>, picks: Seq<int>) -> Seq<PlayerView>
    decreases plan.len(),
{
    if plan.len() == 0 || picks.len() != plan.len() {
        ps
    } else {
        with_role(dealt(ps, plan.drop_last(), picks.drop_last()), plan.last(), picks.last())
    }
}

fn give_role(players: Vec<Player>, role: ROLE, pick: usize) -> (v: Vec<Player>)
    requires
        pick < players.len(),
    ensures
        v.len() == players.len(),
        roster(v@) == with_role(roster(players@), role, pick as int),
{
    let mut list_players = players;
    let ghost before = roster(list_players@);
    if list_players[pick].role != ROLE::MURDERER {
        let mut p = list_players[pick].duplicate();
        p.role = role;
        proof {
            assert(list_players@[pick as int]@ == before[pick as int]);
        }
        list_players.set(pick, p);
        assert(roster(list_players@) =~= with_role(before, role, pick as int));
    }
    list_players
}

/// Deals `role` to the player at `pick` (a murderer keeps its role); `None` where `pick` is
/// past the last player.
pub fn assign_role(players: Vec<Player>, role: ROLE, pick: usize) -> (r: Option<Vec<Player>>)
    ensures
        match r {
            Some(v) => pick < players.len() && roster(v@) == with_role(roster(players@), role, pick as int),
            None => pick >= players.len(),
        },
{
    if pick < players.len() {
        Some(give_role(players, role, pick))
    } else {
        None
    }
}

/// A random position from 0 to `len`, both included.
///
/// Trusted: `rand::thread_rng().gen_range(0..=len)` returns a number of the range, which is
/// never empty; which one is left to chance.
#[verifier::external_body]
fn random_pick(len: usize) -> (r: usize)
    ensures
        r <= len,
{
    rand::thread_rng().gen_range(0..=len)
}

/// Deals `role` to a player at a random position from 0 to the number of players; where the
/// position falls one past the last player no player can be dealt the role: `None` then, and
/// always for no players.
pub fn set_role(list_players: Vec<Player>, role: ROLE) -> (r: Option<Vec<Player>>)
    ensures
        r matches Some(v) ==> exists|pick: int|
            0 <= pick < list_players.len() && roster(v@) == #[trigger] with_role(
                roster(list_players@),
                role,
                pick,
            ),
        list_players.len() == 0 ==> r is None,
{
    let ghost before = roster(list_players@);
    let cp = random_pick(list_players.len());
    let r = assign_role(list_players, role, cp);
    if let Some(v) = &r {
        assert(roster(v@) == with_role(before, role, cp as int));
    }
    r
}

/// The players after the roles of `plan` are dealt to the players at `picks`, one pick per role
/// in order; `None` where there is not one pick per role or a pick is past the last player.
pub open spec fn deal_result(ps: Seq<PlayerView>, plan: Seq<ROLE>, picks: Seq<int>) -> Option<Seq<PlayerView>> {
    if picks.len() == plan.len() && forall|i: int| 0 <= i < picks.len() ==> 0 <= #[trigger] picks[i] < ps.len() {
        Some(dealt(ps, plan, picks))
    } else {
        None
    }
}

/// The positions `picks` as integers.
pub open spec fn positions(picks: Seq<usize>) -> Seq<int> {
    picks.map_values(|k: usize| k as int)
}

/// The roles of a game of `n` players, in the order in which they are dealt.
fn role_plan_of(n: usize) -> (v: Vec<ROLE>)
    ensures
        v@ == role_plan(n as nat),
{
    let mut plan_exec: Vec<ROLE> = Vec::new();
    if n == 4 {
        plan_exec.push(ROLE::MURDERER);
    } else if n > 4 && n < 6 {
        plan_exec.push(ROLE::MURDERER);
        plan_exec.push(ROLE::CARTOMANTE);
    } else if n >= 7 {
        plan_exec.push(ROLE::MURDERER);
        plan_exec.push(ROLE::MURDERER);
        plan_exec.push(ROLE::CARTOMANTE);
        plan_exec.push(ROLE::MEDIC);
    }
    assert(plan_exec@ =~= role_plan(n as nat));
    plan_exec
}

/// Deals the roles of a game of this size to the players at `picks` (see `deal_result`).
pub fn deal_roles(list_players: Vec<Player>, picks: &Vec<usize>) -> (r: Option<Vec<Player>>)
    ensures
        match r {
            Some(v) => deal_result(
                roster(list_players@),
                role_plan(list_players.len() as nat),
                positions(picks@),
            ) == Some(roster(v@)),
            None => deal_result(
                roster(list_players@),
                role_plan(list_players.len() as nat),
                positions(picks@),
            ) is None,
        },
{
    let n = list_players.len();
    let plan_exec = role_plan_of(n);
    if picks.len() != plan_exec.len() {
        return None;
    }
    let mut j: usize = 0;
    while j < picks.len()
        invariant
            j <= picks.len() == plan_exec.len(),
            plan_exec@ == role_plan(n as nat),
            n == list_players.len(),
            forall|k: int| 0 <= k < j ==> 0 <= #[trigger] positions(picks@)[k] < n,
        decreases picks.len() - j,
    {
        if picks[j] >= n {
            assert(!(0 <= positions(picks@)[j as int] < roster(list_players@).len()));
            return None;
        }
        j = j + 1;
    }
    let ghost start = roster(list_players@);
    let ghost all_picks = positions(picks@);
    let ghost plan = plan_exec@;
    let mut players = list_players;
    let mut i: usize = 0;
    while i < plan_exec.len()
        invariant
            i <= plan_exec.len() == picks.len(),
            plan_exec@ == plan,
            all_picks == positions(picks@),
            players.len() == n,
            forall|k: int| 0 <= k < all_picks.len() ==> 0 <= #[trigger] all_picks[k] < n,
            roster(players@) == dealt(start, plan.take(i as int), all_picks.take(i as int)),
        decreases plan_exec.len() - i,
    {
        proof {
            assert(plan.take(i + 1).drop_last() =~= plan.take(i as int));
            assert(all_picks.take(i + 1).drop_last() =~= all_picks.take(i as int));
            assert(all_picks[i as int] == picks@[i as int] as int);
        }
        players = give_role(players, plan_exec[i], picks[i]);
        i = i + 1;
    }
    assert(plan.take(plan.len() as int) =~= plan);
    assert(all_picks.take(all_picks.len() as int) =~= all_picks);
    Some(players)
}

/// Deals the roles of a game of this size to players at random positions, each drawn from 0 to
/// the number of players (see `deal_roles`); `None` where a position falls one past the last
/// player. A game of a size that deals no role keeps its players as they are.
pub fn set_roles_to_players(list_players: Vec<Player>) -> (r: Option<Vec<Player>>)
    ensures
        exists|picks: Seq<int>| {
            &&& picks.len() == role_plan(list_players.len() as nat).len()
            &&& forall|i: int| 0 <= i < picks.len() ==> 0 <= #[trigger] picks[i] <= list_players.len()
            &&& match r {
                Some(v) => deal_result(roster(list_players@), role_plan(list_players.len() as nat), picks)
                    == Some(roster(v@)),
                None => deal_result(roster(list_players@), role_plan(list_players.len() as nat), picks) is None,
            }
        },
        role_plan(list_players.len() as nat).len() == 0 ==> (r matches Some(v) && roster(v@) == roster(
            list_players@,
        )),
{
    let n = list_players.len();
    let plan_len = role_plan_of(n).len();
    let mut picks: Vec<usize> = Vec::new();
    let mut i: usize = 0;
    while i < plan_len
        invariant
            i <= plan_len,
            picks.len() == i,
            forall|k: int| 0 <= k < i ==> #[trigger] picks@[k] <= n,
        decreases plan_len - i,
    {
        picks.push(random_pick(n));
        i = i + 1;
    }
    let ghost ps = roster(list_players@);
    let ghost all_picks = positions(picks@);
    let r = deal_roles(list_players, &picks);
    assert(forall|k: int| 0 <= k < all_picks.len() ==> 0 <= #[trigger] all_picks[k] <= n);
    if plan_len == 0 {
        assert(all_picks =~= Seq::<int>::empty());
    }
    r
}


impl TownNight {
    /// A copy of the game.
    pub fn duplicate(&self) -> (g: TownNight)
        ensures
            g@ == self@,
    {
        let mut players: Vec<Player> = Vec::new();
        let mut i: usize = 0;
        while i < self.players.len()
            invariant
                i <= self.players.len(),
                players@.len() == i,
                forall|k: int| 0 <= k < i ==> (#[trigger] players@[k])@ == self.players@[k]@,
            decreases self.players.len() - i,
        {
            players.push(self.players[i].duplicate());
            i = i + 1;
        }
        let mut votes: Vec<(u64, i32)> = Vec::new();
        let mut j: usize = 0;
        while j < self.votes.len()
            invariant
                j <= self.votes.len(),
                votes@ == self.votes@.take(j as int),
            decreases self.votes.len() - j,
        {
            votes.push(self.votes[j]);
            j = j + 1;
            assert(votes@ =~= self.votes@.take(j as int));
        }
        assert(self.votes@.take(self.votes.len() as int) =~= self.votes@);
        let g = TownNight { day: self.day, players, votes, skip: self.skip };
        assert(g@.players =~= self@.players);
        g
    }
}

/// What the bot does in a player's turn: say something in the channel, tell the player
/// something in private, or store the game.
pub enum TurnAction {
    Say(String),
    Tell(String),
    Store(TownNight),
}

/// The plain values of a `TurnAction`.
pub enum TurnActionView {
    Say(Seq<char>),
    Tell(Seq<char>),
    Store(TownNightView),
}

impl View for TurnAction {
    type V = TurnActionView;

    open spec fn view(&self) -> TurnActionView {
        match self {
            TurnAction::Say(m) => TurnActionView::Say(m@),
            TurnAction::Tell(m) => TurnActionView::Tell(m@),
            TurnAction::Store(g) => TurnActionView::Store(g@),
        }
    }
}

/// The plain values of a list of actions.
pub open spec fn actions_view(v: Seq<TurnAction>) -> Seq<TurnActionView> {
    v.map_values(|a: TurnAction| a@)
}

/// The day part of a turn of `author` on `target` in the stored game `g`: the actions, and the
/// game that the night part then reads. In the morning the vote is registered; when everyone
/// has acted the day ends and the game at night is stored; otherwise nothing is stored and the
/// night part reads the stored game. `None` where the turn cannot run: no target in the
/// morning, a count that would overflow, or a most voted user who is not a player.
pub open spec fn day_part(g: TownNightView, author: u64, target: Option<u64>, skip: bool) -> Option<(Seq<TurnActionView>, TownNightView)> {
    if g.day != DAY::MORNING {
        Some((seq![], g))
    } else if target is None {
        None
    } else if (vote_counts(g.players, author, target.unwrap()) && vote_count(g.votes, target.unwrap()) == i32::MAX)
        || (skip && g.skip == i32::MAX) {
        None
    } else {
        let g1 = voted(g, author, target);
        if all_acted(g1.players) {
            let k = player_index(g1.players, most_voted(g1.votes).0);
            if k < g1.players.len() {
                let g2 = day_ended(g1);
                Some((
                    seq![
                        TurnActionView::Say("Acao registrada!"@),
                        TurnActionView::Say(elimination_text(g1.players[k as int].name)),
                        TurnActionView::Say("O dia acabou! Cuidado com os PERIGOS da noite!"@),
                        TurnActionView::Store(g2),
                    ],
                    g2,
                ))
            } else {
                None
            }
        } else {
            Some((seq![TurnActionView::Say("Acao registrada!"@)], g))
        }
    }
}

/// The night part of a turn of `author` on `target` in the game `g`: at night the action is
/// taken (a fortune teller is told what it learns), and when the night ends with a death the
/// death is announced and the game in the morning is stored; then the winners, if any, are
/// announced.
pub open spec fn night_part(g: TownNightView, author: u64, target: Option<u64>) -> Seq<TurnActionView> {
    if g.day != DAY::NIGHT {
        seq![]
    } else {
        let ps = night_acted(g.players, author, target);
        let told = match night_reveal(g.players, author, target) {
            Some(m) => seq![TurnActionView::Tell(m)],
            None => seq![],
        };
        let death = if night_ends(ps) {
            seq![
                TurnActionView::Say(killed_text(ps[first_dead(ps) as int].name)),
                TurnActionView::Say("Comeca mais um dia na vila!"@),
                TurnActionView::Store(TownNightView { day: DAY::MORNING, players: ps, ..g }),
            ]
        } else {
            seq![]
        };
        let murderers = if alive_count(ps, true) >= alive_count(ps, false) {
            seq![TurnActionView::Say("Os Assasinos ganharam!"@)]
        } else {
            seq![]
        };
        let village = if alive_count(ps, true) == 0 {
            seq![TurnActionView::Say("A vila venceu!"@)]
        } else {
            seq![]
        };
        seq![TurnActionView::Say("testando se foi para noite mesmo kkk"@)] + told + seq![
            TurnActionView::Say("Comando Registrado!"@),
        ] + death + murderers + village
    }
}

/// The whole turn: the day part, then the night part on the game it leaves.
pub open spec fn turn_actions(g: TownNightView, author: u64, target: Option<u64>, skip: bool) -> Option<Seq<TurnActionView>> {
    match day_part(g, author, target, skip) {
        Some((day, g2)) => Some(day + night_part(g2, author, target)),
        None => None,
    }
}

fn say(text: &str) -> (a: TurnAction)
    ensures
        a@ == TurnActionView::Say(text@),
{
    TurnAction::Say(text.to_owned())
}

/// A turn of the player `author` on `target` (and a skip, if any) in the stored game: the
/// actions to take, in order (see `turn_actions`); `None` where the turn cannot run.
#[verifier::rlimit(30)]
pub fn town_night_turn(stored: TownNight, author: u64, target: Option<u64>, skip: Option<String>) -> (r: Option<Vec<TurnAction>>)
    ensures
        match r {
            Some(v) => turn_actions(stored@, author, target, skip is Some) == Some(actions_view(v@)),
            None => turn_actions(stored@, author, target, skip is Some) is None,
        },
{
    let ghost g = stored@;
    let mut actions: Vec<TurnAction> = Vec::new();
    let mut current = stored;
    if current.day == DAY::MORNING {
        let t = match target {
            Some(t) => t,
            None => return None,
        };
        let owner_can = find_acting(&current.players, author);
        let target_can = find_acting(&current.players, t);
        let k = find_vote(&current.votes, t);
        let count = if k < current.votes.len() {
            current.votes[k].1
        } else {
            0
        };
        if (owner_can && target_can && count == i32::MAX) || (skip.is_some() && current.skip == i32::MAX) {
            return None;
        }
        let kept_game = current.duplicate();
        let g1 = vote_player(author, target, current, skip);
        actions.push(say("Acao registrada!"));
        if everyone_acted(&g1) {
            let winner = eliminated_user(&g1.votes);
            match find_player(&g1.players, winner) {
                None => return None,
                Some(idx) => {
                    proof {
                        assert(g1.players@[idx as int]@ == g1@.players[idx as int]);
                    }
                    let (response, g2) = end_day(g1);
                    actions.push(TurnAction::Say(response));
                    actions.push(say("O dia acabou! Cuidado com os PERIGOS da noite!"));
                    let stored_copy = g2.duplicate();
                    actions.push(TurnAction::Store(stored_copy));
                    current = g2;
                },
            }
        } else {
            current = kept_game;
        }
    }
    let ghost day = actions_view(actions@);
    let ghost mid = current@;
    assert(day_part(g, author, target, skip is Some) == Some((day, mid)));
    if current.day == DAY::NIGHT {
        let ghost before = current@;
        actions.push(say("testando se foi para noite mesmo kkk"));
        let told = action_player(author, target, &mut current);
        match told {
            Some(m) => actions.push(TurnAction::Tell(m)),
            None => {},
        }
        actions.push(say("Comando Registrado!"));
        let ghost ps = current@.players;
        let report = resolve_night(&mut current);
        match report.killed {
            Some(name) => {
                actions.push(TurnAction::Say(killed_message(&name)));
                actions.push(say("Comeca mais um dia na vila!"));
                let stored_copy = current.duplicate();
                actions.push(TurnAction::Store(stored_copy));
            },
            None => {},
        }
        if report.murderers_win {
            actions.push(say("Os Assasinos ganharam!"));
        }
        if report.village_wins {
            actions.push(say("A vila venceu!"));
        }
        assert(actions_view(actions@) =~= day + night_part(before, author, target));
    } else {
        assert(actions_view(actions@) =~= day + night_part(mid, author, target));
    }
    Some(actions)
}

/// Whether a player with user id `id` can still act.
fn find_acting(players: &Vec<Player>, id: u64) -> (b: bool)
    ensures
        b == may_act(players@.map_values(|p: Player| p@), id),
{
    let ghost ps = players@.map_values(|p: Player| p@);
    let mut i: usize = 0;
    while i < players.len()
        invariant
            i <= players.len(),
            ps == players@.map_values(|p: Player| p@),
            forall|k: int| 0 <= k < i ==> !(can_act(ps[k]) && ps[k].id == id),
        decreases players.len() - i,
    {
        proof {
            assert(ps[i as int] == players@[i as int]@);
        }
        if !players[i].action && !players[i].is_death && players[i].id == id {
            return true;
        }
        i = i + 1;
    }
    false
}

/// The users whose voice state is in `channel`, in order.
pub open spec fn in_channel(states: Seq<(u64, Option<u64>)>, channel: u64) -> Seq<u64>
    decreases states.len(),
{
    if states.len() == 0 {
        seq![]
    } else if states.last().1 == Some(channel) {
        in_channel(states.drop_last(), channel).push(states.last().0)
    } else {
        in_channel(states.drop_last(), channel)
    }
}

/// The users in the voice channel `channel`, given each user's voice channel (every voice state
/// must name a channel).
pub fn players_in_channel(voice_states: &Vec<(u64, Option<u64>)>, channel: u64) -> (v: Vec<u64>)
    requires
        forall|i: int| 0 <= i < voice_states.len() ==> (#[trigger] voice_states@[i]).1 is Some,
    ensures
        v@ == in_channel(voice_states@, channel),
{
    let mut users_in_call: Vec<u64> = Vec::new();
    let mut i: usize = 0;
    while i < voice_states.len()
        invariant
            i <= voice_states.len(),
            users_in_call@ == in_channel(voice_states@.take(i as int), channel),
        decreases voice_states.len() - i,
    {
        proof {
            assert(voice_states@.take(i + 1).drop_last() =~= voice_states@.take(i as int));
        }
        let (user_id, state) = voice_states[i];
        if state == Some(channel) {
            users_in_call.push(user_id);
        }
        i = i + 1;
    }
    assert(voice_states@.take(voice_states.len() as int) =~= voice_states@);
    users_in_call
}

/// The fewest players a game needs.
pub const MIN_PLAYERS: usize = 4;

/// The new players for the members `ids` of the table, in order, each named after its member.
pub fn game_players(table: &MemberTable, ids: &Vec<u64>) -> (v: Vec<Player>)
    requires
        forall|i: int| 0 <= i < ids.len() ==> has_id(table@, #[trigger] ids@[i]),
    ensures
        v.len() == ids.len(),
        forall|i: int| 0 <= i < ids.len() ==> (#[trigger] v@[i])@ == (PlayerView {
            id: table@[position_of(table@, ids@[i])].member.user_id,
            name: table@[position_of(table@, ids@[i])].member.name,
            role: ROLE::VILLAGER,
            action: false,
            is_death: false,
        }),
{
    let mut v: Vec<Player> = Vec::new();
    let mut i: usize = 0;
    while i < ids.len()
        invariant
            i <= ids.len(),
            forall|k: int| 0 <= k < ids.len() ==> has_id(table@, #[trigger] ids@[k]),
            v.len() == i,
            forall|k: int| 0 <= k < i ==> (#[trigger] v@[k])@ == (PlayerView {
                id: table@[position_of(table@, ids@[k])].member.user_id,
                name: table@[position_of(table@, ids@[k])].member.name,
                role: ROLE::VILLAGER,
                action: false,
                is_death: false,
            }),
        decreases ids.len() - i,
    {
        let m = table.get(ids[i]).unwrap();
        let member = m.member();
        v.push(Player::new(member.user_id, member.name.clone()));
        i = i + 1;
    }
    v
}


/// A player votes once a day: after voting with a target, the voter cannot act any more, so a
/// second vote of the same player changes no count.
pub proof fn lemma_one_vote_per_day(g: TownNightView, owner: u64, first: u64, second: u64)
    ensures
        !may_act(voted(g, owner, Some(first)).players, owner),
        voted(voted(g, owner, Some(first)), owner, Some(second)).votes == voted(g, owner, Some(first)).votes,
{
    let ps = voted(g, owner, Some(first)).players;
    assert forall|i: int| 0 <= i < ps.len() && ps[i].id == owner implies !can_act(ps[i]) by {
        assert(ps[i] == after_vote(g.players[i], owner));
    }
}

/// The end of the day clears the votes, brings the night and leaves every player free to act.
pub proof fn lemma_day_end_resets(g: TownNightView)
    ensures
        day_ended(g).votes.len() == 0,
        day_ended(g).day == DAY::NIGHT,
        forall|i: int| 0 <= i < day_ended(g).players.len() ==> !(#[trigger] day_ended(g).players[i]).action,
        forall|i: int| 0 <= i < day_ended(g).players.len() ==> (#[trigger] day_ended(g).players[i]).id == most_voted(g.votes).0,
{
    lemma_survivors(g.players, most_voted(g.votes).0);
}

proof fn lemma_survivors(ps: Seq<PlayerView>, id: u64)
    ensures
        forall|i: int| 0 <= i < survivors(ps, id).len() ==> !(#[trigger] survivors(ps, id)[i]).action && survivors(ps, id)[i].id == id,
    decreases ps.len(),
{
    if ps.len() > 0 {
        lemma_survivors(ps.drop_last(), id);
        let r = survivors(ps, id);
        let rt = survivors(ps.drop_last(), id);
        assert forall|i: int| 0 <= i < r.len() implies !(#[trigger] r[i]).action && r[i].id == id by {
            if i < rt.len() {
                assert(r[i] == rt[i]);
            }
        }
    }
}

/// Dealing roles changes only roles: the players keep their ids, names, actions and deaths.
pub proof fn lemma_dealing_keeps_players(ps: Seq<PlayerView>, plan: Seq<ROLE>, picks: Seq<int>)
    requires
        forall|i: int| 0 <= i < picks.len() ==> 0 <= #[trigger] picks[i] < ps.len(),
    ensures
        dealt(ps, plan, picks).len() == ps.len(),
        forall|i: int| 0 <= i < ps.len() ==> {
            &&& (#[trigger] dealt(ps, plan, picks)[i]).id == ps[i].id
            &&& dealt(ps, plan, picks)[i].name == ps[i].name
            &&& dealt(ps, plan, picks)[i].action == ps[i].action
            &&& dealt(ps, plan, picks)[i].is_death == ps[i].is_death
        },
    decreases plan.len(),
{
    if plan.len() > 0 && picks.len() == plan.len() {
        let pp = picks.drop_last();
        assert forall|i: int| 0 <= i < pp.len() implies 0 <= #[trigger] pp[i] < ps.len() by {
            assert(pp[i] == picks[i]);
        }
        lemma_dealing_keeps_players(ps, plan.drop_last(), pp);
    }
}

} // verus!
