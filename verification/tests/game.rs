use bot_scythe::calendar::Moment;
use bot_scythe::game::{
    action_player, assign_role, deal_roles, eliminated_user, end_day, everyone_acted,
    find_player, game_players, killed_message, players_in_channel, resolve_night, role_message,
    set_role, set_roles_to_players, town_night_turn, vote_player, Player, TownNight, TurnAction, DAY,
    ROLE,
};
use bot_scythe::member::{Member, MemberModel, MemberTable};

fn player(id: u64, name: &str, role: ROLE) -> Player {
    let mut p = Player::new(id, name.to_string());
    p.role = role;
    p
}

fn game(players: Vec<Player>) -> TownNight {
    TownNight::new(players)
}

fn town() -> TownNight {
    game(vec![
        player(1, "a", ROLE::VILLAGER),
        player(2, "b", ROLE::MURDERER),
        player(3, "c", ROLE::CARTOMANTE),
    ])
}

#[test]
fn new_game_starts_in_the_morning() {
    let g = town();
    assert_eq!(g.day, DAY::MORNING);
    assert!(g.votes.is_empty());
    assert_eq!(g.skip, 0);
    let p = Player::new(4, "d".to_string());
    assert_eq!(p.role, ROLE::VILLAGER);
    assert!(!p.action && !p.is_death);
}

#[test]
fn a_vote_counts_once() {
    let g = vote_player(1, Some(2), town(), None);
    assert_eq!(g.votes, vec![(2, 1)]);
    assert!(g.players[0].action);
    let g = vote_player(1, Some(3), g, None);
    assert_eq!(g.votes, vec![(2, 1)]);
    let g = vote_player(2, Some(2), g, Some("skip".to_string()));
    assert_eq!(g.votes, vec![(2, 2)]);
    assert_eq!(g.skip, 0);
}

#[test]
fn no_target_no_vote() {
    let g = vote_player(1, None, town(), None);
    assert!(g.votes.is_empty());
    assert!(!g.players[0].action);
}

#[test]
fn the_dead_do_not_vote() {
    let mut g = town();
    g.players[0].is_death = true;
    let g = vote_player(1, Some(2), g, None);
    assert!(g.votes.is_empty());
    assert!(!g.players[0].action);
}

#[test]
fn most_votes_win_first_on_ties() {
    assert_eq!(eliminated_user(&vec![(5, 1), (6, 3), (7, 3)]), 6);
    assert_eq!(eliminated_user(&vec![]), 0);
}

#[test]
fn the_day_ends_with_an_elimination() {
    let mut g = town();
    g.votes = vec![(2, 2), (3, 1)];
    for p in g.players.iter_mut() {
        p.action = true;
    }
    assert!(everyone_acted(&g));
    assert_eq!(find_player(&g.players, 2), Some(1));
    let (msg, next) = end_day(g);
    assert_eq!(msg, "votacao acabou o b foi eliminado");
    assert_eq!(next.day, DAY::NIGHT);
    assert!(next.votes.is_empty());
    assert_eq!(next.players.len(), 1);
    assert_eq!(next.players[0].id, 2);
    assert!(!next.players[0].action);
}

#[test]
fn murderer_kills_and_medic_saves() {
    let mut g = game(vec![
        player(1, "a", ROLE::VILLAGER),
        player(2, "b", ROLE::MURDERER),
        player(3, "c", ROLE::MEDIC),
    ]);
    g.day = DAY::NIGHT;
    assert_eq!(action_player(2, Some(1), &mut g), None);
    assert!(g.players[0].is_death);
    assert!(g.players[1].action);
    action_player(3, Some(1), &mut g);
    assert!(!g.players[0].is_death);
    assert!(g.players[2].action);
    action_player(2, Some(3), &mut g);
    assert!(!g.players[2].is_death);
}

#[test]
fn fortune_teller_learns_a_role() {
    let mut g = town();
    let told = action_player(3, Some(2), &mut g);
    assert_eq!(told, Some("O b e um MURDERER".to_string()));
    assert!(g.players[2].action);
    let told = action_player(3, Some(2), &mut g);
    assert_eq!(told, None);
}

#[test]
fn the_night_ends_with_a_death() {
    let mut g = town();
    g.day = DAY::NIGHT;
    action_player(2, Some(1), &mut g);
    action_player(1, None, &mut g);
    action_player(3, Some(1), &mut g);
    let r = resolve_night(&mut g);
    assert_eq!(r.killed, Some("a".to_string()));
    assert_eq!(g.day, DAY::MORNING);
    assert!(r.murderers_win);
    assert!(!r.village_wins);
}

#[test]
fn murderers_win_when_as_many() {
    let mut g = game(vec![player(1, "a", ROLE::VILLAGER), player(2, "b", ROLE::MURDERER)]);
    g.day = DAY::NIGHT;
    let r = resolve_night(&mut g);
    assert_eq!(r.killed, None);
    assert_eq!(g.day, DAY::NIGHT);
    assert!(r.murderers_win);
    assert!(!r.village_wins);
}

#[test]
fn village_wins_without_murderers() {
    let mut g = game(vec![player(1, "a", ROLE::VILLAGER), player(2, "b", ROLE::MEDIC)]);
    let r = resolve_night(&mut g);
    assert!(r.village_wins);
    assert!(!r.murderers_win);
}

#[test]
fn dealing_a_role() {
    let ps = vec![player(1, "a", ROLE::VILLAGER), player(2, "b", ROLE::MURDERER)];
    let ps = assign_role(ps, ROLE::MEDIC, 0).unwrap();
    assert_eq!(ps[0].role, ROLE::MEDIC);
    let ps = assign_role(ps, ROLE::MEDIC, 1).unwrap();
    assert_eq!(ps[1].role, ROLE::MURDERER);
    assert!(assign_role(ps, ROLE::MEDIC, 2).is_none());
}

#[test]
fn a_role_for_nobody() {
    assert!(set_role(Vec::new(), ROLE::MEDIC).is_none());
}

#[test]
fn dealing_at_given_positions() {
    let ps: Vec<Player> = (1..=7).map(|i| player(i, "p", ROLE::VILLAGER)).collect();
    let dealt = deal_roles(ps, &vec![0, 0, 3, 5]).unwrap();
    let roles: Vec<ROLE> = dealt.iter().map(|p| p.role).collect();
    assert_eq!(
        roles,
        vec![
            ROLE::MURDERER,
            ROLE::VILLAGER,
            ROLE::VILLAGER,
            ROLE::CARTOMANTE,
            ROLE::VILLAGER,
            ROLE::MEDIC,
            ROLE::VILLAGER
        ]
    );
    let ps: Vec<Player> = (1..=5).map(|i| player(i, "p", ROLE::VILLAGER)).collect();
    let dealt = deal_roles(ps, &vec![2, 2]).unwrap();
    assert_eq!(dealt[2].role, ROLE::MURDERER);
    assert_eq!(dealt.iter().filter(|p| p.role != ROLE::VILLAGER).count(), 1);
    let ps: Vec<Player> = (1..=4).map(|i| player(i, "p", ROLE::VILLAGER)).collect();
    assert!(deal_roles(ps, &vec![4]).is_none());
    let ps: Vec<Player> = (1..=4).map(|i| player(i, "p", ROLE::VILLAGER)).collect();
    assert!(deal_roles(ps, &vec![1, 2]).is_none());
}

#[test]
fn small_games_deal_no_role() {
    let ps = vec![player(1, "a", ROLE::VILLAGER), player(2, "b", ROLE::VILLAGER), player(3, "c", ROLE::VILLAGER)];
    let dealt = set_roles_to_players(ps).unwrap();
    assert!(dealt.iter().all(|p| p.role == ROLE::VILLAGER));
}

#[test]
fn four_players_get_one_murderer() {
    loop {
        let ps: Vec<Player> = (1..=4).map(|i| player(i, "p", ROLE::VILLAGER)).collect();
        if let Some(dealt) = set_roles_to_players(ps) {
            assert_eq!(dealt.iter().filter(|p| p.role == ROLE::MURDERER).count(), 1);
            assert_eq!(dealt.len(), 4);
            break;
        }
    }
}

#[test]
fn seven_players_get_murderers() {
    loop {
        let ps: Vec<Player> = (1..=7).map(|i| player(i, "p", ROLE::VILLAGER)).collect();
        if let Some(dealt) = set_roles_to_players(ps) {
            let m = dealt.iter().filter(|p| p.role == ROLE::MURDERER).count();
            assert!(m >= 1 && m <= 2);
            break;
        }
    }
}

#[test]
fn players_in_the_same_channel() {
    let states = vec![(1, Some(9)), (2, Some(8)), (3, Some(9))];
    assert_eq!(players_in_channel(&states, 9), vec![1, 3]);
}

#[test]
fn messages_of_the_game() {
    assert_eq!(role_message(ROLE::MURDERER), "VC e o MURDERER");
    assert_eq!(role_message(ROLE::CARTOMANTE), "VC e o CARTOMANTE");
    assert_eq!(killed_message(&"ana".to_string()), "O jogador ana foi morto");
    assert_eq!(ROLE::MEDIC.to_string(), "MEDIC");
}

#[test]
fn players_come_from_the_members() {
    let mut t = MemberTable::new();
    let joined = Moment { secs: 0, nanos: 0, year: 1970, month: 1, day: 1 };
    for (id, name) in [(1u64, "ana"), (2, "bia")] {
        let m = Member { user_id: id, guild_id: 1, name: name.to_string(), bot: false, roles: vec![], joined_at: Some(joined) };
        t.insert(MemberModel::from_parts(m, false, None, false));
    }
    let ps = game_players(&t, &vec![2, 1]);
    assert_eq!(ps.len(), 2);
    assert_eq!(ps[0].id, 2);
    assert_eq!(ps[0].name, "bia");
    assert_eq!(ps[1].name, "ana");
}

fn described(actions: Vec<TurnAction>) -> Vec<String> {
    actions
        .into_iter()
        .map(|a| match a {
            TurnAction::Say(m) => format!("say: {}", m),
            TurnAction::Tell(m) => format!("tell: {}", m),
            TurnAction::Store(g) => format!("store: {:?} {}", g.day, g.players.len()),
        })
        .collect()
}

#[test]
fn a_morning_vote_before_everyone_acted_stores_nothing() {
    let actions = town_night_turn(town(), 1, Some(2), None).unwrap();
    assert_eq!(described(actions), vec!["say: Acao registrada!".to_string()]);
}

#[test]
fn the_last_vote_ends_the_day_and_the_night_follows() {
    let mut g = town();
    g.players[0].action = true;
    g.players[1].action = true;
    g.votes = vec![(2, 2)];
    let actions = town_night_turn(g, 3, Some(2), None).unwrap();
    assert_eq!(
        described(actions),
        vec![
            "say: Acao registrada!".to_string(),
            "say: votacao acabou o b foi eliminado".to_string(),
            "say: O dia acabou! Cuidado com os PERIGOS da noite!".to_string(),
            "store: NIGHT 1".to_string(),
            "say: testando se foi para noite mesmo kkk".to_string(),
            "say: Comando Registrado!".to_string(),
            "say: Os Assasinos ganharam!".to_string(),
        ]
    );
}

#[test]
fn a_morning_turn_needs_a_target() {
    assert!(town_night_turn(town(), 1, None, None).is_none());
}

#[test]
fn a_night_turn_tells_kills_and_stores() {
    let mut g = town();
    g.day = DAY::NIGHT;
    g.players[1].action = true;
    g.players[0].action = true;
    g.players[0].is_death = true;
    let actions = town_night_turn(g, 3, Some(2), None).unwrap();
    assert_eq!(
        described(actions),
        vec![
            "say: testando se foi para noite mesmo kkk".to_string(),
            "tell: O b e um MURDERER".to_string(),
            "say: Comando Registrado!".to_string(),
            "say: O jogador a foi morto".to_string(),
            "say: Comeca mais um dia na vila!".to_string(),
            "store: MORNING 3".to_string(),
            "say: Os Assasinos ganharam!".to_string(),
        ]
    );
}
