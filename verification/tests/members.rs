use bot_scythe::calendar::Moment;
use bot_scythe::member::{
    farewell_reason, filter_silenced_member_models, life_time_days, life_time_message,
    save_member, Member, MemberModel, MemberTable, Membro,
};
use bot_scythe::roles::{has_administrator, has_role_named, is_immune, member_role, should_kick, Role};

fn at(secs: i64, year: i32, month: u32, d: u32) -> Moment {
    Moment { secs, nanos: 0, year, month, day: d }
}

fn member(id: u64, name: &str, joined: Option<Moment>) -> Member {
    Member { user_id: id, guild_id: 7, name: name.to_string(), bot: false, roles: vec![], joined_at: joined }
}

fn model(id: u64, name: &str, alive: bool, last: Option<Moment>, silenced: bool) -> MemberModel {
    MemberModel::from_parts(member(id, name, Some(at(1600000000, 2020, 9, 13))), alive, last, silenced)
}

fn table(models: Vec<MemberModel>) -> MemberTable {
    let mut t = MemberTable::new();
    for m in models {
        t.insert(m);
    }
    t
}

#[test]
fn insert_replaces_the_same_user() {
    let mut t = table(vec![model(1, "a", false, None, false), model(2, "b", false, None, false)]);
    t.insert(model(1, "a2", true, None, false));
    assert_eq!(t.len(), 2);
    assert_eq!(t.get(1).unwrap().member().name, "a2");
    assert!(t.get(1).unwrap().is_alive());
    assert!(t.get(3).is_none());
}

#[test]
fn remove_takes_the_user_off() {
    let mut t = table(vec![model(1, "a", false, None, false), model(2, "b", false, None, false)]);
    t.remove(1);
    assert_eq!(t.len(), 1);
    assert!(t.get(1).is_none());
    t.remove(9);
    assert_eq!(t.len(), 1);
}

#[test]
fn silencing_and_lifting_it() {
    let mut t = table(vec![model(1, "a", false, None, false), model(2, "b", false, None, false)]);
    t.set_silenced(2, true);
    assert!(t.is_silenced_user(2));
    assert!(!t.is_silenced_user(1));
    t.set_silenced(2, false);
    assert!(!t.is_silenced_user(2));
}

#[test]
fn filter_keeps_the_silenced_only() {
    let t = table(vec![
        model(1, "a", false, None, true),
        model(2, "b", false, None, false),
        model(3, "c", false, None, true),
    ]);
    let s = filter_silenced_member_models(t);
    assert_eq!(s.len(), 2);
    assert!(s.get(1).is_some());
    assert!(s.get(2).is_none());
    assert!(s.get(3).is_some());
}

#[test]
fn silenced_listing_names_them() {
    let t = table(vec![model(1, "ana", false, None, true), model(2, "bia", false, None, false), model(3, "caio", false, None, true)]);
    assert_eq!(t.silenced_listing().unwrap(), "### LISTA DE MEMBROS SILENCIADOS\n- ana\n- caio");
    let quiet = table(vec![model(2, "bia", false, None, false)]);
    assert_eq!(quiet.silenced_listing(), None);
}

#[test]
fn refresh_keeps_last_activity() {
    let last = at(1700000000, 2023, 11, 14);
    let mut t = table(vec![model(1, "a", true, Some(last), true)]);
    t.refresh_member(member(1, "renamed", None));
    let m = t.get(1).unwrap();
    assert_eq!(m.member().name, "renamed");
    assert_eq!(m.last_time_active(), Some(last));
    assert!(!m.is_alive());
    assert!(!m.is_silenced());
}

#[test]
fn refresh_adds_a_new_member_active_now() {
    let mut t = MemberTable::new();
    t.refresh_member(member(4, "d", None));
    assert_eq!(t.len(), 1);
    assert!(t.get(4).unwrap().last_time_active().is_some());
}

#[test]
fn from_members_seeds_every_member() {
    let t = MemberTable::from_members(vec![member(1, "a", None), member(2, "b", None)]);
    assert_eq!(t.len(), 2);
    assert!(!t.get(2).unwrap().is_alive());
    assert!(t.get(2).unwrap().last_time_active().is_some());
}

#[test]
fn save_member_adds_the_newcomer() {
    let mut t = MemberTable::new();
    save_member(&mut t, member(9, "novo", None));
    assert_eq!(t.len(), 1);
    assert!(t.get(9).unwrap().last_time_active().is_some());
}

#[test]
fn bot_join_date_is_found_by_name() {
    let joined = at(1600000000, 2020, 9, 13);
    let t = table(vec![
        model(1, "a", false, None, false),
        MemberModel::from_parts(member(2, "Marie Curie", Some(joined)), true, None, false),
    ]);
    assert_eq!(t.bot_joined_at(), Some(joined));
    let t2 = table(vec![model(1, "a", false, None, false)]);
    assert_eq!(t2.bot_joined_at(), None);
}

#[test]
fn activity_marks_the_author_and_ends_the_idle() {
    let now = at(1710460800, 2024, 3, 15);
    let long_ago = at(1700000000, 2023, 11, 14);
    let mut t = table(vec![model(1, "author", false, None, false), model(2, "idle", true, Some(long_ago), false)]);
    assert!(t.activity_is_defined(1));
    t.mark_activity(1, now, 30);
    assert!(t.get(1).unwrap().is_alive());
    assert_eq!(t.get(1).unwrap().last_time_active(), Some(now));
    assert!(!t.get(2).unwrap().is_alive());
}

#[test]
fn reaping_picks_the_idle_not_alive() {
    let now = at(1710460800, 2024, 3, 15);
    let bot = at(1600000000, 2020, 9, 13);
    let recent = at(1710000000, 2024, 3, 9);
    let old = at(1700000000, 2023, 11, 14);
    let t = table(vec![
        model(1, "alive", true, Some(old), false),
        model(2, "idle", false, Some(old), false),
        model(3, "recent", false, Some(recent), false),
    ]);
    assert!(t.reap_is_defined());
    assert_eq!(t.members_to_reap(bot, now, 30), vec![2]);
}

#[test]
fn inactivity_round_marks_and_reaps_at_the_current_time() {
    let joined = at(1600000000, 2020, 9, 13);
    let long_ago = at(1700000000, 2023, 11, 14);
    let mut t = table(vec![
        MemberModel::from_parts(member(9, "Marie Curie", Some(joined)), true, None, false),
        model(1, "author", false, None, false),
        model(2, "idle", true, Some(long_ago), false),
    ]);
    let quit = t.inactivity_round(1, 30).unwrap();
    assert_eq!(quit, vec![2]);
    assert!(t.get(1).unwrap().is_alive());
    let marked = t.get(1).unwrap().last_time_active().unwrap();
    assert!(marked.year >= 2024);
    assert!(!t.get(2).unwrap().is_alive());
}

#[test]
fn inactivity_round_needs_the_bot_record() {
    let mut t = table(vec![model(1, "author", false, None, false)]);
    assert_eq!(t.inactivity_round(1, 30), None);
    assert!(!t.get(1).unwrap().is_alive());
}

#[test]
fn immunity_protects() {
    let roles = vec![Role { id: 10, name: "Membro".to_string() }, Role { id: 11, name: "Imunidade".to_string() }];
    let mut m = member(1, "a", None);
    m.roles = vec![11];
    let immune = MemberModel::from_parts(m, false, None, false);
    assert!(is_immune(&immune, &roles));
    assert!(!should_kick(&immune, &roles));
    let plain = model(2, "b", false, None, false);
    assert!(!is_immune(&plain, &roles));
    assert!(should_kick(&plain, &roles));
    let mut b = member(3, "bot", None);
    b.bot = true;
    assert!(!should_kick(&MemberModel::from_parts(b, false, None, false), &roles));
}

#[test]
fn member_role_by_name_part() {
    let roles = vec![Role { id: 10, name: "Admin".to_string() }, Role { id: 12, name: "Membros antigos".to_string() }];
    assert_eq!(member_role(&roles), Some(12));
    assert_eq!(member_role(&vec![Role { id: 1, name: "x".to_string() }]), None);
    assert!(has_role_named(&roles, &"Admin".to_string()));
    assert!(!has_role_named(&roles, &"Imunidade".to_string()));
}

#[test]
fn administrator_bit() {
    assert!(has_administrator(8));
    assert!(has_administrator(0xff));
    assert!(!has_administrator(7));
}

#[test]
fn life_time_default_and_message() {
    assert_eq!(life_time_days(None), 30);
    assert_eq!(life_time_days(Some(7)), 7);
    assert_eq!(life_time_message(45), "O **life_time** esta definida para: **45** dias!");
    assert_eq!(life_time_message(-3), "O **life_time** esta definida para: **-3** dias!");
}

#[test]
fn farewell_names_the_member() {
    assert_eq!(farewell_reason(&"Ana".to_string()), "Seu tempo aqui terminou; chegou a hora de partir Ana.");
}

#[test]
fn membro_record() {
    let mut m = Membro::new(member(1, "a", None));
    assert!(!m.ativo());
    assert_eq!(m.ativo_em(), None);
    m.set_ativo(true);
    let t = at(5, 1970, 1, 1);
    m.set_ativo_em(Some(t));
    assert!(m.ativo());
    assert_eq!(m.ativo_em(), Some(t));
    assert_eq!(m.membro().name, "a");
}

#[test]
fn silence_then_lift_restores_the_table() {
    let mut t = table(vec![model(1, "a", true, None, false), model(2, "b", false, None, false)]);
    t.set_silenced(2, true);
    assert!(t.is_silenced_user(2));
    t.set_silenced(2, false);
    assert!(!t.is_silenced_user(2));
    let b = t.get(2).unwrap();
    assert!(!b.is_alive() && !b.is_silenced() && b.last_time_active().is_none());
    assert_eq!(t.len(), 2);
}
