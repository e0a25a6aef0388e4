use bot_scythe::calendar::{get_data_br, latest, months_diff, Moment};

fn day(secs: i64, year: i32, month: u32, day: u32) -> Moment {
    Moment { secs, nanos: 0, year, month, day }
}

#[test]
fn more_days_than_allowed_is_too_long() {
    let atual = day(1710460800, 2024, 3, 15);
    let antigo = day(1704844800, 2024, 1, 10);
    let bot = day(1701388800, 2023, 12, 1);
    assert!(months_diff(atual, antigo, bot, 30));
    assert!(!months_diff(atual, antigo, bot, 65));
    assert!(months_diff(atual, antigo, bot, 64));
}

#[test]
fn the_bot_arrival_counts_when_later() {
    let atual = day(1710460800, 2024, 3, 15);
    let antigo = day(1701388800, 2023, 12, 1);
    let bot = day(1709251200, 2024, 3, 1);
    assert!(!months_diff(atual, antigo, bot, 14));
    assert!(months_diff(atual, antigo, bot, 13));
}

#[test]
fn same_instant_takes_the_second() {
    let a = Moment { secs: 5, nanos: 0, year: 2000, month: 1, day: 1 };
    let b = Moment { secs: 5, nanos: 0, year: 2000, month: 1, day: 2 };
    assert_eq!(latest(a, b), b);
    let c = Moment { secs: 5, nanos: 1, year: 2000, month: 1, day: 3 };
    assert_eq!(latest(c, a), c);
}

#[test]
fn date_in_sao_paulo() {
    let m = Moment { secs: 1717243200, nanos: 0, year: 2024, month: 6, day: 1 };
    assert_eq!(get_data_br(m), "01/06/2024 09:00");
}

#[test]
fn active_today_is_not_inactive() {
    let morning = day(1710460800, 2024, 3, 15);
    let evening = day(1710500000, 2024, 3, 15);
    assert!(!months_diff(evening, morning, morning, 0));
}

#[test]
fn inactivity_only_grows() {
    let antigo = day(1704844800, 2024, 1, 10);
    let bot = day(1701388800, 2023, 12, 1);
    let atual = day(1710460800, 2024, 3, 15);
    let later = day(1720000000, 2024, 7, 3);
    assert!(months_diff(atual, antigo, bot, 60));
    assert!(months_diff(later, antigo, bot, 60));
}

#[test]
fn only_the_later_of_activity_and_arrival_counts() {
    let atual = day(1710460800, 2024, 3, 15);
    let antigo = day(1704844800, 2024, 1, 10);
    let bot = day(1709251200, 2024, 3, 1);
    for d in [5, 13, 14, 64, 65] {
        assert_eq!(months_diff(atual, antigo, bot, d), months_diff(atual, bot, antigo, d));
    }
}
