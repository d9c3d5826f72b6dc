use mercury::schedule::Cron;
use mercury::{Datestamp, Schedule};

fn s_cron(day: &str, month: &str) -> Schedule {
    Schedule::Cron(Cron::new(&format!("0 0 12 {} {} *", day, month)).unwrap())
}

fn date(string: &str) -> Datestamp {
    let parsed: chrono::NaiveDate = string.parse().unwrap();
    Datestamp::from_ymd(
        chrono::Datelike::year(&parsed),
        chrono::Datelike::month(&parsed),
        chrono::Datelike::day(&parsed),
    )
    .unwrap()
}

fn s_date(string: &str) -> Schedule {
    Schedule::Date(date(string))
}

fn start() -> Datestamp {
    date("2024-01-01")
}

#[test]
fn single_cron() {
    let schedule = s_cron("3", "*");
    let mut upcoming = schedule.upcoming(start());
    assert_eq!(upcoming.next().unwrap(), date("2024-01-03"));
    assert_eq!(upcoming.next().unwrap(), date("2024-02-03"));
}

#[test]
fn single_date_future() {
    let schedule = s_date("2024-01-03");
    let mut upcoming = schedule.upcoming(start());
    assert_eq!(upcoming.next().unwrap(), date("2024-01-03"));
    assert_eq!(upcoming.next(), None);
}

#[test]
fn single_date_past() {
    let schedule = s_date("2023-01-03");
    let mut upcoming = schedule.upcoming(start());
    assert_eq!(upcoming.next(), None);
}

#[test]
fn single_or() {
    let schedule = Schedule::TimeFunctionOr(
        Box::new(s_date("2024-01-05")),
        Box::new(s_date("2024-01-03")),
    );
    let mut upcoming = schedule.upcoming(start());
    assert_eq!(upcoming.next().unwrap(), date("2024-01-03"));
    assert_eq!(upcoming.next().unwrap(), date("2024-01-05"));
}

#[test]
fn single_or_cron() {
    let schedule =
        Schedule::TimeFunctionOr(Box::new(s_cron("3", "*")), Box::new(s_cron("5", "*")));
    let mut upcoming = schedule.upcoming(start());
    assert_eq!(upcoming.next().unwrap(), date("2024-01-03"));
    assert_eq!(upcoming.next().unwrap(), date("2024-01-05"));
    assert_eq!(upcoming.next().unwrap(), date("2024-02-03"));
}

#[test]
fn single_and() {
    let schedule =
        Schedule::TimeFunctionAnd(Box::new(s_cron("3", "*")), Box::new(s_cron("*", "1/2")));
    let mut upcoming = schedule.upcoming(start());
    assert_eq!(upcoming.next().unwrap(), date("2024-01-03"));
    assert_eq!(upcoming.next().unwrap(), date("2024-03-03"));
    assert_eq!(upcoming.next().unwrap(), date("2024-05-03"));
}

#[test]
fn single_not() {
    let schedule = Schedule::TimeFunctionAnd(
        Box::new(s_cron("3", "*")),
        Box::new(Schedule::TimeFunctionNot(Box::new(s_cron("*", "1,3")))),
    );
    let mut upcoming = schedule.upcoming(start());
    assert_eq!(upcoming.next().unwrap(), date("2024-02-03"));
    assert_eq!(upcoming.next().unwrap(), date("2024-04-03"));
}

#[test]
fn events_getter() {
    let schedules = vec![
        (s_cron("8", "*"), "third"),
        (s_cron("5", "*"), "second"),
        (s_cron("3", "*"), "first"),
    ];

    let refs: Vec<&Schedule> = schedules.iter().map(|e| &e.0).collect();
    let events = mercury::schedule::event_queue(&refs, start(), date("2024-03-01"));
    let mut events = events.iter().map(|(day, index)| (*day, &schedules[*index]));
    let mut next;

    next = events.next().unwrap();
    assert_eq!(next.0, date("2024-01-03"));
    assert_eq!(next.1 .1, "first");

    next = events.next().unwrap();
    assert_eq!(next.0, date("2024-01-05"));
    assert_eq!(next.1 .1, "second");

    next = events.next().unwrap();
    assert_eq!(next.0, date("2024-01-08"));
    assert_eq!(next.1 .1, "third");

    next = events.next().unwrap();
    assert_eq!(next.0, date("2024-02-03"));
    assert_eq!(next.1 .1, "first");
}

#[test]
fn queue_keeps_declaration_order_on_one_day() {
    let schedules = vec![s_date("2024-01-05"), s_cron("5", "*"), s_date("2024-01-04")];
    let refs: Vec<&Schedule> = schedules.iter().collect();
    let queue = mercury::schedule::event_queue(&refs, start(), date("2024-02-01"));
    assert_eq!(
        queue,
        vec![(date("2024-01-04"), 2), (date("2024-01-05"), 0), (date("2024-01-05"), 1)]
    );
}

#[test]
fn queue_of_nothing_is_empty() {
    let refs: Vec<&Schedule> = Vec::new();
    assert!(mercury::schedule::event_queue(&refs, start(), date("2024-02-01")).is_empty());
}

#[test]
fn cron_fires_on_the_starting_day() {
    let schedule = s_cron("1", "*");
    let mut upcoming = schedule.upcoming(start());
    assert_eq!(upcoming.next().unwrap(), date("2024-01-01"));
    assert_eq!(upcoming.next().unwrap(), date("2024-02-01"));
}

#[test]
fn cron_counts_a_day_once_however_often_it_fires() {
    let schedule = Schedule::Cron(Cron::new("0 0 * 3 * *").unwrap());
    let mut upcoming = schedule.upcoming(start());
    assert_eq!(upcoming.next().unwrap(), date("2024-01-03"));
    assert_eq!(upcoming.next().unwrap(), date("2024-02-03"));
}

#[test]
fn cron_rejects_what_is_no_rule() {
    assert!(Cron::new("not a rule").is_none());
    assert_eq!(Cron::new("0 0 12 3 * *").unwrap().source(), "0 0 12 3 * *");
}

#[test]
fn or_yields_a_shared_day_once() {
    let schedule = Schedule::TimeFunctionOr(
        Box::new(s_date("2024-01-03")),
        Box::new(s_cron("3", "*")),
    );
    let mut upcoming = schedule.upcoming(start());
    assert_eq!(upcoming.next().unwrap(), date("2024-01-03"));
    assert_eq!(upcoming.next().unwrap(), date("2024-02-03"));
}

#[test]
fn or_with_an_empty_side_is_the_other_side() {
    let schedule = Schedule::TimeFunctionOr(
        Box::new(s_date("2023-06-01")),
        Box::new(s_date("2024-01-03")),
    );
    let mut upcoming = schedule.upcoming(start());
    assert_eq!(upcoming.next().unwrap(), date("2024-01-03"));
    assert_eq!(upcoming.next(), None);
}

#[test]
fn and_is_within_both_sides() {
    let left = s_cron("3,5", "*");
    let right = s_cron("5,8", "*");
    let both = Schedule::TimeFunctionAnd(Box::new(s_cron("3,5", "*")), Box::new(s_cron("5,8", "*")));
    let until = date("2024-04-01");
    let days = both.between(start(), until);
    assert_eq!(days, vec![date("2024-01-05"), date("2024-02-05"), date("2024-03-05")]);
    let in_left = left.between(start(), until);
    let in_right = right.between(start(), until);
    for day in &days {
        assert!(in_left.contains(day));
        assert!(in_right.contains(day));
    }
}

#[test]
fn not_and_its_schedule_share_out_every_day() {
    let inner = s_cron("*/2", "*");
    let outer = Schedule::TimeFunctionNot(Box::new(s_cron("*/2", "*")));
    let until = date("2024-01-11");
    let picked = inner.between(start(), until);
    let left_out = outer.between(start(), until);
    assert_eq!(picked.len() + left_out.len(), 10);
    let mut day = start();
    while day < until {
        assert!(picked.contains(&day) != left_out.contains(&day));
        day = day.succ().unwrap();
    }
}

#[test]
fn walk_is_strictly_ascending_from_the_start() {
    let schedule = Schedule::TimeFunctionOr(
        Box::new(s_cron("3,17", "*")),
        Box::new(Schedule::TimeFunctionNot(Box::new(s_cron("2-30", "*")))),
    );
    let from = date("2024-01-10");
    let mut upcoming = schedule.upcoming(from);
    let mut previous = upcoming.next().unwrap();
    assert!(previous >= from);
    for _ in 0..20 {
        let next = upcoming.next().unwrap();
        assert!(previous < next);
        previous = next;
    }
}

#[test]
fn by_samples_the_latest_day_at_each_tick() {
    // Sampled on the 5th, 10th, 15th and 20th; ticks on the 12th and 18th.
    let schedule = Schedule::TimeFunctionBy(
        Box::new(s_cron("5,10,15,20", "1")),
        Box::new(s_cron("12,18", "1")),
    );
    let days = schedule.between(start(), date("2024-02-01"));
    assert_eq!(days, vec![date("2024-01-10"), date("2024-01-15")]);
}

#[test]
fn by_counts_a_sampled_day_on_its_own_tick() {
    let schedule = Schedule::TimeFunctionBy(
        Box::new(s_date("2024-01-10")),
        Box::new(s_date("2024-01-10")),
    );
    let mut upcoming = schedule.upcoming(start());
    assert_eq!(upcoming.next().unwrap(), date("2024-01-10"));
    assert_eq!(upcoming.next(), None);
}

#[test]
fn by_yields_nothing_before_the_first_sampled_day() {
    let schedule = Schedule::TimeFunctionBy(
        Box::new(s_date("2024-01-20")),
        Box::new(s_date("2024-01-10")),
    );
    assert_eq!(schedule.upcoming(start()).next(), None);
}

#[test]
fn by_yields_a_sampled_day_once_for_many_ticks() {
    let schedule = Schedule::TimeFunctionBy(
        Box::new(s_date("2024-01-05")),
        Box::new(s_cron("6,7,8", "1")),
    );
    let days = schedule.between(start(), date("2024-03-01"));
    assert_eq!(days, vec![date("2024-01-05")]);
}

#[test]
fn dates_know_their_parts_and_neighbours() {
    let day = Datestamp::from_ymd(2024, 2, 29).unwrap();
    assert_eq!(day.ymd(), (2024, 2, 29));
    assert_eq!(day.succ().unwrap().ymd(), (2024, 3, 1));
    assert_eq!(day.days(), 738_945);
    assert_eq!(Datestamp::from_days(738_945), Some(day));
    assert!(Datestamp::from_ymd(2023, 2, 29).is_none());
    assert!(Datestamp::from_ymd(0, 12, 31).is_none());
    assert!(Datestamp::from_ymd(10_000, 1, 1).is_none());
    assert_eq!(Datestamp::from_ymd(1, 1, 1).unwrap().days(), 1);
    let last = Datestamp::from_ymd(9999, 12, 31).unwrap();
    assert_eq!(last.days(), 3_652_059);
    assert!(last.succ().is_none());
    assert!(Datestamp::from_days(0).is_none());
    assert!(Datestamp::from_days(3_652_060).is_none());
    assert!(day.is_before(&last));
}

#[test]
fn between_stops_short_of_its_end() {
    let schedule = s_cron("3", "*");
    assert_eq!(
        schedule.between(date("2024-01-03"), date("2024-02-03")),
        vec![date("2024-01-03")]
    );
    assert!(schedule.between(date("2024-01-04"), date("2024-02-03")).is_empty());
    assert_eq!(schedule.first_from(date("2024-01-04")), Some(date("2024-02-03")));
}
