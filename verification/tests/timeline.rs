use mercury::account::Interner;
use mercury::event::Event;
use mercury::ledger::ID;
use mercury::money::{Decimal, Money};
use mercury::schedule::Cron;
use mercury::statement::{Operation, Statement, Statements};
use mercury::timeline::{Resolve, Timeline};
use mercury::transaction::{Record, Source};
use mercury::{Datestamp, Schedule};

fn units(whole: i64) -> Decimal {
    Decimal::ratio(whole, 1)
}

fn date(year: i32, month: u32, day: u32) -> Datestamp {
    Datestamp::from_ymd(year, month, day).unwrap()
}

fn monthly(day: &str) -> Schedule {
    Schedule::Cron(Cron::new(&format!("0 0 12 {} * *", day)).unwrap())
}

fn pay(from: ID, to: ID, amount: i64) -> Statements<Decimal> {
    Statements::Single(Statement { from, to, func: Operation::Fixed(units(amount)), label: None })
}

struct Names {
    interner: Interner,
    new_: ID,
    self_: ID,
    wallet: ID,
    job: ID,
    shop: ID,
    bank: ID,
}

fn names() -> Names {
    let mut interner = Interner::new();
    let new_ = interner.get_or_intern("new");
    let self_ = interner.get_or_intern("self");
    interner.get_or_intern("super");
    let wallet = interner.get_or_intern("wallet");
    let job = interner.get_or_intern("job");
    let shop = interner.get_or_intern("shop");
    let bank = interner.get_or_intern("bank");
    Names { interner, new_, self_, wallet, job, shop, bank }
}

fn history_of(timeline: &Timeline<'_, Decimal>, account: ID) -> (Datestamp, Vec<Decimal>) {
    let entry = timeline.history().get(&account.index).unwrap();
    (entry.0, entry.1.clone())
}

#[test]
fn events_are_replayed_in_the_order_of_their_days() {
    let n = names();
    let events = vec![
        Event { schedule: monthly("20"), accounts: vec![n.wallet], operations: pay(n.self_, n.shop, 30) },
        Event { schedule: monthly("5"), accounts: vec![n.wallet], operations: pay(n.job, n.self_, 100) },
    ];
    let mut timeline = Timeline::new(&events, n.interner);
    let moments = timeline.process(date(2024, 1, 1), date(2024, 3, 1));
    let days: Vec<Datestamp> = moments.iter().map(|moment| moment.date).collect();
    assert_eq!(days, vec![date(2024, 1, 5), date(2024, 1, 20), date(2024, 2, 5), date(2024, 2, 20)]);
    assert_eq!(timeline.dates(), &days);
    assert_eq!(moments[0].transaction.from, n.wallet);
    assert_eq!(moments[0].transaction.to, n.wallet);
    assert_eq!(moments[0].transaction.amount, units(100));
    assert_eq!(moments[0].transaction.date, date(2024, 1, 5));
    assert!(moments[0].transaction.label.is_none());

    let mut balances = timeline.balances();
    balances.sort_by_key(|entry| entry.0.index);
    assert_eq!(balances, vec![(n.wallet, units(140)), (n.job, units(-200)), (n.shop, units(60))]);
    assert_eq!(
        history_of(&timeline, n.wallet),
        (date(2024, 1, 5), vec![units(100), units(70), units(170), units(140)])
    );
}

#[test]
fn history_of_a_late_account_is_padded_to_the_run() {
    let n = names();
    let events = vec![
        Event { schedule: monthly("5"), accounts: vec![n.wallet], operations: pay(n.job, n.self_, 100) },
        Event {
            schedule: Schedule::Date(date(2024, 3, 5)),
            accounts: vec![n.wallet],
            operations: pay(n.self_, n.bank, 50),
        },
    ];
    let mut timeline = Timeline::new(&events, n.interner);
    timeline.process(date(2024, 1, 1), date(2024, 5, 1));
    assert_eq!(timeline.dates().len(), 5);
    assert_eq!(timeline.dates()[2], date(2024, 3, 5));
    assert_eq!(timeline.dates()[3], date(2024, 3, 5));

    // The bank is first booked on at the fourth firing of five.
    let (first, balances) = history_of(&timeline, n.bank);
    assert_eq!(first, date(2024, 3, 5));
    assert_eq!(balances, vec![units(50), units(50)]);
    assert_eq!(
        timeline.padded(n.bank).unwrap(),
        vec![units(0), units(0), units(0), units(50), units(50)]
    );
    assert_eq!(
        timeline.padded(n.wallet).unwrap(),
        vec![units(100), units(200), units(300), units(250), units(350)]
    );
    assert!(timeline.padded(n.shop).is_none());
    assert!(timeline.padded(n.new_).is_none());
}

#[test]
fn an_account_first_seen_at_the_third_firing_has_two_fewer_balances() {
    let n = names();
    let events = vec![
        Event { schedule: monthly("5"), accounts: vec![n.wallet], operations: pay(n.job, n.self_, 1) },
        Event {
            schedule: Schedule::Date(date(2024, 2, 20)),
            accounts: vec![n.wallet],
            operations: pay(n.self_, n.shop, 1),
        },
    ];
    let mut timeline = Timeline::new(&events, n.interner);
    timeline.process(date(2024, 1, 1), date(2024, 7, 1));
    let runs = timeline.dates().len();
    assert_eq!(runs, 7);
    let (first, balances) = history_of(&timeline, n.shop);
    assert_eq!(first, timeline.dates()[2]);
    assert_eq!(balances.len(), runs - 2);
    let padded = timeline.padded(n.shop).unwrap();
    assert_eq!(padded.len(), runs);
    assert_eq!(&padded[..2], &[units(0), units(0)]);
}

#[test]
fn an_event_runs_once_under_each_of_its_accounts() {
    let n = names();
    let events = vec![Event {
        schedule: Schedule::Date(date(2024, 1, 9)),
        accounts: vec![n.wallet, n.bank],
        operations: Statements::List(n.new_, vec![pay(n.job, n.self_, 10)]),
    }];
    let mut timeline = Timeline::new(&events, n.interner);
    let moments = timeline.process(date(2024, 1, 1), date(2024, 2, 1));
    assert_eq!(moments.len(), 1);
    let mut balances = timeline.balances();
    balances.sort_by_key(|entry| entry.0.index);
    assert_eq!(balances, vec![(n.wallet, units(10)), (n.job, units(-20)), (n.bank, units(10))]);
}

#[test]
fn the_range_holds_its_start_and_not_its_end() {
    let n = names();
    let events = vec![Event {
        schedule: monthly("5"),
        accounts: vec![n.wallet],
        operations: pay(n.job, n.self_, 1),
    }];
    let mut timeline = Timeline::new(&events, n.interner);
    let moments = timeline.process(date(2024, 1, 5), date(2024, 3, 5));
    assert_eq!(moments.len(), 2);
    assert_eq!(timeline.dates(), &vec![date(2024, 1, 5), date(2024, 2, 5)]);
    let more = timeline.process(date(2024, 3, 5), date(2024, 3, 6));
    assert_eq!(more.len(), 1);
    assert_eq!(history_of(&timeline, n.wallet).1, vec![units(1), units(2), units(3)]);
    assert!(timeline.process(date(2024, 3, 6), date(2024, 3, 6)).is_empty());
}

#[test]
fn events_that_cannot_be_run_are_turned_down() {
    let n = names();
    let outside = vec![Event {
        schedule: monthly("5"),
        accounts: vec![n.self_],
        operations: pay(n.job, n.wallet, 1),
    }];
    assert!(Timeline::try_new(&outside, n.interner).is_none());
    let n = names();
    let nowhere: Vec<Event<Decimal>> = vec![Event {
        schedule: monthly("5"),
        accounts: Vec::new(),
        operations: pay(n.job, n.wallet, 1),
    }];
    assert!(Timeline::try_new(&nowhere, n.interner).is_none());
    let n = names();
    let above = vec![Event {
        schedule: monthly("5"),
        accounts: vec![n.wallet],
        operations: pay(ID { index: 2 }, n.wallet, 1),
    }];
    assert!(!above[0].is_scoped(
        &mercury::account::Symbols { new_: n.new_, self_: n.self_, super_: ID { index: 2 } },
        0
    ));
    assert!(Timeline::try_new(&above, n.interner).is_none());
    let n = names();
    let fine = vec![Event {
        schedule: monthly("5"),
        accounts: vec![n.wallet],
        operations: pay(n.self_, n.wallet, 1),
    }];
    assert!(Timeline::try_new(&fine, n.interner).is_some());
}

#[test]
fn accounts_are_shown_by_name() {
    let n = names();
    let events: Vec<Event<Decimal>> = Vec::new();
    let wallet = n.wallet;
    let shop = n.shop;
    let timeline = Timeline::new(&events, n.interner);
    assert_eq!(timeline.resolve(wallet), Some("wallet"));
    assert_eq!(timeline.resolve(ID { index: 99 }), None);
    let source = Source {
        date: date(2024, 1, 9),
        from: wallet,
        to: shop,
        amount: units(12),
        label: Some("bread"),
    };
    let view = timeline.resolve(&source).unwrap();
    assert_eq!((view.from, view.to, view.amount, view.label), ("wallet", "shop", units(12), Some("bread")));
    let record = view.as_record();
    assert_eq!(record.from, "wallet");
    assert_eq!(record.to, "shop");
    assert_eq!(record.date, date(2024, 1, 9));
    assert_eq!(record.label.as_deref(), Some("bread"));
    let again = record.view_of();
    assert_eq!((again.from, again.to, again.label), ("wallet", "shop", Some("bread")));
    assert_eq!(Record::from_view(again).amount, units(12));
    let unknown = Source { from: ID { index: 99 }, label: None, ..source };
    assert!(timeline.resolve(&unknown).is_none());
}

#[test]
fn timeline_of_events_merges_their_schedules() {
    let n = names();
    let events = vec![
        Event { schedule: monthly("20"), accounts: vec![n.wallet], operations: pay(n.self_, n.shop, 30) },
        Event { schedule: monthly("5,20"), accounts: vec![n.wallet], operations: pay(n.job, n.self_, 100) },
    ];
    assert_eq!(
        Event::timeline(&events, date(2024, 1, 1), date(2024, 2, 1)),
        vec![(date(2024, 1, 5), 1), (date(2024, 1, 20), 0), (date(2024, 1, 20), 1)]
    );
}

#[test]
fn balances_and_histories_are_shown_by_name() {
    let n = names();
    let n_wallet = n.wallet;
    let events = vec![
        Event { schedule: monthly("5"), accounts: vec![n.wallet], operations: pay(n.job, n.self_, 100) },
    ];
    let mut timeline = Timeline::new(&events, n.interner);
    timeline.process(date(2024, 1, 1), date(2024, 3, 1));
    let balances = timeline.balances();
    let mut named = timeline.resolve(&balances).unwrap();
    named.sort_by_key(|entry| entry.0);
    assert_eq!(named, vec![("job", units(-200)), ("wallet", units(200))]);
    let history = timeline.named_history().unwrap();
    assert_eq!(history.len(), 2);
    let wallet = history.iter().find(|entry| entry.1 == "wallet").unwrap();
    assert_eq!(wallet.0, n_wallet);
    assert_eq!(wallet.2, date(2024, 1, 5));
    assert_eq!(wallet.3, &vec![units(100), units(200)]);
    assert_eq!(timeline.history().len(), 2);
    let strangers = vec![(ID { index: 1_000 }, units(1))];
    assert!(timeline.resolve(&strangers).is_none());
}

#[test]
fn a_run_can_stop_after_any_firing() {
    let n = names();
    let events = vec![
        Event { schedule: monthly("5"), accounts: vec![n.wallet], operations: pay(n.job, n.self_, 100) },
    ];
    let mut timeline = Timeline::new(&events, n.interner);
    let queue = timeline.queue(date(2024, 1, 1), date(2024, 7, 1));
    assert_eq!(queue.len(), 6);
    assert!(timeline.dates().is_empty());
    assert!(timeline.history().is_empty());
    assert!(timeline.balances().is_empty());
    for firing in queue.iter().take(2) {
        let moment = timeline.step(*firing);
        assert_eq!(moment.date, firing.0);
        assert_eq!(moment.transaction.amount, units(100));
    }
    assert_eq!(timeline.dates(), &vec![date(2024, 1, 5), date(2024, 2, 5)]);
    assert_eq!(history_of(&timeline, n.wallet).1, vec![units(100), units(200)]);
}
