use mercury::account::{CtxMut, Interner, Stack, Symbols};
use mercury::event::{Transaction, TransactionView};
use mercury::ledger::{StackID, ID};
use mercury::money::{Decimal, Money};
use mercury::statement::{Operation, Statement, Statements};
use mercury::syntax::{
    parse_acc_node, parse_cron, parse_date, parse_either, parse_keyword, parse_operation,
    parse_operation_mod, parse_operation_rate, parse_operation_rate_parts, parse_statements,
    Context, Modifier,
};
use mercury::{Datestamp, Schedule};

fn units(whole: i64) -> Decimal {
    Decimal::ratio(whole, 1)
}

fn date(year: i32, month: u32, day: u32) -> Datestamp {
    Datestamp::from_ymd(year, month, day).unwrap()
}

#[test]
fn rates_change_the_period_of_an_amount() {
    assert_eq!(parse_operation_rate_parts('y', 'y'), Some((1, 1)));
    assert_eq!(parse_operation_rate_parts('y', 'q'), Some((1, 4)));
    assert_eq!(parse_operation_rate_parts('y', 'm'), Some((1, 12)));
    assert_eq!(parse_operation_rate_parts('y', 'w'), Some((1, 52)));
    assert_eq!(parse_operation_rate_parts('y', 'd'), Some((1, 365)));
    assert_eq!(parse_operation_rate_parts('q', 'y'), Some((4, 1)));
    assert_eq!(parse_operation_rate_parts('q', 'q'), Some((1, 1)));
    assert_eq!(parse_operation_rate_parts('q', 'm'), Some((1, 3)));
    assert_eq!(parse_operation_rate_parts('q', 'w'), Some((1, 13)));
    assert_eq!(parse_operation_rate_parts('q', 'd'), Some((4, 365)));
    assert_eq!(parse_operation_rate_parts('m', 'y'), Some((12, 1)));
    assert_eq!(parse_operation_rate_parts('m', 'q'), Some((3, 1)));
    assert_eq!(parse_operation_rate_parts('m', 'm'), Some((1, 1)));
    assert_eq!(parse_operation_rate_parts('m', 'w'), Some((1, 4)));
    assert_eq!(parse_operation_rate_parts('m', 'd'), Some((1, 30)));
    assert_eq!(parse_operation_rate_parts('w', 'y'), Some((52, 1)));
    assert_eq!(parse_operation_rate_parts('w', 'q'), Some((13, 1)));
    assert_eq!(parse_operation_rate_parts('w', 'm'), Some((4, 1)));
    assert_eq!(parse_operation_rate_parts('w', 'w'), Some((1, 1)));
    assert_eq!(parse_operation_rate_parts('w', 'd'), Some((1, 7)));
    assert_eq!(parse_operation_rate_parts('d', 'y'), Some((365, 1)));
    assert_eq!(parse_operation_rate_parts('d', 'q'), Some((91, 1)));
    assert_eq!(parse_operation_rate_parts('d', 'm'), Some((30, 1)));
    assert_eq!(parse_operation_rate_parts('d', 'w'), Some((7, 1)));
    assert_eq!(parse_operation_rate_parts('d', 'd'), Some((1, 1)));
    assert_eq!(parse_operation_rate_parts('x', 'd'), None);
    assert_eq!(parse_operation_rate_parts('d', 'x'), None);
    assert_eq!(parse_operation_rate::<Decimal>('y', 'q'), Some(Decimal { raw: 2_500 }));
    assert_eq!(parse_operation_rate::<Decimal>('m', 'y'), Some(units(12)));
    assert_eq!(parse_operation_rate::<Decimal>('h', 'y'), None);
}

fn symbols() -> (Interner, Symbols) {
    let mut interner = Interner::new();
    let symbols = Symbols::new(&mut interner);
    (interner, symbols)
}

#[test]
fn operations_go_by_what_stands_behind_the_amount() {
    let (_, symbols) = symbols();
    let account = ID { index: 7 };
    assert!(matches!(parse_operation(symbols, units(4), None), Operation::Fixed(a) if a == units(4)));
    assert!(matches!(
        parse_operation(symbols, units(4), Some(Modifier::Rate(units(12)))),
        Operation::Rated(a, r) if a == units(4) && r == units(12)
    ));
    assert!(matches!(
        parse_operation_mod(symbols, units(4), Modifier::Account(account)),
        Operation::Percent(a, id) if a == units(4) && id == account
    ));
    assert!(matches!(
        parse_operation_mod(symbols, units(4), Modifier::Own),
        Operation::Percent(a, id) if a == units(4) && id == symbols.self_
    ));
}

#[test]
fn groups_take_the_scope_of_their_kind() {
    let (_, symbols) = symbols();
    let account = ID { index: 7 };
    match parse_statements::<Decimal>(symbols, false, None, Vec::new()) {
        Statements::List(scope, all) => {
            assert_eq!(scope, symbols.self_);
            assert!(all.is_empty());
        }
        other => panic!("{:?}", other),
    }
    match parse_statements::<Decimal>(symbols, true, None, Vec::new()) {
        Statements::Parallel(scope, all) => {
            assert_eq!(scope, symbols.new_);
            assert!(all.is_empty());
        }
        other => panic!("{:?}", other),
    }
    let child = Statements::Single(Statement {
        from: account,
        to: symbols.self_,
        func: Operation::Fixed(units(1)),
        label: None,
    });
    match parse_statements(symbols, true, Some(account), vec![child]) {
        Statements::Parallel(scope, all) => {
            assert_eq!(scope, account);
            assert_eq!(all.len(), 1);
        }
        other => panic!("{:?}", other),
    }
    match parse_statements::<Decimal>(symbols, false, Some(account), Vec::new()) {
        Statements::List(scope, _) => assert_eq!(scope, account),
        other => panic!("{:?}", other),
    }
}

#[test]
fn words_for_days_of_the_run() {
    let mut interner = Interner::new();
    let ctx = Context {
        accounts: &mut interner,
        date_start: date(2021, 1, 1),
        date_end: date(2021, 12, 31),
    };
    let today = date(2021, 6, 15);
    assert!(matches!(parse_keyword(&ctx, "start", today), Some(Schedule::Date(d)) if d == date(2021, 1, 1)));
    assert!(matches!(parse_keyword(&ctx, "end", today), Some(Schedule::Date(d)) if d == date(2021, 12, 30)));
    assert!(matches!(parse_keyword(&ctx, "today", today), Some(Schedule::Date(d)) if d == today));
    assert!(parse_keyword(&ctx, "work", today).is_none());
    let first = Context { accounts: ctx.accounts, date_start: date(1, 1, 1), date_end: date(1, 1, 1) };
    assert!(parse_keyword(&first, "end", today).is_none());
}

#[test]
fn several_schedules_are_united_to_the_left() {
    let a = Schedule::Date(date(2024, 1, 9));
    let b = Schedule::Date(date(2024, 1, 5));
    let c = Schedule::Date(date(2024, 1, 7));
    let all = parse_either(a, vec![b, c]);
    match &all {
        Schedule::TimeFunctionOr(left, right) => {
            assert!(matches!(**right, Schedule::Date(d) if d == date(2024, 1, 7)));
            assert!(matches!(**left, Schedule::TimeFunctionOr(_, _)));
        }
        other => panic!("{:?}", other),
    }
    assert_eq!(
        all.between(date(2024, 1, 1), date(2024, 2, 1)),
        vec![date(2024, 1, 5), date(2024, 1, 7), date(2024, 1, 9)]
    );
    let alone = parse_either(Schedule::Date(date(2024, 1, 9)), Vec::new());
    assert!(matches!(alone, Schedule::Date(d) if d == date(2024, 1, 9)));
}

#[test]
fn rules_fire_at_noon() {
    match parse_cron("3 * *") {
        Some(Schedule::Cron(rule)) => assert_eq!(rule.source(), "0 0 12 3 * *"),
        other => panic!("{:?}", other),
    }
    assert!(parse_cron("every day").is_none());
    let schedule = parse_cron("3 * *").unwrap();
    assert_eq!(schedule.first_from(date(2024, 1, 1)), Some(date(2024, 1, 3)));
}

#[test]
fn dates_are_read_with_their_own_separator() {
    assert!(matches!(parse_date("2024-01-03"), Some(Schedule::Date(d)) if d == date(2024, 1, 3)));
    assert!(matches!(parse_date("2024/01/03"), Some(Schedule::Date(d)) if d == date(2024, 1, 3)));
    assert!(parse_date("2024-01/03").is_none());
    assert!(parse_date("2024").is_none());
    assert!(parse_date("2024-13-03").is_none());
    assert!(parse_date("").is_none());
    assert_eq!(Datestamp::parse("1999.12.31"), Some(date(1999, 12, 31)));
    assert_eq!(date(2024, 3, 1).pred(), Some(date(2024, 2, 29)));
    assert_eq!(date(1, 1, 1).pred(), None);
}

#[test]
fn account_names_lose_the_space_around_them() {
    let mut interner = Interner::new();
    let first = parse_acc_node(&mut interner, "  wallet ").unwrap();
    assert_eq!(parse_acc_node(&mut interner, "wallet"), Some(first));
    assert_eq!(interner.resolve(first), Some("wallet"));
    assert_eq!(interner.len(), 1);
}

#[test]
fn context_reads_and_books_through_the_scopes() {
    let (mut interner, symbols) = symbols();
    let wallet = interner.get_or_intern("wallet");
    let mut stack: Stack<Decimal> = Stack::new(symbols);
    stack.push(wallet);
    stack.credit(symbols.self_, units(5));
    {
        let mut ctx = CtxMut::new(&mut stack, &mut interner);
        assert_eq!(ctx.index(symbols.self_), units(5));
        assert_eq!(ctx.index_named("wallet"), Some(units(5)));
        assert_eq!(ctx.index_named("self"), Some(units(5)));
        assert_eq!(ctx.index_named("super"), None);
        assert_eq!(ctx.index_named("nobody"), None);
        let shop = ctx.register("shop");
        assert_eq!(ctx.try_register("shop"), Some(shop));
        assert_eq!(ctx.index(shop), units(0));
        ctx.credit(shop, units(2));
        ctx.credit(symbols.self_, units(1));
        assert_eq!(ctx.index_named("shop"), Some(units(2)));
    }
    assert_eq!(stack.index_key(StackID::Account(wallet)), units(6));
    assert_eq!(interner.get("shop"), Some(ID { index: 4 }));
}

#[test]
fn shown_transfers_take_their_names_from_the_table() {
    let mut interner = Interner::new();
    let wallet = interner.get_or_intern("wallet");
    let shop = interner.get_or_intern("shop");
    let view = TransactionView {
        date: date(2024, 1, 9),
        from: wallet,
        to: shop,
        amount: units(3),
        description: Some("bread"),
        interner: &interner,
    };
    assert_eq!(view.from(), Some("wallet"));
    assert_eq!(view.to(), Some("shop"));
    let kept = Transaction::from_view(view).unwrap();
    assert_eq!(kept.from, "wallet");
    assert_eq!(kept.to, "shop");
    assert_eq!(kept.amount, units(3));
    assert_eq!(kept.date, date(2024, 1, 9));
    assert_eq!(kept.description.as_deref(), Some("bread"));
    let lost = TransactionView {
        date: date(2024, 1, 9),
        from: wallet,
        to: ID { index: 9 },
        amount: units(3),
        description: None,
        interner: &interner,
    };
    assert_eq!(lost.to(), None);
    assert!(Transaction::from_view(lost).is_none());
}
