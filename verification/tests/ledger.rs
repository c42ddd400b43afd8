use deep_social::error::{Error, ErrorKind};
use deep_social::identity::Identity;
use deep_social::ledger::{Direction, HistoryEntry, InitAccount, InitArg, Ledger, Tx};

fn id(n: u8) -> Identity {
    Identity::from_bytes(&vec![n, 7, 7]).unwrap()
}

fn seeded() -> Ledger {
    Ledger::init(
        Some(InitArg {
            initial_accounts: vec![
                InitAccount { owner: id(1), amount: 500 },
                InitAccount { owner: id(2), amount: 70 },
                InitAccount { owner: id(1), amount: 30 },
            ],
            airdrop_amount: 25,
        }),
        10,
    )
}

fn sum_of_mints(ledger: &Ledger) -> u128 {
    ledger.txs.iter().filter(|t| t.from.is_none()).map(|t| t.amount).sum()
}

fn sum_of_balances(ledger: &Ledger) -> u128 {
    ledger.balances.iter().map(|a| a.amount).sum()
}

#[test]
fn init_without_seed_is_empty() {
    let ledger = Ledger::init(None, 5);
    assert_eq!(ledger.name(), "DeepToken");
    assert_eq!(ledger.symbol(), "DTX");
    assert_eq!(ledger.airdrop_amount, 1000);
    assert!(ledger.txs.is_empty());
    assert!(ledger.balances.is_empty());
    assert_eq!(ledger.supply(), 0);
}

#[test]
fn init_mints_the_seed_accounts_in_order() {
    let ledger = seeded();
    assert_eq!(ledger.airdrop_amount, 25);
    assert_eq!(ledger.balance_of(id(1)), 530);
    assert_eq!(ledger.balance_of(id(2)), 70);
    assert_eq!(ledger.balance_of(id(3)), 0);
    assert_eq!(
        ledger.txs,
        vec![
            Tx { id: 1, from: None, to: id(1), amount: 500, timestamp_ns: 10 },
            Tx { id: 2, from: None, to: id(2), amount: 70, timestamp_ns: 10 },
            Tx { id: 3, from: None, to: id(1), amount: 30, timestamp_ns: 10 },
        ]
    );
    assert_eq!(ledger.supply(), 600);
}

#[test]
fn unknown_identity_holds_nothing_and_cannot_send() {
    let mut ledger = Ledger::init(None, 0);
    assert_eq!(ledger.balance_of(id(9)), 0);
    for amount in [1u128, 2, 1000, u128::MAX] {
        assert_eq!(ledger.transfer(id(9), id(1), amount, 1), Err(Error::InsufficientFunds));
    }
    assert!(ledger.txs.is_empty());
    assert!(ledger.balances.is_empty());
}

#[test]
fn transfer_of_nothing_is_a_validation_error() {
    let mut ledger = seeded();
    let r = ledger.transfer(id(1), id(2), 0, 11);
    assert_eq!(r, Err(Error::ZeroAmount));
    assert_eq!(Error::ZeroAmount.kind(), ErrorKind::Validation);
    assert_eq!(Error::ZeroAmount.message(), "amount must be > 0");
    assert_eq!(ledger.txs.len(), 3);
    assert_eq!(ledger.balance_of(id(1)), 530);
}

#[test]
fn transfer_succeeds_exactly_up_to_the_balance() {
    let mut ledger = seeded();
    assert_eq!(ledger.transfer(id(2), id(3), 71, 11), Err(Error::InsufficientFunds));
    assert_eq!(Error::InsufficientFunds.kind(), ErrorKind::InsufficientFunds);
    assert_eq!(Error::InsufficientFunds.message(), "insufficient balance");
    assert_eq!(ledger.balance_of(id(2)), 70);
    assert_eq!(ledger.balance_of(id(3)), 0);
    let tx = ledger.transfer(id(2), id(3), 70, 12).unwrap();
    assert_eq!(tx, Tx { id: 4, from: Some(id(2)), to: id(3), amount: 70, timestamp_ns: 12 });
    assert_eq!(ledger.txs.last(), Some(&tx));
    assert_eq!(ledger.balance_of(id(2)), 0);
    assert_eq!(ledger.balance_of(id(3)), 70);
}

#[test]
fn transfer_moves_the_amount() {
    let mut ledger = seeded();
    let tx = ledger.transfer(id(1), id(2), 130, 20).unwrap();
    assert_eq!(tx.id, 4);
    assert_eq!(tx.from, Some(id(1)));
    assert_eq!(ledger.balance_of(id(1)), 400);
    assert_eq!(ledger.balance_of(id(2)), 200);
}

#[test]
fn transfer_to_oneself_keeps_the_balance() {
    let mut ledger = seeded();
    let tx = ledger.transfer(id(1), id(1), 530, 20).unwrap();
    assert_eq!(tx.amount, 530);
    assert_eq!(ledger.balance_of(id(1)), 530);
    assert_eq!(ledger.txs.len(), 4);
}

#[test]
fn balances_add_up_to_the_mints() {
    let mut ledger = seeded();
    assert_eq!(sum_of_balances(&ledger), sum_of_mints(&ledger));
    ledger.transfer(id(1), id(4), 100, 1).unwrap();
    assert_eq!(sum_of_balances(&ledger), sum_of_mints(&ledger));
    ledger.mint(id(5), 41, 2);
    assert_eq!(sum_of_balances(&ledger), sum_of_mints(&ledger));
    ledger.airdrop_for_caller(id(4), 3);
    let _ = ledger.transfer(id(4), id(2), 1000, 4);
    ledger.transfer(id(4), id(2), 125, 5).unwrap();
    assert_eq!(sum_of_balances(&ledger), sum_of_mints(&ledger));
    assert_eq!(ledger.supply(), 600 + 41 + 25);
    assert_eq!(sum_of_mints(&ledger), 666);
}

#[test]
fn mint_credits_and_logs() {
    let mut ledger = Ledger::init(None, 0);
    let tx = ledger.mint(id(1), 9, 77);
    assert_eq!(tx, Tx { id: 1, from: None, to: id(1), amount: 9, timestamp_ns: 77 });
    let tx = ledger.mint(id(1), 1, 78);
    assert_eq!(tx.id, 2);
    assert_eq!(ledger.balance_of(id(1)), 10);
    assert_eq!(ledger.balances.len(), 1);
}

#[test]
fn airdrop_is_given_once() {
    let mut ledger = seeded();
    let before = ledger.balance_of(id(2));
    let first = ledger.airdrop_for_caller(id(2), 30);
    assert_eq!(first, Some(Tx { id: 4, from: None, to: id(2), amount: 25, timestamp_ns: 30 }));
    assert_eq!(ledger.balance_of(id(2)), before + 25);
    assert_eq!(ledger.airdropped, vec![id(2)]);
    let second = ledger.airdrop_for_caller(id(2), 31);
    assert_eq!(second, None);
    assert_eq!(ledger.balance_of(id(2)), before + 25);
    assert_eq!(ledger.txs.len(), 4);
    assert_eq!(ledger.airdropped, vec![id(2)]);
}

#[test]
fn airdrop_default_amount_is_one_thousand() {
    let mut ledger = Ledger::init(None, 0);
    let tx = ledger.airdrop_for_caller(id(1), 1).unwrap();
    assert_eq!(tx.amount, 1000);
    assert_eq!(ledger.balance_of(id(1)), 1000);
}

#[test]
fn history_shows_direction_and_counterparty_newest_first() {
    let mut ledger = Ledger::init(None, 0);
    ledger.mint(id(1), 100, 5);
    ledger.transfer(id(1), id(2), 10, 9).unwrap();
    ledger.transfer(id(2), id(1), 4, 7).unwrap();
    ledger.mint(id(3), 1, 8);
    let h = ledger.get_history(id(1), 0, 10);
    assert_eq!(
        h,
        vec![
            HistoryEntry { id: 2, direction: Direction::Out, counterparty: Some(id(2)), amount: 10, timestamp_ns: 9 },
            HistoryEntry { id: 3, direction: Direction::In, counterparty: Some(id(2)), amount: 4, timestamp_ns: 7 },
            HistoryEntry { id: 1, direction: Direction::Mint, counterparty: None, amount: 100, timestamp_ns: 5 },
        ]
    );
    assert_eq!(ledger.get_history(id(1), 1, 1), vec![h[1]]);
    assert_eq!(ledger.get_history(id(1), 3, 5), vec![]);
    assert_eq!(ledger.get_history(id(1), u64::MAX, u64::MAX), vec![]);
    assert_eq!(ledger.get_history(id(1), 0, 0), vec![]);
    assert_eq!(ledger.get_history(id(4), 0, 5), vec![]);
}

#[test]
fn history_keeps_log_order_among_equal_times() {
    let mut ledger = Ledger::init(None, 0);
    ledger.mint(id(1), 1, 5);
    ledger.mint(id(1), 2, 5);
    ledger.mint(id(1), 3, 6);
    ledger.mint(id(1), 4, 5);
    let ids: Vec<u64> = ledger.get_history(id(1), 0, 10).iter().map(|e| e.id).collect();
    assert_eq!(ids, vec![3, 1, 2, 4]);
}

#[test]
fn history_of_a_transfer_to_oneself_is_incoming() {
    let mut ledger = Ledger::init(None, 0);
    ledger.mint(id(1), 5, 1);
    ledger.transfer(id(1), id(1), 5, 2).unwrap();
    let h = ledger.get_history(id(1), 0, 1);
    assert_eq!(h[0].direction, Direction::In);
    assert_eq!(h[0].counterparty, Some(id(1)));
}

#[test]
fn ledger_survives_a_restart() {
    let mut ledger = seeded();
    ledger.airdrop_for_caller(id(2), 30);
    ledger.transfer(id(1), id(2), 5, 31).unwrap();
    assert!(ledger.is_valid());
    let kept = ledger.snapshot();
    assert_eq!(kept.balances, ledger.balances);
    assert_eq!(kept.txs, ledger.txs);
    assert_eq!(kept.airdropped, ledger.airdropped);
    assert_eq!(kept.airdrop_amount, 25);
    assert_eq!(kept.name, "DeepToken");
    assert_eq!(kept.symbol, "DTX");
    let mut back = Ledger::restore(Some(kept));
    assert_eq!(back.txs, ledger.txs);
    assert_eq!(back.balance_of(id(2)), 100);
    assert_eq!(back.airdrop_for_caller(id(2), 40), None);
    let blank = Ledger::restore(None);
    assert!(blank.txs.is_empty() && blank.balances.is_empty() && blank.airdropped.is_empty());
    assert_eq!(blank.airdrop_amount, 1000);
    assert_eq!(blank.name, "DeepToken");
}

#[test]
fn a_broken_ledger_bundle_is_not_restored() {
    let mut broken = seeded();
    broken.balances[0].amount += 1;
    assert!(!broken.is_valid());
    let back = Ledger::restore(Some(broken));
    assert!(back.txs.is_empty() && back.balances.is_empty());
    assert_eq!(back.airdrop_amount, 1000);
    let mut broken = seeded();
    broken.txs[2].id = 9;
    assert!(!broken.is_valid());
    let mut broken = seeded();
    broken.airdropped = vec![id(1), id(2), id(1)];
    assert!(!broken.is_valid());
    let mut broken = seeded();
    let twin = broken.balances[1];
    broken.balances.push(twin);
    assert!(!broken.is_valid());
    let mut broken = seeded();
    broken.balances[0].amount = u128::MAX;
    broken.balances[1].amount = u128::MAX;
    assert!(!broken.is_valid());
    let mut broken = seeded();
    broken.txs[0].amount = u128::MAX;
    broken.txs[1].amount = u128::MAX;
    assert!(!broken.is_valid());
}

#[test]
fn identities_in_a_list_are_told_apart() {
    assert!(deep_social::identity::all_distinct(&vec![]));
    assert!(deep_social::identity::all_distinct(&vec![id(1), id(2), id(3)]));
    assert!(!deep_social::identity::all_distinct(&vec![id(1), id(2), id(1)]));
}

#[test]
fn directions_have_their_words() {
    assert_eq!(Direction::Mint.label(), "mint");
    assert_eq!(Direction::In.label(), "in");
    assert_eq!(Direction::Out.label(), "out");
}
