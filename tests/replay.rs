use payments_ledger::amount::Amount;
use payments_ledger::ledger::Ledger;
use payments_ledger::output::{process, ClientRecord};
use payments_ledger::processor::{apply, LedgerError};
use payments_ledger::store::{TransactionRecord, TransactionType, TxDatabase};

fn amt(mantissa: i128, scale: u32) -> Amount {
    Amount::new(mantissa, scale).unwrap()
}

fn rec(kind: TransactionType, client: u16, tx: u32, value: Option<Amount>) -> TransactionRecord {
    TransactionRecord { transaction_type: kind, client_id: client, transaction_id: tx, value }
}

fn deposit(client: u16, tx: u32, value: Amount) -> TransactionRecord {
    rec(TransactionType::Deposit, client, tx, Some(value))
}

fn withdrawal(client: u16, tx: u32, value: Amount) -> TransactionRecord {
    rec(TransactionType::Withdrawal, client, tx, Some(value))
}

fn dispute(client: u16, tx: u32) -> TransactionRecord {
    rec(TransactionType::Dispute, client, tx, None)
}

fn resolve(client: u16, tx: u32) -> TransactionRecord {
    rec(TransactionType::Resolve, client, tx, None)
}

fn chargeback(client: u16, tx: u32) -> TransactionRecord {
    rec(TransactionType::Chargeback, client, tx, None)
}

fn row(client: u16, available: Amount, held: Amount, total: Amount, locked: bool) -> ClientRecord {
    ClientRecord { client_id: client, available, held, total, locked }
}

#[test]
fn dispute_resolve_round_trip() {
    let records = vec![
        deposit(1, 1, amt(100, 1)),
        deposit(1, 2, amt(50, 1)),
        dispute(1, 1),
        withdrawal(1, 3, amt(30, 1)),
        resolve(1, 1),
    ];
    let rows = process(&records).unwrap();
    assert_eq!(rows, vec![row(1, amt(120, 1), amt(0, 1), amt(120, 1), false)]);
}

#[test]
fn dispute_then_chargeback_locks() {
    let records = vec![deposit(1, 1, amt(50, 1)), dispute(1, 1), chargeback(1, 1)];
    let rows = process(&records).unwrap();
    assert_eq!(rows, vec![row(1, amt(0, 1), amt(0, 1), amt(0, 1), true)]);
}

#[test]
fn single_deposit_is_available() {
    let a = amt(12345, 4);
    let rows = process(&vec![deposit(7, 1, a)]).unwrap();
    assert_eq!(rows, vec![row(7, a, amt(0, 0), a, false)]);
}

#[test]
fn insufficient_withdrawal_stays_disputable() {
    let records = vec![
        deposit(1, 1, amt(10, 0)),
        withdrawal(1, 2, amt(15, 0)),
    ];
    let rows = process(&records).unwrap();
    assert_eq!(rows, vec![row(1, amt(10, 0), amt(0, 0), amt(10, 0), false)]);

    let mut records = records;
    records.push(dispute(1, 2));
    let rows = process(&records).unwrap();
    assert_eq!(rows, vec![row(1, amt(-5, 0), amt(15, 0), amt(10, 0), false)]);
}

#[test]
fn withdrawal_of_exact_balance_succeeds() {
    let records = vec![deposit(1, 1, amt(25, 1)), withdrawal(1, 2, amt(250, 2))];
    let rows = process(&records).unwrap();
    assert_eq!(rows, vec![row(1, amt(0, 2), amt(0, 0), amt(0, 2), false)]);
}

#[test]
fn dispute_moves_amount_to_held() {
    let records = vec![deposit(1, 1, amt(10, 0)), deposit(1, 2, amt(4, 0)), dispute(1, 2)];
    let rows = process(&records).unwrap();
    assert_eq!(rows, vec![row(1, amt(10, 0), amt(4, 0), amt(14, 0), false)]);
}

#[test]
fn unknown_reference_is_no_op() {
    let mut ledger = Ledger::new();
    let mut store = TxDatabase::new();
    apply(&deposit(1, 1, amt(10, 0)), &mut ledger, &mut store).unwrap();
    for r in [dispute(1, 99), resolve(1, 99), chargeback(1, 99)] {
        apply(&r, &mut ledger, &mut store).unwrap();
        let state = ledger.snapshot(1).unwrap();
        assert_eq!(state.available, amt(10, 0));
        assert_eq!(state.held, amt(0, 0));
        assert!(!state.locked);
        assert!(state.txns_under_dispute.is_empty());
    }
    assert!(store.query(99).is_none());
    assert_eq!(ledger.seen_clients(), &vec![1u16]);
}

#[test]
fn undisputed_resolve_and_chargeback_are_no_ops() {
    let records = vec![deposit(1, 1, amt(10, 0)), resolve(1, 1), chargeback(1, 1)];
    let rows = process(&records).unwrap();
    assert_eq!(rows, vec![row(1, amt(10, 0), amt(0, 0), amt(10, 0), false)]);
}

#[test]
fn resolve_after_resolve_is_no_op() {
    let records = vec![deposit(1, 1, amt(10, 0)), dispute(1, 1), resolve(1, 1), resolve(1, 1)];
    let rows = process(&records).unwrap();
    assert_eq!(rows, vec![row(1, amt(10, 0), amt(0, 0), amt(10, 0), false)]);
}

#[test]
fn rows_follow_first_appearance() {
    let records = vec![
        deposit(3, 1, amt(1, 0)),
        deposit(1, 2, amt(2, 0)),
        deposit(3, 3, amt(3, 0)),
        dispute(2, 2),
        deposit(1, 4, amt(4, 0)),
    ];
    let rows = process(&records).unwrap();
    let ids: Vec<u16> = rows.iter().map(|r| r.client_id).collect();
    assert_eq!(ids, vec![3, 1, 2]);
    assert_eq!(rows[2], row(2, amt(-2, 0), amt(2, 0), amt(0, 0), false));
}

#[test]
fn total_is_available_plus_held() {
    let records = vec![deposit(1, 1, amt(15, 1)), deposit(1, 2, amt(25, 2)), dispute(1, 2)];
    let rows = process(&records).unwrap();
    assert_eq!(rows, vec![row(1, amt(150, 2), amt(25, 2), amt(175, 2), false)]);
}

#[test]
fn locked_account_still_takes_deposits() {
    let records = vec![
        deposit(1, 1, amt(5, 0)),
        dispute(1, 1),
        chargeback(1, 1),
        deposit(1, 2, amt(7, 0)),
    ];
    let rows = process(&records).unwrap();
    assert_eq!(rows, vec![row(1, amt(7, 0), amt(0, 0), amt(7, 0), true)]);
}

#[test]
fn empty_input_gives_no_rows() {
    assert_eq!(process(&vec![]).unwrap(), vec![]);
}

#[test]
fn deposit_without_amount_fails() {
    let records = vec![rec(TransactionType::Deposit, 1, 1, None)];
    assert_eq!(process(&records), Err(LedgerError::MissingAmount));
}

#[test]
fn withdrawal_without_amount_fails() {
    let records = vec![deposit(1, 1, amt(1, 0)), rec(TransactionType::Withdrawal, 1, 2, None)];
    assert_eq!(process(&records), Err(LedgerError::MissingAmount));
}

#[test]
fn overflowing_balance_fails() {
    let records = vec![deposit(1, 1, amt(i128::MAX, 0)), deposit(1, 2, amt(1, 0))];
    assert_eq!(process(&records), Err(LedgerError::Overflow));
}

#[test]
fn amount_arithmetic_aligns_scales() {
    let a = amt(15, 1);
    let b = amt(275, 3);
    assert_eq!(a.checked_add(b), Some(amt(1775, 3)));
    assert_eq!(a.checked_sub(b), Some(amt(1225, 3)));
    assert!(b.less_than(&a));
    assert!(!a.less_than(&b));
    assert!(!a.less_than(&amt(1500, 3)));
    assert_eq!(amt(i128::MAX, 0).checked_add(amt(1, 1)), None);
}

#[test]
fn comparison_is_exact_beyond_common_scale() {
    let huge = amt(i128::MAX, 0);
    let tiny = amt(1, 28);
    assert!(tiny.less_than(&huge));
    assert!(!huge.less_than(&tiny));
    assert!(amt(i128::MIN, 0).less_than(&tiny));
}

#[test]
fn scale_beyond_limit_is_refused() {
    assert_eq!(Amount::new(1, 29), None);
    assert_eq!(Amount::new(1, 28), Some(Amount { mantissa: 1, scale: 28 }));
}

#[test]
fn store_keeps_last_record_per_id() {
    let mut store = TxDatabase::new();
    store.save(deposit(1, 5, amt(1, 0)));
    store.save(withdrawal(2, 5, amt(2, 0)));
    assert_eq!(store.query(5), Some(withdrawal(2, 5, amt(2, 0))));
    assert_eq!(store.query(6), None);
}

#[test]
fn get_or_create_registers_once() {
    let mut ledger = Ledger::new();
    assert!(ledger.get_or_create(4));
    assert!(ledger.get_or_create(2));
    assert!(!ledger.get_or_create(4));
    assert_eq!(ledger.seen_clients(), &vec![4u16, 2]);
    assert!(ledger.snapshot(3).is_none());
}

#[test]
fn output_row_for_state() {
    let mut ledger = Ledger::new();
    let mut store = TxDatabase::new();
    apply(&deposit(9, 1, amt(3, 0)), &mut ledger, &mut store).unwrap();
    apply(&dispute(9, 1), &mut ledger, &mut store).unwrap();
    let r = ClientRecord::from_id_and_state(&9, ledger.snapshot(9).unwrap()).unwrap();
    assert_eq!(r, row(9, amt(0, 0), amt(3, 0), amt(3, 0), false));
}

#[test]
fn unknown_reference_from_new_client_adds_zero_row() {
    let records = vec![deposit(1, 1, amt(2, 0)), chargeback(5, 42)];
    let rows = process(&records).unwrap();
    assert_eq!(
        rows,
        vec![
            row(1, amt(2, 0), amt(0, 0), amt(2, 0), false),
            row(5, amt(0, 0), amt(0, 0), amt(0, 0), false),
        ]
    );
}
