use executor::address::Address;
use executor::compiler::try_compile;
use executor::errors::ExecutorError;
use executor::executable::ExecutableMessage;
use executor::message::{Instruction, InstructionAccount, LookupTable, TransactionMessage};
use executor::transaction::Transaction;

fn addr(n: u8) -> Address {
    Address::new([n; 32])
}

fn account(a: Address, is_signer: bool, is_writable: bool) -> InstructionAccount {
    InstructionAccount { address: a, is_signer, is_writable }
}

fn transfer(program: Address, from: Address, to: Address, amount: u64) -> Instruction {
    Instruction {
        program,
        accounts: vec![account(from, true, true), account(to, false, true)],
        data: amount.to_le_bytes().to_vec(),
    }
}

#[test]
fn round_trip_without_tables() {
    let program = addr(90);
    let u = addr(10);
    let k = addr(20);
    let ixs = vec![transfer(program, u, k, 500), transfer(program, k, u, 7)];
    let message = try_compile(&k, &ixs, &vec![]).unwrap();
    let supplied = message.account_keys.clone();
    let mut tx = Transaction::new(message);

    let requests = tx.execute(&vec![], &supplied).unwrap();
    assert_eq!(requests.len(), 2);
    for (req, ix) in requests.iter().zip(ixs.iter()) {
        assert_eq!(req.program, ix.program);
        assert_eq!(req.data, ix.data);
        assert_eq!(req.accounts.len(), ix.accounts.len());
        for (meta, acc) in req.accounts.iter().zip(ix.accounts.iter()) {
            assert_eq!(meta.address, acc.address);
        }
    }
    // The payer is signer and writable in the assembled request.
    assert!(requests[0].accounts[1].is_writable);
    assert!(requests[1].accounts[0].is_signer);
}

#[test]
fn execution_drains_the_record() {
    let program = addr(90);
    let u = addr(10);
    let k = addr(20);
    let message = try_compile(&k, &vec![transfer(program, u, k, 500)], &vec![]).unwrap();
    let supplied = message.account_keys.clone();
    let mut tx = Transaction::new(message);

    let first = tx.execute(&vec![], &supplied).unwrap();
    assert_eq!(first.len(), 1);
    assert!(tx.message.instructions.is_empty());

    // A second run validates against the same addresses and performs
    // zero invocations.
    let second = tx.execute(&vec![], &supplied).unwrap();
    assert!(second.is_empty());
}

#[test]
fn wrong_first_address_is_rejected_untouched() {
    let program = addr(90);
    let u = addr(10);
    let k = addr(20);
    let message = try_compile(&k, &vec![transfer(program, u, k, 500)], &vec![]).unwrap();
    let mut supplied = message.account_keys.clone();
    supplied[0] = addr(99);
    let mut tx = Transaction::new(message);

    let err = tx.execute(&vec![], &supplied).unwrap_err();
    assert_eq!(err, ExecutorError::InvalidAccount);
    // Nothing was drained: the record still holds its operation.
    assert_eq!(tx.message.instructions.len(), 1);
}

#[test]
fn missing_table_account_is_rejected_first() {
    let program = addr(90);
    let payer = addr(1);
    let w = addr(50);
    let ix = Instruction { program, accounts: vec![account(w, false, true)], data: vec![] };
    let table = LookupTable { address: addr(70), addresses: vec![w] };
    let message = try_compile(&payer, &vec![ix], &vec![table]).unwrap();
    assert_eq!(message.address_table_lookups.len(), 1);

    // Supply a wrong account list *and* one fewer lookup table than
    // required: the cardinality error wins, before any address comparison.
    let supplied = vec![addr(99), addr(98), addr(97)];
    let mut tx = Transaction::new(message);
    let err = tx.execute(&vec![], &supplied).unwrap_err();
    assert_eq!(err, ExecutorError::InvalidNumberOfAccounts);
    assert_eq!(tx.message.instructions.len(), 1);
}

#[test]
fn malformed_header_is_rejected() {
    let message = TransactionMessage {
        num_signers: 0,
        num_writable_signers: 0,
        num_writable_non_signers: 0,
        account_keys: vec![addr(1)],
        instructions: vec![],
        address_table_lookups: vec![],
    };
    let mut tx = Transaction::new(message);
    let err = tx.execute(&vec![], &vec![addr(1)]).unwrap_err();
    assert_eq!(err, ExecutorError::InvalidTransactionMessage);
}

#[test]
fn lookup_resolution_and_metadata() {
    let program = addr(90);
    let payer = addr(1);
    let w = addr(50);
    let r = addr(60);
    let ix = Instruction {
        program,
        accounts: vec![account(w, false, true), account(r, false, false)],
        data: vec![4, 2],
    };
    let table = LookupTable { address: addr(70), addresses: vec![r, addr(2), w] };
    let message = try_compile(&payer, &vec![ix], &vec![table.clone()]).unwrap();

    // Static part [payer, program], then the writable block [w], then the
    // readonly block [r].
    let supplied = vec![payer, program, w, r];
    let mut tx = Transaction::new(message);
    let requests = tx.execute(&vec![table], &supplied).unwrap();
    assert_eq!(requests.len(), 1);
    let req = &requests[0];
    assert_eq!(req.program, program);
    assert_eq!(req.accounts[0].address, w);
    assert!(req.accounts[0].is_writable);
    assert!(!req.accounts[0].is_signer);
    assert_eq!(req.accounts[1].address, r);
    assert!(!req.accounts[1].is_writable);
    assert!(!req.accounts[1].is_signer);
}

#[test]
fn out_of_range_lookup_position_is_invalid_account() {
    let program = addr(90);
    let payer = addr(1);
    let w = addr(50);
    let ix = Instruction { program, accounts: vec![account(w, false, true)], data: vec![] };
    let table = LookupTable { address: addr(70), addresses: vec![addr(2), w] };
    let message = try_compile(&payer, &vec![ix], &vec![table]).unwrap();

    // At execution time the table shrank below the recorded position.
    let shrunk = LookupTable { address: addr(70), addresses: vec![addr(2)] };
    let supplied = vec![payer, program, w];
    let mut tx = Transaction::new(message);
    let err = tx.execute(&vec![shrunk], &supplied).unwrap_err();
    assert_eq!(err, ExecutorError::InvalidAccount);
}

#[test]
fn wrong_dynamic_address_is_invalid_account() {
    let program = addr(90);
    let payer = addr(1);
    let w = addr(50);
    let ix = Instruction { program, accounts: vec![account(w, false, true)], data: vec![] };
    let table = LookupTable { address: addr(70), addresses: vec![addr(2), w] };
    let message = try_compile(&payer, &vec![ix], &vec![table.clone()]).unwrap();

    // The supplied account at the dynamic position disagrees with what the
    // table resolves.
    let supplied = vec![payer, program, addr(51)];
    let mut tx = Transaction::new(message);
    let err = tx.execute(&vec![table], &supplied).unwrap_err();
    assert_eq!(err, ExecutorError::InvalidAccount);
}

#[test]
fn validate_attaches_header_flags() {
    let program = addr(90);
    let u = addr(10);
    let k = addr(20);
    let r = addr(60);
    let ix = Instruction {
        program,
        accounts: vec![
            account(u, true, true),
            account(r, true, false),
            account(k, false, true),
        ],
        data: vec![],
    };
    let message = try_compile(&k, &vec![ix], &vec![]).unwrap();
    // Static order: payer k, writable signer u, readonly signer r,
    // readonly non-signer program. k is forced writable signer by payer
    // rule and flag union.
    assert_eq!(message.account_keys, vec![k, u, r, program]);
    let supplied = message.account_keys.clone();
    let em = ExecutableMessage::validate(&message, &vec![], &supplied).unwrap();
    assert!(em.accounts[0].is_signer && em.accounts[0].is_writable);
    assert!(em.accounts[1].is_signer && em.accounts[1].is_writable);
    assert!(em.accounts[2].is_signer && !em.accounts[2].is_writable);
    assert!(!em.accounts[3].is_signer && !em.accounts[3].is_writable);
}
