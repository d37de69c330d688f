use executor::address::{addr_cmp, addr_eq, find_address, Address};
use executor::errors::CompileError;
use executor::compiler::try_compile;
use executor::message::{Instruction, InstructionAccount, LookupTable};

fn addr(n: u8) -> Address {
    Address::new([n; 32])
}

fn account(a: Address, is_signer: bool, is_writable: bool) -> InstructionAccount {
    InstructionAccount { address: a, is_signer, is_writable }
}

fn transfer(program: Address, from: Address, to: Address, amount: u64) -> Instruction {
    Instruction {
        program,
        accounts: vec![account(from, true, true), account(to, false, true)],
        data: amount.to_le_bytes().to_vec(),
    }
}

#[test]
fn address_order_and_search() {
    let a = addr(1);
    let b = addr(2);
    assert_eq!(addr_cmp(&a, &b), -1);
    assert_eq!(addr_cmp(&b, &a), 1);
    assert_eq!(addr_cmp(&a, &addr(1)), 0);
    assert!(addr_eq(&a, &addr(1)));
    assert!(!addr_eq(&a, &b));

    let haystack = vec![addr(5), addr(3), addr(3), addr(9)];
    assert_eq!(find_address(&haystack, &addr(3)), Some(1));
    assert_eq!(find_address(&haystack, &addr(9)), Some(3));
    assert_eq!(find_address(&haystack, &addr(7)), None);
}

#[test]
fn transfer_scenario_layout() {
    // operations = [transfer(from = U, to = K)], payer = K, no lookup tables.
    let program = addr(90);
    let u = addr(10);
    let k = addr(20);
    let message = try_compile(&k, &vec![transfer(program, u, k, 1000)], &vec![]).unwrap();

    // Payer first, then the writable signer U, then the readonly non-signer
    // program; the operation's indices point at U then K, in declared order.
    assert_eq!(message.account_keys, vec![k, u, program]);
    assert_eq!(message.num_signers, 2);
    assert_eq!(message.num_writable_signers, 2);
    assert_eq!(message.num_writable_non_signers, 0);
    assert_eq!(message.instructions.len(), 1);
    let op = &message.instructions[0];
    assert_eq!(op.program_id_index, 2);
    assert_eq!(op.accounts, vec![1, 0]);
    assert_eq!(op.data, 1000u64.to_le_bytes().to_vec());
    assert!(message.address_table_lookups.is_empty());
}

#[test]
fn compilation_is_deterministic() {
    let program = addr(90);
    let u = addr(10);
    let k = addr(20);
    let table = LookupTable { address: addr(80), addresses: vec![addr(30), addr(31)] };
    let ixs = vec![
        transfer(program, u, k, 7),
        Instruction {
            program,
            accounts: vec![account(addr(30), false, true), account(addr(31), false, false)],
            data: vec![1, 2, 3],
        },
    ];
    let first = try_compile(&k, &ixs, &vec![table.clone()]).unwrap();
    let second = try_compile(&k, &ixs, &vec![table]).unwrap();
    assert_eq!(first, second);
}

#[test]
fn payer_is_first_writable_signer() {
    // The payer appears in no operation, yet lands at static position 0 as
    // a writable signer.
    let program = addr(3);
    let payer = addr(200);
    let ix = Instruction {
        program,
        accounts: vec![account(addr(7), false, false)],
        data: vec![],
    };
    let message = try_compile(&payer, &vec![ix], &vec![]).unwrap();
    assert_eq!(message.account_keys[0], payer);
    assert!(message.num_signers >= 1);
    assert!(message.num_writable_signers >= 1);
}

#[test]
fn flags_union_across_occurrences() {
    // The same address is readonly in one operation and writable in the
    // other: the union makes it a writable non-signer.
    let program = addr(90);
    let payer = addr(1);
    let shared = addr(40);
    let ixs = vec![
        Instruction { program, accounts: vec![account(shared, false, false)], data: vec![] },
        Instruction { program, accounts: vec![account(shared, false, true)], data: vec![] },
    ];
    let message = try_compile(&payer, &ixs, &vec![]).unwrap();
    // Static order: payer, then writable non-signer, then readonly program.
    assert_eq!(message.account_keys, vec![payer, shared, program]);
    assert_eq!(message.num_signers, 1);
    assert_eq!(message.num_writable_signers, 1);
    assert_eq!(message.num_writable_non_signers, 1);
}

#[test]
fn lookup_extraction_moves_non_signers() {
    let program = addr(90);
    let payer = addr(1);
    let w = addr(50);
    let r = addr(60);
    let ix = Instruction {
        program,
        accounts: vec![account(w, false, true), account(r, false, false)],
        data: vec![9],
    };
    let table = LookupTable { address: addr(70), addresses: vec![r, addr(2), w] };
    let message = try_compile(&payer, &vec![ix], &vec![table]).unwrap();

    // Both non-signer accounts move into the table; the program stays
    // static because the table does not list it.
    assert_eq!(message.account_keys, vec![payer, program]);
    assert_eq!(message.address_table_lookups.len(), 1);
    let lookup = &message.address_table_lookups[0];
    assert_eq!(lookup.table_address, addr(70));
    assert_eq!(lookup.writable_indexes, vec![2]);
    assert_eq!(lookup.readonly_indexes, vec![0]);
    // Resolved order: [payer, program] static, then w, then r.
    let op = &message.instructions[0];
    assert_eq!(op.program_id_index, 1);
    assert_eq!(op.accounts, vec![2, 3]);
    assert_eq!(op.data, vec![9]);
}

#[test]
fn first_table_wins_for_shared_address() {
    // An address resolvable via two tables is claimed by the table that
    // appears first in the caller's list, and appears in no second lookup.
    let program = addr(90);
    let payer = addr(1);
    let shared = addr(50);
    let other = addr(60);
    let ix = Instruction {
        program,
        accounts: vec![account(shared, false, true), account(other, false, true)],
        data: vec![],
    };
    let table_a = LookupTable { address: addr(70), addresses: vec![addr(9), shared] };
    let table_b = LookupTable { address: addr(71), addresses: vec![shared, other] };
    let message = try_compile(&payer, &vec![ix], &vec![table_a, table_b]).unwrap();

    assert_eq!(message.address_table_lookups.len(), 2);
    let first = &message.address_table_lookups[0];
    let second = &message.address_table_lookups[1];
    assert_eq!(first.table_address, addr(70));
    assert_eq!(first.writable_indexes, vec![1]);
    assert!(first.readonly_indexes.is_empty());
    assert_eq!(second.table_address, addr(71));
    assert_eq!(second.writable_indexes, vec![1]);
    assert!(second.readonly_indexes.is_empty());
}

#[test]
fn signers_never_move_into_tables() {
    // The signing account is listed in the table, yet signers cannot be
    // resolved through lookups: it stays in the static list.
    let program = addr(90);
    let payer = addr(1);
    let signer = addr(30);
    let ix = Instruction { program, accounts: vec![account(signer, true, true)], data: vec![] };
    let table = LookupTable { address: addr(70), addresses: vec![signer, program] };
    let message = try_compile(&payer, &vec![ix], &vec![table]).unwrap();

    // Only the (readonly, non-signer) program moves.
    assert_eq!(message.account_keys, vec![payer, signer]);
    assert_eq!(message.address_table_lookups.len(), 1);
    assert!(message.address_table_lookups[0].writable_indexes.is_empty());
    assert_eq!(message.address_table_lookups[0].readonly_indexes, vec![1]);
}

#[test]
fn untouched_table_is_omitted() {
    let program = addr(90);
    let payer = addr(1);
    let ix = Instruction { program, accounts: vec![], data: vec![] };
    let empty_table = LookupTable { address: addr(70), addresses: vec![addr(33)] };
    let message = try_compile(&payer, &vec![ix], &vec![empty_table]).unwrap();
    assert!(message.address_table_lookups.is_empty());
}

#[test]
fn static_overflow_is_rejected() {
    // 256 distinct writable accounts plus payer and program exceed the
    // 255-entry static list.
    let program = addr(1);
    let payer = addr(2);
    let mut accounts = Vec::new();
    for i in 0..=255u8 {
        let mut bytes = [7u8; 32];
        bytes[0] = i;
        bytes[1] = 99;
        accounts.push(account(Address::new(bytes), false, true));
    }
    let ix = Instruction { program, accounts, data: vec![] };
    let err = try_compile(&payer, &vec![ix], &vec![]).unwrap_err();
    assert_eq!(err, CompileError::AccountIndexOverflow);
}

#[test]
fn table_position_overflow_is_rejected() {
    // The eligible address sits at position 256 of its table, which does
    // not fit a single byte.
    let program = addr(90);
    let payer = addr(1);
    let wanted = addr(50);
    let ix = Instruction { program, accounts: vec![account(wanted, false, true)], data: vec![] };
    let mut table_addresses = Vec::new();
    for i in 0..256u16 {
        let mut bytes = [3u8; 32];
        bytes[0] = (i % 256) as u8;
        bytes[1] = (i / 256) as u8 + 100;
        table_addresses.push(Address::new(bytes));
    }
    table_addresses.push(wanted);
    let table = LookupTable { address: addr(70), addresses: table_addresses };
    let err = try_compile(&payer, &vec![ix], &vec![table]).unwrap_err();
    assert_eq!(err, CompileError::AddressTableLookupIndexOverflow);
}
