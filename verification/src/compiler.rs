//! The key compiler pipeline: fold the instructions into a key set, extract
//! lookup-table references, finalize the static list, and re-address every
//! instruction against the final resolved order.

use vstd::prelude::*;

use crate::address::{find_address, Address};
use crate::compiled_keys::{
    spec_compile_keys, spec_components, spec_extract, CompiledKeys, LoadedAddresses,
    SpecCompiledKeys, SpecLoadedAddresses,
};
use crate::errors::CompileError;
use crate::message::{
    copy_bytes, AddressTableLookup, CompiledInstruction, Instruction, InstructionAccount, LookupTable,
    SpecAddressTableLookup, SpecCompiledInstruction, SpecInstruction, SpecLookupTable,
    SpecTransactionMessage, TransactionMessage, MAX_RESOLVED_ADDRESSES,
};

verus! {

/// Extracts lookups from every table in caller order; an address resolvable
/// through several tables is claimed by the first table that lists it.
pub open spec fn spec_extract_all(ck: SpecCompiledKeys, tables: Seq<SpecLookupTable>) -> Option<
    (SpecCompiledKeys, Seq<SpecAddressTableLookup>, Seq<SpecLoadedAddresses>),
>
    decreases tables.len(),
{
    if tables.len() == 0 {
        Some((ck, Seq::empty(), Seq::empty()))
    } else {
        match spec_extract_all(ck, tables.drop_last()) {
            Option::None => None,
            Option::Some((ck1, lookups, loadeds)) => match spec_extract(ck1, tables.last()) {
                Option::None => None,
                Option::Some((ck2, opt)) => match opt {
                    Option::None => Some((ck2, lookups, loadeds)),
                    Option::Some((l, la)) => Some((ck2, lookups.push(l), loadeds.push(la))),
                },
            },
        }
    }
}

/// All writable lookup-resolved addresses, in table order.
pub open spec fn spec_concat_writable(loadeds: Seq<SpecLoadedAddresses>) -> Seq<Address>
    decreases loadeds.len(),
{
    if loadeds.len() == 0 {
        Seq::empty()
    } else {
        spec_concat_writable(loadeds.drop_last()) + loadeds.last().writable
    }
}

/// All readonly lookup-resolved addresses, in table order.
pub open spec fn spec_concat_readonly(loadeds: Seq<SpecLoadedAddresses>) -> Seq<Address>
    decreases loadeds.len(),
{
    if loadeds.len() == 0 {
        Seq::empty()
    } else {
        spec_concat_readonly(loadeds.drop_last()) + loadeds.last().readonly
    }
}

/// The full resolved address order of a compiled batch: static addresses,
/// then every writable lookup-resolved address, then every readonly one.
pub open spec fn spec_resolved_order(
    static_keys: Seq<Address>,
    loadeds: Seq<SpecLoadedAddresses>,
) -> Seq<Address> {
    static_keys + spec_concat_writable(loadeds) + spec_concat_readonly(loadeds)
}

/// Re-addresses the account list of one instruction: each account becomes
/// the position of its first occurrence in the resolved order. `None` when
/// an address is absent.
pub open spec fn spec_compile_indices(keys: Seq<Address>, accounts: Seq<InstructionAccount>)
    -> Option<Seq<u8>>
    decreases accounts.len(),
{
    if accounts.len() == 0 {
        Some(Seq::empty())
    } else {
        match spec_compile_indices(keys, accounts.drop_last()) {
            Option::None => None,
            Option::Some(idxs) => match keys.index_of_first(accounts.last().address) {
                Option::None => None,
                Option::Some(pos) => Some(idxs.push(pos as u8)),
            },
        }
    }
}

/// Re-addresses one instruction against the resolved order.
pub open spec fn spec_compile_instruction(keys: Seq<Address>, ix: SpecInstruction) -> Option<
    SpecCompiledInstruction,
> {
    match keys.index_of_first(ix.program) {
        Option::None => None,
        Option::Some(pos) => match spec_compile_indices(keys, ix.accounts) {
            Option::None => None,
            Option::Some(idxs) => Some(
                SpecCompiledInstruction {
                    program_id_index: pos as u8,
                    accounts: idxs,
                    data: ix.data,
                },
            ),
        },
    }
}

/// Re-addresses a whole instruction list, in order.
pub open spec fn spec_compile_instructions(keys: Seq<Address>, ixs: Seq<SpecInstruction>)
    -> Option<Seq<SpecCompiledInstruction>>
    decreases ixs.len(),
{
    if ixs.len() == 0 {
        Some(Seq::empty())
    } else {
        match spec_compile_instructions(keys, ixs.drop_last()) {
            Option::None => None,
            Option::Some(cixs) => match spec_compile_instruction(keys, ixs.last()) {
                Option::None => None,
                Option::Some(ci) => Some(cixs.push(ci)),
            },
        }
    }
}

/// What compiling a batch produces, as a function of the inputs alone:
/// equal inputs always compile to the identical message.
pub open spec fn spec_try_compile(
    payer: Address,
    ixs: Seq<SpecInstruction>,
    tables: Seq<SpecLookupTable>,
) -> Result<SpecTransactionMessage, CompileError> {
    let ck = spec_compile_keys(ixs, Some(payer));
    match spec_extract_all(ck, tables) {
        Option::None => Err(CompileError::AddressTableLookupIndexOverflow),
        Option::Some((ck2, lookups, loadeds)) => match spec_components(ck2) {
            Option::None => Err(CompileError::AccountIndexOverflow),
            Option::Some((ns, nws, nwns, static_keys)) => {
                let resolved = spec_resolved_order(static_keys, loadeds);
                if resolved.len() > MAX_RESOLVED_ADDRESSES {
                    Err(CompileError::AccountIndexOverflow)
                } else {
                    match spec_compile_instructions(resolved, ixs) {
                        Option::None => Err(CompileError::UnknownInstructionKey),
                        Option::Some(cixs) => Ok(
                            SpecTransactionMessage {
                                num_signers: ns,
                                num_writable_signers: nws,
                                num_writable_non_signers: nwns,
                                account_keys: static_keys,
                                instructions: cixs,
                                address_table_lookups: lookups,
                            },
                        ),
                    }
                }
            },
        },
    }
}

/// Once a prefix of the tables fails extraction, the whole list does.
proof fn lemma_extract_all_none_extends(
    ck: SpecCompiledKeys,
    tables: Seq<SpecLookupTable>,
    i: int,
)
    requires
        0 <= i <= tables.len(),
        spec_extract_all(ck, tables.take(i)) is None,
    ensures
        spec_extract_all(ck, tables) is None,
    decreases tables.len() - i,
{
    if i == tables.len() {
        assert(tables.take(i) =~= tables);
    } else {
        assert(tables.take(i + 1).drop_last() =~= tables.take(i));
        lemma_extract_all_none_extends(ck, tables, i + 1);
    }
}

/// Once a prefix of an account list fails re-addressing, the whole list does.
proof fn lemma_indices_none_extends(keys: Seq<Address>, accounts: Seq<InstructionAccount>, i: int)
    requires
        0 <= i <= accounts.len(),
        spec_compile_indices(keys, accounts.take(i)) is None,
    ensures
        spec_compile_indices(keys, accounts) is None,
    decreases accounts.len() - i,
{
    if i == accounts.len() {
        assert(accounts.take(i) =~= accounts);
    } else {
        assert(accounts.take(i + 1).drop_last() =~= accounts.take(i));
        lemma_indices_none_extends(keys, accounts, i + 1);
    }
}

/// Once a prefix of an instruction list fails re-addressing, the whole list
/// does.
proof fn lemma_instructions_none_extends(keys: Seq<Address>, ixs: Seq<SpecInstruction>, i: int)
    requires
        0 <= i <= ixs.len(),
        spec_compile_instructions(keys, ixs.take(i)) is None,
    ensures
        spec_compile_instructions(keys, ixs) is None,
    decreases ixs.len() - i,
{
    if i == ixs.len() {
        assert(ixs.take(i) =~= ixs);
    } else {
        assert(ixs.take(i + 1).drop_last() =~= ixs.take(i));
        lemma_instructions_none_extends(keys, ixs, i + 1);
    }
}

/// Copies an address list.
fn copy_addresses(v: &Vec<Address>) -> (r: Vec<Address>)
    ensures
        r@ == v@,
{
    let mut r: Vec<Address> = Vec::new();
    for i in 0..v.len()
        invariant
            r@ == v@.take(i as int),
    {
        r.push(v[i]);
        proof {
            assert(v@.take(i + 1) =~= v@.take(i as int).push(v@[i as int]));
        }
    }
    proof {
        assert(v@.take(v@.len() as int) =~= v@);
    }
    r
}

/// Re-addresses one instruction against the resolved order.
fn compile_instruction(keys: &Vec<Address>, ix: &Instruction) -> (r: Result<
    CompiledInstruction,
    CompileError,
>)
    requires
        keys@.len() <= MAX_RESOLVED_ADDRESSES,
    ensures
        match r {
            Result::Ok(ci) => spec_compile_instruction(keys@, ix@) == Some(ci@),
            Result::Err(e) => spec_compile_instruction(keys@, ix@) is None && e
                == CompileError::UnknownInstructionKey,
        },
{
    let program_id_index: u8 = match find_address(keys, &ix.program) {
        Option::Some(k) => {
            proof {
                keys@.index_of_first_ensures(ix.program);
            }
            k as u8
        },
        Option::None => {
            return Err(CompileError::UnknownInstructionKey);
        },
    };
    let mut accounts: Vec<u8> = Vec::new();
    assert(ix@.accounts.take(0) =~= Seq::<InstructionAccount>::empty());
    for j in 0..ix.accounts.len()
        invariant
            keys@.len() <= MAX_RESOLVED_ADDRESSES,
            spec_compile_indices(keys@, ix@.accounts.take(j as int)) == Some(accounts@),
    {
        proof {
            assert(ix@.accounts.take(j + 1).drop_last() =~= ix@.accounts.take(j as int));
            assert(ix@.accounts.take(j + 1).last() == ix@.accounts[j as int]);
        }
        match find_address(keys, &ix.accounts[j].address) {
            Option::Some(k) => {
                proof {
                    keys@.index_of_first_ensures(ix@.accounts[j as int].address);
                }
                accounts.push(k as u8);
            },
            Option::None => {
                proof {
                    lemma_indices_none_extends(keys@, ix@.accounts, j + 1);
                }
                return Err(CompileError::UnknownInstructionKey);
            },
        }
    }
    proof {
        assert(ix@.accounts.take(ix@.accounts.len() as int) =~= ix@.accounts);
    }
    let data = copy_bytes(&ix.data);
    Ok(CompiledInstruction { program_id_index, accounts, data })
}

/// Compiles a batch of instructions plus a mandatory fee payer into a
/// message, greedily extracting addresses into the given lookup tables in
/// caller order.
///
/// The result equals [`spec_try_compile`] on the inputs' models: in
/// particular, compilation is deterministic, and every error case is pinned
/// down by that function.
pub fn try_compile(
    payer: &Address,
    instructions: &Vec<Instruction>,
    tables: &Vec<LookupTable>,
) -> (r: Result<TransactionMessage, CompileError>)
    ensures
        match r {
            Result::Ok(m) => spec_try_compile(
                *payer,
                instructions@.map_values(|ix: Instruction| ix@),
                tables@.map_values(|t: LookupTable| t@),
            ) == Ok::<SpecTransactionMessage, CompileError>(m@),
            Result::Err(e) => spec_try_compile(
                *payer,
                instructions@.map_values(|ix: Instruction| ix@),
                tables@.map_values(|t: LookupTable| t@),
            ) == Err::<SpecTransactionMessage, CompileError>(e),
        },
{
    let ghost sixs = instructions@.map_values(|ix: Instruction| ix@);
    let ghost stabs = tables@.map_values(|t: LookupTable| t@);
    let mut ck = CompiledKeys::compile(instructions, Some(*payer));
    let ghost ck0 = ck@;

    let mut lookups: Vec<AddressTableLookup> = Vec::new();
    let mut loadeds: Vec<LoadedAddresses> = Vec::new();
    assert(stabs.take(0) =~= Seq::<SpecLookupTable>::empty());
    assert(lookups@.map_values(|l: AddressTableLookup| l@) =~= Seq::<
        SpecAddressTableLookup,
    >::empty());
    assert(loadeds@.map_values(|la: LoadedAddresses| la@) =~= Seq::<SpecLoadedAddresses>::empty());
    for t in 0..tables.len()
        invariant
            stabs == tables@.map_values(|tb: LookupTable| tb@),
            sixs == instructions@.map_values(|ix: Instruction| ix@),
            ck0 == spec_compile_keys(sixs, Some(*payer)),
            spec_extract_all(ck0, stabs.take(t as int)) == Some(
                (
                    ck@,
                    lookups@.map_values(|l: AddressTableLookup| l@),
                    loadeds@.map_values(|la: LoadedAddresses| la@),
                ),
            ),
    {
        proof {
            assert(stabs.take(t + 1).drop_last() =~= stabs.take(t as int));
            assert(stabs.take(t + 1).last() == stabs[t as int]);
            assert(stabs[t as int] == tables@[t as int]@);
        }
        match ck.try_extract_table_lookup(&tables[t]) {
            Result::Ok(opt) => {
                match opt {
                    Option::Some((l, la)) => {
                        proof {
                            assert(lookups@.push(l).map_values(|x: AddressTableLookup| x@)
                                =~= lookups@.map_values(|x: AddressTableLookup| x@).push(l@));
                            assert(loadeds@.push(la).map_values(|x: LoadedAddresses| x@)
                                =~= loadeds@.map_values(|x: LoadedAddresses| x@).push(la@));
                        }
                        lookups.push(l);
                        loadeds.push(la);
                    },
                    Option::None => {},
                }
            },
            Result::Err(e) => {
                proof {
                    lemma_extract_all_none_extends(ck0, stabs, t + 1);
                }
                return Err(e);
            },
        }
    }
    proof {
        assert(stabs.take(stabs.len() as int) =~= stabs);
    }
    let ghost ckf = ck@;
    let ghost glookups = lookups@.map_values(|l: AddressTableLookup| l@);
    let ghost gloadeds = loadeds@.map_values(|la: LoadedAddresses| la@);
    assert(spec_extract_all(ck0, stabs) == Some((ckf, glookups, gloadeds)));

    let (num_signers, num_writable_signers, num_writable_non_signers, static_keys) =
        match ck.try_into_message_components() {
        Result::Ok(out) => out,
        Result::Err(e) => {
            return Err(e);
        },
    };

    let mut resolved = copy_addresses(&static_keys);
    assert(gloadeds.take(0) =~= Seq::<SpecLoadedAddresses>::empty());
    assert(resolved@ =~= static_keys@ + spec_concat_writable(gloadeds.take(0)));
    for t in 0..loadeds.len()
        invariant
            gloadeds == loadeds@.map_values(|la: LoadedAddresses| la@),
            resolved@ == static_keys@ + spec_concat_writable(gloadeds.take(t as int)),
    {
        let mut w = copy_addresses(&loadeds[t].writable);
        resolved.append(&mut w);
        proof {
            assert(gloadeds.take(t + 1).drop_last() =~= gloadeds.take(t as int));
            assert(gloadeds.take(t + 1).last() == gloadeds[t as int]);
            assert(static_keys@ + spec_concat_writable(gloadeds.take(t + 1)) =~= (static_keys@
                + spec_concat_writable(gloadeds.take(t as int))) + loadeds@[t as int]@.writable);
        }
    }
    proof {
        assert(gloadeds.take(gloadeds.len() as int) =~= gloadeds);
    }
    let ghost with_writable = static_keys@ + spec_concat_writable(gloadeds);
    assert(resolved@ == with_writable);
    assert(gloadeds.take(0) =~= Seq::<SpecLoadedAddresses>::empty());
    assert(resolved@ =~= with_writable + spec_concat_readonly(gloadeds.take(0)));
    for t in 0..loadeds.len()
        invariant
            gloadeds == loadeds@.map_values(|la: LoadedAddresses| la@),
            resolved@ == with_writable + spec_concat_readonly(gloadeds.take(t as int)),
    {
        let mut ro = copy_addresses(&loadeds[t].readonly);
        resolved.append(&mut ro);
        proof {
            assert(gloadeds.take(t + 1).drop_last() =~= gloadeds.take(t as int));
            assert(gloadeds.take(t + 1).last() == gloadeds[t as int]);
            assert(with_writable + spec_concat_readonly(gloadeds.take(t + 1)) =~= (with_writable
                + spec_concat_readonly(gloadeds.take(t as int))) + loadeds@[t as int]@.readonly);
        }
    }
    proof {
        assert(gloadeds.take(gloadeds.len() as int) =~= gloadeds);
        assert(resolved@ =~= spec_resolved_order(static_keys@, gloadeds));
    }

    if resolved.len() > MAX_RESOLVED_ADDRESSES {
        return Err(CompileError::AccountIndexOverflow);
    }

    let mut cixs: Vec<CompiledInstruction> = Vec::new();
    assert(sixs.take(0) =~= Seq::<SpecInstruction>::empty());
    assert(cixs@.map_values(|ci: CompiledInstruction| ci@) =~= Seq::<
        SpecCompiledInstruction,
    >::empty());
    assert(spec_compile_instructions(resolved@, sixs) is None ==> spec_try_compile(
        *payer,
        sixs,
        stabs,
    ) == Err::<SpecTransactionMessage, CompileError>(CompileError::UnknownInstructionKey));
    for i in 0..instructions.len()
        invariant
            sixs == instructions@.map_values(|ix: Instruction| ix@),
            stabs == tables@.map_values(|tb: LookupTable| tb@),
            resolved@.len() <= MAX_RESOLVED_ADDRESSES,
            spec_compile_instructions(resolved@, sixs) is None ==> spec_try_compile(
                *payer,
                sixs,
                stabs,
            ) == Err::<SpecTransactionMessage, CompileError>(CompileError::UnknownInstructionKey),
            spec_compile_instructions(resolved@, sixs.take(i as int)) == Some(
                cixs@.map_values(|ci: CompiledInstruction| ci@),
            ),
    {
        proof {
            assert(sixs.take(i + 1).drop_last() =~= sixs.take(i as int));
            assert(sixs.take(i + 1).last() == sixs[i as int]);
            assert(sixs[i as int] == instructions@[i as int]@);
        }
        match compile_instruction(&resolved, &instructions[i]) {
            Result::Ok(ci) => {
                proof {
                    assert(cixs@.push(ci).map_values(|x: CompiledInstruction| x@)
                        =~= cixs@.map_values(|x: CompiledInstruction| x@).push(ci@));
                }
                cixs.push(ci);
            },
            Result::Err(e) => {
                proof {
                    assert(spec_compile_instruction(resolved@, sixs[i as int]) is None);
                    assert(spec_compile_instructions(resolved@, sixs.take(i + 1)) is None);
                    lemma_instructions_none_extends(resolved@, sixs, i + 1);
                }
                return Err(e);
            },
        }
    }
    proof {
        assert(sixs.take(sixs.len() as int) =~= sixs);
    }

    let m = TransactionMessage {
        num_signers,
        num_writable_signers,
        num_writable_non_signers,
        account_keys: static_keys,
        instructions: cixs,
        address_table_lookups: lookups,
    };
    proof {
        assert(m@ =~= spec_try_compile(*payer, sixs, stabs)->Ok_0);
    }
    Ok(m)
}

} // verus!
