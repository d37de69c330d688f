//! Properties of the compiler pipeline, proved from the specification
//! functions the executable contracts are stated over.

use vstd::prelude::*;

use crate::address::{addr_lt, lemma_addr_order, Address};
use crate::compiled_keys::{
    spec_add_accounts, spec_bucket, spec_compile_entries, spec_compile_keys, spec_components,
    spec_drain, spec_drain_eligible, spec_entries_sorted, spec_extract, spec_non_payer_entries,
    spec_not_payer, spec_upsert, KeyEntry, SpecCompiledKeys,
};
use crate::compiler::{
    spec_compile_indices, spec_compile_instruction, spec_compile_instructions, spec_concat_readonly,
    spec_concat_writable, spec_extract_all, spec_resolved_order, spec_try_compile,
};
use crate::executable::{spec_attach, spec_validate_ok, ResolvedAccount};
use crate::message::{
    spec_instruction_in_bounds, spec_lookup_count, spec_message_well_formed,
    spec_static_is_signer, spec_static_is_writable, spec_total_resolved, InstructionAccount, SpecAddressTableLookup, SpecCompiledInstruction,
    SpecInstruction, SpecLookupTable, SpecTransactionMessage, MAX_RESOLVED_ADDRESSES,
};
use crate::transaction::{spec_build_request, spec_build_requests, SpecInvocationRequest};

verus! {

/// A drain pass records exactly one table position per drained address.
proof fn lemma_drain_parallel_lens(s: Seq<KeyEntry>, table: Seq<Address>, w: bool)
    ensures
        spec_drain(s, table, w) matches Some(out) ==> out.1.len() == out.2.len(),
    decreases s.len(),
{
    if s.len() > 0 {
        lemma_drain_parallel_lens(s.drop_last(), table, w);
    }
}

/// A lookup lists exactly one position per loaded address, per class.
proof fn lemma_extract_parallel_lens(ck: SpecCompiledKeys, t: SpecLookupTable)
    ensures
        spec_extract(ck, t) matches Some((ck2, opt)) ==> (opt matches Some((l, la)) ==> {
            &&& l.writable_indexes.len() == la.writable.len()
            &&& l.readonly_indexes.len() == la.readonly.len()
        }),
{
    lemma_drain_parallel_lens(ck.entries, t.addresses, true);
    match spec_drain(ck.entries, t.addresses, true) {
        Option::Some(out1) => {
            lemma_drain_parallel_lens(out1.0, t.addresses, false);
        },
        Option::None => {},
    }
}

/// Extraction keeps the payer untouched.
proof fn lemma_extract_all_keeps_payer(ck: SpecCompiledKeys, tables: Seq<SpecLookupTable>)
    ensures
        spec_extract_all(ck, tables) matches Some(out) ==> out.0.payer == ck.payer,
    decreases tables.len(),
{
    if tables.len() > 0 {
        lemma_extract_all_keeps_payer(ck, tables.drop_last());
    }
}

/// Over a whole extraction, the lookups list exactly as many positions as
/// there are loaded addresses.
proof fn lemma_extract_all_counts(ck: SpecCompiledKeys, tables: Seq<SpecLookupTable>)
    ensures
        spec_extract_all(ck, tables) matches Some(out) ==> spec_lookup_count(out.1)
            == spec_concat_writable(out.2).len() + spec_concat_readonly(out.2).len(),
    decreases tables.len(),
{
    if tables.len() > 0 {
        lemma_extract_all_counts(ck, tables.drop_last());
        match spec_extract_all(ck, tables.drop_last()) {
            Option::Some((ck1, lookups, loadeds)) => {
                lemma_extract_parallel_lens(ck1, tables.last());
                match spec_extract(ck1, tables.last()) {
                    Option::Some((ck2, Option::Some((l, la)))) => {
                        assert(lookups.push(l).drop_last() =~= lookups);
                        assert(loadeds.push(la).drop_last() =~= loadeds);
                    },
                    _ => {},
                }
            },
            Option::None => {},
        }
    }
}

/// Every index an account list is re-addressed to points inside the
/// resolved order.
proof fn lemma_indices_bounded(keys: Seq<Address>, accounts: Seq<crate::message::InstructionAccount>)
    requires
        keys.len() <= MAX_RESOLVED_ADDRESSES,
    ensures
        spec_compile_indices(keys, accounts) matches Some(idxs) ==> {
            &&& idxs.len() == accounts.len()
            &&& forall|j: int| 0 <= j < idxs.len() ==> idxs[j] < keys.len()
        },
    decreases accounts.len(),
{
    if accounts.len() > 0 {
        lemma_indices_bounded(keys, accounts.drop_last());
        keys.index_of_first_ensures(accounts.last().address);
    }
}

/// Every index a compiled instruction list carries points inside the
/// resolved order, and one compiled instruction exists per input.
proof fn lemma_instructions_bounded(keys: Seq<Address>, ixs: Seq<SpecInstruction>)
    requires
        keys.len() <= MAX_RESOLVED_ADDRESSES,
    ensures
        spec_compile_instructions(keys, ixs) matches Some(cixs) ==> {
            &&& cixs.len() == ixs.len()
            &&& forall|i: int|
                0 <= i < cixs.len() ==> spec_instruction_in_bounds(
                    #[trigger] cixs[i],
                    keys.len() as int,
                )
        },
    decreases ixs.len(),
{
    if ixs.len() > 0 {
        lemma_instructions_bounded(keys, ixs.drop_last());
        match spec_compile_instructions(keys, ixs.drop_last()) {
            Option::Some(prev) => {
                keys.index_of_first_ensures(ixs.last().program);
                lemma_indices_bounded(keys, ixs.last().accounts);
                match spec_compile_instruction(keys, ixs.last()) {
                    Option::Some(ci) => {
                        assert(prev.push(ci).drop_last() =~= prev);
                        assert(spec_instruction_in_bounds(ci, keys.len() as int));
                    },
                    Option::None => {},
                }
            },
            Option::None => {},
        }
    }
}

/// Index boundedness: in a compiled message, every operation's program and
/// account index lies below the total resolved-address count.
pub proof fn lemma_index_boundedness(
    payer: Address,
    ixs: Seq<SpecInstruction>,
    tables: Seq<SpecLookupTable>,
)
    ensures
        spec_try_compile(payer, ixs, tables) matches Ok(sm) ==> {
            &&& spec_total_resolved(sm) <= MAX_RESOLVED_ADDRESSES
            &&& forall|i: int|
                0 <= i < sm.instructions.len() ==> spec_instruction_in_bounds(
                    #[trigger] sm.instructions[i],
                    spec_total_resolved(sm),
                )
        },
{
    let ck = spec_compile_keys(ixs, Some(payer));
    lemma_extract_all_counts(ck, tables);
    match spec_extract_all(ck, tables) {
        Option::Some((ck2, lookups, loadeds)) => {
            match spec_components(ck2) {
                Option::Some((ns, nws, nwns, static_keys)) => {
                    let resolved = spec_resolved_order(static_keys, loadeds);
                    if resolved.len() <= MAX_RESOLVED_ADDRESSES {
                        lemma_instructions_bounded(resolved, ixs);
                    }
                },
                Option::None => {},
            }
        },
        Option::None => {},
    }
}

/// Whether one assembled request reproduces one raw instruction: same
/// program, same account addresses in order, same payload.
pub open spec fn spec_request_matches(q: SpecInvocationRequest, ix: SpecInstruction) -> bool {
    &&& q.program == ix.program
    &&& q.data == ix.data
    &&& q.accounts.len() == ix.accounts.len()
    &&& forall|j: int|
        0 <= j < ix.accounts.len() ==> (#[trigger] q.accounts[j]).address
            == ix.accounts[j].address
}

/// Every re-addressed account index points back at the address it was
/// compiled from.
proof fn lemma_indices_resolve(
    keys: Seq<Address>,
    accounts: Seq<InstructionAccount>,
    idxs: Seq<u8>,
)
    requires
        keys.len() <= MAX_RESOLVED_ADDRESSES,
        spec_compile_indices(keys, accounts) == Some(idxs),
    ensures
        idxs.len() == accounts.len(),
        forall|j: int|
            0 <= j < accounts.len() ==> keys[(#[trigger] idxs[j]) as int] == accounts[j].address,
    decreases accounts.len(),
{
    if accounts.len() > 0 {
        match spec_compile_indices(keys, accounts.drop_last()) {
            Option::Some(prev) => {
                lemma_indices_resolve(keys, accounts.drop_last(), prev);
                keys.index_of_first_ensures(accounts.last().address);
            },
            Option::None => {},
        }
    }
}

/// Requests assembled over an account list that mirrors the resolved order
/// reproduce the compiled batch's original instructions.
proof fn lemma_requests_reproduce(
    keys: Seq<Address>,
    metas: Seq<ResolvedAccount>,
    ixs: Seq<SpecInstruction>,
    cixs: Seq<SpecCompiledInstruction>,
)
    requires
        keys.len() <= MAX_RESOLVED_ADDRESSES,
        spec_compile_instructions(keys, ixs) == Some(cixs),
        metas.len() == keys.len(),
        forall|i: int| 0 <= i < keys.len() ==> (#[trigger] metas[i]).address == keys[i],
    ensures
        cixs.len() == ixs.len(),
        spec_build_requests(metas, cixs).len() == ixs.len(),
        forall|k: int|
            0 <= k < ixs.len() ==> spec_request_matches(
                #[trigger] spec_build_requests(metas, cixs)[k],
                ixs[k],
            ),
    decreases ixs.len(),
{
    crate::transaction::lemma_one_request_per_instruction(metas, cixs);
    if ixs.len() > 0 {
        match spec_compile_instructions(keys, ixs.drop_last()) {
            Option::Some(prev) => {
                lemma_requests_reproduce(keys, metas, ixs.drop_last(), prev);
                match spec_compile_instruction(keys, ixs.last()) {
                    Option::Some(ci) => {
                        assert(prev.push(ci).drop_last() =~= prev);
                        keys.index_of_first_ensures(ixs.last().program);
                        match spec_compile_indices(keys, ixs.last().accounts) {
                            Option::Some(idxs) => {
                                lemma_indices_resolve(keys, ixs.last().accounts, idxs);
                                lemma_indices_bounded(keys, ixs.last().accounts);
                                let q = spec_build_request(metas, ci);
                                assert(spec_request_matches(q, ixs.last()));
                                assert(spec_build_requests(metas, cixs).drop_last()
                                    =~= spec_build_requests(metas, prev));
                                assert forall|k: int| 0 <= k < ixs.len() implies
                                    spec_request_matches(
                                        #[trigger] spec_build_requests(metas, cixs)[k],
                                        ixs[k],
                                    ) by {
                                    if k < ixs.len() - 1 {
                                        assert(spec_build_requests(metas, cixs)[k]
                                            == spec_build_requests(metas, prev)[k]);
                                        assert(ixs[k] == ixs.drop_last()[k]);
                                    }
                                }
                            },
                            Option::None => {},
                        }
                    },
                    Option::None => {},
                }
            },
            Option::None => {},
        }
    }
}

/// Round trip: a batch compiled with no lookup tables validates against
/// exactly its static address list, and the requests assembled from it
/// reproduce the original instructions' programs, account addresses in
/// declared order, and payloads, unchanged.
pub proof fn lemma_round_trip(payer: Address, ixs: Seq<SpecInstruction>)
    ensures
        spec_try_compile(payer, ixs, Seq::empty()) matches Ok(sm) ==> {
            &&& spec_validate_ok(sm, Seq::empty(), sm.account_keys)
            &&& spec_build_requests(spec_attach(sm, sm.account_keys), sm.instructions).len()
                == ixs.len()
            &&& forall|k: int|
                0 <= k < ixs.len() ==> spec_request_matches(
                    #[trigger] spec_build_requests(
                        spec_attach(sm, sm.account_keys),
                        sm.instructions,
                    )[k],
                    ixs[k],
                )
        },
{
    let ck = spec_compile_keys(ixs, Some(payer));
    let no_tables = Seq::<SpecLookupTable>::empty();
    assert(spec_extract_all(ck, no_tables) == Some(
        (ck, Seq::<SpecAddressTableLookup>::empty(), Seq::<
            crate::compiled_keys::SpecLoadedAddresses,
        >::empty()),
    ));
    match spec_components(ck) {
        Option::Some((ns, nws, nwns, static_keys)) => {
            let loadeds = Seq::<crate::compiled_keys::SpecLoadedAddresses>::empty();
            let resolved = spec_resolved_order(static_keys, loadeds);
            assert(resolved =~= static_keys);
            if resolved.len() <= MAX_RESOLVED_ADDRESSES {
                match spec_compile_instructions(resolved, ixs) {
                    Option::Some(cixs) => {
                        let sm = SpecTransactionMessage {
                            num_signers: ns,
                            num_writable_signers: nws,
                            num_writable_non_signers: nwns,
                            account_keys: static_keys,
                            instructions: cixs,
                            address_table_lookups: Seq::empty(),
                        };
                        assert(spec_try_compile(payer, ixs, no_tables) == Ok::<
                            SpecTransactionMessage,
                            crate::errors::CompileError,
                        >(sm));
                        // Structural well-formedness.
                        assert(spec_total_resolved(sm) == static_keys.len());
                        lemma_instructions_bounded(resolved, ixs);
                        assert(spec_message_well_formed(sm));
                        // Count, static and dynamic checks against exactly
                        // the static list.
                        assert(sm.account_keys.skip(sm.account_keys.len() as int)
                            =~= Seq::<Address>::empty());
                        assert(crate::executable::spec_resolved_writable(
                            sm.address_table_lookups,
                            no_tables,
                        ) + crate::executable::spec_resolved_readonly(
                            sm.address_table_lookups,
                            no_tables,
                        ) =~= Seq::<Address>::empty());
                        // The attached metadata mirrors the static list.
                        let metas = spec_attach(sm, sm.account_keys);
                        assert(forall|i: int|
                            0 <= i < static_keys.len() ==> (#[trigger] metas[i]).address
                                == static_keys[i]);
                        lemma_requests_reproduce(resolved, metas, ixs, cixs);
                        assert(forall|k: int|
                            0 <= k < ixs.len() ==> spec_request_matches(
                                #[trigger] spec_build_requests(metas, cixs)[k],
                                ixs[k],
                            ));
                    },
                    Option::None => {},
                }
            }
        },
        Option::None => {},
    }
}

/// Whether some entry carries the given address.
pub open spec fn spec_has_addr(s: Seq<KeyEntry>, a: Address) -> bool {
    exists|i: int| 0 <= i < s.len() && s[i].address == a
}

/// An upsert adds its address and keeps the canonical order strict.
proof fn lemma_upsert_sorted(s: Seq<KeyEntry>, a: Address, sg: bool, wr: bool)
    requires
        spec_entries_sorted(s),
    ensures
        spec_entries_sorted(spec_upsert(s, a, sg, wr)),
        forall|b: Address|
            #![trigger spec_has_addr(spec_upsert(s, a, sg, wr), b)]
            #![trigger spec_has_addr(s, b)]
            spec_has_addr(spec_upsert(s, a, sg, wr), b) <==> (spec_has_addr(s, b) || b == a),
    decreases s.len(),
{
    let out = spec_upsert(s, a, sg, wr);
    if s.len() == 0 {
        assert forall|b: Address| spec_has_addr(out, b) implies b == a by {
            let i = choose|i: int| 0 <= i < out.len() && out[i].address == b;
        }
        assert(spec_has_addr(out, a)) by {
            assert(out[0].address == a);
        }
    } else if a == s[0].address {
        assert forall|b: Address| spec_has_addr(out, b) implies (spec_has_addr(s, b) || b == a) by {
            let i = choose|i: int| 0 <= i < out.len() && out[i].address == b;
            if i > 0 {
                assert(s[i].address == b);
            }
        }
        assert forall|b: Address| spec_has_addr(s, b) implies spec_has_addr(out, b) by {
            let i = choose|i: int| 0 <= i < s.len() && s[i].address == b;
            assert(out[i].address == b);
        }
        assert(spec_has_addr(out, a)) by {
            assert(out[0].address == a);
        }
    } else if addr_lt(a, s[0].address) {
        assert forall|i: int, j: int| 0 <= i < j < out.len() implies addr_lt(
            out[i].address,
            out[j].address,
        ) by {
            if i == 0 {
                lemma_addr_order(a, s[0].address, out[j].address);
                if j > 1 {
                    assert(addr_lt(s[0].address, s[j - 1].address));
                }
                lemma_addr_order(a, s[0].address, s[j - 1].address);
            } else {
                assert(addr_lt(s[i - 1].address, s[j - 1].address));
            }
        }
        assert forall|b: Address| spec_has_addr(out, b) implies (spec_has_addr(s, b) || b == a) by {
            let i = choose|i: int| 0 <= i < out.len() && out[i].address == b;
            if i > 0 {
                assert(s[i - 1].address == b);
            }
        }
        assert forall|b: Address| spec_has_addr(s, b) implies spec_has_addr(out, b) by {
            let i = choose|i: int| 0 <= i < s.len() && s[i].address == b;
            assert(out[i + 1].address == b);
        }
        assert(spec_has_addr(out, a)) by {
            assert(out[0].address == a);
        }
    } else {
        let rest = s.drop_first();
        assert forall|i: int, j: int| 0 <= i < j < rest.len() implies addr_lt(
            rest[i].address,
            rest[j].address,
        ) by {
            assert(addr_lt(s[i + 1].address, s[j + 1].address));
        }
        lemma_upsert_sorted(rest, a, sg, wr);
        let sub = spec_upsert(rest, a, sg, wr);
        lemma_addr_order(a, s[0].address, s[0].address);
        // s[0] precedes everything in the recursive result.
        assert forall|i: int| 0 <= i < sub.len() implies addr_lt(s[0].address, sub[i].address) by {
            let b = sub[i].address;
            assert(spec_has_addr(sub, b)) by {
                assert(0 <= i < sub.len() && sub[i].address == b);
            }
            assert(spec_has_addr(rest, b) || b == a);
            if b != a {
                let k = choose|k: int| 0 <= k < rest.len() && rest[k].address == b;
                assert(rest[k] == s[k + 1]);
                assert(addr_lt(s[0].address, s[k + 1].address));
            }
        }
        assert forall|i: int, j: int| 0 <= i < j < out.len() implies addr_lt(
            out[i].address,
            out[j].address,
        ) by {
            if i == 0 {
                assert(out[j] == sub[j - 1]);
            } else {
                assert(out[i] == sub[i - 1] && out[j] == sub[j - 1]);
                assert(addr_lt(sub[i - 1].address, sub[j - 1].address));
            }
        }
        assert forall|b: Address| spec_has_addr(out, b) implies (spec_has_addr(s, b) || b == a) by {
            let i = choose|i: int| 0 <= i < out.len() && out[i].address == b;
            if i > 0 {
                assert(out[i] == sub[i - 1]);
                assert(spec_has_addr(sub, b)) by {
                    assert(sub[i - 1].address == b);
                }
                assert(spec_has_addr(rest, b) || b == a);
                if b != a {
                    let k = choose|k: int| 0 <= k < rest.len() && rest[k].address == b;
                    assert(rest[k] == s[k + 1]);
                    assert(s[k + 1].address == b);
                }
            }
        }
        assert forall|b: Address| (spec_has_addr(s, b) || b == a) implies spec_has_addr(out, b) by {
            if b == a || spec_has_addr(rest, b) {
                assert(spec_has_addr(sub, b));
                let k = choose|k: int| 0 <= k < sub.len() && sub[k].address == b;
                assert(out[k + 1].address == b);
            } else {
                let i = choose|i: int| 0 <= i < s.len() && s[i].address == b;
                if i == 0 {
                    assert(out[0].address == b);
                } else {
                    assert(rest[i - 1].address == b);
                }
            }
        }
    }
}

/// Folding account references keeps the canonical order strict.
proof fn lemma_add_accounts_sorted(s: Seq<KeyEntry>, accounts: Seq<InstructionAccount>)
    requires
        spec_entries_sorted(s),
    ensures
        spec_entries_sorted(spec_add_accounts(s, accounts)),
    decreases accounts.len(),
{
    if accounts.len() > 0 {
        lemma_add_accounts_sorted(s, accounts.drop_last());
        lemma_upsert_sorted(
            spec_add_accounts(s, accounts.drop_last()),
            accounts.last().address,
            accounts.last().is_signer,
            accounts.last().is_writable,
        );
    }
}

/// The compiled key set is strictly sorted, hence free of duplicate
/// addresses.
proof fn lemma_compile_entries_sorted(ixs: Seq<SpecInstruction>)
    ensures
        spec_entries_sorted(spec_compile_entries(ixs)),
    decreases ixs.len(),
{
    if ixs.len() > 0 {
        lemma_compile_entries_sorted(ixs.drop_last());
        lemma_upsert_sorted(
            spec_compile_entries(ixs.drop_last()),
            ixs.last().program,
            false,
            false,
        );
        lemma_add_accounts_sorted(
            spec_upsert(spec_compile_entries(ixs.drop_last()), ixs.last().program, false, false),
            ixs.last().accounts,
        );
    }
}

/// The whole compiled key set, payer included, is strictly sorted.
proof fn lemma_compile_keys_sorted(ixs: Seq<SpecInstruction>, payer: Option<Address>)
    ensures
        spec_entries_sorted(spec_compile_keys(ixs, payer).entries),
{
    lemma_compile_entries_sorted(ixs);
    match payer {
        Option::Some(p) => {
            lemma_upsert_sorted(spec_compile_entries(ixs), p, true, true);
        },
        Option::None => {},
    }
}

/// What one drain pass keeps and what it moves out: the kept entries stay
/// strictly sorted, both parts draw their addresses from the input, and no
/// drained address is still kept.
proof fn lemma_drain_props(s: Seq<KeyEntry>, table: Seq<Address>, w: bool)
    requires
        spec_entries_sorted(s),
    ensures
        spec_drain(s, table, w) matches Some(out) ==> {
            &&& spec_entries_sorted(out.0)
            &&& forall|b: Address| spec_has_addr(out.0, b) ==> spec_has_addr(s, b)
            &&& forall|k: int| 0 <= k < out.2.len() ==> spec_has_addr(s, #[trigger] out.2[k])
            &&& forall|k: int| 0 <= k < out.2.len() ==> !spec_has_addr(out.0, #[trigger] out.2[k])
            &&& forall|k1: int, k2: int|
                0 <= k1 < k2 < out.2.len() ==> out.2[k1] != out.2[k2]
        },
    decreases s.len(),
{
    if s.len() > 0 {
        let rest = s.drop_last();
        assert(spec_entries_sorted(rest));
        lemma_drain_props(rest, table, w);
        match spec_drain(rest, table, w) {
            Option::Some((kept, idxs, drained)) => {
                let e = s.last();
                // Everything already processed carries an address strictly
                // below the last entry's.
                assert forall|b: Address| spec_has_addr(rest, b) implies addr_lt(b, e.address) by {
                    let i = choose|i: int| 0 <= i < rest.len() && rest[i].address == b;
                    assert(addr_lt(s[i].address, s[s.len() - 1].address));
                }
                assert forall|b: Address| spec_has_addr(rest, b) implies b != e.address by {
                    lemma_addr_order(b, e.address, e.address);
                }
                assert forall|b: Address| spec_has_addr(rest, b) implies spec_has_addr(s, b) by {
                    let k = choose|k: int| 0 <= k < rest.len() && rest[k].address == b;
                    assert(s[k].address == b);
                }
                assert(spec_has_addr(s, e.address)) by {
                    assert(s[s.len() - 1].address == e.address);
                }
                match spec_drain(s, table, w) {
                    Option::Some(out) => {
                        if spec_drain_eligible(e, w) && table.index_of_first(e.address) is Some
                            && table.index_of_first(e.address)->0 <= 255 {
                            // The last entry drains: kept stays, the address
                            // joins the drained list.
                            assert(out.0 == kept && out.2 == drained.push(e.address));
                            assert forall|k: int| 0 <= k < out.2.len() implies !spec_has_addr(
                                out.0,
                                #[trigger] out.2[k],
                            ) by {
                                if k == out.2.len() - 1 {
                                    if spec_has_addr(kept, e.address) {
                                        assert(spec_has_addr(rest, e.address));
                                    }
                                } else {
                                    assert(out.2[k] == drained[k]);
                                }
                            }
                            assert forall|k: int| 0 <= k < out.2.len() implies spec_has_addr(
                                s,
                                #[trigger] out.2[k],
                            ) by {
                                if k < out.2.len() - 1 {
                                    assert(out.2[k] == drained[k]);
                                    assert(spec_has_addr(rest, drained[k]));
                                }
                            }
                            assert forall|k1: int, k2: int|
                                0 <= k1 < k2 < out.2.len() implies out.2[k1] != out.2[k2] by {
                                if k2 == out.2.len() - 1 {
                                    assert(out.2[k1] == drained[k1]);
                                    assert(spec_has_addr(rest, drained[k1]));
                                } else {
                                    assert(out.2[k1] == drained[k1] && out.2[k2] == drained[k2]);
                                }
                            }
                        } else {
                            // The last entry is kept.
                            assert(out.0 == kept.push(e) && out.2 == drained);
                            assert forall|i: int, j: int|
                                0 <= i < j < out.0.len() implies addr_lt(
                                out.0[i].address,
                                out.0[j].address,
                            ) by {
                                if j == out.0.len() - 1 {
                                    assert(out.0[i] == kept[i]);
                                    assert(spec_has_addr(kept, kept[i].address)) by {
                                        assert(kept[i].address == kept[i].address);
                                    }
                                    assert(spec_has_addr(rest, kept[i].address));
                                    assert(addr_lt(kept[i].address, e.address));
                                } else {
                                    assert(out.0[i] == kept[i] && out.0[j] == kept[j]);
                                }
                            }
                            assert forall|b: Address| spec_has_addr(out.0, b) implies spec_has_addr(
                                s,
                                b,
                            ) by {
                                let i = choose|i: int|
                                    0 <= i < out.0.len() && out.0[i].address == b;
                                if i < kept.len() {
                                    assert(spec_has_addr(kept, b)) by {
                                        assert(kept[i].address == b);
                                    }
                                    assert(spec_has_addr(rest, b));
                                    let k = choose|k: int|
                                        0 <= k < rest.len() && rest[k].address == b;
                                    assert(s[k].address == b);
                                } else {
                                    assert(s[s.len() - 1].address == b);
                                }
                            }
                            assert forall|k: int| 0 <= k < out.2.len() implies !spec_has_addr(
                                out.0,
                                #[trigger] out.2[k],
                            ) by {
                                assert(spec_has_addr(rest, drained[k]));
                                if spec_has_addr(out.0, drained[k]) {
                                    let i = choose|i: int|
                                        0 <= i < out.0.len() && out.0[i].address == drained[k];
                                    if i < kept.len() {
                                        assert(spec_has_addr(kept, drained[k])) by {
                                            assert(kept[i].address == drained[k]);
                                        }
                                    } else {
                                        assert(e.address == drained[k]);
                                    }
                                }
                            }
                        }
                    },
                    Option::None => {},
                }
            },
            Option::None => {},
        }
    }
}

/// The addresses one extraction loads, writable block first.
pub open spec fn spec_loaded_addrs(la: crate::compiled_keys::SpecLoadedAddresses) -> Seq<
    Address,
> {
    la.writable + la.readonly
}

/// What extracting one table keeps and loads, in the same terms.
proof fn lemma_extract_props(ck: SpecCompiledKeys, t: SpecLookupTable)
    requires
        spec_entries_sorted(ck.entries),
    ensures
        spec_extract(ck, t) matches Some(out) ==> {
            &&& spec_entries_sorted(out.0.entries)
            &&& forall|b: Address| spec_has_addr(out.0.entries, b) ==> spec_has_addr(ck.entries, b)
            &&& (out.1 matches Some((l, la)) ==> {
                &&& forall|k: int|
                    0 <= k < spec_loaded_addrs(la).len() ==> spec_has_addr(
                        ck.entries,
                        #[trigger] spec_loaded_addrs(la)[k],
                    )
                &&& forall|k: int|
                    0 <= k < spec_loaded_addrs(la).len() ==> !spec_has_addr(
                        out.0.entries,
                        #[trigger] spec_loaded_addrs(la)[k],
                    )
            })
        },
{
    lemma_drain_props(ck.entries, t.addresses, true);
    match spec_drain(ck.entries, t.addresses, true) {
        Option::Some((kept1, widx, wdrained)) => {
            lemma_drain_props(kept1, t.addresses, false);
        },
        Option::None => {},
    }
}

/// Disjointness: over a whole extraction the loaded address lists are
/// pairwise disjoint — no address is contributed by two different lookups —
/// and every entry still pending afterwards was pending at the start.
proof fn lemma_extract_all_disjoint(ck: SpecCompiledKeys, tables: Seq<SpecLookupTable>)
    requires
        spec_entries_sorted(ck.entries),
    ensures
        spec_extract_all(ck, tables) matches Some(out) ==> {
            &&& spec_entries_sorted(out.0.entries)
            &&& forall|b: Address|
                spec_has_addr(out.0.entries, b) ==> spec_has_addr(ck.entries, b)
            &&& forall|j: int, k: int|
                0 <= j < out.2.len() && 0 <= k < spec_loaded_addrs(out.2[j]).len()
                    ==> !spec_has_addr(out.0.entries, #[trigger] spec_loaded_addrs(out.2[j])[k])
            &&& forall|j1: int, k1: int, j2: int, k2: int|
                0 <= j1 < j2 < out.2.len() && 0 <= k1 < spec_loaded_addrs(out.2[j1]).len() && 0
                    <= k2 < spec_loaded_addrs(out.2[j2]).len() ==> (#[trigger] spec_loaded_addrs(
                    out.2[j1],
                )[k1]) != (#[trigger] spec_loaded_addrs(out.2[j2])[k2])
        },
    decreases tables.len(),
{
    if tables.len() > 0 {
        lemma_extract_all_disjoint(ck, tables.drop_last());
        match spec_extract_all(ck, tables.drop_last()) {
            Option::Some((ck1, lookups, loadeds)) => {
                lemma_extract_props(ck1, tables.last());
                match spec_extract(ck1, tables.last()) {
                    Option::Some((ck2, opt)) => {
                        match opt {
                            Option::Some((l, la)) => {
                                assert(loadeds.push(la).drop_last() =~= loadeds);
                                // The new loaded addresses were all still
                                // pending after the earlier tables, so no
                                // earlier lookup loaded them; and they are
                                // gone from the pending set afterwards.
                                assert forall|j: int, k: int|
                                    0 <= j < loadeds.push(la).len() && 0 <= k < spec_loaded_addrs(
                                        loadeds.push(la)[j],
                                    ).len() implies !spec_has_addr(
                                    ck2.entries,
                                    #[trigger] spec_loaded_addrs(loadeds.push(la)[j])[k],
                                ) by {
                                    if j < loadeds.len() {
                                        assert(loadeds.push(la)[j] == loadeds[j]);
                                        assert(!spec_has_addr(
                                            ck1.entries,
                                            spec_loaded_addrs(loadeds[j])[k],
                                        ));
                                    }
                                }
                                assert forall|j1: int, k1: int, j2: int, k2: int|
                                    0 <= j1 < j2 < loadeds.push(la).len() && 0 <= k1
                                        < spec_loaded_addrs(loadeds.push(la)[j1]).len() && 0 <= k2
                                        < spec_loaded_addrs(loadeds.push(la)[j2]).len() implies (
                                    #[trigger] spec_loaded_addrs(loadeds.push(la)[j1])[k1]) != (
                                    #[trigger] spec_loaded_addrs(loadeds.push(la)[j2])[k2]) by {
                                    if j2 == loadeds.len() {
                                        assert(loadeds.push(la)[j1] == loadeds[j1]);
                                        assert(!spec_has_addr(
                                            ck1.entries,
                                            spec_loaded_addrs(loadeds[j1])[k1],
                                        ));
                                        assert(spec_has_addr(
                                            ck1.entries,
                                            spec_loaded_addrs(la)[k2],
                                        ));
                                    } else {
                                        assert(loadeds.push(la)[j1] == loadeds[j1]);
                                        assert(loadeds.push(la)[j2] == loadeds[j2]);
                                    }
                                }
                            },
                            Option::None => {},
                        }
                    },
                    Option::None => {},
                }
            },
            Option::None => {},
        }
    }
}

/// Disjointness: in one compilation, no address is loaded by two different
/// address-table lookups.
pub proof fn lemma_lookup_disjointness(
    payer: Address,
    ixs: Seq<SpecInstruction>,
    tables: Seq<SpecLookupTable>,
)
    ensures
        spec_extract_all(spec_compile_keys(ixs, Some(payer)), tables) matches Some(out)
            ==> forall|j1: int, k1: int, j2: int, k2: int|
            0 <= j1 < j2 < out.2.len() && 0 <= k1 < spec_loaded_addrs(out.2[j1]).len() && 0 <= k2
                < spec_loaded_addrs(out.2[j2]).len() ==> (#[trigger] spec_loaded_addrs(
                out.2[j1],
            )[k1]) != (#[trigger] spec_loaded_addrs(out.2[j2])[k2]),
{
    lemma_compile_keys_sorted(ixs, Some(payer));
    lemma_extract_all_disjoint(spec_compile_keys(ixs, Some(payer)), tables);
}

/// Whether some entry carries the given address with signing authority.
pub open spec fn spec_has_signer_addr(s: Seq<KeyEntry>, a: Address) -> bool {
    exists|i: int| 0 <= i < s.len() && s[i].address == a && s[i].is_signer
}

/// Forcing an address signer and writable leaves a signer entry for it.
proof fn lemma_upsert_makes_signer(s: Seq<KeyEntry>, a: Address)
    ensures
        spec_has_signer_addr(spec_upsert(s, a, true, true), a),
    decreases s.len(),
{
    let out = spec_upsert(s, a, true, true);
    if s.len() == 0 {
        assert(out[0].address == a && out[0].is_signer);
    } else if a == s[0].address {
        assert(out[0].address == a && out[0].is_signer);
    } else if addr_lt(a, s[0].address) {
        assert(out[0].address == a && out[0].is_signer);
    } else {
        lemma_upsert_makes_signer(s.drop_first(), a);
        let sub = spec_upsert(s.drop_first(), a, true, true);
        let i = choose|i: int| 0 <= i < sub.len() && sub[i].address == a && sub[i].is_signer;
        assert(out[i + 1] == sub[i]);
    }
}

/// A drain pass never moves a signer out: its entry stays, and no drained
/// address carries signing authority.
proof fn lemma_drain_signer_safe(s: Seq<KeyEntry>, table: Seq<Address>, w: bool)
    requires
        spec_entries_sorted(s),
    ensures
        spec_drain(s, table, w) matches Some(out) ==> {
            &&& forall|a: Address|
                spec_has_signer_addr(s, a) ==> spec_has_signer_addr(#[trigger] out.0, a)
            &&& forall|a: Address, k: int|
                #![trigger spec_has_signer_addr(s, a), out.2[k]]
                spec_has_signer_addr(s, a) && 0 <= k < out.2.len() ==> out.2[k] != a
        },
    decreases s.len(),
{
    if s.len() > 0 {
        let rest = s.drop_last();
        assert(spec_entries_sorted(rest));
        lemma_drain_signer_safe(rest, table, w);
        lemma_drain_props(rest, table, w);
        match spec_drain(rest, table, w) {
            Option::Some((kept, idxs, drained)) => {
                let e = s.last();
                assert forall|b: Address| spec_has_addr(rest, b) implies addr_lt(b, e.address)
                    && b != e.address by {
                    let i = choose|i: int| 0 <= i < rest.len() && rest[i].address == b;
                    assert(addr_lt(s[i].address, s[s.len() - 1].address));
                    lemma_addr_order(b, e.address, e.address);
                }
                // A signer witness either is the last entry or sits in the
                // strictly smaller prefix.
                assert forall|a: Address| spec_has_signer_addr(s, a) implies (a == e.address
                    && e.is_signer) || spec_has_signer_addr(rest, a) by {
                    let i = choose|i: int|
                        0 <= i < s.len() && s[i].address == a && s[i].is_signer;
                    if i < s.len() - 1 {
                        assert(rest[i].address == a && rest[i].is_signer);
                    }
                }
                match spec_drain(s, table, w) {
                    Option::Some(out) => {
                        if spec_drain_eligible(e, w) && table.index_of_first(e.address) is Some
                            && table.index_of_first(e.address)->0 <= 255 {
                            assert(out.0 == kept && out.2 == drained.push(e.address));
                            assert forall|a: Address, k: int|
                                #![trigger spec_has_signer_addr(s, a), out.2[k]]
                                spec_has_signer_addr(s, a) && 0 <= k < out.2.len() implies out.2[k]
                                != a by {
                                if a == e.address && e.is_signer {
                                    assert(!spec_drain_eligible(e, w));
                                } else {
                                    assert(spec_has_signer_addr(rest, a));
                                    if k < out.2.len() - 1 {
                                        assert(out.2[k] == drained[k]);
                                    } else {
                                        assert(out.2[k] == e.address);
                                        let i = choose|i: int|
                                            0 <= i < rest.len() && rest[i].address == a
                                                && rest[i].is_signer;
                                        assert(spec_has_addr(rest, a)) by {
                                            assert(rest[i].address == a);
                                        }
                                    }
                                }
                            }
                            assert forall|a: Address| spec_has_signer_addr(s, a) implies
                                spec_has_signer_addr(out.0, a) by {
                                if a == e.address && e.is_signer {
                                    assert(!spec_drain_eligible(e, w));
                                }
                                assert(spec_has_signer_addr(rest, a));
                            }
                        } else {
                            assert(out.0 == kept.push(e) && out.2 == drained);
                            assert forall|a: Address| spec_has_signer_addr(s, a) implies
                                spec_has_signer_addr(out.0, a) by {
                                if a == e.address && e.is_signer {
                                    assert(out.0[out.0.len() - 1] == e);
                                } else {
                                    assert(spec_has_signer_addr(rest, a));
                                    let i = choose|i: int|
                                        0 <= i < kept.len() && kept[i].address == a
                                            && kept[i].is_signer;
                                    assert(out.0[i] == kept[i]);
                                }
                            }
                            assert forall|a: Address, k: int|
                                #![trigger spec_has_signer_addr(s, a), out.2[k]]
                                spec_has_signer_addr(s, a) && 0 <= k < out.2.len() implies out.2[k]
                                != a by {
                                if a == e.address && e.is_signer {
                                    assert(spec_has_addr(rest, drained[k]));
                                } else {
                                    assert(spec_has_signer_addr(rest, a));
                                }
                            }
                        }
                    },
                    Option::None => {},
                }
            },
            Option::None => {},
        }
    }
}

/// Extraction never moves a signer out of the pending key set.
proof fn lemma_extract_signer_safe(ck: SpecCompiledKeys, t: SpecLookupTable)
    requires
        spec_entries_sorted(ck.entries),
    ensures
        spec_extract(ck, t) matches Some(out) ==> {
            &&& forall|a: Address|
                spec_has_signer_addr(ck.entries, a) ==> spec_has_signer_addr(
                    #[trigger] out.0.entries,
                    a,
                )
            &&& (out.1 matches Some((l, la)) ==> forall|a: Address, k: int|
                #![trigger spec_has_signer_addr(ck.entries, a), spec_loaded_addrs(la)[k]]
                spec_has_signer_addr(ck.entries, a) && 0 <= k < spec_loaded_addrs(la).len()
                    ==> spec_loaded_addrs(la)[k] != a)
        },
{
    lemma_drain_signer_safe(ck.entries, t.addresses, true);
    lemma_drain_props(ck.entries, t.addresses, true);
    match spec_drain(ck.entries, t.addresses, true) {
        Option::Some((kept1, widx, wdrained)) => {
            lemma_drain_signer_safe(kept1, t.addresses, false);
        },
        Option::None => {},
    }
}

/// Over a whole extraction, every signer stays pending and no lookup loads
/// a signer's address.
proof fn lemma_extract_all_signer_safe(ck: SpecCompiledKeys, tables: Seq<SpecLookupTable>)
    requires
        spec_entries_sorted(ck.entries),
    ensures
        spec_extract_all(ck, tables) matches Some(out) ==> {
            &&& spec_entries_sorted(out.0.entries)
            &&& forall|a: Address|
                spec_has_signer_addr(ck.entries, a) ==> spec_has_signer_addr(
                    #[trigger] out.0.entries,
                    a,
                )
            &&& forall|a: Address, j: int, k: int|
                #![trigger spec_has_signer_addr(ck.entries, a), spec_loaded_addrs(out.2[j])[k]]
                spec_has_signer_addr(ck.entries, a) && 0 <= j < out.2.len() && 0 <= k
                    < spec_loaded_addrs(out.2[j]).len() ==> spec_loaded_addrs(out.2[j])[k] != a
        },
    decreases tables.len(),
{
    lemma_extract_all_disjoint(ck, tables);
    if tables.len() > 0 {
        lemma_extract_all_signer_safe(ck, tables.drop_last());
        lemma_extract_all_disjoint(ck, tables.drop_last());
        match spec_extract_all(ck, tables.drop_last()) {
            Option::Some((ck1, lookups, loadeds)) => {
                lemma_extract_signer_safe(ck1, tables.last());
                match spec_extract(ck1, tables.last()) {
                    Option::Some((ck2, opt)) => {
                        match opt {
                            Option::Some((l, la)) => {
                                assert forall|a: Address, j: int, k: int|
                                    #![trigger spec_has_signer_addr(ck.entries, a), spec_loaded_addrs(loadeds.push(la)[j])[k]]
                                    spec_has_signer_addr(ck.entries, a) && 0 <= j < loadeds.push(
                                        la,
                                    ).len() && 0 <= k < spec_loaded_addrs(
                                        loadeds.push(la)[j],
                                    ).len() implies spec_loaded_addrs(
                                    loadeds.push(la)[j],
                                )[k] != a by {
                                    if j < loadeds.len() {
                                        assert(loadeds.push(la)[j] == loadeds[j]);
                                    } else {
                                        assert(loadeds.push(la)[j] == la);
                                        assert(spec_has_signer_addr(ck1.entries, a));
                                    }
                                }
                            },
                            Option::None => {},
                        }
                    },
                    Option::None => {},
                }
            },
            Option::None => {},
        }
    }
}

/// Static-lookup disjointness: no static address of the finalized message
/// is also loaded through an address-table lookup.
pub proof fn lemma_static_lookup_disjointness(
    payer: Address,
    ixs: Seq<SpecInstruction>,
    tables: Seq<SpecLookupTable>,
)
    ensures
        spec_extract_all(spec_compile_keys(ixs, Some(payer)), tables) matches Some(out) ==> (
        spec_components(out.0) matches Some(c) ==> forall|i: int, j: int, k: int|
            0 <= i < c.3.len() && 0 <= j < out.2.len() && 0 <= k < spec_loaded_addrs(
                out.2[j],
            ).len() ==> (#[trigger] c.3[i]) != (#[trigger] spec_loaded_addrs(out.2[j])[k])),
{
    let ck = spec_compile_keys(ixs, Some(payer));
    lemma_compile_keys_sorted(ixs, Some(payer));
    lemma_upsert_makes_signer(spec_compile_entries(ixs), payer);
    lemma_extract_all_disjoint(ck, tables);
    lemma_extract_all_signer_safe(ck, tables);
    match spec_extract_all(ck, tables) {
        Option::Some((ck2, lookups, loadeds)) => {
            assert(ck2.payer == Some(payer)) by {
                lemma_extract_all_keeps_payer(ck, tables);
            }
            match spec_components(ck2) {
                Option::Some(c) => {
                    let rest = spec_non_payer_entries(ck2);
                    assert forall|i: int|
                        1 <= i < c.3.len() implies spec_has_addr(ck2.entries, c.3[i]) by {
                        lemma_static_tail_is_pending(ck2, i);
                    }
                    assert forall|i: int, j: int, k: int|
                        0 <= i < c.3.len() && 0 <= j < loadeds.len() && 0 <= k
                            < spec_loaded_addrs(loadeds[j]).len() implies (#[trigger] c.3[i]) != (
                    #[trigger] spec_loaded_addrs(loadeds[j])[k]) by {
                        if i == 0 {
                            assert(c.3[0] == payer);
                            assert(spec_has_signer_addr(ck.entries, payer));
                        } else {
                            assert(spec_has_addr(ck2.entries, c.3[i]));
                            if c.3[i] == spec_loaded_addrs(loadeds[j])[k] {
                                assert(!spec_has_addr(
                                    ck2.entries,
                                    spec_loaded_addrs(loadeds[j])[k],
                                ));
                            }
                        }
                    }
                },
                Option::None => {},
            }
        },
        Option::None => {},
    }
}

/// Every static address after the payer is the address of an entry still
/// pending when the key set is finalized.
proof fn lemma_static_tail_is_pending(ck: SpecCompiledKeys, i: int)
    requires
        ck.payer is Some,
        spec_components(ck) is Some,
        1 <= i < spec_components(ck)->Some_0.3.len(),
    ensures
        spec_has_addr(ck.entries, spec_components(ck)->Some_0.3[i]),
{
    let p = ck.payer->Some_0;
    let rest = ck.entries.filter(spec_not_payer(p));
    let keys = spec_components(ck)->Some_0.3;
    let ws = rest.filter(spec_bucket(true, true));
    let rs = rest.filter(spec_bucket(true, false));
    let wn = rest.filter(spec_bucket(false, true));
    let rn = rest.filter(spec_bucket(false, false));
    let t = i - 1;
    let entry = if t < ws.len() {
        ws[t]
    } else if t < ws.len() + rs.len() {
        rs[t - ws.len()]
    } else if t < ws.len() + rs.len() + wn.len() {
        wn[t - ws.len() - rs.len()]
    } else {
        rn[t - ws.len() - rs.len() - wn.len()]
    };
    assert(keys[i] == entry.address);
    if t < ws.len() {
        assert(ws.contains(entry)) by {
            assert(ws[t] == entry);
        }
        rest.lemma_filter_contains_rev(spec_bucket(true, true), entry);
    } else if t < ws.len() + rs.len() {
        assert(rs.contains(entry)) by {
            assert(rs[t - ws.len()] == entry);
        }
        rest.lemma_filter_contains_rev(spec_bucket(true, false), entry);
    } else if t < ws.len() + rs.len() + wn.len() {
        assert(wn.contains(entry)) by {
            assert(wn[t - ws.len() - rs.len()] == entry);
        }
        rest.lemma_filter_contains_rev(spec_bucket(false, true), entry);
    } else {
        assert(rn.contains(entry)) by {
            assert(rn[t - ws.len() - rs.len() - wn.len()] == entry);
        }
        rest.lemma_filter_contains_rev(spec_bucket(false, false), entry);
    }
    assert(rest.contains(entry));
    // rest is itself a filter of the entries.
    ck.entries.lemma_filter_contains_rev(spec_not_payer(p), entry);
    assert(ck.entries.contains(entry));
    let m = choose|m: int| 0 <= m < ck.entries.len() && ck.entries[m] == entry;
    assert(spec_has_addr(ck.entries, entry.address)) by {
        assert(ck.entries[m].address == entry.address);
    }
}

/// Payer invariant: in a compiled message the payer occupies static
/// position 0 and is counted among the writable signers, so its attached
/// metadata is signer and writable.
pub proof fn lemma_payer_invariant(
    payer: Address,
    ixs: Seq<SpecInstruction>,
    tables: Seq<SpecLookupTable>,
)
    ensures
        spec_try_compile(payer, ixs, tables) matches Ok(sm) ==> {
            &&& sm.account_keys.len() >= 1
            &&& sm.account_keys[0] == payer
            &&& sm.num_writable_signers >= 1
            &&& sm.num_signers >= 1
            &&& spec_static_is_signer(sm, 0)
            &&& spec_static_is_writable(sm, 0)
        },
{
    let ck = spec_compile_keys(ixs, Some(payer));
    lemma_extract_all_keeps_payer(ck, tables);
}

} // verus!
