//! The compiler-transient key set: every referenced address with its
//! accumulated signer/writable/invoked flags, kept in the canonical
//! (lexicographic) address order so that compilation is deterministic.

use vstd::prelude::*;

use crate::address::{addr_cmp, addr_lt, find_address, lemma_addr_order, Address};
use crate::errors::CompileError;
use crate::message::{
    AddressTableLookup, Instruction, InstructionAccount, LookupTable, SpecAddressTableLookup,
    SpecInstruction, SpecLookupTable,
};

verus! {

/// One tracked address with the union of the flags of all its occurrences.
#[derive(Clone, Copy, Debug, PartialEq)]
pub struct KeyEntry {
    pub address: Address,
    pub is_signer: bool,
    pub is_writable: bool,
    pub is_invoked: bool,
}

/// The compiler-transient key set: an optional payer and the tracked
/// addresses in canonical order.
#[derive(Clone, Debug, PartialEq)]
pub struct CompiledKeys {
    pub payer: Option<Address>,
    pub entries: Vec<KeyEntry>,
}

/// Mathematical model of [`CompiledKeys`].
#[verifier::ext_equal]
pub struct SpecCompiledKeys {
    pub payer: Option<Address>,
    pub entries: Seq<KeyEntry>,
}

impl View for CompiledKeys {
    type V = SpecCompiledKeys;

    open spec fn view(&self) -> SpecCompiledKeys {
        SpecCompiledKeys { payer: self.payer, entries: self.entries@ }
    }
}

/// The entries are strictly ascending in the canonical address order; in
/// particular no address occurs twice.
pub open spec fn spec_entries_sorted(s: Seq<KeyEntry>) -> bool {
    forall|i: int, j: int|
        0 <= i < j < s.len() ==> addr_lt(#[trigger] s[i].address, #[trigger] s[j].address)
}

/// Inserting one address occurrence into an ordered entry list: a fresh
/// entry is placed at its ordered position, an existing one has the new
/// flags or-ed in.
pub open spec fn spec_upsert(s: Seq<KeyEntry>, a: Address, sg: bool, wr: bool) -> Seq<KeyEntry>
    decreases s.len(),
{
    if s.len() == 0 {
        seq![KeyEntry { address: a, is_signer: sg, is_writable: wr, is_invoked: false }]
    } else if a == s[0].address {
        seq![
            KeyEntry {
                address: s[0].address,
                is_signer: s[0].is_signer || sg,
                is_writable: s[0].is_writable || wr,
                is_invoked: s[0].is_invoked,
            },
        ] + s.drop_first()
    } else if addr_lt(a, s[0].address) {
        seq![KeyEntry { address: a, is_signer: sg, is_writable: wr, is_invoked: false }] + s
    } else {
        seq![s[0]] + spec_upsert(s.drop_first(), a, sg, wr)
    }
}

/// An upsert leaves a strictly smaller prefix untouched.
proof fn lemma_upsert_skip(s: Seq<KeyEntry>, a: Address, sg: bool, wr: bool, i: int)
    requires
        0 <= i <= s.len(),
        forall|j: int| 0 <= j < i ==> addr_lt(#[trigger] s[j].address, a),
    ensures
        spec_upsert(s, a, sg, wr) == s.take(i) + spec_upsert(s.skip(i), a, sg, wr),
    decreases i,
{
    if i == 0 {
        assert(s.skip(0) =~= s);
        assert(s.take(0) + spec_upsert(s, a, sg, wr) =~= spec_upsert(s, a, sg, wr));
    } else {
        lemma_addr_order(a, s[0].address, s[0].address);
        lemma_upsert_skip(s.drop_first(), a, sg, wr, i - 1);
        assert(s.take(i) =~= seq![s[0]] + s.drop_first().take(i - 1));
        assert(s.skip(i) =~= s.drop_first().skip(i - 1));
        assert(seq![s[0]] + (s.drop_first().take(i - 1) + spec_upsert(
            s.drop_first().skip(i - 1),
            a,
            sg,
            wr,
        )) =~= s.take(i) + spec_upsert(s.skip(i), a, sg, wr));
    }
}

/// Records one occurrence of `address` with the given flags: or-s them into
/// the existing entry, or inserts a fresh entry at its canonical position.
pub fn upsert(entries: &mut Vec<KeyEntry>, address: &Address, is_signer: bool, is_writable: bool)
    ensures
        final(entries)@ == spec_upsert(old(entries)@, *address, is_signer, is_writable),
{
    let ghost s = entries@;
    let ghost a = *address;
    let mut i: usize = 0;
    while i < entries.len()
        invariant
            0 <= i <= s.len(),
            entries@ == s,
            s == old(entries)@,
            a == *address,
            forall|j: int| 0 <= j < i ==> addr_lt(#[trigger] s[j].address, a),
        decreases s.len() - i,
    {
        let c = addr_cmp(&entries[i].address, address);
        if c == 0 {
            let e = entries[i];
            let merged = KeyEntry {
                address: e.address,
                is_signer: e.is_signer || is_signer,
                is_writable: e.is_writable || is_writable,
                is_invoked: e.is_invoked,
            };
            entries[i] = merged;
            proof {
                lemma_upsert_skip(s, a, is_signer, is_writable, i as int);
                assert(s.skip(i as int)[0] == s[i as int]);
                assert(spec_upsert(s.skip(i as int), a, is_signer, is_writable) =~= seq![merged]
                    + s.skip(i as int).drop_first());
                assert(entries@ =~= s.take(i as int) + (seq![merged] + s.skip(
                    i as int,
                ).drop_first()));
            }
            return;
        }
        if c == 1 {
            let fresh = KeyEntry {
                address: *address,
                is_signer,
                is_writable,
                is_invoked: false,
            };
            entries.insert(i, fresh);
            proof {
                lemma_upsert_skip(s, a, is_signer, is_writable, i as int);
                assert(s.skip(i as int)[0] == s[i as int]);
                lemma_addr_order(a, s[i as int].address, s[i as int].address);
                assert(spec_upsert(s.skip(i as int), a, is_signer, is_writable) =~= seq![fresh]
                    + s.skip(i as int));
                assert(entries@ =~= s.take(i as int) + (seq![fresh] + s.skip(i as int)));
            }
            return;
        }
        proof {
            assert(addr_lt(s[i as int].address, a));
        }
        i += 1;
    }
    let fresh = KeyEntry { address: *address, is_signer, is_writable, is_invoked: false };
    entries.push(fresh);
    proof {
        lemma_upsert_skip(s, a, is_signer, is_writable, s.len() as int);
        assert(s.skip(s.len() as int) =~= Seq::<KeyEntry>::empty());
        assert(spec_upsert(s.skip(s.len() as int), a, is_signer, is_writable) =~= seq![fresh]);
        assert(entries@ =~= s.take(s.len() as int) + seq![fresh]);
    }
}

/// Folds the account references of one instruction into the entry list, in
/// their declared order.
pub open spec fn spec_add_accounts(s: Seq<KeyEntry>, accounts: Seq<InstructionAccount>) -> Seq<
    KeyEntry,
>
    decreases accounts.len(),
{
    if accounts.len() == 0 {
        s
    } else {
        let prev = spec_add_accounts(s, accounts.drop_last());
        spec_upsert(
            prev,
            accounts.last().address,
            accounts.last().is_signer,
            accounts.last().is_writable,
        )
    }
}

/// Folds one whole instruction into the entry list: first its program (not
/// marked invoked, so it stays eligible for lookup-table resolution), then
/// its account references in order.
pub open spec fn spec_add_instruction(s: Seq<KeyEntry>, ix: SpecInstruction) -> Seq<KeyEntry> {
    spec_add_accounts(spec_upsert(s, ix.program, false, false), ix.accounts)
}

/// Folds a whole instruction list into an entry list, starting from empty.
pub open spec fn spec_compile_entries(ixs: Seq<SpecInstruction>) -> Seq<KeyEntry>
    decreases ixs.len(),
{
    if ixs.len() == 0 {
        Seq::empty()
    } else {
        spec_add_instruction(spec_compile_entries(ixs.drop_last()), ixs.last())
    }
}

/// Forces the payer, when one is given, to be tracked as a writable signer.
pub open spec fn spec_apply_payer(s: Seq<KeyEntry>, payer: Option<Address>) -> Seq<KeyEntry> {
    match payer {
        Option::None => s,
        Option::Some(p) => spec_upsert(s, p, true, true),
    }
}

/// What `CompiledKeys::compile` produces: every instruction folded in
/// left-to-right, then the payer forced signer and writable.
pub open spec fn spec_compile_keys(ixs: Seq<SpecInstruction>, payer: Option<Address>)
    -> SpecCompiledKeys {
    SpecCompiledKeys { payer, entries: spec_apply_payer(spec_compile_entries(ixs), payer) }
}

impl CompiledKeys {
    /// Compiles the addresses referenced by a list of instructions, in the
    /// canonical order, with the flag union of all occurrences; a payer, when
    /// given, is forced signer and writable.
    pub fn compile(instructions: &Vec<Instruction>, payer: Option<Address>) -> (r: CompiledKeys)
        ensures
            r@ == spec_compile_keys(
                instructions@.map_values(|ix: Instruction| ix@),
                payer,
            ),
    {
        let ghost sixs = instructions@.map_values(|ix: Instruction| ix@);
        let mut entries: Vec<KeyEntry> = Vec::new();
        assert(entries@ =~= spec_compile_entries(sixs.take(0)));
        for i in 0..instructions.len()
            invariant
                sixs == instructions@.map_values(|ix: Instruction| ix@),
                entries@ == spec_compile_entries(sixs.take(i as int)),
        {
            let ix = &instructions[i];
            upsert(&mut entries, &ix.program, false, false);
            let ghost base = spec_upsert(
                spec_compile_entries(sixs.take(i as int)),
                ix@.program,
                false,
                false,
            );
            assert(entries@ =~= spec_add_accounts(base, ix@.accounts.take(0)));
            for j in 0..ix.accounts.len()
                invariant
                    0 <= i < sixs.len(),
                    sixs == instructions@.map_values(|x: Instruction| x@),
                    ix == instructions@[i as int],
                    base == spec_upsert(
                        spec_compile_entries(sixs.take(i as int)),
                        ix@.program,
                        false,
                        false,
                    ),
                    entries@ == spec_add_accounts(base, ix@.accounts.take(j as int)),
            {
                let acc = &ix.accounts[j];
                upsert(&mut entries, &acc.address, acc.is_signer, acc.is_writable);
                proof {
                    assert(ix@.accounts.take(j + 1).drop_last() =~= ix@.accounts.take(j as int));
                    assert(ix@.accounts.take(j + 1).last() == ix@.accounts[j as int]);
                }
            }
            proof {
                assert(ix@.accounts.take(ix.accounts.len() as int) =~= ix@.accounts);
                assert(sixs.take(i + 1).drop_last() =~= sixs.take(i as int));
                assert(sixs.take(i + 1).last() == sixs[i as int]);
                assert(sixs[i as int] == ix@);
            }
        }
        proof {
            assert(sixs.take(instructions.len() as int) =~= sixs);
        }
        let ck_payer = match payer {
            Option::Some(p) => {
                upsert(&mut entries, &p, true, true);
                Option::Some(p)
            },
            Option::None => Option::None,
        };
        CompiledKeys { payer: ck_payer, entries }
    }
}

/// The addresses one extraction pulled out of the pending key set, in
/// drain order, split by writability.
#[derive(Clone, Debug, PartialEq)]
pub struct LoadedAddresses {
    pub writable: Vec<Address>,
    pub readonly: Vec<Address>,
}

/// Mathematical model of [`LoadedAddresses`].
#[verifier::ext_equal]
pub struct SpecLoadedAddresses {
    pub writable: Seq<Address>,
    pub readonly: Seq<Address>,
}

impl View for LoadedAddresses {
    type V = SpecLoadedAddresses;

    open spec fn view(&self) -> SpecLoadedAddresses {
        SpecLoadedAddresses { writable: self.writable@, readonly: self.readonly@ }
    }
}

/// Whether an entry may move into a lookup table on the pass that collects
/// addresses of the given writability: signers and invoked programs never
/// move.
pub open spec fn spec_drain_eligible(e: KeyEntry, want_writable: bool) -> bool {
    !e.is_signer && !e.is_invoked && e.is_writable == want_writable
}

/// One drain pass over pending entries, in their canonical order: every
/// eligible entry whose address occurs in the table is moved out, recording
/// the position of the first equal table entry; the rest are kept in order.
/// `None` when a recorded position does not fit a single byte.
pub open spec fn spec_drain(
    s: Seq<KeyEntry>,
    table: Seq<Address>,
    want_writable: bool,
) -> Option<(Seq<KeyEntry>, Seq<u8>, Seq<Address>)>
    decreases s.len(),
{
    if s.len() == 0 {
        Some((Seq::empty(), Seq::empty(), Seq::empty()))
    } else {
        match spec_drain(s.drop_last(), table, want_writable) {
            Option::None => None,
            Option::Some((kept, idxs, drained)) => {
                let e = s.last();
                if spec_drain_eligible(e, want_writable) {
                    match table.index_of_first(e.address) {
                        Option::Some(pos) => if pos > 255 {
                            None
                        } else {
                            Some((kept, idxs.push(pos as u8), drained.push(e.address)))
                        },
                        Option::None => Some((kept.push(e), idxs, drained)),
                    }
                } else {
                    Some((kept.push(e), idxs, drained))
                }
            },
        }
    }
}

/// Once a prefix of the entries fails a drain pass, the whole list does.
proof fn lemma_drain_none_extends(s: Seq<KeyEntry>, table: Seq<Address>, w: bool, i: int)
    requires
        0 <= i <= s.len(),
        spec_drain(s.take(i), table, w) is None,
    ensures
        spec_drain(s, table, w) is None,
    decreases s.len() - i,
{
    if i == s.len() {
        assert(s.take(i) =~= s);
    } else {
        assert(s.take(i + 1).drop_last() =~= s.take(i));
        lemma_drain_none_extends(s, table, w, i + 1);
    }
}

/// Runs one drain pass over `entries`: the kept entries, the recorded table
/// positions, and the drained addresses, exactly as [`spec_drain`] describes.
fn drain_pass(entries: &Vec<KeyEntry>, table: &Vec<Address>, want_writable: bool) -> (r: Result<
    (Vec<KeyEntry>, Vec<u8>, Vec<Address>),
    CompileError,
>)
    ensures
        match r {
            Result::Ok(out) => spec_drain(entries@, table@, want_writable) == Some(
                (out.0@, out.1@, out.2@),
            ),
            Result::Err(e) => spec_drain(entries@, table@, want_writable) is None && e
                == CompileError::AddressTableLookupIndexOverflow,
        },
{
    let mut kept: Vec<KeyEntry> = Vec::new();
    let mut idxs: Vec<u8> = Vec::new();
    let mut drained: Vec<Address> = Vec::new();
    assert(entries@.take(0) =~= Seq::<KeyEntry>::empty());
    for i in 0..entries.len()
        invariant
            spec_drain(entries@.take(i as int), table@, want_writable) == Some(
                (kept@, idxs@, drained@),
            ),
    {
        let e = entries[i];
        proof {
            assert(entries@.take(i + 1).drop_last() =~= entries@.take(i as int));
            assert(entries@.take(i + 1).last() == entries@[i as int]);
        }
        if !e.is_signer && !e.is_invoked && e.is_writable == want_writable {
            match find_address(table, &e.address) {
                Option::Some(pos) => {
                    if pos > 255 {
                        proof {
                            lemma_drain_none_extends(entries@, table@, want_writable, i + 1);
                        }
                        return Err(CompileError::AddressTableLookupIndexOverflow);
                    }
                    idxs.push(pos as u8);
                    drained.push(e.address);
                },
                Option::None => {
                    kept.push(e);
                },
            }
        } else {
            kept.push(e);
        }
    }
    proof {
        assert(entries@.take(entries@.len() as int) =~= entries@);
    }
    Ok((kept, idxs, drained))
}

/// What extracting one table does to the key set: a writable pass, then a
/// readonly pass over what the first pass kept; the lookup is omitted when
/// neither pass drained anything.
pub open spec fn spec_extract(ck: SpecCompiledKeys, table: SpecLookupTable) -> Option<
    (SpecCompiledKeys, Option<(SpecAddressTableLookup, SpecLoadedAddresses)>),
> {
    match spec_drain(ck.entries, table.addresses, true) {
        Option::None => None,
        Option::Some((kept1, widx, wdrained)) => match spec_drain(kept1, table.addresses, false) {
            Option::None => None,
            Option::Some((kept2, ridx, rdrained)) => {
                let ck2 = SpecCompiledKeys { payer: ck.payer, entries: kept2 };
                if widx.len() == 0 && ridx.len() == 0 {
                    Some((ck2, None))
                } else {
                    Some(
                        (
                            ck2,
                            Some(
                                (
                                    SpecAddressTableLookup {
                                        table_address: table.address,
                                        writable_indexes: widx,
                                        readonly_indexes: ridx,
                                    },
                                    SpecLoadedAddresses { writable: wdrained, readonly: rdrained },
                                ),
                            ),
                        ),
                    )
                }
            },
        },
    }
}

impl CompiledKeys {
    /// Extracts from the pending key set every address that the given lookup
    /// table can resolve: first the writable ones, then the readonly ones.
    /// Produces the table reference and the drained addresses, or `None` when
    /// the table resolves nothing. On an index-overflow error the key set is
    /// left unchanged.
    pub fn try_extract_table_lookup(&mut self, table: &LookupTable) -> (r: Result<
        Option<(AddressTableLookup, LoadedAddresses)>,
        CompileError,
    >)
        ensures
            match r {
                Result::Ok(opt) => spec_extract(old(self)@, table@) matches Some(res)
                    && final(self)@ == res.0 && (match opt {
                    Option::None => res.1 is None,
                    Option::Some((l, la)) => res.1 == Some((l@, la@)),
                }),
                Result::Err(e) => spec_extract(old(self)@, table@) is None && *final(self) == *old(
                    self,
                ) && e == CompileError::AddressTableLookupIndexOverflow,
            },
    {
        let (kept1, widx, wdrained) = match drain_pass(&self.entries, &table.addresses, true) {
            Result::Ok(out) => out,
            Result::Err(e) => {
                return Err(e);
            },
        };
        let (kept2, ridx, rdrained) = match drain_pass(&kept1, &table.addresses, false) {
            Result::Ok(out) => out,
            Result::Err(e) => {
                return Err(e);
            },
        };
        self.entries = kept2;
        if widx.is_empty() && ridx.is_empty() {
            Ok(None)
        } else {
            Ok(
                Some(
                    (
                        AddressTableLookup {
                            table_address: table.address,
                            writable_indexes: widx,
                            readonly_indexes: ridx,
                        },
                        LoadedAddresses { writable: wdrained, readonly: rdrained },
                    ),
                ),
            )
        }
    }
}

/// The addresses of a run of entries, in order.
pub open spec fn spec_addresses_of(s: Seq<KeyEntry>) -> Seq<Address> {
    s.map_values(|e: KeyEntry| e.address)
}

/// Selects the entries that are not the payer.
pub open spec fn spec_not_payer(p: Address) -> spec_fn(KeyEntry) -> bool {
    |e: KeyEntry| e.address != p
}

/// Selects the entries of one signer/writable bucket.
pub open spec fn spec_bucket(sg: bool, wr: bool) -> spec_fn(KeyEntry) -> bool {
    |e: KeyEntry| e.is_signer == sg && e.is_writable == wr
}

/// The entries that remain generic once the payer is pulled out for its
/// reserved front position.
pub open spec fn spec_non_payer_entries(ck: SpecCompiledKeys) -> Seq<KeyEntry> {
    match ck.payer {
        Option::Some(p) => ck.entries.filter(spec_not_payer(p)),
        Option::None => ck.entries,
    }
}

/// The static address list of a message: the payer first, then the four
/// fixed-order buckets, each in the canonical order.
pub open spec fn spec_static_keys(ck: SpecCompiledKeys) -> Seq<Address> {
    let rest = spec_non_payer_entries(ck);
    let payer_keys: Seq<Address> = match ck.payer {
        Option::Some(p) => seq![p],
        Option::None => Seq::empty(),
    };
    payer_keys + spec_addresses_of(rest.filter(spec_bucket(true, true))) + spec_addresses_of(
        rest.filter(spec_bucket(true, false)),
    ) + spec_addresses_of(rest.filter(spec_bucket(false, true))) + spec_addresses_of(
        rest.filter(spec_bucket(false, false)),
    )
}

/// What finalizing a key set produces: the three header counts and the
/// static address list, or `None` when the list outgrows the single-byte
/// index range.
pub open spec fn spec_components(ck: SpecCompiledKeys) -> Option<(u8, u8, u8, Seq<Address>)> {
    let rest = spec_non_payer_entries(ck);
    let payer_len: int = match ck.payer {
        Option::Some(p) => 1,
        Option::None => 0,
    };
    let n_ws = payer_len + rest.filter(spec_bucket(true, true)).len();
    let n_rs = rest.filter(spec_bucket(true, false)).len();
    let n_wn = rest.filter(spec_bucket(false, true)).len();
    let n_rn = rest.filter(spec_bucket(false, false)).len();
    if n_ws + n_rs + n_wn + n_rn > 255 {
        None
    } else {
        Some((((n_ws + n_rs) as u8), (n_ws as u8), (n_wn as u8), spec_static_keys(ck)))
    }
}

impl CompiledKeys {
    /// Finalizes the key set: removes the payer from the generic entries and
    /// prepends it, partitions the rest into the four fixed-order buckets,
    /// and computes the header counts. Fails with an overflow error when the
    /// static list exceeds 255 addresses.
    pub fn try_into_message_components(self) -> (r: Result<
        (u8, u8, u8, Vec<Address>),
        CompileError,
    >)
        ensures
            match r {
                Result::Ok(out) => spec_components(self@) == Some((out.0, out.1, out.2, out.3@)),
                Result::Err(e) => spec_components(self@) is None && e
                    == CompileError::AccountIndexOverflow,
            },
    {
        let CompiledKeys { payer, entries } = self;
        let ghost ck = SpecCompiledKeys { payer, entries: entries@ };
        let rest: Vec<KeyEntry> = match &payer {
            Option::Some(p) => {
                let mut acc: Vec<KeyEntry> = Vec::new();
                assert(entries@.take(0) =~= Seq::<KeyEntry>::empty());
                assert(entries@.take(0).filter(spec_not_payer(*p)) =~= Seq::<KeyEntry>::empty());
                for i in 0..entries.len()
                    invariant
                        acc@ == entries@.take(i as int).filter(spec_not_payer(*p)),
                {
                    let e = entries[i];
                    proof {
                        assert(entries@.take(i + 1) =~= entries@.take(i as int).push(e));
                        entries@.take(i as int).lemma_filter_push(e, spec_not_payer(*p));
                    }
                    if !crate::address::addr_eq(&e.address, p) {
                        acc.push(e);
                    }
                }
                proof {
                    assert(entries@.take(entries@.len() as int) =~= entries@);
                }
                acc
            },
            Option::None => entries,
        };
        assert(rest@ == spec_non_payer_entries(ck));

        let mut ws: Vec<Address> = Vec::new();
        let mut rs: Vec<Address> = Vec::new();
        let mut wn: Vec<Address> = Vec::new();
        let mut rn: Vec<Address> = Vec::new();
        let ghost payer_keys: Seq<Address> = match payer {
            Option::Some(p) => seq![p],
            Option::None => Seq::empty(),
        };
        if let Option::Some(p) = &payer {
            ws.push(*p);
        }
        assert(rest@.take(0) =~= Seq::<KeyEntry>::empty());
        assert(ws@ =~= payer_keys + spec_addresses_of(rest@.take(0).filter(spec_bucket(true, true))));
        assert(rs@ =~= spec_addresses_of(rest@.take(0).filter(spec_bucket(true, false))));
        assert(wn@ =~= spec_addresses_of(rest@.take(0).filter(spec_bucket(false, true))));
        assert(rn@ =~= spec_addresses_of(rest@.take(0).filter(spec_bucket(false, false))));
        for i in 0..rest.len()
            invariant
                payer_keys == (match payer {
                    Option::Some(p) => seq![p],
                    Option::None => Seq::<Address>::empty(),
                }),
                ws@ == payer_keys + spec_addresses_of(
                    rest@.take(i as int).filter(spec_bucket(true, true)),
                ),
                rs@ == spec_addresses_of(rest@.take(i as int).filter(spec_bucket(true, false))),
                wn@ == spec_addresses_of(rest@.take(i as int).filter(spec_bucket(false, true))),
                rn@ == spec_addresses_of(rest@.take(i as int).filter(spec_bucket(false, false))),
        {
            let e = rest[i];
            proof {
                assert(rest@.take(i + 1) =~= rest@.take(i as int).push(e));
                rest@.take(i as int).lemma_filter_push(e, spec_bucket(true, true));
                rest@.take(i as int).lemma_filter_push(e, spec_bucket(true, false));
                rest@.take(i as int).lemma_filter_push(e, spec_bucket(false, true));
                rest@.take(i as int).lemma_filter_push(e, spec_bucket(false, false));
                assert forall|s: Seq<KeyEntry>| #[trigger]
                    spec_addresses_of(s.push(e)) =~= spec_addresses_of(s).push(e.address) by {};
            }
            if e.is_signer && e.is_writable {
                ws.push(e.address);
            } else if e.is_signer {
                rs.push(e.address);
            } else if e.is_writable {
                wn.push(e.address);
            } else {
                rn.push(e.address);
            }
        }
        proof {
            assert(rest@.take(rest@.len() as int) =~= rest@);
        }

        if ws.len() > 255 || rs.len() > 255 || wn.len() > 255 || rn.len() > 255 {
            return Err(CompileError::AccountIndexOverflow);
        }
        let total = ws.len() + rs.len() + wn.len() + rn.len();
        if total > 255 {
            return Err(CompileError::AccountIndexOverflow);
        }
        let num_signers = (ws.len() + rs.len()) as u8;
        let num_writable_signers = ws.len() as u8;
        let num_writable_non_signers = wn.len() as u8;
        let mut keys = ws;
        let mut rs = rs;
        let mut wn = wn;
        let mut rn = rn;
        keys.append(&mut rs);
        keys.append(&mut wn);
        keys.append(&mut rn);
        proof {
            assert(keys@ =~= spec_static_keys(ck));
        }
        Ok((num_signers, num_writable_signers, num_writable_non_signers, keys))
    }
}

} // verus!
