//! The executable-message validator: reconstructs the resolved address list
//! from a stored message plus the caller-supplied account and lookup-table
//! lists, checks equivalence, and attaches the derived metadata.

use vstd::prelude::*;

use crate::address::{addr_eq, Address};
use crate::errors::ExecutorError;
use crate::message::{
    spec_instruction_in_bounds, spec_lookup_count, spec_message_well_formed,
    spec_static_is_signer, spec_static_is_writable, spec_total_resolved, AddressTableLookup,
    CompiledInstruction, LookupTable, SpecAddressTableLookup, SpecCompiledInstruction,
    SpecLookupTable, SpecTransactionMessage, TransactionMessage, MAX_RESOLVED_ADDRESSES,
};

verus! {

/// One resolved account: its address and the authority attached to it.
#[derive(Clone, Copy, Debug, PartialEq)]
pub struct ResolvedAccount {
    pub address: Address,
    pub is_signer: bool,
    pub is_writable: bool,
}

/// A validated message, ready to execute: the resolved address list with
/// its metadata and the remaining operations.
#[derive(Clone, Debug, PartialEq)]
pub struct ExecutableMessage {
    pub accounts: Vec<ResolvedAccount>,
    pub instructions: Vec<CompiledInstruction>,
}

/// Mathematical model of an [`ExecutableMessage`].
#[verifier::ext_equal]
pub struct SpecExecutableMessage {
    pub accounts: Seq<ResolvedAccount>,
    pub instructions: Seq<SpecCompiledInstruction>,
}

impl View for ExecutableMessage {
    type V = SpecExecutableMessage;

    open spec fn view(&self) -> SpecExecutableMessage {
        SpecExecutableMessage {
            accounts: self.accounts@,
            instructions: self.instructions@.map_values(|ci: CompiledInstruction| ci@),
        }
    }
}

/// Reads a lookup table at a given position.
pub open spec fn spec_table_at(t: SpecLookupTable) -> spec_fn(u8) -> Address {
    |idx: u8| t.addresses[idx as int]
}

/// How many writable addresses the lookups resolve.
pub open spec fn spec_writable_lookup_count(lookups: Seq<SpecAddressTableLookup>) -> int
    decreases lookups.len(),
{
    if lookups.len() == 0 {
        0
    } else {
        spec_writable_lookup_count(lookups.drop_last()) + lookups.last().writable_indexes.len()
    }
}

/// The writable addresses the lookups resolve from the supplied tables, in
/// table order.
pub open spec fn spec_resolved_writable(
    lookups: Seq<SpecAddressTableLookup>,
    tables: Seq<SpecLookupTable>,
) -> Seq<Address>
    decreases lookups.len(),
{
    if lookups.len() == 0 {
        Seq::empty()
    } else {
        spec_resolved_writable(lookups.drop_last(), tables.drop_last())
            + lookups.last().writable_indexes.map_values(spec_table_at(tables.last()))
    }
}

/// The readonly addresses the lookups resolve from the supplied tables, in
/// table order.
pub open spec fn spec_resolved_readonly(
    lookups: Seq<SpecAddressTableLookup>,
    tables: Seq<SpecLookupTable>,
) -> Seq<Address>
    decreases lookups.len(),
{
    if lookups.len() == 0 {
        Seq::empty()
    } else {
        spec_resolved_readonly(lookups.drop_last(), tables.drop_last())
            + lookups.last().readonly_indexes.map_values(spec_table_at(tables.last()))
    }
}

/// Every writable lookup position falls inside the supplied table it points
/// into.
pub open spec fn spec_writable_in_range(
    lookups: Seq<SpecAddressTableLookup>,
    tables: Seq<SpecLookupTable>,
) -> bool {
    forall|j: int, k: int|
        0 <= j < lookups.len() && 0 <= k < lookups[j].writable_indexes.len() ==> (#[trigger] lookups[j].writable_indexes[k]) < tables[j].addresses.len()
}

/// Every readonly lookup position falls inside the supplied table it points
/// into.
pub open spec fn spec_readonly_in_range(
    lookups: Seq<SpecAddressTableLookup>,
    tables: Seq<SpecLookupTable>,
) -> bool {
    forall|j: int, k: int|
        0 <= j < lookups.len() && 0 <= k < lookups[j].readonly_indexes.len() ==> (#[trigger] lookups[j].readonly_indexes[k]) < tables[j].addresses.len()
}

/// Every lookup position falls inside the supplied table it points into.
pub open spec fn spec_lookups_in_range(
    lookups: Seq<SpecAddressTableLookup>,
    tables: Seq<SpecLookupTable>,
) -> bool {
    spec_writable_in_range(lookups, tables) && spec_readonly_in_range(lookups, tables)
}

/// The supplied lists have the exact cardinality the message requires: one
/// table per lookup, one account per resolved address.
pub open spec fn spec_counts_ok(
    m: SpecTransactionMessage,
    tables: Seq<SpecLookupTable>,
    accounts: Seq<Address>,
) -> bool {
    &&& tables.len() == m.address_table_lookups.len()
    &&& accounts.len() == spec_total_resolved(m)
}

/// Every supplied account in the static range equals the stored static
/// address at the same position.
pub open spec fn spec_static_ok(m: SpecTransactionMessage, accounts: Seq<Address>) -> bool {
    forall|i: int| 0 <= i < m.account_keys.len() ==> accounts[i] == m.account_keys[i]
}

/// The supplied accounts past the static range equal the lookup-resolved
/// addresses, all writable ones first, then all readonly ones, in table
/// order; and every lookup position is inside its table.
pub open spec fn spec_dynamic_ok(
    m: SpecTransactionMessage,
    tables: Seq<SpecLookupTable>,
    accounts: Seq<Address>,
) -> bool {
    &&& spec_lookups_in_range(m.address_table_lookups, tables)
    &&& accounts.skip(m.account_keys.len() as int) == spec_resolved_writable(
        m.address_table_lookups,
        tables,
    ) + spec_resolved_readonly(m.address_table_lookups, tables)
}

/// A stored message validates against supplied tables and accounts exactly
/// when it is well formed, the cardinalities match, and every address
/// checks out.
pub open spec fn spec_validate_ok(
    m: SpecTransactionMessage,
    tables: Seq<SpecLookupTable>,
    accounts: Seq<Address>,
) -> bool {
    &&& spec_message_well_formed(m)
    &&& spec_counts_ok(m, tables, accounts)
    &&& spec_static_ok(m, accounts)
    &&& spec_dynamic_ok(m, tables, accounts)
}

/// The resolved account list: the caller-supplied addresses in their order,
/// static flags drawn from the stored header, dynamic addresses writable
/// exactly on the writable-resolved block and never signers.
pub open spec fn spec_attach(m: SpecTransactionMessage, accounts: Seq<Address>) -> Seq<
    ResolvedAccount,
> {
    Seq::new(
        accounts.len(),
        |i: int|
            ResolvedAccount {
                address: accounts[i],
                is_signer: i < m.account_keys.len() && spec_static_is_signer(m, i),
                is_writable: if i < m.account_keys.len() {
                    spec_static_is_writable(m, i)
                } else {
                    i < m.account_keys.len() + spec_writable_lookup_count(m.address_table_lookups)
                },
            },
    )
}

/// A prefix never resolves more addresses than the whole lookup list.
proof fn lemma_lookup_count_mono(lookups: Seq<SpecAddressTableLookup>, i: int)
    requires
        0 <= i <= lookups.len(),
    ensures
        spec_lookup_count(lookups.take(i)) <= spec_lookup_count(lookups),
    decreases lookups.len() - i,
{
    if i == lookups.len() {
        assert(lookups.take(i) =~= lookups);
    } else {
        assert(lookups.take(i + 1).drop_last() =~= lookups.take(i));
        lemma_lookup_count_mono(lookups, i + 1);
    }
}

/// The resolved-writable list is as long as the writable positions it reads.
proof fn lemma_resolved_writable_len(
    lookups: Seq<SpecAddressTableLookup>,
    tables: Seq<SpecLookupTable>,
)
    ensures
        spec_resolved_writable(lookups, tables).len() == spec_writable_lookup_count(lookups),
    decreases lookups.len(),
{
    if lookups.len() > 0 {
        lemma_resolved_writable_len(lookups.drop_last(), tables.drop_last());
    }
}

/// The two resolved blocks together are as long as the lookup count.
proof fn lemma_resolved_len(lookups: Seq<SpecAddressTableLookup>, tables: Seq<SpecLookupTable>)
    ensures
        spec_resolved_writable(lookups, tables).len() + spec_resolved_readonly(
            lookups,
            tables,
        ).len() == spec_lookup_count(lookups),
    decreases lookups.len(),
{
    if lookups.len() > 0 {
        lemma_resolved_len(lookups.drop_last(), tables.drop_last());
    }
}

/// Sums how many addresses the lookups of a stored message resolve;
/// rejects a sum beyond the single-byte index range.
fn checked_lookup_count(m: &TransactionMessage) -> (r: Option<usize>)
    ensures
        match r {
            Option::Some(n) => n == spec_lookup_count(m@.address_table_lookups) && n
                <= MAX_RESOLVED_ADDRESSES,
            Option::None => spec_lookup_count(m@.address_table_lookups) > MAX_RESOLVED_ADDRESSES,
        },
{
    let ghost glookups = m@.address_table_lookups;
    let mut total: usize = 0;
    assert(glookups.take(0) =~= Seq::<SpecAddressTableLookup>::empty());
    for j in 0..m.address_table_lookups.len()
        invariant
            glookups == m@.address_table_lookups,
            total == spec_lookup_count(glookups.take(j as int)),
            total <= MAX_RESOLVED_ADDRESSES,
    {
        let l = &m.address_table_lookups[j];
        proof {
            assert(glookups.take(j + 1).drop_last() =~= glookups.take(j as int));
            assert(glookups.take(j + 1).last() == glookups[j as int]);
        }
        if l.writable_indexes.len() > MAX_RESOLVED_ADDRESSES || l.readonly_indexes.len()
            > MAX_RESOLVED_ADDRESSES {
            proof {
                lemma_lookup_count_mono(glookups, j + 1);
            }
            return None;
        }
        let step = total + l.writable_indexes.len() + l.readonly_indexes.len();
        if step > MAX_RESOLVED_ADDRESSES {
            proof {
                lemma_lookup_count_mono(glookups, j + 1);
            }
            return None;
        }
        total = step;
    }
    proof {
        assert(glookups.take(glookups.len() as int) =~= glookups);
    }
    Some(total)
}

/// Checks the structural well-formedness of a stored message.
pub fn message_well_formed(m: &TransactionMessage) -> (b: bool)
    ensures
        b == spec_message_well_formed(m@),
{
    if m.num_signers < 1 {
        return false;
    }
    if m.num_writable_signers > m.num_signers {
        return false;
    }
    if (m.num_signers as usize) > m.account_keys.len() {
        return false;
    }
    if (m.num_signers as usize) + (m.num_writable_non_signers as usize) > m.account_keys.len() {
        return false;
    }
    let lookup_total = match checked_lookup_count(m) {
        Option::Some(n) => n,
        Option::None => {
            return false;
        },
    };
    if m.account_keys.len() > MAX_RESOLVED_ADDRESSES || m.account_keys.len() + lookup_total
        > MAX_RESOLVED_ADDRESSES {
        return false;
    }
    let total = m.account_keys.len() + lookup_total;
    let ghost gixs = m@.instructions;
    for i in 0..m.instructions.len()
        invariant
            gixs == m@.instructions,
            total == spec_total_resolved(m@),
            total <= MAX_RESOLVED_ADDRESSES,
            spec_message_well_formed(m@) <==> (forall|l: int|
                i <= l < gixs.len() ==> spec_instruction_in_bounds(
                    #[trigger] gixs[l],
                    total as int,
                )),
    {
        let ix = &m.instructions[i];
        if (ix.program_id_index as usize) >= total {
            proof {
                assert(!spec_instruction_in_bounds(gixs[i as int], total as int));
            }
            return false;
        }
        let n = ix.accounts.len();
        for k in 0..n
            invariant
                gixs == m@.instructions,
                0 <= i < gixs.len(),
                n == ix.accounts@.len(),
                ix@ == gixs[i as int],
                total <= MAX_RESOLVED_ADDRESSES,
                spec_message_well_formed(m@) <==> (forall|l: int|
                    i <= l < gixs.len() ==> spec_instruction_in_bounds(
                        #[trigger] gixs[l],
                        total as int,
                    )),
                forall|kk: int| 0 <= kk < k ==> (#[trigger] ix.accounts@[kk]) < total,
        {
            if (ix.accounts[k] as usize) >= total {
                proof {
                    assert(gixs[i as int].accounts[k as int] >= total as int);
                    assert(!spec_instruction_in_bounds(gixs[i as int], total as int));
                }
                return false;
            }
        }
        proof {
            assert(spec_instruction_in_bounds(gixs[i as int], total as int));
        }
    }
    true
}

/// Resolves the writable block: for every lookup in order, reads each
/// writable position out of the matching supplied table. `None` on the
/// first out-of-range position.
fn build_writable_block(lookups: &Vec<AddressTableLookup>, tables: &Vec<LookupTable>) -> (r:
    Option<Vec<Address>>)
    requires
        tables@.len() == lookups@.len(),
    ensures
        ({
            let gl = lookups@.map_values(|l: AddressTableLookup| l@);
            let gt = tables@.map_values(|t: LookupTable| t@);
            match r {
                Option::Some(v) => spec_writable_in_range(gl, gt) && v@ == spec_resolved_writable(
                    gl,
                    gt,
                ),
                Option::None => !spec_writable_in_range(gl, gt),
            }
        }),
{
    let ghost gl = lookups@.map_values(|l: AddressTableLookup| l@);
    let ghost gt = tables@.map_values(|t: LookupTable| t@);
    let mut out: Vec<Address> = Vec::new();
    assert(gl.take(0) =~= Seq::<SpecAddressTableLookup>::empty());
    assert(gt.take(0) =~= Seq::<SpecLookupTable>::empty());
    for j in 0..lookups.len()
        invariant
            gl == lookups@.map_values(|l: AddressTableLookup| l@),
            gt == tables@.map_values(|t: LookupTable| t@),
            gt.len() == gl.len(),
            out@ == spec_resolved_writable(gl.take(j as int), gt.take(j as int)),
            forall|j2: int, k2: int|
                0 <= j2 < j && 0 <= k2 < gl[j2].writable_indexes.len() ==> (#[trigger] gl[j2].writable_indexes[k2]) < gt[j2].addresses.len(),
    {
        let l = &lookups[j];
        let t = &tables[j];
        let ghost base = out@;
        for k in 0..l.writable_indexes.len()
            invariant
                0 <= j < gl.len(),
                gt.len() == gl.len(),
                gl == lookups@.map_values(|x: AddressTableLookup| x@),
                gt == tables@.map_values(|x: LookupTable| x@),
                l@ == gl[j as int],
                t@ == gt[j as int],
                base == spec_resolved_writable(gl.take(j as int), gt.take(j as int)),
                out@ == base + gl[j as int].writable_indexes.take(k as int).map_values(
                    spec_table_at(gt[j as int]),
                ),
                forall|j2: int, k2: int|
                    0 <= j2 < j && 0 <= k2 < gl[j2].writable_indexes.len() ==> (#[trigger] gl[j2].writable_indexes[k2]) < gt[j2].addresses.len(),
                forall|k2: int|
                    0 <= k2 < k ==> (#[trigger] gl[j as int].writable_indexes[k2]) < gt[j as int].addresses.len(),
        {
            let pos = l.writable_indexes[k] as usize;
            if pos >= t.addresses.len() {
                proof {
                    assert(gl[j as int].writable_indexes[k as int] >= gt[j as int].addresses.len());
                    assert(!spec_writable_in_range(gl, gt));
                }
                return None;
            }
            out.push(t.addresses[pos]);
            proof {
                let wi = gl[j as int].writable_indexes;
                let f = spec_table_at(gt[j as int]);
                assert(wi.take(k + 1) =~= wi.take(k as int).push(wi[k as int]));
                assert(wi.take(k + 1).map_values(f) =~= wi.take(k as int).map_values(f).push(
                    f(wi[k as int]),
                ));
                assert(out@ =~= base + wi.take(k + 1).map_values(f));
            }
        }
        proof {
            let wi = gl[j as int].writable_indexes;
            assert(wi.take(wi.len() as int) =~= wi);
            assert(gl.take(j + 1).drop_last() =~= gl.take(j as int));
            assert(gt.take(j + 1).drop_last() =~= gt.take(j as int));
            assert(gl.take(j + 1).last() == gl[j as int]);
            assert(gt.take(j + 1).last() == gt[j as int]);
        }
    }
    proof {
        assert(gl.take(gl.len() as int) =~= gl);
        assert(gt.take(gt.len() as int) =~= gt);
    }
    Some(out)
}

/// Resolves the readonly block: for every lookup in order, reads each
/// readonly position out of the matching supplied table. `None` on the
/// first out-of-range position.
fn build_readonly_block(lookups: &Vec<AddressTableLookup>, tables: &Vec<LookupTable>) -> (r:
    Option<Vec<Address>>)
    requires
        tables@.len() == lookups@.len(),
    ensures
        ({
            let gl = lookups@.map_values(|l: AddressTableLookup| l@);
            let gt = tables@.map_values(|t: LookupTable| t@);
            match r {
                Option::Some(v) => spec_readonly_in_range(gl, gt) && v@ == spec_resolved_readonly(
                    gl,
                    gt,
                ),
                Option::None => !spec_readonly_in_range(gl, gt),
            }
        }),
{
    let ghost gl = lookups@.map_values(|l: AddressTableLookup| l@);
    let ghost gt = tables@.map_values(|t: LookupTable| t@);
    let mut out: Vec<Address> = Vec::new();
    assert(gl.take(0) =~= Seq::<SpecAddressTableLookup>::empty());
    assert(gt.take(0) =~= Seq::<SpecLookupTable>::empty());
    for j in 0..lookups.len()
        invariant
            gl == lookups@.map_values(|l: AddressTableLookup| l@),
            gt == tables@.map_values(|t: LookupTable| t@),
            gt.len() == gl.len(),
            out@ == spec_resolved_readonly(gl.take(j as int), gt.take(j as int)),
            forall|j2: int, k2: int|
                0 <= j2 < j && 0 <= k2 < gl[j2].readonly_indexes.len() ==> (#[trigger] gl[j2].readonly_indexes[k2]) < gt[j2].addresses.len(),
    {
        let l = &lookups[j];
        let t = &tables[j];
        let ghost base = out@;
        for k in 0..l.readonly_indexes.len()
            invariant
                0 <= j < gl.len(),
                gt.len() == gl.len(),
                gl == lookups@.map_values(|x: AddressTableLookup| x@),
                gt == tables@.map_values(|x: LookupTable| x@),
                l@ == gl[j as int],
                t@ == gt[j as int],
                base == spec_resolved_readonly(gl.take(j as int), gt.take(j as int)),
                out@ == base + gl[j as int].readonly_indexes.take(k as int).map_values(
                    spec_table_at(gt[j as int]),
                ),
                forall|j2: int, k2: int|
                    0 <= j2 < j && 0 <= k2 < gl[j2].readonly_indexes.len() ==> (#[trigger] gl[j2].readonly_indexes[k2]) < gt[j2].addresses.len(),
                forall|k2: int|
                    0 <= k2 < k ==> (#[trigger] gl[j as int].readonly_indexes[k2]) < gt[j as int].addresses.len(),
        {
            let pos = l.readonly_indexes[k] as usize;
            if pos >= t.addresses.len() {
                proof {
                    assert(gl[j as int].readonly_indexes[k as int] >= gt[j as int].addresses.len());
                    assert(!spec_readonly_in_range(gl, gt));
                }
                return None;
            }
            out.push(t.addresses[pos]);
            proof {
                let ri = gl[j as int].readonly_indexes;
                let f = spec_table_at(gt[j as int]);
                assert(ri.take(k + 1) =~= ri.take(k as int).push(ri[k as int]));
                assert(ri.take(k + 1).map_values(f) =~= ri.take(k as int).map_values(f).push(
                    f(ri[k as int]),
                ));
                assert(out@ =~= base + ri.take(k + 1).map_values(f));
            }
        }
        proof {
            let ri = gl[j as int].readonly_indexes;
            assert(ri.take(ri.len() as int) =~= ri);
            assert(gl.take(j + 1).drop_last() =~= gl.take(j as int));
            assert(gt.take(j + 1).drop_last() =~= gt.take(j as int));
            assert(gl.take(j + 1).last() == gl[j as int]);
            assert(gt.take(j + 1).last() == gt[j as int]);
        }
    }
    proof {
        assert(gl.take(gl.len() as int) =~= gl);
        assert(gt.take(gt.len() as int) =~= gt);
    }
    Some(out)
}

impl ExecutableMessage {
    /// Validates a stored message against the caller-supplied lookup tables
    /// and resolved addresses, in the fixed order: structural well-formedness
    /// (`InvalidTransactionMessage`), cardinalities (`InvalidNumberOfAccounts`),
    /// then static and lookup-resolved address equivalence (`InvalidAccount`).
    /// On success the resolved list carries the derived metadata: static
    /// flags from the stored header, lookup-resolved addresses writable
    /// exactly on the writable block and never signers.
    pub fn validate(
        message: &TransactionMessage,
        table_accounts: &Vec<LookupTable>,
        message_accounts: &Vec<Address>,
    ) -> (r: Result<ExecutableMessage, ExecutorError>)
        ensures
            ({
                let m = message@;
                let gt = table_accounts@.map_values(|t: LookupTable| t@);
                let accs = message_accounts@;
                match r {
                    Result::Ok(em) => {
                        &&& spec_validate_ok(m, gt, accs)
                        &&& em@.accounts == spec_attach(m, accs)
                        &&& em@.instructions == m.instructions
                    },
                    Result::Err(e) => {
                        &&& !spec_validate_ok(m, gt, accs)
                        &&& (e == ExecutorError::InvalidTransactionMessage
                            <==> !spec_message_well_formed(m))
                        &&& (e == ExecutorError::InvalidNumberOfAccounts <==> (
                        spec_message_well_formed(m) && !spec_counts_ok(m, gt, accs)))
                        &&& (e == ExecutorError::InvalidAccount <==> (spec_message_well_formed(m)
                            && spec_counts_ok(m, gt, accs) && !(spec_static_ok(m, accs)
                            && spec_dynamic_ok(m, gt, accs))))
                    },
                }
            }),
    {
        let ghost m = message@;
        let ghost gt = table_accounts@.map_values(|t: LookupTable| t@);
        let ghost accs = message_accounts@;

        if !message_well_formed(message) {
            return Err(ExecutorError::InvalidTransactionMessage);
        }

        let lookup_total = match checked_lookup_count(message) {
            Option::Some(n) => n,
            Option::None => {
                proof {
                    assert(false);
                }
                0
            },
        };
        if table_accounts.len() != message.address_table_lookups.len() {
            return Err(ExecutorError::InvalidNumberOfAccounts);
        }
        if message_accounts.len() != message.account_keys.len() + lookup_total {
            return Err(ExecutorError::InvalidNumberOfAccounts);
        }

        let wr = match build_writable_block(&message.address_table_lookups, table_accounts) {
            Option::Some(v) => v,
            Option::None => {
                return Err(ExecutorError::InvalidAccount);
            },
        };
        let ro = match build_readonly_block(&message.address_table_lookups, table_accounts) {
            Option::Some(v) => v,
            Option::None => {
                return Err(ExecutorError::InvalidAccount);
            },
        };
        proof {
            lemma_resolved_len(m.address_table_lookups, gt);
            lemma_resolved_writable_len(m.address_table_lookups, gt);
        }
        let static_len = message.account_keys.len();
        assert(static_len + wr.len() + ro.len() == message_accounts.len());

        for i in 0..static_len
            invariant
                m == message@,
                gt == table_accounts@.map_values(|t: LookupTable| t@),
                accs == message_accounts@,
                static_len == m.account_keys.len(),
                static_len <= accs.len(),
                spec_message_well_formed(m),
                spec_counts_ok(m, gt, accs),
                forall|i2: int| 0 <= i2 < i ==> accs[i2] == m.account_keys[i2],
        {
            if !addr_eq(&message_accounts[i], &message.account_keys[i]) {
                proof {
                    assert(accs[i as int] != m.account_keys[i as int]);
                    assert(!spec_static_ok(m, accs));
                }
                return Err(ExecutorError::InvalidAccount);
            }
        }
        assert(spec_static_ok(m, accs));

        let ghost wrseq = spec_resolved_writable(m.address_table_lookups, gt);
        let ghost roseq = spec_resolved_readonly(m.address_table_lookups, gt);
        for i in 0..wr.len()
            invariant
                m == message@,
                gt == table_accounts@.map_values(|t: LookupTable| t@),
                accs == message_accounts@,
                static_len == m.account_keys.len(),
                spec_message_well_formed(m),
                spec_counts_ok(m, gt, accs),
                spec_lookups_in_range(m.address_table_lookups, gt),
                wr@ == wrseq,
                wrseq == spec_resolved_writable(m.address_table_lookups, gt),
                roseq == spec_resolved_readonly(m.address_table_lookups, gt),
                static_len + wr@.len() + ro@.len() == accs.len(),
                forall|i2: int| 0 <= i2 < i ==> accs[static_len + i2] == wrseq[i2],
        {
            if !addr_eq(&message_accounts[static_len + i], &wr[i]) {
                proof {
                    assert(accs[static_len + i as int] != wrseq[i as int]);
                    if accs.skip(static_len as int) == wrseq + roseq {
                        assert(accs.skip(static_len as int)[i as int] == (wrseq + roseq)[
                            i as int
                        ]);
                    }
                    assert(!spec_dynamic_ok(m, gt, accs));
                }
                return Err(ExecutorError::InvalidAccount);
            }
        }
        let wr_len = wr.len();
        for i in 0..ro.len()
            invariant
                m == message@,
                gt == table_accounts@.map_values(|t: LookupTable| t@),
                accs == message_accounts@,
                static_len == m.account_keys.len(),
                wr_len == wrseq.len(),
                spec_message_well_formed(m),
                spec_counts_ok(m, gt, accs),
                spec_lookups_in_range(m.address_table_lookups, gt),
                ro@ == roseq,
                wrseq == spec_resolved_writable(m.address_table_lookups, gt),
                roseq == spec_resolved_readonly(m.address_table_lookups, gt),
                static_len + wrseq.len() + ro@.len() == accs.len(),
                forall|i2: int| 0 <= i2 < i ==> accs[static_len + wr_len + i2] == roseq[i2],
        {
            if !addr_eq(&message_accounts[static_len + wr_len + i], &ro[i]) {
                proof {
                    assert(accs[static_len + wr_len + i as int] != roseq[i as int]);
                    if accs.skip(static_len as int) == wrseq + roseq {
                        assert(accs.skip(static_len as int)[wr_len + i as int] == (wrseq + roseq)[
                            wr_len + i as int
                        ]);
                    }
                    assert(!spec_dynamic_ok(m, gt, accs));
                }
                return Err(ExecutorError::InvalidAccount);
            }
        }
        proof {
            assert forall|i: int| 0 <= i < accs.len() - static_len implies accs.skip(
                static_len as int,
            )[i] == (wrseq + roseq)[i] by {
                assert(accs.skip(static_len as int)[i] == accs[static_len + i]);
            }
            assert(accs.skip(static_len as int) =~= wrseq + roseq);
            assert(spec_dynamic_ok(m, gt, accs));
        }

        let total = message_accounts.len();
        let boundary = static_len + wr_len;
        let mut resolved: Vec<ResolvedAccount> = Vec::new();
        for i in 0..total
            invariant
                m == message@,
                gt == table_accounts@.map_values(|t: LookupTable| t@),
                accs == message_accounts@,
                total == accs.len(),
                static_len == m.account_keys.len(),
                boundary == m.account_keys.len() + spec_writable_lookup_count(
                    m.address_table_lookups,
                ),
                resolved@.len() == i,
                forall|l: int| 0 <= l < i ==> resolved@[l] == spec_attach(m, accs)[l],
        {
            let is_static = i < static_len;
            let is_signer = is_static && i < message.num_signers as usize;
            let is_writable = if is_static {
                i < message.num_writable_signers as usize || (i >= message.num_signers as usize
                    && i < message.num_signers as usize + message.num_writable_non_signers as usize)
            } else {
                i < boundary
            };
            resolved.push(
                ResolvedAccount { address: message_accounts[i], is_signer, is_writable },
            );
            proof {
                assert(resolved@[i as int] == spec_attach(m, accs)[i as int]);
            }
        }
        proof {
            assert(resolved@ =~= spec_attach(m, accs));
        }

        let mut instructions: Vec<CompiledInstruction> = Vec::new();
        assert(instructions@.map_values(|ci: CompiledInstruction| ci@) =~= m.instructions.take(0));
        for i in 0..message.instructions.len()
            invariant
                m == message@,
                instructions@.map_values(|ci: CompiledInstruction| ci@) == m.instructions.take(
                    i as int,
                ),
        {
            let ci = message.instructions[i].duplicate();
            proof {
                assert(instructions@.push(ci).map_values(|x: CompiledInstruction| x@)
                    =~= instructions@.map_values(|x: CompiledInstruction| x@).push(ci@));
                assert(m.instructions.take(i + 1) =~= m.instructions.take(i as int).push(
                    m.instructions[i as int],
                ));
            }
            instructions.push(ci);
        }
        proof {
            assert(m.instructions.take(m.instructions.len() as int) =~= m.instructions);
        }

        Ok(ExecutableMessage { accounts: resolved, instructions })
    }
}

} // verus!
