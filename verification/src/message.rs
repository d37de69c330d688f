//! The canonical compiled-message data model: instructions addressed by
//! single-byte indices, static addresses, and address-table lookups.

use vstd::prelude::*;

use crate::address::Address;

verus! {

/// Largest number of addresses a message may resolve: every index is a
/// single byte.
pub const MAX_RESOLVED_ADDRESSES: usize = 256;

/// One account reference inside a raw instruction, with the authority the
/// instruction demands of it.
#[derive(Clone, Copy, Debug, PartialEq)]
pub struct InstructionAccount {
    pub address: Address,
    pub is_signer: bool,
    pub is_writable: bool,
}

/// A raw instruction handed to the compiler: a program to invoke, the
/// accounts it touches in order, and an opaque payload.
#[derive(Clone, Debug, PartialEq)]
pub struct Instruction {
    pub program: Address,
    pub accounts: Vec<InstructionAccount>,
    pub data: Vec<u8>,
}

/// Mathematical model of an [`Instruction`].
#[verifier::ext_equal]
pub struct SpecInstruction {
    pub program: Address,
    pub accounts: Seq<InstructionAccount>,
    pub data: Seq<u8>,
}

impl View for Instruction {
    type V = SpecInstruction;

    open spec fn view(&self) -> SpecInstruction {
        SpecInstruction { program: self.program, accounts: self.accounts@, data: self.data@ }
    }
}

/// A compiled instruction: program and accounts are single-byte indices
/// into the resolved address list.
#[derive(Clone, Debug, PartialEq)]
pub struct CompiledInstruction {
    /// Index of the program account that executes this instruction.
    pub program_id_index: u8,
    /// Ordered indices of the accounts passed to the program.
    pub accounts: Vec<u8>,
    /// The program input data.
    pub data: Vec<u8>,
}

/// Mathematical model of a [`CompiledInstruction`].
#[verifier::ext_equal]
pub struct SpecCompiledInstruction {
    pub program_id_index: u8,
    pub accounts: Seq<u8>,
    pub data: Seq<u8>,
}

impl View for CompiledInstruction {
    type V = SpecCompiledInstruction;

    open spec fn view(&self) -> SpecCompiledInstruction {
        SpecCompiledInstruction {
            program_id_index: self.program_id_index,
            accounts: self.accounts@,
            data: self.data@,
        }
    }
}

/// Copies a byte vector.
pub(crate) fn copy_bytes(v: &Vec<u8>) -> (r: Vec<u8>)
    ensures
        r@ == v@,
{
    let mut r: Vec<u8> = Vec::new();
    for i in 0..v.len()
        invariant
            r@ == v@.take(i as int),
    {
        r.push(v[i]);
        proof {
            assert(v@.take(i + 1) =~= v@.take(i as int).push(v@[i as int]));
        }
    }
    proof {
        assert(v@.take(v@.len() as int) =~= v@);
    }
    r
}

impl CompiledInstruction {
    /// Copies the instruction.
    pub fn duplicate(&self) -> (r: CompiledInstruction)
        ensures
            r@ == self@,
    {
        CompiledInstruction {
            program_id_index: self.program_id_index,
            accounts: copy_bytes(&self.accounts),
            data: copy_bytes(&self.data),
        }
    }
}

/// A reference into one lookup table: the table's address and the positions
/// of the entries the message loads from it, split by writability.
#[derive(Clone, Debug, PartialEq)]
pub struct AddressTableLookup {
    pub table_address: Address,
    pub writable_indexes: Vec<u8>,
    pub readonly_indexes: Vec<u8>,
}

/// Mathematical model of an [`AddressTableLookup`].
#[verifier::ext_equal]
pub struct SpecAddressTableLookup {
    pub table_address: Address,
    pub writable_indexes: Seq<u8>,
    pub readonly_indexes: Seq<u8>,
}

impl View for AddressTableLookup {
    type V = SpecAddressTableLookup;

    open spec fn view(&self) -> SpecAddressTableLookup {
        SpecAddressTableLookup {
            table_address: self.table_address,
            writable_indexes: self.writable_indexes@,
            readonly_indexes: self.readonly_indexes@,
        }
    }
}

/// The current content of one address lookup table, as supplied by the
/// caller: the table's own address and its ordered entry list.
#[derive(Clone, Debug, PartialEq)]
pub struct LookupTable {
    pub address: Address,
    pub addresses: Vec<Address>,
}

/// Mathematical model of a [`LookupTable`].
#[verifier::ext_equal]
pub struct SpecLookupTable {
    pub address: Address,
    pub addresses: Seq<Address>,
}

impl View for LookupTable {
    type V = SpecLookupTable;

    open spec fn view(&self) -> SpecLookupTable {
        SpecLookupTable { address: self.address, addresses: self.addresses@ }
    }
}

/// A compiled batch: header counts, the static address list, the ordered
/// instruction list, and the address-table lookups.
///
/// The static list is ordered payer-first, then the remaining writable
/// signers, readonly signers, writable non-signers, readonly non-signers.
#[derive(Clone, Debug, PartialEq)]
pub struct TransactionMessage {
    /// How many leading static addresses must sign.
    pub num_signers: u8,
    /// How many leading signers are writable.
    pub num_writable_signers: u8,
    /// How many static addresses right after the signer block are writable.
    pub num_writable_non_signers: u8,
    /// The addresses embedded directly in the message.
    pub account_keys: Vec<Address>,
    /// The operations to execute, in order.
    pub instructions: Vec<CompiledInstruction>,
    /// The addresses resolved indirectly, grouped by table.
    pub address_table_lookups: Vec<AddressTableLookup>,
}

/// Mathematical model of a [`TransactionMessage`].
#[verifier::ext_equal]
pub struct SpecTransactionMessage {
    pub num_signers: u8,
    pub num_writable_signers: u8,
    pub num_writable_non_signers: u8,
    pub account_keys: Seq<Address>,
    pub instructions: Seq<SpecCompiledInstruction>,
    pub address_table_lookups: Seq<SpecAddressTableLookup>,
}

impl View for TransactionMessage {
    type V = SpecTransactionMessage;

    open spec fn view(&self) -> SpecTransactionMessage {
        SpecTransactionMessage {
            num_signers: self.num_signers,
            num_writable_signers: self.num_writable_signers,
            num_writable_non_signers: self.num_writable_non_signers,
            account_keys: self.account_keys@,
            instructions: self.instructions@.map_values(|ci: CompiledInstruction| ci@),
            address_table_lookups: self.address_table_lookups@.map_values(
                |l: AddressTableLookup| l@,
            ),
        }
    }
}

/// How many addresses the lookups of a message resolve, over all tables and
/// both writability classes.
pub open spec fn spec_lookup_count(lookups: Seq<SpecAddressTableLookup>) -> int
    decreases lookups.len(),
{
    if lookups.len() == 0 {
        0
    } else {
        spec_lookup_count(lookups.drop_last()) + lookups.last().writable_indexes.len()
            + lookups.last().readonly_indexes.len()
    }
}

/// How many addresses a message resolves in total: static ones plus all
/// lookup-resolved ones.
pub open spec fn spec_total_resolved(m: SpecTransactionMessage) -> int {
    m.account_keys.len() + spec_lookup_count(m.address_table_lookups)
}

/// Whether one compiled instruction only uses indices below `total`.
pub open spec fn spec_instruction_in_bounds(ci: SpecCompiledInstruction, total: int) -> bool {
    &&& ci.program_id_index < total
    &&& forall|k: int| 0 <= k < ci.accounts.len() ==> ci.accounts[k] < total
}

/// Structural well-formedness of a stored message: at least one signer, the
/// header counts consistent with the static address list, the total resolved
/// address count within the single-byte index range, and every instruction
/// index within that total.
pub open spec fn spec_message_well_formed(m: SpecTransactionMessage) -> bool {
    &&& 1 <= m.num_signers
    &&& m.num_writable_signers <= m.num_signers
    &&& m.num_signers <= m.account_keys.len()
    &&& m.num_signers + m.num_writable_non_signers <= m.account_keys.len()
    &&& spec_total_resolved(m) <= MAX_RESOLVED_ADDRESSES
    &&& forall|i: int| 0 <= i < m.instructions.len() ==> spec_instruction_in_bounds(
        #[trigger] m.instructions[i],
        spec_total_resolved(m),
    )
}

/// Whether the static address at position `i` must sign.
pub open spec fn spec_static_is_signer(m: SpecTransactionMessage, i: int) -> bool {
    i < m.num_signers
}

/// Whether the static address at position `i` is writable: it lies in the
/// writable-signer block or in the writable-non-signer block.
pub open spec fn spec_static_is_writable(m: SpecTransactionMessage, i: int) -> bool {
    i < m.num_writable_signers || (m.num_signers <= i < m.num_signers
        + m.num_writable_non_signers)
}

} // verus!
