//! The persisted transaction record and its one-shot executor: the stored
//! message is validated, drained exactly once, and turned into the ordered
//! list of invocation requests to perform.

use vstd::prelude::*;

use crate::address::Address;
use crate::errors::ExecutorError;
use crate::executable::{
    spec_attach, spec_counts_ok, spec_dynamic_ok, spec_static_ok, spec_validate_ok,
    ExecutableMessage, ResolvedAccount,
};
use crate::message::{
    copy_bytes, spec_instruction_in_bounds, spec_message_well_formed, spec_total_resolved,
    CompiledInstruction, LookupTable, SpecCompiledInstruction, SpecTransactionMessage,
    TransactionMessage,
};

verus! {

/// A persisted record holding one compiled message. It is created once and
/// drained at most once: executing it empties the stored operation list, so
/// a second execution performs nothing.
#[derive(Clone, Debug, PartialEq)]
pub struct Transaction {
    pub message: TransactionMessage,
}

/// Mathematical model of a [`Transaction`].
#[verifier::ext_equal]
pub struct SpecTransaction {
    pub message: SpecTransactionMessage,
}

impl View for Transaction {
    type V = SpecTransaction;

    open spec fn view(&self) -> SpecTransaction {
        SpecTransaction { message: self.message@ }
    }
}

/// One curated external invocation: the program to call, the resolved
/// accounts in instruction order with their metadata, and the payload.
#[derive(Clone, Debug, PartialEq)]
pub struct InvocationRequest {
    pub program: Address,
    pub accounts: Vec<ResolvedAccount>,
    pub data: Vec<u8>,
}

/// Mathematical model of an [`InvocationRequest`].
#[verifier::ext_equal]
pub struct SpecInvocationRequest {
    pub program: Address,
    pub accounts: Seq<ResolvedAccount>,
    pub data: Seq<u8>,
}

impl View for InvocationRequest {
    type V = SpecInvocationRequest;

    open spec fn view(&self) -> SpecInvocationRequest {
        SpecInvocationRequest {
            program: self.program,
            accounts: self.accounts@,
            data: self.data@,
        }
    }
}

/// Reads a resolved account at a given index.
pub open spec fn spec_account_at(accounts: Seq<ResolvedAccount>) -> spec_fn(u8) -> ResolvedAccount {
    |idx: u8| accounts[idx as int]
}

/// The invocation request one compiled instruction assembles against a
/// resolved account list.
pub open spec fn spec_build_request(
    accounts: Seq<ResolvedAccount>,
    ci: SpecCompiledInstruction,
) -> SpecInvocationRequest {
    SpecInvocationRequest {
        program: accounts[ci.program_id_index as int].address,
        accounts: ci.accounts.map_values(spec_account_at(accounts)),
        data: ci.data,
    }
}

/// The invocation requests a whole instruction list assembles, in order.
pub open spec fn spec_build_requests(
    accounts: Seq<ResolvedAccount>,
    ixs: Seq<SpecCompiledInstruction>,
) -> Seq<SpecInvocationRequest>
    decreases ixs.len(),
{
    if ixs.len() == 0 {
        Seq::empty()
    } else {
        spec_build_requests(accounts, ixs.drop_last()).push(
            spec_build_request(accounts, ixs.last()),
        )
    }
}

/// Exactly one request is assembled per stored instruction; in particular
/// a drained record assembles none, so running it again performs zero
/// invocations.
pub proof fn lemma_one_request_per_instruction(
    accounts: Seq<ResolvedAccount>,
    ixs: Seq<SpecCompiledInstruction>,
)
    ensures
        spec_build_requests(accounts, ixs).len() == ixs.len(),
    decreases ixs.len(),
{
    if ixs.len() > 0 {
        lemma_one_request_per_instruction(accounts, ixs.drop_last());
    }
}

/// Assembles the invocation request of one compiled instruction.
fn build_request(accounts: &Vec<ResolvedAccount>, ci: &CompiledInstruction) -> (r:
    InvocationRequest)
    requires
        spec_instruction_in_bounds(ci@, accounts@.len() as int),
    ensures
        r@ == spec_build_request(accounts@, ci@),
{
    let program = accounts[ci.program_id_index as usize].address;
    let mut metas: Vec<ResolvedAccount> = Vec::new();
    assert(metas@ =~= ci@.accounts.take(0).map_values(spec_account_at(accounts@)));
    for j in 0..ci.accounts.len()
        invariant
            spec_instruction_in_bounds(ci@, accounts@.len() as int),
            metas@ == ci@.accounts.take(j as int).map_values(spec_account_at(accounts@)),
    {
        let idx = ci.accounts[j];
        assert(ci@.accounts[j as int] < accounts@.len());
        metas.push(accounts[idx as usize]);
        proof {
            let f = spec_account_at(accounts@);
            assert(ci@.accounts.take(j + 1) =~= ci@.accounts.take(j as int).push(
                ci@.accounts[j as int],
            ));
            assert(ci@.accounts.take(j + 1).map_values(f) =~= ci@.accounts.take(
                j as int,
            ).map_values(f).push(f(ci@.accounts[j as int])));
        }
    }
    proof {
        assert(ci@.accounts.take(ci@.accounts.len() as int) =~= ci@.accounts);
    }
    let data = copy_bytes(&ci.data);
    InvocationRequest { program, accounts: metas, data }
}

impl Transaction {
    /// Creates a record storing the message verbatim.
    pub fn new(message: TransactionMessage) -> (r: Transaction)
        ensures
            r@.message == message@,
    {
        Transaction { message }
    }

    /// Validates the stored message against the caller-supplied lookup
    /// tables and resolved addresses, then drains the operation list — the
    /// one-shot consume — and assembles the invocation requests in order.
    ///
    /// On any validation error the record is left untouched and no request
    /// is produced; the error is exactly the one `ExecutableMessage::validate`
    /// assigns. On success the stored operation list is empty afterwards, so
    /// a second execution validates against the same addresses and produces
    /// zero requests.
    pub fn execute(
        &mut self,
        table_accounts: &Vec<LookupTable>,
        message_accounts: &Vec<Address>,
    ) -> (r: Result<Vec<InvocationRequest>, ExecutorError>)
        ensures
            ({
                let m = old(self)@.message;
                let gt = table_accounts@.map_values(|t: LookupTable| t@);
                let accs = message_accounts@;
                match r {
                    Result::Ok(reqs) => {
                        &&& spec_validate_ok(m, gt, accs)
                        &&& final(self)@.message == SpecTransactionMessage {
                            instructions: Seq::empty(),
                            ..m
                        }
                        &&& reqs@.map_values(|q: InvocationRequest| q@) == spec_build_requests(
                            spec_attach(m, accs),
                            m.instructions,
                        )
                        &&& reqs@.len() == m.instructions.len()
                    },
                    Result::Err(e) => {
                        &&& *final(self) == *old(self)
                        &&& !spec_validate_ok(m, gt, accs)
                        &&& (e == ExecutorError::InvalidTransactionMessage
                            <==> !spec_message_well_formed(m))
                        &&& (e == ExecutorError::InvalidNumberOfAccounts <==> (
                        spec_message_well_formed(m) && !spec_counts_ok(m, gt, accs)))
                        &&& (e == ExecutorError::InvalidAccount <==> (spec_message_well_formed(m)
                            && spec_counts_ok(m, gt, accs) && !(spec_static_ok(m, accs)
                            && spec_dynamic_ok(m, gt, accs))))
                    },
                }
            }),
    {
        let ghost m = self@.message;
        let ghost gt = table_accounts@.map_values(|t: LookupTable| t@);
        let ghost accs = message_accounts@;

        let em = match ExecutableMessage::validate(&self.message, table_accounts, message_accounts)
            {
            Result::Ok(em) => em,
            Result::Err(e) => {
                return Err(e);
            },
        };

        let mut drained: Vec<CompiledInstruction> = Vec::new();
        core::mem::swap(&mut self.message.instructions, &mut drained);
        proof {
            assert(self@.message =~= SpecTransactionMessage {
                instructions: Seq::empty(),
                ..m
            });
        }

        let mut reqs: Vec<InvocationRequest> = Vec::new();
        assert(reqs@.map_values(|q: InvocationRequest| q@) =~= spec_build_requests(
            em@.accounts,
            m.instructions.take(0),
        ));
        let n = em.instructions.len();
        for i in 0..n
            invariant
                m == old(self)@.message,
                accs == message_accounts@,
                n == em@.instructions.len(),
                em@.instructions == m.instructions,
                em@.accounts == spec_attach(m, accs),
                em@.accounts.len() == accs.len(),
                accs.len() == spec_total_resolved(m),
                spec_message_well_formed(m),
                reqs@.map_values(|q: InvocationRequest| q@) == spec_build_requests(
                    em@.accounts,
                    m.instructions.take(i as int),
                ),
        {
            proof {
                assert(m.instructions.take(i + 1).drop_last() =~= m.instructions.take(i as int));
                assert(m.instructions.take(i + 1).last() == m.instructions[i as int]);
                assert(em.instructions@[i as int]@ == m.instructions[i as int]);
                assert(spec_instruction_in_bounds(
                    m.instructions[i as int],
                    spec_total_resolved(m),
                ));
            }
            let q = build_request(&em.accounts, &em.instructions[i]);
            proof {
                assert(reqs@.push(q).map_values(|x: InvocationRequest| x@) =~= reqs@.map_values(
                    |x: InvocationRequest| x@,
                ).push(q@));
            }
            reqs.push(q);
        }
        proof {
            assert(m.instructions.take(m.instructions.len() as int) =~= m.instructions);
            lemma_one_request_per_instruction(em@.accounts, m.instructions);
        }
        Ok(reqs)
    }
}

} // verus!
