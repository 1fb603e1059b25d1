//! Attribution of a transaction to the programs it invoked.
//!
//! A decoded transaction arrives in one of two wire shapes. In the parsed
//! shape every top-level instruction either carries its program identity
//! outright or an index into the message's account-key table, and the two
//! kinds may be mixed within one instruction list. In the raw shape every
//! instruction carries only an index into the flat account-key table.
//! Indices are resolved with a bounds check; an out-of-range index is
//! skipped, never fatal. Inner (nested) instructions are deliberately not
//! considered.
//!
//! [`lemma_parsed_raw_agree`] shows the two shapes agree: a parsed-form
//! list and a raw-form list describing the same logical instructions yield
//! the same program-identifier sequence.

use vstd::prelude::*;

verus! {

/// One top-level instruction's reference to the program it invokes,
/// as found in the parsed wire shape.
pub enum ProgramInvocation {
    /// The program identity, already resolved by the provider.
    Resolved(String),
    /// An index into the message's account-key table.
    IndexRef(usize),
}

/// One decoded transaction message, reduced to what attribution reads.
pub enum DecodedMessage {
    /// Parsed shape: instructions that mix resolved identities and
    /// key-table indices, plus the account-key table.
    Parsed { instructions: Vec<ProgramInvocation>, account_keys: Vec<String> },
    /// Raw (compiled) shape: one key-table index per instruction, plus
    /// the account-key table.
    Raw { program_indices: Vec<usize>, account_keys: Vec<String> },
    /// Any shape the decoder does not recognize; yields no identifiers.
    Unrecognized,
}

/// The identifiers contributed by one parsed-form instruction: the
/// resolved identity, or the bounds-checked table lookup (empty when the
/// index is out of range).
pub open spec fn invocation_ids(inv: ProgramInvocation, keys: Seq<String>) -> Seq<String> {
    match inv {
        ProgramInvocation::Resolved(id) => seq![id],
        ProgramInvocation::IndexRef(i) => if (i as int) < keys.len() {
            seq![keys[i as int]]
        } else {
            Seq::empty()
        },
    }
}

/// The identifiers contributed by one raw-form instruction's index.
pub open spec fn index_ids(i: usize, keys: Seq<String>) -> Seq<String> {
    if (i as int) < keys.len() {
        seq![keys[i as int]]
    } else {
        Seq::empty()
    }
}

/// The ordered program-identifier sequence of a parsed-form
/// instruction list.
pub open spec fn parsed_program_ids(instrs: Seq<ProgramInvocation>, keys: Seq<String>) -> Seq<
    String,
>
    decreases instrs.len(),
{
    if instrs.len() == 0 {
        Seq::empty()
    } else {
        parsed_program_ids(instrs.drop_last(), keys) + invocation_ids(instrs.last(), keys)
    }
}

/// The ordered program-identifier sequence of a raw-form
/// instruction list.
pub open spec fn raw_program_ids(idxs: Seq<usize>, keys: Seq<String>) -> Seq<String>
    decreases idxs.len(),
{
    if idxs.len() == 0 {
        Seq::empty()
    } else {
        raw_program_ids(idxs.drop_last(), keys) + index_ids(idxs.last(), keys)
    }
}

/// The ordered program-identifier sequence of a whole decoded message.
pub open spec fn message_program_ids(msg: DecodedMessage) -> Seq<String> {
    match msg {
        DecodedMessage::Parsed { instructions, account_keys } => parsed_program_ids(
            instructions@,
            account_keys@,
        ),
        DecodedMessage::Raw { program_indices, account_keys } => raw_program_ids(
            program_indices@,
            account_keys@,
        ),
        DecodedMessage::Unrecognized => Seq::empty(),
    }
}

/// A parsed-form list and a raw-form list describe the same logical
/// instructions over the key table `keys`: entry by entry, either the
/// parsed entry carries the same index, or it carries the identity that
/// the raw entry's (in-range) index resolves to.
pub open spec fn parsed_matches_raw(
    instrs: Seq<ProgramInvocation>,
    idxs: Seq<usize>,
    keys: Seq<String>,
) -> bool {
    &&& instrs.len() == idxs.len()
    &&& forall|i: int|
        0 <= i < instrs.len() ==> match #[trigger] instrs[i] {
            ProgramInvocation::Resolved(id) => (idxs[i] as int) < keys.len() && id == keys[idxs[
                i
            ] as int],
            ProgramInvocation::IndexRef(j) => j == idxs[i],
        }
}

/// Both wire shapes yield the same program-identifier sequence for
/// equivalent logical instructions.
pub proof fn lemma_parsed_raw_agree(
    instrs: Seq<ProgramInvocation>,
    idxs: Seq<usize>,
    keys: Seq<String>,
)
    requires
        parsed_matches_raw(instrs, idxs, keys),
    ensures
        parsed_program_ids(instrs, keys) == raw_program_ids(idxs, keys),
    decreases instrs.len(),
{
    if instrs.len() == 0 {
    } else {
        assert(parsed_matches_raw(instrs.drop_last(), idxs.drop_last(), keys));
        lemma_parsed_raw_agree(instrs.drop_last(), idxs.drop_last(), keys);
        assert(invocation_ids(instrs.last(), keys) == index_ids(idxs.last(), keys)) by {
            assert(instrs[instrs.len() - 1] == instrs.last());
        }
    }
}

/// Resolve a parsed-form instruction list to its program identifiers.
pub fn extract_parsed(instrs: &Vec<ProgramInvocation>, keys: &Vec<String>) -> (ids: Vec<String>)
    ensures
        ids@ == parsed_program_ids(instrs@, keys@),
{
    let mut ids: Vec<String> = Vec::new();
    let mut i: usize = 0;
    while i < instrs.len()
        invariant
            i <= instrs@.len(),
            ids@ == parsed_program_ids(instrs@.take(i as int), keys@),
        decreases instrs@.len() - i,
    {
        match &instrs[i] {
            ProgramInvocation::Resolved(id) => {
                ids.push(id.clone());
            },
            ProgramInvocation::IndexRef(j) => {
                if *j < keys.len() {
                    ids.push(keys[*j].clone());
                }
            },
        }
        proof {
            assert(instrs@.take(i + 1).drop_last() =~= instrs@.take(i as int));
            assert(instrs@.take(i + 1).last() == instrs@[i as int]);
            assert(ids@ =~= parsed_program_ids(instrs@.take(i + 1), keys@));
        }
        i = i + 1;
    }
    proof {
        assert(instrs@.take(instrs@.len() as int) =~= instrs@);
    }
    ids
}

/// Resolve a raw-form instruction list to its program identifiers.
pub fn extract_raw(idxs: &Vec<usize>, keys: &Vec<String>) -> (ids: Vec<String>)
    ensures
        ids@ == raw_program_ids(idxs@, keys@),
{
    let mut ids: Vec<String> = Vec::new();
    let mut i: usize = 0;
    while i < idxs.len()
        invariant
            i <= idxs@.len(),
            ids@ == raw_program_ids(idxs@.take(i as int), keys@),
        decreases idxs@.len() - i,
    {
        let j: usize = idxs[i];
        if j < keys.len() {
            ids.push(keys[j].clone());
        }
        proof {
            assert(idxs@.take(i + 1).drop_last() =~= idxs@.take(i as int));
            assert(idxs@.take(i + 1).last() == idxs@[i as int]);
            assert(ids@ =~= raw_program_ids(idxs@.take(i + 1), keys@));
        }
        i = i + 1;
    }
    proof {
        assert(idxs@.take(idxs@.len() as int) =~= idxs@);
    }
    ids
}

/// Resolve a whole decoded message to its ordered program identifiers.
pub fn extract_program_ids(msg: &DecodedMessage) -> (ids: Vec<String>)
    ensures
        ids@ == message_program_ids(*msg),
{
    match msg {
        DecodedMessage::Parsed { instructions, account_keys } => extract_parsed(
            instructions,
            account_keys,
        ),
        DecodedMessage::Raw { program_indices, account_keys } => extract_raw(
            program_indices,
            account_keys,
        ),
        DecodedMessage::Unrecognized => Vec::new(),
    }
}

} // verus!
