use vstd::prelude::*;
use crate::channel::{lemma_issue_wf, lemma_retire_wf};
use crate::error::LedgerError;
use crate::metadata::ChannelMetadataView;
use crate::state::{
    held_in, lemma_minted_token_parses, lemma_next_token_is_new, lemma_owners_without,
    lemma_tokens_issued_contains, theorem_burn_wf, theorem_create_channel_wf, theorem_mint_wf,
    theorem_transfer_wf, theorem_update_channel_wf, tokens_owned, LedgerState,
};
use crate::token_id::{theorem_token_id_injective, token_id_of, token_in};

verus! {

/// One request to the ledger.
pub enum Operation {
    CreateChannel {
        caller: Seq<char>,
        id: Seq<char>,
        merkle_root: Seq<u8>,
        metadata: ChannelMetadataView,
    },
    UpdateChannel {
        caller: Seq<char>,
        id: Seq<char>,
        new_root: Option<Seq<u8>>,
        new_metadata: Option<ChannelMetadataView>,
    },
    Mint { id: Seq<char>, proof: Option<Seq<Seq<u8>>>, receiver: Seq<char> },
    Transfer { sender: Seq<char>, receiver: Seq<char>, token: Seq<char> },
    Burn { caller: Seq<char>, token: Seq<char> },
}

/// The ledger after a request: changed as the request says when it is
/// accepted, and as it was when it is refused.
pub open spec fn apply(s: LedgerState, op: Operation) -> LedgerState {
    match op {
        Operation::CreateChannel { caller, id, merkle_root, metadata } => {
            if s.create_channel_outcome(caller, id) is Ok {
                s.after_create_channel(id, merkle_root, metadata)
            } else {
                s
            }
        },
        Operation::UpdateChannel { caller, id, new_root, new_metadata } => {
            if s.update_channel_outcome(caller, id) is Ok {
                s.after_update_channel(id, new_root, new_metadata)
            } else {
                s
            }
        },
        Operation::Mint { id, proof, receiver } => {
            if s.mint_outcome(id, proof) is Ok {
                s.after_mint(id, receiver)
            } else {
                s
            }
        },
        Operation::Transfer { sender, receiver, token } => {
            if s.transfer_outcome(sender, receiver, token) is Ok {
                s.after_transfer(sender, receiver, token)
            } else {
                s
            }
        },
        Operation::Burn { caller, token } => {
            if s.burn_outcome(caller, token) is Ok {
                s.after_burn(caller, token)
            } else {
                s
            }
        },
    }
}

/// The ledger after a sequence of requests, served one after the other.
pub open spec fn run(s: LedgerState, ops: Seq<Operation>) -> LedgerState
    decreases ops.len(),
{
    if ops.len() == 0 {
        s
    } else {
        apply(run(s, ops.drop_last()), ops.last())
    }
}

/// Every request, accepted or refused, leaves a well-formed ledger well formed.
pub proof fn theorem_apply_wf(s: LedgerState, op: Operation)
    requires
        s.wf(),
    ensures
        apply(s, op).wf(),
{
    match op {
        Operation::CreateChannel { caller, id, merkle_root, metadata } => {
            if s.create_channel_outcome(caller, id) is Ok {
                theorem_create_channel_wf(s, id, merkle_root, metadata);
            }
        },
        Operation::UpdateChannel { caller, id, new_root, new_metadata } => {
            if s.update_channel_outcome(caller, id) is Ok {
                theorem_update_channel_wf(s, id, new_root, new_metadata);
            }
        },
        Operation::Mint { id, proof, receiver } => {
            if s.mint_outcome(id, proof) is Ok {
                theorem_mint_wf(s, id, receiver);
            }
        },
        Operation::Transfer { sender, receiver, token } => {
            if s.transfer_outcome(sender, receiver, token) is Ok {
                theorem_transfer_wf(s, sender, receiver, token);
            }
        },
        Operation::Burn { caller, token } => {
            if s.burn_outcome(caller, token) is Ok {
                theorem_burn_wf(s, caller, token);
            }
        },
    }
}

/// The invariant of the ledger holds at every point in time: whatever
/// requests are served, in whatever order, a well-formed ledger stays well
/// formed.
pub proof fn theorem_run_wf(s: LedgerState, ops: Seq<Operation>)
    requires
        s.wf(),
    ensures
        run(s, ops).wf(),
    decreases ops.len(),
{
    if ops.len() > 0 {
        theorem_run_wf(s, ops.drop_last());
        theorem_apply_wf(run(s, ops.drop_last()), ops.last());
    }
}

/// Ownership is exclusive and total over the minted tokens: in a
/// well-formed ledger no token is held by two owners, no owner holds a
/// token twice, a minted token has an owner, and a token with an owner is
/// minted.
pub proof fn theorem_ownership_exclusive(s: LedgerState)
    requires
        s.wf(),
    ensures
        forall|t: Seq<char>, o1: Seq<char>, o2: Seq<char>|
            #[trigger] s.holds(o1, t) && #[trigger] s.holds(o2, t) ==> o1 == o2,
        forall|o: Seq<char>| #[trigger] s.owners.contains_key(o) ==> s.owners[o].no_duplicates(),
        forall|t: Seq<char>| #[trigger]
            s.minted_tokens.contains(t) <==> exists|o: Seq<char>| #[trigger] s.holds(o, t),
{
    assert forall|t: Seq<char>, o1: Seq<char>, o2: Seq<char>|
        #[trigger] s.holds(o1, t) && #[trigger] s.holds(o2, t) implies o1 == o2 by {
        assert(held_in(s.owners, o1, t) && held_in(s.owners, o2, t));
    }
    assert forall|t: Seq<char>| #[trigger]
        s.minted_tokens.contains(t) <==> exists|o: Seq<char>| #[trigger] s.holds(o, t) by {
        if s.minted_tokens.contains(t) {
            assert(tokens_owned(s.owners).contains(t));
            let o = choose|o: Seq<char>| #[trigger] held_in(s.owners, o, t);
            assert(s.holds(o, t));
        }
        if exists|o: Seq<char>| #[trigger] s.holds(o, t) {
            let o = choose|o: Seq<char>| #[trigger] s.holds(o, t);
            assert(held_in(s.owners, o, t));
            assert(tokens_owned(s.owners).contains(t));
        }
    }
}

/// The minted tokens are exactly the tokens whose numbers their channels
/// hold as live.
pub proof fn theorem_minted_iff_issued(s: LedgerState, id: Seq<char>, n: u64)
    requires
        s.wf(),
    ensures
        s.minted_tokens.contains(token_id_of(id, n as nat)) <==> s.issued(id, n),
{
    lemma_tokens_issued_contains(s.channels, id, n);
}

/// After an accepted burn the token is not minted, nobody holds it, its
/// number is not live in its channel, and the channel's supply is one less.
/// The channel's next number is what it was.
pub proof fn theorem_burn_removes(s: LedgerState, caller: Seq<char>, token: Seq<char>)
    requires
        s.wf(),
        s.burn_outcome(caller, token) is Ok,
    ensures
        ({
            let after = s.after_burn(caller, token);
            let (id, n) = token_in(token)->0;
            &&& !after.minted_tokens.contains(token)
            &&& forall|o: Seq<char>| !#[trigger] after.holds(o, token)
            &&& !after.issued(id, n)
            &&& after.channels[id].total_supply == s.channels[id].total_supply - 1
            &&& after.channels[id].next_token_number == s.channels[id].next_token_number
        }),
{
    let (id, n) = token_in(token)->0;
    lemma_minted_token_parses(s, token);
    lemma_retire_wf(s.channels[id], n);
    lemma_owners_without(s.owners, caller, token);
}

/// An accepted mint raises the next number of its channel by exactly one,
/// gives the new token a number that no live token of the channel has, and
/// leaves the next number of every other channel as it was.
pub proof fn theorem_mint_numbering(
    s: LedgerState,
    id: Seq<char>,
    proof_given: Option<Seq<Seq<u8>>>,
    receiver: Seq<char>,
)
    requires
        s.wf(),
        s.mint_outcome(id, proof_given) is Ok,
    ensures
        ({
            let after = s.after_mint(id, receiver);
            let n = s.channels[id].next_token_number;
            &&& s.mint_outcome(id, proof_given) == Ok::<Seq<char>, LedgerError>(
                token_id_of(id, n as nat),
            )
            &&& after.channels[id].next_token_number == n + 1
            &&& !s.channels[id].minted_numbers.contains(n)
            &&& !s.minted_tokens.contains(token_id_of(id, n as nat))
            &&& after.channels[id].minted_numbers.contains(n)
            &&& forall|c: Seq<char>|
                c != id && #[trigger] s.channels.contains_key(c) ==> after.channels[c]
                    == s.channels[c]
        }),
{
    lemma_issue_wf(s.channels[id]);
    lemma_next_token_is_new(s, id);
}

/// No request removes a channel or lowers its next number.
pub proof fn theorem_apply_numbers_grow(s: LedgerState, op: Operation, id: Seq<char>)
    requires
        s.wf(),
        s.channels.contains_key(id),
    ensures
        apply(s, op).channels.contains_key(id),
        apply(s, op).channels[id].next_token_number >= s.channels[id].next_token_number,
{
    match op {
        Operation::Burn { caller, token } => {
            if s.burn_outcome(caller, token) is Ok {
                lemma_minted_token_parses(s, token);
            }
        },
        _ => {},
    }
}

/// However many requests are served, no channel disappears and no next
/// number goes down.
pub proof fn theorem_run_numbers_grow(s: LedgerState, ops: Seq<Operation>, id: Seq<char>)
    requires
        s.wf(),
        s.channels.contains_key(id),
    ensures
        run(s, ops).channels.contains_key(id),
        run(s, ops).channels[id].next_token_number >= s.channels[id].next_token_number,
    decreases ops.len(),
{
    if ops.len() > 0 {
        theorem_run_numbers_grow(s, ops.drop_last(), id);
        theorem_run_wf(s, ops.drop_last());
        theorem_apply_numbers_grow(run(s, ops.drop_last()), ops.last(), id);
    }
}

/// A token number that a channel has passed is never given out again:
/// whatever requests are served in between, no later mint returns the
/// identifier of a number below the channel's next number.
pub proof fn theorem_number_never_reissued(
    s: LedgerState,
    id: Seq<char>,
    n: u64,
    ops: Seq<Operation>,
    mint_id: Seq<char>,
    mint_proof: Option<Seq<Seq<u8>>>,
)
    requires
        s.wf(),
        s.channels.contains_key(id),
        n < s.channels[id].next_token_number,
    ensures
        run(s, ops).mint_outcome(mint_id, mint_proof) != Ok::<Seq<char>, LedgerError>(
            token_id_of(id, n as nat),
        ),
{
    let later = run(s, ops);
    theorem_run_numbers_grow(s, ops, id);
    if later.mint_outcome(mint_id, mint_proof) == Ok::<Seq<char>, LedgerError>(
        token_id_of(id, n as nat),
    ) {
        let next = later.channels[mint_id].next_token_number;
        theorem_token_id_injective(mint_id, next as nat, id, n as nat);
    }
}

/// A burned token is never minted again: after an accepted burn, whatever
/// requests are served in between, no mint returns the identifier of the
/// burned token.
pub proof fn theorem_burned_token_never_reissued(
    s: LedgerState,
    caller: Seq<char>,
    token: Seq<char>,
    ops: Seq<Operation>,
    mint_id: Seq<char>,
    mint_proof: Option<Seq<Seq<u8>>>,
)
    requires
        s.wf(),
        s.burn_outcome(caller, token) is Ok,
    ensures
        run(s.after_burn(caller, token), ops).mint_outcome(mint_id, mint_proof) != Ok::<
            Seq<char>,
            LedgerError,
        >(token),
{
    let (id, n) = token_in(token)->0;
    lemma_minted_token_parses(s, token);
    theorem_burn_wf(s, caller, token);
    theorem_burn_removes(s, caller, token);
    theorem_number_never_reissued(s.after_burn(caller, token), id, n, ops, mint_id, mint_proof);
}

} // verus!
