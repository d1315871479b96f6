use vstd::prelude::*;
use vstd::utf8::encode_utf8;
use crate::channel::{lemma_issue_wf, lemma_retire_wf, ChannelState};
use crate::error::LedgerError;
use crate::merkle::proof_accepted;
use crate::metadata::{ChannelMetadataView, NFTContractMetadataView};
use crate::token_id::{
    theorem_token_id_injective, theorem_token_in_token_id, token_id_of, token_in,
};

verus! {

/// A list of tokens with the token `token` taken out.
pub open spec fn without(list: Seq<Seq<char>>, token: Seq<char>) -> Seq<Seq<char>> {
    list.remove(list.index_of(token))
}

/// Taking a held token out of a list without repetitions removes exactly
/// that token.
pub proof fn lemma_without(list: Seq<Seq<char>>, token: Seq<char>)
    requires
        list.no_duplicates(),
        list.contains(token),
    ensures
        without(list, token).no_duplicates(),
        without(list, token).len() == list.len() - 1,
        !without(list, token).contains(token),
        forall|t: Seq<char>|
            t != token ==> (#[trigger] without(list, token).contains(t) <==> list.contains(t)),
{
    let i = list.index_of(token);
    let rest = list.remove(i);
    assert forall|a: int, b: int| 0 <= a < rest.len() && 0 <= b < rest.len() && a != b implies rest[a]
        != rest[b] by {
        let a1 = if a < i { a } else { a + 1 };
        let b1 = if b < i { b } else { b + 1 };
        assert(rest[a] == list[a1] && rest[b] == list[b1]);
    }
    assert forall|t: Seq<char>| #[trigger] rest.contains(t) <==> (list.contains(t) && t != token) by {
        if rest.contains(t) {
            let a = rest.index_of(t);
            let a1 = if a < i { a } else { a + 1 };
            assert(list[a1] == t);
        }
        if list.contains(t) && t != token {
            let j = list.index_of(t);
            let j2 = if j < i { j } else { j - 1 };
            assert(rest[j2] == t);
        }
    }
}

/// The ownership index after `owner` gave up `token`: the token leaves the
/// owner's list, and an owner left with nothing leaves the index.
pub open spec fn owners_without(
    owners: Map<Seq<char>, Seq<Seq<char>>>,
    owner: Seq<char>,
    token: Seq<char>,
) -> Map<Seq<char>, Seq<Seq<char>>> {
    let rest = without(owners[owner], token);
    if rest.len() == 0 {
        owners.remove(owner)
    } else {
        owners.insert(owner, rest)
    }
}

/// What an owner holds in an ownership index: the owner's list, or nothing
/// for an owner that the index does not know.
pub open spec fn tokens_held(owners: Map<Seq<char>, Seq<Seq<char>>>, owner: Seq<char>) -> Seq<
    Seq<char>,
> {
    if owners.contains_key(owner) {
        owners[owner]
    } else {
        Seq::empty()
    }
}

/// The ownership index after `owner` received `token`: the token is added
/// at the end of the owner's list, which is created if need be.
pub open spec fn owners_with(
    owners: Map<Seq<char>, Seq<Seq<char>>>,
    owner: Seq<char>,
    token: Seq<char>,
) -> Map<Seq<char>, Seq<Seq<char>>> {
    owners.insert(owner, tokens_held(owners, owner).push(token))
}

/// Whether token number `n` of the channel `id` is live in a map of channels.
pub open spec fn issued_in(channels: Map<Seq<char>, ChannelState>, id: Seq<char>, n: u64) -> bool {
    channels.contains_key(id) && channels[id].minted_numbers.contains(n)
}

/// Whether `owner` holds `token` in an ownership index.
pub open spec fn held_in(
    owners: Map<Seq<char>, Seq<Seq<char>>>,
    owner: Seq<char>,
    token: Seq<char>,
) -> bool {
    owners.contains_key(owner) && owners[owner].contains(token)
}

/// The invariant of an ownership index: an owner in the index holds at
/// least one token, none twice, and no token is held by two owners.
pub open spec fn owners_wf(owners: Map<Seq<char>, Seq<Seq<char>>>) -> bool {
    &&& forall|o: Seq<char>| #[trigger]
        owners.contains_key(o) ==> owners[o].len() > 0 && owners[o].no_duplicates()
    &&& forall|o1: Seq<char>, o2: Seq<char>, t: Seq<char>|
        #[trigger] held_in(owners, o1, t) && #[trigger] held_in(owners, o2, t) ==> o1 == o2
}

/// Whether every channel of a map of channels is well formed.
pub open spec fn channels_wf(channels: Map<Seq<char>, ChannelState>) -> bool {
    forall|id: Seq<char>| #[trigger] channels.contains_key(id) ==> channels[id].wf()
}

/// The identifiers of all tokens that are live in a map of channels.
pub open spec fn tokens_issued(channels: Map<Seq<char>, ChannelState>) -> Set<Seq<char>> {
    Set::new(
        |t: Seq<char>|
            exists|id: Seq<char>, n: u64| #[trigger]
                issued_in(channels, id, n) && t == token_id_of(id, n as nat),
    )
}

/// All tokens that somebody holds in an ownership index.
pub open spec fn tokens_owned(owners: Map<Seq<char>, Seq<Seq<char>>>) -> Set<Seq<char>> {
    Set::new(|t: Seq<char>| exists|o: Seq<char>| #[trigger] held_in(owners, o, t))
}

/// A list with one more element at its end contains what it contained, and
/// that element.
pub proof fn lemma_push_contains(list: Seq<Seq<char>>, token: Seq<char>)
    ensures
        forall|t: Seq<char>| #[trigger]
            list.push(token).contains(t) <==> (list.contains(t) || t == token),
        !list.contains(token) && list.no_duplicates() ==> list.push(token).no_duplicates(),
{
    let more = list.push(token);
    assert forall|t: Seq<char>| #[trigger] more.contains(t) <==> (list.contains(t) || t == token) by {
        if list.contains(t) {
            let i = list.index_of(t);
            assert(more[i] == t);
        }
        if t == token {
            assert(more[list.len() as int] == t);
        }
    }
}

/// Giving an owner a token that nobody holds keeps the index well formed,
/// and changes who holds what by that one holding.
pub proof fn lemma_owners_with(
    owners: Map<Seq<char>, Seq<Seq<char>>>,
    owner: Seq<char>,
    token: Seq<char>,
)
    requires
        owners_wf(owners),
        forall|o: Seq<char>| !#[trigger] held_in(owners, o, token),
    ensures
        owners_wf(owners_with(owners, owner, token)),
        forall|o: Seq<char>, t: Seq<char>| #[trigger]
            held_in(owners_with(owners, owner, token), o, t) <==> (held_in(owners, o, t) || (o
                == owner && t == token)),
{
    let list = tokens_held(owners, owner);
    let after = owners_with(owners, owner, token);
    lemma_push_contains(list, token);
    assert(!held_in(owners, owner, token));
    assert forall|o: Seq<char>, t: Seq<char>| #[trigger]
        held_in(after, o, t) <==> (held_in(owners, o, t) || (o == owner && t == token)) by {
        if o == owner {
            assert(after[o] == list.push(token));
        } else {
            if owners.contains_key(o) {
                assert(after[o] == owners[o]);
            }
        }
    }
    assert forall|o1: Seq<char>, o2: Seq<char>, t: Seq<char>|
        #[trigger] held_in(after, o1, t) && #[trigger] held_in(after, o2, t) implies o1 == o2 by {
        if t == token {
            assert(!held_in(owners, o1, t));
            assert(!held_in(owners, o2, t));
        } else {
            assert(held_in(owners, o1, t) && held_in(owners, o2, t));
        }
    }
}

/// Taking a token from the owner that holds it keeps the index well formed:
/// afterwards nobody holds the token, and every other holding is as before.
pub proof fn lemma_owners_without(
    owners: Map<Seq<char>, Seq<Seq<char>>>,
    owner: Seq<char>,
    token: Seq<char>,
)
    requires
        owners_wf(owners),
        held_in(owners, owner, token),
    ensures
        owners_wf(owners_without(owners, owner, token)),
        forall|o: Seq<char>, t: Seq<char>| #[trigger]
            held_in(owners_without(owners, owner, token), o, t) <==> (held_in(owners, o, t) && t
                != token),
{
    let list = owners[owner];
    let rest = without(list, token);
    let after = owners_without(owners, owner, token);
    lemma_without(list, token);
    assert forall|o: Seq<char>, t: Seq<char>| #[trigger]
        held_in(after, o, t) <==> (held_in(owners, o, t) && t != token) by {
        if o == owner {
            if rest.len() > 0 {
                assert(after[o] == rest);
            }
            if t != token {
                assert(rest.contains(t) <==> list.contains(t));
                if list.contains(t) {
                    assert(rest.len() > 0);
                }
            }
        } else {
            if owners.contains_key(o) {
                assert(after.contains_key(o));
                assert(after[o] == owners[o]);
            }
            if t == token && held_in(owners, o, t) {
                assert(held_in(owners, owner, t));
            }
        }
    }
    assert forall|o1: Seq<char>, o2: Seq<char>, t: Seq<char>|
        #[trigger] held_in(after, o1, t) && #[trigger] held_in(after, o2, t) implies o1 == o2 by {
        assert(held_in(owners, o1, t) && held_in(owners, o2, t));
    }
}

/// The whole state of the ledger.
pub struct LedgerState {
    /// The authority: the one account that may create channels and change
    /// their roots and metadata.
    pub owner_id: Seq<char>,
    /// What the ledger says of itself.
    pub metadata: NFTContractMetadataView,
    /// The channels, by identifier.
    pub channels: Map<Seq<char>, ChannelState>,
    /// The identifiers of all tokens minted and not burned.
    pub minted_tokens: Set<Seq<char>>,
    /// The tokens that each owner holds, in the order in which they arrived.
    pub owners: Map<Seq<char>, Seq<Seq<char>>>,
}

impl LedgerState {
    /// Whether token number `n` of the channel `channel` is minted and not burned.
    pub open spec fn issued(self, channel: Seq<char>, n: u64) -> bool {
        issued_in(self.channels, channel, n)
    }

    /// Whether `owner` holds `token`.
    pub open spec fn holds(self, owner: Seq<char>, token: Seq<char>) -> bool {
        held_in(self.owners, owner, token)
    }

    /// The invariant of the ledger. Every channel is well formed. An owner
    /// in the index holds at least one token, none twice, and no token is
    /// held by two owners. The minted tokens are exactly the tokens whose
    /// numbers the channels hold as live, and exactly the tokens that
    /// somebody holds.
    pub open spec fn wf(self) -> bool {
        &&& channels_wf(self.channels)
        &&& owners_wf(self.owners)
        &&& self.minted_tokens == tokens_issued(self.channels)
        &&& self.minted_tokens == tokens_owned(self.owners)
    }

    /// The ledger as it starts: an authority, and nothing else.
    pub open spec fn initial(owner_id: Seq<char>, metadata: NFTContractMetadataView) -> LedgerState {
        LedgerState {
            owner_id,
            metadata,
            channels: Map::empty(),
            minted_tokens: Set::empty(),
            owners: Map::empty(),
        }
    }

    /// Whether creating the channel `id` is accepted from `caller`.
    pub open spec fn create_channel_outcome(self, caller: Seq<char>, id: Seq<char>) -> Result<
        (),
        LedgerError,
    > {
        if caller != self.owner_id {
            Err(LedgerError::Unauthorized)
        } else if self.channels.contains_key(id) {
            Err(LedgerError::DuplicateChannel)
        } else {
            Ok(())
        }
    }

    /// The ledger after the channel `id` was created.
    pub open spec fn after_create_channel(
        self,
        id: Seq<char>,
        merkle_root: Seq<u8>,
        metadata: ChannelMetadataView,
    ) -> LedgerState {
        LedgerState {
            channels: self.channels.insert(id, ChannelState::fresh(merkle_root, metadata)),
            ..self
        }
    }

    /// Whether changing the channel `id` is accepted from `caller`.
    pub open spec fn update_channel_outcome(self, caller: Seq<char>, id: Seq<char>) -> Result<
        (),
        LedgerError,
    > {
        if caller != self.owner_id {
            Err(LedgerError::Unauthorized)
        } else if !self.channels.contains_key(id) {
            Err(LedgerError::ChannelNotFound)
        } else {
            Ok(())
        }
    }

    /// The ledger after the channel `id` got a new root, new metadata, or
    /// both; what is not given stays.
    pub open spec fn after_update_channel(
        self,
        id: Seq<char>,
        merkle_root: Option<Seq<u8>>,
        metadata: Option<ChannelMetadataView>,
    ) -> LedgerState {
        let old_channel = self.channels[id];
        let rooted = match merkle_root {
            Some(root) => old_channel.with_root(root),
            None => old_channel,
        };
        let described = match metadata {
            Some(m) => rooted.with_metadata(m),
            None => rooted,
        };
        LedgerState { channels: self.channels.insert(id, described), ..self }
    }

    /// The bytes that a proof for the next token of the channel `id` is
    /// checked against: the UTF-8 bytes of that token's identifier.
    pub open spec fn next_leaf(self, id: Seq<char>) -> Seq<u8> {
        encode_utf8(token_id_of(id, self.channels[id].next_token_number as nat))
    }

    /// What a mint in the channel `id` with the proof `proof` gives: the
    /// identifier of the new token, or the reason for which the mint is
    /// refused. The first token of a channel needs no proof, and a proof
    /// that comes with it is not looked at; every later token needs a proof
    /// that leads from its identifier to the channel's commitment root.
    pub open spec fn mint_outcome(self, id: Seq<char>, proof: Option<Seq<Seq<u8>>>) -> Result<
        Seq<char>,
        LedgerError,
    > {
        if !self.channels.contains_key(id) {
            Err(LedgerError::ChannelNotFound)
        } else {
            let channel = self.channels[id];
            let n = channel.next_token_number;
            if n == u64::MAX {
                Err(LedgerError::SupplyExhausted)
            } else if n > 1 && proof is None {
                Err(LedgerError::ProofRequired)
            } else if n > 1 && !proof_accepted(channel.merkle_root, self.next_leaf(id), proof->0) {
                Err(LedgerError::InvalidProof)
            } else {
                Ok(token_id_of(id, n as nat))
            }
        }
    }

    /// The ledger after the next token of the channel `id` was minted to
    /// `receiver`.
    pub open spec fn after_mint(self, id: Seq<char>, receiver: Seq<char>) -> LedgerState {
        let channel = self.channels[id];
        let token = token_id_of(id, channel.next_token_number as nat);
        LedgerState {
            channels: self.channels.insert(id, channel.after_issue()),
            minted_tokens: self.minted_tokens.insert(token),
            owners: owners_with(self.owners, receiver, token),
            ..self
        }
    }

    /// Whether the transfer of `token` from `sender` to `receiver` is accepted.
    pub open spec fn transfer_outcome(
        self,
        sender: Seq<char>,
        receiver: Seq<char>,
        token: Seq<char>,
    ) -> Result<(), LedgerError> {
        if token_in(token) is None {
            Err(LedgerError::InvalidTokenId)
        } else if sender == receiver {
            Err(LedgerError::SameAccount)
        } else if !self.holds(sender, token) {
            Err(LedgerError::NotOwner)
        } else {
            Ok(())
        }
    }

    /// The ledger after `token` went from `sender` to `receiver`.
    pub open spec fn after_transfer(
        self,
        sender: Seq<char>,
        receiver: Seq<char>,
        token: Seq<char>,
    ) -> LedgerState {
        LedgerState {
            owners: owners_with(owners_without(self.owners, sender, token), receiver, token),
            ..self
        }
    }

    /// Whether burning `token` is accepted from `caller`.
    pub open spec fn burn_outcome(self, caller: Seq<char>, token: Seq<char>) -> Result<
        (),
        LedgerError,
    > {
        if token_in(token) is None {
            Err(LedgerError::InvalidTokenId)
        } else if !self.minted_tokens.contains(token) {
            Err(LedgerError::TokenNotFound)
        } else if !self.holds(caller, token) {
            Err(LedgerError::NotOwner)
        } else {
            Ok(())
        }
    }

    /// The ledger after `caller` burned `token`.
    pub open spec fn after_burn(self, caller: Seq<char>, token: Seq<char>) -> LedgerState {
        let (id, n) = token_in(token)->0;
        LedgerState {
            channels: self.channels.insert(id, self.channels[id].after_retire(n)),
            minted_tokens: self.minted_tokens.remove(token),
            owners: owners_without(self.owners, caller, token),
            ..self
        }
    }
}

/// A token among the tokens issued is the token of one live number.
pub proof fn lemma_token_issued(channels: Map<Seq<char>, ChannelState>, t: Seq<char>) -> (r: (
    Seq<char>,
    u64,
))
    requires
        tokens_issued(channels).contains(t),
    ensures
        issued_in(channels, r.0, r.1),
        t == token_id_of(r.0, r.1 as nat),
{
    choose|id: Seq<char>, n: u64| #[trigger]
        issued_in(channels, id, n) && t == token_id_of(id, n as nat)
}

/// A token of the channel `id` is issued exactly when its number is live.
pub proof fn lemma_tokens_issued_contains(
    channels: Map<Seq<char>, ChannelState>,
    id: Seq<char>,
    n: u64,
)
    ensures
        tokens_issued(channels).contains(token_id_of(id, n as nat)) <==> issued_in(channels, id, n),
{
    let t = token_id_of(id, n as nat);
    if tokens_issued(channels).contains(t) {
        let (c, m) = lemma_token_issued(channels, t);
        theorem_token_id_injective(c, m as nat, id, n as nat);
    }
}

/// Putting a channel in place that holds the live numbers of the channel
/// that it replaces, or no live number where there was no channel, leaves
/// the tokens issued as they were.
pub proof fn lemma_tokens_issued_same(
    channels: Map<Seq<char>, ChannelState>,
    id: Seq<char>,
    channel: ChannelState,
)
    requires
        channel.minted_numbers == if channels.contains_key(id) {
            channels[id].minted_numbers
        } else {
            Set::empty()
        },
    ensures
        tokens_issued(channels.insert(id, channel)) == tokens_issued(channels),
{
    let after = channels.insert(id, channel);
    assert forall|c: Seq<char>, n: u64| #[trigger]
        issued_in(after, c, n) <==> issued_in(channels, c, n) by {}
    assert forall|t: Seq<char>| tokens_issued(after).contains(t) <==> tokens_issued(
        channels,
    ).contains(t) by {
        if tokens_issued(after).contains(t) {
            let (c, n) = lemma_token_issued(after, t);
            assert(issued_in(channels, c, n));
        }
        if tokens_issued(channels).contains(t) {
            let (c, n) = lemma_token_issued(channels, t);
            assert(issued_in(after, c, n));
        }
    }
    assert(tokens_issued(after) =~= tokens_issued(channels));
}

/// Issuing the next token of a channel adds its identifier to the tokens
/// issued.
pub proof fn lemma_tokens_issued_after_issue(channels: Map<Seq<char>, ChannelState>, id: Seq<char>)
    requires
        channels.contains_key(id),
    ensures
        tokens_issued(channels.insert(id, channels[id].after_issue())) == tokens_issued(
            channels,
        ).insert(token_id_of(id, channels[id].next_token_number as nat)),
{
    let next = channels[id].next_token_number;
    let token = token_id_of(id, next as nat);
    let after = channels.insert(id, channels[id].after_issue());
    assert forall|c: Seq<char>, n: u64| #[trigger]
        issued_in(after, c, n) <==> (issued_in(channels, c, n) || (c == id && n == next)) by {}
    assert forall|t: Seq<char>| tokens_issued(after).contains(t) <==> tokens_issued(
        channels,
    ).insert(token).contains(t) by {
        if tokens_issued(after).contains(t) {
            let (c, n) = lemma_token_issued(after, t);
            if !(c == id && n == next) {
                assert(issued_in(channels, c, n));
            }
        }
        if tokens_issued(channels).contains(t) {
            let (c, n) = lemma_token_issued(channels, t);
            assert(issued_in(after, c, n));
        }
        if t == token {
            assert(issued_in(after, id, next));
        }
    }
    assert(tokens_issued(after) =~= tokens_issued(channels).insert(token));
}

/// Burning a live token of a channel takes its identifier from the tokens
/// issued.
pub proof fn lemma_tokens_issued_after_retire(
    channels: Map<Seq<char>, ChannelState>,
    id: Seq<char>,
    n: u64,
)
    requires
        issued_in(channels, id, n),
    ensures
        tokens_issued(channels.insert(id, channels[id].after_retire(n))) == tokens_issued(
            channels,
        ).remove(token_id_of(id, n as nat)),
{
    let token = token_id_of(id, n as nat);
    let after = channels.insert(id, channels[id].after_retire(n));
    assert forall|c: Seq<char>, m: u64| #[trigger]
        issued_in(after, c, m) <==> (issued_in(channels, c, m) && !(c == id && m == n)) by {}
    assert forall|t: Seq<char>| tokens_issued(after).contains(t) <==> tokens_issued(
        channels,
    ).remove(token).contains(t) by {
        if tokens_issued(after).contains(t) {
            let (c, m) = lemma_token_issued(after, t);
            assert(issued_in(channels, c, m));
            if t == token {
                theorem_token_id_injective(c, m as nat, id, n as nat);
            }
        }
        if tokens_issued(channels).contains(t) && t != token {
            let (c, m) = lemma_token_issued(channels, t);
            assert(issued_in(after, c, m));
        }
    }
    assert(tokens_issued(after) =~= tokens_issued(channels).remove(token));
}

/// Giving an owner a token that nobody holds adds it to the tokens owned.
pub proof fn lemma_tokens_owned_with(
    owners: Map<Seq<char>, Seq<Seq<char>>>,
    owner: Seq<char>,
    token: Seq<char>,
)
    requires
        owners_wf(owners),
        !tokens_owned(owners).contains(token),
    ensures
        owners_wf(owners_with(owners, owner, token)),
        tokens_owned(owners_with(owners, owner, token)) == tokens_owned(owners).insert(token),
{
    let after = owners_with(owners, owner, token);
    assert forall|o: Seq<char>| !#[trigger] held_in(owners, o, token) by {}
    lemma_owners_with(owners, owner, token);
    assert forall|t: Seq<char>| tokens_owned(after).contains(t) <==> tokens_owned(owners).insert(
        token,
    ).contains(t) by {
        if tokens_owned(after).contains(t) {
            let o = choose|o: Seq<char>| #[trigger] held_in(after, o, t);
            if t != token {
                assert(held_in(owners, o, t));
            }
        }
        if tokens_owned(owners).contains(t) {
            let o = choose|o: Seq<char>| #[trigger] held_in(owners, o, t);
            assert(held_in(after, o, t));
        }
        if t == token {
            assert(held_in(after, owner, t));
        }
    }
    assert(tokens_owned(after) =~= tokens_owned(owners).insert(token));
}

/// Taking a token from the owner that holds it takes it from the tokens
/// owned.
pub proof fn lemma_tokens_owned_without(
    owners: Map<Seq<char>, Seq<Seq<char>>>,
    owner: Seq<char>,
    token: Seq<char>,
)
    requires
        owners_wf(owners),
        held_in(owners, owner, token),
    ensures
        owners_wf(owners_without(owners, owner, token)),
        tokens_owned(owners_without(owners, owner, token)) == tokens_owned(owners).remove(token),
{
    let after = owners_without(owners, owner, token);
    lemma_owners_without(owners, owner, token);
    assert forall|t: Seq<char>| tokens_owned(after).contains(t) <==> tokens_owned(owners).remove(
        token,
    ).contains(t) by {
        if tokens_owned(after).contains(t) {
            let o = choose|o: Seq<char>| #[trigger] held_in(after, o, t);
            assert(held_in(owners, o, t));
        }
        if tokens_owned(owners).contains(t) && t != token {
            let o = choose|o: Seq<char>| #[trigger] held_in(owners, o, t);
            assert(held_in(after, o, t));
        }
    }
    assert(tokens_owned(after) =~= tokens_owned(owners).remove(token));
}

/// The initial ledger is well formed.
pub proof fn theorem_initial_wf(owner_id: Seq<char>, metadata: NFTContractMetadataView)
    ensures
        LedgerState::initial(owner_id, metadata).wf(),
{
    let s = LedgerState::initial(owner_id, metadata);
    assert(tokens_issued(s.channels) =~= Set::<Seq<char>>::empty());
    assert(tokens_owned(s.owners) =~= Set::<Seq<char>>::empty());
}

/// Creating a channel that does not exist yet keeps the ledger well formed.
pub proof fn theorem_create_channel_wf(
    s: LedgerState,
    id: Seq<char>,
    merkle_root: Seq<u8>,
    metadata: ChannelMetadataView,
)
    requires
        s.wf(),
        !s.channels.contains_key(id),
    ensures
        s.after_create_channel(id, merkle_root, metadata).wf(),
{
    lemma_tokens_issued_same(s.channels, id, ChannelState::fresh(merkle_root, metadata));
}

/// Changing the root or the metadata of a channel keeps the ledger well formed.
pub proof fn theorem_update_channel_wf(
    s: LedgerState,
    id: Seq<char>,
    merkle_root: Option<Seq<u8>>,
    metadata: Option<ChannelMetadataView>,
)
    requires
        s.wf(),
        s.channels.contains_key(id),
    ensures
        s.after_update_channel(id, merkle_root, metadata).wf(),
{
    let after = s.after_update_channel(id, merkle_root, metadata);
    lemma_tokens_issued_same(s.channels, id, after.channels[id]);
}

/// The token that a mint is about to create is not minted and has no owner.
pub proof fn lemma_next_token_is_new(s: LedgerState, id: Seq<char>)
    requires
        s.wf(),
        s.channels.contains_key(id),
    ensures
        !s.minted_tokens.contains(token_id_of(id, s.channels[id].next_token_number as nat)),
        !s.channels[id].minted_numbers.contains(s.channels[id].next_token_number),
        forall|o: Seq<char>|
            !#[trigger] held_in(
                s.owners,
                o,
                token_id_of(id, s.channels[id].next_token_number as nat),
            ),
{
    let next = s.channels[id].next_token_number;
    lemma_tokens_issued_contains(s.channels, id, next);
}

/// An accepted mint keeps the ledger well formed.
pub proof fn theorem_mint_wf(s: LedgerState, id: Seq<char>, receiver: Seq<char>)
    requires
        s.wf(),
        s.channels.contains_key(id),
        s.channels[id].next_token_number < u64::MAX,
    ensures
        s.after_mint(id, receiver).wf(),
{
    let token = token_id_of(id, s.channels[id].next_token_number as nat);
    lemma_issue_wf(s.channels[id]);
    lemma_next_token_is_new(s, id);
    lemma_tokens_issued_after_issue(s.channels, id);
    lemma_tokens_owned_with(s.owners, receiver, token);
}

/// An accepted transfer keeps the ledger well formed.
pub proof fn theorem_transfer_wf(
    s: LedgerState,
    sender: Seq<char>,
    receiver: Seq<char>,
    token: Seq<char>,
)
    requires
        s.wf(),
        s.holds(sender, token),
    ensures
        s.after_transfer(sender, receiver, token).wf(),
{
    let taken = owners_without(s.owners, sender, token);
    lemma_tokens_owned_without(s.owners, sender, token);
    lemma_tokens_owned_with(taken, receiver, token);
    assert(tokens_owned(s.owners).contains(token));
    assert(tokens_owned(s.owners).remove(token).insert(token) =~= tokens_owned(s.owners));
}

/// A minted token with a well-formed identifier is the token that its
/// identifier names: the channel exists and holds the number as live.
pub proof fn lemma_minted_token_parses(s: LedgerState, token: Seq<char>)
    requires
        s.wf(),
        s.minted_tokens.contains(token),
        token_in(token) is Some,
    ensures
        ({
            let (id, n) = token_in(token)->0;
            s.issued(id, n) && token == token_id_of(id, n as nat)
        }),
{
    let (c, n) = lemma_token_issued(s.channels, token);
    theorem_token_in_token_id(token, c, n);
}

/// An accepted burn keeps the ledger well formed.
pub proof fn theorem_burn_wf(s: LedgerState, caller: Seq<char>, token: Seq<char>)
    requires
        s.wf(),
        s.burn_outcome(caller, token) is Ok,
    ensures
        s.after_burn(caller, token).wf(),
{
    let (id, k) = token_in(token)->0;
    lemma_minted_token_parses(s, token);
    lemma_retire_wf(s.channels[id], k);
    lemma_tokens_issued_after_retire(s.channels, id, k);
    lemma_tokens_owned_without(s.owners, caller, token);
}

} // verus!
