use vstd::prelude::*;
use vstd::string::*;
use vstd::utf8::encode_utf8;
use crate::assoc::lemma_assoc_at;
use crate::channel::{lemma_issue_wf, ChannelView};
use crate::channels::{entries_valid, ChannelLedger};
use crate::error::LedgerError;
use crate::history::{apply, Operation};
use crate::merkle::{proof_accepted, verify};
use crate::metadata::{
    opt_bytes, token_metadata_of, ChannelMetadata, ChannelMetadataView, JsonToken, JsonTokenView,
    NFTContractMetadata, NFTContractMetadataView,
};
use crate::owners::{holder_ids, holder_lists, lemma_lists_valid, lists_valid, page, OwnerIndex};
use crate::snapshot::{
    lemma_token_at_issued, lemma_tokens_before_end, lemma_tokens_before_next,
    lemma_tokens_before_start, lemma_tokens_before_step, token_at, tokens_before, Snapshot,
};
use crate::state::{
    held_in, lemma_minted_token_parses, lemma_next_token_is_new, theorem_burn_wf,
    theorem_create_channel_wf, theorem_initial_wf, theorem_mint_wf, theorem_transfer_wf,
    theorem_update_channel_wf, tokens_held, tokens_owned, LedgerState,
};
use crate::token_id::{parse_token_id, token_id, token_id_of, token_in};
use crate::token_set::TokenSet;

verus! {

/// The identifier of a token: the channel identifier, a colon, and the
/// token number in decimal.
pub type TokenId = String;

/// The identifier of an account: an owner of tokens, a caller, the authority.
pub type AccountId = String;

/// The values of an optional proof.
pub open spec fn proof_view(given: Option<Vec<Vec<u8>>>) -> Option<Seq<Seq<u8>>> {
    match given {
        Some(p) => Some(p.deep_view()),
        None => None,
    }
}

/// The values of optional channel metadata.
pub open spec fn metadata_view(metadata: Option<ChannelMetadata>) -> Option<ChannelMetadataView> {
    match metadata {
        Some(m) => Some(m@),
        None => None,
    }
}

/// What the ledger says of itself when it is created.
pub open spec fn initial_metadata() -> NFTContractMetadataView {
    NFTContractMetadataView {
        spec: "nft-2.1.0"@,
        name: "ShardDog"@,
        symbol: "SHARDDOG"@,
        icon: Some("https://arweave.net/U8NfqCM4-OIqbCkA8fXT1a5LVkd5eNb1jO5A-8Q4oEY"@),
        base_uri: None,
        reference: None,
        reference_hash: None,
    }
}

/// The display record of the token that the text `token` names: the record
/// that the token's channel derives for the token's number. There is none
/// when the text is not a well-formed token identifier or names a channel
/// that does not exist. Whether the token is minted plays no part.
pub open spec fn token_view(s: LedgerState, token: Seq<char>) -> Option<JsonTokenView> {
    match token_in(token) {
        None => None,
        Some((id, n)) => if s.channels.contains_key(id) {
            Some(
                JsonTokenView {
                    token_id: token,
                    metadata: token_metadata_of(s.channels[id].metadata, n),
                },
            )
        } else {
            None
        },
    }
}

/// The display records of the tokens of `tokens` that have one, in order.
pub open spec fn token_views(s: LedgerState, tokens: Seq<Seq<char>>) -> Seq<JsonTokenView>
    decreases tokens.len(),
{
    if tokens.len() == 0 {
        Seq::empty()
    } else {
        let before = token_views(s, tokens.drop_last());
        match token_view(s, tokens.last()) {
            Some(v) => before.push(v),
            None => before,
        }
    }
}

/// The values of a list of display records.
pub open spec fn views_of(tokens: Seq<JsonToken>) -> Seq<JsonTokenView> {
    tokens.map_values(|t: JsonToken| t@)
}

/// The ledger: the channels, the set of minted tokens and the ownership
/// index, kept consistent with each other by every operation.
pub struct Contract {
    owner_id: AccountId,
    metadata: NFTContractMetadata,
    channels: ChannelLedger,
    minted_tokens: TokenSet,
    owners: OwnerIndex,
}

impl View for Contract {
    type V = LedgerState;

    closed spec fn view(&self) -> LedgerState {
        LedgerState {
            owner_id: self.owner_id@,
            metadata: self.metadata@,
            channels: self.channels@,
            minted_tokens: self.minted_tokens@,
            owners: self.owners@,
        }
    }
}

impl Contract {
    /// The invariant of the ledger: its parts are well formed, and its state
    /// satisfies the invariant of `LedgerState`.
    pub closed spec fn wf(&self) -> bool {
        &&& self.channels.wf()
        &&& self.minted_tokens.wf()
        &&& self.owners.wf()
        &&& self@.wf()
    }

    /// A well-formed ledger is in a well-formed state.
    pub proof fn lemma_wf(&self)
        requires
            self.wf(),
        ensures
            self@.wf(),
    {
    }

    /// Creates a ledger without channels and tokens, with `owner_id` as its
    /// authority.
    pub fn new(owner_id: AccountId) -> (contract: Contract)
        ensures
            contract.wf(),
            contract@ == LedgerState::initial(owner_id@, initial_metadata()),
    {
        let metadata = NFTContractMetadata {
            spec: String::from_str("nft-2.1.0"),
            name: String::from_str("ShardDog"),
            symbol: String::from_str("SHARDDOG"),
            icon: Some(
                String::from_str(
                    "https://arweave.net/U8NfqCM4-OIqbCkA8fXT1a5LVkd5eNb1jO5A-8Q4oEY",
                ),
            ),
            base_uri: None,
            reference: None,
            reference_hash: None,
        };
        proof {
            theorem_initial_wf(owner_id@, initial_metadata());
        }
        Contract {
            owner_id,
            metadata,
            channels: ChannelLedger::new(),
            minted_tokens: TokenSet::new(),
            owners: OwnerIndex::new(),
        }
    }

    /// The content of the ledger as plain data. Read back with `restore`,
    /// it gives a ledger in the same state.
    pub fn snapshot(&self) -> (r: Snapshot)
        requires
            self.wf(),
        ensures
            r.valid(),
            r.state() == self@,
    {
        Snapshot {
            owner_id: self.owner_id.clone(),
            metadata: self.metadata.duplicate(),
            channels: self.channels.entries(),
            owners: self.owners.entries(),
        }
    }

    /// Builds the ledger that a snapshot stands for, or returns `None` when
    /// the snapshot is not valid.
    pub fn restore(snapshot: &Snapshot) -> (r: Option<Contract>)
        ensures
            match r {
                Some(contract) => snapshot.valid() && contract.wf() && contract@
                    == snapshot.state(),
                None => !snapshot.valid(),
            },
    {
        let entries = &snapshot.channels;
        let holders = &snapshot.owners;
        let ghost state = snapshot.state();
        let channels = match ChannelLedger::from_entries(entries) {
            Some(ledger) => ledger,
            None => {
                return None;
            },
        };
        let owners = match OwnerIndex::from_entries(holders) {
            Some(index) => index,
            None => {
                proof {
                    if holder_ids(holders@).no_duplicates() {
                        lemma_lists_valid(holder_ids(holders@), holder_lists(holders@));
                    }
                }
                return None;
            },
        };
        proof {
            lemma_tokens_before_start(entries@);
            lemma_tokens_before_end(entries@);
        }
        let mut minted_tokens = TokenSet::new();
        let mut i: usize = 0;
        while i < entries.len()
            invariant
                i <= entries.len(),
                entries == &snapshot.channels,
                state == snapshot.state(),
                entries_valid(entries@),
                owners.wf(),
                owners@ == state.owners,
                minted_tokens.wf(),
                minted_tokens@ == tokens_before(entries@, i as int, 0),
                minted_tokens@.subset_of(tokens_owned(owners@)),
            decreases entries.len() - i,
        {
            let id = &entries[i].0;
            let numbers = &entries[i].1.minted_tokens;
            let mut k: usize = 0;
            while k < numbers.len()
                invariant
                    i < entries.len(),
                    k <= numbers.len(),
                    entries == &snapshot.channels,
                    id == &entries[i as int].0,
                    numbers == &entries[i as int].1.minted_tokens,
                    state == snapshot.state(),
                    entries_valid(entries@),
                    owners.wf(),
                    owners@ == state.owners,
                    minted_tokens.wf(),
                    minted_tokens@ == tokens_before(entries@, i as int, k as int),
                    minted_tokens@.subset_of(tokens_owned(owners@)),
                decreases numbers.len() - k,
            {
                let token = token_id(id.as_str(), numbers[k]);
                assert(token@ == token_at(entries@, i as int, k as int));
                if !owners.anyone_holds(&token) {
                    proof {
                        lemma_token_at_issued(entries@, i as int, k as int);
                        if state.wf() {
                            assert(tokens_owned(state.owners).contains(token@));
                        }
                    }
                    return None;
                }
                proof {
                    lemma_tokens_before_step(entries@, i as int, k as int);
                }
                minted_tokens.insert(token);
                k += 1;
            }
            proof {
                lemma_tokens_before_next(entries@, i as int);
            }
            i += 1;
        }
        assert(minted_tokens@ == state.minted_tokens);
        let ghost ids = holder_ids(holders@);
        let ghost lists = holder_lists(holders@);
        let mut j: usize = 0;
        while j < holders.len()
            invariant
                j <= holders.len(),
                holders == &snapshot.owners,
                state == snapshot.state(),
                ids == holder_ids(holders@),
                lists == holder_lists(holders@),
                lists_valid(ids, lists),
                minted_tokens@ == state.minted_tokens,
                forall|x: int, y: int|
                    0 <= x < j && 0 <= y < lists[x].len() ==> minted_tokens@.contains(
                        #[trigger] lists[x][y],
                    ),
            decreases holders.len() - j,
        {
            let list = &holders[j].1;
            assert(lists[j as int] == list.deep_view());
            let mut a: usize = 0;
            while a < list.len()
                invariant
                    j < holders.len(),
                    a <= list.len(),
                    holders == &snapshot.owners,
                    list == &holders[j as int].1,
                    state == snapshot.state(),
                    ids == holder_ids(holders@),
                    lists == holder_lists(holders@),
                    lists[j as int] == list.deep_view(),
                    lists_valid(ids, lists),
                    minted_tokens@ == state.minted_tokens,
                    forall|y: int| 0 <= y < a ==> minted_tokens@.contains(#[trigger] lists[j as int][y]),
                decreases list.len() - a,
            {
                if !minted_tokens.contains(&list[a]) {
                    proof {
                        lemma_assoc_at(ids, lists, j as int);
                        assert(lists[j as int][a as int] == list[a as int]@);
                        assert(held_in(state.owners, ids[j as int], list[a as int]@));
                        assert(tokens_owned(state.owners).contains(list[a as int]@));
                    }
                    return None;
                }
                a += 1;
            }
            j += 1;
        }
        let contract = Contract {
            owner_id: snapshot.owner_id.clone(),
            metadata: snapshot.metadata.duplicate(),
            channels,
            minted_tokens,
            owners,
        };
        proof {
            channels.lemma_wf();
            owners.lemma_wf();
            let s = contract@;
            assert(s == state);
            assert forall|t: Seq<char>| s.minted_tokens.contains(t) <==> tokens_owned(
                s.owners,
            ).contains(t) by {
                if tokens_owned(s.owners).contains(t) {
                    let o = choose|o: Seq<char>| #[trigger] held_in(s.owners, o, t);
                    let x = ids.index_of(o);
                    lemma_assoc_at(ids, lists, x);
                    let y = lists[x].index_of(t);
                    assert(minted_tokens@.contains(lists[x][y]));
                }
            }
            assert(s.minted_tokens =~= tokens_owned(s.owners));
        }
        Some(contract)
    }

    /// The authority of the ledger.
    pub fn owner_id(&self) -> (r: &AccountId)
        ensures
            r@ == self@.owner_id,
    {
        &self.owner_id
    }

    /// The channels of the ledger.
    pub fn channels(&self) -> (r: &ChannelLedger)
        requires
            self.wf(),
        ensures
            r.wf(),
            r@ == self@.channels,
    {
        &self.channels
    }

    /// The set of minted tokens.
    pub fn minted_tokens(&self) -> (r: &TokenSet)
        requires
            self.wf(),
        ensures
            r.wf(),
            r@ == self@.minted_tokens,
    {
        &self.minted_tokens
    }

    /// The ownership index.
    pub fn owners(&self) -> (r: &OwnerIndex)
        requires
            self.wf(),
        ensures
            r.wf(),
            r@ == self@.owners,
    {
        &self.owners
    }

    /// What the ledger says of itself.
    pub fn nft_metadata(&self) -> (r: NFTContractMetadata)
        ensures
            r@ == self@.metadata,
    {
        self.metadata.duplicate()
    }

    /// Creates the channel `channel_id` with the commitment root and the
    /// metadata given. The first token number of the channel is one, and no
    /// token is minted. The identifier is taken as it is.
    ///
    /// Fails with `Unauthorized` when `caller` is not the authority, and
    /// with `DuplicateChannel` when the channel exists already.
    pub fn create_channel(
        &mut self,
        caller: &AccountId,
        channel_id: String,
        merkle_root: Vec<u8>,
        metadata: ChannelMetadata,
    ) -> (r: Result<(), LedgerError>)
        requires
            old(self).wf(),
        ensures
            final(self).wf(),
            r == old(self)@.create_channel_outcome(caller@, channel_id@),
            r is Ok ==> final(self)@ == old(self)@.after_create_channel(
                channel_id@,
                merkle_root@,
                metadata@,
            ),
            r is Err ==> *final(self) == *old(self),
            final(self)@ == apply(
                old(self)@,
                (Operation::CreateChannel {
                    caller: caller@,
                    id: channel_id@,
                    merkle_root: merkle_root@,
                    metadata: metadata@,
                }),
            ),
    {
        if *caller != self.owner_id {
            return Err(LedgerError::Unauthorized);
        }
        proof {
            if !self@.channels.contains_key(channel_id@) {
                theorem_create_channel_wf(self@, channel_id@, merkle_root@, metadata@);
            }
        }
        self.channels.create(channel_id, merkle_root, metadata)
    }

    /// Gives the channel `channel_id` a new commitment root, new metadata,
    /// or both; what is `None` stays as it is.
    ///
    /// Fails with `Unauthorized` when `caller` is not the authority, and
    /// with `ChannelNotFound` when there is no such channel.
    pub fn update_channel(
        &mut self,
        caller: &AccountId,
        channel_id: String,
        merkle_root: Option<Vec<u8>>,
        metadata: Option<ChannelMetadata>,
    ) -> (r: Result<(), LedgerError>)
        requires
            old(self).wf(),
        ensures
            final(self).wf(),
            r == old(self)@.update_channel_outcome(caller@, channel_id@),
            r is Ok ==> final(self)@ == old(self)@.after_update_channel(
                channel_id@,
                opt_bytes(merkle_root),
                metadata_view(metadata),
            ),
            r is Err ==> *final(self) == *old(self),
            final(self)@ == apply(
                old(self)@,
                (Operation::UpdateChannel {
                    caller: caller@,
                    id: channel_id@,
                    new_root: opt_bytes(merkle_root),
                    new_metadata: metadata_view(metadata),
                }),
            ),
    {
        if *caller != self.owner_id {
            return Err(LedgerError::Unauthorized);
        }
        if self.channels.get(&channel_id).is_none() {
            return Err(LedgerError::ChannelNotFound);
        }
        proof {
            theorem_update_channel_wf(
                self@,
                channel_id@,
                opt_bytes(merkle_root),
                metadata_view(metadata),
            );
        }
        if let Some(root) = merkle_root {
            self.channels.set_root(&channel_id, root);
        }
        if let Some(m) = metadata {
            self.channels.set_metadata(&channel_id, m);
        }
        assert(self.channels@ =~= old(self)@.after_update_channel(
            channel_id@,
            opt_bytes(merkle_root),
            metadata_view(metadata),
        ).channels);
        Ok(())
    }

    /// Replaces the commitment root of the channel `channel_id`. Only
    /// proofs for mints to come are checked against the new root.
    ///
    /// Fails with `Unauthorized` when `caller` is not the authority, and
    /// with `ChannelNotFound` when there is no such channel.
    pub fn update_merkle_root(
        &mut self,
        caller: &AccountId,
        channel_id: String,
        new_merkle_root: Vec<u8>,
    ) -> (r: Result<(), LedgerError>)
        requires
            old(self).wf(),
        ensures
            final(self).wf(),
            r == old(self)@.update_channel_outcome(caller@, channel_id@),
            r is Ok ==> final(self)@ == old(self)@.after_update_channel(
                channel_id@,
                Some(new_merkle_root@),
                None,
            ),
            r is Err ==> *final(self) == *old(self),
            final(self)@ == apply(
                old(self)@,
                (Operation::UpdateChannel {
                    caller: caller@,
                    id: channel_id@,
                    new_root: Some(new_merkle_root@),
                    new_metadata: None,
                }),
            ),
    {
        self.update_channel(caller, channel_id, Some(new_merkle_root), None)
    }

    /// Checks a membership proof for the token identifier `token_id`
    /// against `root`: the leaf input is the UTF-8 bytes of the identifier.
    pub fn verify_merkle_proof(&self, root: &[u8], token_id: &str, proof: &Vec<Vec<u8>>) -> (ok:
        bool)
        ensures
            ok == proof_accepted(root@, encode_utf8(token_id@), proof.deep_view()),
    {
        verify(root, token_id.as_bytes(), proof)
    }

    /// Mints the next token of the channel `channel_id` to `receiver_id` and
    /// returns its identifier.
    ///
    /// The first token of a channel needs no proof; a proof that comes with
    /// it is not looked at. Every later token needs a proof that leads from
    /// the bytes of its identifier to the channel's commitment root.
    ///
    /// Fails with `ChannelNotFound` when there is no such channel, with
    /// `SupplyExhausted` when the channel's next number is the largest that
    /// the counter can hold, with `ProofRequired` when a later token comes
    /// without a proof, and with `InvalidProof` when the proof does not lead
    /// to the root.
    ///
    /// On success the channel's next number goes up by one, and the number
    /// of the new token is one that no live token of the channel has.
    pub fn nft_mint(
        &mut self,
        channel_id: String,
        proof: Option<Vec<Vec<u8>>>,
        receiver_id: AccountId,
    ) -> (r: Result<TokenId, LedgerError>)
        requires
            old(self).wf(),
        ensures
            final(self).wf(),
            match r {
                Ok(token) => old(self)@.mint_outcome(channel_id@, proof_view(proof)) == Ok::<
                    Seq<char>,
                    LedgerError,
                >(token@),
                Err(e) => old(self)@.mint_outcome(channel_id@, proof_view(proof)) == Err::<
                    Seq<char>,
                    LedgerError,
                >(e),
            },
            r is Ok ==> final(self)@ == old(self)@.after_mint(channel_id@, receiver_id@),
            r is Ok ==> final(self)@.channels[channel_id@].next_token_number == old(
                self,
            )@.channels[channel_id@].next_token_number + 1,
            r is Ok ==> !old(self)@.channels[channel_id@].minted_numbers.contains(
                old(self)@.channels[channel_id@].next_token_number,
            ),
            r is Ok ==> !old(self)@.minted_tokens.contains(r->Ok_0@),
            r is Err ==> *final(self) == *old(self),
            final(self)@ == apply(
                old(self)@,
                (Operation::Mint {
                    id: channel_id@,
                    proof: proof_view(proof),
                    receiver: receiver_id@,
                }),
            ),
    {
        let channel = match self.channels.get(&channel_id) {
            Some(channel) => channel,
            None => {
                return Err(LedgerError::ChannelNotFound);
            },
        };
        let n = channel.next_token_number;
        if n == u64::MAX {
            return Err(LedgerError::SupplyExhausted);
        }
        let token = token_id(channel_id.as_str(), n);
        if n > 1 {
            let supplied: &Option<Vec<Vec<u8>>> = &proof;
            match supplied {
                None => {
                    return Err(LedgerError::ProofRequired);
                },
                Some(siblings) => {
                    if !verify(channel.merkle_root.as_slice(), token.as_str().as_bytes(), siblings) {
                        return Err(LedgerError::InvalidProof);
                    }
                },
            }
        }
        proof {
            self.channels.lemma_wf();
            lemma_issue_wf(self@.channels[channel_id@]);
            lemma_next_token_is_new(self@, channel_id@);
            theorem_mint_wf(self@, channel_id@, receiver_id@);
        }
        self.channels.issue(&channel_id);
        self.minted_tokens.insert(token.clone());
        self.owners.assign(token.clone(), receiver_id);
        Ok(token)
    }

    /// Whether `token_id` is minted and not burned.
    pub fn is_minted(&self, token_id: TokenId) -> (r: bool)
        ensures
            r == self@.minted_tokens.contains(token_id@),
    {
        self.minted_tokens.contains(&token_id)
    }

    /// The number that the next token of the channel `channel_id` gets, or
    /// `None` when there is no such channel.
    pub fn get_next_token_number(&self, channel_id: String) -> (r: Option<u64>)
        requires
            self.wf(),
        ensures
            r == if self@.channels.contains_key(channel_id@) {
                Some(self@.channels[channel_id@].next_token_number)
            } else {
                None
            },
    {
        match self.channels.get(&channel_id) {
            Some(channel) => Some(channel.next_token_number),
            None => None,
        }
    }

    /// What the channel `channel_id` shows to readers, or `None` when there
    /// is no such channel.
    pub fn get_channel_info(&self, channel_id: String) -> (r: Option<ChannelView>)
        requires
            self.wf(),
        ensures
            match r {
                Some(info) => self@.channels.contains_key(channel_id@) && info.shows(
                    self@.channels[channel_id@],
                ),
                None => !self@.channels.contains_key(channel_id@),
            },
    {
        match self.channels.get(&channel_id) {
            Some(channel) => Some(channel.info()),
            None => None,
        }
    }

    /// The display record of the token that `token_id` names, or `None`
    /// when the text is not a well-formed token identifier or its channel
    /// does not exist.
    pub fn nft_token(&self, token_id: TokenId) -> (r: Option<JsonToken>)
        requires
            self.wf(),
        ensures
            match r {
                Some(token) => token_view(self@, token_id@) == Some(token@),
                None => token_view(self@, token_id@) is None,
            },
    {
        let (channel_id, n) = match parse_token_id(token_id.as_str()) {
            None => {
                return None;
            },
            Some(parts) => parts,
        };
        match self.channels.get(&channel_id) {
            None => None,
            Some(channel) => {
                let metadata = channel.metadata.token_metadata(n);
                Some(JsonToken { token_id, metadata })
            },
        }
    }

    /// Moves `token_id` from `sender_id` to `receiver_id`.
    ///
    /// Fails with `InvalidTokenId` when the text is not a well-formed token
    /// identifier; else with `SameAccount` when sender and receiver are the
    /// same account, whoever holds the token; else with `NotOwner` when the
    /// sender does not hold the token.
    pub fn nft_transfer(
        &mut self,
        sender_id: &AccountId,
        receiver_id: AccountId,
        token_id: TokenId,
    ) -> (r: Result<(), LedgerError>)
        requires
            old(self).wf(),
        ensures
            final(self).wf(),
            r == old(self)@.transfer_outcome(sender_id@, receiver_id@, token_id@),
            r is Ok ==> final(self)@ == old(self)@.after_transfer(
                sender_id@,
                receiver_id@,
                token_id@,
            ),
            r is Err ==> *final(self) == *old(self),
            final(self)@ == apply(
                old(self)@,
                (Operation::Transfer {
                    sender: sender_id@,
                    receiver: receiver_id@,
                    token: token_id@,
                }),
            ),
    {
        if parse_token_id(token_id.as_str()).is_none() {
            return Err(LedgerError::InvalidTokenId);
        }
        proof {
            if self@.holds(sender_id@, token_id@) {
                theorem_transfer_wf(self@, sender_id@, receiver_id@, token_id@);
            }
        }
        self.owners.transfer(token_id, sender_id, receiver_id)
    }

    /// Burns `token_id`: it leaves the minted tokens, the live numbers of
    /// its channel and the list of its owner, and the channel's supply goes
    /// down by one. The channel's next number stays.
    ///
    /// Fails with `InvalidTokenId` when the text is not a well-formed token
    /// identifier; else with `TokenNotFound` when the token is not minted;
    /// else with `NotOwner` when `caller` does not hold the token.
    pub fn nft_burn(&mut self, caller: &AccountId, token_id: TokenId) -> (r: Result<
        (),
        LedgerError,
    >)
        requires
            old(self).wf(),
        ensures
            final(self).wf(),
            r == old(self)@.burn_outcome(caller@, token_id@),
            r is Ok ==> final(self)@ == old(self)@.after_burn(caller@, token_id@),
            r is Ok ==> !final(self)@.minted_tokens.contains(token_id@),
            r is Err ==> *final(self) == *old(self),
            final(self)@ == apply(
                old(self)@,
                (Operation::Burn { caller: caller@, token: token_id@ }),
            ),
    {
        let (channel_id, n) = match parse_token_id(token_id.as_str()) {
            None => {
                return Err(LedgerError::InvalidTokenId);
            },
            Some(parts) => parts,
        };
        if !self.minted_tokens.contains(&token_id) {
            return Err(LedgerError::TokenNotFound);
        }
        if !self.owners.holds(caller, &token_id) {
            return Err(LedgerError::NotOwner);
        }
        proof {
            lemma_minted_token_parses(self@, token_id@);
            theorem_burn_wf(self@, caller@, token_id@);
        }
        let _ = self.owners.release(&token_id, caller);
        self.minted_tokens.remove(&token_id);
        self.channels.retire(&channel_id, n);
        Ok(())
    }

    /// A page of the display records of the tokens that `account_id` holds,
    /// in the order in which the tokens arrived: the page starts
    /// `from_index` tokens in (at the first token when it is `None`) and
    /// covers at most `limit` tokens (50 when it is `None`). A token without
    /// a display record is left out. An unknown account gives the empty list.
    pub fn nft_tokens_for_owner(
        &self,
        account_id: AccountId,
        from_index: Option<u128>,
        limit: Option<u64>,
    ) -> (r: Vec<JsonToken>)
        requires
            self.wf(),
        ensures
            views_of(r@) == token_views(
                self@,
                page(
                    tokens_held(self@.owners, account_id@),
                    match from_index {
                        Some(start) => start as nat,
                        None => 0,
                    },
                    match limit {
                        Some(l) => l as nat,
                        None => 50,
                    },
                ),
            ),
    {
        let start: u128 = match from_index {
            Some(start) => start,
            None => 0,
        };
        let limit: u64 = match limit {
            Some(l) => l,
            None => 50,
        };
        let tokens = self.owners.query(&account_id, start, limit);
        let mut out: Vec<JsonToken> = Vec::new();
        let mut k: usize = 0;
        assert(tokens.deep_view().take(0) =~= Seq::<Seq<char>>::empty());
        assert(views_of(out@) =~= Seq::<JsonTokenView>::empty());
        while k < tokens.len()
            invariant
                self.wf(),
                k <= tokens.len(),
                views_of(out@) == token_views(self@, tokens.deep_view().take(k as int)),
            decreases tokens.len() - k,
        {
            let ghost prefix = tokens.deep_view().take(k + 1);
            assert(prefix.drop_last() =~= tokens.deep_view().take(k as int));
            assert(prefix.last() == tokens[k as int]@);
            let ghost before = out@;
            match self.nft_token(tokens[k].clone()) {
                Some(token) => {
                    out.push(token);
                    assert(views_of(out@) =~= views_of(before).push(token@));
                },
                None => {},
            }
            k += 1;
        }
        assert(tokens.deep_view().take(k as int) =~= tokens.deep_view());
        out
    }

    /// How many tokens `account_id` holds.
    pub fn nft_supply_for_owner(&self, account_id: AccountId) -> (r: u128)
        requires
            self.wf(),
        ensures
            r == tokens_held(self@.owners, account_id@).len(),
    {
        self.owners.count(&account_id) as u128
    }
}

} // verus!
