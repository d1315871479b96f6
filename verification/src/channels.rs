use vstd::prelude::*;
use crate::assoc::{assoc, lemma_assoc_at, lemma_assoc_push, lemma_assoc_update};
use crate::channel::{Channel, ChannelState};
use crate::error::LedgerError;
use crate::keys::{lemma_deep_view_push, position};
use crate::metadata::ChannelMetadata;
use crate::state::channels_wf;

verus! {

/// The states of a list of channels.
pub open spec fn states(channels: Seq<Channel>) -> Seq<ChannelState> {
    channels.map_values(|c: Channel| c@)
}

/// Whether every channel of a list keeps its own invariant.
pub open spec fn each_wf(channels: Seq<Channel>) -> bool {
    forall|i: int| 0 <= i < channels.len() ==> (#[trigger] channels[i]).wf()
}

/// The identifiers of a list of channels with their identifiers.
pub open spec fn entry_ids(entries: Seq<(String, Channel)>) -> Seq<Seq<char>> {
    entries.map_values(|e: (String, Channel)| e.0@)
}

/// The states of a list of channels with their identifiers.
pub open spec fn entry_states(entries: Seq<(String, Channel)>) -> Seq<ChannelState> {
    entries.map_values(|e: (String, Channel)| e.1@)
}

/// Whether a list of channels with their identifiers can be the channels
/// of a ledger: no identifier comes twice, and every channel keeps its
/// invariant.
pub open spec fn entries_valid(entries: Seq<(String, Channel)>) -> bool {
    &&& entry_ids(entries).no_duplicates()
    &&& forall|i: int| 0 <= i < entries.len() ==> (#[trigger] entries[i]).1.wf()
}

/// The channels that a valid list of channels stands for are well formed.
pub proof fn lemma_entries_wf(entries: Seq<(String, Channel)>)
    requires
        entries_valid(entries),
    ensures
        channels_wf(assoc(entry_ids(entries), entry_states(entries))),
{
    let ids = entry_ids(entries);
    let sts = entry_states(entries);
    assert forall|id: Seq<char>| #[trigger] assoc(ids, sts).contains_key(id) implies assoc(
        ids,
        sts,
    )[id].wf() by {
        let i = ids.index_of(id);
        assert(entries[i].1.wf());
    }
}

/// The channels of the ledger, by identifier. A channel is never removed.
pub struct ChannelLedger {
    ids: Vec<String>,
    channels: Vec<Channel>,
}

impl View for ChannelLedger {
    type V = Map<Seq<char>, ChannelState>;

    closed spec fn view(&self) -> Map<Seq<char>, ChannelState> {
        assoc(self.ids.deep_view(), states(self.channels@))
    }
}

impl ChannelLedger {
    /// The invariant: each identifier is stored once, with a well-formed channel.
    pub closed spec fn wf(&self) -> bool {
        &&& self.ids.len() == self.channels.len()
        &&& self.ids.deep_view().no_duplicates()
        &&& each_wf(self.channels@)
        &&& channels_wf(self@)
    }

    /// What well-formedness says of the channels as a map.
    pub proof fn lemma_wf(&self)
        requires
            self.wf(),
        ensures
            channels_wf(self@),
    {
    }

    /// The ledger without any channel.
    pub fn new() -> (r: ChannelLedger)
        ensures
            r.wf(),
            r@ == Map::<Seq<char>, ChannelState>::empty(),
    {
        let r = ChannelLedger { ids: Vec::new(), channels: Vec::new() };
        assert(r.ids.deep_view() =~= Seq::<Seq<char>>::empty());
        assert(r@ =~= Map::<Seq<char>, ChannelState>::empty());
        r
    }

    /// Builds the ledger of the channels listed, or returns `None` when the
    /// list is not valid.
    pub fn from_entries(entries: &Vec<(String, Channel)>) -> (r: Option<ChannelLedger>)
        ensures
            match r {
                Some(ledger) => entries_valid(entries@) && ledger.wf() && ledger@ == assoc(
                    entry_ids(entries@),
                    entry_states(entries@),
                ),
                None => !entries_valid(entries@),
            },
    {
        let mut ids: Vec<String> = Vec::new();
        let mut channels: Vec<Channel> = Vec::new();
        let mut i: usize = 0;
        assert(ids.deep_view() =~= entry_ids(entries@).take(0));
        assert(states(channels@) =~= entry_states(entries@).take(0));
        while i < entries.len()
            invariant
                i <= entries.len(),
                ids.len() == i,
                channels.len() == i,
                ids.deep_view() == entry_ids(entries@).take(i as int),
                states(channels@) == entry_states(entries@).take(i as int),
                ids.deep_view().no_duplicates(),
                each_wf(channels@),
                forall|k: int| 0 <= k < i ==> (#[trigger] entries@[k]).1.wf(),
            decreases entries.len() - i,
        {
            let entry = &entries[i];
            if !entry.1.is_wf() {
                return None;
            }
            match position(&ids, &entry.0) {
                Some(j) => {
                    assert(entry_ids(entries@)[j as int] == entry_ids(entries@)[i as int]);
                    return None;
                },
                None => {},
            }
            let ghost ids_before = ids;
            let ghost channels_before = channels@;
            let id = entry.0.clone();
            let channel = entry.1.duplicate();
            ids.push(id);
            channels.push(channel);
            proof {
                lemma_deep_view_push(ids_before, ids, id);
                assert(ids.deep_view() =~= entry_ids(entries@).take(i + 1));
                assert(states(channels@) =~= entry_states(entries@).take(i + 1));
                assert forall|k: int| 0 <= k < channels@.len() implies (#[trigger] channels@[k]).wf() by {
                    if k < i {
                        assert(channels@[k] == channels_before[k]);
                    }
                }
            }
            i += 1;
        }
        assert(entry_ids(entries@).take(i as int) =~= entry_ids(entries@));
        assert(entry_states(entries@).take(i as int) =~= entry_states(entries@));
        proof {
            lemma_entries_wf(entries@);
        }
        Some(ChannelLedger { ids, channels })
    }

    /// The channels of the ledger with their identifiers, as a valid list.
    pub fn entries(&self) -> (r: Vec<(String, Channel)>)
        requires
            self.wf(),
        ensures
            entries_valid(r@),
            assoc(entry_ids(r@), entry_states(r@)) == self@,
    {
        let mut out: Vec<(String, Channel)> = Vec::new();
        let mut i: usize = 0;
        assert(entry_ids(out@) =~= self.ids.deep_view().take(0));
        assert(entry_states(out@) =~= states(self.channels@).take(0));
        while i < self.ids.len()
            invariant
                self.wf(),
                i <= self.ids.len(),
                out.len() == i,
                entry_ids(out@) == self.ids.deep_view().take(i as int),
                entry_states(out@) == states(self.channels@).take(i as int),
                forall|k: int| 0 <= k < i ==> (#[trigger] out@[k]).1.wf(),
            decreases self.ids.len() - i,
        {
            let ghost before = out@;
            let id = self.ids[i].clone();
            let channel = self.channels[i].duplicate();
            assert(self.channels@[i as int].wf());
            out.push((id, channel));
            proof {
                assert(entry_ids(out@) =~= self.ids.deep_view().take(i + 1));
                assert(entry_states(out@) =~= states(self.channels@).take(i + 1));
                assert forall|k: int| 0 <= k < i + 1 implies (#[trigger] out@[k]).1.wf() by {
                    if k < i {
                        assert(out@[k] == before[k]);
                    }
                }
            }
            i += 1;
        }
        assert(self.ids.deep_view().take(i as int) =~= self.ids.deep_view());
        assert(states(self.channels@).take(i as int) =~= states(self.channels@));
        out
    }

    /// The channel with the identifier `id`, if there is one.
    pub fn get(&self, id: &String) -> (r: Option<&Channel>)
        requires
            self.wf(),
        ensures
            match r {
                Some(channel) => self@.contains_key(id@) && channel@ == self@[id@],
                None => !self@.contains_key(id@),
            },
    {
        match position(&self.ids, id) {
            None => None,
            Some(i) => {
                proof {
                    lemma_assoc_at(self.ids.deep_view(), states(self.channels@), i as int);
                }
                Some(&self.channels[i])
            },
        }
    }

    /// Creates the channel `id` with the commitment root and the metadata
    /// given. Fails with `DuplicateChannel`, changing nothing, when a channel
    /// with that identifier exists.
    pub fn create(&mut self, id: String, merkle_root: Vec<u8>, metadata: ChannelMetadata) -> (r:
        Result<(), LedgerError>)
        requires
            old(self).wf(),
        ensures
            final(self).wf(),
            old(self)@.contains_key(id@) ==> r == Err::<(), LedgerError>(
                LedgerError::DuplicateChannel,
            ) && *final(self) == *old(self),
            !old(self)@.contains_key(id@) ==> r == Ok::<(), LedgerError>(()) && final(self)@
                == old(self)@.insert(id@, ChannelState::fresh(merkle_root@, metadata@)),
    {
        let ghost keys = self.ids.deep_view();
        let ghost vals = states(self.channels@);
        if position(&self.ids, &id).is_some() {
            return Err(LedgerError::DuplicateChannel);
        }
        let ghost ids_before = self.ids;
        let channel = Channel::new(merkle_root, metadata);
        self.ids.push(id);
        self.channels.push(channel);
        proof {
            lemma_deep_view_push(ids_before, self.ids, id);
            assert(states(self.channels@) =~= vals.push(channel@));
            lemma_assoc_push(keys, vals, id@, channel@);
        }
        Ok(())
    }

    /// Issues the next token of the channel `id` and returns its number.
    pub fn issue(&mut self, id: &String) -> (n: u64)
        requires
            old(self).wf(),
            old(self)@.contains_key(id@),
            old(self)@[id@].next_token_number < u64::MAX,
        ensures
            final(self).wf(),
            n == old(self)@[id@].next_token_number,
            final(self)@ == old(self)@.insert(id@, old(self)@[id@].after_issue()),
    {
        let ghost keys = self.ids.deep_view();
        let ghost vals = states(self.channels@);
        match position(&self.ids, id) {
            Some(i) => {
                proof {
                    lemma_assoc_at(keys, vals, i as int);
                }
                let n = self.channels[i].issue();
                proof {
                    assert(states(self.channels@) =~= vals.update(
                        i as int,
                        vals[i as int].after_issue(),
                    ));
                    lemma_assoc_update(keys, vals, i as int, vals[i as int].after_issue());
                }
                n
            },
            None => 0,
        }
    }

    /// Burns the live token number `n` of the channel `id`.
    pub fn retire(&mut self, id: &String, n: u64)
        requires
            old(self).wf(),
            old(self)@.contains_key(id@),
            old(self)@[id@].minted_numbers.contains(n),
        ensures
            final(self).wf(),
            final(self)@ == old(self)@.insert(id@, old(self)@[id@].after_retire(n)),
    {
        let ghost keys = self.ids.deep_view();
        let ghost vals = states(self.channels@);
        match position(&self.ids, id) {
            Some(i) => {
                proof {
                    lemma_assoc_at(keys, vals, i as int);
                }
                self.channels[i].retire(n);
                proof {
                    assert(states(self.channels@) =~= vals.update(
                        i as int,
                        vals[i as int].after_retire(n),
                    ));
                    lemma_assoc_update(keys, vals, i as int, vals[i as int].after_retire(n));
                }
            },
            None => {},
        }
    }

    /// Gives the channel `id` another commitment root.
    pub fn set_root(&mut self, id: &String, merkle_root: Vec<u8>)
        requires
            old(self).wf(),
            old(self)@.contains_key(id@),
        ensures
            final(self).wf(),
            final(self)@ == old(self)@.insert(id@, old(self)@[id@].with_root(merkle_root@)),
    {
        let ghost keys = self.ids.deep_view();
        let ghost vals = states(self.channels@);
        match position(&self.ids, id) {
            Some(i) => {
                proof {
                    lemma_assoc_at(keys, vals, i as int);
                }
                self.channels[i].merkle_root = merkle_root;
                proof {
                    assert(states(self.channels@) =~= vals.update(
                        i as int,
                        vals[i as int].with_root(merkle_root@),
                    ));
                    lemma_assoc_update(keys, vals, i as int, vals[i as int].with_root(merkle_root@));
                }
            },
            None => {},
        }
    }

    /// Gives the channel `id` other metadata.
    pub fn set_metadata(&mut self, id: &String, metadata: ChannelMetadata)
        requires
            old(self).wf(),
            old(self)@.contains_key(id@),
        ensures
            final(self).wf(),
            final(self)@ == old(self)@.insert(id@, old(self)@[id@].with_metadata(metadata@)),
    {
        let ghost keys = self.ids.deep_view();
        let ghost vals = states(self.channels@);
        match position(&self.ids, id) {
            Some(i) => {
                proof {
                    lemma_assoc_at(keys, vals, i as int);
                }
                self.channels[i].metadata = metadata;
                proof {
                    assert(states(self.channels@) =~= vals.update(
                        i as int,
                        vals[i as int].with_metadata(metadata@),
                    ));
                    lemma_assoc_update(
                        keys,
                        vals,
                        i as int,
                        vals[i as int].with_metadata(metadata@),
                    );
                }
            },
            None => {},
        }
    }
}

} // verus!
