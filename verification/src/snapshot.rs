use vstd::prelude::*;
use crate::assoc::{assoc, lemma_assoc_at};
use crate::channel::{lemma_ascending_set, Channel, ChannelState};
use crate::channels::{entries_valid, entry_ids, entry_states};
use crate::metadata::NFTContractMetadata;
use crate::owners::{holder_ids, holder_lists};
use crate::state::{issued_in, tokens_issued, LedgerState};
use crate::token_id::{theorem_token_id_injective, token_id_of};

verus! {

/// The content of a ledger as plain data, to be stored and read back: the
/// authority, the ledger's metadata, the channels with their identifiers,
/// and the owners with their tokens. The set of minted tokens is not part of
/// it: it is what the channels hold as live.
pub struct Snapshot {
    pub owner_id: String,
    pub metadata: NFTContractMetadata,
    pub channels: Vec<(String, Channel)>,
    pub owners: Vec<(String, Vec<String>)>,
}

impl Snapshot {
    /// The state that the snapshot stands for.
    pub open spec fn state(&self) -> LedgerState {
        let channels = assoc(entry_ids(self.channels@), entry_states(self.channels@));
        LedgerState {
            owner_id: self.owner_id@,
            metadata: self.metadata@,
            channels,
            minted_tokens: tokens_issued(channels),
            owners: assoc(holder_ids(self.owners@), holder_lists(self.owners@)),
        }
    }

    /// Whether the snapshot is one of a well-formed ledger: no channel and
    /// no owner comes twice, every channel keeps its invariant, and the state
    /// that the snapshot stands for is well formed.
    pub open spec fn valid(&self) -> bool {
        &&& entries_valid(self.channels@)
        &&& holder_ids(self.owners@).no_duplicates()
        &&& self.state().wf()
    }
}

/// Whether `(a, b)` is a position of a live number in a list of channels
/// that comes before the position `(i, k)`.
pub open spec fn pair_before(entries: Seq<(String, Channel)>, a: int, b: int, i: int, k: int) -> bool {
    &&& 0 <= a < entries.len()
    &&& 0 <= b < entries[a].1.minted_tokens@.len()
    &&& (a < i || (a == i && b < k))
}

/// The identifier of the token at the position `(a, b)` of a list of channels.
pub open spec fn token_at(entries: Seq<(String, Channel)>, a: int, b: int) -> Seq<char> {
    token_id_of(entries[a].0@, entries[a].1.minted_tokens@[b] as nat)
}

/// The identifiers of the tokens at the positions before `(i, k)`.
pub open spec fn tokens_before(entries: Seq<(String, Channel)>, i: int, k: int) -> Set<Seq<char>> {
    Set::new(
        |t: Seq<char>|
            exists|a: int, b: int| #[trigger]
                pair_before(entries, a, b, i, k) && t == token_at(entries, a, b),
    )
}

/// No position holds a token before the first position.
pub proof fn lemma_tokens_before_start(entries: Seq<(String, Channel)>)
    ensures
        tokens_before(entries, 0, 0) == Set::<Seq<char>>::empty(),
{
    assert(tokens_before(entries, 0, 0) =~= Set::<Seq<char>>::empty());
}

/// The token at a position is not among the tokens at the positions before
/// it, and taking it in gives the tokens before the next position.
pub proof fn lemma_tokens_before_step(entries: Seq<(String, Channel)>, i: int, k: int)
    requires
        entries_valid(entries),
        0 <= i < entries.len(),
        0 <= k < entries[i].1.minted_tokens@.len(),
    ensures
        !tokens_before(entries, i, k).contains(token_at(entries, i, k)),
        tokens_before(entries, i, k + 1) == tokens_before(entries, i, k).insert(
            token_at(entries, i, k),
        ),
{
    let t = token_at(entries, i, k);
    if tokens_before(entries, i, k).contains(t) {
        let (a, b) = choose|a: int, b: int| #[trigger]
            pair_before(entries, a, b, i, k) && t == token_at(entries, a, b);
        theorem_token_id_injective(
            entries[a].0@,
            entries[a].1.minted_tokens@[b] as nat,
            entries[i].0@,
            entries[i].1.minted_tokens@[k] as nat,
        );
        assert(entry_ids(entries)[a] == entry_ids(entries)[i]);
        assert(a == i);
        assert(entries[i].1.wf());
        lemma_ascending_set(entries[i].1.minted_tokens@);
        assert(false);
    }
    assert forall|x: Seq<char>|
        tokens_before(entries, i, k + 1).contains(x) <==> tokens_before(entries, i, k).insert(
            t,
        ).contains(x) by {
        if tokens_before(entries, i, k + 1).contains(x) {
            let (a, b) = choose|a: int, b: int| #[trigger]
                pair_before(entries, a, b, i, k + 1) && x == token_at(entries, a, b);
            if !(a == i && b == k) {
                assert(pair_before(entries, a, b, i, k));
            }
        }
        if tokens_before(entries, i, k).contains(x) {
            let (a, b) = choose|a: int, b: int| #[trigger]
                pair_before(entries, a, b, i, k) && x == token_at(entries, a, b);
            assert(pair_before(entries, a, b, i, k + 1));
        }
        if x == t {
            assert(pair_before(entries, i, k, i, k + 1));
        }
    }
    assert(tokens_before(entries, i, k + 1) =~= tokens_before(entries, i, k).insert(t));
}

/// The positions before the end of a channel are the positions before the
/// start of the next channel.
pub proof fn lemma_tokens_before_next(entries: Seq<(String, Channel)>, i: int)
    requires
        0 <= i < entries.len(),
    ensures
        tokens_before(entries, i, entries[i].1.minted_tokens@.len() as int) == tokens_before(
            entries,
            i + 1,
            0,
        ),
{
    let k = entries[i].1.minted_tokens@.len() as int;
    assert forall|x: Seq<char>|
        tokens_before(entries, i, k).contains(x) <==> tokens_before(entries, i + 1, 0).contains(
            x,
        ) by {
        if tokens_before(entries, i, k).contains(x) {
            let (a, b) = choose|a: int, b: int| #[trigger]
                pair_before(entries, a, b, i, k) && x == token_at(entries, a, b);
            assert(pair_before(entries, a, b, i + 1, 0));
        }
        if tokens_before(entries, i + 1, 0).contains(x) {
            let (a, b) = choose|a: int, b: int| #[trigger]
                pair_before(entries, a, b, i + 1, 0) && x == token_at(entries, a, b);
            assert(pair_before(entries, a, b, i, k));
        }
    }
    assert(tokens_before(entries, i, k) =~= tokens_before(entries, i + 1, 0));
}

/// The token at a position of a valid list of channels is live in the
/// channels that the list stands for.
pub proof fn lemma_token_at_issued(entries: Seq<(String, Channel)>, a: int, b: int)
    requires
        entries_valid(entries),
        0 <= a < entries.len(),
        0 <= b < entries[a].1.minted_tokens@.len(),
    ensures
        issued_in(
            assoc(entry_ids(entries), entry_states(entries)),
            entries[a].0@,
            entries[a].1.minted_tokens@[b],
        ),
        tokens_issued(assoc(entry_ids(entries), entry_states(entries))).contains(
            token_at(entries, a, b),
        ),
{
    let ids = entry_ids(entries);
    let sts = entry_states(entries);
    lemma_assoc_at(ids, sts, a);
    assert(ids[a] == entries[a].0@);
    assert(sts[a].minted_numbers.contains(entries[a].1.minted_tokens@[b]));
    assert(issued_in(assoc(ids, sts), entries[a].0@, entries[a].1.minted_tokens@[b]));
}

/// The tokens at all positions of a valid list of channels are the tokens
/// that are live in the channels that the list stands for.
pub proof fn lemma_tokens_before_end(entries: Seq<(String, Channel)>)
    requires
        entries_valid(entries),
    ensures
        tokens_before(entries, entries.len() as int, 0) == tokens_issued(
            assoc(entry_ids(entries), entry_states(entries)),
        ),
{
    let ids = entry_ids(entries);
    let sts = entry_states(entries);
    let channels = assoc(ids, sts);
    let end = entries.len() as int;
    assert forall|x: Seq<char>|
        tokens_before(entries, end, 0).contains(x) <==> tokens_issued(channels).contains(x) by {
        if tokens_before(entries, end, 0).contains(x) {
            let (a, b) = choose|a: int, b: int| #[trigger]
                pair_before(entries, a, b, end, 0) && x == token_at(entries, a, b);
            lemma_token_at_issued(entries, a, b);
        }
        if tokens_issued(channels).contains(x) {
            let (id, n) = choose|id: Seq<char>, n: u64| #[trigger]
                issued_in(channels, id, n) && x == token_id_of(id, n as nat);
            let a = ids.index_of(id);
            lemma_assoc_at(ids, sts, a);
            let numbers = entries[a].1.minted_tokens@;
            assert(numbers.to_set().contains(n));
            let b = numbers.index_of(n);
            assert(pair_before(entries, a, b, end, 0));
            assert(x == token_at(entries, a, b));
        }
    }
    assert(tokens_before(entries, end, 0) =~= tokens_issued(channels));
}

} // verus!
