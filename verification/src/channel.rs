use vstd::prelude::*;
use vstd::std_specs::convert::FromSpecImpl;
use crate::metadata::{copy_bytes, ChannelMetadata, ChannelMetadataView};

verus! {

/// What the ledger records of one channel.
pub struct ChannelState {
    /// The commitment root that authorises the mints to come.
    pub merkle_root: Seq<u8>,
    /// The number that the next token of the channel gets.
    pub next_token_number: u64,
    /// How many tokens of the channel are minted and not burned.
    pub total_supply: u64,
    /// The numbers of those tokens.
    pub minted_numbers: Set<u64>,
    /// The channel's descriptive metadata.
    pub metadata: ChannelMetadataView,
}

impl ChannelState {
    /// The channel's own invariant: numbers start at one, every live token
    /// has a number below the next one, and the supply counts the live tokens.
    pub open spec fn wf(self) -> bool {
        &&& self.next_token_number >= 1
        &&& self.minted_numbers.finite()
        &&& self.minted_numbers.len() == self.total_supply
        &&& forall|n: u64| #[trigger]
            self.minted_numbers.contains(n) ==> 1 <= n < self.next_token_number
    }

    /// A channel as it is created: nothing minted, the first number is one.
    pub open spec fn fresh(merkle_root: Seq<u8>, metadata: ChannelMetadataView) -> ChannelState {
        ChannelState {
            merkle_root,
            next_token_number: 1,
            total_supply: 0,
            minted_numbers: Set::empty(),
            metadata,
        }
    }

    /// The channel after its next token was issued.
    pub open spec fn after_issue(self) -> ChannelState {
        ChannelState {
            next_token_number: (self.next_token_number + 1) as u64,
            total_supply: (self.total_supply + 1) as u64,
            minted_numbers: self.minted_numbers.insert(self.next_token_number),
            ..self
        }
    }

    /// The channel after its live token number `n` was burned.
    pub open spec fn after_retire(self, n: u64) -> ChannelState {
        ChannelState {
            total_supply: (self.total_supply - 1) as u64,
            minted_numbers: self.minted_numbers.remove(n),
            ..self
        }
    }

    /// The channel with another commitment root.
    pub open spec fn with_root(self, merkle_root: Seq<u8>) -> ChannelState {
        ChannelState { merkle_root, ..self }
    }

    /// The channel with other metadata.
    pub open spec fn with_metadata(self, metadata: ChannelMetadataView) -> ChannelState {
        ChannelState { metadata, ..self }
    }
}

/// Issuing a token keeps the channel well formed, gives the token a number
/// that no live token has, and raises the supply by one.
pub proof fn lemma_issue_wf(s: ChannelState)
    requires
        s.wf(),
        s.next_token_number < u64::MAX,
    ensures
        s.after_issue().wf(),
        !s.minted_numbers.contains(s.next_token_number),
        s.total_supply < s.next_token_number,
        s.after_issue().total_supply == s.total_supply + 1,
        s.after_issue().next_token_number == s.next_token_number + 1,
{
    lemma_supply_below_next(s);
}

/// The supply of a well-formed channel is below its next token number.
pub proof fn lemma_supply_below_next(s: ChannelState)
    requires
        s.wf(),
    ensures
        s.total_supply < s.next_token_number,
{
    let ints = vstd::set_lib::set_int_range(1, s.next_token_number as int);
    vstd::set_lib::lemma_int_range(1, s.next_token_number as int);
    let image = ints.map(|i: int| i as u64);
    ints.lemma_map_finite(|i: int| i as u64);
    vstd::set_lib::lemma_map_size_bound(ints, image, |i: int| i as u64);
    assert forall|n: u64| s.minted_numbers.contains(n) implies image.contains(n) by {
        assert(ints.contains(n as int));
    }
    vstd::set_lib::lemma_len_subset(s.minted_numbers, image);
}

/// Burning a live token keeps the channel well formed and lowers the supply
/// by one.
pub proof fn lemma_retire_wf(s: ChannelState, n: u64)
    requires
        s.wf(),
        s.minted_numbers.contains(n),
    ensures
        s.after_retire(n).wf(),
        s.total_supply >= 1,
        s.after_retire(n).total_supply == s.total_supply - 1,
{
}

/// Whether the numbers of a list go up strictly from each position to the next.
pub open spec fn ascending(numbers: Seq<u64>) -> bool {
    forall|i: int, j: int| 0 <= i < j < numbers.len() ==> numbers[i] < numbers[j]
}

/// A list that goes up strictly holds no number twice, so that it has as
/// many elements as the set of its numbers.
pub proof fn lemma_ascending_set(numbers: Seq<u64>)
    requires
        ascending(numbers),
    ensures
        numbers.no_duplicates(),
        numbers.to_set().finite(),
        numbers.to_set().len() == numbers.len(),
{
    assert(numbers.no_duplicates());
    numbers.unique_seq_to_set();
}

/// One issuance stream: its commitment root, its counters, the numbers of
/// its live tokens in ascending order, and its metadata.
pub struct Channel {
    pub merkle_root: Vec<u8>,
    pub total_supply: u64,
    pub next_token_number: u64,
    pub minted_tokens: Vec<u64>,
    pub metadata: ChannelMetadata,
}

impl View for Channel {
    type V = ChannelState;

    open spec fn view(&self) -> ChannelState {
        ChannelState {
            merkle_root: self.merkle_root@,
            next_token_number: self.next_token_number,
            total_supply: self.total_supply,
            minted_numbers: self.minted_tokens@.to_set(),
            metadata: self.metadata@,
        }
    }
}

impl Channel {
    /// The invariant of a channel: the live numbers are listed in ascending
    /// order, and the state is well formed.
    pub open spec fn wf(&self) -> bool {
        &&& ascending(self.minted_tokens@)
        &&& self@.wf()
    }

    /// Creates a channel with the commitment root and the metadata given.
    pub fn new(merkle_root: Vec<u8>, metadata: ChannelMetadata) -> (c: Channel)
        ensures
            c@ == ChannelState::fresh(merkle_root@, metadata@),
            c.wf(),
    {
        let c = Channel {
            merkle_root,
            total_supply: 0,
            next_token_number: 1,
            minted_tokens: Vec::new(),
            metadata,
        };
        assert(c.minted_tokens@.to_set() =~= Set::<u64>::empty());
        c
    }

    /// Whether the channel is well formed.
    pub fn is_wf(&self) -> (r: bool)
        ensures
            r == self.wf(),
    {
        if self.next_token_number < 1 {
            return false;
        }
        let numbers = &self.minted_tokens;
        let mut i: usize = 0;
        while i < numbers.len()
            invariant
                i <= numbers.len(),
                numbers == &self.minted_tokens,
                ascending(numbers@.take(i as int)),
                forall|k: int| 0 <= k < i ==> 1 <= #[trigger] numbers@[k] < self.next_token_number,
            decreases numbers.len() - i,
        {
            let n = numbers[i];
            if n < 1 || n >= self.next_token_number {
                assert(self@.minted_numbers.contains(n));
                return false;
            }
            if i > 0 && numbers[i - 1] >= n {
                return false;
            }
            proof {
                let shorter = numbers@.take(i as int);
                let longer = numbers@.take(i + 1);
                assert forall|a: int, b: int| 0 <= a < b < longer.len() implies longer[a]
                    < longer[b] by {
                    if b < i {
                        assert(shorter[a] < shorter[b]);
                    } else if a < i - 1 {
                        assert(shorter[a] < shorter[i - 1]);
                    }
                }
            }
            i += 1;
        }
        assert(numbers@.take(i as int) =~= numbers@);
        proof {
            lemma_ascending_set(numbers@);
        }
        self.total_supply == numbers.len() as u64
    }

    /// A copy of the channel.
    pub fn duplicate(&self) -> (r: Channel)
        ensures
            r@ == self@,
            r.minted_tokens@ == self.minted_tokens@,
    {
        let numbers = self.minted_tokens.clone();
        assert(numbers@ =~= self.minted_tokens@);
        Channel {
            merkle_root: copy_bytes(&self.merkle_root),
            total_supply: self.total_supply,
            next_token_number: self.next_token_number,
            minted_tokens: numbers,
            metadata: self.metadata.duplicate(),
        }
    }

    /// Issues the next token of the channel and returns its number.
    pub fn issue(&mut self) -> (n: u64)
        requires
            old(self).wf(),
            old(self)@.next_token_number < u64::MAX,
        ensures
            n == old(self)@.next_token_number,
            final(self)@ == old(self)@.after_issue(),
            final(self).wf(),
    {
        proof {
            lemma_issue_wf(self@);
        }
        let ghost before = self.minted_tokens@;
        let n = self.next_token_number;
        self.minted_tokens.push(n);
        self.next_token_number = n + 1;
        self.total_supply = self.total_supply + 1;
        proof {
            assert forall|k: int| 0 <= k < before.len() implies before[k] < n by {
                assert(before.to_set().contains(before[k]));
            }
            assert(self.minted_tokens@.to_set() =~= before.to_set().insert(n)) by {
                assert forall|x: u64| before.push(n).contains(x) <==> (before.contains(x) || x == n) by {
                    if before.contains(x) {
                        let k = before.index_of(x);
                        assert(before.push(n)[k] == x);
                    }
                    if x == n {
                        assert(before.push(n)[before.len() as int] == n);
                    }
                }
            }
        }
        n
    }

    /// Where the live number `n` stands in the list of live numbers.
    fn find(&self, n: u64) -> (r: Option<usize>)
        ensures
            match r {
                Some(i) => i < self.minted_tokens.len() && self.minted_tokens@[i as int] == n,
                None => !self@.minted_numbers.contains(n),
            },
    {
        let mut i: usize = 0;
        while i < self.minted_tokens.len()
            invariant
                i <= self.minted_tokens.len(),
                forall|k: int| 0 <= k < i ==> self.minted_tokens@[k] != n,
            decreases self.minted_tokens.len() - i,
        {
            if self.minted_tokens[i] == n {
                return Some(i);
            }
            i += 1;
        }
        None
    }

    /// Whether token number `n` of the channel is minted and not burned.
    pub fn has_minted(&self, n: u64) -> (r: bool)
        ensures
            r == self@.minted_numbers.contains(n),
    {
        self.find(n).is_some()
    }

    /// Burns the live token number `n`.
    pub fn retire(&mut self, n: u64)
        requires
            old(self).wf(),
            old(self)@.minted_numbers.contains(n),
        ensures
            final(self)@ == old(self)@.after_retire(n),
            final(self).wf(),
    {
        proof {
            lemma_retire_wf(self@, n);
        }
        let ghost before = self.minted_tokens@;
        match self.find(n) {
            Some(i) => {
                self.minted_tokens.remove(i);
                self.total_supply = self.total_supply - 1;
                proof {
                    let after = self.minted_tokens@;
                    assert forall|a: int, b: int| 0 <= a < b < after.len() implies after[a]
                        < after[b] by {
                        let a1 = if a < i { a } else { a + 1 };
                        let b1 = if b < i { b } else { b + 1 };
                        assert(after[a] == before[a1] && after[b] == before[b1]);
                    }
                    assert forall|x: u64| after.contains(x) <==> (before.contains(x) && x != n) by {
                        if after.contains(x) {
                            let a = after.index_of(x);
                            let a1 = if a < i { a } else { a + 1 };
                            assert(before[a1] == x);
                            if x == n {
                                assert(a1 != i);
                                if a1 < i {
                                    assert(before[a1] < before[i as int]);
                                } else {
                                    assert(before[i as int] < before[a1]);
                                }
                            }
                        }
                        if before.contains(x) && x != n {
                            let j = before.index_of(x);
                            let j2 = if j < i { j } else { j - 1 };
                            assert(after[j2] == x);
                        }
                    }
                    assert(after.to_set() =~= before.to_set().remove(n));
                }
            },
            None => {},
        }
    }

    /// What the channel shows to readers.
    pub fn info(&self) -> (r: ChannelView)
        ensures
            r.shows(self@),
    {
        ChannelView {
            merkle_root: copy_bytes(&self.merkle_root),
            total_supply: self.total_supply,
            next_token_number: self.next_token_number,
            metadata: self.metadata.duplicate(),
        }
    }
}

/// What a channel shows to readers: everything but the set of live numbers.
pub struct ChannelView {
    pub merkle_root: Vec<u8>,
    pub total_supply: u64,
    pub next_token_number: u64,
    pub metadata: ChannelMetadata,
}

impl ChannelView {
    /// Whether this record shows the channel state `s`.
    pub open spec fn shows(&self, s: ChannelState) -> bool {
        &&& self.merkle_root@ == s.merkle_root
        &&& self.total_supply == s.total_supply
        &&& self.next_token_number == s.next_token_number
        &&& self.metadata@ == s.metadata
    }
}

impl From<Channel> for ChannelView {
    /// Turns a channel into what it shows to readers, dropping the set of
    /// live numbers.
    fn from(channel: Channel) -> (r: ChannelView)
        ensures
            r.shows(channel@),
    {
        ChannelView {
            merkle_root: channel.merkle_root,
            total_supply: channel.total_supply,
            next_token_number: channel.next_token_number,
            metadata: channel.metadata,
        }
    }
}

impl FromSpecImpl<Channel> for ChannelView {
    open spec fn obeys_from_spec() -> bool {
        true
    }

    open spec fn from_spec(channel: Channel) -> ChannelView {
        ChannelView {
            merkle_root: channel.merkle_root,
            total_supply: channel.total_supply,
            next_token_number: channel.next_token_number,
            metadata: channel.metadata,
        }
    }
}

} // verus!
