use vstd::prelude::*;
use crate::assoc::{assoc, lemma_assoc_at, lemma_assoc_push, lemma_assoc_remove, lemma_assoc_update};
use crate::error::LedgerError;
use crate::keys::{
    copy_texts, lemma_deep_view_push, lemma_deep_view_remove, position, position_before,
};
use crate::state::{
    held_in, lemma_owners_with, lemma_owners_without, owners_wf, owners_with, owners_without,
    tokens_held, without,
};

verus! {

/// The part of `list` that starts `offset` elements in and holds at most
/// `limit` elements. An offset behind the end gives the empty list.
pub open spec fn page<A>(list: Seq<A>, offset: nat, limit: nat) -> Seq<A> {
    let start = if offset < list.len() {
        offset
    } else {
        list.len()
    };
    let end = if start + limit < list.len() {
        start + limit
    } else {
        list.len()
    };
    list.subrange(start as int, end as int)
}

/// The owners of a list of holdings with their owners.
pub open spec fn holder_ids(entries: Seq<(String, Vec<String>)>) -> Seq<Seq<char>> {
    entries.map_values(|e: (String, Vec<String>)| e.0@)
}

/// The token lists of a list of holdings with their owners.
pub open spec fn holder_lists(entries: Seq<(String, Vec<String>)>) -> Seq<Seq<Seq<char>>> {
    entries.map_values(|e: (String, Vec<String>)| e.1.deep_view())
}

/// Whether owners and token lists can be the content of an ownership index:
/// no owner comes twice, no list is empty or holds a token twice, and no two
/// lists share a token.
pub open spec fn lists_valid(ids: Seq<Seq<char>>, lists: Seq<Seq<Seq<char>>>) -> bool {
    &&& ids.len() == lists.len()
    &&& ids.no_duplicates()
    &&& forall|i: int|
        0 <= i < lists.len() ==> (#[trigger] lists[i]).len() > 0 && lists[i].no_duplicates()
    &&& forall|i: int, j: int, a: int, b: int|
        0 <= i < j < lists.len() && 0 <= a < lists[i].len() && 0 <= b < lists[j].len()
            ==> #[trigger] lists[i][a] != #[trigger] lists[j][b]
}

/// For distinct owners, the lists are valid exactly when the index that
/// they stand for is well formed.
pub proof fn lemma_lists_valid(ids: Seq<Seq<char>>, lists: Seq<Seq<Seq<char>>>)
    requires
        ids.len() == lists.len(),
        ids.no_duplicates(),
    ensures
        lists_valid(ids, lists) <==> owners_wf(assoc(ids, lists)),
{
    let m = assoc(ids, lists);
    assert forall|i: int| 0 <= i < ids.len() implies m.contains_key(#[trigger] ids[i]) && m[ids[i]]
        == lists[i] by {
        lemma_assoc_at(ids, lists, i);
    }
    if lists_valid(ids, lists) {
        assert forall|o: Seq<char>| #[trigger] m.contains_key(o) implies m[o].len() > 0
            && m[o].no_duplicates() by {
            let i = ids.index_of(o);
            assert(m[o] == lists[i]);
        }
        assert forall|o1: Seq<char>, o2: Seq<char>, t: Seq<char>|
            #[trigger] held_in(m, o1, t) && #[trigger] held_in(m, o2, t) implies o1 == o2 by {
            let i = ids.index_of(o1);
            let j = ids.index_of(o2);
            let a = lists[i].index_of(t);
            let b = lists[j].index_of(t);
            if i < j {
                assert(lists[i][a] != lists[j][b]);
            }
            if j < i {
                assert(lists[j][b] != lists[i][a]);
            }
        }
    }
    if owners_wf(m) {
        assert forall|i: int| 0 <= i < lists.len() implies (#[trigger] lists[i]).len() > 0
            && lists[i].no_duplicates() by {
            assert(m.contains_key(ids[i]));
        }
        assert forall|i: int, j: int, a: int, b: int|
            0 <= i < j < lists.len() && 0 <= a < lists[i].len() && 0 <= b < lists[j].len()
                implies #[trigger] lists[i][a] != #[trigger] lists[j][b] by {
            if lists[i][a] == lists[j][b] {
                assert(m[ids[i]] == lists[i] && m[ids[j]] == lists[j]);
                assert(held_in(m, ids[i], lists[i][a]));
                assert(held_in(m, ids[j], lists[i][a]));
            }
        }
    }
}

/// Who holds which token: for each owner the tokens it holds, in the order
/// in which they arrived.
pub struct OwnerIndex {
    owners: Vec<String>,
    holdings: Vec<Vec<String>>,
}

impl View for OwnerIndex {
    type V = Map<Seq<char>, Seq<Seq<char>>>;

    closed spec fn view(&self) -> Map<Seq<char>, Seq<Seq<char>>> {
        assoc(self.owners.deep_view(), self.holdings.deep_view())
    }
}

impl OwnerIndex {
    /// The invariant: each owner is stored once, with a list that is not
    /// empty and holds no token twice, and no token is in two lists.
    pub closed spec fn wf(&self) -> bool {
        &&& self.owners.len() == self.holdings.len()
        &&& self.owners.deep_view().no_duplicates()
        &&& owners_wf(self@)
    }

    /// What well-formedness says of the index as a map.
    pub proof fn lemma_wf(&self)
        requires
            self.wf(),
        ensures
            owners_wf(self@),
    {
    }

    /// The empty index.
    pub fn new() -> (r: OwnerIndex)
        ensures
            r.wf(),
            r@ == Map::<Seq<char>, Seq<Seq<char>>>::empty(),
    {
        let r = OwnerIndex { owners: Vec::new(), holdings: Vec::new() };
        assert(r.owners.deep_view() =~= Seq::<Seq<char>>::empty());
        assert(r@ =~= Map::<Seq<char>, Seq<Seq<char>>>::empty());
        r
    }

    /// Builds the index of the holdings listed, or returns `None` when
    /// they are not valid.
    pub fn from_entries(entries: &Vec<(String, Vec<String>)>) -> (r: Option<OwnerIndex>)
        ensures
            match r {
                Some(index) => lists_valid(holder_ids(entries@), holder_lists(entries@))
                    && index.wf() && index@ == assoc(
                    holder_ids(entries@),
                    holder_lists(entries@),
                ),
                None => !lists_valid(holder_ids(entries@), holder_lists(entries@)),
            },
    {
        let ghost ids = holder_ids(entries@);
        let ghost lists = holder_lists(entries@);
        let mut owners: Vec<String> = Vec::new();
        let mut holdings: Vec<Vec<String>> = Vec::new();
        let mut i: usize = 0;
        assert(owners.deep_view() =~= ids.take(0));
        assert(holdings.deep_view() =~= lists.take(0));
        while i < entries.len()
            invariant
                ids == holder_ids(entries@),
                lists == holder_lists(entries@),
                i <= entries.len(),
                owners.len() == i,
                holdings.len() == i,
                owners.deep_view() == ids.take(i as int),
                holdings.deep_view() == lists.take(i as int),
                lists_valid(ids.take(i as int), lists.take(i as int)),
            decreases entries.len() - i,
        {
            let entry = &entries[i];
            let list = &entry.1;
            assert(lists[i as int] == list.deep_view());
            assert(ids[i as int] == entry.0@);
            match position(&owners, &entry.0) {
                Some(j) => {
                    assert(ids[j as int] == ids[i as int]);
                    return None;
                },
                None => {},
            }
            if list.len() == 0 {
                return None;
            }
            let mut a: usize = 0;
            while a < list.len()
                invariant
                    ids == holder_ids(entries@),
                    lists == holder_lists(entries@),
                    i < entries.len(),
                    holdings.len() == i,
                    holdings.deep_view() == lists.take(i as int),
                    lists[i as int] == list.deep_view(),
                    a <= list.len(),
                    list.deep_view().take(a as int).no_duplicates(),
                    forall|j: int, b: int, c: int|
                        0 <= j < i && 0 <= b < lists[j].len() && 0 <= c < a ==> #[trigger] lists[j][b]
                            != #[trigger] lists[i as int][c],
                decreases list.len() - a,
            {
                let token = &list[a];
                match position_before(list, token, a) {
                    Some(c) => {
                        assert(lists[i as int][c as int] == lists[i as int][a as int]);
                        return None;
                    },
                    None => {},
                }
                let mut j: usize = 0;
                while j < i
                    invariant
                        ids == holder_ids(entries@),
                        lists == holder_lists(entries@),
                        i < entries.len(),
                        holdings.len() == i,
                        holdings.deep_view() == lists.take(i as int),
                        lists[i as int] == list.deep_view(),
                        a < list.len(),
                        token@ == lists[i as int][a as int],
                        j <= i,
                        forall|k: int, b: int|
                            0 <= k < j && 0 <= b < lists[k].len() ==> #[trigger] lists[k][b]
                                != token@,
                    decreases i - j,
                {
                    assert(holdings[j as int].deep_view() == lists[j as int]) by {
                        assert(holdings.deep_view()[j as int] == lists.take(i as int)[j as int]);
                    }
                    match position(&holdings[j], token) {
                        Some(b) => {
                            assert(lists[j as int][b as int] == lists[i as int][a as int]);
                            return None;
                        },
                        None => {},
                    }
                    j += 1;
                }
                proof {
                    let shorter = list.deep_view().take(a as int);
                    let longer = list.deep_view().take(a + 1);
                    assert forall|x: int, y: int|
                        0 <= x < longer.len() && 0 <= y < longer.len() && x != y implies longer[x]
                        != longer[y] by {
                        if x < a && y < a {
                            assert(shorter[x] != shorter[y]);
                        }
                    }
                }
                a += 1;
            }
            assert(list.deep_view().take(a as int) =~= list.deep_view());
            let ghost owners_before = owners;
            let owner = entry.0.clone();
            let copy = copy_texts(list);
            owners.push(owner);
            holdings.push(copy);
            proof {
                lemma_deep_view_push(owners_before, owners, owner);
                assert(owners.deep_view() =~= ids.take(i + 1));
                assert(holdings.deep_view() =~= lists.take(i + 1));
                let ids1 = ids.take(i + 1);
                let lists1 = lists.take(i + 1);
                assert(ids1.no_duplicates()) by {
                    assert forall|x: int, y: int|
                        0 <= x < ids1.len() && 0 <= y < ids1.len() && x != y implies ids1[x]
                        != ids1[y] by {
                        if x < i && y < i {
                            assert(ids.take(i as int)[x] != ids.take(i as int)[y]);
                        } else if x < i {
                            assert(owners_before.deep_view()[x] == ids[x]);
                        } else if y < i {
                            assert(owners_before.deep_view()[y] == ids[y]);
                        }
                    }
                }
                assert forall|k: int| 0 <= k < lists1.len() implies (#[trigger] lists1[k]).len() > 0
                    && lists1[k].no_duplicates() by {
                    if k < i {
                        assert(lists.take(i as int)[k] == lists1[k]);
                    }
                }
                assert forall|x: int, y: int, b: int, c: int|
                    0 <= x < y < lists1.len() && 0 <= b < lists1[x].len() && 0 <= c
                        < lists1[y].len() implies #[trigger] lists1[x][b] != #[trigger] lists1[y][c] by {
                    if y < i {
                        assert(lists.take(i as int)[x][b] != lists.take(i as int)[y][c]);
                    } else {
                        assert(lists[x][b] != lists[i as int][c]);
                    }
                }
            }
            i += 1;
        }
        assert(ids.take(i as int) =~= ids);
        assert(lists.take(i as int) =~= lists);
        proof {
            lemma_lists_valid(ids, lists);
        }
        Some(OwnerIndex { owners, holdings })
    }

    /// The holdings of the index with their owners, as valid lists.
    pub fn entries(&self) -> (r: Vec<(String, Vec<String>)>)
        requires
            self.wf(),
        ensures
            lists_valid(holder_ids(r@), holder_lists(r@)),
            assoc(holder_ids(r@), holder_lists(r@)) == self@,
    {
        let mut out: Vec<(String, Vec<String>)> = Vec::new();
        let mut i: usize = 0;
        assert(holder_ids(out@) =~= self.owners.deep_view().take(0));
        assert(holder_lists(out@) =~= self.holdings.deep_view().take(0));
        while i < self.owners.len()
            invariant
                self.wf(),
                i <= self.owners.len(),
                out.len() == i,
                holder_ids(out@) == self.owners.deep_view().take(i as int),
                holder_lists(out@) == self.holdings.deep_view().take(i as int),
            decreases self.owners.len() - i,
        {
            let owner = self.owners[i].clone();
            let list = copy_texts(&self.holdings[i]);
            out.push((owner, list));
            proof {
                assert(holder_ids(out@) =~= self.owners.deep_view().take(i + 1));
                assert(holder_lists(out@) =~= self.holdings.deep_view().take(i + 1));
            }
            i += 1;
        }
        assert(self.owners.deep_view().take(i as int) =~= self.owners.deep_view());
        assert(self.holdings.deep_view().take(i as int) =~= self.holdings.deep_view());
        proof {
            lemma_lists_valid(self.owners.deep_view(), self.holdings.deep_view());
        }
        out
    }

    /// Whether anybody holds `token`.
    pub fn anyone_holds(&self, token: &String) -> (r: bool)
        requires
            self.wf(),
        ensures
            r == exists|o: Seq<char>| #[trigger] held_in(self@, o, token@),
    {
        let ghost ids = self.owners.deep_view();
        let ghost lists = self.holdings.deep_view();
        let mut i: usize = 0;
        while i < self.holdings.len()
            invariant
                self.wf(),
                ids == self.owners.deep_view(),
                lists == self.holdings.deep_view(),
                i <= self.holdings.len(),
                forall|k: int| 0 <= k < i ==> !(#[trigger] lists[k]).contains(token@),
            decreases self.holdings.len() - i,
        {
            if position(&self.holdings[i], token).is_some() {
                proof {
                    lemma_assoc_at(ids, lists, i as int);
                    assert(held_in(self@, ids[i as int], token@));
                }
                return true;
            }
            i += 1;
        }
        proof {
            assert forall|o: Seq<char>| !#[trigger] held_in(self@, o, token@) by {
                if held_in(self@, o, token@) {
                    let k = ids.index_of(o);
                    lemma_assoc_at(ids, lists, k);
                    assert(lists[k].contains(token@));
                }
            }
        }
        false
    }

    /// Whether `owner` holds `token`.
    pub fn holds(&self, owner: &String, token: &String) -> (r: bool)
        requires
            self.wf(),
        ensures
            r == held_in(self@, owner@, token@),
    {
        match position(&self.owners, owner) {
            None => false,
            Some(i) => {
                proof {
                    lemma_assoc_at(self.owners.deep_view(), self.holdings.deep_view(), i as int);
                }
                position(&self.holdings[i], token).is_some()
            },
        }
    }

    /// How many tokens `owner` holds.
    pub fn count(&self, owner: &String) -> (r: usize)
        requires
            self.wf(),
        ensures
            r == tokens_held(self@, owner@).len(),
    {
        match position(&self.owners, owner) {
            None => 0,
            Some(i) => {
                proof {
                    lemma_assoc_at(self.owners.deep_view(), self.holdings.deep_view(), i as int);
                }
                self.holdings[i].len()
            },
        }
    }

    /// A page of the tokens that `owner` holds, in the order in which they
    /// arrived: at most `limit` tokens, starting `offset` tokens in. An
    /// unknown owner holds nothing.
    pub fn query(&self, owner: &String, offset: u128, limit: u64) -> (r: Vec<String>)
        requires
            self.wf(),
        ensures
            r.deep_view() == page(tokens_held(self@, owner@), offset as nat, limit as nat),
    {
        let mut out: Vec<String> = Vec::new();
        match position(&self.owners, owner) {
            None => {
                assert(out.deep_view() =~= page(
                    tokens_held(self@, owner@),
                    offset as nat,
                    limit as nat,
                ));
            },
            Some(i) => {
                proof {
                    lemma_assoc_at(self.owners.deep_view(), self.holdings.deep_view(), i as int);
                }
                let list = &self.holdings[i];
                let len = list.len();
                let start: usize = if offset < len as u128 {
                    offset as usize
                } else {
                    len
                };
                let end: usize = if limit < (len - start) as u64 {
                    start + limit as usize
                } else {
                    len
                };
                let mut k: usize = start;
                while k < end
                    invariant
                        start <= k <= end <= list.len(),
                        out.deep_view() == list.deep_view().subrange(start as int, k as int),
                    decreases end - k,
                {
                    let ghost before = out;
                    out.push(list[k].clone());
                    proof {
                        lemma_deep_view_push(before, out, list[k as int]);
                        assert(out.deep_view() =~= list.deep_view().subrange(
                            start as int,
                            k + 1,
                        ));
                    }
                    k += 1;
                }
            },
        }
        out
    }

    /// Records `owner` as the holder of `token`, which nobody holds.
    pub fn assign(&mut self, token: String, owner: String)
        requires
            old(self).wf(),
            forall|o: Seq<char>| !#[trigger] held_in(old(self)@, o, token@),
        ensures
            final(self).wf(),
            final(self)@ == owners_with(old(self)@, owner@, token@),
    {
        let ghost keys = self.owners.deep_view();
        let ghost vals = self.holdings.deep_view();
        proof {
            lemma_owners_with(self@, owner@, token@);
        }
        match position(&self.owners, &owner) {
            Some(i) => {
                let ghost list_before = self.holdings[i as int];
                proof {
                    lemma_assoc_at(keys, vals, i as int);
                }
                self.holdings[i].push(token);
                proof {
                    lemma_deep_view_push(list_before, self.holdings[i as int], token);
                    assert(self.holdings.deep_view() =~= vals.update(
                        i as int,
                        vals[i as int].push(token@),
                    ));
                    lemma_assoc_update(keys, vals, i as int, vals[i as int].push(token@));
                }
            },
            None => {
                let ghost owners_before = self.owners;
                let mut list: Vec<String> = Vec::new();
                list.push(token);
                assert(list.deep_view() =~= Seq::<Seq<char>>::empty().push(token@));
                self.owners.push(owner);
                self.holdings.push(list);
                proof {
                    lemma_deep_view_push(owners_before, self.owners, owner);
                    assert(self.holdings.deep_view() =~= vals.push(list.deep_view()));
                    lemma_assoc_push(keys, vals, owner@, list.deep_view());
                }
            },
        }
    }

    /// Takes `token` from `owner`. An owner left with nothing leaves the
    /// index. Fails with `NotOwner`, changing nothing, when `owner` does not
    /// hold `token`.
    pub fn release(&mut self, token: &String, owner: &String) -> (r: Result<(), LedgerError>)
        requires
            old(self).wf(),
        ensures
            final(self).wf(),
            held_in(old(self)@, owner@, token@) ==> r == Ok::<(), LedgerError>(())
                && final(self)@ == owners_without(old(self)@, owner@, token@),
            !held_in(old(self)@, owner@, token@) ==> r == Err::<(), LedgerError>(
                LedgerError::NotOwner,
            ) && *final(self) == *old(self),
    {
        let ghost keys = self.owners.deep_view();
        let ghost vals = self.holdings.deep_view();
        let i = match position(&self.owners, owner) {
            Some(i) => i,
            None => {
                return Err(LedgerError::NotOwner);
            },
        };
        proof {
            lemma_assoc_at(keys, vals, i as int);
        }
        let j = match position(&self.holdings[i], token) {
            Some(j) => j,
            None => {
                return Err(LedgerError::NotOwner);
            },
        };
        proof {
            lemma_owners_without(self@, owner@, token@);
            assert(vals[i as int].index_of(token@) == j);
        }
        if self.holdings[i].len() == 1 {
            let ghost owners_before = self.owners;
            self.owners.remove(i);
            self.holdings.remove(i);
            proof {
                lemma_deep_view_remove(owners_before, self.owners, i as int);
                assert(self.holdings.deep_view() =~= vals.remove(i as int));
                lemma_assoc_remove(keys, vals, i as int);
            }
        } else {
            let ghost list_before = self.holdings[i as int];
            self.holdings[i].remove(j);
            proof {
                lemma_deep_view_remove(list_before, self.holdings[i as int], j as int);
                assert(self.holdings.deep_view() =~= vals.update(
                    i as int,
                    without(vals[i as int], token@),
                ));
                lemma_assoc_update(keys, vals, i as int, without(vals[i as int], token@));
            }
        }
        Ok(())
    }

    /// Moves `token` from `from` to `to`: it leaves the list of `from` and is
    /// added at the end of the list of `to`. Fails with `SameAccount` when
    /// the two are the same account, whoever holds the token, and with
    /// `NotOwner` when `from` does not hold the token. A failed transfer
    /// changes nothing.
    pub fn transfer(&mut self, token: String, from: &String, to: String) -> (r: Result<
        (),
        LedgerError,
    >)
        requires
            old(self).wf(),
        ensures
            final(self).wf(),
            r == transfer_check(old(self)@, from@, to@, token@),
            r is Ok ==> final(self)@ == owners_with(
                owners_without(old(self)@, from@, token@),
                to@,
                token@,
            ),
            r is Err ==> *final(self) == *old(self),
    {
        if *from == to {
            return Err(LedgerError::SameAccount);
        }
        match self.release(&token, from) {
            Err(e) => Err(e),
            Ok(()) => {
                proof {
                    lemma_owners_without(old(self)@, from@, token@);
                }
                self.assign(token, to);
                Ok(())
            },
        }
    }
}

/// Whether an ownership index accepts the transfer of `token` from `from`
/// to `to`.
pub open spec fn transfer_check(
    owners: Map<Seq<char>, Seq<Seq<char>>>,
    from: Seq<char>,
    to: Seq<char>,
    token: Seq<char>,
) -> Result<(), LedgerError> {
    if from == to {
        Err(LedgerError::SameAccount)
    } else if !held_in(owners, from, token) {
        Err(LedgerError::NotOwner)
    } else {
        Ok(())
    }
}

} // verus!
