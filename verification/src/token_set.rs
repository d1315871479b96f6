use vstd::prelude::*;
use crate::keys::{lemma_deep_view_push, lemma_deep_view_remove, position};

verus! {

/// A set of token identifiers.
pub struct TokenSet {
    tokens: Vec<String>,
}

impl View for TokenSet {
    type V = Set<Seq<char>>;

    closed spec fn view(&self) -> Set<Seq<char>> {
        self.tokens.deep_view().to_set()
    }
}

impl TokenSet {
    /// The invariant of the representation: no identifier is stored twice.
    pub closed spec fn wf(&self) -> bool {
        self.tokens.deep_view().no_duplicates()
    }

    /// The empty set.
    pub fn new() -> (r: TokenSet)
        ensures
            r.wf(),
            r@ == Set::<Seq<char>>::empty(),
    {
        let r = TokenSet { tokens: Vec::new() };
        assert(r.tokens.deep_view() =~= Seq::<Seq<char>>::empty());
        assert(r@ =~= Set::<Seq<char>>::empty());
        r
    }

    /// Whether `token` is in the set.
    pub fn contains(&self, token: &String) -> (r: bool)
        ensures
            r == self@.contains(token@),
    {
        position(&self.tokens, token).is_some()
    }

    /// How many identifiers the set holds.
    pub fn len(&self) -> (r: usize)
        requires
            self.wf(),
        ensures
            r == self@.len(),
            self@.finite(),
    {
        proof {
            self.tokens.deep_view().unique_seq_to_set();
        }
        self.tokens.len()
    }

    /// Adds `token`, which is not in the set.
    pub fn insert(&mut self, token: String)
        requires
            old(self).wf(),
            !old(self)@.contains(token@),
        ensures
            final(self).wf(),
            final(self)@ == old(self)@.insert(token@),
    {
        let ghost before = self.tokens;
        self.tokens.push(token);
        proof {
            lemma_deep_view_push(before, self.tokens, token);
            let a = before.deep_view();
            let b = self.tokens.deep_view();
            assert(b.no_duplicates());
            assert forall|t: Seq<char>| b.to_set().contains(t) <==> a.to_set().insert(
                token@,
            ).contains(t) by {
                if a.contains(t) {
                    let i = a.index_of(t);
                    assert(b[i] == t);
                }
                if t == token@ {
                    assert(b[a.len() as int] == t);
                }
            }
            assert(b.to_set() =~= a.to_set().insert(token@));
        }
    }

    /// Removes `token`, which is in the set.
    pub fn remove(&mut self, token: &String)
        requires
            old(self).wf(),
            old(self)@.contains(token@),
        ensures
            final(self).wf(),
            final(self)@ == old(self)@.remove(token@),
    {
        let ghost before = self.tokens;
        match position(&self.tokens, token) {
            Some(i) => {
                self.tokens.remove(i);
                proof {
                    lemma_deep_view_remove(before, self.tokens, i as int);
                    let a = before.deep_view();
                    let b = self.tokens.deep_view();
                    assert forall|x: int, y: int|
                        0 <= x < b.len() && 0 <= y < b.len() && x != y implies b[x] != b[y] by {
                        let x1 = if x < i { x } else { x + 1 };
                        let y1 = if y < i { y } else { y + 1 };
                        assert(b[x] == a[x1] && b[y] == a[y1]);
                    }
                    assert forall|t: Seq<char>| b.to_set().contains(t) <==> a.to_set().remove(
                        token@,
                    ).contains(t) by {
                        if b.contains(t) {
                            let x = b.index_of(t);
                            let x1 = if x < i { x } else { x + 1 };
                            assert(a[x1] == t);
                        }
                        if a.contains(t) && t != token@ {
                            let j = a.index_of(t);
                            let j2 = if j < i { j } else { j - 1 };
                            assert(b[j2] == t);
                        }
                    }
                    assert(b.to_set() =~= a.to_set().remove(token@));
                }
            },
            None => {},
        }
    }
}

} // verus!
