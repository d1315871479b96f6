use vstd::prelude::*;

verus! {

/// Finds a text among the first `end` texts of a list: the position of one
/// that equals `key`, or `None` when there is none among them.
pub fn position_before(keys: &Vec<String>, key: &String, end: usize) -> (r: Option<usize>)
    requires
        end <= keys.len(),
    ensures
        match r {
            Some(i) => i < end && keys.deep_view()[i as int] == key@,
            None => forall|k: int| 0 <= k < end ==> keys.deep_view()[k] != key@,
        },
{
    let mut i: usize = 0;
    while i < end
        invariant
            i <= end <= keys.len(),
            forall|k: int| 0 <= k < i ==> keys.deep_view()[k] != key@,
        decreases end - i,
    {
        if keys[i] == *key {
            return Some(i);
        }
        i += 1;
    }
    None
}

/// Finds a text in a list of texts: the position of one that equals `key`,
/// or `None` when the list holds none.
pub fn position(keys: &Vec<String>, key: &String) -> (r: Option<usize>)
    ensures
        match r {
            Some(i) => i < keys.len() && keys.deep_view()[i as int] == key@,
            None => !keys.deep_view().contains(key@),
        },
{
    position_before(keys, key, keys.len())
}

/// Copies a list of texts.
pub fn copy_texts(texts: &Vec<String>) -> (r: Vec<String>)
    ensures
        r.deep_view() == texts.deep_view(),
{
    let mut out: Vec<String> = Vec::new();
    let mut i: usize = 0;
    while i < texts.len()
        invariant
            i <= texts.len(),
            out.deep_view() == texts.deep_view().take(i as int),
        decreases texts.len() - i,
    {
        let ghost before = out;
        out.push(texts[i].clone());
        proof {
            lemma_deep_view_push(before, out, texts[i as int]);
            assert(out.deep_view() =~= texts.deep_view().take(i + 1));
        }
        i += 1;
    }
    assert(texts.deep_view().take(i as int) =~= texts.deep_view());
    out
}

/// Appending a text to a list appends its characters to the list's view.
pub proof fn lemma_deep_view_push(before: Vec<String>, after: Vec<String>, s: String)
    requires
        after@ == before@.push(s),
    ensures
        after.deep_view() == before.deep_view().push(s@),
{
    assert(after.deep_view() =~= before.deep_view().push(s@));
}

/// Removing position `i` of a list removes position `i` of the list's view.
pub proof fn lemma_deep_view_remove(before: Vec<String>, after: Vec<String>, i: int)
    requires
        0 <= i < before@.len(),
        after@ == before@.remove(i),
    ensures
        after.deep_view() == before.deep_view().remove(i),
{
    assert(after.deep_view() =~= before.deep_view().remove(i));
}

} // verus!
