use vstd::prelude::*;
use crate::hashing::{sha256, sha256_digest};

verus! {

/// Lexicographic "less than or equal" on byte strings: the first differing
/// byte decides, and a proper prefix sorts before its extensions.
pub open spec fn lex_le(a: Seq<u8>, b: Seq<u8>) -> bool
    decreases a.len(),
{
    if a.len() == 0 {
        true
    } else if b.len() == 0 {
        false
    } else if a[0] != b[0] {
        a[0] < b[0]
    } else {
        lex_le(a.drop_first(), b.drop_first())
    }
}

/// The bytes hashed at one proof step: the smaller of the two strings first,
/// then the larger.
pub open spec fn combined(hash: Seq<u8>, sibling: Seq<u8>) -> Seq<u8> {
    if lex_le(hash, sibling) {
        hash + sibling
    } else {
        sibling + hash
    }
}

/// The hash reached from `hash` after consuming the siblings of `proof` in order.
pub open spec fn fold_proof(hash: Seq<u8>, proof: Seq<Seq<u8>>) -> Seq<u8>
    decreases proof.len(),
{
    if proof.len() == 0 {
        hash
    } else {
        fold_proof(sha256_digest(combined(hash, proof[0])), proof.drop_first())
    }
}

/// The root that a leaf input and a proof lead to.
pub open spec fn merkle_root(leaf_input: Seq<u8>, proof: Seq<Seq<u8>>) -> Seq<u8> {
    fold_proof(sha256_digest(leaf_input), proof)
}

/// Whether `proof` shows that `leaf_input` is committed to by `root`.
pub open spec fn proof_accepted(root: Seq<u8>, leaf_input: Seq<u8>, proof: Seq<Seq<u8>>) -> bool {
    merkle_root(leaf_input, proof) == root
}

/// The lexicographic order is total, and two strings that are each below the
/// other are the same string.
pub proof fn lemma_lex_le_total_antisymmetric(a: Seq<u8>, b: Seq<u8>)
    ensures
        lex_le(a, b) || lex_le(b, a),
        lex_le(a, b) && lex_le(b, a) ==> a == b,
    decreases a.len(),
{
    if a.len() == 0 || b.len() == 0 {
        if lex_le(a, b) && lex_le(b, a) {
            assert(a =~= b);
        }
    } else if a[0] == b[0] {
        lemma_lex_le_total_antisymmetric(a.drop_first(), b.drop_first());
        if lex_le(a, b) && lex_le(b, a) {
            assert(a =~= seq![a[0]] + a.drop_first());
            assert(b =~= seq![b[0]] + b.drop_first());
        }
    }
}

/// A proof step does not depend on which of the two hashes is the running
/// hash and which the sibling: both orders hash the same bytes. A tree built
/// with the smaller-first rule therefore needs no left/right markers.
pub proof fn theorem_combined_symmetric(a: Seq<u8>, b: Seq<u8>)
    ensures
        combined(a, b) == combined(b, a),
{
    lemma_lex_le_total_antisymmetric(a, b);
}

/// A proof is always accepted against the root that the smaller-first rule
/// computes from it, whatever the leaf and however long the proof.
pub proof fn theorem_matching_root_accepted(leaf_input: Seq<u8>, proof: Seq<Seq<u8>>)
    ensures
        proof_accepted(merkle_root(leaf_input, proof), leaf_input, proof),
{
}

/// With an empty proof, acceptance means that the digest of the leaf input is
/// the root itself.
pub proof fn theorem_empty_proof(root: Seq<u8>, leaf_input: Seq<u8>)
    ensures
        proof_accepted(root, leaf_input, Seq::empty()) == (sha256_digest(leaf_input) == root),
{
}

proof fn lemma_lex_le_skip(a: Seq<u8>, b: Seq<u8>, i: int)
    requires
        0 <= i <= a.len(),
        i <= b.len(),
        forall|k: int| 0 <= k < i ==> a[k] == b[k],
    ensures
        lex_le(a, b) == lex_le(a.skip(i), b.skip(i)),
    decreases i,
{
    if i == 0 {
        assert(a.skip(0) =~= a);
        assert(b.skip(0) =~= b);
    } else {
        lemma_lex_le_skip(a.drop_first(), b.drop_first(), i - 1);
        assert(a.drop_first().skip(i - 1) =~= a.skip(i));
        assert(b.drop_first().skip(i - 1) =~= b.skip(i));
    }
}

/// Compares two byte strings lexicographically.
pub fn bytes_le(a: &[u8], b: &[u8]) -> (r: bool)
    ensures
        r == lex_le(a@, b@),
{
    let mut i: usize = 0;
    while i < a.len() && i < b.len()
        invariant
            i <= a.len(),
            i <= b.len(),
            forall|k: int| 0 <= k < i ==> a@[k] == b@[k],
        decreases a.len() - i,
    {
        if a[i] != b[i] {
            proof {
                lemma_lex_le_skip(a@, b@, i as int);
            }
            return a[i] < b[i];
        }
        i += 1;
    }
    proof {
        lemma_lex_le_skip(a@, b@, i as int);
    }
    i == a.len()
}

/// Whether two byte strings are equal.
pub fn bytes_eq(a: &[u8], b: &[u8]) -> (r: bool)
    ensures
        r == (a@ == b@),
{
    if a.len() != b.len() {
        return false;
    }
    let mut i: usize = 0;
    while i < a.len()
        invariant
            i <= a.len(),
            a.len() == b.len(),
            forall|k: int| 0 <= k < i ==> a@[k] == b@[k],
        decreases a.len() - i,
    {
        if a[i] != b[i] {
            return false;
        }
        i += 1;
    }
    assert(a@ =~= b@);
    true
}

/// Concatenates `hash` and `sibling`, the lexicographically smaller one first.
pub fn combine(hash: &[u8], sibling: &[u8]) -> (out: Vec<u8>)
    ensures
        out@ == combined(hash@, sibling@),
{
    let mut out: Vec<u8> = Vec::new();
    if bytes_le(hash, sibling) {
        out.extend_from_slice(hash);
        out.extend_from_slice(sibling);
    } else {
        out.extend_from_slice(sibling);
        out.extend_from_slice(hash);
    }
    out
}

/// Recomputes the root that `leaf_input` and `proof` lead to: the root
/// against which `verify` accepts this leaf input with this proof.
pub fn compute_root(leaf_input: &[u8], proof: &Vec<Vec<u8>>) -> (root: Vec<u8>)
    ensures
        root@ == merkle_root(leaf_input@, proof.deep_view()),
        proof_accepted(root@, leaf_input@, proof.deep_view()),
{
    let mut hash = sha256(leaf_input);
    let mut i: usize = 0;
    assert(proof.deep_view().skip(0) =~= proof.deep_view());
    while i < proof.len()
        invariant
            i <= proof.len(),
            fold_proof(hash@, proof.deep_view().skip(i as int)) == merkle_root(
                leaf_input@,
                proof.deep_view(),
            ),
        decreases proof.len() - i,
    {
        let pair = combine(hash.as_slice(), proof[i].as_slice());
        proof {
            let rest = proof.deep_view().skip(i as int);
            assert(rest[0] == proof[i as int]@);
            assert(rest.drop_first() =~= proof.deep_view().skip(i + 1));
        }
        hash = sha256(pair.as_slice());
        i += 1;
    }
    hash
}

/// Checks a membership proof: `leaf_input` is hashed, each sibling of `proof`
/// is folded in with the smaller-first rule, and the result must equal `root`
/// byte for byte. An empty proof is accepted when the digest of the leaf
/// input is the root itself.
///
/// The answer is a function of the bytes of the three arguments and of
/// nothing else: the same arguments always get the same answer.
pub fn verify(root: &[u8], leaf_input: &[u8], proof: &Vec<Vec<u8>>) -> (ok: bool)
    ensures
        ok == proof_accepted(root@, leaf_input@, proof.deep_view()),
{
    let computed = compute_root(leaf_input, proof);
    bytes_eq(computed.as_slice(), root)
}

} // verus!
