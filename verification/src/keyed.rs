//! Entries under text keys, in a sequence: where a key stands, and whether
//! each stands once.

use vstd::prelude::*;

verus! {

/// The position of the first entry under `key`, or the number of entries
/// where there is none.
pub open spec fn key_index<V>(s: Seq<(Seq<char>, V)>, key: Seq<char>) -> nat
    decreases s.len(),
{
    if s.len() == 0 || s[0].0 == key {
        0
    } else {
        1 + key_index(s.drop_first(), key)
    }
}

/// Whether no key stands twice.
pub open spec fn distinct_keys<V>(s: Seq<(Seq<char>, V)>) -> bool {
    forall|i: int, j: int| 0 <= i < j < s.len() ==> (#[trigger] s[i]).0 != (#[trigger] s[j]).0
}

/// The position `k` that has `key`, with no entry under it before, is its
/// index.
pub proof fn lemma_key_index_is<V>(s: Seq<(Seq<char>, V)>, key: Seq<char>, k: int)
    requires
        0 <= k <= s.len(),
        forall|j: int| 0 <= j < k ==> (#[trigger] s[j]).0 != key,
        k < s.len() ==> s[k].0 == key,
    ensures
        key_index(s, key) == k,
    decreases s.len(),
{
    if k > 0 {
        assert(s[0].0 != key);
        let rest = s.drop_first();
        assert forall|j: int| 0 <= j < k - 1 implies (#[trigger] rest[j]).0 != key by {
            assert(rest[j] == s[j + 1]);
        }
        lemma_key_index_is(rest, key, k - 1);
    }
}

/// The index of a key is within the entries, no entry before it is under
/// the key, and the entry at it is.
pub proof fn lemma_key_index<V>(s: Seq<(Seq<char>, V)>, key: Seq<char>)
    ensures
        key_index(s, key) <= s.len(),
        forall|j: int| 0 <= j < key_index(s, key) ==> (#[trigger] s[j]).0 != key,
        key_index(s, key) < s.len() ==> s[key_index(s, key) as int].0 == key,
    decreases s.len(),
{
    if s.len() > 0 && s[0].0 != key {
        let rest = s.drop_first();
        lemma_key_index(rest, key);
        assert forall|j: int| 0 <= j < key_index(s, key) implies (#[trigger] s[j]).0 != key by {
            if j > 0 {
                assert(s[j] == rest[j - 1]);
            }
        }
        if key_index(s, key) < s.len() {
            assert(s[key_index(s, key) as int] == rest[key_index(rest, key) as int]);
        }
    }
}

/// In entries with distinct keys, every entry is found under its key.
pub proof fn lemma_key_index_of_entry<V>(s: Seq<(Seq<char>, V)>, i: int)
    requires
        distinct_keys(s),
        0 <= i < s.len(),
    ensures
        key_index(s, s[i].0) == i,
{
    assert forall|j: int| 0 <= j < i implies (#[trigger] s[j]).0 != s[i].0 by {}
    lemma_key_index_is(s, s[i].0, i);
}

} // verus!
