//! The signatures of an artifact: one per key name, in the order in which
//! the names first came.

use crate::keyed::{distinct_keys, key_index, lemma_key_index, lemma_key_index_is};
use crate::outside::encodable;
use crate::text::{chars_of, same, string_of};
use vstd::prelude::*;

verus! {

/// The bytes under `key`, if there are any.
pub open spec fn lookup(s: Seq<(Seq<char>, Seq<u8>)>, key: Seq<char>) -> Option<Seq<u8>> {
    let i = key_index(s, key) as int;
    if i < s.len() {
        Some(s[i].1)
    } else {
        None
    }
}

/// The entries with `bytes` under `key`: in the place of what was under that
/// name, or at the end where the name is new.
pub open spec fn put(s: Seq<(Seq<char>, Seq<u8>)>, key: Seq<char>, bytes: Seq<u8>) -> Seq<
    (Seq<char>, Seq<u8>),
> {
    let i = key_index(s, key) as int;
    if i < s.len() {
        s.update(i, (key, bytes))
    } else {
        s.push((key, bytes))
    }
}

/// Whether every signature can be encoded.
pub open spec fn all_encodable(s: Seq<(Seq<char>, Seq<u8>)>) -> bool {
    forall|i: int| 0 <= i < s.len() ==> encodable((#[trigger] s[i]).1.len())
}

/// Putting bytes under a name leaves the names distinct, and is seen by a
/// lookup of that name and of no other.
pub proof fn lemma_put(s: Seq<(Seq<char>, Seq<u8>)>, key: Seq<char>, bytes: Seq<u8>)
    requires
        distinct_keys(s),
    ensures
        distinct_keys(put(s, key, bytes)),
        lookup(put(s, key, bytes), key) == Some(bytes),
        forall|other: Seq<char>| other != key ==> lookup(put(s, key, bytes), other) == lookup(
            s,
            other,
        ),
{
    let t = put(s, key, bytes);
    let i = key_index(s, key) as int;
    lemma_key_index(s, key);
    assert(distinct_keys(t)) by {
        assert forall|a: int, b: int| 0 <= a < b < t.len() implies (#[trigger] t[a]).0 != (
        #[trigger] t[b]).0 by {
            if i < s.len() {
                assert(t[a].0 == s[a].0 && t[b].0 == s[b].0);
            } else if b < s.len() {
                assert(t[a] == s[a] && t[b] == s[b]);
            } else {
                assert(t[a] == s[a]);
            }
        }
    }
    assert(key_index(t, key) == i) by {
        assert forall|j: int| 0 <= j < i implies (#[trigger] t[j]).0 != key by {
            assert(t[j].0 == s[j].0);
        }
        lemma_key_index_is(t, key, i);
    }
    assert forall|other: Seq<char>| other != key implies lookup(t, other) == lookup(s, other) by {
        lemma_key_index(s, other);
        let k = key_index(s, other) as int;
        assert forall|j: int| 0 <= j < k && j < t.len() implies (#[trigger] t[j]).0 != other by {
            if j < s.len() && j != i {
                assert(t[j] == s[j]);
            }
        }
        if k < s.len() {
            assert(t[k] == s[k]);
            lemma_key_index_is(t, other, k);
        } else {
            lemma_key_index_is(t, other, t.len() as int);
        }
    }
}

/// The signatures of an artifact, one under each key name.
#[derive(Debug)]
pub struct SignatureMap {
    entries: Vec<(Vec<char>, Vec<u8>)>,
}

impl View for SignatureMap {
    type V = Seq<(Seq<char>, Seq<u8>)>;

    closed spec fn view(&self) -> Seq<(Seq<char>, Seq<u8>)> {
        Seq::new(self.entries@.len(), |i: int| (self.entries@[i].0@, self.entries@[i].1@))
    }
}

impl Clone for SignatureMap {
    fn clone(&self) -> (r: Self)
        ensures
            r@ == self@,
    {
        proof {
            use_type_invariant(self);
        }
        let mut entries: Vec<(Vec<char>, Vec<u8>)> = Vec::new();
        let mut i: usize = 0;
        while i < self.entries.len()
            invariant
                i <= self.entries@.len(),
                entries@.len() == i,
                forall|j: int|
                    0 <= j < i ==> (#[trigger] entries@[j]).0@ == self.entries@[j].0@
                        && entries@[j].1@ == self.entries@[j].1@,
            decreases self.entries@.len() - i,
        {
            let name = vstd::slice::slice_to_vec(self.entries[i].0.as_slice());
            let bytes = vstd::slice::slice_to_vec(self.entries[i].1.as_slice());
            entries.push((name, bytes));
            i += 1;
        }
        proof {
            let copy = Seq::new(entries@.len(), |j: int| (entries@[j].0@, entries@[j].1@));
            assert(copy =~= self@);
        }
        SignatureMap { entries }
    }
}

impl SignatureMap {
    #[verifier::type_invariant]
    spec fn sound(self) -> bool {
        distinct_keys(self@) && all_encodable(self@)
    }

    /// No signatures.
    pub fn new() -> (r: SignatureMap)
        ensures
            r@ == Seq::<(Seq<char>, Seq<u8>)>::empty(),
    {
        let r = SignatureMap { entries: Vec::new() };
        assert(r@ =~= Seq::<(Seq<char>, Seq<u8>)>::empty());
        r
    }

    /// The number of signatures.
    pub fn len(&self) -> (n: usize)
        ensures
            n == self@.len(),
            distinct_keys(self@),
            all_encodable(self@),
    {
        proof {
            use_type_invariant(self);
        }
        self.entries.len()
    }

    /// The key name of entry `i`, as characters.
    pub fn name_chars(&self, i: usize) -> (name: &[char])
        requires
            i < self@.len(),
        ensures
            name@ == self@[i as int].0,
    {
        self.entries[i].0.as_slice()
    }

    /// The key name of entry `i`.
    pub fn name(&self, i: usize) -> (name: String)
        requires
            i < self@.len(),
        ensures
            name@ == self@[i as int].0,
    {
        string_of(self.entries[i].0.as_slice())
    }

    /// The signature of entry `i`.
    pub fn bytes(&self, i: usize) -> (bytes: &[u8])
        requires
            i < self@.len(),
        ensures
            bytes@ == self@[i as int].1,
            encodable(bytes@.len()),
    {
        proof {
            use_type_invariant(self);
            assert(encodable(self@[i as int].1.len()));
        }
        self.entries[i].1.as_slice()
    }

    /// The position of the entry under `key`, or the number of entries.
    fn position(&self, key: &[char]) -> (i: usize)
        ensures
            i == key_index(self@, key@),
            i <= self@.len(),
    {
        let mut i: usize = 0;
        while i < self.entries.len() && !same(self.entries[i].0.as_slice(), key)
            invariant
                i <= self.entries@.len(),
                forall|j: int| 0 <= j < i ==> (#[trigger] self@[j]).0 != key@,
            decreases self.entries@.len() - i,
        {
            i += 1;
        }
        proof {
            lemma_key_index_is(self@, key@, i as int);
        }
        i
    }

    /// The signature under `key_name`, if there is one.
    pub fn get(&self, key_name: &str) -> (r: Option<&[u8]>)
        ensures
            match r {
                Some(bytes) => lookup(self@, key_name@) == Some(bytes@),
                None => lookup(self@, key_name@) is None,
            },
    {
        let key = chars_of(key_name);
        let i = self.position(key.as_slice());
        if i < self.entries.len() {
            Some(self.entries[i].1.as_slice())
        } else {
            None
        }
    }

    /// Puts `signature` under `key_name`, and says whether it took the place
    /// of another.
    pub fn insert(&mut self, key_name: &str, signature: Vec<u8>) -> (replaced: bool)
        requires
            encodable(signature@.len()),
        ensures
            final(self)@ == put(old(self)@, key_name@, signature@),
            replaced == lookup(old(self)@, key_name@) is Some,
    {
        proof {
            use_type_invariant(&*self);
            lemma_put(self@, key_name@, signature@);
        }
        let key = chars_of(key_name);
        let i = self.position(key.as_slice());
        let ghost before = self@;
        let ghost bytes = signature@;
        let mut entries: Vec<(Vec<char>, Vec<u8>)> = Vec::new();
        core::mem::swap(&mut self.entries, &mut entries);
        let replaced = i < entries.len();
        if replaced {
            entries[i] = (key, signature);
        } else {
            entries.push((key, signature));
        }
        proof {
            let after = Seq::new(entries@.len(), |j: int| (entries@[j].0@, entries@[j].1@));
            assert(after =~= put(before, key_name@, bytes));
            assert(all_encodable(after)) by {
                assert forall|j: int| 0 <= j < after.len() implies encodable(
                    (#[trigger] after[j]).1.len(),
                ) by {
                    if j != i {
                        assert(after[j] == before[j]);
                    }
                }
            }
        }
        self.entries = entries;
        replaced
    }
}

} // verus!
