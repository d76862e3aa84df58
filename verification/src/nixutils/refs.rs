//! The references of an artifact: a set of store paths, kept in order.

use crate::text::{
    chars_of, lemma_lt_irreflexive, lemma_lt_total, lemma_lt_transitive, less, same, string_of,
    text_lt,
};
use vstd::prelude::*;

verus! {

/// Whether each text comes before all that follow it: the texts are in order
/// and none stands twice.
pub open spec fn ascending(s: Seq<Seq<char>>) -> bool {
    forall|i: int, j: int| 0 <= i < j < s.len() ==> text_lt(#[trigger] s[i], #[trigger] s[j])
}

/// How many texts at the start of `s` come before `x`.
pub open spec fn rank(s: Seq<Seq<char>>, x: Seq<char>) -> nat
    decreases s.len(),
{
    if s.len() == 0 || !text_lt(s[0], x) {
        0
    } else {
        1 + rank(s.drop_first(), x)
    }
}

/// The set with `x` in it: `s` itself where it holds `x`, else `s` with `x`
/// at its place in the order.
pub open spec fn inserted(s: Seq<Seq<char>>, x: Seq<char>) -> Seq<Seq<char>> {
    let k = rank(s, x) as int;
    if k < s.len() && s[k] == x {
        s
    } else {
        s.insert(k, x)
    }
}

/// The set with every text of `xs` in it.
pub open spec fn inserted_all(s: Seq<Seq<char>>, xs: Seq<Seq<char>>) -> Seq<Seq<char>>
    decreases xs.len(),
{
    if xs.len() == 0 {
        s
    } else {
        inserted_all(inserted(s, xs[0]), xs.drop_first())
    }
}

/// The position `k` before which all texts come before `x`, and at which none
/// does, is the rank of `x`.
pub proof fn lemma_rank_is(s: Seq<Seq<char>>, x: Seq<char>, k: int)
    requires
        0 <= k <= s.len(),
        forall|j: int| 0 <= j < k ==> text_lt(#[trigger] s[j], x),
        k < s.len() ==> !text_lt(s[k], x),
    ensures
        rank(s, x) == k,
    decreases s.len(),
{
    if k > 0 {
        assert(text_lt(s[0], x));
        let rest = s.drop_first();
        assert forall|j: int| 0 <= j < k - 1 implies text_lt(#[trigger] rest[j], x) by {
            assert(rest[j] == s[j + 1]);
        }
        lemma_rank_is(rest, x, k - 1);
    }
}

/// In an ascending sequence, all before the rank of `x` come before `x`, and
/// all from it on are `x` or come after it.
pub proof fn lemma_rank(s: Seq<Seq<char>>, x: Seq<char>)
    requires
        ascending(s),
    ensures
        rank(s, x) <= s.len(),
        forall|j: int| 0 <= j < rank(s, x) ==> text_lt(#[trigger] s[j], x),
        forall|j: int| rank(s, x) <= j < s.len() ==> !text_lt(#[trigger] s[j], x),
    decreases s.len(),
{
    if s.len() > 0 {
        let rest = s.drop_first();
        assert(ascending(rest)) by {
            assert forall|i: int, j: int| 0 <= i < j < rest.len() implies text_lt(
                #[trigger] rest[i],
                #[trigger] rest[j],
            ) by {
                assert(rest[i] == s[i + 1] && rest[j] == s[j + 1]);
            }
        }
        if text_lt(s[0], x) {
            lemma_rank(rest, x);
            assert forall|j: int| 0 <= j < rank(s, x) implies text_lt(#[trigger] s[j], x) by {
                if j > 0 {
                    assert(s[j] == rest[j - 1]);
                }
            }
            assert forall|j: int| rank(s, x) <= j < s.len() implies !text_lt(
                #[trigger] s[j],
                x,
            ) by {
                assert(s[j] == rest[j - 1]);
            }
        } else {
            assert forall|j: int| 0 <= j < s.len() implies !text_lt(#[trigger] s[j], x) by {
                if j > 0 && text_lt(s[j], x) {
                    assert(text_lt(s[0], s[j]));
                    lemma_lt_transitive(s[0], s[j], x);
                }
            }
        }
    }
}

/// Inserting into an ascending sequence leaves it ascending, with `x` in it
/// and nothing else new.
pub proof fn lemma_inserted(s: Seq<Seq<char>>, x: Seq<char>)
    requires
        ascending(s),
    ensures
        ascending(inserted(s, x)),
        inserted(s, x).contains(x),
        forall|y: Seq<char>| inserted(s, x).contains(y) <==> (y == x || s.contains(y)),
{
    lemma_rank(s, x);
    let k = rank(s, x) as int;
    let t = inserted(s, x);
    if k < s.len() && s[k] == x {
        assert(t[k] == x);
    } else {
        assert(t[k] == x);
        assert forall|i: int, j: int| 0 <= i < j < t.len() implies text_lt(
            #[trigger] t[i],
            #[trigger] t[j],
        ) by {
            if j == k {
                assert(t[i] == s[i]);
            } else if i == k {
                assert(t[j] == s[j - 1]);
                assert(!text_lt(s[j - 1], x));
                lemma_lt_total(s[j - 1], x);
                if s[j - 1] == x {
                    if j - 1 > k {
                        assert(text_lt(s[k], s[j - 1]));
                    }
                }
            } else {
                let a = if i < k {
                    i
                } else {
                    i - 1
                };
                let b = if j < k {
                    j
                } else {
                    j - 1
                };
                assert(t[i] == s[a] && t[j] == s[b]);
            }
        }
        assert forall|y: Seq<char>| t.contains(y) <==> (y == x || s.contains(y)) by {
            if t.contains(y) {
                let i = choose|i: int| 0 <= i < t.len() && t[i] == y;
                if i < k {
                    assert(s[i] == y);
                } else if i > k {
                    assert(s[i - 1] == y);
                }
            }
            if s.contains(y) {
                let i = choose|i: int| 0 <= i < s.len() && s[i] == y;
                if i < k {
                    assert(t[i] == y);
                } else {
                    assert(t[i + 1] == y);
                }
            }
        }
    }
}

/// Two ascending sequences that hold the same texts are the same sequence:
/// the order in which a set was filled leaves no trace.
pub proof fn lemma_ascending_unique(a: Seq<Seq<char>>, b: Seq<Seq<char>>)
    requires
        ascending(a),
        ascending(b),
        forall|x: Seq<char>| a.contains(x) <==> b.contains(x),
    ensures
        a == b,
    decreases a.len(),
{
    if a.len() == 0 {
        if b.len() > 0 {
            assert(b.contains(b[0]));
        }
        assert(a =~= b);
    } else {
        assert(a.contains(a[0]));
        let j = choose|j: int| 0 <= j < b.len() && b[j] == a[0];
        assert(b.contains(b[0]));
        let i = choose|i: int| 0 <= i < a.len() && a[i] == b[0];
        if j > 0 {
            assert(text_lt(b[0], b[j]));
            if i > 0 {
                assert(text_lt(a[0], a[i]));
                lemma_lt_transitive(a[0], a[i], b[j]);
            }
            lemma_lt_irreflexive(a[0]);
        }
        assert(a[0] == b[0]);
        let ra = a.drop_first();
        let rb = b.drop_first();
        assert forall|x: Seq<char>| ra.contains(x) <==> rb.contains(x) by {
            if ra.contains(x) {
                let k = choose|k: int| 0 <= k < ra.len() && ra[k] == x;
                assert(a[k + 1] == x);
                assert(text_lt(a[0], a[k + 1]));
                assert(a.contains(x));
                let m = choose|m: int| 0 <= m < b.len() && b[m] == x;
                if m == 0 {
                    lemma_lt_irreflexive(x);
                }
                assert(rb[m - 1] == x);
            }
            if rb.contains(x) {
                let k = choose|k: int| 0 <= k < rb.len() && rb[k] == x;
                assert(b[k + 1] == x);
                assert(text_lt(b[0], b[k + 1]));
                assert(b.contains(x));
                let m = choose|m: int| 0 <= m < a.len() && a[m] == x;
                if m == 0 {
                    lemma_lt_irreflexive(x);
                }
                assert(ra[m - 1] == x);
            }
        }
        assert(ascending(ra)) by {
            assert forall|i: int, j: int| 0 <= i < j < ra.len() implies text_lt(
                #[trigger] ra[i],
                #[trigger] ra[j],
            ) by {
                assert(ra[i] == a[i + 1] && ra[j] == a[j + 1]);
            }
        }
        assert(ascending(rb)) by {
            assert forall|i: int, j: int| 0 <= i < j < rb.len() implies text_lt(
                #[trigger] rb[i],
                #[trigger] rb[j],
            ) by {
                assert(rb[i] == b[i + 1] && rb[j] == b[j + 1]);
            }
        }
        lemma_ascending_unique(ra, rb);
        assert(a =~= seq![a[0]] + ra);
        assert(b =~= seq![b[0]] + rb);
    }
}

/// A set of store paths. It holds each path once, and hands them out in
/// ascending order.
#[derive(Debug)]
pub struct ReferenceSet {
    items: Vec<Vec<char>>,
}

impl View for ReferenceSet {
    type V = Seq<Seq<char>>;

    closed spec fn view(&self) -> Seq<Seq<char>> {
        Seq::new(self.items@.len(), |i: int| self.items@[i]@)
    }
}

impl Clone for ReferenceSet {
    fn clone(&self) -> (r: Self)
        ensures
            r@ == self@,
    {
        proof {
            use_type_invariant(self);
        }
        let mut items: Vec<Vec<char>> = Vec::new();
        let mut i: usize = 0;
        while i < self.items.len()
            invariant
                i <= self.items@.len(),
                items@.len() == i,
                forall|j: int| 0 <= j < i ==> (#[trigger] items@[j])@ == self.items@[j]@,
            decreases self.items@.len() - i,
        {
            items.push(vstd::slice::slice_to_vec(self.items[i].as_slice()));
            i += 1;
        }
        proof {
            let copy = Seq::new(items@.len(), |j: int| items@[j]@);
            assert(copy =~= self@);
        }
        ReferenceSet { items }
    }
}

impl ReferenceSet {
    #[verifier::type_invariant]
    spec fn in_order(self) -> bool {
        ascending(self@)
    }

    /// The empty set.
    pub fn new() -> (r: ReferenceSet)
        ensures
            r@ == Seq::<Seq<char>>::empty(),
    {
        let r = ReferenceSet { items: Vec::new() };
        assert(r@ =~= Seq::<Seq<char>>::empty());
        r
    }

    /// The number of paths.
    pub fn len(&self) -> (n: usize)
        ensures
            n == self@.len(),
            ascending(self@),
    {
        proof {
            use_type_invariant(self);
        }
        self.items.len()
    }

    /// The characters of path `i`.
    pub fn chars(&self, i: usize) -> (path: &[char])
        requires
            i < self@.len(),
        ensures
            path@ == self@[i as int],
    {
        self.items[i].as_slice()
    }

    /// Path `i`.
    pub fn get(&self, i: usize) -> (path: String)
        requires
            i < self@.len(),
        ensures
            path@ == self@[i as int],
    {
        string_of(self.items[i].as_slice())
    }

    /// Puts `path` into the set, and says whether it was new.
    pub fn insert_chars(&mut self, path: Vec<char>) -> (added: bool)
        ensures
            final(self)@ == inserted(old(self)@, path@),
            added == !old(self)@.contains(path@),
            ascending(final(self)@),
    {
        proof {
            use_type_invariant(&*self);
            lemma_rank(self@, path@);
            lemma_inserted(self@, path@);
        }
        let mut k: usize = 0;
        while k < self.items.len() && less(self.items[k].as_slice(), path.as_slice())
            invariant
                k <= self.items@.len(),
                self@ == old(self)@,
                forall|j: int| 0 <= j < k ==> text_lt(#[trigger] self@[j], path@),
            decreases self.items@.len() - k,
        {
            k += 1;
        }
        proof {
            lemma_rank_is(self@, path@, k as int);
        }
        if k < self.items.len() && same(self.items[k].as_slice(), path.as_slice()) {
            assert(self@[k as int] == path@);
            return false;
        }
        proof {
            if self@.contains(path@) {
                let i = choose|i: int| 0 <= i < self@.len() && self@[i] == path@;
                lemma_lt_irreflexive(path@);
                if i > k {
                    assert(text_lt(self@[k as int], self@[i]));
                }
            }
        }
        let ghost before = self@;
        let ghost text = path@;
        let mut items: Vec<Vec<char>> = Vec::new();
        core::mem::swap(&mut self.items, &mut items);
        items.insert(k, path);
        proof {
            let after = Seq::new(items@.len(), |i: int| items@[i]@);
            assert(after =~= before.insert(k as int, text));
            assert(before.insert(k as int, text) == inserted(before, text));
        }
        self.items = items;
        true
    }

    /// Puts `path` into the set, and says whether it was new.
    pub fn insert(&mut self, path: &str) -> (added: bool)
        ensures
            final(self)@ == inserted(old(self)@, path@),
            added == !old(self)@.contains(path@),
            ascending(final(self)@),
    {
        self.insert_chars(chars_of(path))
    }

    /// Whether `path` is in the set.
    pub fn contains(&self, path: &str) -> (r: bool)
        ensures
            r == self@.contains(path@),
    {
        let chars = chars_of(path);
        let mut i: usize = 0;
        while i < self.items.len()
            invariant
                i <= self.items@.len(),
                chars@ == path@,
                forall|j: int| 0 <= j < i ==> self@[j] != path@,
            decreases self.items@.len() - i,
        {
            if same(self.items[i].as_slice(), chars.as_slice()) {
                assert(self@[i as int] == path@);
                return true;
            }
            i += 1;
        }
        false
    }

    /// The paths, in ascending order.
    pub fn to_vec(&self) -> (paths: Vec<String>)
        ensures
            paths@.len() == self@.len(),
            forall|i: int| 0 <= i < paths@.len() ==> (#[trigger] paths@[i])@ == self@[i],
    {
        let mut paths: Vec<String> = Vec::new();
        let mut i: usize = 0;
        while i < self.items.len()
            invariant
                i <= self.items@.len(),
                paths@.len() == i,
                forall|j: int| 0 <= j < i ==> (#[trigger] paths@[j])@ == self@[j],
            decreases self.items@.len() - i,
        {
            paths.push(string_of(self.items[i].as_slice()));
            i += 1;
        }
        paths
    }
}

} // verus!
