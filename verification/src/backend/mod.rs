//! Where the store keeps its objects, and what it does to publish one. An
//! object is written to a staging place under its key, and is read from the
//! place where it is visible; to promote it is to bring it from the one to
//! the other. The library says which places these are and which steps the
//! promotion takes; whoever runs the store carries them out.

pub mod local;
pub mod s3;

use vstd::prelude::*;

verus! {

/// A step of the store, as a value.
pub enum StoreActionView {
    CreateDirAll(Seq<char>),
    Rename { from: Seq<char>, to: Seq<char> },
    Copy { from: Seq<char>, to: Seq<char> },
    Delete(Seq<char>),
}

/// One step that a store takes on its medium.
#[derive(Debug, Clone)]
pub enum StoreAction {
    /// Make the directory, and those above it, unless they are there.
    CreateDirAll(String),
    /// Move the file at `from` to `to`, in one step.
    Rename { from: String, to: String },
    /// Copy the object at `from` to `to`.
    Copy { from: String, to: String },
    /// Remove the object.
    Delete(String),
}

impl View for StoreAction {
    type V = StoreActionView;

    open spec fn view(&self) -> StoreActionView {
        match self {
            StoreAction::CreateDirAll(dir) => StoreActionView::CreateDirAll(dir@),
            StoreAction::Rename { from, to } => StoreActionView::Rename { from: from@, to: to@ },
            StoreAction::Copy { from, to } => StoreActionView::Copy { from: from@, to: to@ },
            StoreAction::Delete(path) => StoreActionView::Delete(path@),
        }
    }
}

/// The steps as values.
pub open spec fn plan_view(plan: Seq<StoreAction>) -> Seq<StoreActionView> {
    Seq::new(plan.len(), |i: int| plan[i]@)
}

/// What every place under a directory begins with: the directory and a
/// slash, or the directory alone where it is empty or ends in a slash.
pub open spec fn under(dir: Seq<char>) -> Seq<char> {
    if dir.len() == 0 || dir.last() == '/' {
        dir
    } else {
        dir + seq!['/']
    }
}

/// The place of `key` under `dir`.
pub open spec fn place(dir: Seq<char>, key: Seq<char>) -> Seq<char> {
    under(dir) + key
}

/// Whether a key names a place of its own, and so cannot be put under a
/// directory.
pub open spec fn absolute(key: Seq<char>) -> bool {
    key.len() > 0 && key[0] == '/'
}

/// Whether `key` names a place of its own.
pub fn is_absolute(key: &str) -> (r: bool)
    ensures
        r == absolute(key@),
{
    let chars = crate::text::chars_of(key);
    chars.len() > 0 && chars[0] == '/'
}

/// The position after the last slash of a path, or 0 where it has none.
pub open spec fn name_start(path: Seq<char>) -> nat
    decreases path.len(),
{
    if path.len() == 0 {
        0
    } else if path.last() == '/' {
        path.len()
    } else {
        name_start(path.drop_last())
    }
}

/// The directory that holds a path: what stands before its last slash, and
/// nothing where it has no slash.
pub open spec fn directory_of(path: Seq<char>) -> Seq<char> {
    if name_start(path) == 0 {
        Seq::empty()
    } else {
        path.take(name_start(path) - 1)
    }
}

/// The place of `key` under `dir`.
pub fn place_of(dir: &str, key: &str) -> (path: String)
    ensures
        path@ == place(dir@, key@),
{
    let chars = crate::text::chars_of(dir);
    let mut path = String::from_str(dir);
    if chars.len() > 0 && chars[chars.len() - 1] != '/' {
        path.push('/');
    }
    path.append(key);
    assert(path@ =~= place(dir@, key@));
    path
}

/// The directory that holds `path`.
pub fn directory(path: &str) -> (dir: String)
    ensures
        dir@ == directory_of(path@),
{
    let chars = crate::text::chars_of(path);
    let mut end: usize = chars.len();
    assert(chars@.take(end as int) =~= chars@);
    while end > 0 && chars[end - 1] != '/'
        invariant
            end <= chars@.len(),
            name_start(chars@) == name_start(chars@.take(end as int)),
        decreases end,
    {
        proof {
            let part = chars@.take(end as int);
            assert(part.last() == chars@[end - 1]);
            assert(part.drop_last() =~= chars@.take(end - 1));
        }
        end -= 1;
    }
    proof {
        let part = chars@.take(end as int);
        if end > 0 {
            assert(part.last() == '/');
        }
        assert(name_start(chars@) == end);
    }
    if end == 0 {
        String::new()
    } else {
        crate::text::string_of(vstd::slice::slice_subrange(chars.as_slice(), 0, end - 1))
    }
}

/// Where neither of two directories lies in or at the other, no place under
/// the one is a place under the other: what is staged under any key is
/// nowhere that a visible object is read from.
pub proof fn lemma_places_apart(
    staging: Seq<char>,
    visible: Seq<char>,
    staged_key: Seq<char>,
    read_key: Seq<char>,
)
    requires
        !crate::text::has_prefix(under(staging), under(visible)),
        !crate::text::has_prefix(under(visible), under(staging)),
    ensures
        place(staging, staged_key) != place(visible, read_key),
{
    let a = under(staging);
    let b = under(visible);
    let p = place(staging, staged_key);
    let q = place(visible, read_key);
    if p == q {
        if a.len() <= b.len() {
            assert(b.take(a.len() as int) =~= a) by {
                assert forall|i: int| 0 <= i < a.len() implies b[i] == a[i] by {
                    assert(p[i] == a[i]);
                    assert(q[i] == b[i]);
                }
            }
        } else {
            assert(a.take(b.len() as int) =~= b) by {
                assert forall|i: int| 0 <= i < b.len() implies a[i] == b[i] by {
                    assert(p[i] == a[i]);
                    assert(q[i] == b[i]);
                }
            }
        }
    }
}

/// The objects of a store after a step that went well, the store being the
/// set of the places that hold an object. A rename takes the object from one
/// place to another, a copy puts it in a second place, and a deletion takes
/// it away; a directory is no object.
pub open spec fn after_action(objects: Set<Seq<char>>, action: StoreActionView) -> Set<
    Seq<char>,
> {
    match action {
        StoreActionView::CreateDirAll(_) => objects,
        StoreActionView::Rename { from, to } => if objects.contains(from) {
            objects.remove(from).insert(to)
        } else {
            objects
        },
        StoreActionView::Copy { from, to } => if objects.contains(from) {
            objects.insert(to)
        } else {
            objects
        },
        StoreActionView::Delete(path) => objects.remove(path),
    }
}

/// The objects of a store after the steps of a plan, taken in their order.
pub open spec fn after_plan(objects: Set<Seq<char>>, plan: Seq<StoreActionView>) -> Set<Seq<char>>
    decreases plan.len(),
{
    if plan.len() == 0 {
        objects
    } else {
        after_action(after_plan(objects, plan.drop_last()), plan.last())
    }
}

} // verus!
