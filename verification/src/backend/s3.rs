//! A store in a bucket of a remote object store: objects are staged under
//! `tmp/` and visible under `data/`. The medium cannot rename, so to promote
//! is to copy the staged object to its visible place and then to delete the
//! staged one. This is not one step: a failure between the two leaves the
//! object in both places, which loses nothing; the copy always comes first,
//! so that no failure leaves it in neither.

use crate::backend::{
    absolute, after_plan, is_absolute, place, place_of, plan_view, StoreAction, StoreActionView,
};
use crate::error::Error;
use vstd::prelude::*;

verus! {

/// Where the object of `key` is staged in the bucket.
pub open spec fn staged(key: Seq<char>) -> Seq<char> {
    place("tmp"@, key)
}

/// Where the object of `key` is visible in the bucket.
pub open spec fn visible(key: Seq<char>) -> Seq<char> {
    place("data"@, key)
}

/// The steps that promote an object in the bucket: the copy, then the
/// deletion of the staged object.
pub open spec fn promote_steps(key: Seq<char>) -> Seq<StoreActionView> {
    seq![
        StoreActionView::Copy { from: staged(key), to: visible(key) },
        StoreActionView::Delete(staged(key)),
    ]
}

/// The object that a visible artifact is read from.
pub fn read_path(key: &str) -> (path: String)
    ensures
        path@ == visible(key@),
{
    place_of("data", key)
}

/// The object that an artifact is staged in.
pub fn write_path(key: &str) -> (path: String)
    ensures
        path@ == staged(key@),
{
    place_of("tmp", key)
}

/// The steps that promote the object of `key`, in their order. A key that
/// is absolute has no place under the staging prefix, and is refused as
/// `Upload`.
pub fn promote_plan(key: &str) -> (r: Result<Vec<StoreAction>, Error>)
    ensures
        match r {
            Ok(plan) => !absolute(key@) && plan_view(plan@) == promote_steps(key@),
            Err(e) => absolute(key@) && e == Error::Upload,
        },
{
    if is_absolute(key) {
        return Err(Error::Upload);
    }
    let from = write_path(key);
    let staged_again = write_path(key);
    let to = read_path(key);
    let mut plan: Vec<StoreAction> = Vec::new();
    plan.push(StoreAction::Copy { from, to });
    plan.push(StoreAction::Delete(staged_again));
    assert(plan_view(plan@) =~= promote_steps(key@));
    Ok(plan)
}

/// In the bucket, what is staged under any key is nowhere that a visible
/// object is read from.
pub proof fn lemma_staged_not_visible(staged_key: Seq<char>, read_key: Seq<char>)
    ensures
        staged(staged_key) != visible(read_key),
{
    reveal_strlit("tmp");
    reveal_strlit("data");
    assert("tmp"@.last() == 'p' && "data"@.last() == 'a');
    assert(staged(staged_key)[0] == 't');
    assert(visible(read_key)[0] == 'd');
}

/// In the bucket a promotion is two steps, and is not atomic. However far
/// its plan has come, the object is never in neither place: after the copy
/// it lies in both, which is the window in which a failure leaves the staged
/// object behind, and after the deletion in its visible place alone.
pub proof fn lemma_promotion_leaves_no_gap(key: Seq<char>, objects: Set<Seq<char>>, steps: int)
    requires
        objects.contains(staged(key)),
        0 <= steps <= 2,
    ensures
        ({
            let now = after_plan(objects, promote_steps(key).take(steps));
            &&& now.contains(staged(key)) || now.contains(visible(key))
            &&& steps == 0 ==> now == objects
            &&& steps == 1 ==> now == objects.insert(visible(key))
            &&& steps == 2 ==> now == objects.insert(visible(key)).remove(staged(key))
        }),
{
    let plan = promote_steps(key);
    let none = plan.take(0);
    let one = plan.take(1);
    let two = plan.take(2);
    lemma_staged_not_visible(key, key);
    assert(after_plan(objects, none) == objects);
    assert(one.drop_last() =~= none);
    assert(one.last() == plan[0]);
    assert(after_plan(objects, one) == objects.insert(visible(key)));
    assert(two.drop_last() =~= one);
    assert(two.last() == plan[1]);
}

} // verus!
