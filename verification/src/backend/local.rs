//! A store on the local file system: a directory for what is staged and one
//! for what is visible. To promote is to rename a file from the one into the
//! other, which the file system does in one step.

use crate::backend::{
    absolute, after_plan, directory, directory_of, is_absolute, place, place_of, plan_view,
    StoreAction, StoreActionView,
};
use crate::error::Error;
use vstd::prelude::*;

verus! {

/// A store on the local file system, as a value.
pub struct LocalBackendView {
    pub tmp_dir: Seq<char>,
    pub data_dir: Seq<char>,
}

/// A store on the local file system.
#[derive(Debug, Clone)]
pub struct LocalBackend {
    tmp_dir: String,
    data_dir: String,
}

impl View for LocalBackend {
    type V = LocalBackendView;

    closed spec fn view(&self) -> LocalBackendView {
        LocalBackendView { tmp_dir: self.tmp_dir@, data_dir: self.data_dir@ }
    }
}

impl LocalBackendView {
    /// Where the object of `key` is staged.
    pub open spec fn staged(self, key: Seq<char>) -> Seq<char> {
        place(self.tmp_dir, key)
    }

    /// Where the object of `key` is visible.
    pub open spec fn visible(self, key: Seq<char>) -> Seq<char> {
        place(self.data_dir, key)
    }

    /// The steps that stage an object: its directory is made, then the file
    /// is written, which is left to the caller.
    pub open spec fn write_plan(self, key: Seq<char>) -> Seq<StoreActionView> {
        seq![StoreActionView::CreateDirAll(directory_of(self.staged(key)))]
    }

    /// The steps that promote an object: the directory of the visible file
    /// is made, then the staged file is renamed to it.
    pub open spec fn promote_plan(self, key: Seq<char>) -> Seq<StoreActionView> {
        seq![
            StoreActionView::CreateDirAll(directory_of(self.visible(key))),
            StoreActionView::Rename { from: self.staged(key), to: self.visible(key) },
        ]
    }
}

impl LocalBackend {
    /// A store that stages under `tmp_dir` and publishes under `data_dir`.
    pub fn new(tmp_dir: String, data_dir: String) -> (r: LocalBackend)
        ensures
            r@ == (LocalBackendView { tmp_dir: tmp_dir@, data_dir: data_dir@ }),
    {
        LocalBackend { tmp_dir, data_dir }
    }

    /// A store in the directories `tmp` and `data` of `current_dir`.
    pub fn in_dir(current_dir: &str) -> (r: LocalBackend)
        ensures
            r@ == (LocalBackendView {
                tmp_dir: place(current_dir@, "tmp"@),
                data_dir: place(current_dir@, "data"@),
            }),
    {
        LocalBackend::new(place_of(current_dir, "tmp"), place_of(current_dir, "data"))
    }

    /// The file that a visible object is read from.
    pub fn read_path(&self, key: &str) -> (path: String)
        ensures
            path@ == self@.visible(key@),
    {
        place_of(self.data_dir.as_str(), key)
    }

    /// The file that an object is staged in.
    pub fn write_path(&self, key: &str) -> (path: String)
        ensures
            path@ == self@.staged(key@),
    {
        place_of(self.tmp_dir.as_str(), key)
    }

    /// The steps to take before the staged file is written.
    pub fn write_plan(&self, key: &str) -> (plan: Vec<StoreAction>)
        ensures
            plan_view(plan@) == self@.write_plan(key@),
    {
        let path = self.write_path(key);
        let mut plan: Vec<StoreAction> = Vec::new();
        plan.push(StoreAction::CreateDirAll(directory(path.as_str())));
        assert(plan_view(plan@) =~= self@.write_plan(key@));
        plan
    }

    /// The steps that promote the object of `key`, in their order. A key
    /// that is absolute has no place under the staging directory, and is
    /// refused as `Upload`.
    pub fn promote_plan(&self, key: &str) -> (r: Result<Vec<StoreAction>, Error>)
        ensures
            match r {
                Ok(plan) => !absolute(key@) && plan_view(plan@) == self@.promote_plan(key@),
                Err(e) => absolute(key@) && e == Error::Upload,
            },
    {
        if is_absolute(key) {
            return Err(Error::Upload);
        }
        let from = self.write_path(key);
        let to = self.read_path(key);
        let mut plan: Vec<StoreAction> = Vec::new();
        plan.push(StoreAction::CreateDirAll(directory(to.as_str())));
        plan.push(StoreAction::Rename { from, to });
        assert(plan_view(plan@) =~= self@.promote_plan(key@));
        Ok(plan)
    }
}

/// On the file system a promotion is one step. However far its plan has
/// come, the object is staged and not yet visible, or visible and no longer
/// staged: before the rename nothing has changed, and after it the object
/// lies in its visible place alone.
pub proof fn lemma_promotion_is_one_step(
    backend: LocalBackendView,
    key: Seq<char>,
    objects: Set<Seq<char>>,
    steps: int,
)
    requires
        objects.contains(backend.staged(key)),
        backend.staged(key) != backend.visible(key),
        0 <= steps <= 2,
    ensures
        ({
            let now = after_plan(objects, backend.promote_plan(key).take(steps));
            if steps < 2 {
                now == objects
            } else {
                now == objects.remove(backend.staged(key)).insert(backend.visible(key))
            }
        }),
{
    let plan = backend.promote_plan(key);
    let none = plan.take(0);
    let one = plan.take(1);
    let two = plan.take(2);
    assert(after_plan(objects, none) == objects);
    assert(one.drop_last() =~= none);
    assert(one.last() == plan[0]);
    assert(after_plan(objects, one) == objects);
    assert(two.drop_last() =~= one);
    assert(two.last() == plan[1]);
}

} // verus!
