//! The tag-label store: a flat list of labels with unique ids, unrelated
//! to the spatial or graph logic.

use vstd::prelude::*;

use crate::errors::StoreError;
use crate::models::{Tag, TagRow};

verus! {

/// The in-memory tag store: the rows and the id counter for the next
/// created tag.
pub struct TagStore {
    pub tags: Vec<TagRow>,
    pub next_tag_id: i32,
}

impl TagStore {
    /// Some tag with this id exists.
    pub open spec fn has_tag(self, id: i32) -> bool {
        exists|i: int| 0 <= i < self.tags@.len() && (#[trigger] self.tags@[i]).id == id
    }

    /// Tag ids are positive, unique, and below the id counter.
    pub open spec fn wf(self) -> bool {
        &&& forall|i: int, j: int|
            0 <= i < j < self.tags@.len() ==> (#[trigger] self.tags@[i]).id != (
            #[trigger] self.tags@[j]).id
        &&& forall|i: int| 0 <= i < self.tags@.len() ==> 1 <= (#[trigger] self.tags@[i]).id < self.next_tag_id
        &&& 1 <= self.next_tag_id
    }

    /// A fresh, empty tag store. Ids start at 1.
    pub fn new() -> (s: TagStore)
        ensures
            s.wf(),
            s.tags@ == Seq::<TagRow>::empty(),
            s.next_tag_id == 1,
    {
        TagStore { tags: Vec::new(), next_tag_id: 1 }
    }

    /// Lists every tag, in store order.
    pub fn get_tags(&self) -> (r: Vec<Tag>)
        requires
            self.wf(),
        ensures
            r@.len() == self.tags@.len(),
            forall|i: int|
                0 <= i < r@.len() ==> (#[trigger] r@[i]).id == self.tags@[i].id && r@[i].name
                    == self.tags@[i].name,
    {
        let mut out: Vec<Tag> = Vec::new();
        let mut i: usize = 0;
        while i < self.tags.len()
            invariant
                i <= self.tags@.len(),
                out@.len() == i,
                forall|j: int|
                    0 <= j < i ==> (#[trigger] out@[j]).id == self.tags@[j].id && out@[j].name
                        == self.tags@[j].name,
            decreases self.tags@.len() - i,
        {
            let row = &self.tags[i];
            out.push(Tag { id: row.id, name: row.name.clone() });
            i = i + 1;
        }
        out
    }

    /// Creates a tag under the next free id and returns it. Refused with
    /// `StorageFailure` when the id space is exhausted.
    pub fn create_tag(&mut self, name: String) -> (r: Result<Tag, StoreError>)
        requires
            old(self).wf(),
        ensures
            final(self).wf(),
            r is Ok <==> old(self).next_tag_id < i32::MAX,
            match r {
                Ok(tag) => {
                    &&& final(self).tags@.len() == old(self).tags@.len() + 1
                    &&& final(self).tags@.drop_last() == old(self).tags@
                    &&& final(self).tags@.last().id == old(self).next_tag_id
                    &&& final(self).tags@.last().name == name
                    &&& tag.id == old(self).next_tag_id
                    &&& tag.name == name
                    &&& final(self).next_tag_id == old(self).next_tag_id + 1
                },
                Err(e) => e == StoreError::StorageFailure && *final(self) == *old(self),
            },
    {
        if self.next_tag_id == i32::MAX {
            return Err(StoreError::StorageFailure);
        }
        let id = self.next_tag_id;
        let tag = Tag { id, name: name.clone() };
        let ghost old_tags = self.tags@;
        self.tags.push(TagRow { id, name });
        self.next_tag_id = id + 1;
        proof {
            assert(self.tags@.drop_last() =~= old_tags);
            assert forall|i: int, j: int|
                0 <= i < j < self.tags@.len() implies (#[trigger] self.tags@[i]).id != (
            #[trigger] self.tags@[j]).id by {
                if j == self.tags@.len() - 1 {
                    assert(self.tags@[i] == old_tags[i]);
                }
            }
        }
        Ok(tag)
    }

    /// Renames the tag with this id; renaming an absent id is a no-op, as
    /// an update that matches no row.
    pub fn update_tag(&mut self, id: i32, name: String)
        requires
            old(self).wf(),
        ensures
            final(self).wf(),
            final(self).next_tag_id == old(self).next_tag_id,
            final(self).tags@.len() == old(self).tags@.len(),
            !old(self).has_tag(id) ==> final(self).tags@ == old(self).tags@,
            old(self).has_tag(id) ==> exists|k: int|
                {
                    &&& 0 <= k < old(self).tags@.len()
                    &&& (#[trigger] old(self).tags@[k]).id == id
                    &&& final(self).tags@[k].id == id
                    &&& final(self).tags@[k].name == name
                    &&& forall|j: int|
                        0 <= j < old(self).tags@.len() && j != k ==> final(self).tags@[j] == old(
                            self,
                        ).tags@[j]
                },
    {
        let mut i: usize = 0;
        while i < self.tags.len()
            invariant
                old(self).wf(),
                i <= self.tags@.len(),
                *self == *old(self),
                forall|j: int| 0 <= j < i ==> (#[trigger] self.tags@[j]).id != id,
            decreases self.tags@.len() - i,
        {
            if self.tags[i].id == id {
                let ghost old_tags = self.tags@;
                self.tags.set(i, TagRow { id, name });
                proof {
                    assert forall|a: int, b: int|
                        0 <= a < b < self.tags@.len() implies (#[trigger] self.tags@[a]).id != (
                    #[trigger] self.tags@[b]).id by {
                        assert(self.tags@[a].id == old_tags[a].id);
                        assert(self.tags@[b].id == old_tags[b].id);
                    }
                    assert(old(self).tags@[i as int].id == id);
                }
                return ;
            }
            i = i + 1;
        }
        proof {
            if self.has_tag(id) {
                let k0 = choose|k0: int| 0 <= k0 < self.tags@.len() && self.tags@[k0].id == id;
                assert(self.tags@[k0].id == id);
            }
        }
    }

    /// Removes the tag with this id; removing an absent id is a no-op.
    /// The order of the remaining tags is not preserved.
    pub fn delete_tag(&mut self, id: i32)
        requires
            old(self).wf(),
        ensures
            final(self).wf(),
            final(self).next_tag_id == old(self).next_tag_id,
            !final(self).has_tag(id),
            !old(self).has_tag(id) ==> final(self).tags@ == old(self).tags@,
            old(self).has_tag(id) ==> final(self).tags@.len() == old(self).tags@.len() - 1,
            forall|j: int|
                0 <= j < final(self).tags@.len() ==> old(self).tags@.contains(
                    #[trigger] final(self).tags@[j],
                ),
    {
        let mut i: usize = 0;
        while i < self.tags.len()
            invariant
                old(self).wf(),
                i <= self.tags@.len(),
                *self == *old(self),
                forall|j: int| 0 <= j < i ==> (#[trigger] self.tags@[j]).id != id,
            decreases self.tags@.len() - i,
        {
            if self.tags[i].id == id {
                let ghost old_tags = self.tags@;
                self.tags.swap_remove(i);
                proof {
                    let mid = old_tags.update(i as int, old_tags.last());
                    assert(self.tags@ =~= mid.drop_last());
                    assert forall|a: int, b: int|
                        0 <= a < b < self.tags@.len() implies (#[trigger] self.tags@[a]).id != (
                    #[trigger] self.tags@[b]).id by {
                        let oa: int = if a == i as int {
                            old_tags.len() - 1
                        } else {
                            a
                        };
                        let ob: int = if b == i as int {
                            old_tags.len() - 1
                        } else {
                            b
                        };
                        assert(self.tags@[a].id == old_tags[oa].id);
                        assert(self.tags@[b].id == old_tags[ob].id);
                    }
                    assert(!self.has_tag(id)) by {
                        if self.has_tag(id) {
                            let k0 = choose|k0: int|
                                0 <= k0 < self.tags@.len() && self.tags@[k0].id == id;
                            let ok: int = if k0 == i as int {
                                old_tags.len() - 1
                            } else {
                                k0
                            };
                            assert(old_tags[ok].id == id);
                            assert(old_tags[i as int].id == id);
                        }
                    }
                    assert forall|j: int|
                        0 <= j < self.tags@.len() implies old(self).tags@.contains(
                        #[trigger] self.tags@[j],
                    ) by {
                        let oj: int = if j == i as int {
                            old_tags.len() - 1
                        } else {
                            j
                        };
                        assert(self.tags@[j] == old_tags[oj]);
                    }
                    assert(old(self).tags@[i as int].id == id);
                }
                return ;
            }
            i = i + 1;
        }
        proof {
            if self.has_tag(id) {
                let k0 = choose|k0: int| 0 <= k0 < self.tags@.len() && self.tags@[k0].id == id;
                assert(self.tags@[k0].id == id);
            }
            assert forall|j: int|
                0 <= j < self.tags@.len() implies old(self).tags@.contains(
                #[trigger] self.tags@[j],
            ) by {
                assert(old(self).tags@[j] == self.tags@[j]);
            }
        }
    }
}

} // verus!
