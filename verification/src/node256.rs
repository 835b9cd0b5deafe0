use vstd::prelude::*;

use crate::Child;

verus! {

/// The terminal node layout: one slot for every possible branch key, indexed
/// directly by the byte. It covers the whole byte range, so it never upgrades.
pub struct Node256<T> {
    pub(crate) children: Vec<Option<Child<T>>>,
}

/// Well-formed parts for this layout: a slot for each of the 256 bytes.
pub open(crate) spec fn n256_wf_parts<T>(children: Seq<Option<Child<T>>>) -> bool {
    children.len() == 256
}

/// The byte-to-child mapping the parts encode.
pub open(crate) spec fn n256_branches_parts<T>(children: Seq<Option<Child<T>>>) -> Map<u8, Child<T>> {
    Map::new(
        |b: u8| children[b as int] is Some,
        |b: u8| children[b as int]->Some_0,
    )
}

impl<T> Default for Node256<T> {
    /// An empty layout: a vacant slot for every byte.
    fn default() -> (n: Node256<T>)
        ensures
            n.wf(),
            n.branches() == Map::<u8, Child<T>>::empty(),
    {
        let mut children: Vec<Option<Child<T>>> = Vec::new();
        while children.len() < 256
            invariant
                children@.len() <= 256,
                forall|j: int| #![trigger children@[j]]
                    0 <= j < children@.len() ==> children@[j] is None,
            decreases 256 - children@.len(),
        {
            children.push(None);
        }
        let n = Node256 { children };
        proof {
            assert(n.branches() =~= Map::<u8, Child<T>>::empty());
        }
        n
    }
}

impl<T> Node256<T> {
    pub open(crate) spec fn wf(&self) -> bool {
        n256_wf_parts(self.children@)
    }

    pub open(crate) spec fn branches(&self) -> Map<u8, Child<T>> {
        n256_branches_parts(self.children@)
    }

    /// Assembles the layout around a full complement of slots.
    pub fn new(children: Vec<Option<Child<T>>>) -> (n: Node256<T>)
        requires
            n256_wf_parts(children@),
        ensures
            n.wf(),
            n.branches() == n256_branches_parts(children@),
    {
        Node256 { children }
    }

    /// A shared borrow of the child under `key`, if that branch exists: a
    /// single array read.
    pub fn find_child(&self, key: u8) -> (r: Option<&Child<T>>)
        requires
            self.wf(),
        ensures
            match r {
                Some(c) => self.branches().contains_key(key) && *c == self.branches()[key],
                None => !self.branches().contains_key(key),
            },
    {
        match &self.children[key as usize] {
            Some(c) => Some(c),
            None => None,
        }
    }

    /// Exchanges the child stored under `key`, which must be branched, with
    /// the child behind `child`.
    pub fn swap_child(&mut self, key: u8, child: &mut Child<T>)
        requires
            old(self).wf(),
            old(self).branches().contains_key(key),
        ensures
            *final(child) == old(self).branches()[key],
            final(self).wf(),
            final(self).branches() == old(self).branches().insert(key, *old(child)),
    {
        match &mut self.children[key as usize] {
            Some(c) => {
                core::mem::swap(c, child);
            },
            None => {
                proof {
                    assert(false);
                }
            },
        }
        proof {
            assert(self.branches() =~= old(self).branches().insert(key, *old(child)));
        }
    }

    /// Inserts `child` under `key`, replacing and returning any child already
    /// branched there. Every byte has its own slot, so this never runs out of
    /// capacity.
    pub fn insert_child(&mut self, key: u8, child: Child<T>) -> (r: Result<
        Option<Child<T>>,
        Child<T>,
    >)
        requires
            old(self).wf(),
        ensures
            r is Ok,
            match r {
                Ok(prev) => {
                    &&& final(self).wf()
                    &&& final(self).branches() == old(self).branches().insert(key, child)
                    &&& prev == (if old(self).branches().contains_key(key) {
                        Some(old(self).branches()[key])
                    } else {
                        None::<Child<T>>
                    })
                },
                Err(_) => false,
            },
    {
        let mut c = child;
        let slot = &mut self.children[key as usize];
        let r = match slot {
            Some(sc) => {
                core::mem::swap(sc, &mut c);
                Ok(Some(c))
            },
            None => {
                *slot = Some(c);
                Ok(None)
            },
        };
        proof {
            assert(self.branches() =~= old(self).branches().insert(key, child));
        }
        r
    }

    /// Inserts `child` under `key` only if that branch does not exist yet; an
    /// existing branch is left untouched and the new child is dropped. This
    /// never runs out of capacity.
    pub fn insert_child_if_not_exists(&mut self, key: u8, child: Child<T>) -> (r: Result<
        (),
        Child<T>,
    >)
        requires
            old(self).wf(),
        ensures
            r is Ok,
            final(self).wf(),
            final(self).branches() == (if old(self).branches().contains_key(key) {
                old(self).branches()
            } else {
                old(self).branches().insert(key, child)
            }),
    {
        let slot = &mut self.children[key as usize];
        match slot {
            Some(_) => {},
            None => {
                *slot = Some(child);
            },
        }
        proof {
            if !old(self).branches().contains_key(key) {
                assert(self.branches() =~= old(self).branches().insert(key, child));
            } else {
                assert(self.branches() =~= old(self).branches());
            }
        }
        Ok(())
    }
}

} // verus!
