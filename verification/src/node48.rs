use vstd::prelude::*;

use crate::Child;
use crate::node256::Node256;

verus! {

/// The sentinel stored in the index table for a byte with no child.
pub(crate) const NO_SLOT: u8 = 48;

/// The large node layout: a 256-entry table mapping each byte to a slot in a
/// 48-slot child array, with `NO_SLOT` marking absent branches.
pub struct Node48<T> {
    pub(crate) child_indices: Vec<u8>,
    pub(crate) children: Vec<Option<Child<T>>>,
    pub(crate) nb_children: u8,
}

/// Byte table `keys` assigns slot `j` to some byte.
pub open(crate) spec fn slot_assigned(keys: Seq<u8>, j: int) -> bool {
    exists|b: int| 0 <= b < 256 && keys[b] == j
}

/// Well-formed parts for this layout, keeping the absent sentinel and the
/// occupancy counter as explicit invariants: every table entry is an assigned
/// slot or exactly the sentinel; assigned entries point below `nb`, no two
/// bytes sharing a slot; the occupied slots are exactly the packed prefix of
/// length `nb`; and every slot of that prefix is assigned to some byte — so
/// `nb` counts the stored branches exactly.
pub open(crate) spec fn n48_wf_parts<T>(keys: Seq<u8>, children: Seq<Option<Child<T>>>, nb: u8) -> bool {
    &&& keys.len() == 256
    &&& children.len() == 48
    &&& nb <= 48
    &&& forall|b: int| #![trigger keys[b]] 0 <= b < 256 ==> keys[b] <= NO_SLOT
    &&& forall|b: int| #![trigger keys[b]]
        0 <= b < 256 && keys[b] < 48 ==> keys[b] < nb && children[keys[b] as int] is Some
    &&& forall|b1: int, b2: int| #![trigger keys[b1], keys[b2]]
        0 <= b1 < b2 < 256 && keys[b1] < 48 && keys[b2] < 48 ==> keys[b1] != keys[b2]
    &&& forall|j: int| #![trigger children[j]] 0 <= j < 48 ==> (children[j] is Some <==> j < nb)
    &&& forall|j: int| #![trigger slot_assigned(keys, j)] 0 <= j < nb ==> slot_assigned(keys, j)
}

/// The byte-to-child mapping the parts encode.
pub open(crate) spec fn n48_branches_parts<T>(keys: Seq<u8>, children: Seq<Option<Child<T>>>) -> Map<
    u8,
    Child<T>,
> {
    Map::new(
        |b: u8| keys[b as int] < 48,
        |b: u8| children[keys[b as int] as int]->Some_0,
    )
}

impl<T> Default for Node48<T> {
    /// An empty layout: every index-table entry is the absent sentinel and
    /// every slot is vacant.
    fn default() -> (n: Node48<T>)
        ensures
            n.wf(),
            n.branches() == Map::<u8, Child<T>>::empty(),
            n.occupancy() == 0,
            !n.is_full(),
    {
        let mut child_indices: Vec<u8> = Vec::new();
        while child_indices.len() < 256
            invariant
                child_indices@.len() <= 256,
                forall|j: int| #![trigger child_indices@[j]]
                    0 <= j < child_indices@.len() ==> child_indices@[j] == NO_SLOT,
            decreases 256 - child_indices@.len(),
        {
            child_indices.push(NO_SLOT);
        }
        let mut children: Vec<Option<Child<T>>> = Vec::new();
        while children.len() < 48
            invariant
                children@.len() <= 48,
                forall|j: int| #![trigger children@[j]]
                    0 <= j < children@.len() ==> children@[j] is None,
            decreases 48 - children@.len(),
        {
            children.push(None);
        }
        let n = Node48 { child_indices, children, nb_children: 0 };
        proof {
            assert(n.branches() =~= Map::<u8, Child<T>>::empty());
        }
        n
    }
}

impl<T> Node48<T> {
    pub open(crate) spec fn wf(&self) -> bool {
        n48_wf_parts(self.child_indices@, self.children@, self.nb_children)
    }

    pub open(crate) spec fn branches(&self) -> Map<u8, Child<T>> {
        n48_branches_parts(self.child_indices@, self.children@)
    }

    pub open(crate) spec fn is_full(&self) -> bool {
        self.nb_children == 48
    }

    /// How many slots are occupied: with the layout well formed, exactly the
    /// number of branched bytes.
    pub open(crate) spec fn occupancy(&self) -> int {
        self.nb_children as int
    }

    /// Assembles a layout from its parts, which must already be well formed.
    pub fn new(child_indices: Vec<u8>, children: Vec<Option<Child<T>>>, nb_children: u8) -> (n: Node48<T>)
        requires
            n48_wf_parts(child_indices@, children@, nb_children),
        ensures
            n.wf(),
            n.branches() == n48_branches_parts(child_indices@, children@),
            n.occupancy() == nb_children as int,
            n.is_full() <==> nb_children == 48,
    {
        Node48 { child_indices, children, nb_children }
    }

    /// Upgrades the layout to the terminal one: every byte with an assigned
    /// slot has its child moved to the directly indexed position.
    pub fn upgrade_to_node256(self) -> (n: Node256<T>)
        requires
            self.wf(),
        ensures
            n.wf(),
            n.branches() == self.branches(),
    {
        let ghost keys0 = self.child_indices@;
        let ghost c0 = self.children@;
        let ghost nb0 = self.nb_children;
        let mut s = self;

        let mut children: Vec<Option<Child<T>>> = Vec::new();
        let mut b: usize = 0;
        while b < 256
            invariant
                b <= 256,
                n48_wf_parts(keys0, c0, nb0),
                s.child_indices@ == keys0,
                s.children@.len() == 48,
                children@.len() == b,
                forall|x: int| #![trigger children@[x]]
                    0 <= x < b ==> children@[x] == (if keys0[x] < 48 {
                        c0[keys0[x] as int]
                    } else {
                        None
                    }),
                forall|j: int| #![trigger s.children@[j]]
                    0 <= j < 48 && (forall|x: int| #![trigger keys0[x]]
                        0 <= x < b ==> keys0[x] != j) ==> s.children@[j] == c0[j],
            decreases 256 - b,
        {
            let k = s.child_indices[b];
            if k < NO_SLOT {
                proof {
                    assert forall|x: int| #![trigger keys0[x]] 0 <= x < b implies keys0[x]
                        != k by {}
                    assert(s.children@[k as int] == c0[k as int]);
                }
                let slot = &mut s.children[k as usize];
                let c = slot.take();
                children.push(c);
            } else {
                children.push(None);
            }
            b += 1;
        }

        let n = Node256::new(children);
        proof {
            assert(n.branches() =~= self.branches());
        }
        n
    }

    /// A shared borrow of the child under `key`, if that branch exists: one
    /// table lookup, then one slot read.
    pub fn find_child(&self, key: u8) -> (r: Option<&Child<T>>)
        requires
            self.wf(),
        ensures
            match r {
                Some(c) => self.branches().contains_key(key) && *c == self.branches()[key],
                None => !self.branches().contains_key(key),
            },
    {
        let idx = self.child_indices[key as usize];
        if idx < NO_SLOT {
            match &self.children[idx as usize] {
                Some(c) => Some(c),
                None => vstd::pervasive::unreached(),
            }
        } else {
            None
        }
    }

    /// Exchanges the child stored under `key`, which must be branched, with
    /// the child behind `child`.
    pub fn swap_child(&mut self, key: u8, child: &mut Child<T>)
        requires
            old(self).wf(),
            old(self).branches().contains_key(key),
        ensures
            *final(child) == old(self).branches()[key],
            final(self).wf(),
            final(self).is_full() == old(self).is_full(),
            final(self).branches() == old(self).branches().insert(key, *old(child)),
    {
        let idx = self.child_indices[key as usize];
        match &mut self.children[idx as usize] {
            Some(c) => {
                core::mem::swap(c, child);
            },
            None => {
                proof {
                    assert(false);
                }
            },
        }
        proof {
            assert(self.branches() =~= old(self).branches().insert(key, *old(child)));
        }
    }

    /// Inserts `child` under `key`, replacing and returning any child already
    /// branched there. When a fresh branch would exceed the 48 slots, the
    /// layout is left unchanged and the child is handed back as the error.
    pub fn insert_child(&mut self, key: u8, child: Child<T>) -> (r: Result<
        Option<Child<T>>,
        Child<T>,
    >)
        requires
            old(self).wf(),
        ensures
            match r {
                Ok(prev) => {
                    &&& final(self).wf()
                    &&& final(self).branches() == old(self).branches().insert(key, child)
                    &&& final(self).occupancy() == old(self).occupancy() + (
                    if old(self).branches().contains_key(key) {
                        0int
                    } else {
                        1int
                    })
                    &&& prev == (if old(self).branches().contains_key(key) {
                        Some(old(self).branches()[key])
                    } else {
                        None::<Child<T>>
                    })
                },
                Err(c) => {
                    &&& c == child
                    &&& *final(self) == *old(self)
                    &&& old(self).is_full()
                    &&& !old(self).branches().contains_key(key)
                },
            },
    {
        let mut c = child;
        let idx = self.child_indices[key as usize];
        if idx < NO_SLOT {
            match &mut self.children[idx as usize] {
                Some(sc) => {
                    core::mem::swap(sc, &mut c);
                },
                None => {
                    proof {
                        assert(false);
                    }
                },
            }
            proof {
                assert(self.branches() =~= old(self).branches().insert(key, child));
            }
            Ok(Some(c))
        } else if self.nb_children < 48 {
            let nb = self.nb_children;
            let e = &mut self.child_indices[key as usize];
            *e = nb;
            let slot = &mut self.children[nb as usize];
            *slot = Some(c);
            self.nb_children = nb + 1;
            proof {
                let keys0 = old(self).child_indices@;
                let keys1 = self.child_indices@;
                assert(keys1 == keys0.update(key as int, nb));
                assert forall|j: int| #![trigger slot_assigned(keys1, j)]
                    0 <= j < nb + 1 implies slot_assigned(keys1, j) by {
                    if j == nb as int {
                        assert(keys1[key as int] == nb);
                    } else {
                        assert(slot_assigned(keys0, j));
                        let b = choose|b: int| 0 <= b < 256 && keys0[b] == j;
                        assert(keys1[b] == j);
                    }
                }
                assert(self.wf());
                assert(self.branches() =~= old(self).branches().insert(key, child));
            }
            Ok(None)
        } else {
            Err(c)
        }
    }

    /// Inserts `child` under `key` only if that branch does not exist yet;
    /// an existing branch is left untouched and the new child is dropped.
    /// When a fresh branch would exceed the 48 slots, the layout is left
    /// unchanged and the child is handed back as the error.
    pub fn insert_child_if_not_exists(&mut self, key: u8, child: Child<T>) -> (r: Result<
        (),
        Child<T>,
    >)
        requires
            old(self).wf(),
        ensures
            match r {
                Ok(_) => {
                    &&& final(self).wf()
                    &&& final(self).branches() == (if old(self).branches().contains_key(key) {
                        old(self).branches()
                    } else {
                        old(self).branches().insert(key, child)
                    })
                    &&& final(self).occupancy() == old(self).occupancy() + (
                    if old(self).branches().contains_key(key) {
                        0int
                    } else {
                        1int
                    })
                },
                Err(c) => {
                    &&& c == child
                    &&& *final(self) == *old(self)
                    &&& old(self).is_full()
                    &&& !old(self).branches().contains_key(key)
                },
            },
    {
        let idx = self.child_indices[key as usize];
        if idx < NO_SLOT {
            Ok(())
        } else if self.nb_children < 48 {
            let nb = self.nb_children;
            let e = &mut self.child_indices[key as usize];
            *e = nb;
            let slot = &mut self.children[nb as usize];
            *slot = Some(child);
            self.nb_children = nb + 1;
            proof {
                let keys0 = old(self).child_indices@;
                let keys1 = self.child_indices@;
                assert(keys1 == keys0.update(key as int, nb));
                assert forall|j: int| #![trigger slot_assigned(keys1, j)]
                    0 <= j < nb + 1 implies slot_assigned(keys1, j) by {
                    if j == nb as int {
                        assert(keys1[key as int] == nb);
                    } else {
                        assert(slot_assigned(keys0, j));
                        let b = choose|b: int| 0 <= b < 256 && keys0[b] == j;
                        assert(keys1[b] == j);
                    }
                }
                assert(self.wf());
                assert(self.branches() =~= old(self).branches().insert(key, child));
            }
            Ok(())
        } else {
            Err(child)
        }
    }
}

} // verus!
