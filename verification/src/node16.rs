use vstd::prelude::*;

use crate::Child;
use crate::node256::Node256;
use crate::node48::NO_SLOT;
use crate::node48::Node48;

verus! {

/// The medium node layout: a 16-slot branch-key array searched by
/// byte-equality over the first `nb_children` slots, with the children
/// stored in a parallel array.
pub struct Node16<T> {
    pub(crate) child_indices: Vec<u8>,
    pub(crate) children: Vec<Option<Child<T>>>,
    pub(crate) nb_children: u8,
}

/// Index of the first slot in `keys[i..nb]` holding branch key `b`, or -1.
pub open(crate) spec fn key_slot_from(keys: Seq<u8>, nb: int, b: u8, i: int) -> int
    decreases nb - i,
{
    if i < 0 || i >= nb || i >= keys.len() {
        -1
    } else if keys[i] == b {
        i
    } else {
        key_slot_from(keys, nb, b, i + 1)
    }
}

/// What `key_slot_from` returns: the first slot before `nb` holding `b`, if any.
pub proof fn lemma_key_slot_from(keys: Seq<u8>, nb: int, b: u8, i: int)
    requires
        0 <= i,
        nb <= keys.len(),
    ensures
        ({
            let r = key_slot_from(keys, nb, b, i);
            &&& r == -1 ==> forall|j: int| #![trigger keys[j]] i <= j < nb ==> keys[j] != b
            &&& r != -1 ==> {
                &&& i <= r < nb
                &&& keys[r] == b
                &&& forall|j: int| #![trigger keys[j]] i <= j < r ==> keys[j] != b
            }
        }),
    decreases nb - i,
{
    if i < nb {
        lemma_key_slot_from(keys, nb, b, i + 1);
    }
}

/// Well-formed parts for this layout: both arrays have 16 slots, the
/// occupied prefix is exactly `nb` long, and its branch keys are distinct.
pub open(crate) spec fn n16_wf_parts<T>(keys: Seq<u8>, children: Seq<Option<Child<T>>>, nb: u8) -> bool {
    &&& keys.len() == 16
    &&& children.len() == 16
    &&& nb <= 16
    &&& forall|i: int| #![trigger children[i]] 0 <= i < nb ==> children[i] is Some
    &&& forall|i: int| #![trigger children[i]] nb <= i < 16 ==> children[i] is None
    &&& forall|i: int, j: int| #![trigger keys[i], keys[j]]
        0 <= i < j < nb ==> keys[i] != keys[j]
}

/// The byte-to-child mapping the parts encode.
pub open(crate) spec fn n16_branches_parts<T>(
    keys: Seq<u8>,
    children: Seq<Option<Child<T>>>,
    nb: u8,
) -> Map<u8, Child<T>> {
    Map::new(
        |b: u8| key_slot_from(keys, nb as int, b, 0) != -1,
        |b: u8| children[key_slot_from(keys, nb as int, b, 0)]->Some_0,
    )
}

impl<T> Default for Node16<T> {
    /// An empty layout: no occupied slots.
    fn default() -> (n: Node16<T>)
        ensures
            n.wf(),
            n.branches() == Map::<u8, Child<T>>::empty(),
            n.occupancy() == 0,
            !n.is_full(),
    {
        let mut child_indices: Vec<u8> = Vec::new();
        while child_indices.len() < 16
            invariant
                child_indices@.len() <= 16,
            decreases 16 - child_indices@.len(),
        {
            child_indices.push(0);
        }
        let mut children: Vec<Option<Child<T>>> = Vec::new();
        while children.len() < 16
            invariant
                children@.len() <= 16,
                forall|j: int| #![trigger children@[j]]
                    0 <= j < children@.len() ==> children@[j] is None,
            decreases 16 - children@.len(),
        {
            children.push(None);
        }
        let n = Node16 { child_indices, children, nb_children: 0 };
        proof {
            assert(n.branches() =~= Map::<u8, Child<T>>::empty());
        }
        n
    }
}

impl<T> Node16<T> {
    pub open(crate) spec fn wf(&self) -> bool {
        n16_wf_parts(self.child_indices@, self.children@, self.nb_children)
    }

    pub open(crate) spec fn branches(&self) -> Map<u8, Child<T>> {
        n16_branches_parts(self.child_indices@, self.children@, self.nb_children)
    }

    pub open(crate) spec fn is_full(&self) -> bool {
        self.nb_children == 16
    }

    /// How many slots are occupied.
    pub open(crate) spec fn occupancy(&self) -> int {
        self.nb_children as int
    }

    /// The occupied prefix of the branch-key array.
    pub open(crate) spec fn keys(&self) -> Seq<u8> {
        self.child_indices@
    }

    /// Assembles a layout from its parts, which must already be well formed.
    pub fn new(child_indices: Vec<u8>, children: Vec<Option<Child<T>>>, nb_children: u8) -> (n: Node16<T>)
        requires
            n16_wf_parts(child_indices@, children@, nb_children),
        ensures
            n.wf(),
            n.branches() == n16_branches_parts(child_indices@, children@, nb_children),
            n.occupancy() == nb_children as int,
            n.is_full() <==> nb_children == 16,
    {
        Node16 { child_indices, children, nb_children }
    }

    /// The occupied slot whose branch key equals `key`, if any: a linear
    /// byte-equality search over the occupied prefix of the key array. A
    /// data-parallel comparison of all sixteen slots at once, masked down to
    /// the occupied prefix, must return exactly the same slot.
    pub fn find_child_index(&self, key: u8) -> (r: Option<usize>)
        requires
            self.wf(),
        ensures
            match r {
                Some(i) => i < self.occupancy()
                    && key_slot_from(self.keys(), self.occupancy(), key, 0) == i,
                None => key_slot_from(self.keys(), self.occupancy(), key, 0) == -1,
            },
    {
        let nb = self.nb_children as usize;
        let ghost nbi = self.nb_children as int;
        let mut i: usize = 0;
        while i < nb
            invariant
                self.wf(),
                nb == self.nb_children as usize,
                i <= nb,
                forall|j: int| #![trigger self.child_indices@[j]]
                    0 <= j < i ==> self.child_indices@[j] != key,
            decreases nb - i,
        {
            if self.child_indices[i] == key {
                proof {
                    let nbi = self.nb_children as int;
                    lemma_key_slot_from(self.child_indices@, nbi, key, 0);
                    let r = key_slot_from(self.child_indices@, nbi, key, 0);
                    if r == -1 {
                        assert(self.child_indices@[i as int] != key);
                    } else if r < i {
                        assert(self.child_indices@[r] != key);
                    } else if r > i {
                        assert(self.child_indices@[i as int] != key);
                    }
                }
                return Some(i);
            }
            i += 1;
        }
        proof {
            lemma_key_slot_from(self.child_indices@, nbi, key, 0);
            let r = key_slot_from(self.child_indices@, nbi, key, 0);
            if r != -1 {
                assert(self.child_indices@[r] != key);
            }
        }
        None
    }

    /// Upgrades a full layout to the 48-slot layout, re-deriving the
    /// 256-entry index table from scratch: slot `i`'s branch key becomes the
    /// table entry pointing back at slot `i`.
    pub fn upgrade_to_node48(self) -> (n: Node48<T>)
        requires
            self.wf(),
            self.is_full(),
        ensures
            n.wf(),
            n.branches() == self.branches(),
            n.occupancy() == 16,
            !n.is_full(),
    {
        let ghost keys0 = self.child_indices@;
        let ghost c0 = self.children@;
        let mut s = self;

        let mut child_indices: Vec<u8> = Vec::new();
        while child_indices.len() < 256
            invariant
                child_indices@.len() <= 256,
                forall|j: int| #![trigger child_indices@[j]]
                    0 <= j < child_indices@.len() ==> child_indices@[j] == NO_SLOT,
            decreases 256 - child_indices@.len(),
        {
            child_indices.push(NO_SLOT);
        }

        let mut children: Vec<Option<Child<T>>> = Vec::new();
        let mut i: usize = 0;
        while i < 16
            invariant
                i <= 16,
                n16_wf_parts(keys0, c0, 16u8),
                s.child_indices@ == keys0,
                s.children@.len() == 16,
                forall|j: int| #![trigger s.children@[j]] i <= j < 16 ==> s.children@[j] == c0[j],
                children@.len() == i,
                forall|j: int| #![trigger children@[j]] 0 <= j < i ==> children@[j] == c0[j],
                child_indices@.len() == 256,
                forall|j: int| #![trigger keys0[j]]
                    0 <= j < i ==> child_indices@[keys0[j] as int] as int == j,
                forall|b: int| #![trigger child_indices@[b]]
                    0 <= b < 256 && child_indices@[b] != NO_SLOT ==> child_indices@[b] < i
                        && keys0[child_indices@[b] as int] == b,
            decreases 16 - i,
        {
            let k = s.child_indices[i];
            proof {
                assert forall|j: int| #![trigger keys0[j]] 0 <= j < 16 && j != i implies keys0[j]
                    != k by {}
            }
            let e = &mut child_indices[k as usize];
            *e = i as u8;
            let slot = &mut s.children[i];
            let c = slot.take();
            children.push(c);
            i += 1;
        }

        let ghost prefix16 = children@;
        while children.len() < 48
            invariant
                16 <= children@.len() <= 48,
                prefix16.len() == 16,
                children@.subrange(0, 16) == prefix16,
                forall|j: int| #![trigger children@[j]] 16 <= j < children@.len()
                    ==> children@[j] is None,
            decreases 48 - children@.len(),
        {
            children.push(None);
        }

        let ghost keys48 = child_indices@;
        let ghost slots48 = children@;
        proof {
            assert forall|j: int| 0 <= j < 16 implies slots48[j] == c0[j] by {
                assert(slots48.subrange(0, 16)[j] == slots48[j]);
                assert(prefix16[j] == c0[j]);
            }
            assert forall|j: int| #![trigger crate::node48::slot_assigned(keys48, j)]
                0 <= j < 16 implies crate::node48::slot_assigned(keys48, j) by {
                assert(keys48[keys0[j] as int] as int == j);
            }
            assert(crate::node48::n48_wf_parts(keys48, slots48, 16u8));
        }
        let n = Node48::new(child_indices, children, 16);
        proof {
            assert forall|b: u8| n.branches().contains_key(b) == self.branches().contains_key(
                b,
            ) by {
                lemma_key_slot_from(keys0, 16, b, 0);
                let r = key_slot_from(keys0, 16, b, 0);
                if r != -1 {
                    assert(keys0[r] == b);
                    assert(keys48[b as int] as int == r);
                } else {
                    if keys48[b as int] != NO_SLOT {
                        assert(keys0[keys48[b as int] as int] == b);
                    }
                }
            }
            assert forall|b: u8| self.branches().contains_key(b) implies n.branches()[b]
                == self.branches()[b] by {
                lemma_key_slot_from(keys0, 16, b, 0);
                let r = key_slot_from(keys0, 16, b, 0);
                assert(r != -1 && keys0[r] == b);
                assert(keys48[b as int] as int == r);
                assert(n.branches()[b] == slots48[r]->Some_0);
                assert(slots48[r] == c0[r]);
            }
            assert(n.branches() =~= self.branches());
        }
        n
    }

    /// Upgrades a full layout straight to the terminal layout, giving each of
    /// the sixteen children its directly indexed slot.
    pub fn upgrade_to_node256(self) -> (n: Node256<T>)
        requires
            self.wf(),
            self.is_full(),
        ensures
            n.wf(),
            n.branches() == self.branches(),
    {
        let ghost keys0 = self.child_indices@;
        let ghost c0 = self.children@;
        let mut s = self;

        let mut children: Vec<Option<Child<T>>> = Vec::new();
        while children.len() < 256
            invariant
                children@.len() <= 256,
                forall|j: int| #![trigger children@[j]]
                    0 <= j < children@.len() ==> children@[j] is None,
            decreases 256 - children@.len(),
        {
            children.push(None);
        }

        let mut i: usize = 0;
        while i < 16
            invariant
                i <= 16,
                n16_wf_parts(keys0, c0, 16u8),
                s.child_indices@ == keys0,
                s.children@.len() == 16,
                forall|j: int| #![trigger s.children@[j]] i <= j < 16 ==> s.children@[j] == c0[j],
                children@.len() == 256,
                forall|j: int| #![trigger keys0[j]]
                    0 <= j < i ==> children@[keys0[j] as int] == c0[j],
                forall|b: int| #![trigger children@[b]]
                    0 <= b < 256 && children@[b] is Some ==> exists|j: int|
                        0 <= j < i && keys0[j] == b,
            decreases 16 - i,
        {
            let k = s.child_indices[i];
            proof {
                assert forall|j: int| #![trigger keys0[j]] 0 <= j < 16 && j != i implies keys0[j]
                    != k by {}
            }
            let slot = &mut s.children[i];
            let c = slot.take();
            let dst = &mut children[k as usize];
            *dst = c;
            proof {
                assert forall|b: int| #![trigger children@[b]]
                    0 <= b < 256 && children@[b] is Some implies exists|j: int|
                    0 <= j < i + 1 && keys0[j] == b by {
                    if b == k as int {
                        assert(0 <= i < i + 1 && keys0[i as int] == b);
                    }
                }
            }
            i += 1;
        }

        let ghost slots256 = children@;
        let n = Node256::new(children);
        proof {
            assert forall|b: u8| n.branches().contains_key(b) == self.branches().contains_key(
                b,
            ) by {
                lemma_key_slot_from(keys0, 16, b, 0);
                let r = key_slot_from(keys0, 16, b, 0);
                if r != -1 {
                    assert(keys0[r] == b);
                    assert(slots256[b as int] == c0[r]);
                } else {
                    if slots256[b as int] is Some {
                        let j = choose|j: int| 0 <= j < 16 && keys0[j] == b as int;
                        assert(keys0[j] == b);
                    }
                }
            }
            assert forall|b: u8| self.branches().contains_key(b) implies n.branches()[b]
                == self.branches()[b] by {
                lemma_key_slot_from(keys0, 16, b, 0);
                let r = key_slot_from(keys0, 16, b, 0);
                assert(r != -1 && keys0[r] == b);
                assert(slots256[b as int] == c0[r]);
            }
            assert(n.branches() =~= self.branches());
        }
        n
    }

    /// A shared borrow of the child under `key`, if that branch exists.
    pub fn find_child(&self, key: u8) -> (r: Option<&Child<T>>)
        requires
            self.wf(),
        ensures
            match r {
                Some(c) => self.branches().contains_key(key) && *c == self.branches()[key],
                None => !self.branches().contains_key(key),
            },
    {
        match self.find_child_index(key) {
            Some(i) => match &self.children[i] {
                Some(c) => Some(c),
                None => vstd::pervasive::unreached(),
            },
            None => None,
        }
    }

    /// Exchanges the child stored under `key`, which must be branched, with
    /// the child behind `child`.
    pub fn swap_child(&mut self, key: u8, child: &mut Child<T>)
        requires
            old(self).wf(),
            old(self).branches().contains_key(key),
        ensures
            *final(child) == old(self).branches()[key],
            final(self).wf(),
            final(self).is_full() == old(self).is_full(),
            final(self).branches() == old(self).branches().insert(key, *old(child)),
    {
        let ghost c0 = self.children@;
        let ghost keys = self.child_indices@;
        let ghost nbi = self.nb_children as int;
        match self.find_child_index(key) {
            Some(i) => {
                match &mut self.children[i] {
                    Some(c) => {
                        core::mem::swap(c, child);
                    },
                    None => {
                        proof {
                            assert(false);
                        }
                    },
                }
                proof {
                    lemma_key_slot_from(keys, nbi, key, 0);
                    assert(self.children@ == c0.update(i as int, Some(*old(child))));
                    assert forall|b: u8| b != key && key_slot_from(keys, nbi, b, 0)
                        != -1 implies self.children@[key_slot_from(keys, nbi, b, 0)] == c0[
                        key_slot_from(keys, nbi, b, 0)
                    ] by {
                        lemma_key_slot_from(keys, nbi, b, 0);
                    }
                    assert(self.branches() =~= old(self).branches().insert(key, *old(child)));
                }
            },
            None => {
                proof {
                    assert(false);
                }
            },
        }
    }

    /// Inserts `child` under `key`, replacing and returning any child already
    /// branched there. When a fresh branch would exceed the sixteen slots,
    /// the layout is left unchanged and the child is handed back as the error.
    pub fn insert_child(&mut self, key: u8, child: Child<T>) -> (r: Result<
        Option<Child<T>>,
        Child<T>,
    >)
        requires
            old(self).wf(),
        ensures
            match r {
                Ok(prev) => {
                    &&& final(self).wf()
                    &&& final(self).branches() == old(self).branches().insert(key, child)
                    &&& final(self).occupancy() == old(self).occupancy() + (
                    if old(self).branches().contains_key(key) {
                        0int
                    } else {
                        1int
                    })
                    &&& prev == (if old(self).branches().contains_key(key) {
                        Some(old(self).branches()[key])
                    } else {
                        None::<Child<T>>
                    })
                },
                Err(c) => {
                    &&& c == child
                    &&& *final(self) == *old(self)
                    &&& old(self).is_full()
                    &&& !old(self).branches().contains_key(key)
                },
            },
    {
        let mut c = child;
        let ghost c0 = self.children@;
        let ghost keys = self.child_indices@;
        let ghost nbi = self.nb_children as int;
        match self.find_child_index(key) {
            Some(i) => {
                match &mut self.children[i] {
                    Some(sc) => {
                        core::mem::swap(sc, &mut c);
                    },
                    None => {
                        proof {
                            assert(false);
                        }
                    },
                }
                proof {
                    lemma_key_slot_from(keys, nbi, key, 0);
                    assert(self.children@ == c0.update(i as int, Some(child)));
                    assert forall|b: u8| b != key && key_slot_from(keys, nbi, b, 0)
                        != -1 implies self.children@[key_slot_from(keys, nbi, b, 0)] == c0[
                        key_slot_from(keys, nbi, b, 0)
                    ] by {
                        lemma_key_slot_from(keys, nbi, b, 0);
                    }
                    assert(self.branches() =~= old(self).branches().insert(key, child));
                }
                Ok(Some(c))
            },
            None => {
                if self.nb_children < 16 {
                    let nb = self.nb_children as usize;
                    let ks = &mut self.child_indices[nb];
                    *ks = key;
                    let cs = &mut self.children[nb];
                    *cs = Some(c);
                    self.nb_children = self.nb_children + 1;
                    proof {
                        lemma_append_branches(keys, c0, nbi, key, child);
                        assert(self.branches() =~= old(self).branches().insert(key, child));
                    }
                    Ok(None)
                } else {
                    Err(c)
                }
            },
        }
    }

    /// Inserts `child` under `key` only if that branch does not exist yet;
    /// an existing branch is left untouched and the new child is dropped.
    /// When a fresh branch would exceed the sixteen slots, the layout is left
    /// unchanged and the child is handed back as the error.
    pub fn insert_child_if_not_exists(&mut self, key: u8, child: Child<T>) -> (r: Result<
        (),
        Child<T>,
    >)
        requires
            old(self).wf(),
        ensures
            match r {
                Ok(_) => {
                    &&& final(self).wf()
                    &&& final(self).branches() == (if old(self).branches().contains_key(key) {
                        old(self).branches()
                    } else {
                        old(self).branches().insert(key, child)
                    })
                    &&& final(self).occupancy() == old(self).occupancy() + (
                    if old(self).branches().contains_key(key) {
                        0int
                    } else {
                        1int
                    })
                },
                Err(c) => {
                    &&& c == child
                    &&& *final(self) == *old(self)
                    &&& old(self).is_full()
                    &&& !old(self).branches().contains_key(key)
                },
            },
    {
        let ghost c0 = self.children@;
        let ghost keys = self.child_indices@;
        let ghost nbi = self.nb_children as int;
        match self.find_child_index(key) {
            Some(_) => Ok(()),
            None => {
                if self.nb_children < 16 {
                    let nb = self.nb_children as usize;
                    let ks = &mut self.child_indices[nb];
                    *ks = key;
                    let cs = &mut self.children[nb];
                    *cs = Some(child);
                    self.nb_children = self.nb_children + 1;
                    proof {
                        lemma_append_branches(keys, c0, nbi, key, child);
                        assert(self.branches() =~= old(self).branches().insert(key, child));
                    }
                    Ok(())
                } else {
                    Err(child)
                }
            },
        }
    }
}

/// Appending a fresh branch key at the occupancy boundary extends the encoded
/// mapping by exactly that branch, preserves well-formedness, and leaves every
/// other branch untouched.
proof fn lemma_append_branches<T>(
    keys: Seq<u8>,
    children: Seq<Option<Child<T>>>,
    nb: int,
    key: u8,
    child: Child<T>,
)
    requires
        n16_wf_parts(keys, children, nb as u8),
        0 <= nb < 16,
        nb == nb as u8 as int,
        key_slot_from(keys, nb, key, 0) == -1,
    ensures
        n16_wf_parts(
            keys.update(nb, key),
            children.update(nb, Some(child)),
            (nb + 1) as u8,
        ),
        n16_branches_parts(keys.update(nb, key), children.update(nb, Some(child)), (nb + 1) as u8)
            == n16_branches_parts(keys, children, nb as u8).insert(key, child),
{
    let keys1 = keys.update(nb, key);
    let c1 = children.update(nb, Some(child));
    lemma_key_slot_from(keys, nb, key, 0);
    assert forall|b: u8| #![auto] true implies key_slot_from(keys1, nb + 1, b, 0) == (if b == key {
        nb
    } else {
        key_slot_from(keys, nb, b, 0)
    }) by {
        lemma_key_slot_from(keys1, nb + 1, b, 0);
        lemma_key_slot_from(keys, nb, b, 0);
        let r1 = key_slot_from(keys1, nb + 1, b, 0);
        let r0 = key_slot_from(keys, nb, b, 0);
        if b == key {
            assert(keys1[nb] == b);
            if r1 == -1 {
                assert(keys1[nb] != b);
            }
            if r1 < nb {
                assert(keys[r1] == b);
            }
        } else {
            if r0 == -1 {
                if r1 != -1 {
                    assert(keys1[r1] == b);
                    assert(r1 != nb);
                    assert(keys[r1] == b);
                }
            } else {
                assert(keys1[r0] == b);
                if r1 == -1 {
                    assert(keys1[r0] != b);
                }
                if r1 < r0 {
                    assert(keys[r1] == b);
                }
                if r0 < r1 {
                    assert(keys1[r0] != b);
                }
            }
        }
    }
    assert(c1[nb] == Some(child));
    assert forall|b: u8| b != key && key_slot_from(keys, nb, b, 0) != -1 implies 0 <= key_slot_from(
        keys,
        nb,
        b,
        0,
    ) < nb && c1[key_slot_from(keys, nb, b, 0)] == children[key_slot_from(keys, nb, b, 0)] by {
        lemma_key_slot_from(keys, nb, b, 0);
    }
    assert(n16_branches_parts(keys1, c1, (nb + 1) as u8) =~= n16_branches_parts(
        keys,
        children,
        nb as u8,
    ).insert(key, child));
}

} // verus!
