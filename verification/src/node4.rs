use vstd::prelude::*;

use crate::Child;
use crate::node16::Node16;
use crate::node16::key_slot_from;
use crate::node16::lemma_key_slot_from;
use crate::node256::Node256;
use crate::node48::NO_SLOT;
use crate::node48::Node48;

verus! {

/// The smallest node layout: up to four (branch key, child) pairs, searched
/// by a linear scan.
pub struct Node4<T> {
    pub(crate) children: Vec<Option<(u8, Child<T>)>>,
}

/// Index of the first slot in `s[i..]` holding branch key `b`, or -1.
pub open(crate) spec fn slot_from<T>(s: Seq<Option<(u8, Child<T>)>>, b: u8, i: int) -> int
    decreases s.len() - i,
{
    if i < 0 || i >= s.len() {
        -1
    } else if s[i] matches Some(e) && e.0 == b {
        i
    } else {
        slot_from(s, b, i + 1)
    }
}

/// What `slot_from` returns: the first matching slot at or after `i`, if any.
pub proof fn lemma_slot_from<T>(s: Seq<Option<(u8, Child<T>)>>, b: u8, i: int)
    requires
        0 <= i <= s.len(),
    ensures
        ({
            let r = slot_from(s, b, i);
            &&& r == -1 ==> forall|j: int| #![trigger s[j]]
                i <= j < s.len() ==> !(s[j] matches Some(e) && e.0 == b)
            &&& r != -1 ==> {
                &&& i <= r < s.len()
                &&& s[r] matches Some(e) && e.0 == b
                &&& forall|j: int| #![trigger s[j]] i <= j < r ==> !(s[j] matches Some(e) && e.0 == b)
            }
        }),
    decreases s.len() - i,
{
    if i < s.len() {
        lemma_slot_from(s, b, i + 1);
    }
}

/// Two slot sequences with the same occupancy and the same branch keys are
/// searched identically, whatever children they hold.
pub proof fn lemma_slot_from_same_keys<T>(
    s1: Seq<Option<(u8, Child<T>)>>,
    s2: Seq<Option<(u8, Child<T>)>>,
    b: u8,
    i: int,
)
    requires
        s1.len() == s2.len(),
        forall|j: int| #![trigger s1[j], s2[j]]
            0 <= j < s1.len() ==> {
                &&& (s1[j] is Some <==> s2[j] is Some)
                &&& (s1[j] is Some ==> s1[j]->Some_0.0 == s2[j]->Some_0.0)
            },
    ensures
        slot_from(s1, b, i) == slot_from(s2, b, i),
    decreases s1.len() - i,
{
    if 0 <= i < s1.len() {
        lemma_slot_from_same_keys(s1, s2, b, i + 1);
    }
}

/// Updating a slot that holds no match for `b`, to a value that is no match
/// for `b` either, leaves the search for `b` unchanged.
pub proof fn lemma_slot_from_update_no_match<T>(
    s: Seq<Option<(u8, Child<T>)>>,
    j: int,
    v: Option<(u8, Child<T>)>,
    b: u8,
    i: int,
)
    requires
        0 <= j < s.len(),
        !(s[j] matches Some(e) && e.0 == b),
        !(v matches Some(e) && e.0 == b),
    ensures
        slot_from(s.update(j, v), b, i) == slot_from(s, b, i),
    decreases s.len() - i,
{
    if 0 <= i < s.len() {
        lemma_slot_from_update_no_match(s, j, v, b, i + 1);
    }
}

impl<T> Default for Node4<T> {
    /// An empty layout: four vacant slots.
    fn default() -> (n: Node4<T>)
        ensures
            n.wf(),
            n.branches() == Map::<u8, Child<T>>::empty(),
            !n.is_full(),
    {
        Node4::new()
    }
}

impl<T> Node4<T> {
    /// Slots are packed to the front and hold pairwise distinct branch keys.
    pub open(crate) spec fn wf(&self) -> bool {
        &&& self.children@.len() == 4
        &&& forall|i: int, j: int| #![trigger self.children@[i], self.children@[j]]
            0 <= i < j < 4 && self.children@[j] is Some ==> self.children@[i] is Some
        &&& forall|i: int, j: int| #![trigger self.children@[i], self.children@[j]]
            0 <= i < j < 4 && self.children@[i] is Some && self.children@[j] is Some
                ==> self.children@[i]->Some_0.0 != self.children@[j]->Some_0.0
    }

    /// The byte-to-child mapping this layout encodes.
    pub open(crate) spec fn branches(&self) -> Map<u8, Child<T>> {
        Map::new(
            |b: u8| slot_from(self.children@, b, 0) != -1,
            |b: u8| self.children@[slot_from(self.children@, b, 0)]->Some_0.1,
        )
    }

    pub open(crate) spec fn is_full(&self) -> bool {
        self.children@[3] is Some
    }

    /// An empty layout: four vacant slots.
    pub fn new() -> (n: Node4<T>)
        ensures
            n.wf(),
            n.branches() == Map::<u8, Child<T>>::empty(),
            !n.is_full(),
    {
        let mut children: Vec<Option<(u8, Child<T>)>> = Vec::new();
        children.push(None);
        children.push(None);
        children.push(None);
        children.push(None);
        let n = Node4 { children };
        proof {
            assert forall|b: u8| slot_from(n.children@, b, 0) == -1 by {
                lemma_slot_from(n.children@, b, 0);
            }
            assert(n.branches() =~= Map::<u8, Child<T>>::empty());
        }
        n
    }

    /// The slot holding branch key `key`, if the key is branched.
    fn slot_of(&self, key: u8) -> (r: Option<usize>)
        requires
            self.wf(),
        ensures
            match r {
                Some(i) => i < 4 && slot_from(self.children@, key, 0) == i,
                None => slot_from(self.children@, key, 0) == -1,
            },
    {
        proof {
            lemma_slot_from(self.children@, key, 0);
        }
        let mut i: usize = 0;
        while i < 4
            invariant
                self.wf(),
                i <= 4,
                forall|j: int| #![trigger self.children@[j]]
                    0 <= j < i ==> !(self.children@[j] matches Some(e) && e.0 == key),
            decreases 4 - i,
        {
            let hit = match &self.children[i] {
                Some(p) => p.0 == key,
                None => false,
            };
            if hit {
                proof {
                    lemma_slot_from(self.children@, key, 0);
                    let r = slot_from(self.children@, key, 0);
                    assert(self.children@[i as int] matches Some(e) && e.0 == key);
                    if r == -1 {
                        assert(!(self.children@[i as int] matches Some(e) && e.0 == key));
                    } else if r < i {
                        assert(!(self.children@[r] matches Some(e) && e.0 == key));
                    } else if r > i {
                        assert(!(self.children@[i as int] matches Some(e) && e.0 == key));
                    }
                }
                return Some(i);
            }
            i += 1;
        }
        None
    }

    /// The first vacant slot, absent exactly when the layout is full.
    fn first_vacant(&self) -> (r: Option<usize>)
        requires
            self.wf(),
        ensures
            match r {
                Some(i) => i < 4 && self.children@[i as int] is None && forall|j: int|
                    #![trigger self.children@[j]] 0 <= j < i ==> self.children@[j] is Some,
                None => self.is_full(),
            },
    {
        let mut i: usize = 0;
        while i < 4
            invariant
                self.wf(),
                i <= 4,
                forall|j: int| #![trigger self.children@[j]] 0 <= j < i ==> self.children@[j] is Some,
            decreases 4 - i,
        {
            let vacant = match &self.children[i] {
                Some(_) => false,
                None => true,
            };
            if vacant {
                return Some(i);
            }
            i += 1;
        }
        None
    }

    /// A shared borrow of the child under `key`, if that branch exists.
    pub fn find_child(&self, key: u8) -> (r: Option<&Child<T>>)
        requires
            self.wf(),
        ensures
            match r {
                Some(c) => self.branches().contains_key(key) && *c == self.branches()[key],
                None => !self.branches().contains_key(key),
            },
    {
        proof {
            lemma_slot_from(self.children@, key, 0);
        }
        match self.slot_of(key) {
            Some(i) => match &self.children[i] {
                Some(p) => Some(&p.1),
                None => vstd::pervasive::unreached(),
            },
            None => None,
        }
    }

    /// Inserts `child` under `key`, replacing and returning any child already
    /// branched there. When a fresh branch would exceed the four slots, the
    /// layout is left unchanged and the child is handed back as the error.
    pub fn insert_child(&mut self, key: u8, child: Child<T>) -> (r: Result<
        Option<Child<T>>,
        Child<T>,
    >)
        requires
            old(self).wf(),
        ensures
            match r {
                Ok(prev) => {
                    &&& final(self).wf()
                    &&& final(self).branches() == old(self).branches().insert(key, child)
                    &&& prev == (if old(self).branches().contains_key(key) {
                        Some(old(self).branches()[key])
                    } else {
                        None::<Child<T>>
                    })
                },
                Err(c) => {
                    &&& c == child
                    &&& *final(self) == *old(self)
                    &&& old(self).is_full()
                    &&& !old(self).branches().contains_key(key)
                },
            },
    {
        let mut c = child;
        let ghost s0 = self.children@;
        match self.slot_of(key) {
            Some(i) => {
                proof {
                    lemma_slot_from(s0, key, 0);
                }
                match &mut self.children[i] {
                    Some(p) => {
                        core::mem::swap(&mut p.1, &mut c);
                    },
                    None => {
                        proof {
                            assert(false);
                        }
                    },
                }
                proof {
                    let s1 = self.children@;
                    assert(s1 == s0.update(i as int, Some((key, child))));
                    assert forall|b: u8| slot_from(s1, b, 0) == slot_from(s0, b, 0) by {
                        lemma_slot_from_same_keys(s1, s0, b, 0);
                    }
                    assert forall|b: u8| b != key && slot_from(s0, b, 0) != -1 implies s1[slot_from(
                        s0,
                        b,
                        0,
                    )] == s0[slot_from(s0, b, 0)] by {
                        lemma_slot_from(s0, b, 0);
                    }
                    assert(self.branches() =~= old(self).branches().insert(key, child));
                }
                Ok(Some(c))
            },
            None => {
                match self.first_vacant() {
                    Some(j) => {
                        let slot = &mut self.children[j];
                        *slot = Some((key, c));
                        proof {
                            let s1 = self.children@;
                            assert(s1 == s0.update(j as int, Some((key, child))));
                            assert forall|b: u8| b != key implies slot_from(s1, b, 0) == slot_from(
                                s0,
                                b,
                                0,
                            ) by {
                                lemma_slot_from_update_no_match(
                                    s0,
                                    j as int,
                                    Some((key, child)),
                                    b,
                                    0,
                                );
                            }
                            lemma_slot_from(s1, key, 0);
                            let rk = slot_from(s1, key, 0);
                            assert(s1[j as int] matches Some(e) && e.0 == key);
                            if rk == -1 {
                                assert(!(s1[j as int] matches Some(e) && e.0 == key));
                            } else if rk < j {
                                assert(s0[rk] == s1[rk]);
                                lemma_slot_from(s0, key, 0);
                            }
                            assert(rk == j);
                            assert forall|b: u8| b != key && slot_from(s0, b, 0) != -1 implies s1[slot_from(s0, b, 0)] == s0[slot_from(s0, b, 0)] by {
                                lemma_slot_from(s0, b, 0);
                            }
                            assert(self.wf());
                            assert(self.branches() =~= old(self).branches().insert(key, child));
                        }
                        Ok(None)
                    },
                    None => Err(c),
                }
            },
        }
    }

    /// Inserts `child` under `key` only if that branch does not exist yet;
    /// an existing branch is left untouched and the new child is dropped.
    /// When a fresh branch would exceed the four slots, the layout is left
    /// unchanged and the child is handed back as the error.
    pub fn insert_child_if_not_exists(&mut self, key: u8, child: Child<T>) -> (r: Result<
        (),
        Child<T>,
    >)
        requires
            old(self).wf(),
        ensures
            match r {
                Ok(_) => {
                    &&& final(self).wf()
                    &&& final(self).branches() == (if old(self).branches().contains_key(key) {
                        old(self).branches()
                    } else {
                        old(self).branches().insert(key, child)
                    })
                },
                Err(c) => {
                    &&& c == child
                    &&& *final(self) == *old(self)
                    &&& old(self).is_full()
                    &&& !old(self).branches().contains_key(key)
                },
            },
    {
        let ghost s0 = self.children@;
        match self.slot_of(key) {
            Some(_) => Ok(()),
            None => {
                match self.first_vacant() {
                    Some(j) => {
                        let slot = &mut self.children[j];
                        *slot = Some((key, child));
                        proof {
                            let s1 = self.children@;
                            assert(s1 == s0.update(j as int, Some((key, child))));
                            assert forall|b: u8| b != key implies slot_from(s1, b, 0) == slot_from(
                                s0,
                                b,
                                0,
                            ) by {
                                lemma_slot_from_update_no_match(
                                    s0,
                                    j as int,
                                    Some((key, child)),
                                    b,
                                    0,
                                );
                            }
                            lemma_slot_from(s1, key, 0);
                            let rk = slot_from(s1, key, 0);
                            assert(s1[j as int] matches Some(e) && e.0 == key);
                            if rk == -1 {
                                assert(!(s1[j as int] matches Some(e) && e.0 == key));
                            } else if rk < j {
                                assert(s0[rk] == s1[rk]);
                                lemma_slot_from(s0, key, 0);
                            }
                            assert(rk == j);
                            assert forall|b: u8| b != key && slot_from(s0, b, 0) != -1 implies s1[slot_from(s0, b, 0)] == s0[slot_from(s0, b, 0)] by {
                                lemma_slot_from(s0, b, 0);
                            }
                            assert(self.wf());
                            assert(self.branches() =~= old(self).branches().insert(key, child));
                        }
                        Ok(())
                    },
                    None => Err(child),
                }
            },
        }
    }

    /// Upgrades a full layout to the sixteen-slot layout, carrying every
    /// (branch key, child) pair over into the occupied prefix of the key and
    /// child arrays.
    pub fn upgrade_to_node16(self) -> (n: Node16<T>)
        requires
            self.wf(),
            self.is_full(),
        ensures
            n.wf(),
            n.branches() == self.branches(),
            n.occupancy() == 4,
            !n.is_full(),
    {
        let ghost s0 = self.children@;
        let mut s = self;
        let slot0 = &mut s.children[0];
        let e0 = slot0.take();
        let slot1 = &mut s.children[1];
        let e1 = slot1.take();
        let slot2 = &mut s.children[2];
        let e2 = slot2.take();
        let slot3 = &mut s.children[3];
        let e3 = slot3.take();
        let (k0, c0) = e0.unwrap();
        let (k1, c1) = e1.unwrap();
        let (k2, c2) = e2.unwrap();
        let (k3, c3) = e3.unwrap();
        proof {
            assert(s0[0] is Some && s0[1] is Some && s0[2] is Some && s0[3] is Some);
            assert(e0 == s0[0] && e1 == s0[1] && e2 == s0[2] && e3 == s0[3]);
            assert(k0 != k1 && k0 != k2 && k0 != k3 && k1 != k2 && k1 != k3 && k2 != k3);
        }

        let mut child_indices: Vec<u8> = Vec::new();
        child_indices.push(k0);
        child_indices.push(k1);
        child_indices.push(k2);
        child_indices.push(k3);
        while child_indices.len() < 16
            invariant
                4 <= child_indices@.len() <= 16,
                child_indices@[0] == k0,
                child_indices@[1] == k1,
                child_indices@[2] == k2,
                child_indices@[3] == k3,
            decreases 16 - child_indices@.len(),
        {
            child_indices.push(0);
        }

        let mut children: Vec<Option<Child<T>>> = Vec::new();
        children.push(Some(c0));
        children.push(Some(c1));
        children.push(Some(c2));
        children.push(Some(c3));
        let ghost first4 = children@;
        while children.len() < 16
            invariant
                4 <= children@.len() <= 16,
                first4.len() == 4,
                children@.subrange(0, 4) == first4,
                forall|j: int| #![trigger children@[j]] 4 <= j < children@.len()
                    ==> children@[j] is None,
            decreases 16 - children@.len(),
        {
            children.push(None);
        }

        let ghost keys16 = child_indices@;
        let ghost slots16 = children@;
        proof {
            assert forall|j: int| 0 <= j < 4 implies slots16[j] == first4[j] by {
                assert(slots16.subrange(0, 4)[j] == slots16[j]);
            }
            assert(crate::node16::n16_wf_parts(keys16, slots16, 4u8));
        }
        let n = Node16::new(child_indices, children, 4);
        proof {
            assert forall|b: u8|
                key_slot_from(keys16, 4, b, 0) == slot_from(s0, b, 0) by {
                lemma_key_slot_from(keys16, 4, b, 0);
                lemma_slot_from(s0, b, 0);
                let r16 = key_slot_from(keys16, 4, b, 0);
                let r4 = slot_from(s0, b, 0);
                assert forall|j: int| 0 <= j < 4 implies (keys16[j] == b <==> (s0[j] matches Some(e)
                    && e.0 == b)) by {
                    assert(s0[j] is Some);
                }
                if r4 == -1 {
                    if r16 != -1 {
                        assert(keys16[r16] == b);
                    }
                } else {
                    if r16 == -1 {
                        assert(keys16[r4] == b);
                    } else if r16 < r4 {
                        assert(s0[r16] matches Some(e) && e.0 == b);
                    } else if r4 < r16 {
                        assert(keys16[r4] == b);
                    }
                }
            }
            assert forall|b: u8| self.branches().contains_key(b) implies n.branches()[b]
                == self.branches()[b] by {
                lemma_slot_from(s0, b, 0);
                let r4 = slot_from(s0, b, 0);
                assert(0 <= r4 < 4);
                assert(n.branches()[b] == slots16[r4]->Some_0);
                assert(self.branches()[b] == s0[r4]->Some_0.1);
                assert(slots16[r4] == first4[r4]);
                if r4 == 0 {
                    assert(first4[0] == Some(c0) && s0[0]->Some_0.1 == c0);
                } else if r4 == 1 {
                    assert(first4[1] == Some(c1) && s0[1]->Some_0.1 == c1);
                } else if r4 == 2 {
                    assert(first4[2] == Some(c2) && s0[2]->Some_0.1 == c2);
                } else {
                    assert(first4[3] == Some(c3) && s0[3]->Some_0.1 == c3);
                }
            }
            assert(n.branches() =~= self.branches());
        }
        n
    }

    /// Upgrades a full layout straight to the 48-slot layout, deriving the
    /// 256-entry index table from the four stored branch keys.
    pub fn upgrade_to_node48(self) -> (n: Node48<T>)
        requires
            self.wf(),
            self.is_full(),
        ensures
            n.wf(),
            n.branches() == self.branches(),
            n.occupancy() == 4,
            !n.is_full(),
    {
        let ghost s0 = self.children@;
        let mut s = self;
        let slot0 = &mut s.children[0];
        let e0 = slot0.take();
        let slot1 = &mut s.children[1];
        let e1 = slot1.take();
        let slot2 = &mut s.children[2];
        let e2 = slot2.take();
        let slot3 = &mut s.children[3];
        let e3 = slot3.take();
        let (k0, c0) = e0.unwrap();
        let (k1, c1) = e1.unwrap();
        let (k2, c2) = e2.unwrap();
        let (k3, c3) = e3.unwrap();
        proof {
            assert(s0[0] is Some && s0[1] is Some && s0[2] is Some && s0[3] is Some);
            assert(e0 == s0[0] && e1 == s0[1] && e2 == s0[2] && e3 == s0[3]);
            assert(k0 != k1 && k0 != k2 && k0 != k3 && k1 != k2 && k1 != k3 && k2 != k3);
        }

        let mut child_indices: Vec<u8> = Vec::new();
        while child_indices.len() < 256
            invariant
                child_indices@.len() <= 256,
                forall|j: int| #![trigger child_indices@[j]]
                    0 <= j < child_indices@.len() ==> child_indices@[j] == NO_SLOT,
            decreases 256 - child_indices@.len(),
        {
            child_indices.push(NO_SLOT);
        }
        let t0 = &mut child_indices[k0 as usize];
        *t0 = 0;
        let t1 = &mut child_indices[k1 as usize];
        *t1 = 1;
        let t2 = &mut child_indices[k2 as usize];
        *t2 = 2;
        let t3 = &mut child_indices[k3 as usize];
        *t3 = 3;

        let mut children: Vec<Option<Child<T>>> = Vec::new();
        children.push(Some(c0));
        children.push(Some(c1));
        children.push(Some(c2));
        children.push(Some(c3));
        let ghost first4 = children@;
        while children.len() < 48
            invariant
                4 <= children@.len() <= 48,
                first4.len() == 4,
                children@.subrange(0, 4) == first4,
                forall|j: int| #![trigger children@[j]] 4 <= j < children@.len()
                    ==> children@[j] is None,
            decreases 48 - children@.len(),
        {
            children.push(None);
        }

        let ghost keys48 = child_indices@;
        let ghost slots48 = children@;
        proof {
            assert forall|j: int| 0 <= j < 4 implies slots48[j] == first4[j] by {
                assert(slots48.subrange(0, 4)[j] == slots48[j]);
            }
            assert forall|b: int| 0 <= b < 256 implies keys48[b] == (if b == k0 {
                0u8
            } else if b == k1 {
                1u8
            } else if b == k2 {
                2u8
            } else if b == k3 {
                3u8
            } else {
                NO_SLOT
            }) by {}
            assert forall|j: int| #![trigger crate::node48::slot_assigned(keys48, j)]
                0 <= j < 4 implies crate::node48::slot_assigned(keys48, j) by {
                if j == 0 {
                    assert(keys48[k0 as int] == 0);
                } else if j == 1 {
                    assert(keys48[k1 as int] == 1);
                } else if j == 2 {
                    assert(keys48[k2 as int] == 2);
                } else {
                    assert(keys48[k3 as int] == 3);
                }
            }
            assert(crate::node48::n48_wf_parts(keys48, slots48, 4u8));
        }
        let n = Node48::new(child_indices, children, 4);
        proof {
            assert forall|b: u8| n.branches().contains_key(b) == self.branches().contains_key(
                b,
            ) by {
                lemma_slot_from(s0, b, 0);
                let r4 = slot_from(s0, b, 0);
                if b == k0 || b == k1 || b == k2 || b == k3 {
                    let i: int = if b == k0 {
                        0
                    } else if b == k1 {
                        1
                    } else if b == k2 {
                        2
                    } else {
                        3
                    };
                    assert(s0[i] matches Some(e) && e.0 == b);
                    assert(r4 != -1);
                    assert(keys48[b as int] < 48);
                } else {
                    if r4 != -1 {
                        assert(s0[r4] matches Some(e) && e.0 == b);
                        assert(s0[r4]->Some_0.0 == k0 || s0[r4]->Some_0.0 == k1 || s0[r4]->Some_0.0
                            == k2 || s0[r4]->Some_0.0 == k3);
                    }
                    assert(keys48[b as int] == NO_SLOT);
                }
            }
            assert forall|b: u8| self.branches().contains_key(b) implies n.branches()[b]
                == self.branches()[b] by {
                lemma_slot_from(s0, b, 0);
                let r4 = slot_from(s0, b, 0);
                assert(r4 != -1);
                assert(s0[r4] matches Some(e) && e.0 == b);
                assert(b == k0 || b == k1 || b == k2 || b == k3);
                let i: int = if b == k0 {
                    0
                } else if b == k1 {
                    1
                } else if b == k2 {
                    2
                } else {
                    3
                };
                assert(s0[i] matches Some(e) && e.0 == b);
                assert forall|j: int| #![trigger s0[j]] 0 <= j < 4 && j != i implies !(s0[j]
                    matches Some(e)
                    && e.0 == b) by {}
                assert(r4 == i);
                assert(keys48[b as int] == i);
                assert(n.branches()[b] == slots48[i]->Some_0);
                assert(slots48[i] == first4[i]);
                if i == 0 {
                    assert(first4[0] == Some(c0) && s0[0]->Some_0.1 == c0);
                } else if i == 1 {
                    assert(first4[1] == Some(c1) && s0[1]->Some_0.1 == c1);
                } else if i == 2 {
                    assert(first4[2] == Some(c2) && s0[2]->Some_0.1 == c2);
                } else {
                    assert(first4[3] == Some(c3) && s0[3]->Some_0.1 == c3);
                }
            }
            assert(n.branches() =~= self.branches());
        }
        n
    }

    /// Upgrades a full layout straight to the terminal layout, giving each of
    /// the four children its directly indexed slot.
    pub fn upgrade_to_node256(self) -> (n: Node256<T>)
        requires
            self.wf(),
            self.is_full(),
        ensures
            n.wf(),
            n.branches() == self.branches(),
    {
        let ghost s0 = self.children@;
        let mut s = self;
        let slot0 = &mut s.children[0];
        let e0 = slot0.take();
        let slot1 = &mut s.children[1];
        let e1 = slot1.take();
        let slot2 = &mut s.children[2];
        let e2 = slot2.take();
        let slot3 = &mut s.children[3];
        let e3 = slot3.take();
        let (k0, c0) = e0.unwrap();
        let (k1, c1) = e1.unwrap();
        let (k2, c2) = e2.unwrap();
        let (k3, c3) = e3.unwrap();
        proof {
            assert(s0[0] is Some && s0[1] is Some && s0[2] is Some && s0[3] is Some);
            assert(e0 == s0[0] && e1 == s0[1] && e2 == s0[2] && e3 == s0[3]);
            assert(k0 != k1 && k0 != k2 && k0 != k3 && k1 != k2 && k1 != k3 && k2 != k3);
        }

        let mut children: Vec<Option<Child<T>>> = Vec::new();
        while children.len() < 256
            invariant
                children@.len() <= 256,
                forall|j: int| #![trigger children@[j]]
                    0 <= j < children@.len() ==> children@[j] is None,
            decreases 256 - children@.len(),
        {
            children.push(None);
        }
        let t0 = &mut children[k0 as usize];
        *t0 = Some(c0);
        let t1 = &mut children[k1 as usize];
        *t1 = Some(c1);
        let t2 = &mut children[k2 as usize];
        *t2 = Some(c2);
        let t3 = &mut children[k3 as usize];
        *t3 = Some(c3);

        let ghost slots256 = children@;
        let n = Node256::new(children);
        proof {
            assert forall|b: u8| n.branches().contains_key(b) == self.branches().contains_key(
                b,
            ) by {
                lemma_slot_from(s0, b, 0);
                let r4 = slot_from(s0, b, 0);
                if b == k0 || b == k1 || b == k2 || b == k3 {
                    let i: int = if b == k0 {
                        0
                    } else if b == k1 {
                        1
                    } else if b == k2 {
                        2
                    } else {
                        3
                    };
                    assert(s0[i] matches Some(e) && e.0 == b);
                    assert(r4 != -1);
                    assert(slots256[b as int] is Some);
                } else {
                    if r4 != -1 {
                        assert(s0[r4] matches Some(e) && e.0 == b);
                        assert(s0[r4]->Some_0.0 == k0 || s0[r4]->Some_0.0 == k1 || s0[r4]->Some_0.0
                            == k2 || s0[r4]->Some_0.0 == k3);
                    }
                    assert(slots256[b as int] is None);
                }
            }
            assert forall|b: u8| self.branches().contains_key(b) implies n.branches()[b]
                == self.branches()[b] by {
                lemma_slot_from(s0, b, 0);
                let r4 = slot_from(s0, b, 0);
                assert(r4 != -1);
                assert(s0[r4] matches Some(e) && e.0 == b);
                assert(b == k0 || b == k1 || b == k2 || b == k3);
                let i: int = if b == k0 {
                    0
                } else if b == k1 {
                    1
                } else if b == k2 {
                    2
                } else {
                    3
                };
                assert(s0[i] matches Some(e) && e.0 == b);
                assert forall|j: int| #![trigger s0[j]] 0 <= j < 4 && j != i implies !(s0[j]
                    matches Some(e)
                    && e.0 == b) by {}
                assert(r4 == i);
                assert(n.branches()[b] == slots256[b as int]->Some_0);
                if i == 0 {
                    assert(slots256[b as int] == Some(c0) && s0[0]->Some_0.1 == c0);
                } else if i == 1 {
                    assert(slots256[b as int] == Some(c1) && s0[1]->Some_0.1 == c1);
                } else if i == 2 {
                    assert(slots256[b as int] == Some(c2) && s0[2]->Some_0.1 == c2);
                } else {
                    assert(slots256[b as int] == Some(c3) && s0[3]->Some_0.1 == c3);
                }
            }
            assert(n.branches() =~= self.branches());
        }
        n
    }

    /// Exchanges the child stored under `key`, which must be branched, with
    /// the child behind `child`.
    pub fn swap_child(&mut self, key: u8, child: &mut Child<T>)
        requires
            old(self).wf(),
            old(self).branches().contains_key(key),
        ensures
            *final(child) == old(self).branches()[key],
            final(self).wf(),
            final(self).is_full() == old(self).is_full(),
            final(self).branches() == old(self).branches().insert(key, *old(child)),
    {
        let ghost s0 = self.children@;
        match self.slot_of(key) {
            Some(i) => {
                proof {
                    lemma_slot_from(s0, key, 0);
                }
                match &mut self.children[i] {
                    Some(p) => {
                        core::mem::swap(&mut p.1, child);
                    },
                    None => {
                        proof {
                            assert(false);
                        }
                    },
                }
                proof {
                    let s1 = self.children@;
                    assert(s1 == s0.update(i as int, Some((key, *old(child)))));
                    assert forall|b: u8| slot_from(s1, b, 0) == slot_from(s0, b, 0) by {
                        lemma_slot_from_same_keys(s1, s0, b, 0);
                    }
                    assert forall|b: u8| b != key && slot_from(s0, b, 0) != -1 implies s1[slot_from(
                        s0,
                        b,
                        0,
                    )] == s0[slot_from(s0, b, 0)] by {
                        lemma_slot_from(s0, b, 0);
                    }
                    assert(self.branches() =~= old(self).branches().insert(key, *old(child)));
                }
            },
            None => {
                proof {
                    assert(false);
                }
            },
        }
    }
}

} // verus!
