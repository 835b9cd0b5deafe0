//! An in-memory ordered associative container keyed by byte sequences: an
//! adaptive radix tree. Keys map to values with lookup and insert cost
//! proportional to key length, and each node's physical layout grows with its
//! branching factor — four interchangeable representations, upgraded in place
//! as occupancy demands.
//!
//! The container's abstract state is a finite map from byte-string keys to
//! values (`Trie::view`), and every operation's contract is stated against
//! it. A reserved terminator byte marks the end of a key inside the tree, so
//! a key and its extensions coexist; storing a key that contains the
//! terminator is a per-operation error.

use vstd::prelude::*;

pub mod keygen;
pub mod laws;
mod node16;
mod node256;
mod node4;
mod node48;

pub use node16::Node16;
pub use node256::Node256;
pub use node4::Node4;
pub use node48::Node48;

use node16::key_slot_from;
use node4::slot_from;

verus! {

/// One slot of a node: either a further branching node or a stored value.
/// A leaf only ever hangs off the terminator branch of its parent.
pub enum Child<T> {
    Node(Node<T>),
    Leaf(T),
}

/// The four interchangeable physical layouts of a byte-to-child mapping,
/// ordered by capacity. A node starts in the smallest layout and is upgraded
/// in place, one step at a time, whenever an insert exceeds its capacity.
pub enum NodeRep<T> {
    N4(Node4<T>),
    N16(Node16<T>),
    N48(Node48<T>),
    N256(Node256<T>),
}

/// One interior node of the trie: a byte-indexed mapping from branch keys to
/// children, behind whichever layout currently holds it.
pub struct Node<T> {
    pub(crate) rep: NodeRep<T>,
}

impl<T> NodeRep<T> {
    /// The layout's own well-formedness: capacities respected, index tables
    /// consistent, branch keys distinct.
    pub open(crate) spec fn wf(&self) -> bool {
        match self {
            NodeRep::N4(r) => r.wf(),
            NodeRep::N16(r) => r.wf(),
            NodeRep::N48(r) => r.wf(),
            NodeRep::N256(r) => r.wf(),
        }
    }

    /// The byte-to-child mapping the layout encodes, independent of layout.
    pub open(crate) spec fn branches(&self) -> Map<u8, Child<T>> {
        match self {
            NodeRep::N4(r) => r.branches(),
            NodeRep::N16(r) => r.branches(),
            NodeRep::N48(r) => r.branches(),
            NodeRep::N256(r) => r.branches(),
        }
    }

    /// Whether the next insert of a fresh branch key would exceed capacity.
    /// The largest layout covers the whole byte range, so it is never full.
    pub open(crate) spec fn is_full(&self) -> bool {
        match self {
            NodeRep::N4(r) => r.is_full(),
            NodeRep::N16(r) => r.is_full(),
            NodeRep::N48(r) => r.is_full(),
            NodeRep::N256(_) => false,
        }
    }
}

impl<T> NodeRep<T> {
    /// A shared borrow of the child under `key`, if that branch exists.
    fn find_child(&self, key: u8) -> (r: Option<&Child<T>>)
        requires
            self.wf(),
        ensures
            match r {
                Some(c) => self.branches().contains_key(key) && *c == self.branches()[key],
                None => !self.branches().contains_key(key),
            },
    {
        match self {
            NodeRep::N4(r) => r.find_child(key),
            NodeRep::N16(r) => r.find_child(key),
            NodeRep::N48(r) => r.find_child(key),
            NodeRep::N256(r) => r.find_child(key),
        }
    }

    /// Exchanges the child stored under `key`, which must be branched, with
    /// the child behind `child`.
    fn swap_child(&mut self, key: u8, child: &mut Child<T>)
        requires
            old(self).wf(),
            old(self).branches().contains_key(key),
        ensures
            *final(child) == old(self).branches()[key],
            final(self).wf(),
            final(self).is_full() == old(self).is_full(),
            final(self).branches() == old(self).branches().insert(key, *old(child)),
    {
        match self {
            NodeRep::N4(r) => r.swap_child(key, child),
            NodeRep::N16(r) => r.swap_child(key, child),
            NodeRep::N48(r) => r.swap_child(key, child),
            NodeRep::N256(r) => r.swap_child(key, child),
        }
    }

    /// Inserts `child` under `key`, replacing and returning any child already
    /// branched there; a capacity-exceeded layout hands the child back as the
    /// error instead.
    fn insert_child(&mut self, key: u8, child: Child<T>) -> (r: Result<
        Option<Child<T>>,
        Child<T>,
    >)
        requires
            old(self).wf(),
        ensures
            match r {
                Ok(prev) => {
                    &&& final(self).wf()
                    &&& final(self).branches() == old(self).branches().insert(key, child)
                    &&& prev == (if old(self).branches().contains_key(key) {
                        Some(old(self).branches()[key])
                    } else {
                        None::<Child<T>>
                    })
                },
                Err(c) => {
                    &&& c == child
                    &&& *final(self) == *old(self)
                    &&& old(self).is_full()
                    &&& !old(self).branches().contains_key(key)
                },
            },
    {
        match self {
            NodeRep::N4(r) => r.insert_child(key, child),
            NodeRep::N16(r) => r.insert_child(key, child),
            NodeRep::N48(r) => r.insert_child(key, child),
            NodeRep::N256(r) => r.insert_child(key, child),
        }
    }

    /// Inserts `child` under `key` only if that branch does not exist yet; a
    /// capacity-exceeded layout hands the child back as the error instead.
    fn insert_child_if_not_exists(&mut self, key: u8, child: Child<T>) -> (r: Result<
        (),
        Child<T>,
    >)
        requires
            old(self).wf(),
        ensures
            match r {
                Ok(_) => {
                    &&& final(self).wf()
                    &&& final(self).branches() == (if old(self).branches().contains_key(key) {
                        old(self).branches()
                    } else {
                        old(self).branches().insert(key, child)
                    })
                },
                Err(c) => {
                    &&& c == child
                    &&& *final(self) == *old(self)
                    &&& old(self).is_full()
                    &&& !old(self).branches().contains_key(key)
                },
            },
    {
        match self {
            NodeRep::N4(r) => r.insert_child_if_not_exists(key, child),
            NodeRep::N16(r) => r.insert_child_if_not_exists(key, child),
            NodeRep::N48(r) => r.insert_child_if_not_exists(key, child),
            NodeRep::N256(r) => r.insert_child_if_not_exists(key, child),
        }
    }

    /// Consumes a layout at capacity and produces the next larger one,
    /// carrying every branch over. Irreversible, and undefined on the
    /// terminal layout, which is never at capacity.
    fn upgrade(self) -> (r: Self)
        requires
            self.wf(),
            self.is_full(),
        ensures
            r.wf(),
            !r.is_full(),
            r.branches() == self.branches(),
    {
        match self {
            NodeRep::N4(r) => NodeRep::N16(r.upgrade_to_node16()),
            NodeRep::N16(r) => NodeRep::N48(r.upgrade_to_node48()),
            NodeRep::N48(r) => NodeRep::N256(r.upgrade_to_node256()),
            NodeRep::N256(_) => vstd::pervasive::unreached(),
        }
    }
}

/// Replaces the layout behind `rep` with its upgrade, in place.
///
/// Relies on `take_mut::take`: it runs the closure on the value read from
/// behind the reference and writes the closure's result back, aborting the
/// process if the closure panicked. The closure here is the verified
/// `NodeRep::upgrade`, whose contract gives everything stated below.
#[verifier::external_body]
fn upgrade_in_place<T>(rep: &mut NodeRep<T>)
    requires
        old(rep).wf(),
        old(rep).is_full(),
    ensures
        final(rep).wf(),
        !final(rep).is_full(),
        final(rep).branches() == old(rep).branches(),
{
    take_mut::take(rep, |r: NodeRep<T>| r.upgrade())
}

/// What a well-formed subtree demands of the child stored under branch key
/// `b`: leaves sit exactly at the terminator branch, and every child node is
/// itself a well-formed subtree.
pub open(crate) spec fn child_ok<T>(b: u8, c: Child<T>, term: u8) -> bool
    decreases c,
{
    &&& (c is Leaf <==> b == term)
    &&& (c matches Child::Node(n) ==> n.wf_tree(term))
}

impl<T> Node<T> {
    /// The node's byte-to-child mapping, independent of the current layout.
    pub open(crate) spec fn branches(&self) -> Map<u8, Child<T>> {
        self.rep.branches()
    }

    /// The current layout's own well-formedness.
    pub open(crate) spec fn rep_wf(&self) -> bool {
        self.rep.wf()
    }

    /// Whether the current layout is at capacity.
    pub open(crate) spec fn rep_is_full(&self) -> bool {
        self.rep.is_full()
    }

    /// Well-formedness of the whole subtree rooted here, for terminator byte
    /// `term`: the layout invariant holds at every node, and `child_ok` holds
    /// of every stored child.
    pub open(crate) spec fn wf_tree(self, term: u8) -> bool
        decreases self,
    {
        &&& self.rep.wf()
        &&& match self.rep {
            NodeRep::N4(r) => forall|i: int| #![trigger r.children@[i]]
                0 <= i < r.children@.len()
                    ==> (r.children@[i] matches Some(e) ==> child_ok(e.0, e.1, term)),
            NodeRep::N16(r) => forall|i: int| #![trigger r.children@[i]]
                0 <= i < r.nb_children && i < r.children@.len()
                    ==> (r.children@[i] matches Some(c) ==> child_ok(r.child_indices@[i], c, term)),
            NodeRep::N48(r) => forall|b: int| #![trigger r.child_indices@[b]]
                0 <= b < 256 && r.child_indices@[b] < 48
                    && r.child_indices@[b] < r.children@.len()
                    ==> (r.children@[r.child_indices@[b] as int] matches Some(c)
                        ==> child_ok(b as u8, c, term)),
            NodeRep::N256(r) => forall|b: int| #![trigger r.children@[b]]
                0 <= b < 256 && b < r.children@.len()
                    ==> (r.children@[b] matches Some(c) ==> child_ok(b as u8, c, term)),
        }
    }

    /// The value stored for `key` in the subtree rooted here, if any: the key
    /// is consumed one byte per level, and the empty key reads the leaf at the
    /// terminator branch.
    pub open(crate) spec fn spec_get(self, key: Seq<u8>, term: u8) -> Option<T>
        decreases key.len(),
    {
        let b = if key.len() == 0 { term } else { key[0] };
        if self.rep.branches().contains_key(b) {
            match self.rep.branches()[b] {
                Child::Leaf(v) => if key.len() == 0 { Some(v) } else { None },
                Child::Node(n) => if key.len() == 0 { None } else { n.spec_get(key.skip(1), term) },
            }
        } else {
            None
        }
    }

    /// Replaces the current layout, which must be at capacity, with its
    /// upgrade: the single point where representation transitions happen.
    /// Every branch is carried over, and the new layout has room to spare.
    fn upgrade(&mut self)
        requires
            old(self).rep.wf(),
            old(self).rep.is_full(),
        ensures
            final(self).rep.wf(),
            !final(self).rep.is_full(),
            final(self).rep.branches() == old(self).rep.branches(),
    {
        upgrade_in_place(&mut self.rep);
    }

    /// A shared borrow of the child under `key`, if that branch exists.
    pub fn find_child(&self, key: u8) -> (r: Option<&Child<T>>)
        requires
            self.rep_wf(),
        ensures
            match r {
                Some(c) => self.branches().contains_key(key) && *c == self.branches()[key],
                None => !self.branches().contains_key(key),
            },
    {
        self.rep.find_child(key)
    }

    /// Exchanges the child stored under `key`, which must be branched, with
    /// the child behind `child`.
    fn swap_child(&mut self, key: u8, child: &mut Child<T>)
        requires
            old(self).rep_wf(),
            old(self).branches().contains_key(key),
        ensures
            *final(child) == old(self).branches()[key],
            final(self).rep_wf(),
            final(self).branches() == old(self).branches().insert(key, *old(child)),
    {
        self.rep.swap_child(key, child);
    }

    /// Inserts `child` under `key`, replacing and returning any child already
    /// branched there. When the current layout reports capacity exceeded,
    /// performs exactly one upgrade and retries, which always succeeds since
    /// an upgrade strictly increases capacity.
    pub fn insert_child(&mut self, key: u8, child: Child<T>) -> (prev: Option<Child<T>>)
        requires
            old(self).rep_wf(),
        ensures
            final(self).rep_wf(),
            final(self).branches() == old(self).branches().insert(key, child),
            prev == (if old(self).branches().contains_key(key) {
                Some(old(self).branches()[key])
            } else {
                None::<Child<T>>
            }),
    {
        let r = self.rep.insert_child(key, child);
        match r {
            Ok(prev) => prev,
            Err(c) => {
                self.upgrade();
                match self.rep.insert_child(key, c) {
                    Ok(prev) => prev,
                    Err(_) => vstd::pervasive::unreached(),
                }
            },
        }
    }

    /// Inserts `child` under `key` only if that branch does not exist yet; an
    /// existing branch is left untouched and the new child is dropped. Uses
    /// the same single upgrade-and-retry as `insert_child`.
    pub fn insert_child_if_not_exists(&mut self, key: u8, child: Child<T>)
        requires
            old(self).rep_wf(),
        ensures
            final(self).rep_wf(),
            final(self).branches() == (if old(self).branches().contains_key(key) {
                old(self).branches()
            } else {
                old(self).branches().insert(key, child)
            }),
    {
        let r = self.rep.insert_child_if_not_exists(key, child);
        match r {
            Ok(_) => {},
            Err(c) => {
                self.upgrade();
                match self.rep.insert_child_if_not_exists(key, c) {
                    Ok(_) => {},
                    Err(_) => {
                        proof {
                            assert(false);
                        }
                    },
                }
            },
        }
    }

    /// A fresh node: the smallest layout, with no branches at all.
    pub fn new() -> (n: Node<T>)
        ensures
            n.rep_wf(),
            n.branches() == Map::<u8, Child<T>>::empty(),
            !n.rep_is_full(),
            forall|term: u8| n.wf_tree(term),
            forall|key: Seq<u8>, term: u8| n.spec_get(key, term) is None,
    {
        let n = Node { rep: NodeRep::N4(Node4::new()) };
        proof {
            let s = n.rep->N4_0.children@;
            assert forall|i: int| 0 <= i < s.len() implies s[i] is None by {
                if s[i] is Some {
                    let e = s[i]->Some_0;
                    node4::lemma_slot_from(s, e.0, 0);
                    assert(n.branches().contains_key(e.0));
                }
            }
            assert forall|key: Seq<u8>, term: u8| n.spec_get(key, term) is None by {
                let b = if key.len() == 0 { term } else { key[0] };
                assert(!n.rep.branches().contains_key(b));
            }
        }
        n
    }
}

impl<T> Node<T> {
    /// Looks `key` up in the subtree rooted here, one byte per level: the
    /// value stored for `key`, if any, as a shared borrow.
    pub fn get(&self, key: &[u8], term: u8) -> (r: Option<&T>)
        requires
            self.wf_tree(term),
        ensures
            match r {
                Some(v) => self.spec_get(key@, term) == Some(*v),
                None => self.spec_get(key@, term) is None,
            },
        decreases key@.len(),
    {
        proof {
            lemma_wf_tree_char(*self, term);
        }
        if key.len() == 0 {
            match self.find_child(term) {
                None => None,
                Some(c) => match c {
                    Child::Leaf(v) => Some(v),
                    Child::Node(_) => {
                        proof {
                            assert(child_ok(term, self.branches()[term], term));
                        }
                        vstd::pervasive::unreached()
                    },
                },
            }
        } else {
            let b = key[0];
            match self.find_child(b) {
                None => None,
                Some(c) => match c {
                    Child::Node(n) => {
                        proof {
                            assert(child_ok(b, self.branches()[b], term));
                        }
                        let rest = &key[1..key.len()];
                        proof {
                            assert(rest@ == key@.skip(1));
                        }
                        n.get(rest, term)
                    },
                    Child::Leaf(_) => None,
                },
            }
        }
    }

    /// Whether `key` is stored in the subtree rooted here.
    pub fn contains(&self, key: &[u8], term: u8) -> (r: bool)
        requires
            self.wf_tree(term),
        ensures
            r == (self.spec_get(key@, term) is Some),
    {
        self.get(key, term).is_some()
    }

    /// Inserts `value` for `key` into the subtree rooted here: an exhausted
    /// key stores a leaf at the terminator branch, displacing and returning
    /// any leaf already there; otherwise the walk descends into the child for
    /// the next key byte, creating an empty node there first if the branch is
    /// new. No byte of the key may equal the terminator.
    pub fn insert(&mut self, key: &[u8], value: T, term: u8) -> (prev: Option<T>)
        requires
            old(self).wf_tree(term),
            !key@.contains(term),
        ensures
            final(self).wf_tree(term),
            final(self).spec_get(key@, term) == Some(value),
            forall|k: Seq<u8>| k != key@ ==> final(self).spec_get(k, term) == old(self).spec_get(
                k,
                term,
            ),
            prev == old(self).spec_get(key@, term),
        decreases key@.len(),
    {
        proof {
            lemma_wf_tree_char(*old(self), term);
        }
        if key.len() == 0 {
            let ghost m0 = self.branches();
            let prev_child = self.insert_child(term, Child::Leaf(value));
            proof {
                assert(self.branches() == m0.insert(term, Child::Leaf(value)));
                assert forall|b: u8| #![trigger self.branches().dom().contains(b)]
                    self.branches().contains_key(b) implies child_ok(
                    b,
                    self.branches()[b],
                    term,
                ) by {
                    if b != term {
                        assert(m0.contains_key(b) && m0[b] == self.branches()[b]);
                    }
                }
                lemma_wf_tree_char(*self, term);
                assert(self.wf_tree(term));
                assert forall|k: Seq<u8>| k != key@ implies self.spec_get(k, term) == old(
                    self,
                ).spec_get(k, term) by {
                    if k.len() == 0 {
                        assert(k =~= key@);
                    } else if k[0] == term {
                        assert(self.spec_get(k, term) is None);
                        if m0.contains_key(term) {
                            assert(child_ok(term, m0[term], term));
                        }
                        assert(old(self).spec_get(k, term) is None);
                    } else {
                        assert(self.branches().contains_key(k[0]) == m0.contains_key(k[0]));
                        if m0.contains_key(k[0]) {
                            assert(self.branches()[k[0]] == m0[k[0]]);
                        }
                    }
                }
                if m0.contains_key(term) {
                    assert(child_ok(term, m0[term], term));
                }
            }
            match prev_child {
                None => None,
                Some(Child::Leaf(v)) => Some(v),
                Some(Child::Node(_)) => {
                    proof {
                        assert(child_ok(term, m0[term], term));
                    }
                    vstd::pervasive::unreached()
                },
            }
        } else {
            let b = key[0];
            proof {
                assert(key@[0] != term);
            }
            let ghost m0 = self.branches();
            let fresh_child = Child::Node(Node::new());
            let ghost freshg = fresh_child;
            self.insert_child_if_not_exists(b, fresh_child);
            let ghost m1 = self.branches();
            proof {
                assert(freshg->Node_0.wf_tree(term));
                assert(child_ok(b, freshg, term));
                assert forall|bb: u8| #![trigger m1.dom().contains(bb)]
                    m1.contains_key(bb) implies child_ok(bb, m1[bb], term) by {
                    if bb == b && !m0.contains_key(b) {
                        assert(m1[b] == freshg);
                    } else {
                        assert(m0.contains_key(bb) && m1[bb] == m0[bb]);
                        assert(child_ok(bb, m0[bb], term));
                    }
                }
            }
            let mut tmp = Child::Node(Node::new());
            self.swap_child(b, &mut tmp);
            let ghost m2 = self.branches();
            let ghost sub0 = tmp;
            proof {
                assert(m1.contains_key(b));
                assert(child_ok(b, sub0, term));
                assert(!key@.skip(1).contains(term)) by {
                    if key@.skip(1).contains(term) {
                        let j = choose|j: int|
                            0 <= j < key@.skip(1).len() && key@.skip(1)[j] == term;
                        assert(key@[j + 1] == term);
                    }
                }
            }
            let (put, prev) = match tmp {
                Child::Node(mut child) => {
                    let rest = &key[1..key.len()];
                    proof {
                        assert(rest@ == key@.skip(1));
                    }
                    let p = child.insert(rest, value, term);
                    (Child::Node(child), p)
                },
                Child::Leaf(_) => vstd::pervasive::unreached(),
            };
            let mut put = put;
            let ghost sub1 = put;
            self.swap_child(b, &mut put);
            proof {
                let suffix = key@.skip(1);
                let m3 = self.branches();
                assert(m3 =~= m1.insert(b, sub1));
                assert forall|bb: u8| #![trigger m3.dom().contains(bb)]
                    m3.contains_key(bb) implies child_ok(bb, m3[bb], term) by {
                    if bb == b {
                        assert(child_ok(b, sub1, term));
                    } else {
                        assert(m1.contains_key(bb) && m3[bb] == m1[bb]);
                    }
                }
                lemma_wf_tree_char(*self, term);
                assert(self.wf_tree(term));
                assert(key@[0] == b);
                assert(self.spec_get(key@, term) == sub1->Node_0.spec_get(suffix, term));
                if m0.contains_key(b) {
                    assert(m1 == m0);
                    assert(sub0 == m0[b]);
                    assert(old(self).spec_get(key@, term) == sub0->Node_0.spec_get(suffix, term));
                } else {
                    assert(old(self).spec_get(key@, term) is None);
                    assert(sub0->Node_0.spec_get(suffix, term) is None);
                }
                assert forall|k: Seq<u8>| k != key@ implies self.spec_get(k, term) == old(
                    self,
                ).spec_get(k, term) by {
                    if k.len() == 0 {
                        assert(m3.contains_key(term) == m0.contains_key(term));
                        if m0.contains_key(term) {
                            assert(m3[term] == m0[term]);
                        }
                    } else if k[0] != b {
                        assert(m3.contains_key(k[0]) == m0.contains_key(k[0]));
                        if m0.contains_key(k[0]) {
                            assert(m3[k[0]] == m0[k[0]]);
                        }
                    } else {
                        if k.skip(1) == suffix {
                            assert(k.len() == key@.len());
                            assert forall|j: int| 0 <= j < k.len() implies k[j] == key@[j] by {
                                if j > 0 {
                                    assert(k.skip(1)[j - 1] == k[j]);
                                    assert(key@.skip(1)[j - 1] == key@[j]);
                                }
                            }
                            assert(k =~= key@);
                        }
                        assert(self.spec_get(k, term) == sub1->Node_0.spec_get(k.skip(1), term));
                        assert(sub1->Node_0.spec_get(k.skip(1), term) == sub0->Node_0.spec_get(
                            k.skip(1),
                            term,
                        ));
                        if m0.contains_key(b) {
                            assert(old(self).spec_get(k, term) == sub0->Node_0.spec_get(
                                k.skip(1),
                                term,
                            ));
                        } else {
                            assert(old(self).spec_get(k, term) is None);
                            assert(sub0->Node_0.spec_get(k.skip(1), term) is None);
                        }
                    }
                }
            }
            prev
        }
    }
}

impl<T> Child<T> {
    /// The inner node, if this child is one.
    pub fn as_node(&self) -> (r: Option<&Node<T>>)
        ensures
            match r {
                Some(n) => self is Node && *n == self->Node_0,
                None => self is Leaf,
            },
    {
        match self {
            Child::Node(node) => Some(node),
            Child::Leaf(_) => None,
        }
    }

    /// The stored value, if this child is a leaf.
    pub fn as_leaf(&self) -> (r: Option<&T>)
        ensures
            match r {
                Some(v) => self is Leaf && *v == self->Leaf_0,
                None => self is Node,
            },
    {
        match self {
            Child::Leaf(value) => Some(value),
            Child::Node(_) => None,
        }
    }

    /// Consumes the child and hands out the stored value, if it is a leaf.
    pub fn to_leaf(self) -> (r: Option<T>)
        ensures
            match r {
                Some(v) => self is Leaf && v == self->Leaf_0,
                None => self is Node,
            },
    {
        match self {
            Child::Leaf(value) => Some(value),
            Child::Node(_) => None,
        }
    }
}

/// True iff byte `b` occurs anywhere in `key`.
fn contains_byte(key: &[u8], b: u8) -> (r: bool)
    ensures
        r == key@.contains(b),
{
    let mut i: usize = 0;
    while i < key.len()
        invariant
            i <= key@.len(),
            forall|j: int| #![trigger key@[j]] 0 <= j < i ==> key@[j] != b,
        decreases key@.len() - i,
    {
        if key[i] == b {
            proof {
                assert(key@[i as int] == b);
            }
            return true;
        }
        i += 1;
    }
    proof {
        if key@.contains(b) {
            let j = choose|j: int| 0 <= j < key@.len() && key@[j] == b;
            assert(key@[j] != b);
        }
    }
    false
}

/// A node with a well-formed layout is a well-formed subtree exactly when
/// `child_ok` holds at every byte of its branch map: the slot-based layout
/// reading of `wf_tree` and the abstract branch-map reading agree.
proof fn lemma_wf_tree_char<T>(n: Node<T>, term: u8)
    requires
        n.rep.wf(),
    ensures
        n.wf_tree(term) <==> (forall|b: u8| #![trigger n.rep.branches().dom().contains(b)]
            n.rep.branches().contains_key(b) ==> child_ok(b, n.rep.branches()[b], term)),
{
    let m = n.rep.branches();
    if n.wf_tree(term) {
        assert forall|b: u8| #![trigger m.dom().contains(b)]
            m.contains_key(b) implies child_ok(b, m[b], term) by {
            match n.rep {
                NodeRep::N4(r) => {
                    node4::lemma_slot_from(r.children@, b, 0);
                    let s = slot_from(r.children@, b, 0);
                    assert(r.children@[s] matches Some(e) && e.0 == b && child_ok(e.0, e.1, term));
                },
                NodeRep::N16(r) => {
                    node16::lemma_key_slot_from(
                        r.child_indices@,
                        r.nb_children as int,
                        b,
                        0,
                    );
                    let s = key_slot_from(r.child_indices@, r.nb_children as int, b, 0);
                    assert(r.children@[s] matches Some(c) && child_ok(
                        r.child_indices@[s],
                        c,
                        term,
                    ));
                },
                NodeRep::N48(r) => {
                    assert(r.child_indices@[b as int] < 48);
                    assert(r.children@[r.child_indices@[b as int] as int] matches Some(c)
                        && child_ok(b, c, term));
                },
                NodeRep::N256(r) => {
                    assert(r.children@[b as int] matches Some(c) && child_ok(b, c, term));
                },
            }
        }
    }
    if forall|b: u8| #![trigger m.dom().contains(b)]
        m.contains_key(b) ==> child_ok(b, m[b], term) {
        match n.rep {
            NodeRep::N4(r) => {
                assert forall|i: int| #![trigger r.children@[i]]
                    0 <= i < r.children@.len() implies (r.children@[i] matches Some(e)
                    ==> child_ok(e.0, e.1, term)) by {
                    if r.children@[i] is Some {
                        let e = r.children@[i]->Some_0;
                        node4::lemma_slot_from(r.children@, e.0, 0);
                        let s = slot_from(r.children@, e.0, 0);
                        assert(r.children@[s] matches Some(e2) && e2.0 == e.0);
                        assert(s == i);
                        assert(m.contains_key(e.0) && m[e.0] == e.1);
                    }
                }
            },
            NodeRep::N16(r) => {
                assert forall|i: int| #![trigger r.children@[i]]
                    0 <= i < r.nb_children && i < r.children@.len() implies (r.children@[i]
                    matches Some(c) ==> child_ok(r.child_indices@[i], c, term)) by {
                    if r.children@[i] is Some {
                        let c = r.children@[i]->Some_0;
                        let k = r.child_indices@[i];
                        node16::lemma_key_slot_from(
                            r.child_indices@,
                            r.nb_children as int,
                            k,
                            0,
                        );
                        let s = key_slot_from(r.child_indices@, r.nb_children as int, k, 0);
                        assert(s != -1 && r.child_indices@[s] == k);
                        assert(s == i);
                        assert(m.contains_key(k) && m[k] == c);
                    }
                }
            },
            NodeRep::N48(r) => {
                assert forall|b: int| #![trigger r.child_indices@[b]]
                    0 <= b < 256 && r.child_indices@[b] < 48 && r.child_indices@[b]
                        < r.children@.len() implies (r.children@[r.child_indices@[b] as int]
                    matches Some(c) ==> child_ok(b as u8, c, term)) by {
                    if r.children@[r.child_indices@[b] as int] is Some {
                        let c = r.children@[r.child_indices@[b] as int]->Some_0;
                        assert(m.contains_key(b as u8) && m[b as u8] == c);
                    }
                }
            },
            NodeRep::N256(r) => {
                assert forall|b: int| #![trigger r.children@[b]]
                    0 <= b < 256 && b < r.children@.len() implies (r.children@[b] matches Some(c)
                    ==> child_ok(b as u8, c, term)) by {
                    if r.children@[b] is Some {
                        let c = r.children@[b]->Some_0;
                        assert(m.contains_key(b as u8) && m[b as u8] == c);
                    }
                }
            },
        }
        assert(n.wf_tree(term));
    }
}

/// An adaptive radix tree mapping byte-string keys to values of type `T`.
///
/// One byte value, the terminator, is reserved: it marks the end of a key
/// inside the tree and must never occur in a stored key, which every
/// checked operation enforces.
pub struct Trie<T> {
    root: Option<Child<T>>,
    term: u8,
}

/// The error returned by the checked operations when a key holds the
/// container's reserved terminator byte.
#[derive(Debug)]
pub struct KeyContainsTerminator;

impl<T> Trie<T> {
    /// The container's reserved terminator byte.
    pub closed spec fn terminator(&self) -> u8 {
        self.term
    }

    /// The value stored for `key`, if any.
    pub open(crate) spec fn spec_get(&self, key: Seq<u8>) -> Option<T> {
        match self.root {
            Some(Child::Node(n)) => n.spec_get(key, self.term),
            _ => None,
        }
    }

    /// The container's invariant: the root, if present, is a well-formed
    /// subtree holding at least one key.
    pub closed spec fn wf(&self) -> bool {
        match self.root {
            None => true,
            Some(Child::Node(n)) => {
                &&& n.wf_tree(self.term)
                &&& exists|k: Seq<u8>| n.spec_get(k, self.term) is Some
            },
            Some(Child::Leaf(_)) => false,
        }
    }

    /// A container with `term` as its reserved terminator byte. No key
    /// containing `term` can be stored; `term` itself never collides with the
    /// next byte of a longer key, which is what lets a key and its extensions
    /// coexist.
    pub fn with_terminator(term: u8) -> (t: Trie<T>)
        ensures
            t.wf(),
            t@ == Map::<Seq<u8>, T>::empty(),
            t.terminator() == term,
    {
        let t = Trie { root: None, term };
        proof {
            assert(t@ =~= Map::<Seq<u8>, T>::empty());
        }
        t
    }

    /// A container for keys known to be NUL-free, such as ASCII text: the
    /// terminator is byte 0.
    pub fn for_ascii() -> (t: Trie<T>)
        ensures
            t.wf(),
            t@ == Map::<Seq<u8>, T>::empty(),
            t.terminator() == 0,
    {
        Self::with_terminator(0)
    }

    /// A container for valid UTF-8 keys: the terminator is byte 0xff, which
    /// no UTF-8 encoding produces.
    pub fn for_utf8() -> (t: Trie<T>)
        ensures
            t.wf(),
            t@ == Map::<Seq<u8>, T>::empty(),
            t.terminator() == 0xff,
    {
        Self::with_terminator(0xff)
    }

    /// Inserts `value` for `key`, returning any value previously stored at
    /// exactly that key. Fails, leaving the container untouched, iff `key`
    /// contains the reserved terminator byte.
    pub fn insert(&mut self, key: &[u8], value: T) -> (r: Result<Option<T>, KeyContainsTerminator>)
        requires
            old(self).wf(),
        ensures
            final(self).wf(),
            final(self).terminator() == old(self).terminator(),
            key@.contains(old(self).terminator()) <==> r is Err,
            r is Err ==> *final(self) == *old(self),
            r matches Ok(prev) ==> {
                &&& final(self)@ == old(self)@.insert(key@, value)
                &&& prev == (if old(self)@.contains_key(key@) {
                    Some(old(self)@[key@])
                } else {
                    None::<T>
                })
            },
    {
        if contains_byte(key, self.term) {
            Err(KeyContainsTerminator)
        } else {
            Ok(self.insert_impl(key, value))
        }
    }

    /// Like `insert`, but skips the terminator scan: defined only when the
    /// caller already guarantees that `key` does not contain the terminator.
    pub fn insert_unchecked(&mut self, key: &[u8], value: T) -> (prev: Option<T>)
        requires
            old(self).wf(),
            !key@.contains(old(self).terminator()),
        ensures
            final(self).wf(),
            final(self).terminator() == old(self).terminator(),
            final(self)@ == old(self)@.insert(key@, value),
            prev == (if old(self)@.contains_key(key@) {
                Some(old(self)@[key@])
            } else {
                None::<T>
            }),
    {
        self.insert_impl(key, value)
    }

    fn insert_impl(&mut self, key: &[u8], value: T) -> (prev: Option<T>)
        requires
            old(self).wf(),
            !key@.contains(old(self).term),
        ensures
            final(self).wf(),
            final(self).term == old(self).term,
            final(self)@ == old(self)@.insert(key@, value),
            prev == (if old(self)@.contains_key(key@) {
                Some(old(self)@[key@])
            } else {
                None::<T>
            }),
    {
        let term = self.term;
        let prev = match &mut self.root {
            None => {
                let mut node = Node::new();
                let prev = node.insert(key, value, term);
                self.root = Some(Child::Node(node));
                prev
            },
            Some(c) => match c {
                Child::Node(n) => n.insert(key, value, term),
                Child::Leaf(_) => vstd::pervasive::unreached(),
            },
        };
        proof {
            assert(self.spec_get(key@) == Some(value));
            assert forall|k: Seq<u8>| k != key@ implies self.spec_get(k) == old(self).spec_get(
                k,
            ) by {}
            assert forall|k: Seq<u8>| #![auto] true implies self@.contains_key(k) == old(
                self,
            )@.insert(key@, value).contains_key(k) && (self@.contains_key(k) ==> self@[k] == old(
                self,
            )@.insert(key@, value)[k]) by {}
            assert(self@ =~= old(self)@.insert(key@, value));
        }
        prev
    }

    /// Whether a value is stored at exactly `key`. Fails iff `key` contains
    /// the reserved terminator byte.
    pub fn contains(&self, key: &[u8]) -> (r: Result<bool, KeyContainsTerminator>)
        requires
            self.wf(),
        ensures
            key@.contains(self.terminator()) <==> r is Err,
            r matches Ok(present) ==> present == self@.contains_key(key@),
    {
        if contains_byte(key, self.term) {
            Err(KeyContainsTerminator)
        } else {
            Ok(self.contains_impl(key))
        }
    }

    /// Like `contains`, but skips the terminator scan: defined only when the
    /// caller already guarantees that `key` does not contain the terminator.
    pub fn contains_unchecked(&self, key: &[u8]) -> (present: bool)
        requires
            self.wf(),
            !key@.contains(self.terminator()),
        ensures
            present == self@.contains_key(key@),
    {
        self.contains_impl(key)
    }

    fn contains_impl(&self, key: &[u8]) -> (present: bool)
        requires
            self.wf(),
        ensures
            present == self@.contains_key(key@),
    {
        self.get_impl(key).is_some()
    }

    /// A shared borrow of the value stored at exactly `key`, if any. Fails
    /// iff `key` contains the reserved terminator byte.
    pub fn get(&self, key: &[u8]) -> (r: Result<Option<&T>, KeyContainsTerminator>)
        requires
            self.wf(),
        ensures
            key@.contains(self.terminator()) <==> r is Err,
            r matches Ok(o) ==> match o {
                Some(v) => self@.contains_key(key@) && *v == self@[key@],
                None => !self@.contains_key(key@),
            },
    {
        if contains_byte(key, self.term) {
            Err(KeyContainsTerminator)
        } else {
            Ok(self.get_impl(key))
        }
    }

    /// Like `get`, but skips the terminator scan: defined only when the
    /// caller already guarantees that `key` does not contain the terminator.
    pub fn get_unchecked(&self, key: &[u8]) -> (r: Option<&T>)
        requires
            self.wf(),
            !key@.contains(self.terminator()),
        ensures
            match r {
                Some(v) => self@.contains_key(key@) && *v == self@[key@],
                None => !self@.contains_key(key@),
            },
    {
        self.get_impl(key)
    }

    fn get_impl(&self, key: &[u8]) -> (r: Option<&T>)
        requires
            self.wf(),
        ensures
            match r {
                Some(v) => self@.contains_key(key@) && *v == self@[key@],
                None => !self@.contains_key(key@),
            },
    {
        match &self.root {
            None => None,
            Some(c) => match c {
                Child::Node(n) => n.get(key, self.term),
                Child::Leaf(_) => vstd::pervasive::unreached(),
            },
        }
    }

    /// True iff nothing has ever been inserted.
    pub fn is_empty(&self) -> (r: bool)
        requires
            self.wf(),
        ensures
            r <==> self@ == Map::<Seq<u8>, T>::empty(),
    {
        match &self.root {
            None => {
                proof {
                    assert(self@ =~= Map::<Seq<u8>, T>::empty());
                }
                true
            },
            Some(_) => {
                proof {
                    let n = self.root->Some_0->Node_0;
                    let k = choose|k: Seq<u8>| n.spec_get(k, self.term) is Some;
                    assert(self@.contains_key(k));
                    assert(!Map::<Seq<u8>, T>::empty().contains_key(k));
                }
                false
            },
        }
    }
}

impl<T> View for Trie<T> {
    type V = Map<Seq<u8>, T>;

    /// The container, seen abstractly: the finite map from stored keys to
    /// their values.
    closed spec fn view(&self) -> Map<Seq<u8>, T> {
        Map::new(
            |k: Seq<u8>| self.spec_get(k) is Some,
            |k: Seq<u8>| self.spec_get(k)->Some_0,
        )
    }
}

} // verus!

