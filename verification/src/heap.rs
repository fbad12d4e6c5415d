//! A binary min-heap of search frontier entries.
//!
//! Entries pop in order of lowest `f`, then lowest `h`, then highest cell
//! index, so the pop order is fully determined by the entries themselves.

use vstd::prelude::*;
use vstd::multiset::Multiset;

verus! {

broadcast use vstd::seq_lib::group_to_multiset_ensures;

/// Frontier entry: priority `f`, heuristic `h`, cell `idx`.
#[derive(Clone, Copy)]
pub struct Node {
    pub f: u128,
    pub h: u128,
    pub idx: u32,
}

/// `a` pops no later than `b`.
pub open spec fn node_le(a: Node, b: Node) -> bool {
    a.f < b.f || (a.f == b.f && (a.h < b.h || (a.h == b.h && a.idx >= b.idx)))
}

pub proof fn lemma_node_le_total(a: Node, b: Node)
    ensures
        node_le(a, b) || node_le(b, a),
        node_le(a, a),
        node_le(a, b) && node_le(b, a) ==> a == b,
{
}

pub proof fn lemma_node_le_trans(a: Node, b: Node, c: Node)
    requires
        node_le(a, b),
        node_le(b, c),
    ensures
        node_le(a, c),
{
}

pub fn le(a: &Node, b: &Node) -> (r: bool)
    ensures
        r == node_le(*a, *b),
{
    a.f < b.f || (a.f == b.f && (a.h < b.h || (a.h == b.h && a.idx >= b.idx)))
}

pub open spec fn parent_of(i: int) -> int {
    (i - 1) / 2
}

/// Heap order everywhere except possibly between `hole` and its parent;
/// the hole's parent still orders below the hole's children.
pub open spec fn heap_except_up(s: Seq<Node>, hole: int) -> bool {
    &&& forall|k: int| 0 < k < s.len() && k != hole ==> #[trigger] node_le(s[parent_of(k)], s[k])
    &&& hole > 0 ==> forall|c: int|
        0 < c < s.len() && parent_of(c) == hole ==> #[trigger] node_le(s[parent_of(hole)], s[c])
}

/// Heap order everywhere except possibly between `hole` and its children;
/// the hole's parent orders below the hole's children.
pub open spec fn heap_except_down(s: Seq<Node>, hole: int) -> bool {
    &&& forall|k: int|
        0 < k < s.len() && parent_of(k) != hole ==> #[trigger] node_le(s[parent_of(k)], s[k])
    &&& hole > 0 && hole < s.len() ==> forall|c: int|
        0 < c < s.len() && parent_of(c) == hole ==> #[trigger] node_le(s[parent_of(hole)], s[c])
}

pub open spec fn heap_ordered(s: Seq<Node>) -> bool {
    forall|k: int| 0 < k < s.len() ==> #[trigger] node_le(s[parent_of(k)], s[k])
}

proof fn lemma_root_min(s: Seq<Node>, k: int)
    requires
        heap_ordered(s),
        0 <= k < s.len(),
    ensures
        node_le(s[0], s[k]),
    decreases k,
{
    if k > 0 {
        lemma_root_min(s, parent_of(k));
        lemma_node_le_trans(s[0], s[parent_of(k)], s[k]);
    }
}

proof fn lemma_swap_multiset(s: Seq<Node>, i: int, j: int)
    requires
        0 <= i < s.len(),
        0 <= j < s.len(),
    ensures
        s.update(i, s[j]).update(j, s[i]).to_multiset() =~= s.to_multiset(),
{
    broadcast use vstd::multiset::group_multiset_axioms;
    vstd::seq_lib::to_multiset_update(s, i, s[j]);
    let s1 = s.update(i, s[j]);
    vstd::seq_lib::to_multiset_update(s1, j, s[i]);
    assert(s1[j] == s[j]) by {
        if i == j {
        }
    }
}

/// Pops are fixed by the heap's contents: with ties broken on `h` and then
/// the cell index, two entries that each pop no later than every entry
/// present are the same entry, so heaps holding the same entries pop the
/// same entry and keep the same entries after.
pub proof fn lemma_pop_determined(contents: Multiset<Node>, a: Node, b: Node)
    requires
        contents.contains(a),
        contents.contains(b),
        forall|m: Node| contents.contains(m) ==> node_le(a, m),
        forall|m: Node| contents.contains(m) ==> node_le(b, m),
    ensures
        a == b,
        contents.remove(a) == contents.remove(b),
{
    lemma_node_le_total(a, b);
}

pub struct MinHeap {
    v: Vec<Node>,
}

impl MinHeap {
    pub closed spec fn view(&self) -> Multiset<Node> {
        self.v@.to_multiset()
    }

    pub closed spec fn wf(&self) -> bool {
        heap_ordered(self.v@)
    }

    pub fn new() -> (h: MinHeap)
        ensures
            h.wf(),
            h.view() =~= Multiset::empty(),
    {
        let h = MinHeap { v: Vec::new() };
        proof {
            assert(h.v@ =~= Seq::<Node>::empty());
            broadcast use vstd::multiset::group_multiset_axioms;
            assert(h.v@.to_multiset().len() == 0);
        }
        h
    }

    pub fn len(&self) -> (n: usize)
        ensures
            n == self.view().len(),
    {
        self.v.len()
    }

    pub fn push(&mut self, n: Node)
        requires
            old(self).wf(),
        ensures
            final(self).wf(),
            final(self).view() =~= old(self).view().insert(n),
    {
        self.v.push(n);
        let mut i = self.v.len() - 1;
        proof {
            vstd::seq_lib::to_multiset_build(old(self).v@, n);
        }
        while i > 0
            invariant
                0 <= i < self.v@.len(),
                heap_except_up(self.v@, i as int),
                self.v@.to_multiset() =~= old(self).view().insert(n),
            decreases i,
        {
            let p = (i - 1) / 2;
            if le(&self.v[p], &self.v[i]) {
                assert(heap_ordered(self.v@));
                return;
            }
            let ghost s = self.v@;
            let a = self.v[p];
            let b = self.v[i];
            self.v.set(p, b);
            self.v.set(i, a);
            proof {
                lemma_swap_multiset(s, p as int, i as int);
                assert(self.v@ =~= s.update(p as int, s[i as int]).update(i as int, s[p as int]));
                lemma_node_le_total(s[p as int], s[i as int]);
                let t = self.v@;
                assert forall|k: int| 0 < k < t.len() && k != p implies #[trigger] node_le(t[parent_of(k)], t[k]) by {
                    if k == i {
                    } else if parent_of(k) == i {
                        assert(node_le(s[parent_of(i as int)], s[k]));
                    } else if parent_of(k) == p {
                        lemma_node_le_trans(t[p as int], s[p as int], s[k]);
                    }
                }
                if p > 0 {
                    assert forall|c: int| 0 < c < t.len() && parent_of(c) == p implies #[trigger] node_le(t[parent_of(p as int)], t[c]) by {
                        if c == i {
                            assert(node_le(s[parent_of(p as int)], s[p as int]));
                        } else {
                            assert(node_le(s[parent_of(p as int)], s[p as int]));
                            lemma_node_le_trans(s[parent_of(p as int)], s[p as int], s[c]);
                        }
                    }
                }
            }
            i = p;
        }
    }

    pub fn pop(&mut self) -> (r: Option<Node>)
        requires
            old(self).wf(),
        ensures
            final(self).wf(),
            r is None <==> old(self).view().len() == 0,
            r is None ==> final(self).view() =~= old(self).view(),
            r matches Some(n) ==> {
                &&& old(self).view().contains(n)
                &&& forall|m: Node| old(self).view().contains(m) ==> node_le(n, m)
                &&& final(self).view() =~= old(self).view().remove(n)
            },
    {
        broadcast use vstd::multiset::group_multiset_axioms;
        let ghost s0 = self.v@;
        if self.v.len() == 0 {
            return None;
        }
        proof {
            assert forall|m: Node| s0.to_multiset().contains(m) implies node_le(s0[0], m) by {
                let k = choose|k: int| 0 <= k < s0.len() && s0[k] == m;
                lemma_root_min(s0, k);
            }
            assert(s0.contains(s0[0]));
        }
        let last = self.v.pop().unwrap();
        proof {
            assert(s0 =~= self.v@.push(last));
            vstd::seq_lib::to_multiset_build(self.v@, last);
        }
        if self.v.len() == 0 {
            return Some(last);
        }
        let top = self.v[0];
        let ghost s1 = self.v@;
        self.v.set(0, last);
        proof {
            vstd::seq_lib::to_multiset_update(s1, 0, last);
            assert(self.v@.to_multiset() =~= s0.to_multiset().remove(top));
            assert(heap_except_down(self.v@, 0));
        }
        let n = self.v.len();
        let mut i: usize = 0;
        loop
            invariant
                n == self.v@.len(),
                0 <= i < n,
                heap_except_down(self.v@, i as int),
                self.v@.to_multiset() =~= s0.to_multiset().remove(top),
            ensures
                heap_ordered(self.v@),
                self.v@.to_multiset() =~= s0.to_multiset().remove(top),
            decreases n - i,
        {
            let l = if (i as u128) * 2 + 1 < n as u128 {
                2 * i + 1
            } else {
                n
            };
            let r = if (i as u128) * 2 + 2 < n as u128 {
                2 * i + 2
            } else {
                n
            };
            let mut m = i;
            if l < n && !le(&self.v[m], &self.v[l]) {
                m = l;
            }
            if r < n && !le(&self.v[m], &self.v[r]) {
                m = r;
            }
            if m == i {
                proof {
                    let t = self.v@;
                    assert forall|k: int| 0 < k < t.len() implies #[trigger] node_le(t[parent_of(k)], t[k]) by {
                        if parent_of(k) == i {
                            assert(k == 2 * i + 1 || k == 2 * i + 2);
                            lemma_node_le_total(t[i as int], t[k]);
                        }
                    }
                }
                break;
            }
            let ghost s = self.v@;
            let a = self.v[i];
            let b = self.v[m];
            self.v.set(i, b);
            self.v.set(m, a);
            proof {
                lemma_swap_multiset(s, i as int, m as int);
                assert(self.v@ =~= s.update(i as int, s[m as int]).update(m as int, s[i as int]));
                let t = self.v@;
                lemma_node_le_total(s[i as int], s[m as int]);
                if l < n {
                    lemma_node_le_total(s[i as int], s[l as int]);
                    lemma_node_le_total(s[m as int], s[l as int]);
                }
                if r < n {
                    lemma_node_le_total(s[i as int], s[r as int]);
                    lemma_node_le_total(s[m as int], s[r as int]);
                }
                assert(node_le(s[m as int], s[i as int]));
                assert(l < n ==> node_le(s[m as int], s[l as int]));
                assert(r < n ==> node_le(s[m as int], s[r as int]));
                assert forall|k: int| 0 < k < t.len() && parent_of(k) != m implies #[trigger] node_le(t[parent_of(k)], t[k]) by {
                    if k == m {
                    } else if parent_of(k) == i {
                        assert(k == 2 * i + 1 || k == 2 * i + 2);
                        assert(k == l || k == r);
                    } else if k == i {
                        assert(parent_of(m as int) == i);
                        assert(node_le(s[parent_of(i as int)], s[m as int]));
                    }
                }
                assert forall|c: int| 0 < c < t.len() && parent_of(c) == m implies #[trigger] node_le(t[parent_of(m as int)], t[c]) by {
                    assert(parent_of(m as int) == i);
                    assert(node_le(s[m as int], s[c]));
                }
            }
            i = m;
        }
        Some(top)
    }
}

} // verus!
