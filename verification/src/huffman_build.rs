//! Code lengths from symbol weights: Huffman's construction, repeated on
//! scaled-down weights until the longest code fits the limit.
use vstd::prelude::*;
use vstd::multiset::Multiset;
use vstd::arithmetic::power2::{pow2, lemma_pow2_adds, lemma_pow2_pos, lemma2_to64, lemma_pow2_unfold, lemma_pow2_strictly_increases};
use crate::coder::{max_len, lemma_max_len_bound};
use crate::huffman::{HuffmanTable, code_weight, kraft_sum, lens_valid};
use crate::heap::{WeightHeap, heap_items, heap_from_vec, heap_len, heap_pop, heap_push};
use crate::sums::{
    index_sum, weight_sum, nonzero_count, lemma_index_sum_mono, lemma_index_sum_scale, lemma_index_sum_count_bound, lemma_index_sum_ext, lemma_index_sum_point, lemma_index_sum_ge2,
    lemma_index_sum_tail_zero, lemma_index_sum_zero,
};

verus! {

/// Node `j` is in the tree (it has weight) and has no parent.
pub open spec fn is_root(wt: Seq<u32>, par: Seq<int>, j: int) -> bool {
    wt[j] > 0 && par[j] == -1
}

/// The heap holds each root once, paired with its weight, and nothing else.
pub open spec fn holds_roots(h: Multiset<(u32, u16)>, wt: Seq<u32>, par: Seq<int>) -> bool {
    forall|x: (u32, u16)| #[trigger] h.count(x) == (if (x.1 as int) < wt.len() && is_root(wt, par, x.1 as int)
        && x.0 == wt[x.1 as int] { 1nat } else { 0nat })
}

/// The nodes from `n` on are inner nodes: each joins two distinct earlier
/// nodes, is their parent, and weighs what they weigh together. Every
/// parent link leads to an inner node that has the child as one of its two.
pub open spec fn tree_wf(n: int, wt: Seq<u32>, c1: Seq<u16>, c2: Seq<u16>, par: Seq<int>) -> bool {
    &&& 0 <= n <= wt.len()
    &&& c1.len() == wt.len()
    &&& c2.len() == wt.len()
    &&& par.len() == wt.len()
    &&& forall|j: int| 0 <= j < wt.len() ==> #[trigger] par[j] == -1 || (j < par[j] < wt.len() && n <= par[j]
        && (c1[par[j]] == j || c2[par[j]] == j) && wt[j] > 0)
    &&& forall|i: int| n <= i < wt.len() ==> {
        &&& (#[trigger] c1[i]) < i
        &&& c2[i] < i
        &&& c1[i] != c2[i]
        &&& par[c1[i] as int] == i
        &&& par[c2[i] as int] == i
        &&& wt[i] == wt[c1[i] as int] + wt[c2[i] as int]
    }
}

/// Each inner node from `n` on joined two roots of least weight: no other
/// root at the time it was made (see `in_front`) weighs less than either.
pub open spec fn least_joins(n: int, wt: Seq<u32>, c1: Seq<u16>, c2: Seq<u16>, par: Seq<int>) -> bool {
    forall|i: int, j: int|
        n <= i < wt.len() && 0 <= j && #[trigger] in_front(wt, par, i, j) && j != c1[i] as int && j != c2[i] as int
            ==> wt[c1[i] as int] <= wt[j] && wt[c2[i] as int] <= wt[j]
}

/// The weight of node `t` if it has no parent.
pub open spec fn root_weight(wt: Seq<u32>, par: Seq<int>) -> spec_fn(int) -> nat {
    |t: int| if par[t] == -1 { wt[t] as nat } else { 0nat }
}

/// One for a weight that is not zero.
pub open spec fn nonzero_ind(ws: Seq<u32>) -> spec_fn(int) -> nat {
    |t: int| if ws[t] > 0 { 1nat } else { 0nat }
}

/// A multiset that holds two distinct items holds at least two.
proof fn lemma_two_items(h: Multiset<(u32, u16)>, x: (u32, u16), y: (u32, u16))
    requires
        h.count(x) > 0,
        h.count(y) > 0,
        x != y,
    ensures
        h.len() >= 2,
{
    broadcast use vstd::multiset::group_multiset_axioms;

    let one = Multiset::<(u32, u16)>::singleton(x);
    assert(one.subset_of(h));
    let r = h.remove(x);
    assert(r.count(y) == h.count(y));
    assert(r.len() == h.len() - 1);
    assert(r.count(y) <= r.len());
}

/// The heap of the symbols that have weight, each paired with its weight.
fn leaf_heap(leaf: &Vec<u32>) -> (heap: WeightHeap)
    requires
        leaf.len() <= 65536,
    ensures
        holds_roots(heap_items(heap), leaf@, Seq::new(leaf.len() as nat, |j: int| -1int)),
        heap_items(heap).len() == index_sum(nonzero_ind(leaf@), leaf.len() as int),
{
    broadcast use vstd::seq_lib::group_to_multiset_ensures;
    broadcast use vstd::multiset::group_multiset_axioms;

    let n = leaf.len();
    let ghost nz = nonzero_ind(leaf@);
    let ghost none = Seq::new(n as nat, |j: int| -1int);
    let mut items: Vec<(u32, u16)> = Vec::new();
    for i in 0..n
        invariant
            n == leaf.len(),
            n <= 65536,
            nz == nonzero_ind(leaf@),
            items.len() == index_sum(nz, i as int),
            forall|x: (u32, u16)| #[trigger] items@.to_multiset().count(x) == (if (x.1 as int) < i
                && leaf@[x.1 as int] > 0 && x.0 == leaf@[x.1 as int] { 1nat } else { 0nat }),
    {
        let ghost before = items@;
        if leaf[i] > 0 {
            items.push((leaf[i], i as u16));
            assert(items@ == before.push((leaf[i as int], i as u16)));
        }
        assert forall|x: (u32, u16)| #[trigger] items@.to_multiset().count(x) == (if (x.1 as int) < i + 1
            && leaf@[x.1 as int] > 0 && x.0 == leaf@[x.1 as int] { 1nat } else { 0nat }) by {
            assert(before.to_multiset().count(x) == (if (x.1 as int) < i && leaf@[x.1 as int] > 0
                && x.0 == leaf@[x.1 as int] { 1nat } else { 0nat }));
            if leaf@[i as int] > 0 {
                let item = (leaf@[i as int], i as u16);
                before.to_multiset_ensures();
                assert(before.push(item).to_multiset() == before.to_multiset().insert(item));
                assert(items@ == before.push(item));
            } else {
                assert(items@ == before);
            }
        }
        assert(nz(i as int) == if leaf@[i as int] > 0 { 1nat } else { 0nat });
        assert(index_sum(nz, i + 1) == index_sum(nz, i as int) + nz(i as int));
    }
    let heap = heap_from_vec(items);
    proof {
        assert(items@.to_multiset().len() == items@.len());
        assert forall|x: (u32, u16)| #[trigger] heap_items(heap).count(x) == (if (x.1 as int) < leaf@.len()
            && is_root(leaf@, none, x.1 as int) && x.0 == leaf@[x.1 as int] { 1nat } else { 0nat }) by {
            assert(items@.to_multiset().count(x) == (if (x.1 as int) < n && leaf@[x.1 as int] > 0
                && x.0 == leaf@[x.1 as int] { 1nat } else { 0nat }));
        }
    }
    heap
}

/// Huffman's construction: while the heap holds two or more roots, joins
/// the two lightest into a new node. Returns the node weights, the two
/// children of each node (zero for a symbol) and, as ghost, each node's parent.
fn build_tree(leaf: &Vec<u32>, heap: WeightHeap) -> (r: (Vec<u32>, Vec<u16>, Vec<u16>, Ghost<Seq<int>>))
    requires
        leaf.len() <= 32768,
        index_sum(|t: int| leaf@[t] as nat, leaf.len() as int) <= u32::MAX,
        holds_roots(heap_items(heap), leaf@, Seq::new(leaf.len() as nat, |j: int| -1int)),
        2 <= heap_items(heap).len() <= leaf.len(),
    ensures
        tree_wf(leaf.len() as int, r.0@, r.1@, r.2@, r.3@),
        leaf.len() < r.0.len() < 2 * leaf.len(),
        forall|t: int| 0 <= t < leaf.len() ==> #[trigger] r.0@[t] == leaf@[t],
        r.3@[r.0.len() - 1] == -1,
        forall|t: int| 0 <= t < r.0.len() && #[trigger] is_root(r.0@, r.3@, t) ==> t == r.0.len() - 1,
        least_joins(leaf.len() as int, r.0@, r.1@, r.2@, r.3@),
        r.0@[r.0.len() - 1] == index_sum(|t: int| leaf@[t] as nat, leaf.len() as int),
{
    let n = leaf.len();
    let mut heap = heap;
    let mut wt: Vec<u32> = Vec::new();
    let mut c1: Vec<u16> = Vec::new();
    let mut c2: Vec<u16> = Vec::new();
    for i in 0..n
        invariant
            n == leaf.len(),
            wt.len() == i,
            c1.len() == i,
            c2.len() == i,
            forall|t: int| 0 <= t < i ==> #[trigger] wt@[t] == leaf@[t],
    {
        wt.push(leaf[i]);
        c1.push(0);
        c2.push(0);
    }
    let ghost mut par: Seq<int> = Seq::new(n as nat, |j: int| -1int);
    let ghost k = heap_items(heap).len();
    let ghost s = index_sum(|t: int| leaf@[t] as nat, n as int);
    proof {
        assert(wt@ == leaf@);
        lemma_index_sum_ext(root_weight(wt@, par), |t: int| leaf@[t] as nat, n as int);
    }
    while heap_len(&heap) > 1
        invariant
            n == leaf.len(),
            n <= 32768,
            2 <= k <= n,
            tree_wf(n as int, wt@, c1@, c2@, par),
            holds_roots(heap_items(heap), wt@, par),
            wt.len() + heap_items(heap).len() == n + k,
            heap_items(heap).len() >= 1,
            forall|t: int| 0 <= t < n ==> #[trigger] wt@[t] == leaf@[t],
            index_sum(root_weight(wt@, par), wt.len() as int) == s,
            s <= u32::MAX,
            wt.len() > n ==> par[wt.len() - 1] == -1,
            least_joins(n as int, wt@, c1@, c2@, par),
        decreases heap_items(heap).len(),
    {
        let ghost h0 = heap_items(heap);
        let a = heap_pop(&mut heap).unwrap();
        let ghost h1 = heap_items(heap);
        let b = heap_pop(&mut heap).unwrap();
        let ghost l = wt.len() as int;
        let ghost ia = a.1 as int;
        let ghost ib = b.1 as int;
        proof {
            broadcast use vstd::multiset::group_multiset_axioms;
            assert(h0.count(a) == 1);
            assert(h1.count(a) == 0);
            assert(h1.count(b) > 0);
            assert(b != a);
            assert(h0.count(b) > 0);
            assert(ia < l && is_root(wt@, par, ia) && a.0 == wt@[ia]);
            assert(ib < l && is_root(wt@, par, ib) && b.0 == wt@[ib]);
            assert(ia != ib);
            lemma_index_sum_ge2(root_weight(wt@, par), ia, ib, l);
        }
        let w = a.0 + b.0;
        let idx = wt.len() as u16;
        let ghost wt0 = wt@;
        let ghost c10 = c1@;
        let ghost c20 = c2@;
        let ghost par0 = par;
        wt.push(w);
        c1.push(a.1);
        c2.push(b.1);
        proof {
            par = par.update(ia, l).update(ib, l).push(-1int);
        }
        heap_push(&mut heap, (w, idx));
        proof {
            broadcast use vstd::multiset::group_multiset_axioms;
            assert(idx as int == l);
            // the tree keeps its shape
            assert forall|j: int| 0 <= j < wt.len() implies #[trigger] par[j] == -1 || (j < par[j] < wt.len()
                && n <= par[j] && (c1@[par[j]] == j || c2@[par[j]] == j) && wt@[j] > 0) by {
                if j < l && j != ia && j != ib && par0[j] != -1 {
                    assert(par[j] == par0[j]);
                    assert(c1@[par[j]] == c10[par0[j]]);
                    assert(c2@[par[j]] == c20[par0[j]]);
                }
            }
            assert forall|i: int| n <= i < wt.len() implies {
                &&& (#[trigger] c1@[i]) < i
                &&& c2@[i] < i
                &&& c1@[i] != c2@[i]
                &&& par[c1@[i] as int] == i
                &&& par[c2@[i] as int] == i
                &&& wt@[i] == wt@[c1@[i] as int] + wt@[c2@[i] as int]
            } by {
                if i < l {
                    assert(c10[i] == c1@[i]);
                    let x = c10[i] as int;
                    let y = c20[i] as int;
                    assert(par0[x] == i && par0[y] == i);
                    assert(x != ia && x != ib && y != ia && y != ib);
                }
            }
            // the heap holds the new roots
            assert forall|x: (u32, u16)| #[trigger] heap_items(heap).count(x) == (if (x.1 as int) < wt@.len()
                && is_root(wt@, par, x.1 as int) && x.0 == wt@[x.1 as int] { 1nat } else { 0nat }) by {
                assert(h0.count(x) == (if (x.1 as int) < l && is_root(wt0, par0, x.1 as int)
                    && x.0 == wt0[x.1 as int] { 1nat } else { 0nat }));
                if x.1 as int == ia || x.1 as int == ib {
                    assert(h1.remove(b).count(x) == 0);
                }
            }
            // the two joined roots were the lightest
            assert forall|i: int, j: int|
                n <= i < wt@.len() && 0 <= j && #[trigger] in_front(wt@, par, i, j) && j != c1@[i] as int && j
                    != c2@[i] as int implies wt@[c1@[i] as int] <= wt@[j] && wt@[c2@[i] as int] <= wt@[j] by {
                if i < l {
                    assert(in_front(wt0, par0, i, j));
                    assert(c1@[i] == c10[i] && c2@[i] == c20[i]);
                } else {
                    assert(j < l && par0[j] == -1);
                    let x = (wt@[j], j as u16);
                    assert(h0.count(x) == 1);
                    assert(h1.count(x) == 1);
                }
            }
            // the roots weigh what they weighed
            let f0 = root_weight(wt0, par0);
            let f1 = |t: int| if t == ia { 0nat } else { f0(t) };
            let f2 = root_weight(wt@, par);
            lemma_index_sum_point(f0, f1, ia, l);
            lemma_index_sum_point(f1, f2, ib, l);
            assert(f2(l) == w);
            assert(index_sum(f2, l + 1) == index_sum(f2, l) + f2(l));
        }
    }
    proof {
        let h = heap_items(heap);
        let l = wt.len() as int;
        assert(h.len() == 1);
        assert(l > n);
        assert(wt@[l - 1] > 0) by {
            let x = c1@[l - 1] as int;
            assert(par[x] == l - 1);
        }
        assert forall|t: int| 0 <= t < wt.len() && #[trigger] is_root(wt@, par, t) implies t == wt.len() - 1 by {
            if t != l - 1 {
                let x = (wt@[t], t as u16);
                let y = (wt@[l - 1], (l - 1) as u16);
                assert(h.count(x) == 1);
                assert(h.count(y) == 1);
                lemma_two_items(h, x, y);
            }
        }
        let f = root_weight(wt@, par);
        let z = |t: int| 0nat;
        assert forall|t: int| 0 <= t < l && t != l - 1 implies #[trigger] z(t) == f(t) by {
            if par[t] == -1 && wt@[t] > 0 {
                assert(is_root(wt@, par, t));
            }
        }
        lemma_index_sum_zero(z, l);
        lemma_index_sum_point(z, f, l - 1, l);
        lemma_index_sum_ext(|t: int| leaf@[t] as nat, |t: int| leaf@[t] as nat, n as int);
    }
    (wt, c1, c2, Ghost(par))
}

/// Node `t` is on the frontier once the inner nodes from `i` on have handed
/// their depth down: it comes before `i`, is in the tree, and its parent (if
/// any) is among those nodes.
pub open spec fn in_front(wt: Seq<u32>, par: Seq<int>, i: int, t: int) -> bool {
    t < i && wt[t] > 0 && (par[t] == -1 || par[t] >= i)
}

/// `2^(d - depth)` for a node on the frontier.
pub open spec fn front_mass(wt: Seq<u32>, par: Seq<int>, cl: Seq<u32>, i: int, d: nat) -> spec_fn(int) -> nat {
    |t: int| if in_front(wt, par, i, t) { pow2((d - cl[t]) as nat) } else { 0nat }
}

/// `2^(d - depth)` for a symbol in the tree.
pub open spec fn leaf_mass(wt: Seq<u32>, cl: Seq<u32>, d: nat) -> spec_fn(int) -> nat {
    |t: int| if wt[t] > 0 { pow2((d - cl[t]) as nat) } else { 0nat }
}

/// `dep` gives each node in the tree its depth: zero for a node without a
/// parent, one more than its parent's otherwise.
pub open spec fn is_depth(wt: Seq<u32>, par: Seq<int>, dep: Seq<u32>) -> bool {
    forall|t: int| 0 <= t < wt.len() && wt[t] > 0 ==> if par[t] == -1 {
        #[trigger] dep[t] == 0
    } else {
        dep[t] == dep[par[t]] + 1
    }
}

/// The nodes whose parent comes at `i` or later have their depth, and a
/// node without a parent has depth zero.
#[verifier::opaque]
pub open spec fn depths_from(wt: Seq<u32>, par: Seq<int>, cl: Seq<u32>, i: int) -> bool {
    forall|t: int| 0 <= t < wt.len() && wt[t] > 0 ==> (par[t] == -1 ==> #[trigger] cl[t] == 0) && (par[t] >= i ==> cl[t]
        == cl[par[t]] + 1)
}

/// Handing node `i`'s depth, plus one, to its two children.
proof fn lemma_depths_step(n: int, wt: Seq<u32>, c1: Seq<u16>, c2: Seq<u16>, par: Seq<int>, cl0: Seq<u32>, cl: Seq<u32>, i: int)
    requires
        tree_wf(n, wt, c1, c2, par),
        n <= i < wt.len(),
        cl0.len() == wt.len(),
        cl0[i] + 1 <= u32::MAX,
        cl == cl0.update(c1[i] as int, (cl0[i] + 1) as u32).update(c2[i] as int, (cl0[i] + 1) as u32),
        depths_from(wt, par, cl0, i + 1),
    ensures
        depths_from(wt, par, cl, i),
{
    reveal(depths_from);
    assert forall|t: int| 0 <= t < wt.len() && wt[t] > 0 implies (par[t] == -1 ==> #[trigger] cl[t] == 0) && (par[t] >= i
        ==> cl[t] == cl[par[t]] + 1) by {
        if par[t] == i {
            assert(c1[par[t]] == t || c2[par[t]] == t);
        } else if par[t] > i {
            assert(cl0[t] == cl0[par[t]] + 1);
        }
    }
}

/// Once every inner node has handed its depth down, every node has its depth.
proof fn lemma_depths_done(n: int, wt: Seq<u32>, c1: Seq<u16>, c2: Seq<u16>, par: Seq<int>, cl: Seq<u32>)
    requires
        tree_wf(n, wt, c1, c2, par),
        depths_from(wt, par, cl, n),
    ensures
        is_depth(wt, par, cl),
{
    reveal(depths_from);
    assert forall|t: int| 0 <= t < wt.len() && wt[t] > 0 implies if par[t] == -1 {
        #[trigger] cl[t] == 0
    } else {
        cl[t] == cl[par[t]] + 1
    } by {
        if par[t] != -1 {
            assert(par[t] >= n);
        }
    }
}

/// The depth of every node, handed down from the root. The symbols' depths
/// `len` satisfy `sum 2^(L - len) == 2^L` (with `L` the number of nodes):
/// the code is complete.
#[verifier::rlimit(60)]
fn tree_depths(n: usize, wt: &Vec<u32>, c1: &Vec<u16>, c2: &Vec<u16>, Ghost(par): Ghost<Seq<int>>) -> (cl: Vec<u32>)
    requires
        tree_wf(n as int, wt@, c1@, c2@, par),
        n < wt.len() <= 65536,
        par[wt.len() - 1] == -1,
        forall|t: int| 0 <= t < wt.len() && #[trigger] is_root(wt@, par, t) ==> t == wt.len() - 1,
    ensures
        cl.len() == wt.len(),
        forall|t: int| 0 <= t < n ==> (wt@[t] > 0 ==> 1 <= #[trigger] cl@[t] < wt.len()) && (wt@[t] == 0 ==> cl@[t] == 0),
        index_sum(leaf_mass(wt@, cl@, wt.len() as nat), n as int) == pow2(wt.len() as nat),
        is_depth(wt@, par, cl@),
{
    let len = wt.len();
    let ghost d = len as nat;
    let mut cl: Vec<u32> = Vec::new();
    for t in 0..len
        invariant
            cl.len() == t,
            forall|u: int| 0 <= u < t ==> #[trigger] cl@[u] == 0,
    {
        cl.push(0);
    }
    proof {
        let root = len - 1;
        assert(wt@[root] > 0) by {
            let x = c1@[root] as int;
            assert(par[x] == root);
        }
        let f = front_mass(wt@, par, cl@, len as int, d);
        let z = |t: int| 0nat;
        assert forall|t: int| 0 <= t < len && t != root implies #[trigger] z(t) == f(t) by {
            if in_front(wt@, par, len as int, t) {
                assert(is_root(wt@, par, t));
            }
        }
        lemma_index_sum_zero(z, len as int);
        lemma_index_sum_point(z, f, root, len as int);
        reveal(depths_from);
        assert(depths_from(wt@, par, cl@, len as int));
    }
    let mut i = len;
    while i > n
        invariant
            n < len,
            len <= 65536,
            len == wt.len(),
            d == len,
            cl.len() == len,
            n <= i <= len,
            tree_wf(n as int, wt@, c1@, c2@, par),
            forall|t: int| 0 <= t < len && #[trigger] is_root(wt@, par, t) ==> t == len - 1,
            index_sum(front_mass(wt@, par, cl@, i as int, d), len as int) == pow2(d),
            forall|t: int| 0 <= t < len && #[trigger] in_front(wt@, par, i as int, t) ==> cl@[t] + t < len && (par[t]
                != -1 ==> cl@[t] >= 1),
            forall|t: int| 0 <= t < len && wt@[t] == 0 ==> #[trigger] cl@[t] == 0,
            depths_from(wt@, par, cl@, i as int),
        decreases i,
    {
        i = i - 1;
        let di = cl[i];
        let a = c1[i] as usize;
        let b = c2[i] as usize;
        let ghost cl0 = cl@;
        proof {
            assert(par[a as int] == i && par[b as int] == i);
            assert(wt@[a as int] > 0 && wt@[b as int] > 0);
            assert(wt@[i as int] > 0);
            assert(par[i as int] == -1 || par[i as int] > i);
            assert(in_front(wt@, par, i + 1, i as int));
            assert(cl@[i as int] + i < len);
        }
        cl.set(a, di + 1);
        cl.set(b, di + 1);
        proof {
            let ii = i as int;
            let f0 = front_mass(wt@, par, cl0, ii + 1, d);
            let f3 = front_mass(wt@, par, cl@, ii, d);
            let half = pow2((d - di - 1) as nat);
            let f1 = |t: int| if t == ii { 0nat } else { f0(t) };
            let f2 = |t: int| if t == a as int { half } else { f1(t) };
            assert(!in_front(wt@, par, ii + 1, a as int));
            assert(!in_front(wt@, par, ii + 1, b as int));
            lemma_index_sum_point(f0, f1, ii, len as int);
            lemma_index_sum_point(f1, f2, a as int, len as int);
            assert forall|t: int| 0 <= t < len && t != b as int implies #[trigger] f2(t) == f3(t) by {
                if t != ii && t != a as int {
                    if par[t] == ii {
                        assert(c1@[par[t]] == t || c2@[par[t]] == t);
                    }
                    assert(in_front(wt@, par, ii + 1, t) == in_front(wt@, par, ii, t));
                }
            }
            lemma_index_sum_point(f2, f3, b as int, len as int);
            lemma_pow2_adds(1, (d - di - 1) as nat);
            lemma2_to64();
            assert(cl@ == cl0.update(a as int, (di + 1) as u32).update(b as int, (di + 1) as u32));
            lemma_depths_step(n as int, wt@, c1@, c2@, par, cl0, cl@, ii);
            assert forall|t: int| 0 <= t < len && #[trigger] in_front(wt@, par, ii, t) implies cl@[t] + t < len && (par[t]
                != -1 ==> cl@[t] >= 1) by {
                if t != a as int && t != b as int {
                    if par[t] == ii {
                        assert(c1@[par[t]] == t || c2@[par[t]] == t);
                    }
                    assert(in_front(wt@, par, ii + 1, t));
                }
            }
        }
    }
    proof {
        let fl = leaf_mass(wt@, cl@, d);
        let ff = front_mass(wt@, par, cl@, n as int, d);
        assert forall|t: int| n <= t < len implies #[trigger] ff(t) == 0 by {}
        lemma_index_sum_tail_zero(ff, n as int, len as int);
        assert forall|t: int| 0 <= t < n implies #[trigger] ff(t) == fl(t) by {
            if wt@[t] > 0 {
                assert(!is_root(wt@, par, t));
            }
        }
        lemma_index_sum_ext(ff, fl, n as int);
        lemma_depths_done(n as int, wt@, c1@, c2@, par, cl@);
        assert forall|t: int| 0 <= t < n implies (wt@[t] > 0 ==> 1 <= #[trigger] cl@[t] < wt.len()) && (wt@[t] == 0
            ==> cl@[t] == 0) by {
            if wt@[t] > 0 {
                assert(!is_root(wt@, par, t));
                assert(in_front(wt@, par, n as int, t));
            }
        }
    }
    cl
}

/// `wt`, `c1`, `c2`, `par` and `dep` describe a tree of Huffman's
/// construction on the symbol weights `ws`: the symbols come first, each
/// later node joins two roots of least weight, the last node is the only
/// root, and `dep` gives each node its depth.
pub open spec fn huffman_tree(ws: Seq<u32>, wt: Seq<u32>, c1: Seq<u16>, c2: Seq<u16>, par: Seq<int>, dep: Seq<u32>) -> bool {
    let n = ws.len() as int;
    let l = wt.len() as int;
    &&& n < l
    &&& forall|t: int| 0 <= t < n ==> #[trigger] wt[t] == ws[t]
    &&& tree_wf(n, wt, c1, c2, par)
    &&& least_joins(n, wt, c1, c2, par)
    &&& par[l - 1] == -1
    &&& forall|t: int| 0 <= t < l && #[trigger] is_root(wt, par, t) ==> t == l - 1
    &&& dep.len() == l
    &&& is_depth(wt, par, dep)
}

/// `lens` are the depths of the symbols in a tree of Huffman's construction
/// on the weights `ws` (zero for a symbol of weight zero).
pub open spec fn huffman_lens(ws: Seq<u32>, lens: Seq<nat>) -> bool {
    exists|wt: Seq<u32>, c1: Seq<u16>, c2: Seq<u16>, par: Seq<int>, dep: Seq<u32>|
        #[trigger] huffman_tree(ws, wt, c1, c2, par, dep) && lens.len() == ws.len() && forall|t: int|
            0 <= t < ws.len() ==> #[trigger] lens[t] == (if ws[t] > 0 { dep[t] as nat } else { 0 })
}

/// A weight divided by `2^s`, but at least one unless it is zero.
pub open spec fn shrunk_weight(x: u32, s: nat) -> u32 {
    if x == 0 {
        0
    } else if x as nat / pow2(s) > 1 {
        (x as nat / pow2(s)) as u32
    } else {
        1
    }
}

/// Every weight of `ws` shrunk by `2^s`.
pub open spec fn shrink(ws: Seq<u32>, s: nat) -> Seq<u32> {
    Seq::new(ws.len(), |t: int| shrunk_weight(ws[t], s))
}

/// One retry: Huffman's construction on `a` gives lengths whose longest
/// exceeds `m` by `s`, and `b` is `a` shrunk by `2^s`.
pub open spec fn retry_step(a: Seq<u32>, b: Seq<u32>, m: nat) -> bool {
    exists|lens: Seq<nat>, s: nat|
        #![trigger huffman_lens(a, lens), shrink(a, s)]
        huffman_lens(a, lens) && s >= 1 && (forall|t: int| 0 <= t < lens.len() ==> #[trigger] lens[t] <= m + s)
            && (exists|t: int| 0 <= t < lens.len() && #[trigger] lens[t] == m + s) && b == shrink(a, s)
}

/// The weights `b` are reached from `a` by zero or more retries.
pub open spec fn retries(a: Seq<u32>, b: Seq<u32>, m: nat) -> bool {
    exists|chain: Seq<Seq<u32>>|
        chain.len() >= 1 && #[trigger] chain[0] == a && chain.last() == b && forall|j: int|
            0 <= j < chain.len() - 1 ==> retry_step(chain[j], #[trigger] chain[j + 1], m)
}

/// `lens` are what `HuffmanTable::new_from_sym_weights` makes of the
/// weights `ws` with the limit `m`: a length for exactly the symbols of
/// weight, valid code lengths; with two or more such symbols a complete
/// code no longer than `m`, the symbols' depths in a tree of Huffman's
/// construction on `ws` or on the weights its retries reach; a lone symbol
/// gets length 1.
pub open spec fn huffman_built(ws: Seq<u32>, m: nat, lens: Seq<u8>) -> bool {
    &&& lens.len() == ws.len()
    &&& forall|i: int| 0 <= i < ws.len() ==> (#[trigger] lens[i] > 0 <==> ws[i] > 0)
    &&& lens_valid(lens, max_len(lens))
    &&& nonzero_count(ws) >= 2 ==> max_len(lens) <= m
    &&& nonzero_count(ws) == 1 ==> max_len(lens) == 1
    &&& nonzero_count(ws) >= 2 ==> kraft_sum(lens, max_len(lens), lens.len() as int) == pow2(max_len(lens))
    &&& nonzero_count(ws) >= 2 ==> exists|ws2: Seq<u32>|
        #[trigger] retries(ws, ws2, m) && huffman_lens(ws2, lens.map_values(|x: u8| x as nat))
}

/// The height of node `i`: zero for a symbol, one more than its taller
/// child's for an inner node.
pub open spec fn node_height(n: int, c1: Seq<u16>, c2: Seq<u16>, i: int) -> nat
    decreases i,
{
    if n <= i && (c1[i] as int) < i && (c2[i] as int) < i {
        let h1 = node_height(n, c1, c2, c1[i] as int);
        let h2 = node_height(n, c1, c2, c2[i] as int);
        if h1 >= h2 {
            h1 + 1
        } else {
            h2 + 1
        }
    } else {
        0
    }
}

/// A node's depth and height add up to at most the root's height.
proof fn lemma_depth_height(n: int, wt: Seq<u32>, c1: Seq<u16>, c2: Seq<u16>, par: Seq<int>, dep: Seq<u32>, t: int)
    requires
        tree_wf(n, wt, c1, c2, par),
        is_depth(wt, par, dep),
        forall|u: int| 0 <= u < wt.len() && #[trigger] is_root(wt, par, u) ==> u == wt.len() - 1,
        0 <= t < wt.len(),
        wt[t] > 0,
    ensures
        dep[t] + node_height(n, c1, c2, t) <= node_height(n, c1, c2, wt.len() - 1),
    decreases wt.len() - t,
{
    if par[t] == -1 {
        assert(is_root(wt, par, t));
        assert(dep[t] == 0);
    } else {
        let p = par[t];
        assert(c1[p] == t || c2[p] == t);
        assert(wt[p] == wt[c1[p] as int] + wt[c2[p] as int]);
        lemma_depth_height(n, wt, c1, c2, par, dep, p);
        assert(dep[t] == dep[p] + 1);
        assert(node_height(n, c1, c2, p) >= node_height(n, c1, c2, t) + 1);
    }
}

/// With every symbol weighing at most one, node `t` weighs `2^k` and has
/// height `k`, or weighs `2^(k + 1)` and has height `k + 1`, or is `x`,
/// weighs in between and has height `k + 1`.
pub open spec fn unit_class(n: int, wt: Seq<u32>, c1: Seq<u16>, c2: Seq<u16>, t: int, k: nat, x: int) -> bool {
    ||| wt[t] == pow2(k) && node_height(n, c1, c2, t) == k
    ||| wt[t] == pow2(k + 1) && node_height(n, c1, c2, t) == k + 1
    ||| t == x && pow2(k) < wt[t] < pow2(k + 1) && node_height(n, c1, c2, t) == k + 1
}

/// Before node `i` is made, every root is of the class `(k, x)`.
pub open spec fn unit_front(n: int, wt: Seq<u32>, c1: Seq<u16>, c2: Seq<u16>, par: Seq<int>, i: int, k: nat, x: int) -> bool {
    forall|t: int| 0 <= t && #[trigger] in_front(wt, par, i, t) ==> unit_class(n, wt, c1, c2, t, k, x)
}

/// When every symbol weighs at most one, joining two lightest roots keeps
/// the roots within a factor of two of each other, all but one a power of two.
proof fn lemma_unit_front(n: int, wt: Seq<u32>, c1: Seq<u16>, c2: Seq<u16>, par: Seq<int>, i: int) -> (kx: (nat, int))
    requires
        tree_wf(n, wt, c1, c2, par),
        least_joins(n, wt, c1, c2, par),
        forall|t: int| 0 <= t < n ==> #[trigger] wt[t] <= 1,
        n <= i <= wt.len(),
    ensures
        unit_front(n, wt, c1, c2, par, i, kx.0, kx.1),
    decreases i,
{
    if i == n {
        assert forall|t: int| 0 <= t && #[trigger] in_front(wt, par, i, t) implies unit_class(n, wt, c1, c2, t, 0, -1) by {
            assert(pow2(0) == 1) by { lemma2_to64(); }
            assert(node_height(n, c1, c2, t) == 0);
        }
        (0, -1)
    } else {
        let (k, x) = lemma_unit_front(n, wt, c1, c2, par, i - 1);
        let j = i - 1;
        let a = c1[j] as int;
        let b = c2[j] as int;
        let p = pow2(k);
        lemma_pow2_unfold(k + 1);
        lemma_pow2_unfold(k + 2);
        lemma_pow2_pos(k);
        assert(in_front(wt, par, j, a));
        assert(in_front(wt, par, j, b));
        assert(unit_class(n, wt, c1, c2, a, k, x));
        assert(unit_class(n, wt, c1, c2, b, k, x));
        let ha = node_height(n, c1, c2, a);
        let hb = node_height(n, c1, c2, b);
        assert(node_height(n, c1, c2, j) == if ha >= hb { ha + 1 } else { hb + 1 });
        assert(wt[j] == wt[a] + wt[b]);
        if wt[a] == p && wt[b] == p {
            assert forall|t: int| 0 <= t && #[trigger] in_front(wt, par, i, t) implies unit_class(n, wt, c1, c2, t, k, x) by {
                if t != j {
                    assert(in_front(wt, par, j, t));
                }
            }
            (k, x)
        } else {
            assert forall|t: int| 0 <= t && #[trigger] in_front(wt, par, i, t) implies unit_class(
                n,
                wt,
                c1,
                c2,
                t,
                k + 1,
                j,
            ) by {
                if t != j {
                    assert(in_front(wt, par, j, t));
                    assert(t != a && t != b);
                    assert(wt[a] <= wt[t] && wt[b] <= wt[t]);
                    assert(unit_class(n, wt, c1, c2, t, k, x));
                }
            }
            (k + 1, j)
        }
    }
}

/// When every symbol weighs at most one and they weigh at most `2^m`
/// together, no symbol is deeper than `m`.
proof fn lemma_unit_depths(ws: Seq<u32>, wt: Seq<u32>, c1: Seq<u16>, c2: Seq<u16>, par: Seq<int>, dep: Seq<u32>, m: nat)
    requires
        huffman_tree(ws, wt, c1, c2, par, dep),
        forall|t: int| 0 <= t < ws.len() ==> #[trigger] ws[t] <= 1,
        wt[wt.len() - 1] <= pow2(m),
    ensures
        forall|t: int| 0 <= t < wt.len() && wt[t] > 0 ==> #[trigger] dep[t] <= m,
{
    let n = ws.len() as int;
    let l = wt.len() as int;
    let r = l - 1;
    assert forall|t: int| 0 <= t < n implies #[trigger] wt[t] <= 1 by {
        assert(wt[t] == ws[t]);
    }
    let (k, x) = lemma_unit_front(n, wt, c1, c2, par, l);
    assert(wt[r] > 0) by {
        let y = c1[r] as int;
        assert(par[y] == r);
    }
    assert(in_front(wt, par, l, r));
    assert(unit_class(n, wt, c1, c2, r, k, x));
    let h = node_height(n, c1, c2, r);
    lemma_pow2_unfold(k + 1);
    lemma_pow2_pos(k);
    assert(h <= m) by {
        if h > m {
            if wt[r] == pow2(k) {
                lemma_pow2_strictly_increases(m, k);
            } else if wt[r] == pow2(k + 1) {
                lemma_pow2_strictly_increases(m, k + 1);
            } else {
                if k > m {
                    lemma_pow2_strictly_increases(m, k);
                }
            }
        }
    }
    assert forall|t: int| 0 <= t < wt.len() && wt[t] > 0 implies #[trigger] dep[t] <= m by {
        lemma_depth_height(n, wt, c1, c2, par, dep, t);
    }
}

/// The Kraft sum as an index sum.
proof fn lemma_kraft_index_sum(lens: Seq<u8>, m: nat, j: int)
    ensures
        kraft_sum(lens, m, j) == index_sum(|t: int| code_weight(lens, m, t), j),
    decreases j,
{
    if j > 0 {
        lemma_kraft_index_sum(lens, m, j - 1);
    }
}

/// Lengths that are all at most `m` have a longest length of at most `m`.
proof fn lemma_max_len_le(lens: Seq<u8>, m: nat)
    requires
        forall|i: int| 0 <= i < lens.len() ==> #[trigger] lens[i] <= m,
    ensures
        max_len(lens) <= m,
    decreases lens.len(),
{
    if lens.len() > 0 {
        let rest = lens.drop_last();
        assert forall|i: int| 0 <= i < rest.len() implies #[trigger] rest[i] <= m by {
            assert(rest[i] == lens[i]);
        }
        lemma_max_len_le(rest, m);
    }
}

/// The longest length is `m` when all are at most `m` and `m` occurs (or is zero).
proof fn lemma_max_len_is(lens: Seq<u8>, m: nat, w: int)
    requires
        forall|i: int| 0 <= i < lens.len() ==> #[trigger] lens[i] <= m,
        m == 0 || (0 <= w < lens.len() && lens[w] == m),
    ensures
        max_len(lens) == m,
{
    lemma_max_len_le(lens, m);
    lemma_max_len_bound(lens);
}

impl HuffmanTable {
    /// Code lengths for the symbols of weight `sym_weights`, none longer than
    /// `max_code_len`: the depths of a tree of Huffman's construction (the
    /// two lightest roots are joined until one is left, ties broken as the
    /// heap breaks them), and while the longest code is too long, the same
    /// on the weights divided by `2^excess` (at least 1). Symbols of weight
    /// zero get no code; a lone symbol gets length 1. With two or more
    /// symbols the code is complete: the Kraft sum is exactly one.
    pub fn new_from_sym_weights(sym_weights: &[u32], max_code_len: u8) -> (r: Self)
        requires
            sym_weights.len() <= 32768,
            weight_sum(sym_weights@) <= u32::MAX,
            nonzero_count(sym_weights@) <= pow2(max_code_len as nat),
            max_code_len <= 16,
        ensures
            r.max_code_len == max_len(r.code_lens@),
            huffman_built(sym_weights@, max_code_len as nat, r.code_lens@),
    {
        let n = sym_weights.len();
        let mut leaf: Vec<u32> = Vec::new();
        for i in 0..n
            invariant
                n == sym_weights.len(),
                leaf.len() == i,
                forall|t: int| 0 <= t < i ==> #[trigger] leaf@[t] == sym_weights@[t],
        {
            leaf.push(sym_weights[i]);
        }
        let ghost mut chain: Seq<Seq<u32>> = seq![sym_weights@];
        proof {
            assert(leaf@ == sym_weights@);
        }
        loop
            invariant
                chain.len() >= 1,
                chain[0] == sym_weights@,
                chain.last() == leaf@,
                forall|j: int| 0 <= j < chain.len() - 1 ==> retry_step(chain[j], #[trigger] chain[j + 1], max_code_len as nat),
                n == sym_weights.len(),
                n <= 32768,
                max_code_len <= 16,
                leaf.len() == n,
                forall|t: int| 0 <= t < n ==> (#[trigger] leaf@[t] > 0 <==> sym_weights@[t] > 0),
                weight_sum(leaf@) <= u32::MAX,
                nonzero_count(leaf@) == nonzero_count(sym_weights@),
                nonzero_count(sym_weights@) <= pow2(max_code_len as nat),
            decreases weight_sum(leaf@),
        {
            let mut heap = leaf_heap(&leaf);
            let ghost k = heap_items(heap).len();
            proof {
                lemma_index_sum_ext(nonzero_ind(leaf@), |t: int| if leaf@[t] > 0 { 1nat } else { 0nat }, n as int);
            }
            if heap_len(&heap) <= 1 {
                let mut lens: Vec<u8> = Vec::new();
                for t in 0..n
                    invariant
                        lens.len() == t,
                        forall|u: int| 0 <= u < t ==> #[trigger] lens@[u] == 0,
                {
                    lens.push(0);
                }
                let ghost h = heap_items(heap);
                let ghost none = Seq::new(n as nat, |j: int| -1int);
                match heap_pop(&mut heap) {
                    Some(node) => {
                        let s = node.1 as usize;
                        proof {
                            assert(h.count(node) == 1);
                            assert(s < n && leaf@[s as int] > 0);
                        }
                        lens.set(s, 1);
                        proof {
                            assert forall|i: int| 0 <= i < n implies (#[trigger] lens@[i] > 0 <==> sym_weights@[i] > 0) by {
                                if i != s && leaf@[i] > 0 {
                                    let x = (leaf@[i], i as u16);
                                    assert(h.count(x) == 1);
                                    lemma_two_items(h, node, x);
                                }
                            }
                            lemma_max_len_is(lens@, 1, s as int);
                            lemma2_to64();
                            let cw = |t: int| code_weight(lens@, 1, t);
                            let z = |t: int| 0nat;
                            lemma_index_sum_zero(z, n as int);
                            lemma_index_sum_point(z, cw, s as int, n as int);
                            lemma_kraft_index_sum(lens@, 1, n as int);
                        }
                        return HuffmanTable::new(lens, 1);
                    },
                    None => {
                        proof {
                            assert forall|i: int| 0 <= i < n implies !(sym_weights@[i] > 0) by {
                                if leaf@[i] > 0 {
                                    let x = (leaf@[i], i as u16);
                                    assert(h.count(x) == 1);
                                    broadcast use vstd::multiset::group_multiset_axioms;
                                }
                            }
                            lemma_max_len_is(lens@, 0, 0);
                            let cw = |t: int| code_weight(lens@, 0, t);
                            lemma_index_sum_zero(cw, n as int);
                            lemma_kraft_index_sum(lens@, 0, n as int);
                            lemma2_to64();
                        }
                        return HuffmanTable::new(lens, 0);
                    },
                }
            }
            proof {
                lemma_index_sum_count_bound(nonzero_ind(leaf@), n as int);
                assert(exists|t: int| 0 <= t < n && leaf@[t] > 0) by {
                    if forall|t: int| 0 <= t < n ==> !(leaf@[t] > 0) {
                        lemma_index_sum_zero(nonzero_ind(leaf@), n as int);
                    }
                }
            }
            let ghost t0 = choose|t: int| 0 <= t < n && leaf@[t] > 0;
            let (wt, c1, c2, Ghost(par)) = build_tree(&leaf, heap);
            let cl = tree_depths(n, &wt, &c1, &c2, Ghost(par));
            let mut cur_max: u32 = 0;
            let ghost mut w: int = 0;
            for t in 0..n
                invariant
                    n < cl.len(),
                    forall|u: int| 0 <= u < t ==> #[trigger] cl@[u] <= cur_max,
                    cur_max == 0 || (0 <= w < n && cl@[w] == cur_max),
            {
                if cl[t] > cur_max {
                    cur_max = cl[t];
                    proof {
                        w = t as int;
                    }
                }
            }
            proof {
                assert(wt@[t0] == leaf@[t0]);
                assert(cl@[t0] >= 1);
                assert(cl@[t0] <= cur_max);
                assert(wt@[w] > 0 && cl@[w] < wt.len());
            }
            proof {
                assert(huffman_tree(leaf@, wt@, c1@, c2@, par, cl@));
            }
            if cur_max > max_code_len as u32 {
                let shift = cur_max - max_code_len as u32;
                let ghost old_leaf = leaf@;
                let ghost mut changed = false;
                let ghost mut p: int = 0;
                for t in 0..n
                    invariant
                        n == leaf.len(),
                        old_leaf.len() == n,
                        shift >= 1,
                        forall|u: int| 0 <= u < n ==> (#[trigger] leaf@[u] > 0 <==> old_leaf[u] > 0),
                        forall|u: int| 0 <= u < n ==> #[trigger] leaf@[u] <= old_leaf[u],
                        forall|u: int| t <= u < n ==> #[trigger] leaf@[u] == old_leaf[u],
                        forall|u: int| 0 <= u < t ==> #[trigger] leaf@[u] == shrunk_weight(old_leaf[u], shift as nat),
                        changed ==> 0 <= p < n && leaf@[p] < old_leaf[p],
                        !changed ==> forall|u: int| 0 <= u < t ==> #[trigger] old_leaf[u] <= 1,
                {
                    let x = leaf[t];
                    if x > 0 {
                        let scaled = if shift >= 32 { 0 } else { x >> shift };
                        let y = if scaled > 1 { scaled } else { 1 };
                        proof {
                            if shift < 32 {
                                assert(x >> shift <= x) by (bit_vector);
                                assert(x >= 2 && shift >= 1 ==> x >> shift < x) by (bit_vector);
                                vstd::bits::lemma_u32_shr_is_div(x, shift);
                            } else {
                                lemma2_to64();
                                if shift > 32 {
                                    lemma_pow2_strictly_increases(32, shift as nat);
                                }
                                assert(x as nat / pow2(shift as nat) == 0) by (nonlinear_arith)
                                    requires
                                        x < pow2(shift as nat),
                                ;
                            }
                            assert(y == shrunk_weight(x, shift as nat));
                            if y != x {
                                changed = true;
                                p = t as int;
                            }
                        }
                        leaf.set(t, y);
                    }
                }
                let ghost fo = |t: int| old_leaf[t] as nat;
                let ghost fnew = |t: int| leaf@[t] as nat;
                proof {
                    if !changed {
                        // every symbol weighs one: the tree is no deeper than the limit
                        let nz = |t: int| if old_leaf[t] > 0 { 1nat } else { 0nat };
                        assert forall|t: int| 0 <= t < n implies #[trigger] fo(t) == nz(t) by {}
                        lemma_index_sum_ext(fo, nz, n as int);
                        lemma_index_sum_ext(|t: int| old_leaf[t] as nat, fo, n as int);
                        assert(old_leaf == chain.last());
                        lemma_unit_depths(old_leaf, wt@, c1@, c2@, par, cl@, max_code_len as nat);
                        assert(wt@[w] > 0);
                        assert(false);
                    }
                    lemma_index_sum_mono(fnew, fo, p, n as int);
                    lemma_index_sum_ext(nonzero_ind(leaf@), nonzero_ind(old_leaf), n as int);
                    lemma_index_sum_ext(nonzero_ind(leaf@), |t: int| if leaf@[t] > 0 { 1nat } else { 0nat }, n as int);
                    lemma_index_sum_ext(nonzero_ind(old_leaf), |t: int| if old_leaf[t] > 0 { 1nat } else { 0nat }, n as int);
                    // the retry, for the record
                    let lens_j = Seq::new(n as nat, |t: int| if old_leaf[t] > 0 { cl@[t] as nat } else { 0nat });
                    assert(huffman_lens(old_leaf, lens_j));
                    assert(leaf@ == shrink(old_leaf, shift as nat));
                    assert(lens_j[w] == max_code_len + shift);
                    assert(retry_step(old_leaf, leaf@, max_code_len as nat));
                    let chain0 = chain;
                    chain = chain.push(leaf@);
                    assert forall|j: int| 0 <= j < chain.len() - 1 implies retry_step(
                        chain[j],
                        #[trigger] chain[j + 1],
                        max_code_len as nat,
                    ) by {
                        if j < chain0.len() - 1 {
                            assert(chain[j] == chain0[j] && chain[j + 1] == chain0[j + 1]);
                        }
                    }
                }
                continue;
            }
            let mut lens: Vec<u8> = Vec::new();
            for t in 0..n
                invariant
                    n < cl.len(),
                    cur_max <= max_code_len,
                    forall|u: int| 0 <= u < n ==> #[trigger] cl@[u] <= cur_max,
                    lens.len() == t,
                    forall|u: int| 0 <= u < t ==> #[trigger] lens@[u] == cl@[u],
            {
                lens.push(cl[t] as u8);
            }
            proof {
                let l = wt.len() as nat;
                let m = cur_max as nat;
                assert forall|i: int| 0 <= i < n implies (#[trigger] lens@[i] > 0 <==> sym_weights@[i] > 0) by {
                    assert(wt@[i] == leaf@[i]);
                }
                lemma_max_len_is(lens@, m, w);
                let fl = leaf_mass(wt@, cl@, l);
                let cw = |t: int| code_weight(lens@, m, t);
                let c = pow2((l - m) as nat);
                assert forall|t: int| 0 <= t < n implies #[trigger] fl(t) == c * cw(t) by {
                    assert(lens@[t] == cl@[t]);
                    assert(cl@[t] <= m);
                    if wt@[t] > 0 {
                        assert(cl@[t] >= 1);
                        assert(fl(t) == pow2((l - cl@[t]) as nat));
                        assert(cw(t) == pow2((m - cl@[t]) as nat));
                        lemma_pow2_adds((l - m) as nat, (m - cl@[t]) as nat);
                        assert((l - m) as nat + (m - cl@[t]) as nat == (l - cl@[t]) as nat);
                    } else {
                        assert(cl@[t] == 0);
                        assert(fl(t) == 0);
                        assert(cw(t) == 0);
                        assert(c * 0 == 0);
                    }
                }
                lemma_index_sum_scale(fl, cw, c, n as int);
                lemma_kraft_index_sum(lens@, m, n as int);
                lemma_pow2_adds((l - m) as nat, m);
                lemma_pow2_pos((l - m) as nat);
                let kr = kraft_sum(lens@, m, n as int);
                let pm = pow2(m);
                assert(c * kr == c * pm);
                assert(kr == pm) by (nonlinear_arith)
                    requires
                        c > 0,
                        c * kr == c * pm,
                ;
                assert(nonzero_count(sym_weights@) >= 2);
            }
            proof {
                let ls = lens@.map_values(|x: u8| x as nat);
                assert forall|t: int| 0 <= t < n implies #[trigger] ls[t] == (if leaf@[t] > 0 { cl@[t] as nat } else {
                    0
                }) by {
                    assert(wt@[t] == leaf@[t]);
                }
                assert(huffman_lens(leaf@, ls));
                assert(retries(sym_weights@, leaf@, max_code_len as nat));
            }
            return HuffmanTable::new(lens, cur_max as u8);
        }
    }
}

} // verus!
