use vstd::prelude::*;

use crate::error::MlsError;

verus! {

/// Largest number of leaf slots a tree may have: node indices then fit in
/// `u32` with room to spare.
pub const MAX_LEAVES: usize = 0x4000_0000;

/// A member's public key material, held in a leaf slot.
#[derive(Clone, Debug, PartialEq, Eq)]
pub struct LeafNode {
    pub public_key: Vec<u8>,
    pub signature_key: Vec<u8>,
}

/// The key material of an inner node, with the leaves beneath it that its
/// key does not cover yet.
#[derive(Clone, Debug, PartialEq, Eq)]
pub struct ParentNode {
    pub public_key: Vec<u8>,
    pub unmerged_leaves: Vec<u32>,
}

/// An array-backed ratchet tree. Node `x` of the flat layout is leaf slot
/// `x / 2` when `x` is even and parent slot `x / 2` when `x` is odd; the
/// subtree of the node in the middle of a node range `[lo, hi]` is that range.
#[derive(Clone, Debug, PartialEq, Eq)]
pub struct TreeKemPublic {
    pub leaves: Vec<Option<LeafNode>>,
    pub parents: Vec<Option<ParentNode>>,
}

/// `n` is a power of two.
pub open spec fn full(n: nat) -> bool
    decreases n,
{
    if n <= 1 {
        n == 1
    } else {
        n % 2 == 0 && full(n / 2)
    }
}

/// Of two powers of two, the smaller is at most half the larger.
pub proof fn lemma_full_double(n: nat, m: nat)
    requires
        full(n),
        full(m),
        n < m,
    ensures
        2 * n <= m,
    decreases m,
{
    if n > 1 {
        lemma_full_double(n / 2, m / 2);
    }
}

/// The largest capacity is a power of two.
pub proof fn lemma_max_leaves_full()
    ensures
        full(MAX_LEAVES as nat),
{
    reveal_with_fuel(full, 32);
}

/// Whether node `p` lies on the path from the middle of `[lo, hi]` down to
/// node `target`, `target` itself excluded.
pub open spec fn on_path(lo: int, hi: int, target: int, p: int) -> bool
    decreases hi - lo + 1,
{
    let m = (lo + hi) / 2;
    if lo >= hi || m == target {
        false
    } else if m == p {
        true
    } else if target < m {
        on_path(lo, m - 1, target, p)
    } else {
        on_path(m + 1, hi, target, p)
    }
}

/// The node range of the subtree of node `x`, found by descending from
/// `[lo, hi]`.
pub open spec fn subtree_range(lo: int, hi: int, x: int) -> (int, int)
    decreases hi - lo + 1,
{
    let m = (lo + hi) / 2;
    if lo >= hi || m == x {
        (lo, hi)
    } else if x < m {
        subtree_range(lo, m - 1, x)
    } else {
        subtree_range(m + 1, hi, x)
    }
}

/// A resolution as node indices and key bytes.
pub open spec fn entries_view(v: Seq<(u64, Vec<u8>)>) -> Seq<(u64, Seq<u8>)> {
    v.map_values(|e: (u64, Vec<u8>)| (e.0, e.1@))
}

/// The unmerged leaves `u`, each as its node index and public key, leaving
/// out those in `ex` and any that is not a member of `leaves`.
pub open spec fn unmerged_entries(u: Seq<u32>, ex: Seq<u32>, leaves: Seq<Option<LeafNode>>) -> Seq<(u64, Seq<u8>)>
    decreases u.len(),
{
    if u.len() == 0 {
        Seq::empty()
    } else {
        let l = u.last();
        unmerged_entries(u.drop_last(), ex, leaves) + if ex.contains(l) || l >= leaves.len()
            || leaves[l as int] is None {
            Seq::empty()
        } else {
            seq![((2 * l) as u64, leaves[l as int]->0.public_key@)]
        }
    }
}

/// `u` with every occurrence of `x` taken out.
pub open spec fn without(u: Seq<u32>, x: u32) -> Seq<u32>
    decreases u.len(),
{
    if u.len() == 0 {
        Seq::empty()
    } else {
        without(u.drop_last(), x) + if u.last() == x {
            Seq::empty()
        } else {
            seq![u.last()]
        }
    }
}

/// `[lo, hi]` is the node range of a perfect subtree: it starts at a leaf
/// and holds a power of two of leaves.
pub open spec fn balanced(lo: int, hi: int) -> bool {
    &&& lo >= 0
    &&& lo % 2 == 0
    &&& hi >= lo
    &&& (hi - lo) % 2 == 0
    &&& full(((hi - lo + 2) / 2) as nat)
}

/// The two halves of a perfect subtree are perfect subtrees, on either side
/// of its middle node, which is a parent.
pub proof fn lemma_balanced_halves(lo: int, hi: int)
    requires
        balanced(lo, hi),
        lo < hi,
    ensures
        ((lo + hi) / 2) % 2 == 1,
        balanced(lo, (lo + hi) / 2 - 1),
        balanced((lo + hi) / 2 + 1, hi),
{
    let c = (hi - lo + 2) / 2;
    assert(c >= 2);
    assert(full(c as nat));
    assert(c % 2 == 0 && full((c / 2) as nat));
    let m = (lo + hi) / 2;
    assert(m == lo + c - 1);
    assert(((m - 1 - lo + 2) / 2) == c / 2);
    assert(((hi - (m + 1) + 2) / 2) == c / 2);
}

/// Whether `x` is one of the entries of `v`.
fn contains_u32(v: &[u32], x: u32) -> (r: bool)
    ensures
        r == v@.contains(x),
{
    let mut i: usize = 0;
    while i < v.len()
        invariant
            i <= v@.len(),
            forall|k: int| 0 <= k < i ==> v@[k] != x,
        decreases v@.len() - i,
    {
        if v[i] == x {
            return true;
        }
        i = i + 1;
    }
    false
}

/// Appends the unmerged leaves `u` that `exclude` does not list and that
/// are members of `leaves`, each with its public key.
fn push_unmerged(
    u: &Vec<u32>,
    exclude: &[u32],
    leaves: &Vec<Option<LeafNode>>,
    out: &mut Vec<(u64, Vec<u8>)>,
)
    ensures
        entries_view(final(out)@) == entries_view(old(out)@) + unmerged_entries(u@, exclude@, leaves@),
{
    let mut k: usize = 0;
    proof {
        assert(u@.subrange(0, 0) =~= Seq::<u32>::empty());
        assert(entries_view(out@) =~= entries_view(old(out)@) + unmerged_entries(u@.subrange(0, 0), exclude@, leaves@));
    }
    while k < u.len()
        invariant
            k <= u@.len(),
            entries_view(out@) == entries_view(old(out)@) + unmerged_entries(u@.subrange(0, k as int), exclude@, leaves@),
        decreases u@.len() - k,
    {
        let l = u[k];
        let ghost before = out@;
        let ghost next = u@.subrange(0, k + 1);
        proof {
            assert(next.drop_last() =~= u@.subrange(0, k as int));
            assert(next.last() == l);
        }
        if !contains_u32(exclude, l) && (l as usize) < leaves.len() {
            match &leaves[l as usize] {
                Some(node) => {
                    let key = node.public_key.clone();
                    assert(key@ =~= node.public_key@);
                    out.push((2 * (l as u64), key));
                    assert(entries_view(out@) =~= entries_view(before) + seq![((2 * l) as u64, node.public_key@)]);
                },
                None => {},
            }
        }
        proof {
            assert(entries_view(out@) =~= entries_view(old(out)@) + unmerged_entries(next, exclude@, leaves@));
        }
        k = k + 1;
    }
    proof {
        assert(u@.subrange(0, u@.len() as int) =~= u@);
    }
}

/// A parent slot after a leaf `r` joined: a blank slot stays blank; a
/// non-blank one keeps its key and, where `covered` (it is an ancestor of
/// `r`), lists `r` as unmerged.
pub open spec fn parent_after_add(
    before: Option<ParentNode>,
    after: Option<ParentNode>,
    covered: bool,
    r: u32,
) -> bool {
    match before {
        None => after is None,
        Some(p) => {
            &&& after is Some
            &&& after->0.public_key == p.public_key
            &&& after->0.unmerged_leaves@ == if covered {
                p.unmerged_leaves@.push(r)
            } else {
                p.unmerged_leaves@
            }
        },
    }
}

/// A node on a path below the middle of `[lo, hi]` lies in `[lo, hi]`.
pub proof fn lemma_on_path_range(lo: int, hi: int, target: int, p: int)
    requires
        on_path(lo, hi, target, p),
    ensures
        lo <= p <= hi,
    decreases hi - lo + 1,
{
    let m = (lo + hi) / 2;
    if m != p {
        if target < m {
            lemma_on_path_range(lo, m - 1, target, p);
        } else {
            lemma_on_path_range(m + 1, hi, target, p);
        }
    }
}

/// No leaf slot of the node range `[lo, hi]` is occupied.
pub open spec fn no_members(leaves: Seq<Option<LeafNode>>, range: (int, int)) -> bool {
    forall|k: int| range.0 <= 2 * k <= range.1 ==> #[trigger] leaves[k] is None
}

/// A parent slot after leaf `i` left: off the leaf's direct path nothing
/// changes; on it, a parent whose subtree now holds no member becomes
/// blank, and any other non-blank one keeps its key and drops `i` from its
/// unmerged leaves.
pub open spec fn parent_after_remove(
    before: Option<ParentNode>,
    after: Option<ParentNode>,
    on_direct_path: bool,
    emptied: bool,
    i: u32,
) -> bool {
    if !on_direct_path {
        after == before
    } else {
        match before {
            None => after is None,
            Some(p) => if emptied {
                after is None
            } else {
                &&& after is Some
                &&& after->0.public_key == p.public_key
                &&& after->0.unmerged_leaves@ == without(p.unmerged_leaves@, i)
            },
        }
    }
}

/// The leaf count left after trimming: while the whole right half-tree is
/// blank (its leaf slots `n/2 .. n` and its parent slots `n/2 .. n-1`), the
/// capacity is halved.
pub open spec fn trimmed_len(leaves: Seq<Option<LeafNode>>, parents: Seq<Option<ParentNode>>, n: nat) -> nat
    decreases n,
{
    if n > 1 && (forall|k: int| n / 2 <= k < n ==> #[trigger] leaves[k] is None) && (forall|j: int|
        n / 2 <= j < n - 1 ==> #[trigger] parents[j] is None) {
        trimmed_len(leaves, parents, n / 2)
    } else {
        n
    }
}

/// Whether every parent slot of `v` in `[a, b)` is blank.
fn parents_blank(v: &Vec<Option<ParentNode>>, a: usize, b: usize) -> (r: bool)
    requires
        a <= b <= v@.len(),
    ensures
        r == forall|k: int| a <= k < b ==> #[trigger] v@[k] is None,
{
    let mut k: usize = a;
    while k < b
        invariant
            a <= k <= b <= v@.len(),
            forall|q: int| a <= q < k ==> #[trigger] v@[q] is None,
        decreases b - k,
    {
        if v[k].is_some() {
            return false;
        }
        k = k + 1;
    }
    true
}

/// Whether every slot of `v` in `[a, b)` is blank.
fn range_blank(v: &Vec<Option<LeafNode>>, a: usize, b: usize) -> (r: bool)
    requires
        a <= b <= v@.len(),
    ensures
        r == forall|k: int| a <= k < b ==> #[trigger] v@[k] is None,
{
    let mut k: usize = a;
    while k < b
        invariant
            a <= k <= b <= v@.len(),
            forall|q: int| a <= q < k ==> #[trigger] v@[q] is None,
        decreases b - k,
    {
        if v[k].is_some() {
            return false;
        }
        k = k + 1;
    }
    true
}

/// `u` without any occurrence of `x`.
fn remove_all(u: &Vec<u32>, x: u32) -> (r: Vec<u32>)
    ensures
        r@ == without(u@, x),
{
    let mut out: Vec<u32> = Vec::new();
    let mut k: usize = 0;
    proof {
        assert(u@.subrange(0, 0) =~= Seq::<u32>::empty());
    }
    while k < u.len()
        invariant
            k <= u@.len(),
            out@ == without(u@.subrange(0, k as int), x),
        decreases u@.len() - k,
    {
        let l = u[k];
        if l != x {
            out.push(l);
        }
        proof {
            let next = u@.subrange(0, k + 1);
            assert(next.drop_last() =~= u@.subrange(0, k as int));
            assert(next.last() == l);
            assert(out@ =~= without(next, x));
        }
        k = k + 1;
    }
    proof {
        assert(u@.subrange(0, u@.len() as int) =~= u@);
    }
    out
}

/// The parents from the middle of `[lo, hi]` down to node `target`, top
/// first, `target` excluded.
pub open spec fn path_nodes(lo: int, hi: int, target: int) -> Seq<int>
    decreases hi - lo + 1,
{
    let m = (lo + hi) / 2;
    if lo >= hi || m == target {
        Seq::empty()
    } else if target < m {
        seq![m] + path_nodes(lo, m - 1, target)
    } else {
        seq![m] + path_nodes(m + 1, hi, target)
    }
}

/// A path below the middle of `[lo, hi]` has at most as many nodes as the
/// range.
pub proof fn lemma_path_nodes_len(lo: int, hi: int, target: int)
    requires
        lo <= hi + 1,
    ensures
        path_nodes(lo, hi, target).len() <= hi - lo + 1,
    decreases hi - lo + 1,
{
    let m = (lo + hi) / 2;
    if lo < hi && m != target {
        if target < m {
            lemma_path_nodes_len(lo, m - 1, target);
        } else {
            lemma_path_nodes_len(m + 1, hi, target);
        }
    }
}

/// The nodes of a path below the middle of `[lo, hi]` lie in `[lo, hi]`.
pub proof fn lemma_path_nodes_range(lo: int, hi: int, target: int)
    ensures
        forall|q: int| 0 <= q < path_nodes(lo, hi, target).len() ==> lo <= #[trigger] path_nodes(lo, hi, target)[q] <= hi,
    decreases hi - lo + 1,
{
    let m = (lo + hi) / 2;
    if lo < hi && m != target {
        if target < m {
            lemma_path_nodes_range(lo, m - 1, target);
            assert(path_nodes(lo, hi, target) == seq![m] + path_nodes(lo, m - 1, target));
        } else {
            lemma_path_nodes_range(m + 1, hi, target);
            assert(path_nodes(lo, hi, target) == seq![m] + path_nodes(m + 1, hi, target));
        }
    }
}

impl TreeKemPublic {
    /// Number of leaf slots.
    pub open spec fn n(&self) -> nat {
        self.leaves@.len()
    }

    /// Index of the last node of the flat layout.
    pub open spec fn last_node(&self) -> int {
        2 * self.n() - 2
    }

    pub open spec fn wf(&self) -> bool {
        &&& 1 <= self.n() <= MAX_LEAVES
        &&& full(self.n())
        &&& self.parents@.len() + 1 == self.n()
    }

    /// The resolution of the subtree `[lo, hi]`: its non-blank nodes seen
    /// from above, left to right, each with its public key, leaving out the
    /// leaves listed in `ex`. A non-blank node stands for itself and its
    /// unmerged leaves; a blank parent for the resolutions of its two
    /// children.
    pub open spec fn resolution_in(&self, lo: int, hi: int, ex: Seq<u32>) -> Seq<(u64, Seq<u8>)>
        decreases hi - lo + 1,
    {
        let m = (lo + hi) / 2;
        if lo >= hi {
            if self.leaves@[m / 2] is Some && !ex.contains((m / 2) as u32) {
                seq![(m as u64, self.leaves@[m / 2]->0.public_key@)]
            } else {
                Seq::empty()
            }
        } else if self.parents@[m / 2] is Some {
            seq![(m as u64, self.parents@[m / 2]->0.public_key@)] + unmerged_entries(
                self.parents@[m / 2]->0.unmerged_leaves@,
                ex,
                self.leaves@,
            )
        } else {
            self.resolution_in(lo, m - 1, ex) + self.resolution_in(m + 1, hi, ex)
        }
    }

    /// `mid` is what the parent slots become when the direct path of leaf `i`
    /// is cleared after its removal, before any trimming.
    pub open spec fn cleared_parents(&self, i: u32, mid: Seq<Option<ParentNode>>) -> bool {
        &&& mid.len() == self.parents@.len()
        &&& forall|j: int|
            0 <= j < mid.len() ==> parent_after_remove(
                self.parents@[j],
                #[trigger] mid[j],
                on_path(0, self.last_node(), 2 * i, 2 * j + 1),
                no_members(self.cleared(i as int), subtree_range(0, self.last_node(), 2 * j + 1)),
                i,
            )
    }

    /// The leaf slots with slot `i` made blank.
    pub open spec fn cleared(&self, i: int) -> Seq<Option<LeafNode>> {
        self.leaves@.update(i, None)
    }

    /// The resolution of node `x` of the tree, without the leaves in `ex`.
    pub open spec fn resolution_of(&self, x: int, ex: Seq<u32>) -> Seq<(u64, Seq<u8>)> {
        let r = subtree_range(0, self.last_node(), x);
        self.resolution_in(r.0, r.1, ex)
    }

    /// A tree whose only member is `leaf`.
    pub fn new(leaf: LeafNode) -> (r: Self)
        ensures
            r.wf(),
            r.n() == 1,
            r.leaves@ == seq![Some(leaf)],
    {
        let mut leaves: Vec<Option<LeafNode>> = Vec::new();
        leaves.push(Some(leaf));
        let r = TreeKemPublic { leaves, parents: Vec::new() };
        assert(r.leaves@ =~= seq![Some(leaf)]);
        r
    }

    /// Number of leaf slots, blank or not.
    pub fn leaf_count(&self) -> (r: u32)
        requires
            self.wf(),
        ensures
            r == self.n(),
    {
        self.leaves.len() as u32
    }

    /// Number of node slots: `2n - 1` for `n` leaf slots.
    pub fn total_slots(&self) -> (r: u32)
        requires
            self.wf(),
        ensures
            r == 2 * self.n() - 1,
    {
        2 * (self.leaves.len() as u32) - 1
    }

    /// Appends the resolution of the subtree `[lo, hi]`.
    fn resolve_into(&self, lo: u64, hi: u64, exclude: &[u32], out: &mut Vec<(u64, Vec<u8>)>)
        requires
            self.wf(),
            balanced(lo as int, hi as int),
            hi <= self.last_node(),
        ensures
            entries_view(final(out)@) == entries_view(old(out)@) + self.resolution_in(lo as int, hi as int, exclude@),
        decreases hi - lo,
    {
        let m = lo + (hi - lo) / 2;
        assert(m == (lo + hi) / 2);
        if lo >= hi {
            let i = (m / 2) as usize;
            if !contains_u32(exclude, i as u32) {
                match &self.leaves[i] {
                    Some(node) => {
                        let key = node.public_key.clone();
                        assert(key@ =~= node.public_key@);
                        out.push((m, key));
                    },
                    None => {},
                }
            }
            proof {
                assert(entries_view(out@) =~= entries_view(old(out)@) + self.resolution_in(lo as int, hi as int, exclude@));
            }
        } else {
            match &self.parents[(m / 2) as usize] {
                Some(p) => {
                    let key = p.public_key.clone();
                    assert(key@ =~= p.public_key@);
                    out.push((m, key));
                    let ghost mid = out@;
                    assert(entries_view(mid) =~= entries_view(old(out)@) + seq![(m, p.public_key@)]);
                    push_unmerged(&p.unmerged_leaves, exclude, &self.leaves, out);
                    assert(entries_view(out@) =~= entries_view(old(out)@) + self.resolution_in(lo as int, hi as int, exclude@));
                },
                None => {
                    proof {
                        lemma_balanced_halves(lo as int, hi as int);
                    }
                    self.resolve_into(lo, m - 1, exclude, out);
                    self.resolve_into(m + 1, hi, exclude, out);
                    assert(entries_view(out@) =~= entries_view(old(out)@) + self.resolution_in(lo as int, hi as int, exclude@));
                },
            }
        }
    }

    /// The resolution of node `index`: the non-blank nodes that stand for its
    /// subtree, left to right, each given by its node index and public key,
    /// without the leaves listed in `exclude`.
    pub fn resolution(&self, index: u64, exclude: &[u32]) -> (r: Result<Vec<(u64, Vec<u8>)>, MlsError>)
        requires
            self.wf(),
        ensures
            index > self.last_node() ==> r == Err::<Vec<(u64, Vec<u8>)>, MlsError>(MlsError::InvalidNodeIndex),
            index <= self.last_node() ==> (r matches Ok(v) && entries_view(v@) == self.resolution_of(
                index as int,
                exclude@,
            )),
    {
        let last = 2 * (self.leaves.len() as u64) - 2;
        if index > last {
            return Err(MlsError::InvalidNodeIndex);
        }
        let mut lo: u64 = 0;
        let mut hi: u64 = last;
        let mut m: u64 = hi / 2;
        while lo < hi && m != index
            invariant
                self.wf(),
                last == self.last_node(),
                balanced(lo as int, hi as int),
                hi <= last,
                m == (lo + hi) / 2,
                subtree_range(lo as int, hi as int, index as int) == subtree_range(0, last as int, index as int),
            decreases hi - lo,
        {
            proof {
                lemma_balanced_halves(lo as int, hi as int);
            }
            if index < m {
                hi = m - 1;
            } else {
                lo = m + 1;
            }
            m = lo + (hi - lo) / 2;
        }
        let mut out: Vec<(u64, Vec<u8>)> = Vec::new();
        proof {
            assert(entries_view(out@) =~= Seq::<(u64, Seq<u8>)>::empty());
        }
        self.resolve_into(lo, hi, exclude, &mut out);
        assert(entries_view(out@) =~= self.resolution_of(index as int, exclude@));
        Ok(out)
    }

    /// Lists leaf `r` as unmerged at every non-blank parent on its direct
    /// path.
    fn mark_unmerged(&mut self, r: u32)
        requires
            old(self).wf(),
            r < old(self).n(),
        ensures
            final(self).leaves == old(self).leaves,
            final(self).parents@.len() == old(self).parents@.len(),
            forall|j: int|
                0 <= j < old(self).parents@.len() ==> parent_after_add(
                    old(self).parents@[j],
                    #[trigger] final(self).parents@[j],
                    on_path(0, old(self).last_node(), 2 * r, 2 * j + 1),
                    r,
                ),
    {
        let ghost orig = self.parents@;
        let ghost top = self.last_node();
        let t: u64 = 2 * (r as u64);
        let mut lo: u64 = 0;
        let mut hi: u64 = 2 * (self.leaves.len() as u64) - 2;
        let mut m: u64 = hi / 2;
        while lo < hi && m != t
            invariant
                self.leaves == old(self).leaves,
                self.parents@.len() == orig.len(),
                orig.len() + 1 == self.n(),
                1 <= self.n() <= MAX_LEAVES,
                top == 2 * self.n() - 2,
                t == 2 * r,
                full(self.n()),
                balanced(lo as int, hi as int),
                hi <= top,
                m == (lo + hi) / 2,
                forall|p: int| #[trigger] on_path(lo as int, hi as int, t as int, p) ==> on_path(0, top, t as int, p),
                forall|j: int|
                    0 <= j < orig.len() ==> parent_after_add(
                        orig[j],
                        #[trigger] self.parents@[j],
                        on_path(0, top, t as int, 2 * j + 1) && !on_path(lo as int, hi as int, t as int, 2 * j + 1),
                        r,
                    ),
            decreases hi - lo,
        {
            proof {
                lemma_balanced_halves(lo as int, hi as int);
            }
            let j = (m / 2) as usize;
            assert(on_path(lo as int, hi as int, t as int, m as int));
            let mut slot: Option<ParentNode> = None;
            self.parents.set_and_swap(j, &mut slot);
            if let Some(mut node) = slot {
                node.unmerged_leaves.push(r);
                self.parents.set(j, Some(node));
            } else {
                self.parents.set(j, None);
            }
            let ghost (plo, phi) = (lo as int, hi as int);
            if t < m {
                hi = m - 1;
            } else {
                lo = m + 1;
            }
            m = lo + (hi - lo) / 2;
            proof {
                assert forall|p: int| #[trigger] on_path(lo as int, hi as int, t as int, p) implies on_path(0, top, t as int, p) by {
                    assert(on_path(plo, phi, t as int, p));
                }
                if on_path(lo as int, hi as int, t as int, (phi + plo) / 2) {
                    lemma_on_path_range(lo as int, hi as int, t as int, (phi + plo) / 2);
                }
                assert forall|q: int| 0 <= q < orig.len() implies parent_after_add(
                    orig[q],
                    #[trigger] self.parents@[q],
                    on_path(0, top, t as int, 2 * q + 1) && !on_path(lo as int, hi as int, t as int, 2 * q + 1),
                    r,
                ) by {
                    if 2 * q + 1 != (plo + phi) / 2 {
                        assert(on_path(plo, phi, t as int, 2 * q + 1) == on_path(lo as int, hi as int, t as int, 2 * q + 1));
                    }
                }
            }
        }
    }

    /// Puts `leaf` in the first blank leaf slot, doubling the capacity when
    /// there is none, and lists it as unmerged at every non-blank parent on
    /// its direct path. Returns the leaf index.
    pub fn add_leaf(&mut self, leaf: LeafNode) -> (r: u32)
        requires
            old(self).wf(),
            old(self).n() < MAX_LEAVES || exists|k: int| 0 <= k < old(self).n() && #[trigger] old(self).leaves@[k] is None,
        ensures
            final(self).wf(),
            r <= old(self).n(),
            forall|k: int| 0 <= k < r ==> old(self).leaves@[k] is Some,
            r < old(self).n() ==> old(self).leaves@[r as int] is None && final(self).n() == old(self).n(),
            r == old(self).n() ==> final(self).n() == 2 * old(self).n(),
            final(self).leaves@[r as int] == Some(leaf),
            forall|k: int|
                0 <= k < final(self).n() && k != r ==> #[trigger] final(self).leaves@[k] == if k < old(self).n() {
                    old(self).leaves@[k]
                } else {
                    None
                },
            forall|j: int|
                0 <= j < final(self).parents@.len() ==> parent_after_add(
                    if j < old(self).parents@.len() {
                        old(self).parents@[j]
                    } else {
                        None
                    },
                    #[trigger] final(self).parents@[j],
                    on_path(0, final(self).last_node(), 2 * r, 2 * j + 1),
                    r,
                ),
    {
        let n = self.leaves.len();
        let mut i: usize = 0;
        while i < n && self.leaves[i].is_some()
            invariant
                self == old(self),
                n == self.n(),
                i <= n,
                forall|k: int| 0 <= k < i ==> self.leaves@[k] is Some,
            decreases n - i,
        {
            i = i + 1;
        }
        if i == n {
            proof {
                lemma_max_leaves_full();
                lemma_full_double(n as nat, MAX_LEAVES as nat);
            }
            let mut k: usize = 0;
            while k < n
                invariant
                    n == old(self).n(),
                    old(self).wf(),
                    k <= n,
                    self.leaves@.len() == n + k,
                    self.parents@.len() == n - 1 + k,
                    forall|q: int| 0 <= q < n ==> self.leaves@[q] == old(self).leaves@[q],
                    forall|q: int| n <= q < n + k ==> self.leaves@[q] is None,
                    forall|q: int| 0 <= q < n - 1 ==> self.parents@[q] == old(self).parents@[q],
                    forall|q: int| n - 1 <= q < n - 1 + k ==> self.parents@[q] is None,
                decreases n - k,
            {
                self.leaves.push(None);
                self.parents.push(None);
                k = k + 1;
            }
            assert(full(2 * n as nat)) by {
                assert((2 * n as nat) / 2 == n);
            }
        }
        let ghost grown = *self;
        self.leaves.set(i, Some(leaf));
        self.mark_unmerged(i as u32);
        proof {
            assert forall|j: int| 0 <= j < self.parents@.len() implies grown.parents@[j] == if j < old(self).parents@.len() {
                old(self).parents@[j]
            } else {
                None
            } by {}
        }
        i as u32
    }

    /// Walks the direct path of the blank leaf `i`: a parent whose subtree
    /// holds no member any more becomes blank, the others forget `i` as
    /// unmerged.
    fn clear_path(&mut self, i: u32)
        requires
            old(self).wf(),
            i < old(self).n(),
        ensures
            final(self).leaves == old(self).leaves,
            final(self).parents@.len() == old(self).parents@.len(),
            forall|j: int|
                0 <= j < old(self).parents@.len() ==> parent_after_remove(
                    old(self).parents@[j],
                    #[trigger] final(self).parents@[j],
                    on_path(0, old(self).last_node(), 2 * i, 2 * j + 1),
                    no_members(old(self).leaves@, subtree_range(0, old(self).last_node(), 2 * j + 1)),
                    i,
                ),
    {
        let ghost orig = self.parents@;
        let ghost top = self.last_node();
        let t: u64 = 2 * (i as u64);
        let mut lo: u64 = 0;
        let mut hi: u64 = 2 * (self.leaves.len() as u64) - 2;
        let mut m: u64 = hi / 2;
        while lo < hi && m != t
            invariant
                self.leaves == old(self).leaves,
                self.parents@.len() == orig.len(),
                orig.len() + 1 == self.n(),
                1 <= self.n() <= MAX_LEAVES,
                top == 2 * self.n() - 2,
                t == 2 * i,
                full(self.n()),
                balanced(lo as int, hi as int),
                hi <= top,
                m == (lo + hi) / 2,
                forall|p: int| #[trigger] on_path(lo as int, hi as int, t as int, p) ==> on_path(0, top, t as int, p),
                forall|x: int| lo <= x <= hi ==> #[trigger] subtree_range(lo as int, hi as int, x) == subtree_range(0, top, x),
                forall|j: int|
                    0 <= j < orig.len() ==> parent_after_remove(
                        orig[j],
                        #[trigger] self.parents@[j],
                        on_path(0, top, t as int, 2 * j + 1) && !on_path(lo as int, hi as int, t as int, 2 * j + 1),
                        no_members(self.leaves@, subtree_range(0, top, 2 * j + 1)),
                        i,
                    ),
            decreases hi - lo,
        {
            proof {
                lemma_balanced_halves(lo as int, hi as int);
                assert(subtree_range(lo as int, hi as int, m as int) == (lo as int, hi as int));
            }
            let j = (m / 2) as usize;
            let emptied = range_blank(&self.leaves, (lo / 2) as usize, (hi / 2 + 1) as usize);
            proof {
                if emptied {
                    assert forall|k: int| lo <= 2 * k <= hi implies #[trigger] self.leaves@[k] is None by {
                        assert(lo / 2 <= k < hi / 2 + 1);
                    }
                } else {
                    let k = choose|k: int| lo / 2 <= k < hi / 2 + 1 && !(#[trigger] self.leaves@[k] is None);
                    assert(lo <= 2 * k <= hi);
                }
                assert(emptied == no_members(self.leaves@, (lo as int, hi as int)));
                assert(subtree_range(0, top, m as int) == (lo as int, hi as int));
                assert(emptied == no_members(self.leaves@, subtree_range(0, top, m as int)));
            }
            let ghost prev = self.parents@;
            assert(on_path(lo as int, hi as int, t as int, m as int));
            assert(parent_after_remove(orig[j as int], prev[j as int], false, emptied, i));
            let mut slot: Option<ParentNode> = None;
            self.parents.set_and_swap(j, &mut slot);
            match slot {
                None => {
                    self.parents.set(j, None);
                },
                Some(node) => {
                    if emptied {
                        self.parents.set(j, None);
                    } else {
                        let unmerged_leaves = remove_all(&node.unmerged_leaves, i);
                        self.parents.set(j, Some(ParentNode { public_key: node.public_key, unmerged_leaves }));
                    }
                },
            }
            let ghost (plo, phi) = (lo as int, hi as int);
            if t < m {
                hi = m - 1;
            } else {
                lo = m + 1;
            }
            m = lo + (hi - lo) / 2;
            proof {
                assert forall|p: int| #[trigger] on_path(lo as int, hi as int, t as int, p) implies on_path(0, top, t as int, p) by {
                    assert(on_path(plo, phi, t as int, p));
                }
                assert forall|x: int| lo <= x <= hi implies #[trigger] subtree_range(lo as int, hi as int, x) == subtree_range(0, top, x) by {
                    assert(subtree_range(plo, phi, x) == subtree_range(lo as int, hi as int, x));
                }
                if on_path(lo as int, hi as int, t as int, (phi + plo) / 2) {
                    lemma_on_path_range(lo as int, hi as int, t as int, (phi + plo) / 2);
                }
                assert forall|q: int| 0 <= q < orig.len() implies parent_after_remove(
                    orig[q],
                    #[trigger] self.parents@[q],
                    on_path(0, top, t as int, 2 * q + 1) && !on_path(lo as int, hi as int, t as int, 2 * q + 1),
                    no_members(self.leaves@, subtree_range(0, top, 2 * q + 1)),
                    i,
                ) by {
                    if 2 * q + 1 == (plo + phi) / 2 {
                        assert(q == j);
                        assert(orig[q] == prev[q]);
                        lemma_on_path_range(0, top, t as int, 2 * q + 1);
                    } else {
                        assert(on_path(plo, phi, t as int, 2 * q + 1) == on_path(lo as int, hi as int, t as int, 2 * q + 1));
                    }
                }
            }
        }
    }

    /// Removes the member at leaf `index`: the slot becomes blank, the
    /// parents on its direct path are cleared (see `parent_after_remove`),
    /// and the capacity is halved while the right half of the leaves is
    /// blank.
    pub fn remove_leaf(&mut self, index: u32) -> (r: Result<(), MlsError>)
        requires
            old(self).wf(),
        ensures
            final(self).wf(),
            index >= old(self).n() || old(self).leaves@[index as int] is None ==> {
                &&& r == Err::<(), MlsError>(MlsError::InvalidLeafIndex)
                &&& *final(self) == *old(self)
            },
            index < old(self).n() && old(self).leaves@[index as int] is Some ==> {
                &&& r == Ok::<(), MlsError>(())
                &&& exists|mid: Seq<Option<ParentNode>>| #[trigger] old(self).cleared_parents(index, mid) && {
                    &&& final(self).n() == trimmed_len(old(self).cleared(index as int), mid, old(self).n())
                    &&& final(self).parents@ == mid.subrange(0, final(self).n() - 1)
                }
                &&& final(self).leaves@ == old(self).cleared(index as int).subrange(0, final(self).n() as int)
                &&& forall|j: int|
                    0 <= j < final(self).parents@.len() ==> parent_after_remove(
                        old(self).parents@[j],
                        #[trigger] final(self).parents@[j],
                        on_path(0, old(self).last_node(), 2 * index, 2 * j + 1),
                        no_members(old(self).cleared(index as int), subtree_range(0, old(self).last_node(), 2 * j + 1)),
                        index,
                    )
            },
    {
        if index as usize >= self.leaves.len() || self.leaves[index as usize].is_none() {
            return Err(MlsError::InvalidLeafIndex);
        }
        self.leaves.set(index as usize, None);
        self.clear_path(index);
        let ghost walked = *self;
        let n = self.leaves.len();
        let mut len: usize = n;
        while len > 1 && range_blank(&self.leaves, len / 2, len) && parents_blank(&self.parents, len / 2, len - 1)
            invariant
                *self == walked,
                self.wf(),
                n == self.n(),
                1 <= len <= n,
                full(len as nat),
                trimmed_len(self.leaves@, self.parents@, len as nat) == trimmed_len(
                    self.leaves@,
                    self.parents@,
                    n as nat,
                ),
            decreases len,
        {
            len = len / 2;
        }
        self.leaves.truncate(len);
        self.parents.truncate(len - 1);
        proof {
            assert(old(self).cleared_parents(index, walked.parents@));
            assert(self.parents@ =~= walked.parents@.subrange(0, self.n() - 1));
        }
        Ok(())
    }

    /// Number of parents on the direct path of node `t`.
    fn direct_path_len(&self, t: u64) -> (r: usize)
        requires
            self.wf(),
        ensures
            r == path_nodes(0, self.last_node(), t as int).len(),
    {
        let ghost top = self.last_node();
        let mut lo: u64 = 0;
        let mut hi: u64 = 2 * (self.leaves.len() as u64) - 2;
        let mut m: u64 = hi / 2;
        let mut k: usize = 0;
        while lo < hi && m != t
            invariant
                self.wf(),
                top == self.last_node(),
                balanced(lo as int, hi as int),
                hi <= top,
                m == (lo + hi) / 2,
                k + path_nodes(lo as int, hi as int, t as int).len() == path_nodes(0, top, t as int).len(),
            decreases hi - lo,
        {
            proof {
                lemma_balanced_halves(lo as int, hi as int);
                lemma_path_nodes_len(0, top, t as int);
                assert(path_nodes(lo as int, hi as int, t as int).len() >= 1);
            }
            if t < m {
                hi = m - 1;
            } else {
                lo = m + 1;
            }
            m = lo + (hi - lo) / 2;
            k = k + 1;
        }
        k
    }

    /// Installs the committer's new path: the parents on the direct path of
    /// leaf `leaf` get the keys of `keys`, listed from the leaf's parent up
    /// to the root, and no unmerged leaves. Other parents keep their state.
    pub fn apply_path(&mut self, leaf: u32, keys: Vec<Vec<u8>>) -> (r: Result<(), MlsError>)
        requires
            old(self).wf(),
        ensures
            final(self).wf(),
            final(self).leaves == old(self).leaves,
            leaf >= old(self).n() || old(self).leaves@[leaf as int] is None ==> {
                &&& r == Err::<(), MlsError>(MlsError::InvalidLeafIndex)
                &&& *final(self) == *old(self)
            },
            ({
                let path = path_nodes(0, old(self).last_node(), 2 * leaf);
                leaf < old(self).n() && old(self).leaves@[leaf as int] is Some ==> if keys@.len() != path.len() {
                    &&& r == Err::<(), MlsError>(MlsError::InvalidTreeStructure)
                    &&& *final(self) == *old(self)
                } else {
                    &&& r == Ok::<(), MlsError>(())
                    &&& final(self).parents@.len() == old(self).parents@.len()
                    &&& forall|q: int|
                        0 <= q < path.len() ==> {
                            let p = #[trigger] final(self).parents@[path[q] / 2];
                            &&& p is Some
                            &&& p->0.public_key == keys@[path.len() - 1 - q]
                            &&& p->0.unmerged_leaves@.len() == 0
                        }
                    &&& forall|j: int|
                        0 <= j < old(self).parents@.len() && !path.contains(2 * j + 1) ==> #[trigger] final(self).parents@[j]
                            == old(self).parents@[j]
                }
            }),
    {
        if leaf as usize >= self.leaves.len() || self.leaves[leaf as usize].is_none() {
            return Err(MlsError::InvalidLeafIndex);
        }
        let t: u64 = 2 * (leaf as u64);
        let len = self.direct_path_len(t);
        if keys.len() != len {
            return Err(MlsError::InvalidTreeStructure);
        }
        let ghost top = self.last_node();
        let ghost path = path_nodes(0, top, t as int);
        let ghost orig = self.parents@;
        let ghost orig_keys = keys@;
        let mut keys = keys;
        let mut lo: u64 = 0;
        let mut hi: u64 = 2 * (self.leaves.len() as u64) - 2;
        let mut m: u64 = hi / 2;
        let mut k: usize = 0;
        proof {
            lemma_path_nodes_range(0, top, t as int);
            assert(path.subrange(0, 0) + path_nodes(0, top, t as int) =~= path);
        }
        while lo < hi && m != t
            invariant
                self.leaves == old(self).leaves,
                self.parents@.len() == orig.len(),
                orig.len() + 1 == self.n(),
                1 <= self.n() <= MAX_LEAVES,
                full(self.n()),
                top == 2 * self.n() - 2,
                path == path_nodes(0, top, t as int),
                path.len() == orig_keys.len(),
                path.len() == len,
                balanced(lo as int, hi as int),
                hi <= top,
                m == (lo + hi) / 2,
                k <= path.len(),
                path.subrange(0, k as int) + path_nodes(lo as int, hi as int, t as int) == path,
                keys@ == orig_keys.subrange(0, path.len() - k),
                forall|q: int| 0 <= q < path.len() ==> 0 <= #[trigger] path[q] <= top,
                forall|q: int| 0 <= q < k ==> (#[trigger] path[q] < lo || path[q] > hi),
                forall|q: int| 0 <= q < k ==> (#[trigger] path[q]) % 2 == 1,
                forall|q: int|
                    0 <= q < k ==> {
                        let p = #[trigger] self.parents@[path[q] / 2];
                        &&& p is Some
                        &&& p->0.public_key == orig_keys[path.len() - 1 - q]
                        &&& p->0.unmerged_leaves@.len() == 0
                    },
                forall|j: int|
                    0 <= j < orig.len() && !path.subrange(0, k as int).contains(2 * j + 1) ==> #[trigger] self.parents@[j]
                        == orig[j],
            decreases hi - lo,
        {
            proof {
                lemma_balanced_halves(lo as int, hi as int);
                lemma_path_nodes_range(lo as int, hi as int, t as int);
                assert(path_nodes(lo as int, hi as int, t as int)[0] == m);
                assert(path[k as int] == m);
            }
            let j = (m / 2) as usize;
            let key = keys.pop().unwrap();
            let ghost before = self.parents@;
            self.parents.set(j, Some(ParentNode { public_key: key, unmerged_leaves: Vec::new() }));
            let ghost (plo, phi) = (lo as int, hi as int);
            if t < m {
                hi = m - 1;
            } else {
                lo = m + 1;
            }
            m = lo + (hi - lo) / 2;
            k = k + 1;
            proof {
                let rest = path_nodes(plo, phi, t as int);
                assert(rest == seq![(plo + phi) / 2] + path_nodes(lo as int, hi as int, t as int));
                assert(path.subrange(0, k as int) =~= path.subrange(0, k - 1) + seq![(plo + phi) / 2]);
                assert(path.subrange(0, k as int) + path_nodes(lo as int, hi as int, t as int) =~= path);
                assert(keys@ =~= orig_keys.subrange(0, path.len() - k));
                assert forall|q: int| 0 <= q < k implies (#[trigger] path[q] < lo || path[q] > hi) by {
                    if q < k - 1 {
                    } else {
                        assert(path[q] == (plo + phi) / 2);
                    }
                }
                assert forall|q: int|
                    0 <= q < k implies {
                        let p = #[trigger] self.parents@[path[q] / 2];
                        &&& p is Some
                        &&& p->0.public_key == orig_keys[path.len() - 1 - q]
                        &&& p->0.unmerged_leaves@.len() == 0
                    } by {
                    if q < k - 1 {
                        assert(path[q] != (plo + phi) / 2);
                        assert(path[q] / 2 != j);
                    }
                }
                assert forall|jj: int|
                    0 <= jj < orig.len() && !path.subrange(0, k as int).contains(2 * jj + 1) implies #[trigger] self.parents@[jj]
                        == orig[jj] by {
                    assert(path.subrange(0, k as int)[k - 1] == (plo + phi) / 2);
                    if jj != j {
                        assert(!path.subrange(0, k - 1).contains(2 * jj + 1)) by {
                            if path.subrange(0, k - 1).contains(2 * jj + 1) {
                                let w = choose|w: int| 0 <= w < k - 1 && #[trigger] path.subrange(0, k - 1)[w] == 2 * jj + 1;
                                assert(path.subrange(0, k as int)[w] == 2 * jj + 1);
                            }
                        }
                    }
                }
            }
        }
        proof {
            assert(path_nodes(lo as int, hi as int, t as int) =~= Seq::<int>::empty());
            assert(path.subrange(0, k as int) =~= path);
        }
        Ok(())
    }

    /// Replaces the key material of the member at leaf `index`.
    pub fn update_leaf(&mut self, index: u32, leaf: LeafNode) -> (r: Result<(), MlsError>)
        requires
            old(self).wf(),
        ensures
            final(self).wf(),
            final(self).parents == old(self).parents,
            index >= old(self).n() || old(self).leaves@[index as int] is None ==> {
                &&& r == Err::<(), MlsError>(MlsError::InvalidLeafIndex)
                &&& *final(self) == *old(self)
            },
            index < old(self).n() && old(self).leaves@[index as int] is Some ==> {
                &&& r == Ok::<(), MlsError>(())
                &&& final(self).leaves@ == old(self).leaves@.update(index as int, Some(leaf))
            },
    {
        if index as usize >= self.leaves.len() || self.leaves[index as usize].is_none() {
            return Err(MlsError::InvalidLeafIndex);
        }
        self.leaves.set(index as usize, Some(leaf));
        Ok(())
    }
}

/// The resolution of a node is determined by the tree alone: on an
/// unchanged tree, every request for the resolution of the same node with
/// no exclusions gives the same ordered sequence.
pub proof fn lemma_resolution_stable(t1: TreeKemPublic, t2: TreeKemPublic, x: int)
    requires
        t1.wf(),
        t1 == t2,
        0 <= x <= t1.last_node(),
    ensures
        t1.resolution_of(x, Seq::empty()) == t2.resolution_of(x, Seq::empty()),
{
}

} // verus!
