use vstd::prelude::*;
use vstd::std_specs::cmp::PartialEqSpec;

verus! {

/// One decision point of the search tree.
///
/// `stats` carries what the search keeps per node besides the visit count
/// (evaluation, uncertainty, prior); the tree logic never reads it. Each node
/// owns its children, kept in discovery order.
pub struct Node<A, S> {
    pub visit_count: u32,
    pub stats: S,
    pub children: Vec<(A, Node<A, S>)>,
}

/// Sum of the visit counts of `children[i..]`.
pub open spec fn visits_from<A, S>(children: Seq<(A, Node<A, S>)>, i: int) -> int
    decreases children.len() - i,
{
    if i < 0 || i >= children.len() {
        0
    } else {
        children[i].1.visit_count + visits_from(children, i + 1)
    }
}

/// Sum of `weights[..n]`.
pub open spec fn sum_u32(weights: Seq<u32>, n: int) -> int
    decreases n,
{
    if n <= 0 || n > weights.len() {
        0
    } else {
        sum_u32(weights, n - 1) + weights[n - 1]
    }
}

/// Largest visit count among `children[..n]`, zero when there is none.
pub open spec fn max_visits_upto<A, S>(children: Seq<(A, Node<A, S>)>, n: int) -> int
    decreases n,
{
    if n <= 0 || n > children.len() {
        0
    } else {
        let rest = max_visits_upto(children, n - 1);
        let v = children[n - 1].1.visit_count as int;
        if v > rest {
            v
        } else {
            rest
        }
    }
}

/// Number of nodes made of `node` itself and the subtrees of its children
/// from index `i` on.
pub open spec fn count_from<A, S>(node: Node<A, S>, i: int) -> nat
    decreases node, node.children@.len() - i,
{
    if i < 0 || i >= node.children@.len() {
        1
    } else {
        count_from(node.children@[i].1, 0) + count_from(node, i + 1)
    }
}

/// Index of the first of `children[i..]` whose action equals `action`, or the
/// length of `children` when there is none.
pub open spec fn first_match_from<A: PartialEq, S>(
    children: Seq<(A, Node<A, S>)>,
    action: &A,
    i: int,
) -> int
    decreases children.len() - i,
{
    if i < 0 || i >= children.len() {
        children.len() as int
    } else if children[i].0.eq_spec(action) {
        i
    } else {
        first_match_from(children, action, i + 1)
    }
}

/// Visit accounting holds at `node` and throughout the subtrees of its
/// children from index `i` on.
pub open spec fn wf_from<A, S>(node: Node<A, S>, i: int) -> bool
    decreases node, node.children@.len() - i,
{
    if i < 0 || i >= node.children@.len() {
        node.visits_consistent()
    } else {
        wf_from(node.children@[i].1, 0) && wf_from(node, i + 1)
    }
}

/// Every child subtree of a well-formed node is well-formed.
pub proof fn lemma_child_wf<A, S>(node: Node<A, S>, i: int, k: int)
    requires
        0 <= i <= k < node.children@.len(),
        wf_from(node, i),
    ensures
        node.children@[k].1.wf(),
    decreases k - i,
{
    if i < k {
        lemma_child_wf(node, i + 1, k);
    }
}

impl<A, S> Node<A, S> {
    /// Number of nodes in this subtree, this one included.
    pub open spec fn size(self) -> nat {
        count_from(self, 0)
    }

    /// Largest visit count among the children, zero for a leaf.
    pub open spec fn max_child_visits(self) -> int {
        max_visits_upto(self.children@, self.children@.len() as int)
    }

    /// A node that has neither been visited nor expanded.
    pub open spec fn is_fresh(self) -> bool {
        self.visit_count == 0 && self.children@.len() == 0
    }

    /// The visit accounting of this node alone: fresh, or visited once more
    /// than all its children together.
    pub open spec fn visits_consistent(self) -> bool {
        self.is_fresh() || self.visit_count == 1 + visits_from(self.children@, 0)
    }

    /// Visit accounting holds at every node of the subtree.
    pub open spec fn wf(self) -> bool {
        wf_from(self, 0)
    }

    /// Index of the first child reached by `action`, if any.
    pub open spec fn first_child_for(self, action: &A) -> Option<int> where A: PartialEq {
        let k = first_match_from(self.children@, action, 0);
        if k < self.children@.len() {
            Some(k)
        } else {
            None
        }
    }

    /// A fresh leaf holding `stats` as its placeholder statistics.
    pub fn leaf(stats: S) -> (r: Self)
        ensures
            r.visit_count == 0,
            r.stats == stats,
            r.children@.len() == 0,
            r.is_fresh(),
            r.wf(),
            r.size() == 1,
    {
        Node { visit_count: 0, stats, children: Vec::new() }
    }

    /// Whether this node still awaits its first evaluation.
    pub fn needs_initialization(&self) -> (r: bool)
        ensures
            r == self.is_fresh(),
    {
        self.visit_count == 0 && self.children.len() == 0
    }

    /// The largest visit count among the children, zero for a leaf.
    pub fn most_visited_count(&self) -> (r: u32)
        ensures
            r == self.max_child_visits(),
            forall|i: int| 0 <= i < self.children@.len() ==> self.children@[i].1.visit_count <= r,
            self.children@.len() > 0 ==> exists|i: int|
                0 <= i < self.children@.len() && #[trigger] self.children@[i].1.visit_count == r,
    {
        let mut best: u32 = 0;
        let mut i: usize = 0;
        while i < self.children.len()
            invariant
                i <= self.children@.len(),
                best == max_visits_upto(self.children@, i as int),
                forall|j: int| 0 <= j < i ==> self.children@[j].1.visit_count <= best,
                i > 0 ==> exists|j: int| 0 <= j < i && #[trigger] self.children@[j].1.visit_count == best,
            decreases self.children@.len() - i,
        {
            let v = self.children[i].1.visit_count;
            if v > best {
                best = v;
            }
            i = i + 1;
        }
        best
    }

    /// Index of the child to play: the first one among those with the most
    /// visits.
    pub fn most_visited_index(&self) -> (r: usize)
        requires
            self.children@.len() > 0,
        ensures
            r < self.children@.len(),
            self.children@[r as int].1.visit_count == self.max_child_visits(),
            forall|j: int|
                0 <= j < r ==> self.children@[j].1.visit_count < self.children@[r as int].1.visit_count,
    {
        let most = self.most_visited_count();
        let mut i: usize = 0;
        while i < self.children.len()
            invariant
                i <= self.children@.len(),
                most == self.max_child_visits(),
                forall|j: int| 0 <= j < self.children@.len() ==> self.children@[j].1.visit_count <= most,
                exists|j: int| i <= j < self.children@.len() && #[trigger] self.children@[j].1.visit_count == most,
                forall|j: int| 0 <= j < i ==> self.children@[j].1.visit_count < most,
            decreases self.children@.len() - i,
        {
            if self.children[i].1.visit_count == most {
                return i;
            }
            i = i + 1;
        }
        i
    }

    /// The action to play from this node: the one whose child was visited
    /// most, the first such one on a tie.
    pub fn select_best_action(&self) -> (r: &A)
        requires
            self.children@.len() > 0,
        ensures
            exists|i: int|
                {
                    &&& 0 <= i < self.children@.len()
                    &&& *r == self.children@[i].0
                    &&& self.children@[i].1.visit_count == self.max_child_visits()
                    &&& forall|j: int|
                        0 <= j < i ==> self.children@[j].1.visit_count < self.children@[i].1.visit_count
                },
    {
        let i = self.most_visited_index();
        &self.children[i].0
    }
}

/// The children's visits split into those of the first `i` children and
/// those of the rest.
proof fn lemma_visits_split<A, S>(children: Seq<(A, Node<A, S>)>, i: int)
    requires
        0 <= i <= children.len(),
    ensures
        visits_from(children, 0) == sum_u32(
            children.map_values(|c: (A, Node<A, S>)| c.1.visit_count).take(i),
            i,
        ) + visits_from(children, i),
    decreases i,
{
    let w = children.map_values(|c: (A, Node<A, S>)| c.1.visit_count);
    if i > 0 {
        lemma_visits_split(children, i - 1);
        lemma_sum_prefix(w, i - 1, i);
    }
}

/// A sum over a prefix is unchanged by what follows it.
proof fn lemma_sum_prefix(w: Seq<u32>, n: int, m: int)
    requires
        0 <= n <= m <= w.len(),
    ensures
        sum_u32(w.take(m), n) == sum_u32(w, n),
        sum_u32(w.take(n), n) == sum_u32(w, n),
    decreases n,
{
    if n > 0 {
        lemma_sum_prefix(w, n - 1, m);
        lemma_sum_prefix(w, n - 1, n);
        assert(w.take(m)[n - 1] == w[n - 1]);
        assert(w.take(n)[n - 1] == w[n - 1]);
    }
}

impl<A, S> Node<A, S> {
    /// The children's visit counts, in order.
    pub fn child_visits(&self) -> (r: Vec<u32>)
        ensures
            r@ == self.children@.map_values(|c: (A, Node<A, S>)| c.1.visit_count),
    {
        let mut out: Vec<u32> = Vec::new();
        let mut i: usize = 0;
        while i < self.children.len()
            invariant
                i <= self.children@.len(),
                out@ == self.children@.map_values(|c: (A, Node<A, S>)| c.1.visit_count).take(i as int),
            decreases self.children@.len() - i,
        {
            out.push(self.children[i].1.visit_count);
            i = i + 1;
            assert(out@ =~= self.children@.map_values(|c: (A, Node<A, S>)| c.1.visit_count).take(i as int));
        }
        assert(out@ =~= self.children@.map_values(|c: (A, Node<A, S>)| c.1.visit_count));
        out
    }

    /// Index of a child drawn with probability proportional to its visit
    /// count, as done for the first plies of a game to diversify openings.
    pub fn sample_by_visits(&self, rng: &mut rand_chacha::ChaCha8Rng) -> (r: usize)
        requires
            self.visits_consistent(),
            visits_from(self.children@, 0) > 0,
        ensures
            r < self.children@.len(),
            self.children@[r as int].1.visit_count > 0,
    {
        let visits = self.child_visits();
        proof {
            lemma_visits_split(self.children@, self.children@.len() as int);
            assert(visits@.take(visits@.len() as int) =~= visits@);
        }
        crate::random::weighted_index(&visits, rng)
    }
}

impl<A: PartialEq, S> Node<A, S> {
    /// Index of the first child reached by `action`.
    pub fn child_index(&self, action: &A) -> (r: Option<usize>)
        requires
            A::obeys_eq_spec(),
        ensures
            r matches Some(i) ==> Some(i as int) == self.first_child_for(action) && i < self.children@.len(),
            r is None ==> self.first_child_for(action) is None,
    {
        let mut i: usize = 0;
        while i < self.children.len()
            invariant
                A::obeys_eq_spec(),
                i <= self.children@.len(),
                first_match_from(self.children@, action, 0) == first_match_from(self.children@, action, i as int),
            decreases self.children@.len() - i,
        {
            if self.children[i].0.eq(action) {
                return Some(i);
            }
            i = i + 1;
        }
        None
    }

    /// Makes the child reached by `action` the new root, dropping its
    /// siblings and this node.
    pub fn descend(&mut self, action: &A)
        requires
            A::obeys_eq_spec(),
            old(self).first_child_for(action) is Some,
        ensures
            *final(self) == old(self).children@[old(self).first_child_for(action)->0].1,
            final(self).size() == old(self).children@[old(self).first_child_for(action)->0].1.size(),
            old(self).wf() ==> final(self).wf(),
    {
        let i = match self.child_index(action) {
            Some(i) => i,
            None => {
                return;
            },
        };
        proof {
            let ghost k = i as int;
            assert(0 <= k < old(self).children@.len());
            if old(self).wf() {
                lemma_child_wf(*old(self), 0, k);
            }
        }
        let child = self.children.swap_remove(i);
        *self = child.1;
    }
}

} // verus!

verus! {

/// Indices of the children that the search may simulate next, in order:
/// every child except those whose evaluation is already a proven win for the
/// player to move there, since such a move loses for the player choosing it.
/// A child proven lost for its own mover (a winning move) always stays.
pub fn selectable_children(proven_win: &Vec<bool>) -> (r: Vec<usize>)
    ensures
        forall|k: int| 0 <= k < r@.len() ==> #[trigger] r@[k] < proven_win@.len() && !proven_win@[r@[k] as int],
        forall|k: int, l: int| 0 <= k < l < r@.len() ==> #[trigger] r@[k] < #[trigger] r@[l],
        forall|i: int| 0 <= i < proven_win@.len() && !proven_win@[i] ==> r@.contains(i as usize),
{
    let mut out: Vec<usize> = Vec::new();
    let mut i: usize = 0;
    while i < proven_win.len()
        invariant
            i <= proven_win@.len(),
            forall|k: int| 0 <= k < out@.len() ==> #[trigger] out@[k] < i && !proven_win@[out@[k] as int],
            forall|k: int, l: int| 0 <= k < l < out@.len() ==> #[trigger] out@[k] < #[trigger] out@[l],
            forall|j: int| 0 <= j < i && !proven_win@[j] ==> out@.contains(j as usize),
        decreases proven_win@.len() - i,
    {
        if !proven_win[i] {
            let ghost prev = out@;
            out.push(i);
            proof {
                assert(out@ == prev.push(i));
                assert forall|j: int| 0 <= j < i + 1 && !proven_win@[j] implies out@.contains(j as usize) by {
                    if j < i {
                        assert(prev.contains(j as usize));
                        let w = choose|w: int| 0 <= w < prev.len() && prev[w] == j as usize;
                        assert(out@[w] == j as usize);
                    } else {
                        assert(out@[out@.len() - 1] == j as usize);
                    }
                }
            }
        }
        i = i + 1;
    }
    out
}

} // verus!

verus! {

impl<A, S> Node<A, S> {
    /// Evaluates a fresh node: it counts its first visit and gets one fresh
    /// child per entry of `priors`, in the given order, each holding the
    /// statistics given for it.
    pub fn expand(&mut self, priors: Vec<(A, S)>)
        requires
            old(self).is_fresh(),
        ensures
            final(self).visit_count == 1,
            final(self).stats == old(self).stats,
            final(self).children@.len() == priors@.len(),
            forall|i: int|
                0 <= i < priors@.len() ==> {
                    &&& (#[trigger] final(self).children@[i]).0 == priors@[i].0
                    &&& final(self).children@[i].1.stats == priors@[i].1
                    &&& final(self).children@[i].1.is_fresh()
                },
            final(self).wf(),
    {
        let mut priors = priors;
        let ghost all = priors@;
        let mut reversed: Vec<(A, S)> = Vec::new();
        while priors.len() > 0
            invariant
                priors@.len() + reversed@.len() == all.len(),
                priors@ == all.take(priors@.len() as int),
                forall|k: int| 0 <= k < reversed@.len() ==> #[trigger] reversed@[k] == all[all.len() - 1 - k],
            decreases priors@.len(),
        {
            let ghost n = priors@.len();
            match priors.pop() {
                Some(p) => {
                    reversed.push(p);
                    proof {
                        assert(priors@ =~= all.take(n - 1));
                    }
                },
                None => {},
            }
        }
        let mut children: Vec<(A, Node<A, S>)> = Vec::new();
        while reversed.len() > 0
            invariant
                children@.len() + reversed@.len() == all.len(),
                forall|k: int| 0 <= k < reversed@.len() ==> #[trigger] reversed@[k] == all[all.len() - 1 - k],
                forall|k: int|
                    0 <= k < children@.len() ==> {
                        &&& (#[trigger] children@[k]).0 == all[k].0
                        &&& children@[k].1.stats == all[k].1
                        &&& children@[k].1.is_fresh()
                    },
            decreases reversed@.len(),
        {
            match reversed.pop() {
                Some(p) => {
                    let (action, stats) = p;
                    children.push((action, Node::leaf(stats)));
                },
                None => {},
            }
        }
        self.children = children;
        self.visit_count = 1;
        proof {
            lemma_fresh_children_wf(*self, 0);
        }
    }
}

/// A node visited once whose children are all fresh is well-formed.
proof fn lemma_fresh_children_wf<A, S>(node: Node<A, S>, i: int)
    requires
        0 <= i <= node.children@.len(),
        node.visit_count == 1,
        forall|k: int| 0 <= k < node.children@.len() ==> (#[trigger] node.children@[k]).1.is_fresh(),
    ensures
        wf_from(node, i),
    decreases node.children@.len() - i,
{
    if i < node.children@.len() {
        lemma_fresh_children_wf(node, i + 1);
        assert(node.children@[i].1.is_fresh());
        assert(wf_from(node.children@[i].1, 0));
    } else {
        lemma_fresh_children_visits(node.children@, 0);
    }
}

/// Fresh children carry no visits.
proof fn lemma_fresh_children_visits<A, S>(children: Seq<(A, Node<A, S>)>, i: int)
    requires
        0 <= i <= children.len(),
        forall|k: int| 0 <= k < children.len() ==> (#[trigger] children[k]).1.is_fresh(),
    ensures
        visits_from(children, i) == 0,
    decreases children.len() - i,
{
    if i < children.len() {
        lemma_fresh_children_visits(children, i + 1);
    }
}

} // verus!
