//! The command-dependency graph and what it means for a sequence of node
//! indices to be a valid order of it.

use vstd::prelude::*;

verus! {

/// One device command together with the nodes that must be sent before it.
#[derive(Debug)]
pub struct CommandNode {
    /// The command bytes, without the transport's prefix byte.
    pub bytes: Vec<u8>,
    /// Indices of the nodes that must have been sent before this one.
    pub deps: Vec<usize>,
}

impl CommandNode {
    /// A node with the given bytes and prerequisites.
    pub fn new(bytes: Vec<u8>, deps: Vec<usize>) -> (r: CommandNode)
        ensures
            r.bytes@ == bytes@,
            r.deps@ == deps@,
    {
        CommandNode { bytes, deps }
    }
}

/// An ordered, immutable table of command nodes.
pub struct CommandGraph {
    nodes: Vec<CommandNode>,
}

impl View for CommandGraph {
    type V = Seq<CommandNode>;

    closed spec fn view(&self) -> Seq<CommandNode> {
        self.nodes@
    }
}

/// Every prerequisite of node `j` occurs in `done`.
pub open spec fn ready(g: Seq<CommandNode>, done: Seq<usize>, j: int) -> bool {
    forall|k: int| 0 <= k < g[j].deps@.len() ==> done.contains(#[trigger] g[j].deps@[k])
}

/// The entry at position `p` of `s` names a node of `g` whose prerequisites
/// all stand before `p`.
pub open spec fn placed_after_deps(g: Seq<CommandNode>, s: Seq<usize>, p: int) -> bool {
    s[p] < g.len() && ready(g, s.take(p), s[p] as int)
}

/// `s` is a valid sequence: it names nodes of `g`, none twice, and each
/// node's prerequisites appear earlier in it.
pub open spec fn is_valid_sequence(g: Seq<CommandNode>, s: Seq<usize>) -> bool {
    &&& s.no_duplicates()
    &&& forall|p: int| 0 <= p < s.len() ==> #[trigger] placed_after_deps(g, s, p)
}

/// `s` is a total order of `g`: a valid sequence in which every node of `g`
/// occurs, hence a permutation of `0..g.len()` that respects every edge.
pub open spec fn is_total_order(g: Seq<CommandNode>, s: Seq<usize>) -> bool {
    &&& is_valid_sequence(g, s)
    &&& s.len() == g.len()
    &&& forall|v: usize| v < g.len() ==> s.contains(v)
}

/// The graph admits a total order. This is what it means for the dependency
/// relation to be acyclic with every prerequisite index in range.
pub open spec fn has_total_order(g: Seq<CommandNode>) -> bool {
    exists|s: Seq<usize>| is_total_order(g, s)
}

/// The number of `true` entries of `s`.
pub open spec fn count_true(s: Seq<bool>) -> nat
    decreases s.len(),
{
    if s.len() == 0 {
        0
    } else {
        count_true(s.drop_last()) + if s.last() { 1nat } else { 0nat }
    }
}

/// No more entries are `true` than there are entries.
pub proof fn lemma_count_bound(s: Seq<bool>)
    ensures
        count_true(s) <= s.len(),
    decreases s.len(),
{
    if s.len() > 0 {
        lemma_count_bound(s.drop_last());
    }
}

/// Setting a `false` entry raises the count by one.
pub proof fn lemma_count_set(s: Seq<bool>, i: int)
    requires
        0 <= i < s.len(),
        !s[i],
    ensures
        count_true(s.update(i, true)) == count_true(s) + 1,
    decreases s.len(),
{
    let t = s.update(i, true);
    if i == s.len() - 1 {
        assert(t.drop_last() =~= s.drop_last());
    } else {
        lemma_count_set(s.drop_last(), i);
        assert(t.drop_last() =~= s.drop_last().update(i, true));
    }
}

/// Where the count equals the length, every entry is `true`.
pub proof fn lemma_count_full(s: Seq<bool>)
    requires
        count_true(s) == s.len(),
    ensures
        forall|i: int| 0 <= i < s.len() ==> s[i],
    decreases s.len(),
{
    if s.len() > 0 {
        lemma_count_bound(s.drop_last());
        lemma_count_full(s.drop_last());
        assert forall|i: int| 0 <= i < s.len() implies s[i] by {
            if i < s.len() - 1 {
                assert(s.drop_last()[i] == s[i]);
            }
        }
    }
}

/// Where every entry is `true`, the count is the length.
pub proof fn lemma_count_all(s: Seq<bool>)
    requires
        forall|i: int| 0 <= i < s.len() ==> s[i],
    ensures
        count_true(s) == s.len(),
    decreases s.len(),
{
    if s.len() > 0 {
        lemma_count_all(s.drop_last());
    }
}

/// Where every entry is `false`, the count is zero.
pub proof fn lemma_count_none(s: Seq<bool>)
    requires
        forall|i: int| 0 <= i < s.len() ==> !s[i],
    ensures
        count_true(s) == 0,
    decreases s.len(),
{
    if s.len() > 0 {
        lemma_count_none(s.drop_last());
    }
}

/// Node `j` occurs in `s`.
pub open spec fn occurs(s: Seq<usize>, j: int) -> bool {
    exists|p: int| 0 <= p < s.len() && #[trigger] s[p] == j
}

/// The flags, one per node of a graph with `n` nodes, of the nodes that occur in `s`.
pub open spec fn membership(n: nat, s: Seq<usize>) -> Seq<bool> {
    Seq::new(n, |j: int| occurs(s, j))
}

/// A beginning of a valid sequence is a valid sequence.
pub proof fn lemma_valid_prefix(g: Seq<CommandNode>, s: Seq<usize>, p: int)
    requires
        is_valid_sequence(g, s),
        0 <= p <= s.len(),
    ensures
        is_valid_sequence(g, s.take(p)),
{
    let t = s.take(p);
    assert forall|i: int| 0 <= i < t.len() implies #[trigger] placed_after_deps(g, t, i) by {
        assert(placed_after_deps(g, s, i));
        assert(t.take(i) =~= s.take(i));
    }
}

/// A valid sequence flags as many nodes as it has entries.
pub proof fn lemma_valid_count(g: Seq<CommandNode>, s: Seq<usize>)
    requires
        is_valid_sequence(g, s),
    ensures
        count_true(membership(g.len(), s)) == s.len(),
        s.len() <= g.len(),
    decreases s.len(),
{
    let cur = membership(g.len(), s);
    if s.len() == 0 {
        lemma_count_none(cur);
    } else {
        let p = s.len() - 1;
        let t = s.take(p);
        lemma_valid_prefix(g, s, p);
        lemma_valid_count(g, t);
        let prev = membership(g.len(), t);
        let v = s[p];
        assert(placed_after_deps(g, s, p));
        assert(!occurs(t, v as int)) by {
            if occurs(t, v as int) {
                let q = choose|q: int| 0 <= q < t.len() && #[trigger] t[q] == v as int;
                assert(s[q] == s[p]);
            }
        }
        assert(cur =~= prev.update(v as int, true)) by {
            assert forall|j: int| 0 <= j < g.len() implies cur[j] == prev.update(v as int, true)[j] by {
                if j == v {
                    assert(s[p] == j);
                } else if occurs(s, j) {
                    let q = choose|q: int| 0 <= q < s.len() && #[trigger] s[q] == j;
                    assert(t[q] == j);
                } else if occurs(t, j) {
                    let q = choose|q: int| 0 <= q < t.len() && #[trigger] t[q] == j;
                    assert(s[q] == j);
                }
            }
        }
        lemma_count_set(prev, v as int);
    }
    lemma_count_bound(cur);
}

/// A valid sequence with as many entries as the graph has nodes is a total
/// order of the graph.
pub proof fn lemma_full_valid_is_total(g: Seq<CommandNode>, s: Seq<usize>)
    requires
        is_valid_sequence(g, s),
        s.len() == g.len(),
    ensures
        is_total_order(g, s),
{
    lemma_valid_count(g, s);
    lemma_count_full(membership(g.len(), s));
    assert forall|v: usize| v < g.len() implies s.contains(v) by {
        assert(membership(g.len(), s)[v as int]);
        let p = choose|p: int| 0 <= p < s.len() && #[trigger] s[p] == v as int;
        assert(s[p] == v);
    }
}

/// In a graph with a total order every prerequisite index names a node of
/// the graph, and no node lists itself.
pub proof fn lemma_total_order_bounds(g: Seq<CommandNode>, s: Seq<usize>, j: int, k: int)
    requires
        is_total_order(g, s),
        0 <= j < g.len(),
        0 <= k < g[j].deps@.len(),
    ensures
        g[j].deps@[k] < g.len(),
        g[j].deps@[k] != j,
{
    lemma_valid_count(g, s);
    lemma_count_full(membership(g.len(), s));
    assert(membership(g.len(), s)[j]);
    let p = choose|p: int| 0 <= p < s.len() && #[trigger] s[p] == j;
    assert(placed_after_deps(g, s, p));
    let d = g[j].deps@[k];
    let t = s.take(p);
    assert(t.contains(d));
    let q = choose|q: int| 0 <= q < t.len() && t[q] == d;
    assert(s[q] == d);
    assert(placed_after_deps(g, s, q));
}

/// Node `c` may be sent next after the valid sequence `s`: it names a node of
/// the graph that `s` does not hold and whose prerequisites `s` holds.
pub open spec fn can_follow(g: Seq<CommandNode>, s: Seq<usize>, c: usize) -> bool {
    &&& c < g.len()
    &&& !s.contains(c)
    &&& ready(g, s, c as int)
}

/// `occurs` and `contains` say the same of a node index.
pub proof fn lemma_occurs_contains(s: Seq<usize>, v: usize)
    ensures
        occurs(s, v as int) == s.contains(v),
{
    if occurs(s, v as int) {
        let p = choose|p: int| 0 <= p < s.len() && #[trigger] s[p] == v as int;
        assert(s[p] == v);
    }
    if s.contains(v) {
        let p = choose|p: int| 0 <= p < s.len() && s[p] == v;
        assert(s[p] == v as int);
    }
}

/// A valid sequence stays valid when a node that may follow it is appended.
pub proof fn lemma_extend_valid(g: Seq<CommandNode>, s: Seq<usize>, c: usize)
    requires
        is_valid_sequence(g, s),
        can_follow(g, s, c),
    ensures
        is_valid_sequence(g, s.push(c)),
{
    let t = s.push(c);
    assert forall|p: int| 0 <= p < t.len() implies #[trigger] placed_after_deps(g, t, p) by {
        if p < s.len() {
            assert(placed_after_deps(g, s, p));
            assert(t.take(p) =~= s.take(p));
        } else {
            assert(t.take(p) =~= s);
        }
    }
}

/// In a valid sequence every entry may follow the entries before it.
pub proof fn lemma_entry_follows(g: Seq<CommandNode>, s: Seq<usize>, p: int)
    requires
        is_valid_sequence(g, s),
        0 <= p < s.len(),
    ensures
        can_follow(g, s.take(p), s[p]),
{
    assert(placed_after_deps(g, s, p));
    let t = s.take(p);
    if t.contains(s[p]) {
        let q = choose|q: int| 0 <= q < t.len() && t[q] == s[p];
        assert(s[q] == s[p]);
    }
}

/// The graph is a single chain: node 0 has no prerequisite and every other
/// node depends on the node before it, and on nothing else.
pub open spec fn is_chain(g: Seq<CommandNode>) -> bool {
    forall|i: int| 0 <= i < g.len() ==> (#[trigger] g[i]).deps@ == if i == 0 {
        Seq::<usize>::empty()
    } else {
        seq![(i - 1) as usize]
    }
}

/// The order `0, 1, .., n - 1`.
pub open spec fn identity_order(n: nat) -> Seq<usize> {
    Seq::new(n, |i: int| i as usize)
}

/// A valid sequence of a chain begins `0, 1, ..`.
proof fn lemma_chain_prefix(g: Seq<CommandNode>, s: Seq<usize>, p: int)
    requires
        is_chain(g),
        is_valid_sequence(g, s),
        0 <= p <= s.len(),
        g.len() <= usize::MAX,
    ensures
        forall|q: int| 0 <= q < p ==> #[trigger] s[q] == q,
    decreases p,
{
    if p > 0 {
        lemma_chain_prefix(g, s, p - 1);
        let v = s[p - 1];
        assert(placed_after_deps(g, s, p - 1));
        if v == 0 {
            if p - 1 > 0 {
                assert(s[0] == 0);
            }
        } else {
            let t = s.take(p - 1);
            assert(g[v as int].deps@ == seq![(v - 1) as usize]);
            assert(g[v as int].deps@[0] == (v - 1) as usize);
            assert(t.contains((v - 1) as usize));
            let q = choose|q: int| 0 <= q < t.len() && t[q] == (v - 1) as usize;
            assert(s[q] == q);
            if v < p - 1 {
                assert(s[v as int] == v);
            }
        }
    }
}

/// A chain has exactly one total order: any total order of it is
/// `0, 1, .., n - 1`.
pub proof fn lemma_chain_unique_order(g: Seq<CommandNode>, s: Seq<usize>)
    requires
        is_chain(g),
        is_total_order(g, s),
        g.len() <= usize::MAX,
    ensures
        s == identity_order(g.len()),
{
    lemma_chain_prefix(g, s, s.len() as int);
    assert(s =~= identity_order(g.len()));
}

/// The order `0, 1, .., n - 1` is a total order of a chain of `n` nodes.
pub proof fn lemma_chain_has_order(g: Seq<CommandNode>)
    requires
        is_chain(g),
        g.len() <= usize::MAX,
    ensures
        is_total_order(g, identity_order(g.len())),
        has_total_order(g),
{
    let s = identity_order(g.len());
    assert forall|p: int| 0 <= p < s.len() implies #[trigger] placed_after_deps(g, s, p) by {
        let t = s.take(p);
        assert forall|k: int| 0 <= k < g[p].deps@.len() implies t.contains(#[trigger] g[p].deps@[k]) by {
            assert(g[p].deps@ == seq![(p - 1) as usize]);
            assert(t[p - 1] == (p - 1) as usize);
        }
    }
    assert forall|v: usize| v < g.len() implies s.contains(v) by {
        assert(s[v as int] == v);
    }
    assert(is_total_order(g, s));
}

impl CommandGraph {
    /// The graph whose nodes are `nodes`, in that order.
    pub fn new(nodes: Vec<CommandNode>) -> (r: CommandGraph)
        ensures
            r@ == nodes@,
    {
        CommandGraph { nodes }
    }

    /// The number of nodes.
    pub fn len(&self) -> (r: usize)
        ensures
            r == self@.len(),
    {
        self.nodes.len()
    }

    /// The node at index `i`.
    pub fn node(&self, i: usize) -> (r: &CommandNode)
        requires
            i < self@.len(),
        ensures
            *r == self@[i as int],
    {
        &self.nodes[i]
    }

    /// The longest command of the graph, in bytes; 0 for an empty graph.
    pub fn max_cmd_len(&self) -> (r: usize)
        ensures
            forall|j: int| 0 <= j < self@.len() ==> (#[trigger] self@[j]).bytes@.len() <= r,
            self@.len() == 0 ==> r == 0,
            self@.len() > 0 ==> exists|j: int| 0 <= j < self@.len() && (#[trigger] self@[j]).bytes@.len() == r,
    {
        let mut best: usize = 0;
        let mut i: usize = 0;
        while i < self.nodes.len()
            invariant
                i <= self.nodes.len(),
                forall|j: int| 0 <= j < i ==> (#[trigger] self.nodes@[j]).bytes@.len() <= best,
                i == 0 ==> best == 0,
                i > 0 ==> exists|j: int| 0 <= j < i && (#[trigger] self.nodes@[j]).bytes@.len() == best,
            decreases self.nodes.len() - i,
        {
            let n: usize = self.nodes[i].bytes.len();
            if n > best || i == 0 {
                best = n;
            }
            i += 1;
        }
        best
    }

    /// Whether every prerequisite of node `j` is flagged in `sent`.
    pub fn deps_sent(&self, j: usize, sent: &Vec<bool>) -> (r: bool)
        requires
            j < self@.len(),
        ensures
            r == forall|k: int| 0 <= k < self@[j as int].deps@.len() ==> {
                let d = #[trigger] self@[j as int].deps@[k];
                d < sent@.len() && sent@[d as int]
            },
    {
        let deps = &self.nodes[j].deps;
        let mut k: usize = 0;
        while k < deps.len()
            invariant
                k <= deps.len(),
                deps@ == self@[j as int].deps@,
                forall|m: int| 0 <= m < k ==> {
                    let d = #[trigger] deps@[m];
                    d < sent@.len() && sent@[d as int]
                },
            decreases deps.len() - k,
        {
            let d: usize = deps[k];
            if d >= sent.len() || !sent[d] {
                return false;
            }
            k += 1;
        }
        true
    }
}

} // verus!
