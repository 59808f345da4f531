//! Tasks, the conflict graph and problem instances.

use ahash::HashSetExt;
use vstd::prelude::*;

verus! {

/// The hasher state of ahash, with which adjacency sets are built.
#[verifier::external_type_specification]
#[verifier::external_body]
pub struct ExAhashRandomState(ahash::RandomState);

/// A task. Contains the processing time and weight of the task.
#[derive(Clone, Copy, Debug, PartialEq, Eq, Structural, Hash)]
pub struct Task {
    pub processing_time: u64,
    pub weight: u64,
}

impl Task {
    /// Creates a task.
    pub fn new(processing_time: u64, weight: u64) -> (r: Task)
        ensures
            r.processing_time == processing_time,
            r.weight == weight,
    {
        Task { processing_time, weight }
    }
}

/// A conflict between two tasks described by their indices.
#[derive(Clone, Copy, Debug, PartialEq, Eq, Structural)]
pub struct Conflict(pub usize, pub usize);

/// Whether the edge list names the unordered pair `{a, b}`.
pub open spec fn listed(edges: Seq<Conflict>, a: usize, b: usize) -> bool {
    exists|k: int|
        0 <= k < edges.len() && ((edges[k].0 == a && edges[k].1 == b) || (edges[k].0 == b
            && edges[k].1 == a))
}

/// The edge list names exactly the pairs `a < b` that are joined, each once.
pub open spec fn lists_edges(g: ConflictGraph, edges: Seq<Conflict>) -> bool {
    &&& edges.no_duplicates()
    &&& forall|k: int| 0 <= k < edges.len() ==> (#[trigger] edges[k]).0 < edges[k].1 && g.conflicted(edges[k].0, edges[k].1)
    &&& forall|a: usize, b: usize| a < b && #[trigger] g.conflicted(a, b) ==> edges.contains(Conflict(a, b))
}

/// Relies on ahash's `HashSetExt::new`: a new set is empty.
#[verifier::external_body]
fn empty_set() -> (r: ahash::HashSet<usize>)
    ensures
        r@ == Set::<usize>::empty(),
{
    <ahash::HashSet<usize> as HashSetExt>::new()
}

/// Relies on `HashSet::insert`: afterwards the value is a member.
#[verifier::external_body]
fn set_insert(s: &mut ahash::HashSet<usize>, v: usize)
    ensures
        final(s)@ == old(s)@.insert(v),
{
    s.insert(v);
}

/// Relies on `HashSet::contains`: whether the value is a member.
#[verifier::external_body]
fn set_contains(s: &ahash::HashSet<usize>, v: usize) -> (r: bool)
    ensures
        r == s@.contains(v),
{
    s.contains(&v)
}

/// Relies on `HashSet::iter`: every member once, in an order that the set chooses.
#[verifier::external_body]
fn set_members(s: &ahash::HashSet<usize>) -> (r: Vec<usize>)
    ensures
        r@.to_set() == s@,
        r@.no_duplicates(),
{
    s.iter().copied().collect()
}

spec fn has_edge(edges: Seq<ahash::HashSet<usize>>, a: usize, b: usize) -> bool {
    a < edges.len() && edges[a as int]@.contains(b)
}

/// A conflict graph. Contains an edge for every pair of tasks that conflict.
#[derive(Debug)]
pub struct ConflictGraph {
    edges: Vec<ahash::HashSet<usize>>,
    neighbors: Vec<Vec<usize>>,
}

impl ConflictGraph {
    /// Number of vertices that have adjacency storage.
    pub closed spec fn size(&self) -> nat {
        self.edges@.len()
    }

    /// Whether `a` and `b` are joined by an edge.
    pub closed spec fn conflicted(&self, a: usize, b: usize) -> bool {
        has_edge(self.edges@, a, b)
    }

    /// The adjacency lists hold the adjacency sets, and the edges are symmetric.
    pub closed spec fn wf(&self) -> bool {
        &&& self.neighbors@.len() == self.edges@.len()
        &&& forall|i: int|
            0 <= i < self.edges@.len() ==> {
                &&& (#[trigger] self.neighbors@[i])@.to_set() == self.edges@[i]@
                &&& self.neighbors@[i]@.no_duplicates()
            }
        &&& forall|a: usize, b: usize| #[trigger]
            self.conflicted(a, b) ==> b < self.edges@.len() && self.conflicted(b, a)
    }

    /// The edges are symmetric and stay within the adjacency storage.
    pub proof fn lemma_symmetric(&self)
        requires
            self.wf(),
        ensures
            forall|a: usize, b: usize| #[trigger]
                self.conflicted(a, b) ==> self.conflicted(b, a) && a < self.size() && b
                    < self.size(),
    {
    }

    /// Builds the graph from an edge list; each edge joins its two tasks both ways.
    pub fn from_conflicts(conflicts: Vec<Conflict>) -> (g: ConflictGraph)
        ensures
            g.wf(),
            forall|a: usize, b: usize| g.conflicted(a, b) <==> listed(conflicts@, a, b),
    {
        let mut edges: Vec<ahash::HashSet<usize>> = Vec::new();
        let mut k: usize = 0;
        while k < conflicts.len()
            invariant
                k <= conflicts.len(),
                forall|a: usize, b: usize|
                    #![trigger has_edge(edges@, a, b)]
                    #![trigger listed(conflicts@.take(k as int), a, b)]
                    has_edge(edges@, a, b) <==> listed(conflicts@.take(k as int), a, b),
                forall|a: usize, b: usize| #[trigger] has_edge(edges@, a, b) ==> b < edges@.len(),
            decreases conflicts.len() - k,
        {
            let c = conflicts[k];
            let high = if c.0 > c.1 {
                c.0
            } else {
                c.1
            };
            while edges.len() <= high
                invariant
                    forall|a: usize, b: usize|
                        #![trigger has_edge(edges@, a, b)]
                        #![trigger listed(conflicts@.take(k as int), a, b)]
                        has_edge(edges@, a, b) <==> listed(conflicts@.take(k as int), a, b),
                    forall|a: usize, b: usize| #[trigger] has_edge(edges@, a, b) ==> b < edges@.len(),
                    k < conflicts.len(),
                    c == conflicts@[k as int],
                decreases high + 1 - edges@.len(),
            {
                let s = empty_set();
                let ghost before = edges@;
                edges.push(s);
                assert forall|a: usize, b: usize|
                    has_edge(edges@, a, b) == has_edge(before, a, b) by {
                    if a < before.len() {
                        assert(edges@[a as int] == before[a as int]);
                    }
                }
                assert forall|a: usize, b: usize| #[trigger] has_edge(edges@, a, b) implies b
                    < edges@.len() by {
                    assert(has_edge(before, a, b));
                }
            }
            let ghost before = edges@;
            set_insert(&mut edges[c.0], c.1);
            set_insert(&mut edges[c.1], c.0);
            assert forall|a: usize, b: usize| #[trigger]
                has_edge(edges@, a, b) == (has_edge(before, a, b) || (a == c.0 && b == c.1) || (a
                    == c.1 && b == c.0)) by {
                if a != c.0 && a != c.1 && a < edges@.len() {
                    assert(edges@[a as int] == before[a as int]);
                }
            }
            assert forall|a: usize, b: usize|
                #![trigger has_edge(edges@, a, b)]
                #![trigger listed(conflicts@.take(k + 1), a, b)]
                has_edge(edges@, a, b) <==> listed(conflicts@.take(k + 1), a, b) by {
                let prev = conflicts@.take(k as int);
                let next = conflicts@.take(k + 1);
                assert(next[k as int] == c);
                if listed(prev, a, b) {
                    let j = choose|j: int|
                        0 <= j < prev.len() && ((prev[j].0 == a && prev[j].1 == b) || (prev[j].0
                            == b && prev[j].1 == a));
                    assert(next[j] == prev[j]);
                }
                if listed(next, a, b) {
                    let j = choose|j: int|
                        0 <= j < next.len() && ((next[j].0 == a && next[j].1 == b) || (next[j].0
                            == b && next[j].1 == a));
                    if j < k {
                        assert(prev[j] == next[j]);
                    }
                }
            }
            k = k + 1;
        }
        assert(conflicts@.take(k as int) == conflicts@);
        let mut neighbors: Vec<Vec<usize>> = Vec::new();
        let mut i: usize = 0;
        while i < edges.len()
            invariant
                i <= edges@.len(),
                neighbors@.len() == i,
                forall|j: int|
                    0 <= j < i ==> {
                        &&& (#[trigger] neighbors@[j])@.to_set() == edges@[j]@
                        &&& neighbors@[j]@.no_duplicates()
                    },
            decreases edges.len() - i,
        {
            let members = set_members(&edges[i]);
            neighbors.push(members);
            i = i + 1;
        }
        ConflictGraph { edges, neighbors }
    }

    /// The edge list of the graph: each joined pair once, smaller index first.
    pub fn to_conflicts(&self) -> (r: Vec<Conflict>)
        requires
            self.wf(),
        ensures
            lists_edges(*self, r@),
    {
        let mut result: Vec<Conflict> = Vec::new();
        let mut from: usize = 0;
        while from < self.neighbors.len()
            invariant
                self.wf(),
                from <= self.neighbors@.len(),
                result@.no_duplicates(),
                forall|k: int| 0 <= k < result@.len() ==> (#[trigger] result@[k]).0 < result@[k].1 && self.conflicted(result@[k].0, result@[k].1) && result@[k].0 < from,
                forall|a: usize, b: usize| a < b && a < from && #[trigger] self.conflicted(a, b) ==> result@.contains(Conflict(a, b)),
            decreases self.neighbors@.len() - from,
        {
            let adjacent = &self.neighbors[from];
            let mut k: usize = 0;
            while k < adjacent.len()
                invariant
                    self.wf(),
                    from < self.neighbors@.len(),
                    adjacent@ == self.neighbors@[from as int]@,
                    k <= adjacent@.len(),
                    result@.no_duplicates(),
                    forall|q: int| 0 <= q < result@.len() ==> (#[trigger] result@[q]).0 < result@[q].1 && self.conflicted(result@[q].0, result@[q].1) && result@[q].0 <= from,
                    forall|q: int| 0 <= q < result@.len() && result@[q].0 == from ==> adjacent@.take(k as int).contains(#[trigger] result@[q].1),
                    forall|a: usize, b: usize| a < b && a < from && #[trigger] self.conflicted(a, b) ==> result@.contains(Conflict(a, b)),
                    forall|j: int| 0 <= j < k && from < adjacent@[j] ==> result@.contains(Conflict(from, #[trigger] adjacent@[j])),
                decreases adjacent@.len() - k,
            {
                let to = adjacent[k];
                assert(adjacent@.to_set().contains(to) == adjacent@.contains(to));
                assert(adjacent@.contains(to));
                if to > from {
                    let c = Conflict(from, to);
                    let ghost before = result@;
                    assert(!before.contains(c)) by {
                        if before.contains(c) {
                            let q = choose|q: int| 0 <= q < before.len() && before[q] == c;
                            assert(adjacent@.take(k as int).contains(to));
                            let j = choose|j: int| 0 <= j < k && adjacent@.take(k as int)[j] == to;
                            assert(adjacent@[j] == adjacent@[k as int]);
                        }
                    }
                    result.push(c);
                    proof {
                        assert(result@[before.len() as int] == c);
                        assert forall|x: Conflict| before.contains(x) implies result@.contains(x) by {
                            let q = choose|q: int| 0 <= q < before.len() && before[q] == x;
                            assert(result@[q] == x);
                        }
                        assert forall|q: int| 0 <= q < result@.len() && result@[q].0 == from implies adjacent@.take(k + 1).contains(#[trigger] result@[q].1) by {
                            if q < before.len() {
                                assert(adjacent@.take(k as int).contains(before[q].1));
                                let j = choose|j: int| 0 <= j < k && adjacent@.take(k as int)[j] == before[q].1;
                                assert(adjacent@.take(k + 1)[j] == before[q].1);
                            } else {
                                assert(adjacent@.take(k + 1)[k as int] == to);
                            }
                        }
                    }
                } else {
                    proof {
                        assert forall|q: int| 0 <= q < result@.len() && result@[q].0 == from implies adjacent@.take(k + 1).contains(#[trigger] result@[q].1) by {
                            assert(adjacent@.take(k as int).contains(result@[q].1));
                            let j = choose|j: int| 0 <= j < k && adjacent@.take(k as int)[j] == result@[q].1;
                            assert(adjacent@.take(k + 1)[j] == result@[q].1);
                        }
                    }
                }
                k = k + 1;
            }
            proof {
                assert forall|a: usize, b: usize| a < b && a < from + 1 && #[trigger] self.conflicted(a, b) implies result@.contains(Conflict(a, b)) by {
                    if a == from {
                        assert(self.neighbors@[from as int]@.to_set().contains(b));
                        let j = choose|j: int| 0 <= j < adjacent@.len() && adjacent@[j] == b;
                    }
                }
            }
            from = from + 1;
        }
        proof {
            assert forall|a: usize, b: usize| a < b && #[trigger] self.conflicted(a, b) implies result@.contains(Conflict(a, b)) by {
                assert(a < self.neighbors@.len());
            }
        }
        result
    }

    /// Number of vertices that have adjacency storage: one more than the largest index of an
    /// edge, or 0.
    pub fn len(&self) -> (r: usize)
        ensures
            r == self.size(),
    {
        self.edges.len()
    }

    /// Returns whether the given tasks conflict; false where either index has no storage.
    pub fn are_conflicted(&self, first: usize, second: usize) -> (r: bool)
        requires
            self.wf(),
        ensures
            r == self.conflicted(first, second),
    {
        if first < self.edges.len() {
            set_contains(&self.edges[first], second)
        } else {
            false
        }
    }

    /// Returns the tasks that conflict with the given task, each once.
    pub fn conflicts(&self, task: usize) -> (r: &[usize])
        requires
            self.wf(),
        ensures
            forall|b: usize| r@.contains(b) <==> self.conflicted(task, b),
            r@.no_duplicates(),
    {
        if task < self.neighbors.len() {
            let r = self.neighbors[task].as_slice();
            proof {
                assert forall|b: usize| r@.contains(b) <==> self.conflicted(task, b) by {
                    assert(self.neighbors@[task as int]@.to_set().contains(b) <==> r@.contains(
                        b,
                    ));
                }
            }
            r
        } else {
            &[]
        }
    }
}

/// Sum of the weights of the first `k` tasks.
pub open spec fn weight_upto(tasks: Seq<Task>, k: int) -> nat
    decreases k,
{
    if k <= 0 {
        0
    } else {
        (weight_upto(tasks, k - 1) + tasks[k - 1].weight) as nat
    }
}

/// Sum of the weights of all tasks.
pub open spec fn total_weight(tasks: Seq<Task>) -> nat {
    weight_upto(tasks, tasks.len() as int)
}

/// A prefix never weighs more than a longer prefix.
pub proof fn lemma_weight_monotone(tasks: Seq<Task>, j: int, k: int)
    requires
        0 <= j <= k,
    ensures
        weight_upto(tasks, j) <= weight_upto(tasks, k),
    decreases k - j,
{
    if j < k {
        lemma_weight_monotone(tasks, j, k - 1);
    }
}

/// Building a graph from an edge list and listing its edges again gives back the same
/// undirected edges, each once with its smaller index first, without self-loops.
pub proof fn lemma_edge_round_trip(edges: Seq<Conflict>, g: ConflictGraph, listed_again: Seq<Conflict>)
    requires
        forall|a: usize, b: usize| g.conflicted(a, b) <==> listed(edges, a, b),
        lists_edges(g, listed_again),
    ensures
        listed_again.no_duplicates(),
        forall|a: usize, b: usize|
            a != b ==> (listed(edges, a, b) <==> (listed_again.contains(Conflict(a, b))
                || listed_again.contains(Conflict(b, a)))),
        forall|k: int| 0 <= k < listed_again.len() ==> (#[trigger] listed_again[k]).0 != listed_again[k].1,
{
    assert forall|a: usize, b: usize|
        a != b implies (listed(edges, a, b) <==> (listed_again.contains(Conflict(a, b))
            || listed_again.contains(Conflict(b, a)))) by {
        if listed_again.contains(Conflict(a, b)) {
            let k = choose|k: int| 0 <= k < listed_again.len() && listed_again[k] == Conflict(a, b);
            assert(g.conflicted(a, b));
        }
        if listed_again.contains(Conflict(b, a)) {
            let k = choose|k: int| 0 <= k < listed_again.len() && listed_again[k] == Conflict(b, a);
            assert(g.conflicted(b, a));
            assert(listed(edges, b, a));
            let j = choose|j: int| 0 <= j < edges.len() && ((edges[j].0 == b && edges[j].1 == a) || (edges[j].0 == a && edges[j].1 == b));
        }
        if listed(edges, a, b) {
            assert(g.conflicted(a, b));
            let j = choose|j: int| 0 <= j < edges.len() && ((edges[j].0 == a && edges[j].1 == b) || (edges[j].0 == b && edges[j].1 == a));
            assert(listed(edges, b, a));
            assert(g.conflicted(b, a));
            if a > b {
                assert(listed_again.contains(Conflict(b, a)));
            }
        }
    }
}

/// Conflict queries are symmetric, for any pair of indices, those without storage included.
pub proof fn lemma_conflicts_symmetric(g: ConflictGraph, a: usize, b: usize)
    requires
        g.wf(),
    ensures
        g.conflicted(a, b) == g.conflicted(b, a),
{
    g.lemma_symmetric();
}

/// An instance of the scheduling problem.
#[derive(Debug)]
pub struct Instance {
    pub processors: usize,
    pub deadline: u64,
    pub tasks: Vec<Task>,
    pub graph: ConflictGraph,
}

impl Instance {
    /// Every index of the graph is a task, and the total weight fits in a `u64`.
    pub open spec fn wf(&self) -> bool {
        &&& self.graph.wf()
        &&& forall|a: usize, b: usize| #[trigger]
            self.graph.conflicted(a, b) ==> a < self.tasks@.len() && b < self.tasks@.len()
        &&& total_weight(self.tasks@) <= u64::MAX
        &&& forall|t: usize| !#[trigger] self.graph.conflicted(t, t)
    }

    /// Whether the instance is well formed: the graph indexes no task beyond the task list and
    /// joins no task to itself, and the total weight fits in a `u64`.
    pub fn check(&self) -> (r: bool)
        requires
            self.graph.wf(),
        ensures
            r ==> self.wf(),
            !r ==> self.graph.size() > self.tasks@.len() || total_weight(self.tasks@) > u64::MAX
                || exists|t: usize| #[trigger] self.graph.conflicted(t, t),
    {
        proof {
            self.graph.lemma_symmetric();
        }
        if self.graph.len() > self.tasks.len() {
            return false;
        }
        let mut v: usize = 0;
        while v < self.graph.len()
            invariant
                self.graph.wf(),
                v <= self.graph.size(),
                forall|t: usize| t < v ==> !#[trigger] self.graph.conflicted(t, t),
            decreases self.graph.size() - v,
        {
            if self.graph.are_conflicted(v, v) {
                return false;
            }
            v = v + 1;
        }
        proof {
            self.graph.lemma_symmetric();
            assert forall|t: usize| !#[trigger] self.graph.conflicted(t, t) by {
                if t >= v && self.graph.conflicted(t, t) {
                    assert(t < self.graph.size());
                }
            }
        }
        let mut total: u64 = 0;
        let mut i: usize = 0;
        while i < self.tasks.len()
            invariant
                i <= self.tasks@.len(),
                total == weight_upto(self.tasks@, i as int),
            decreases self.tasks@.len() - i,
        {
            match total.checked_add(self.tasks[i].weight) {
                Some(sum) => {
                    total = sum;
                },
                None => {
                    proof {
                        lemma_weight_monotone(self.tasks@, i + 1, self.tasks@.len() as int);
                    }
                    return false;
                },
            }
            i = i + 1;
        }
        true
    }

    /// Creates an instance.
    pub fn new(processors: usize, deadline: u64, tasks: Vec<Task>, graph: ConflictGraph) -> (r:
        Instance)
        ensures
            r.processors == processors,
            r.deadline == deadline,
            r.tasks@ == tasks@,
            r.graph == graph,
    {
        Instance { processors, deadline, tasks, graph }
    }
}

} // verus!
