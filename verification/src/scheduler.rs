//! Level-partitioned execution plan for a compiled graph.
//!
//! Nodes of one partition do not depend on each other; every connection runs
//! from an earlier partition to a later one. The worker set is fixed when the
//! scheduler is built.
use vstd::prelude::*;

use crate::compile::{
    compiled_wf, lemma_levels_unique, levels_ok, partitions_by, CompiledGraph, CompiledView,
};

verus! {

/// Partitions a block runs at most.
pub const MAX_PARTITIONS: usize = 256;

/// Workers a scheduler holds at most.
pub const MAX_WORKERS: usize = 16;

/// One worker slot.
pub struct Worker {
    id: usize,
}

impl Worker {
    pub closed spec fn spec_id(&self) -> usize {
        self.id
    }

    pub fn id(&self) -> (r: usize)
        ensures
            r == self.spec_id(),
    {
        self.id
    }
}

/// Pre-computed partition plan for one compiled graph.
pub struct Plan {
    partitions: Vec<Vec<usize>>,
}

impl Plan {
    /// The partitions: node positions grouped by dependency level.
    pub closed spec fn parts(&self) -> Seq<Seq<usize>> {
        self.partitions@.map_values(|p: Vec<usize>| p@)
    }

    pub fn from_graph(graph: &CompiledGraph) -> (r: Self)
        requires
            graph.wf(),
        ensures
            exists|lv: Seq<int>| levels_ok(graph@, lv) && partitions_by(r.parts(), lv),
    {
        let partitions = graph.parallel_partitions();
        Self { partitions }
    }

    pub fn partitions(&self) -> (r: &[Vec<usize>])
        ensures
            r@.map_values(|p: Vec<usize>| p@) == self.parts(),
    {
        self.partitions.as_slice()
    }
}

/// Every connection runs from an earlier partition to a later one, so nodes
/// within one partition never depend on each other.
pub proof fn lemma_partitions_follow_edges(
    c: CompiledView,
    lv: Seq<int>,
    parts: Seq<Seq<usize>>,
    k: int,
    p: int,
    i: int,
    q: int,
    j: int,
)
    requires
        levels_ok(c, lv),
        partitions_by(parts, lv),
        0 <= k < c.edges.len(),
        0 <= p < parts.len(),
        0 <= i < parts[p].len(),
        0 <= q < parts.len(),
        0 <= j < parts[q].len(),
        parts[p][i] == c.edges[k].src,
        parts[q][j] == c.edges[k].dst,
    ensures
        p < q,
{
    assert(lv[parts[p][i] as int] == p);
    assert(lv[parts[q][j] as int] == q);
}

/// Every node lies in exactly one partition, at its level.
pub proof fn lemma_partitions_cover(lv: Seq<int>, parts: Seq<Seq<usize>>, v: int)
    requires
        partitions_by(parts, lv),
        0 <= v < lv.len(),
        v <= usize::MAX,
    ensures
        parts[lv[v]].contains(v as usize),
        forall|p: int| 0 <= p < parts.len() && #[trigger] parts[p].contains(v as usize) ==> p == lv[v],
{
    assert forall|p: int| 0 <= p < parts.len() && #[trigger] parts[p].contains(v as usize) implies p
        == lv[v] by {
        let i = choose|i: int| 0 <= i < parts[p].len() && parts[p][i] == v as usize;
        assert(lv[parts[p][i] as int] == p);
    }
}

/// Strictly increasing sequences with the same elements are the same.
proof fn lemma_increasing_same(a: Seq<usize>, b: Seq<usize>)
    requires
        forall|i: int, j: int| 0 <= i < j < a.len() ==> (#[trigger] a[i]) < (#[trigger] a[j]),
        forall|i: int, j: int| 0 <= i < j < b.len() ==> (#[trigger] b[i]) < (#[trigger] b[j]),
        forall|x: usize| a.contains(x) <==> b.contains(x),
    ensures
        a == b,
    decreases a.len(),
{
    if a.len() == 0 {
        if b.len() > 0 {
            assert(b.contains(b[0]));
        }
        assert(a =~= b);
    } else if b.len() == 0 {
        assert(a.contains(a[0]));
    } else {
        assert(a.contains(a[0]));
        assert(b.contains(b[0]));
        let ia = choose|i: int| 0 <= i < a.len() && a[i] == b[0];
        let ib = choose|i: int| 0 <= i < b.len() && b[i] == a[0];
        if ia > 0 {
            assert(a[0] < a[ia]);
        }
        if ib > 0 {
            assert(b[0] < b[ib]);
        }
        assert(a[0] == b[0]);
        let ra = a.drop_first();
        let rb = b.drop_first();
        assert forall|x: usize| ra.contains(x) <==> rb.contains(x) by {
            if ra.contains(x) {
                let i = choose|i: int| 0 <= i < ra.len() && ra[i] == x;
                assert(a[i + 1] == x && a[0] < a[i + 1]);
                assert(a.contains(x));
                let j = choose|j: int| 0 <= j < b.len() && b[j] == x;
                assert(j != 0);
                assert(rb[j - 1] == x);
            }
            if rb.contains(x) {
                let i = choose|i: int| 0 <= i < rb.len() && rb[i] == x;
                assert(b[i + 1] == x && b[0] < b[i + 1]);
                assert(b.contains(x));
                let j = choose|j: int| 0 <= j < a.len() && a[j] == x;
                assert(j != 0);
                assert(ra[j - 1] == x);
            }
        }
        lemma_increasing_same(ra, rb);
        assert(a =~= seq![a[0]] + ra);
        assert(b =~= seq![b[0]] + rb);
    }
}

/// Partitions are determined by the levels: two groupings of the same
/// levels are the same.
pub proof fn lemma_partitions_unique(lv: Seq<int>, parts1: Seq<Seq<usize>>, parts2: Seq<Seq<usize>>)
    requires
        partitions_by(parts1, lv),
        partitions_by(parts2, lv),
        lv.len() <= usize::MAX + 1,
    ensures
        parts1 == parts2,
{
    let v1 = choose|v: int| 0 <= v < lv.len() && #[trigger] lv[v] == parts1.len() - 1;
    let v2 = choose|v: int| 0 <= v < lv.len() && #[trigger] lv[v] == parts2.len() - 1;
    assert(lv[v1] < parts2.len());
    assert(lv[v2] < parts1.len());
    assert forall|p: int| 0 <= p < parts1.len() implies #[trigger] parts1[p] == parts2[p] by {
        assert forall|x: usize| parts1[p].contains(x) <==> parts2[p].contains(x) by {
            if parts1[p].contains(x) {
                let i = choose|i: int| 0 <= i < parts1[p].len() && parts1[p][i] == x;
                assert(lv[parts1[p][i] as int] == p);
                assert(parts2[lv[x as int]].contains(x as int as usize));
            }
            if parts2[p].contains(x) {
                let i = choose|i: int| 0 <= i < parts2[p].len() && parts2[p][i] == x;
                assert(lv[parts2[p][i] as int] == p);
                assert(parts1[lv[x as int]].contains(x as int as usize));
            }
        }
        lemma_increasing_same(parts1[p], parts2[p]);
    }
    assert(parts1 =~= parts2);
}

/// The partition plan of a compiled graph is determined by the graph: two
/// plans that each group the nodes by a valid level assignment are the same.
pub proof fn lemma_plan_determined(
    c: CompiledView,
    lv1: Seq<int>,
    parts1: Seq<Seq<usize>>,
    lv2: Seq<int>,
    parts2: Seq<Seq<usize>>,
)
    requires
        compiled_wf(c),
        c.nodes.len() <= usize::MAX,
        levels_ok(c, lv1),
        partitions_by(parts1, lv1),
        levels_ok(c, lv2),
        partitions_by(parts2, lv2),
    ensures
        parts1 == parts2,
{
    lemma_levels_unique(c, lv1, lv2);
    lemma_partitions_unique(lv1, parts1, parts2);
}

/// How many workers a request for `workers` gets: clamped to 1..=MAX_WORKERS.
pub open spec fn worker_count(workers: usize) -> usize {
    if workers < 1 {
        1
    } else if workers > MAX_WORKERS {
        MAX_WORKERS
    } else {
        workers
    }
}

pub struct Scheduler {
    workers: Vec<Worker>,
    plan: Plan,
}

impl Scheduler {
    /// Worker ids, in order.
    pub closed spec fn worker_ids(&self) -> Seq<usize> {
        self.workers@.map_values(|w: Worker| w.id)
    }

    pub closed spec fn spec_plan(&self) -> Plan {
        self.plan
    }

    /// Holds between 1 and `MAX_WORKERS` workers, numbered from 0.
    pub fn new(workers: usize, plan: Plan) -> (r: Self)
        ensures
            r.worker_ids() == Seq::new(worker_count(workers) as nat, |i: int| i as usize),
            r.spec_plan() == plan,
    {
        let count = if workers < 1 {
            1
        } else if workers > MAX_WORKERS {
            MAX_WORKERS
        } else {
            workers
        };
        let mut ws: Vec<Worker> = Vec::new();
        let mut id: usize = 0;
        while id < count
            invariant
                id <= count,
                ws@.len() == id,
                forall|i: int| 0 <= i < id ==> (#[trigger] ws@[i]).id == i,
            decreases count - id,
        {
            ws.push(Worker { id });
            id = id + 1;
        }
        let r = Self { workers: ws, plan };
        assert(r.worker_ids() =~= Seq::new(count as nat, |i: int| i as usize));
        r
    }

    pub fn workers(&self) -> (r: &[Worker])
        ensures
            r@.map_values(|w: Worker| w.spec_id()) == self.worker_ids(),
    {
        let r = self.workers.as_slice();
        assert(r@.map_values(|w: Worker| w.spec_id()) =~= self.worker_ids());
        r
    }

    pub fn plan(&self) -> (r: &Plan)
        ensures
            *r == self.spec_plan(),
    {
        &self.plan
    }
}

} // verus!
