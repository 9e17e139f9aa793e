//! The graph patch resolver.
//!
//! Given a fully resolved dependency graph — nodes with identity, version
//! and source location, edges carrying presence flags for the normal,
//! build and dev kinds — [`collect_graph_records`] walks the graph from
//! the workspace roots, following only edges that affect the built
//! artifact (normal or build), tolerates cycles, and lists one
//! [`DirectInput`] record per distinct `(package, source)` pair, so a
//! decision is consulted exactly once per pair. [`build_override_output`]
//! then turns the decided outcomes into a consolidated override section
//! grouped by source key.

use vstd::prelude::*;
use vstd::set_lib::lemma_int_range;
use vstd::set_lib::lemma_len_subset;

use crate::source::{DirectInput, DirectSource, InputV, Outcome, OutcomeV, SourceV};
use crate::util::vec_push_dv;

verus! {

/// How a git source is pinned.
#[derive(Debug)]
pub enum GitPin {
    Unpinned,
    Rev(String),
    Tag(String),
    Branch(String),
}

/// Mathematical image of a [`GitPin`].
pub enum GitPinV {
    Unpinned,
    Rev(Seq<char>),
    Tag(Seq<char>),
    Branch(Seq<char>),
}

impl View for GitPin {
    type V = GitPinV;

    open spec fn view(&self) -> GitPinV {
        match self {
            GitPin::Unpinned => GitPinV::Unpinned,
            GitPin::Rev(s) => GitPinV::Rev(s@),
            GitPin::Tag(s) => GitPinV::Tag(s@),
            GitPin::Branch(s) => GitPinV::Branch(s@),
        }
    }
}

/// Where a resolved package comes from: a registry (by URL), a git
/// repository (with its pin), a local directory, or something the
/// resolver does not classify.
#[derive(Debug)]
pub enum PkgSource {
    Registry { url: String },
    Git { url: String, pin: GitPin },
    LocalPath { path: String },
    Other,
}

/// Mathematical image of a [`PkgSource`].
pub enum PkgSourceV {
    Registry { url: Seq<char> },
    Git { url: Seq<char>, pin: GitPinV },
    LocalPath { path: Seq<char> },
    Other,
}

impl View for PkgSource {
    type V = PkgSourceV;

    open spec fn view(&self) -> PkgSourceV {
        match self {
            PkgSource::Registry { url } => PkgSourceV::Registry { url: url@ },
            PkgSource::Git { url, pin } => PkgSourceV::Git { url: url@, pin: pin@ },
            PkgSource::LocalPath { path } => PkgSourceV::LocalPath { path: path@ },
            PkgSource::Other => PkgSourceV::Other,
        }
    }
}

/// One outgoing dependency edge: the target node's index and the presence
/// flags of the three dependency kinds.
#[derive(Debug)]
pub struct PkgLink {
    pub to: usize,
    pub normal: bool,
    pub build: bool,
    pub dev: bool,
}

/// Mathematical image of a [`PkgLink`].
#[verifier::ext_equal]
pub struct PkgLinkV {
    pub to: int,
    pub normal: bool,
    pub build: bool,
    pub dev: bool,
}

impl View for PkgLink {
    type V = PkgLinkV;

    open spec fn view(&self) -> PkgLinkV {
        PkgLinkV { to: self.to as int, normal: self.normal, build: self.build, dev: self.dev }
    }
}

impl DeepView for PkgLink {
    type V = PkgLinkV;

    open spec fn deep_view(&self) -> PkgLinkV {
        self@
    }
}

/// One resolved package.
#[derive(Debug)]
pub struct PkgNode {
    pub name: String,
    pub version: String,
    pub source: PkgSource,
    pub links: Vec<PkgLink>,
}

/// Mathematical image of a [`PkgNode`].
#[verifier::ext_equal]
pub struct PkgNodeV {
    pub name: Seq<char>,
    pub version: Seq<char>,
    pub source: PkgSourceV,
    pub links: Seq<PkgLinkV>,
}

impl View for PkgNode {
    type V = PkgNodeV;

    open spec fn view(&self) -> PkgNodeV {
        PkgNodeV {
            name: self.name@,
            version: self.version@,
            source: self.source@,
            links: self.links.deep_view(),
        }
    }
}

impl DeepView for PkgNode {
    type V = PkgNodeV;

    open spec fn deep_view(&self) -> PkgNodeV {
        self@
    }
}

/// A resolved dependency graph: nodes indexed by position, and the indices
/// of the workspace roots.
#[derive(Debug)]
pub struct PkgGraph {
    pub nodes: Vec<PkgNode>,
    pub roots: Vec<usize>,
}

/// Mathematical image of a [`PkgGraph`].
#[verifier::ext_equal]
pub struct PkgGraphV {
    pub nodes: Seq<PkgNodeV>,
    pub roots: Seq<int>,
}

impl View for PkgGraph {
    type V = PkgGraphV;

    open spec fn view(&self) -> PkgGraphV {
        PkgGraphV {
            nodes: self.nodes.deep_view(),
            roots: Seq::new(self.roots@.len(), |i: int| self.roots@[i] as int),
        }
    }
}

impl PkgGraph {
    /// Every root and every edge target is a valid node index.
    pub open spec fn wf(&self) -> bool {
        let g = self@;
        &&& forall|k: int| 0 <= k < g.roots.len() ==> 0 <= #[trigger] g.roots[k] < g.nodes.len()
        &&& forall|a: int, j: int|
            0 <= a < g.nodes.len() && 0 <= j < g.nodes[a].links.len() ==> 0 <= (
            #[trigger] g.nodes[a].links[j]).to < g.nodes.len()
    }
}

/// Whether an edge affects the built artifact: dev-only edges do not.
pub open spec fn qualifying(l: PkgLinkV) -> bool {
    l.normal || l.build
}

/// The source descriptor of a resolved package, as the override section
/// speaks of it: always its resolved version, plus its registry URL, git
/// location with pin, or local path.
pub open spec fn node_descriptor_v(n: PkgNodeV) -> SourceV {
    SourceV {
        version: Some(n.version),
        registry: match n.source {
            PkgSourceV::Registry { url } => Some(url),
            _ => None,
        },
        path: match n.source {
            PkgSourceV::LocalPath { path } => Some(path),
            _ => None,
        },
        git: match n.source {
            PkgSourceV::Git { url, .. } => Some(url),
            _ => None,
        },
        rev: match n.source {
            PkgSourceV::Git { pin: GitPinV::Rev(r), .. } => Some(r),
            _ => None,
        },
        tag: match n.source {
            PkgSourceV::Git { pin: GitPinV::Tag(t), .. } => Some(t),
            _ => None,
        },
        branch: match n.source {
            PkgSourceV::Git { pin: GitPinV::Branch(b), .. } => Some(b),
            _ => None,
        },
        workspace: None,
    }
}

/// The record the decision receives for a resolved package: the graph has
/// no backup concept, so the current and the original source coincide,
/// and the graph knows no aliases, so the name is the package identity.
pub open spec fn graph_record_v(n: PkgNodeV) -> InputV {
    let d = node_descriptor_v(n);
    InputV { name: n.name, package: n.name, source: d, original_source: d }
}

/// Whether `b` is the target of a qualifying edge out of `a`.
pub open spec fn has_edge(g: PkgGraphV, a: int, b: int) -> bool {
    exists|j: int|
        0 <= j < g.nodes[a].links.len() && (#[trigger] g.nodes[a].links[j]).to == b && qualifying(
            g.nodes[a].links[j],
        )
}

/// A walk through the graph: it starts at a root and follows qualifying
/// edges.
pub open spec fn is_walk(g: PkgGraphV, p: Seq<int>) -> bool {
    &&& p.len() > 0
    &&& forall|k: int| 0 <= k < p.len() ==> 0 <= #[trigger] p[k] < g.nodes.len()
    &&& g.roots.contains(p[0])
    &&& forall|k: int| 0 <= k < p.len() - 1 ==> has_edge(g, #[trigger] p[k], p[k + 1])
}

/// A node is reachable when some walk ends at it.
pub open spec fn reachable(g: PkgGraphV, a: int) -> bool {
    exists|p: Seq<int>| is_walk(g, p) && p.last() == a
}

/// Whether a record is the record of the target of some qualifying edge
/// out of a reachable node.
pub open spec fn record_from_edge(g: PkgGraphV, rec: InputV) -> bool {
    exists|a: int, j: int|
        reachable(g, a) && 0 <= a < g.nodes.len() && 0 <= j < g.nodes[a].links.len()
            && qualifying(#[trigger] g.nodes[a].links[j]) && rec == graph_record_v(
            g.nodes[g.nodes[a].links[j].to],
        )
}

/// A set that contains every root and is closed under qualifying edges
/// contains every reachable node.
proof fn lemma_walk_closed(g: PkgGraphV, s: Set<int>, p: Seq<int>)
    requires
        forall|k: int| 0 <= k < g.roots.len() ==> s.contains(#[trigger] g.roots[k]),
        forall|a: int, b: int| s.contains(a) && 0 <= a < g.nodes.len() && has_edge(g, a, b) ==> s.contains(b),
        is_walk(g, p),
    ensures
        s.contains(p.last()),
    decreases p.len(),
{
    if p.len() == 1 {
        let k = choose|k: int| 0 <= k < g.roots.len() && g.roots[k] == p[0];
        assert(s.contains(g.roots[k]));
    } else {
        let q = p.drop_last();
        assert(is_walk(g, q)) by {
            assert(forall|k: int| 0 <= k < q.len() ==> 0 <= #[trigger] q[k] < g.nodes.len());
            assert(q[0] == p[0]);
            assert forall|k: int| 0 <= k < q.len() - 1 implies has_edge(g, #[trigger] q[k], q[k + 1]) by {
                assert(has_edge(g, p[k], p[k + 1]));
            }
        }
        lemma_walk_closed(g, s, q);
        assert(has_edge(g, p[p.len() - 2], p[p.len() - 1]));
    }
}

/// Extending a walk by one qualifying edge keeps it a walk.
proof fn lemma_walk_extend(g: PkgGraphV, p: Seq<int>, b: int)
    requires
        is_walk(g, p),
        has_edge(g, p.last(), b),
        0 <= b < g.nodes.len(),
    ensures
        is_walk(g, p.push(b)),
        p.push(b).last() == b,
{
    let q = p.push(b);
    assert(q[0] == p[0]);
    assert forall|k: int| 0 <= k < q.len() - 1 implies has_edge(g, #[trigger] q[k], q[k + 1]) by {
        if k < p.len() - 1 {
            assert(has_edge(g, p[k], p[k + 1]));
        } else {
            assert(q[k] == p.last());
        }
    }
}

/// The indices marked in a visited map.
pub open spec fn marked_set(s: Seq<bool>) -> Set<int> {
    Set::new(|i: int| 0 <= i < s.len() && s[i])
}

/// A marked set over `n` slots is finite and holds at most `n` indices.
proof fn lemma_marked_bound(s: Seq<bool>)
    ensures
        marked_set(s).finite(),
        marked_set(s).len() <= s.len(),
{
    lemma_int_range(0, s.len() as int);
    assert(marked_set(s).subset_of(vstd::set_lib::set_int_range(0, s.len() as int)));
    lemma_len_subset(marked_set(s), vstd::set_lib::set_int_range(0, s.len() as int));
}

/// Whether a record list already holds a record.
fn records_contain(out: &Vec<DirectInput>, rec: &DirectInput) -> (r: bool)
    ensures
        r == out.deep_view().contains(rec@),
{
    let mut i: usize = 0;
    while i < out.len()
        invariant
            i <= out@.len(),
            out.deep_view().len() == out@.len(),
            forall|k: int| 0 <= k < i ==> out.deep_view()[k] != rec@,
        decreases out@.len() - i,
    {
        assert(out.deep_view()[i as int] == out@[i as int]@);
        if out[i].eq(rec) {
            assert(out.deep_view().contains(rec@));
            return true;
        }
        i += 1;
    }
    assert(!out.deep_view().contains(rec@));
    false
}

/// The record for one resolved package.
fn node_record(n: &PkgNode) -> (r: DirectInput)
    ensures
        r@ == graph_record_v(n@),
{
    let descriptor = DirectSource {
        version: Some(n.version.clone()),
        registry: match &n.source {
            PkgSource::Registry { url } => Some(url.clone()),
            _ => None,
        },
        path: match &n.source {
            PkgSource::LocalPath { path } => Some(path.clone()),
            _ => None,
        },
        git: match &n.source {
            PkgSource::Git { url, .. } => Some(url.clone()),
            _ => None,
        },
        rev: match &n.source {
            PkgSource::Git { pin: GitPin::Rev(r), .. } => Some(r.clone()),
            _ => None,
        },
        tag: match &n.source {
            PkgSource::Git { pin: GitPin::Tag(t), .. } => Some(t.clone()),
            _ => None,
        },
        branch: match &n.source {
            PkgSource::Git { pin: GitPin::Branch(b), .. } => Some(b.clone()),
            _ => None,
        },
        workspace: None,
    };
    DirectInput {
        name: n.name.clone(),
        package: n.name.clone(),
        source: descriptor.clone(),
        original_source: descriptor,
    }
}

/// Handle every qualifying edge out of one reachable node: append the
/// target's record unless an equal record is already listed, and queue
/// the target for the traversal.
fn visit_node_edges(g: &PkgGraph, id: usize, queue: &mut Vec<usize>, out: &mut Vec<DirectInput>)
    requires
        g.wf(),
        id < g@.nodes.len(),
        reachable(g@, id as int),
        forall|k: int, l: int|
            0 <= k < l < old(out).deep_view().len() ==> old(out).deep_view()[k] != old(out).deep_view()[l],
        forall|k: int|
            0 <= k < old(out).deep_view().len() ==> record_from_edge(
                g@,
                #[trigger] old(out).deep_view()[k],
            ),
    ensures
        old(queue)@.len() <= final(queue)@.len(),
        forall|k: int| 0 <= k < old(queue)@.len() ==> final(queue)@[k] == old(queue)@[k],
        forall|k: int|
            old(queue)@.len() <= k < final(queue)@.len()
                ==> ((#[trigger] final(queue)@[k]) as int) < g@.nodes.len()
                && reachable(g@, final(queue)@[k] as int),
        old(out).deep_view().len() <= final(out).deep_view().len(),
        forall|k: int|
            0 <= k < old(out).deep_view().len() ==> final(out).deep_view()[k] == old(out).deep_view()[k],
        forall|k: int, l: int|
            0 <= k < l < final(out).deep_view().len() ==> final(out).deep_view()[k] != final(out).deep_view()[l],
        forall|k: int|
            0 <= k < final(out).deep_view().len() ==> record_from_edge(
                g@,
                #[trigger] final(out).deep_view()[k],
            ),
        forall|j: int|
            0 <= j < g@.nodes[id as int].links.len() && qualifying(
                #[trigger] g@.nodes[id as int].links[j],
            ) ==> final(out).deep_view().contains(
                graph_record_v(g@.nodes[g@.nodes[id as int].links[j].to]),
            ) && final(queue)@.contains(g@.nodes[id as int].links[j].to as usize),
{
    let ghost gV = g@;
    let node = &g.nodes[id];
    assert(node@ == gV.nodes[id as int]);
    let ghost q0 = queue@;
    let ghost o0 = out.deep_view();
    let mut j: usize = 0;
    while j < node.links.len()
        invariant
            g.wf(),
            gV == g@,
            id < gV.nodes.len(),
            reachable(gV, id as int),
            node@ == gV.nodes[id as int],
            node@.links.len() == node.links@.len(),
            j <= node.links@.len(),
            q0.len() <= queue@.len(),
            forall|k: int| 0 <= k < q0.len() ==> queue@[k] == q0[k],
            forall|k: int|
                q0.len() <= k < queue@.len() ==> ((#[trigger] queue@[k]) as int)
                    < gV.nodes.len() && reachable(gV, queue@[k] as int),
            o0.len() <= out.deep_view().len(),
            forall|k: int| 0 <= k < o0.len() ==> out.deep_view()[k] == o0[k],
            forall|k: int, l: int|
                0 <= k < l < out.deep_view().len() ==> out.deep_view()[k] != out.deep_view()[l],
            forall|k: int|
                0 <= k < out.deep_view().len() ==> record_from_edge(
                    gV,
                    #[trigger] out.deep_view()[k],
                ),
            forall|j2: int|
                0 <= j2 < j && qualifying(#[trigger] gV.nodes[id as int].links[j2])
                    ==> out.deep_view().contains(
                    graph_record_v(gV.nodes[gV.nodes[id as int].links[j2].to]),
                ) && queue@.contains(gV.nodes[id as int].links[j2].to as usize),
        decreases node.links@.len() - j,
    {
        let ghost q_pre = queue@;
        let ghost o_pre = out.deep_view();
        let link = &node.links[j];
        assert(link@ == gV.nodes[id as int].links[j as int]);
        if link.normal || link.build {
            assert(qualifying(gV.nodes[id as int].links[j as int]));
            let target = &g.nodes[link.to];
            assert(target@ == gV.nodes[link@.to]);
            proof {
                let p0 = choose|p: Seq<int>| is_walk(gV, p) && p.last() == id as int;
                assert(is_walk(gV, p0) && p0.last() == id as int);
                assert(has_edge(gV, id as int, link@.to)) by {
                    assert((#[trigger] gV.nodes[id as int].links[j as int]).to == link@.to);
                }
                lemma_walk_extend(gV, p0, link@.to);
                assert(is_walk(gV, p0.push(link@.to)));
                assert(reachable(gV, link@.to));
                assert(record_from_edge(gV, graph_record_v(gV.nodes[link@.to])));
            }
            let rec = node_record(target);
            if !records_contain(out, &rec) {
                vec_push_dv(out, rec);
                assert(out.deep_view()[out.deep_view().len() - 1] == graph_record_v(
                    gV.nodes[link@.to],
                ));
            }
            assert(out.deep_view().contains(graph_record_v(gV.nodes[link@.to]))) by {
                if o_pre.contains(graph_record_v(gV.nodes[link@.to])) {
                    let ko = choose|ko: int|
                        0 <= ko < o_pre.len() && o_pre[ko] == graph_record_v(gV.nodes[link@.to]);
                    assert(out.deep_view()[ko] == graph_record_v(gV.nodes[link@.to]));
                }
            }
            queue.push(link.to);
            proof {
                assert forall|j2: int|
                    0 <= j2 < j + 1 && qualifying(
                        #[trigger] gV.nodes[id as int].links[j2],
                    ) implies out.deep_view().contains(
                    graph_record_v(gV.nodes[gV.nodes[id as int].links[j2].to]),
                ) && queue@.contains(gV.nodes[id as int].links[j2].to as usize) by {
                    let t = gV.nodes[id as int].links[j2].to as usize;
                    let rec2 = graph_record_v(gV.nodes[gV.nodes[id as int].links[j2].to]);
                    if j2 == j {
                        assert(queue@[queue@.len() - 1] == t);
                    } else {
                        assert(q_pre.contains(t));
                        let ki = choose|ki: int| 0 <= ki < q_pre.len() && q_pre[ki] == t;
                        assert(queue@[ki] == t);
                        assert(o_pre.contains(rec2));
                        let ko = choose|ko: int| 0 <= ko < o_pre.len() && o_pre[ko] == rec2;
                        assert(out.deep_view()[ko] == rec2);
                    }
                }
            }
        }
        j += 1;
    }
}

/// Walk the graph from the workspace roots, following qualifying edges
/// only, and list one record per distinct `(package, source)` pair found
/// on an edge target. The traversal tolerates cycles: a visited map keyed
/// by node index guarantees that each node's edges are examined once, so
/// the walk terminates on any graph.
///
/// The list holds no duplicate record, so a decision driven by it is
/// consulted exactly once per pair; and it holds exactly the records of
/// the targets of qualifying edges out of reachable nodes, in the order
/// the traversal first meets them.
pub fn collect_graph_records(g: &PkgGraph) -> (r: Vec<DirectInput>)
    requires
        g.wf(),
    ensures
        forall|k: int, l: int|
            0 <= k < l < r.deep_view().len() ==> r.deep_view()[k] != r.deep_view()[l],
        forall|k: int|
            0 <= k < r.deep_view().len() ==> record_from_edge(g@, #[trigger] r.deep_view()[k]),
        forall|a: int, j: int|
            reachable(g@, a) && 0 <= a < g@.nodes.len() && 0 <= j < g@.nodes[a].links.len()
                && qualifying(#[trigger] g@.nodes[a].links[j]) ==> r.deep_view().contains(
                graph_record_v(g@.nodes[g@.nodes[a].links[j].to]),
            ),
{
    let ghost gV = g@;
    let n = g.nodes.len();
    assert(gV.nodes.len() == n);
    let mut visited: Vec<bool> = Vec::new();
    let mut k: usize = 0;
    while k < n
        invariant
            k <= n,
            visited@.len() == k,
            forall|i: int| 0 <= i < k ==> !visited@[i],
        decreases n - k,
    {
        visited.push(false);
        k += 1;
    }
    let mut queue: Vec<usize> = Vec::new();
    let mut k: usize = 0;
    while k < g.roots.len()
        invariant
            g.wf(),
            gV == g@,
            k <= g.roots@.len(),
            queue@.len() == k,
            forall|i: int| 0 <= i < k ==> queue@[i] == g.roots@[i],
        decreases g.roots@.len() - k,
    {
        queue.push(g.roots[k]);
        k += 1;
    }
    proof {
        lemma_marked_bound(visited@);
        assert forall|i: int| 0 <= i < queue@.len() implies ((#[trigger] queue@[i]) as int) < n
            && reachable(gV, queue@[i] as int) by {
            assert(gV.roots[i] == g.roots@[i] as int);
            let p = seq![gV.roots[i]];
            assert(gV.roots.contains(p[0])) by {
                assert(gV.roots[i] == p[0]);
            }
            assert(is_walk(gV, p));
            assert(p.last() == gV.roots[i]);
            assert(reachable(gV, gV.roots[i]));
        }
        assert forall|i: int|
            0 <= i < gV.roots.len() implies queue@.contains(#[trigger] gV.roots[i] as usize) by {
            assert(queue@[i] == g.roots@[i]);
            assert(gV.roots[i] == g.roots@[i] as int);
        }
    }
    let mut out: Vec<DirectInput> = Vec::new();
    let mut qi: usize = 0;
    while qi < queue.len()
        invariant
            g.wf(),
            gV == g@,
            n == gV.nodes.len(),
            visited@.len() == n,
            qi <= queue@.len(),
            marked_set(visited@).finite(),
            marked_set(visited@).len() <= n,
            forall|i: int| 0 <= i < queue@.len() ==> ((#[trigger] queue@[i]) as int) < n,
            forall|i: int| 0 <= i < queue@.len() ==> reachable(gV, #[trigger] queue@[i] as int),
            forall|i: int| 0 <= i < n && #[trigger] visited@[i] ==> reachable(gV, i),
            forall|i: int| 0 <= i < qi ==> visited@[queue@[i] as int],
            forall|i: int|
                0 <= i < gV.roots.len() ==> queue@.contains(#[trigger] gV.roots[i] as usize),
            forall|a: int, j: int|
                0 <= a < n && #[trigger] visited@[a] && 0 <= j < gV.nodes[a].links.len()
                    && qualifying(#[trigger] gV.nodes[a].links[j]) ==> out.deep_view().contains(
                    graph_record_v(gV.nodes[gV.nodes[a].links[j].to]),
                ) && queue@.contains(gV.nodes[a].links[j].to as usize),
            forall|k2: int, l: int|
                0 <= k2 < l < out.deep_view().len() ==> out.deep_view()[k2] != out.deep_view()[l],
            forall|k2: int|
                0 <= k2 < out.deep_view().len() ==> record_from_edge(
                    gV,
                    #[trigger] out.deep_view()[k2],
                ),
        decreases n - marked_set(visited@).len(), queue@.len() - qi,
    {
        let id = queue[qi];
        qi += 1;
        if !visited[id] {
            let ghost marked0 = marked_set(visited@);
            let ghost q_pre = queue@;
            let ghost o_pre = out.deep_view();
            visited.set(id, true);
            proof {
                assert(marked_set(visited@) =~= marked0.insert(id as int));
                assert(marked_set(visited@).len() == marked0.len() + 1);
                lemma_marked_bound(visited@);
            }
            visit_node_edges(g, id, &mut queue, &mut out);
            proof {
                assert forall|a: int, j: int|
                    0 <= a < n && #[trigger] visited@[a] && 0 <= j < gV.nodes[a].links.len()
                        && qualifying(#[trigger] gV.nodes[a].links[j]) implies out
                    .deep_view()
                    .contains(graph_record_v(gV.nodes[gV.nodes[a].links[j].to])) && queue@
                    .contains(gV.nodes[a].links[j].to as usize) by {
                    let t = gV.nodes[a].links[j].to as usize;
                    let rec2 = graph_record_v(gV.nodes[gV.nodes[a].links[j].to]);
                    if a == id {
                    } else {
                        assert(q_pre.contains(t));
                        let ki = choose|ki: int| 0 <= ki < q_pre.len() && q_pre[ki] == t;
                        assert(queue@[ki] == t);
                        assert(o_pre.contains(rec2));
                        let ko = choose|ko: int| 0 <= ko < o_pre.len() && o_pre[ko] == rec2;
                        assert(out.deep_view()[ko] == rec2);
                    }
                }
                assert forall|i: int|
                    0 <= i < gV.roots.len() implies queue@.contains(
                    #[trigger] gV.roots[i] as usize,
                ) by {
                    let ki = choose|ki: int|
                        0 <= ki < q_pre.len() && q_pre[ki] == gV.roots[i] as usize;
                    assert(queue@[ki] == gV.roots[i] as usize);
                }
                assert forall|i: int| 0 <= i < qi implies visited@[queue@[i] as int] by {
                    assert(queue@[i] == q_pre[i]);
                }
            }
        }
    }
    proof {
        let s = marked_set(visited@);
        assert forall|i: int| 0 <= i < gV.roots.len() implies s.contains(#[trigger] gV.roots[i]) by {
            assert(queue@.contains(gV.roots[i] as usize));
            let k2 = choose|k2: int| 0 <= k2 < queue@.len() && queue@[k2] == gV.roots[i] as usize;
            assert(visited@[queue@[k2] as int]);
        }
        assert forall|a: int, b: int|
            s.contains(a) && 0 <= a < gV.nodes.len() && has_edge(gV, a, b) implies s.contains(
            b,
        ) by {
            let j = choose|j: int|
                0 <= j < gV.nodes[a].links.len() && (#[trigger] gV.nodes[a].links[j]).to == b
                    && qualifying(gV.nodes[a].links[j]);
            assert(queue@.contains(gV.nodes[a].links[j].to as usize));
            let k2 = choose|k2: int|
                0 <= k2 < queue@.len() && queue@[k2] == gV.nodes[a].links[j].to as usize;
            assert(visited@[queue@[k2] as int]);
        }
        assert forall|a: int, j: int|
            reachable(gV, a) && 0 <= a < gV.nodes.len() && 0 <= j < gV.nodes[a].links.len()
                && qualifying(#[trigger] gV.nodes[a].links[j]) implies out.deep_view().contains(
            graph_record_v(gV.nodes[gV.nodes[a].links[j].to]),
        ) by {
            let p = choose|p: Seq<int>| is_walk(gV, p) && p.last() == a;
            lemma_walk_closed(gV, s, p);
            assert(visited@[a]);
        }
    }
    out
}

/// One entry of an override group: the package name and its replacement
/// source.
#[derive(Debug)]
pub struct OverrideEntry {
    pub name: String,
    pub source: DirectSource,
}

/// Mathematical image of an [`OverrideEntry`].
#[verifier::ext_equal]
pub struct OverrideEntryV {
    pub name: Seq<char>,
    pub source: SourceV,
}

impl View for OverrideEntry {
    type V = OverrideEntryV;

    open spec fn view(&self) -> OverrideEntryV {
        OverrideEntryV { name: self.name@, source: self.source@ }
    }
}

impl DeepView for OverrideEntry {
    type V = OverrideEntryV;

    open spec fn deep_view(&self) -> OverrideEntryV {
        self@
    }
}

/// One group of the override section: a source key — the default
/// registry's alias or a git URL — and the overrides under it.
#[derive(Debug)]
pub struct OverrideGroup {
    pub key: String,
    pub entries: Vec<OverrideEntry>,
}

/// Mathematical image of an [`OverrideGroup`].
#[verifier::ext_equal]
pub struct GroupV {
    pub key: Seq<char>,
    pub entries: Seq<OverrideEntryV>,
}

impl View for OverrideGroup {
    type V = GroupV;

    open spec fn view(&self) -> GroupV {
        GroupV { key: self.key@, entries: self.entries.deep_view() }
    }
}

impl DeepView for OverrideGroup {
    type V = GroupV;

    open spec fn deep_view(&self) -> GroupV {
        self@
    }
}

/// The consolidated override section, and the records that were skipped
/// because a local path cannot be expressed in it.
#[derive(Debug)]
pub struct OverrideOutput {
    pub groups: Vec<OverrideGroup>,
    pub skipped: Vec<DirectInput>,
}

/// Why an override section cannot be built: a custom registry cannot be
/// addressed by it at all, and a source with neither registry, git
/// location nor path is not classifiable. Each error names the package.
#[derive(Debug)]
pub enum SoftPatchError {
    CustomRegistry { package: String, registry: String },
    UnsupportedSource { package: String },
}

/// Mathematical image of a [`SoftPatchError`].
#[verifier::ext_equal]
pub enum SoftErrV {
    CustomRegistry { package: Seq<char>, registry: Seq<char> },
    UnsupportedSource { package: Seq<char> },
}

impl View for SoftPatchError {
    type V = SoftErrV;

    open spec fn view(&self) -> SoftErrV {
        match self {
            SoftPatchError::CustomRegistry { package, registry } => SoftErrV::CustomRegistry {
                package: package@,
                registry: registry@,
            },
            SoftPatchError::UnsupportedSource { package } => SoftErrV::UnsupportedSource {
                package: package@,
            },
        }
    }
}

/// The URL of the default registry, whose overrides go under the
/// `crates-io` alias.
pub open spec fn default_registry_url() -> Seq<char> {
    "https://github.com/rust-lang/crates.io-index"@
}

/// How one source is placed in the override section.
pub enum GroupDecisionV {
    Grouped(Seq<char>),
    SkippedPath,
    FailCustom,
    FailUnsupported,
}

/// Classify a source for the override section: the default registry goes
/// under its alias, any other registry is unsupported, a git source goes
/// under its URL, a local path cannot be expressed and is skipped, and
/// anything else is unclassifiable.
pub open spec fn group_decision(s: SourceV) -> GroupDecisionV {
    match s.registry {
        Some(url) => if url == default_registry_url() {
            GroupDecisionV::Grouped("crates-io"@)
        } else {
            GroupDecisionV::FailCustom
        },
        None => match s.git {
            Some(url) => GroupDecisionV::Grouped(url),
            None => match s.path {
                Some(_) => GroupDecisionV::SkippedPath,
                None => GroupDecisionV::FailUnsupported,
            },
        },
    }
}

/// Append one override to the group holding `key`, or open a new group
/// at the end.
pub open spec fn add_to_groups(
    gs: Seq<GroupV>,
    key: Seq<char>,
    name: Seq<char>,
    src: SourceV,
) -> Seq<GroupV>
    decreases gs.len(),
{
    if gs.len() == 0 {
        seq![GroupV { key, entries: seq![OverrideEntryV { name, source: src }] }]
    } else if gs[0].key == key {
        seq![
            GroupV { key: gs[0].key, entries: gs[0].entries.push(OverrideEntryV { name, source: src }) },
        ] + gs.drop_first()
    } else {
        seq![gs[0]] + add_to_groups(gs.drop_first(), key, name, src)
    }
}

/// Appending to the first group holding the key is a pointwise update.
proof fn lemma_add_to_groups_at(gs: Seq<GroupV>, key: Seq<char>, name: Seq<char>, src: SourceV, i: int)
    requires
        0 <= i < gs.len(),
        gs[i].key == key,
        forall|k: int| 0 <= k < i ==> (#[trigger] gs[k]).key != key,
    ensures
        add_to_groups(gs, key, name, src) == gs.update(
            i,
            GroupV {
                key: gs[i].key,
                entries: gs[i].entries.push(OverrideEntryV { name, source: src }),
            },
        ),
    decreases gs.len(),
{
    if i == 0 {
        assert(add_to_groups(gs, key, name, src) =~= gs.update(
            0,
            GroupV {
                key: gs[0].key,
                entries: gs[0].entries.push(OverrideEntryV { name, source: src }),
            },
        ));
    } else {
        assert(gs[0].key != key);
        assert forall|k: int| 0 <= k < i - 1 implies (#[trigger] gs.drop_first()[k]).key
            != key by {
            assert(gs.drop_first()[k] == gs[k + 1]);
        }
        assert(gs.drop_first()[i - 1] == gs[i]);
        lemma_add_to_groups_at(gs.drop_first(), key, name, src, i - 1);
        assert(add_to_groups(gs, key, name, src) =~= gs.update(
            i,
            GroupV {
                key: gs[i].key,
                entries: gs[i].entries.push(OverrideEntryV { name, source: src }),
            },
        ));
    }
}

/// When no group holds the key, a new group is opened at the end.
proof fn lemma_add_to_groups_absent(gs: Seq<GroupV>, key: Seq<char>, name: Seq<char>, src: SourceV)
    requires
        forall|k: int| 0 <= k < gs.len() ==> (#[trigger] gs[k]).key != key,
    ensures
        add_to_groups(gs, key, name, src) == gs.push(
            GroupV { key, entries: seq![OverrideEntryV { name, source: src }] },
        ),
    decreases gs.len(),
{
    if gs.len() == 0 {
        assert(add_to_groups(gs, key, name, src) =~= gs.push(
            GroupV { key, entries: seq![OverrideEntryV { name, source: src }] },
        ));
    } else {
        assert forall|k: int| 0 <= k < gs.drop_first().len() implies (#[trigger] gs.drop_first()[
            k
        ]).key != key by {
            assert(gs.drop_first()[k] == gs[k + 1]);
        }
        lemma_add_to_groups_absent(gs.drop_first(), key, name, src);
        assert(add_to_groups(gs, key, name, src) =~= gs.push(
            GroupV { key, entries: seq![OverrideEntryV { name, source: src }] },
        ));
    }
}

/// The override section built from records and their outcomes, processed
/// from position `i` with the groups and skips gathered so far. Only an
/// outcome that truly replaces its record's source contributes; a custom
/// registry is fatal, an unclassifiable source too, and a local path is
/// skipped but remembered.
pub open spec fn build_groups(
    records: Seq<InputV>,
    outs: Seq<OutcomeV>,
    i: int,
    gs: Seq<GroupV>,
    skipped: Seq<InputV>,
) -> Result<(Seq<GroupV>, Seq<InputV>), SoftErrV>
    decreases records.len() - i,
{
    if i < 0 || i >= records.len() {
        Ok((gs, skipped))
    } else {
        let r = records[i];
        match outs[i] {
            OutcomeV::Unchanged => build_groups(records, outs, i + 1, gs, skipped),
            OutcomeV::Replace(s) => if s == r.source {
                build_groups(records, outs, i + 1, gs, skipped)
            } else {
                match group_decision(r.source) {
                    GroupDecisionV::Grouped(key) => build_groups(
                        records,
                        outs,
                        i + 1,
                        add_to_groups(gs, key, r.name, s),
                        skipped,
                    ),
                    GroupDecisionV::SkippedPath => build_groups(
                        records,
                        outs,
                        i + 1,
                        gs,
                        skipped.push(r),
                    ),
                    GroupDecisionV::FailCustom => Err(SoftErrV::CustomRegistry {
                        package: r.package,
                        registry: r.source.registry->0,
                    }),
                    GroupDecisionV::FailUnsupported => Err(SoftErrV::UnsupportedSource {
                        package: r.package,
                    }),
                }
            },
        }
    }
}

/// The index of the first group holding `key`, if any.
fn find_group(groups: &Vec<OverrideGroup>, key: &String) -> (r: Option<usize>)
    ensures
        match r {
            Some(i) => i < groups@.len() && groups@[i as int]@.key == key@ && (forall|k: int|
                0 <= k < i ==> (#[trigger] groups.deep_view()[k]).key != key@),
            None => forall|k: int|
                0 <= k < groups@.len() ==> (#[trigger] groups.deep_view()[k]).key != key@,
        },
{
    let mut i: usize = 0;
    while i < groups.len()
        invariant
            i <= groups@.len(),
            groups.deep_view().len() == groups@.len(),
            forall|k: int| 0 <= k < i ==> (#[trigger] groups.deep_view()[k]).key != key@,
        decreases groups@.len() - i,
    {
        assert(groups.deep_view()[i as int] == groups@[i as int]@);
        if groups[i].key.eq(key) {
            return Some(i);
        }
        i += 1;
    }
    None
}

/// Append one override, executably.
fn push_override(groups: &mut Vec<OverrideGroup>, key: String, name: String, source: DirectSource)
    ensures
        final(groups).deep_view() == add_to_groups(old(groups).deep_view(), key@, name@, source@),
{
    let ghost gs0 = groups.deep_view();
    match find_group(groups, &key) {
        Some(i) => {
            let mut entries: Vec<OverrideEntry> = Vec::new();
            let grp = &groups[i];
            let mut k: usize = 0;
            while k < grp.entries.len()
                invariant
                    k <= grp.entries@.len(),
                    entries.deep_view().len() == k,
                    forall|k2: int|
                        0 <= k2 < k ==> entries.deep_view()[k2] == grp.entries.deep_view()[k2],
                decreases grp.entries@.len() - k,
            {
                assert(grp.entries.deep_view()[k as int] == grp.entries@[k as int]@);
                let e = &grp.entries[k];
                vec_push_dv(
                    &mut entries,
                    OverrideEntry { name: e.name.clone(), source: e.source.clone() },
                );
                k += 1;
            }
            assert(entries.deep_view() =~= grp.entries.deep_view());
            vec_push_dv(&mut entries, OverrideEntry { name, source });
            let newg = OverrideGroup { key: grp.key.clone(), entries };
            proof {
                lemma_add_to_groups_at(gs0, key@, name@, source@, i as int);
            }
            crate::util::vec_set_dv(groups, i, newg);
        },
        None => {
            proof {
                lemma_add_to_groups_absent(gs0, key@, name@, source@);
            }
            let ghost nameV = name@;
            let ghost srcV = source@;
            let mut entries: Vec<OverrideEntry> = Vec::new();
            vec_push_dv(&mut entries, OverrideEntry { name, source });
            assert(entries.deep_view() =~= seq![OverrideEntryV { name: nameV, source: srcV }]);
            vec_push_dv(groups, OverrideGroup { key, entries });
        },
    }
}

/// Build the consolidated override section from the records and the
/// outcomes decided for them, one outcome per record, in order: the
/// executable form of [`build_groups`]. Fails on the first custom
/// registry or unclassifiable source; local-path records are returned in
/// `skipped` instead of aborting, since the section cannot address them.
pub fn build_override_output(records: &Vec<DirectInput>, outcomes: &Vec<Outcome>) -> (r: Result<
    OverrideOutput,
    SoftPatchError,
>)
    requires
        records@.len() == outcomes@.len(),
    ensures
        ({
            let r0 = build_groups(records.deep_view(), outcomes.deep_view(), 0, seq![], seq![]);
            match r {
                Ok(o) => r0 is Ok && o.groups.deep_view() == r0->Ok_0.0 && o.skipped.deep_view()
                    == r0->Ok_0.1,
                Err(e) => r0 is Err && e@ == r0->Err_0,
            }
        }),
{
    let ghost recV = records.deep_view();
    let ghost outV = outcomes.deep_view();
    let ghost target = build_groups(recV, outV, 0, seq![], seq![]);
    let crates_io = "https://github.com/rust-lang/crates.io-index".to_owned();
    let mut groups: Vec<OverrideGroup> = Vec::new();
    let mut skipped: Vec<DirectInput> = Vec::new();
    let mut i: usize = 0;
    proof {
        assert(groups.deep_view() =~= Seq::<GroupV>::empty());
        assert(skipped.deep_view() =~= Seq::<InputV>::empty());
    }
    while i < records.len()
        invariant
            i <= records@.len(),
            recV == records.deep_view(),
            outV == outcomes.deep_view(),
            recV.len() == records@.len(),
            records@.len() == outcomes@.len(),
            crates_io@ == default_registry_url(),
            target == build_groups(recV, outV, 0, seq![], seq![]),
            target == build_groups(recV, outV, i as int, groups.deep_view(), skipped.deep_view()),
        decreases records@.len() - i,
    {
        let ghost gs_pre = groups.deep_view();
        let ghost sk_pre = skipped.deep_view();
        let rec = &records[i];
        assert(rec@ == recV[i as int]);
        let out = &outcomes[i];
        assert(out@ == outV[i as int]);
        match out {
            Outcome::Unchanged => {},
            Outcome::Replace(s) => {
                if *s == rec.source {
                } else {
                    match &rec.source.registry {
                        Some(url) => {
                            if url.eq(&crates_io) {
                                push_override(
                                    &mut groups,
                                    "crates-io".to_owned(),
                                    rec.name.clone(),
                                    s.clone(),
                                );
                            } else {
                                assert(group_decision(recV[i as int].source)
                                    is FailCustom);
                                return Err(
                                    SoftPatchError::CustomRegistry {
                                        package: rec.package.clone(),
                                        registry: url.clone(),
                                    },
                                );
                            }
                        },
                        None => {
                            match &rec.source.git {
                                Some(url) => {
                                    push_override(
                                        &mut groups,
                                        url.clone(),
                                        rec.name.clone(),
                                        s.clone(),
                                    );
                                },
                                None => {
                                    if rec.source.path.is_some() {
                                        vec_push_dv(&mut skipped, rec.clone());
                                    } else {
                                        assert(group_decision(recV[i as int].source)
                                            is FailUnsupported);
                                        return Err(
                                            SoftPatchError::UnsupportedSource {
                                                package: rec.package.clone(),
                                            },
                                        );
                                    }
                                },
                            }
                        },
                    }
                }
            },
        }
        i += 1;
    }
    Ok(OverrideOutput { groups, skipped })
}

} // verus!
