//! Reference counting: how often a depth-first walk reaches each node.
//!
//! The walk counts a node every time it steps on it, so a node that can be
//! reached on several ways is counted once for each. The walk keeps the path
//! that it is on: in a graph where a node leads back to itself the count has
//! no end, and the walk reports the cycle instead of running on. A count
//! that passes `u32::MAX` stays there.

use crate::assoc::{begins_with, distinct_keys, has_key, key_index, keys_of, value_of};
use crate::counts::{
    map_entries, map_get_index, map_index_of, map_insert_full, map_len, map_new, map_value_at_mut,
};
use crate::lock::LockFile;
use crate::model::{resolve_edge, GraphError, GraphView, NodeView};
use crate::names::{contains_name, names_of};
use crate::progress::{left, lemma_left_push};
use indexmap::IndexMap;
use vstd::multiset::Multiset;
use vstd::prelude::*;

verus! {

/// How many nodes of `g` are not on the path `visited`.
pub open spec fn unvisited(g: GraphView, visited: Seq<Seq<char>>) -> nat {
    left(keys_of(g.nodes), visited)
}

/// Stepping onto a node of the graph that is not on the path leaves fewer
/// nodes off the path.
pub proof fn lemma_unvisited_push(g: GraphView, visited: Seq<Seq<char>>, id: Seq<char>)
    requires
        has_key(g.nodes, id),
        !visited.contains(id),
    ensures
        unvisited(g, visited.push(id)) < unvisited(g, visited),
{
    let i = key_index(g.nodes, id);
    assert(keys_of(g.nodes)[i] == id);
    lemma_left_push(keys_of(g.nodes), visited, id);
}

/// The nodes that the walk from `id` steps on, each as often as it is
/// reached, `visited` being the path that led here.
///
/// The walk steps on `id` and then, for each edge of `id` in order, on
/// everything that the walk from the edge's target steps on. It fails with
/// `DanglingReference` where the graph has no node `id`, with `CyclicGraph`
/// where `id` is on the path already, and with the error of the first edge
/// that cannot be resolved.
pub open spec fn visit(g: GraphView, id: Seq<char>, visited: Seq<Seq<char>>) -> Result<
    Multiset<Seq<char>>,
    GraphError,
>
    decreases unvisited(g, visited), 0nat, 0nat,
{
    if !has_key(g.nodes, id) {
        Err(GraphError::DanglingReference)
    } else if visited.contains(id) {
        Err(GraphError::CyclicGraph)
    } else {
        proof {
            lemma_unvisited_push(g, visited, id);
        }
        match visit_edges(g, g.node(id), 0, visited.push(id)) {
            Ok(below) => Ok(below.insert(id)),
            Err(e) => Err(e),
        }
    }
}

/// What the walks from the targets of `edges[from..]` step on, taken
/// together.
pub open spec fn visit_edges(
    g: GraphView,
    edges: NodeView,
    from: int,
    visited: Seq<Seq<char>>,
) -> Result<Multiset<Seq<char>>, GraphError>
    decreases unvisited(g, visited), 1nat, edges.len() - from,
{
    if from < 0 || from >= edges.len() {
        Ok(Multiset::empty())
    } else {
        match resolve_edge(g, edges[from].1) {
            Err(e) => Err(e),
            Ok(next) => match visit(g, next, visited) {
                Err(e) => Err(e),
                Ok(first) => match visit_edges(g, edges, from + 1, visited) {
                    Err(e) => Err(e),
                    Ok(rest) => Ok(first.add(rest)),
                },
            },
        }
    }
}

/// A tally, as mathematics: the count of every node, in the graph's order.
pub type TallyView = Seq<(Seq<char>, u32)>;

/// A count as the tally holds it: counts past `u32::MAX` stay at `u32::MAX`.
pub open spec fn saturated(n: int) -> u32 {
    if n > u32::MAX {
        u32::MAX
    } else if n < 0 {
        0
    } else {
        n as u32
    }
}

/// The tally `t` after the steps `steps` have been counted in.
pub open spec fn bump(t: TallyView, steps: Multiset<Seq<char>>) -> TallyView {
    Seq::new(t.len(), |i: int| (t[i].0, saturated(t[i].1 + steps.count(t[i].0))))
}

/// The tally `after` has the rows of `before`, with no count less.
pub open spec fn grown(before: TallyView, after: TallyView) -> bool {
    &&& after.len() == before.len()
    &&& forall|i: int|
        0 <= i < before.len() ==> (#[trigger] after[i]).0 == before[i].0 && after[i].1
            >= before[i].1
}

/// The tally of a graph in which nothing has been counted yet.
pub open spec fn zero_tally(g: GraphView) -> TallyView {
    Seq::new(g.nodes.len(), |i: int| (g.nodes[i].0, 0u32))
}

/// The reference tally of `g` relative to `start`: for every node of the
/// graph, in the graph's order, how often the walk from `start` steps on it.
pub open spec fn count_from(g: GraphView, start: Seq<char>) -> Result<TallyView, GraphError> {
    match visit(g, start, Seq::empty()) {
        Ok(steps) => Ok(bump(zero_tally(g), steps)),
        Err(e) => Err(e),
    }
}

/// Counting in two batches is counting in their sum.
pub proof fn lemma_bump_add(t: TallyView, a: Multiset<Seq<char>>, b: Multiset<Seq<char>>)
    ensures
        bump(bump(t, a), b) == bump(t, a.add(b)),
{
    assert(bump(bump(t, a), b) =~= bump(t, a.add(b)));
}

/// How a row of the tally is to be shown.
#[derive(Clone, Copy, Debug, PartialEq, Eq, Structural)]
pub enum RowStyle {
    /// The node that the counts are relative to.
    Start,
    /// A node that is reached once at most.
    Scarce,
    /// A node that is reached more than once.
    Shared,
}

/// How the row of the node `id` with the count `count` is to be shown in a
/// tally relative to `start`.
pub open spec fn row_style_of(id: Seq<char>, count: u32, start: Seq<char>) -> RowStyle {
    if id == start {
        RowStyle::Start
    } else if count <= 1 {
        RowStyle::Scarce
    } else {
        RowStyle::Shared
    }
}

/// The greatest length, in bytes, of an identifier among the first `upto`
/// rows of `t`; 0 where there is none.
pub open spec fn widest(t: TallyView, upto: int) -> nat
    decreases upto,
{
    if upto <= 0 {
        0
    } else {
        let rest = widest(t, upto - 1);
        let here = vstd::utf8::encode_utf8(t[upto - 1].0).len();
        if here > rest {
            here
        } else {
            rest
        }
    }
}

/// How often each node is reached from one starting node.
#[derive(Debug)]
pub struct FlakeNodeVisits {
    inner: IndexMap<String, u32>,
    root_index: String,
}

impl View for FlakeNodeVisits {
    type V = TallyView;

    /// The counts by node identifier, in the graph's order.
    closed spec fn view(&self) -> TallyView {
        map_entries(self.inner)
    }
}

impl FlakeNodeVisits {
    /// Well-formedness: no identifier occurs twice.
    pub closed spec fn wf(&self) -> bool {
        distinct_keys(map_entries(self.inner))
    }

    /// The identifier of the node that the counts are relative to.
    pub closed spec fn start(&self) -> Seq<char> {
        self.root_index@
    }

    /// A well-formed tally has distinct identifiers.
    pub proof fn lemma_wf(&self)
        requires
            self.wf(),
        ensures
            distinct_keys(self@),
    {
    }

    /// The tally of `lock` relative to `index` with every count at zero.
    fn zeroed(lock: &LockFile, index: &str) -> (tally: Self)
        requires
            lock.wf(),
        ensures
            tally.wf(),
            tally@ == zero_tally(lock@),
            tally.start() == index@,
    {
        let mut inner: IndexMap<String, u32> = map_new();
        let n = lock.len();
        let mut i: usize = 0;
        proof {
            lock.lemma_wf();
            assert(map_entries(inner) =~= zero_tally(lock@).take(0));
        }
        while i < n
            invariant
                lock.wf(),
                distinct_keys(lock@.nodes),
                n == lock@.nodes.len(),
                i <= n,
                map_entries(inner) == zero_tally(lock@).take(i as int),
            decreases n - i,
        {
            let key = lock.index_at(i).clone();
            let ghost before = map_entries(inner);
            let (_, former) = map_insert_full(&mut inner, key, 0);
            proof {
                if former is Some {
                    let j = choose|j: int| 0 <= j < before.len() && before[j].0 == key@;
                    assert(lock@.nodes[j].0 == key@);
                    assert(lock@.nodes[i as int].0 == key@);
                }
            }
            i += 1;
            proof {
                assert(map_entries(inner) =~= zero_tally(lock@).take(i as int));
            }
        }
        proof {
            assert(zero_tally(lock@).take(n as int) =~= zero_tally(lock@));
            crate::assoc::lemma_keys_agree(lock@.nodes, zero_tally(lock@));
        }
        FlakeNodeVisits { inner, root_index: index.to_owned() }
    }

    /// Counts one more step on the node at position `i`.
    fn count_step(&mut self, i: usize)
        requires
            old(self).wf(),
            i < old(self)@.len(),
        ensures
            final(self).wf(),
            final(self).start() == old(self).start(),
            final(self)@ == bump(old(self)@, Multiset::singleton(old(self)@[i as int].0)),
    {
        let ghost before = map_entries(self.inner);
        let slot = map_value_at_mut(&mut self.inner, i);
        if *slot < u32::MAX {
            *slot = *slot + 1;
        }
        proof {
            let after = map_entries(self.inner);
            crate::assoc::lemma_keys_agree(before, after);
            let steps = Multiset::singleton(before[i as int].0);
            assert forall|j: int| 0 <= j < before.len() implies #[trigger] after[j] == bump(
                before,
                steps,
            )[j] by {
                if j != i {
                    assert(before[j].0 != before[i as int].0);
                }
            }
            assert(after =~= bump(before, steps));
        }
    }

    /// The number of nodes counted.
    pub fn len(&self) -> (n: usize)
        requires
            self.wf(),
        ensures
            n == self@.len(),
    {
        map_len(&self.inner)
    }

    /// The identifier at a position.
    pub fn index_at(&self, i: usize) -> (id: &String)
        requires
            self.wf(),
            i < self@.len(),
        ensures
            id@ == self@[i as int].0,
    {
        match map_get_index(&self.inner, i) {
            Some((id, _)) => id,
            None => &self.root_index,
        }
    }

    /// The count at a position.
    pub fn count_at(&self, i: usize) -> (count: u32)
        requires
            self.wf(),
            i < self@.len(),
        ensures
            count == self@[i as int].1,
    {
        match map_get_index(&self.inner, i) {
            Some((_, count)) => *count,
            None => 0,
        }
    }

    /// The count of the node `index`, if it was counted.
    pub fn get(&self, index: &str) -> (r: Option<u32>)
        requires
            self.wf(),
        ensures
            r is Some <==> has_key(self@, index@),
            r matches Some(count) ==> count == value_of(self@, index@),
    {
        match map_index_of(&self.inner, index) {
            Some(i) => {
                proof {
                    crate::assoc::lemma_key_at(self@, i as int);
                }
                Some(self.count_at(i))
            },
            None => {
                proof {
                    assert forall|j: int| 0 <= j < self@.len() implies (#[trigger] self@[j]).0
                        != index@ by {}
                }
                None
            },
        }
    }

    /// How the row at a position is to be shown.
    pub fn row_style(&self, i: usize) -> (style: RowStyle)
        requires
            self.wf(),
            i < self@.len(),
        ensures
            style == row_style_of(self@[i as int].0, self@[i as int].1, self.start()),
    {
        if *self.index_at(i) == self.root_index {
            RowStyle::Start
        } else if self.count_at(i) <= 1 {
            RowStyle::Scarce
        } else {
            RowStyle::Shared
        }
    }

    /// The width that the identifiers are padded to when the tally is shown:
    /// the length of the longest, in bytes.
    pub fn max_pad(&self) -> (width: usize)
        requires
            self.wf(),
        ensures
            width == widest(self@, self@.len() as int),
    {
        let n = self.len();
        let mut width: usize = 0;
        let mut i: usize = 0;
        while i < n
            invariant
                self.wf(),
                n == self@.len(),
                i <= n,
                width == widest(self@, i as int),
            decreases n - i,
        {
            let here = self.index_at(i).as_str().as_bytes().len();
            if here > width {
                width = here;
            }
            i += 1;
        }
        width
    }

    /// The identifier of the node that the counts are relative to.
    pub fn root_index(&self) -> (id: &String)
        ensures
            id@ == self.start(),
    {
        &self.root_index
    }

    /// The counts alone: the map from identifier to count, in the graph's
    /// order.
    pub fn into_inner(self) -> (inner: IndexMap<String, u32>)
        ensures
            map_entries(inner) == self@,
    {
        self.inner
    }

    /// The reference tally of `lock` relative to the node `index`.
    ///
    /// Every node of the graph gets an entry, in the graph's order; the count
    /// is how often the depth-first walk from `index` steps on the node,
    /// `u32::MAX` standing for that and more. The walk fails as
    /// [`recurse_inputs`] does.
    pub fn count_from_index(lock: &LockFile, index: &str) -> (r: Result<Self, GraphError>)
        requires
            lock.wf(),
        ensures
            match r {
                Ok(tally) => tally.wf() && tally.start() == index@ && count_from(lock@, index@)
                    == Ok::<TallyView, GraphError>(tally@),
                Err(e) => count_from(lock@, index@) == Err::<TallyView, GraphError>(e),
            },
    {
        let mut tally = FlakeNodeVisits::zeroed(lock, index);
        let mut visited: Vec<String> = Vec::new();
        let start = index.to_owned();
        proof {
            assert(names_of(visited@) =~= Seq::<Seq<char>>::empty());
            assert(keys_of(tally@) =~= keys_of(lock@.nodes));
        }
        match recurse_inputs(lock, &start, &mut visited, &mut tally) {
            Ok(()) => Ok(tally),
            Err(e) => Err(e),
        }
    }
}

/// Walks the graph depth-first from the node `index`, counting every step in
/// `tally`; `visited` is the path that led here.
///
/// A step on a node counts it and then walks on from the target of each of
/// its edges, in order. The walk fails with `DanglingReference` where the
/// graph has no node `index`, with `CyclicGraph` where the node is on the
/// path already, and with the error of the first edge that cannot be
/// resolved. Where the walk fails at the node `index` itself, no step is
/// counted and the path is as it was. After a failure further on, the tally
/// and the path hold what the walk left: no count is less than it was, and
/// the path begins as it did.
pub fn recurse_inputs(
    lock: &LockFile,
    index: &String,
    visited: &mut Vec<String>,
    tally: &mut FlakeNodeVisits,
) -> (r: Result<(), GraphError>)
    requires
        lock.wf(),
        old(tally).wf(),
        keys_of(old(tally)@) == keys_of(lock@.nodes),
    ensures
        final(tally).wf(),
        final(tally).start() == old(tally).start(),
        keys_of(final(tally)@) == keys_of(lock@.nodes),
        grown(old(tally)@, final(tally)@),
        begins_with(names_of(final(visited)@), names_of(old(visited)@)),
        !has_key(lock@.nodes, index@) || names_of(old(visited)@).contains(index@) ==> {
            &&& r is Err
            &&& final(tally)@ == old(tally)@
            &&& names_of(final(visited)@) == names_of(old(visited)@)
        },
        match visit(lock@, index@, names_of(old(visited)@)) {
            Ok(steps) => r is Ok && final(tally)@ == bump(old(tally)@, steps) && names_of(
                final(visited)@,
            ) == names_of(old(visited)@),
            Err(e) => r == Err::<(), GraphError>(e),
        },
    decreases unvisited(lock@, names_of(old(visited)@)),
{
    let ghost g = lock@;
    let ghost path = names_of(visited@);
    let ghost tally0 = tally@;
    let pos = match lock.position(index.as_str()) {
        Some(pos) => pos,
        None => {
            return Err(GraphError::DanglingReference);
        },
    };
    if contains_name(visited, index) {
        return Err(GraphError::CyclicGraph);
    }
    proof {
        assert(keys_of(tally@).len() == keys_of(g.nodes).len());
        assert(keys_of(tally@)[pos as int] == keys_of(g.nodes)[pos as int]);
        lemma_unvisited_push(g, path, index@);
    }
    tally.count_step(pos);
    visited.push(index.clone());
    let ghost deeper = path.push(index@);
    let ghost own = Multiset::singleton(index@);
    let ghost mut below: Multiset<Seq<char>> = Multiset::empty();
    proof {
        assert(names_of(visited@) =~= deeper);
        assert(keys_of(tally@) =~= keys_of(g.nodes));
        lemma_bump_add(tally0, own, below);
        assert(own.add(below) =~= own);
    }
    let node = lock.node_at(pos);
    let n = node.len();
    let mut k: usize = 0;
    proof {
        let all = visit_edges(g, node@, 0, deeper);
        if all is Ok {
            assert(below.add(all->Ok_0) =~= all->Ok_0);
        }
    }
    while k < n
        invariant
            lock.wf(),
            g == lock@,
            has_key(g.nodes, index@),
            !path.contains(index@),
            path == names_of(old(visited)@),
            deeper == path.push(index@),
            node.wf(),
            node@ == g.node(index@),
            n == node@.len(),
            k <= n,
            tally.wf(),
            tally.start() == old(tally).start(),
            keys_of(tally@) == keys_of(g.nodes),
            names_of(visited@) == deeper,
            unvisited(g, deeper) < unvisited(g, path),
            tally0 == old(tally)@,
            tally@ == bump(tally0, own.add(below)),
            visit_edges(g, node@, 0, deeper) == match visit_edges(g, node@, k as int, deeper) {
                Ok(rest) => Ok::<Multiset<Seq<char>>, GraphError>(below.add(rest)),
                Err(e) => Err(e),
            },
        decreases n - k,
    {
        let next = match lock.resolve_edge(node.edge_at(k)) {
            Ok(next) => next,
            Err(e) => {
                return Err(e);
            },
        };
        match recurse_inputs(lock, &next, visited, tally) {
            Ok(()) => {},
            Err(e) => {
                return Err(e);
            },
        }
        proof {
            let first = visit(g, next@, deeper)->Ok_0;
            let rest = visit_edges(g, node@, k as int + 1, deeper);
            lemma_bump_add(tally0, own.add(below), first);
            assert(own.add(below).add(first) =~= own.add(below.add(first)));
            if rest is Ok {
                assert(below.add(first.add(rest->Ok_0)) =~= below.add(first).add(rest->Ok_0));
            }
            below = below.add(first);
        }
        k += 1;
    }
    let ghost full = visited@;
    visited.pop();
    proof {
        assert(names_of(full).len() == path.len() + 1);
        assert forall|j: int| 0 <= j < path.len() implies names_of(visited@)[j] == path[j] by {
            assert(names_of(full)[j] == deeper[j]);
        }
        assert(names_of(visited@) =~= path);
        assert(below.add(Multiset::empty()) =~= below);
        assert(own.add(below) =~= below.insert(index@));
    }
    Ok(())
}

} // verus!
