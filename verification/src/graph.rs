use vstd::prelude::*;

verus! {

/// A named node of the graph together with the names of the nodes it
/// sends to, in declaration order.
#[derive(Clone)]
pub struct Vertex {
    pub name: String,
    pub adj: Vec<String>,
}

/// Errors reported while validating a vertex set, compiling it into a
/// network, or running a process.
#[derive(Debug, Clone)]
pub enum Error {
    /// An adjacency list references a vertex name that was never declared.
    IncompleteGraph(String),
    /// The vertex set contains a directed cycle through the named vertex.
    CyclicGraph(String),
    /// A vertex of the network was never given a state and a transition
    /// function, so it cannot be run.
    UndefinedProcess(String),
    /// A channel endpoint was closed while a process was still using it;
    /// the affected process stops, its siblings keep running.
    ChannelClosed,
}

/// Some vertex of `vs` is named `n`.
pub open spec fn has_vertex(vs: Seq<Vertex>, n: Seq<char>) -> bool {
    exists|i: int| 0 <= i < vs.len() && vs[i].name@ == n
}

/// Every adjacency entry of every vertex names a declared vertex.
pub open spec fn complete(vs: Seq<Vertex>) -> bool {
    forall|i: int, k: int| #![trigger vs[i].adj@[k]]
        0 <= i < vs.len() && 0 <= k < vs[i].adj@.len() ==> has_vertex(vs, vs[i].adj@[k]@)
}

/// No two vertices share a name.
pub open spec fn unique_names(vs: Seq<Vertex>) -> bool {
    forall|i: int, j: int| #![trigger vs[i], vs[j]]
        0 <= i < vs.len() && 0 <= j < vs.len() && i != j ==> vs[i].name@ != vs[j].name@
}

/// The vertex at index `i` lists the name of the vertex at index `j`.
pub open spec fn edge(vs: Seq<Vertex>, i: int, j: int) -> bool {
    &&& 0 <= i < vs.len()
    &&& 0 <= j < vs.len()
    &&& exists|k: int| 0 <= k < vs[i].adj@.len() && vs[i].adj@[k]@ == vs[j].name@
}

/// `p` walks the graph along edges, one step per consecutive pair.
pub open spec fn is_path(vs: Seq<Vertex>, p: Seq<int>) -> bool {
    forall|t: int| 0 <= t < p.len() - 1 ==> edge(vs, #[trigger] p[t], p[t + 1])
}

/// `p` is a directed cycle: a path of at least one edge that returns to
/// its starting vertex.
pub open spec fn is_cycle(vs: Seq<Vertex>, p: Seq<int>) -> bool {
    &&& p.len() >= 2
    &&& is_path(vs, p)
    &&& p[0] == p[p.len() - 1]
}

/// Some directed cycle exists among the vertices.
pub open spec fn cyclic(vs: Seq<Vertex>) -> bool {
    exists|p: Seq<int>| is_cycle(vs, p)
}

/// The vertex at index `j` lies on some directed cycle.
pub open spec fn on_cycle(vs: Seq<Vertex>, j: int) -> bool {
    exists|p: Seq<int>| is_cycle(vs, p) && p.contains(j)
}

/// The vertex at index `j` is named by at least one adjacency entry.
pub open spec fn has_incoming(vs: Seq<Vertex>, j: int) -> bool {
    exists|i: int, k: int|
        0 <= i < vs.len() && 0 <= k < vs[i].adj@.len() && vs[i].adj@[k]@ == vs[j].name@
}

/// `n` is referenced by some adjacency list but declared by no vertex.
pub open spec fn dangling(vs: Seq<Vertex>, n: Seq<char>) -> bool {
    &&& !has_vertex(vs, n)
    &&& exists|i: int, k: int|
        0 <= i < vs.len() && 0 <= k < vs[i].adj@.len() && vs[i].adj@[k]@ == n
}

/// The names of the vertices among the first `upto` that no adjacency
/// entry references, in declaration order.
pub open spec fn root_names(vs: Seq<Vertex>, upto: int) -> Seq<Seq<char>>
    decreases upto,
{
    if upto <= 0 {
        Seq::empty()
    } else if !has_incoming(vs, upto - 1) {
        root_names(vs, upto - 1).push(vs[upto - 1].name@)
    } else {
        root_names(vs, upto - 1)
    }
}

/// The index of the vertex named `n`, when one exists and names are unique.
pub open spec fn idx_of(vs: Seq<Vertex>, n: Seq<char>) -> int {
    choose|i: int| 0 <= i < vs.len() && vs[i].name@ == n
}

/// With unique names, `idx_of` sends each vertex's name back to its index.
pub proof fn lemma_idx_of(vs: Seq<Vertex>, m: int)
    requires
        unique_names(vs),
        0 <= m < vs.len(),
    ensures
        idx_of(vs, vs[m].name@) == m,
{
    assert(0 <= m < vs.len() && vs[m].name@ == vs[m].name@);
    let i = idx_of(vs, vs[m].name@);
    assert(0 <= i < vs.len() && vs[i].name@ == vs[m].name@);
}

/// Returns the index of the vertex named `n`, or `None` when no vertex
/// carries that name.
pub fn find_vertex(vs: &Vec<Vertex>, n: &String) -> (r: Option<usize>)
    ensures
        match r {
            Some(j) => j < vs@.len() && vs@[j as int].name@ == n@,
            None => !has_vertex(vs@, n@),
        },
{
    let mut i: usize = 0;
    while i < vs.len()
        invariant
            i <= vs@.len(),
            forall|q: int| 0 <= q < i ==> vs@[q].name@ != n@,
        decreases vs@.len() - i,
    {
        if vs[i].name == *n {
            return Some(i);
        }
        i = i + 1;
    }
    None
}

/// Whether any adjacency entry of `v` is the name `n`.
fn lists_name(v: &Vertex, n: &String) -> (r: bool)
    ensures
        r == exists|k: int| 0 <= k < v.adj@.len() && v.adj@[k]@ == n@,
{
    let mut k: usize = 0;
    while k < v.adj.len()
        invariant
            k <= v.adj@.len(),
            forall|q: int| 0 <= q < k ==> v.adj@[q]@ != n@,
        decreases v.adj@.len() - k,
    {
        if v.adj[k] == *n {
            return true;
        }
        k = k + 1;
    }
    false
}

/// Whether any vertex of `vs` lists the name of the vertex at `j`.
fn has_incoming_exec(vs: &Vec<Vertex>, j: usize) -> (r: bool)
    requires
        j < vs@.len(),
    ensures
        r == has_incoming(vs@, j as int),
{
    let target = &vs[j].name;
    let mut i: usize = 0;
    while i < vs.len()
        invariant
            i <= vs@.len(),
            j < vs@.len(),
            target@ == vs@[j as int].name@,
            forall|q: int, k: int|
                0 <= q < i && 0 <= k < vs@[q].adj@.len() ==> vs@[q].adj@[k]@ != vs@[j as int].name@,
        decreases vs@.len() - i,
    {
        if lists_name(&vs[i], target) {
            return true;
        }
        i = i + 1;
    }
    false
}

// --- Depth-first cycle search -------------------------------------------
//
// The search keeps a colour per vertex: 0 = unexplored, 1 = on the active
// recursion stack, 2 = fully explored.  A vertex met again while still on
// the active stack closes a cycle; a vertex met again after it was fully
// explored is a shared descendant and no error.  Fully explored vertices
// are given strictly decreasing ranks along every edge, which certifies
// that no cycle exists when the search finishes.

/// Colours cover exactly the vertices and take the three legal values.
pub open spec fn colors_wf(vs: Seq<Vertex>, colors: Seq<u8>) -> bool {
    &&& colors.len() == vs.len()
    &&& forall|j: int| 0 <= j < colors.len() ==> #[trigger] colors[j] == 0 || colors[j] == 1
        || colors[j] == 2
}

/// Every fully explored vertex is ranked below `counter`, and every edge
/// leaving it goes to a fully explored vertex of strictly smaller rank.
pub open spec fn blacks_ranked(
    vs: Seq<Vertex>,
    colors: Seq<u8>,
    rank: Map<int, int>,
    counter: int,
) -> bool {
    &&& forall|j: int| 0 <= j < vs.len() && #[trigger] colors[j] == 2 ==> rank.dom().contains(j)
        && rank[j] < counter
    &&& forall|j: int, m: int| #[trigger] edge(vs, j, m) && colors[j] == 2 ==> colors[m] == 2
        && rank[m] < rank[j]
}

/// Stack entries are in-bounds vertices on the active path, each with a
/// cursor into its adjacency list, and consecutive entries are joined by
/// an edge.
pub open spec fn stack_wf(vs: Seq<Vertex>, colors: Seq<u8>, stack: Seq<(usize, usize)>) -> bool {
    &&& forall|t: int| 0 <= t < stack.len() ==> ((#[trigger] stack[t]).0 as int) < vs.len()
        && colors[stack[t].0 as int] == 1 && stack[t].1 <= vs[stack[t].0 as int].adj@.len()
    &&& forall|t: int| 0 <= t < stack.len() - 1 ==> edge(
        vs,
        (#[trigger] stack[t]).0 as int,
        stack[t + 1].0 as int,
    )
}

/// No vertex appears twice on the active stack.
pub open spec fn distinct_stack(stack: Seq<(usize, usize)>) -> bool {
    forall|t1: int, t2: int| #![trigger stack[t1], stack[t2]]
        0 <= t1 < t2 < stack.len() ==> stack[t1].0 != stack[t2].0
}

/// The child `c` of stack entry `t` has been fully explored, or it is the
/// vertex the search is currently exploring just above `t`.
pub open spec fn child_done(
    vs: Seq<Vertex>,
    colors: Seq<u8>,
    stack: Seq<(usize, usize)>,
    t: int,
    c: int,
) -> bool {
    let m = idx_of(vs, vs[stack[t].0 as int].adj@[c]@);
    colors[m] == 2 || (t + 1 < stack.len() && m == stack[t + 1].0 as int)
}

/// Every child before each entry's cursor has been dealt with.
pub open spec fn children_done(vs: Seq<Vertex>, colors: Seq<u8>, stack: Seq<(usize, usize)>) -> bool {
    forall|t: int, c: int| 0 <= t < stack.len() && 0 <= c < stack[t].1 ==> #[trigger] child_done(
        vs,
        colors,
        stack,
        t,
        c,
    )
}

/// Some stack entry holds the vertex `j`.
pub open spec fn on_stack(stack: Seq<(usize, usize)>, j: int) -> bool {
    exists|t: int| 0 <= t < stack.len() && (#[trigger] stack[t]).0 == j
}

/// Every vertex coloured as active really is on the stack.
pub open spec fn grays_on_stack(colors: Seq<u8>, stack: Seq<(usize, usize)>) -> bool {
    forall|j: int| 0 <= j < colors.len() && #[trigger] colors[j] == 1 ==> on_stack(stack, j)
}

/// How many of the first `upto` vertices are still unexplored.
pub open spec fn num_white(colors: Seq<u8>, upto: int) -> nat
    decreases upto,
{
    if upto <= 0 {
        0
    } else if colors[upto - 1] == 0 {
        num_white(colors, upto - 1) + 1
    } else {
        num_white(colors, upto - 1)
    }
}

/// The adjacency entries of a stack entry that its cursor has not passed.
pub open spec fn rem_of(vs: Seq<Vertex>, e: (usize, usize)) -> nat {
    (vs[e.0 as int].adj@.len() - e.1) as nat
}

/// The adjacency entries still to be walked over the whole stack.
pub open spec fn sum_remaining(vs: Seq<Vertex>, stack: Seq<(usize, usize)>) -> nat
    decreases stack.len(),
{
    if stack.len() == 0 {
        0
    } else {
        sum_remaining(vs, stack.drop_last()) + rem_of(vs, stack.last())
    }
}

/// Recolouring one vertex away from unexplored lowers the unexplored
/// count by one when it was unexplored and keeps it otherwise.
proof fn lemma_num_white_update(colors: Seq<u8>, j: int, val: u8, upto: int)
    requires
        0 <= j < colors.len(),
        0 <= upto <= colors.len(),
        val != 0,
    ensures
        j < upto && colors[j] == 0 ==> num_white(colors.update(j, val), upto) + 1 == num_white(
            colors,
            upto,
        ),
        !(j < upto && colors[j] == 0) ==> num_white(colors.update(j, val), upto) == num_white(
            colors,
            upto,
        ),
    decreases upto,
{
    if upto > 0 {
        lemma_num_white_update(colors, j, val, upto - 1);
    }
}

/// Along a path, ranks that strictly decrease over every edge strictly
/// decrease from the first vertex to the last.
proof fn lemma_path_rank(vs: Seq<Vertex>, rank: Map<int, int>, p: Seq<int>)
    requires
        forall|i: int, j: int| #[trigger] edge(vs, i, j) ==> rank.dom().contains(i)
            && rank.dom().contains(j) && rank[j] < rank[i],
        is_path(vs, p),
        p.len() >= 2,
    ensures
        rank.dom().contains(p[0]),
        rank.dom().contains(p[p.len() - 1]),
        rank[p[p.len() - 1]] < rank[p[0]],
    decreases p.len(),
{
    assert(edge(vs, p[0], p[1]));
    if p.len() > 2 {
        let q = p.subrange(1, p.len() as int);
        assert forall|t: int| 0 <= t < q.len() - 1 implies edge(vs, #[trigger] q[t], q[t + 1]) by {
            assert(q[t] == p[t + 1]);
            assert(q[t + 1] == p[t + 2]);
            assert(edge(vs, p[t + 1], p[t + 2]));
        }
        lemma_path_rank(vs, rank, q);
        assert(q[q.len() - 1] == p[p.len() - 1]);
    }
}

/// A rank that strictly decreases over every edge rules out any cycle.
proof fn lemma_ranked_acyclic(vs: Seq<Vertex>, rank: Map<int, int>)
    requires
        forall|i: int, j: int| #[trigger] edge(vs, i, j) ==> rank.dom().contains(i)
            && rank.dom().contains(j) && rank[j] < rank[i],
    ensures
        !cyclic(vs),
{
    assert forall|p: Seq<int>| !is_cycle(vs, p) by {
        if is_cycle(vs, p) {
            lemma_path_rank(vs, rank, p);
            assert(false);
        }
    }
}

/// An active stack that reaches back to one of its own entries closes a
/// directed cycle.
proof fn lemma_stack_cycle(
    vs: Seq<Vertex>,
    colors: Seq<u8>,
    full: Seq<(usize, usize)>,
    j: int,
)
    requires
        stack_wf(vs, colors, full),
        full.len() >= 1,
        on_stack(full, j),
        edge(vs, full[full.len() - 1].0 as int, j),
    ensures
        cyclic(vs),
        on_cycle(vs, j),
{
    let t0 = choose|t: int| 0 <= t < full.len() && (#[trigger] full[t]).0 == j;
    let pre = full.subrange(t0, full.len() as int).map_values(|e: (usize, usize)| e.0 as int);
    let p = pre.push(j);
    assert(pre.len() == full.len() - t0);
    assert(p.len() >= 2);
    assert forall|t: int| 0 <= t < p.len() - 1 implies edge(vs, #[trigger] p[t], p[t + 1]) by {
        assert(p[t] == full[t0 + t].0 as int);
        if t < p.len() - 2 {
            assert(p[t + 1] == full[t0 + t + 1].0 as int);
            assert(edge(vs, full[t0 + t].0 as int, full[t0 + t + 1].0 as int));
        } else {
            assert(t0 + t == full.len() - 1);
            assert(p[t + 1] == j);
        }
    }
    assert(p[0] == full[t0].0 as int);
    assert(p[p.len() - 1] == j);
    assert(is_cycle(vs, p));
    assert(p[p.len() - 1] == j && 0 <= p.len() - 1 < p.len());
    assert(p.contains(j));
}

/// Searches for a directed cycle.  Returns the index of a vertex on some
/// cycle, or `None` exactly when the vertex set is acyclic.
#[verifier::loop_isolation(false)]
#[verifier::rlimit(100)]
pub fn find_cycle_vertex(vs: &Vec<Vertex>) -> (r: Option<usize>)
    requires
        unique_names(vs@),
        complete(vs@),
    ensures
        match r {
            Some(j) => (j as int) < vs@.len() && cyclic(vs@) && on_cycle(vs@, j as int),
            None => !cyclic(vs@),
        },
{
    let n = vs.len();
    let mut colors: Vec<u8> = Vec::new();
    let mut i: usize = 0;
    while i < n
        invariant
            colors@.len() == i as int,
            i <= n,
            forall|q: int| 0 <= q < i ==> colors@[q] == 0,
        decreases n - i,
    {
        colors.push(0);
        i = i + 1;
    }

    let ghost mut rank: Map<int, int> = Map::empty();
    let ghost mut counter: int = 0;

    let mut s: usize = 0;
    while s < n
        invariant
            s <= n,
            colors_wf(vs@, colors@),
            forall|q: int| 0 <= q < s ==> colors@[q] == 2,
            forall|q: int| 0 <= q < n ==> colors@[q] != 1,
            blacks_ranked(vs@, colors@, rank, counter),
        decreases n - s,
    {
        if colors[s] == 0 {
            let mut stack: Vec<(usize, usize)> = Vec::new();
            stack.push((s, 0));
            colors[s] = 1;
            proof {
                assert(stack@[0] == (s, 0usize));
                assert forall|q: int| 0 <= q < colors@.len() && #[trigger] colors@[q] == 1
                    implies on_stack(stack@, q) by {
                    assert(q == s as int);
                    assert(stack@[0].0 == q);
                }
            }
            while stack.len() != 0
                invariant
                    colors_wf(vs@, colors@),
                    stack_wf(vs@, colors@, stack@),
                    distinct_stack(stack@),
                    children_done(vs@, colors@, stack@),
                    grays_on_stack(colors@, stack@),
                    blacks_ranked(vs@, colors@, rank, counter),
                    colors@[s as int] != 0,
                    forall|q: int| 0 <= q < s ==> colors@[q] == 2,
                decreases
                    num_white(colors@, colors@.len() as int),
                    sum_remaining(vs@, stack@),
                    stack@.len(),
            {
                let ghost full = stack@;
                let ghost old_colors = colors@;
                let top = match stack.pop() {
                    Some(t) => t,
                    None => {
                        return None;
                    },
                };
                let v = top.0;
                let k = top.1;
                assert(full[full.len() - 1] == (v, k));
                assert((v as int) < vs@.len() && old_colors[v as int] == 1);
                if k == vs[v].adj.len() {
                    colors[v] = 2;
                    proof {
                        let ghost old_rank = rank;
                        rank = rank.insert(v as int, counter);
                        counter = counter + 1;
                        // Every edge out of `v` reaches a fully explored vertex:
                        // the cursor covered the whole adjacency list.
                        assert forall|m: int| #[trigger] edge(vs@, v as int, m) implies
                            colors@[m] == 2 && rank[m] < rank[v as int] by {
                            let c = choose|c: int| 0 <= c < vs@[v as int].adj@.len()
                                && vs@[v as int].adj@[c]@ == vs@[m].name@;
                            assert(child_done(vs@, old_colors, full, full.len() - 1, c));
                            lemma_idx_of(vs@, m);
                            assert(old_colors[m] == 2);
                            assert(m != v as int);
                        }
                        assert forall|q: int, m: int| #[trigger] edge(vs@, q, m)
                            && colors@[q] == 2 implies colors@[m] == 2 && rank[m] < rank[q] by {
                            if q != v as int {
                                assert(old_colors[q] == 2);
                                assert(old_colors[m] == 2);
                                assert(m != v as int);
                            }
                        }
                        assert(blacks_ranked(vs@, colors@, rank, counter));
                        // Children recorded as "currently above" the parent
                        // were exactly `v`, which is now fully explored.
                        assert forall|t: int, c: int| 0 <= t < stack@.len()
                            && 0 <= c < stack@[t].1 implies #[trigger] child_done(
                            vs@,
                            colors@,
                            stack@,
                            t,
                            c,
                        ) by {
                            assert(stack@[t] == full[t]);
                            assert(child_done(vs@, old_colors, full, t, c));
                            let m = idx_of(vs@, vs@[full[t].0 as int].adj@[c]@);
                            if old_colors[m] != 2 {
                                assert(t + 1 < full.len() && m == full[t + 1].0 as int);
                                if t + 1 < full.len() - 1 {
                                    assert(stack@[t + 1] == full[t + 1]);
                                } else {
                                    assert(m == v as int);
                                }
                            }
                        }
                        assert forall|j: int| 0 <= j < colors@.len() && #[trigger] colors@[j] == 1
                            implies on_stack(stack@, j) by {
                            assert(old_colors[j] == 1);
                            let t = choose|t: int| 0 <= t < full.len() && (#[trigger] full[t]).0 == j;
                            assert(t < full.len() - 1);
                            assert(stack@[t] == full[t]);
                        }
                        // The measure: the stack shrank while the other
                        // components stayed put.
                        assert(stack@ == full.drop_last());
                        assert(rem_of(vs@, full.last()) == 0);
                        assert(sum_remaining(vs@, full) == sum_remaining(vs@, stack@));
                        lemma_num_white_update(old_colors, v as int, 2, old_colors.len() as int);
                        assert(num_white(colors@, colors@.len() as int) == num_white(
                            old_colors,
                            old_colors.len() as int,
                        ));
                    }
                } else {
                    let tname = &vs[v].adj[k];
                    assert(has_vertex(vs@, tname@));
                    let j = match find_vertex(vs, tname) {
                        Some(j) => j,
                        None => {
                            return None;
                        },
                    };
                    proof {
                        lemma_idx_of(vs@, j as int);
                        assert(edge(vs@, v as int, j as int));
                    }
                    if colors[j] == 1 {
                        proof {
                            lemma_stack_cycle(vs@, colors@, full, j as int);
                        }
                        return Some(j);
                    } else {
                        stack.push((v, (k + 1) as usize));
                        let ghost mid = stack@;
                        assert(mid == full.subrange(0, full.len() - 1).push((v, (k + 1) as usize)));
                        if colors[j] == 0 {
                            colors[j] = 1;
                            stack.push((j, 0));
                            proof {
                                assert forall|t: int| 0 <= t < stack@.len() implies
                                    ((#[trigger] stack@[t]).0 as int) < vs@.len()
                                    && colors@[stack@[t].0 as int] == 1
                                    && stack@[t].1 <= vs@[stack@[t].0 as int].adj@.len() by {
                                    if t < full.len() - 1 {
                                        assert(stack@[t] == full[t]);
                                        assert(old_colors[full[t].0 as int] == 1);
                                        assert(full[t].0 != j);
                                    } else if t == full.len() - 1 {
                                        assert(stack@[t] == (v, (k + 1) as usize));
                                    } else {
                                        assert(stack@[t] == (j, 0usize));
                                    }
                                }
                                assert forall|t1: int, t2: int| 0 <= t1 < t2 < stack@.len() implies
                                    (#[trigger] stack@[t1]).0 != (#[trigger] stack@[t2]).0 by {
                                    if t2 < full.len() {
                                        assert(full[t1].0 != full[t2].0);
                                    } else {
                                        // t2 is the new top `j`, which was unexplored,
                                        // while every other entry is active.
                                        if t1 < full.len() - 1 {
                                            assert(stack@[t1] == full[t1]);
                                            assert(old_colors[full[t1].0 as int] == 1);
                                        }
                                        assert(old_colors[j as int] == 0);
                                    }
                                }
                                assert forall|t: int, c: int| 0 <= t < stack@.len()
                                    && 0 <= c < stack@[t].1 implies #[trigger] child_done(
                                    vs@,
                                    colors@,
                                    stack@,
                                    t,
                                    c,
                                ) by {
                                    if t < full.len() - 1 {
                                        assert(stack@[t] == full[t]);
                                        if t + 1 < full.len() - 1 {
                                            assert(stack@[t + 1] == full[t + 1]);
                                        } else {
                                            assert(stack@[t + 1] == (v, (k + 1) as usize));
                                            assert(full[t + 1] == (v, k));
                                        }
                                        assert(stack@[t + 1].0 == full[t + 1].0);
                                        assert(child_done(vs@, old_colors, full, t, c));
                                        let m = idx_of(vs@, vs@[full[t].0 as int].adj@[c]@);
                                        if old_colors[m] == 2 {
                                            assert(m != j as int);
                                        }
                                    } else if t == full.len() - 1 {
                                        assert(stack@[t] == (v, (k + 1) as usize));
                                        if c < k as int {
                                            assert(child_done(vs@, old_colors, full, t, c));
                                            let m = idx_of(vs@, vs@[v as int].adj@[c]@);
                                            assert(old_colors[m] == 2);
                                            assert(m != j as int);
                                        } else {
                                            assert(c == k as int);
                                            assert(idx_of(vs@, vs@[v as int].adj@[c]@) == j as int);
                                            assert(stack@[t + 1].0 == j);
                                        }
                                    }
                                }
                                assert forall|q: int| 0 <= q < colors@.len()
                                    && #[trigger] colors@[q] == 1 implies on_stack(stack@, q) by {
                                    if q == j as int {
                                        assert(stack@[stack@.len() - 1].0 == j);
                                    } else {
                                        assert(old_colors[q] == 1);
                                        let t = choose|t: int| 0 <= t < full.len()
                                            && (#[trigger] full[t]).0 == q;
                                        if t < full.len() - 1 {
                                            assert(stack@[t] == full[t]);
                                        } else {
                                            assert(q == v as int);
                                            assert(stack@[full.len() - 1].0 == v);
                                        }
                                    }
                                }
                                assert(grays_on_stack(colors@, stack@));
                                // The measure: one fewer unexplored vertex.
                                lemma_num_white_update(
                                    old_colors,
                                    j as int,
                                    1,
                                    old_colors.len() as int,
                                );
                                assert(num_white(colors@, colors@.len() as int) + 1 == num_white(
                                    old_colors,
                                    old_colors.len() as int,
                                ));
                            }
                        } else {
                            assert(old_colors[j as int] == 2);
                            proof {
                                assert forall|t: int, c: int| 0 <= t < stack@.len()
                                    && 0 <= c < stack@[t].1 implies #[trigger] child_done(
                                    vs@,
                                    colors@,
                                    stack@,
                                    t,
                                    c,
                                ) by {
                                    if t < full.len() - 1 {
                                        assert(stack@[t] == full[t]);
                                        if t + 1 < full.len() - 1 {
                                            assert(stack@[t + 1] == full[t + 1]);
                                        } else {
                                            assert(stack@[t + 1] == (v, (k + 1) as usize));
                                            assert(full[t + 1] == (v, k));
                                        }
                                        assert(stack@[t + 1].0 == full[t + 1].0);
                                        assert(child_done(vs@, old_colors, full, t, c));
                                    } else {
                                        assert(stack@[t] == (v, (k + 1) as usize));
                                        if c < k as int {
                                            assert(child_done(vs@, old_colors, full, t, c));
                                        } else {
                                            assert(c == k as int);
                                            assert(idx_of(vs@, vs@[v as int].adj@[c]@) == j as int);
                                        }
                                    }
                                }
                                assert forall|q: int| 0 <= q < colors@.len()
                                    && #[trigger] colors@[q] == 1 implies on_stack(stack@, q) by {
                                    let t = choose|t: int| 0 <= t < full.len()
                                        && (#[trigger] full[t]).0 == q;
                                    if t < full.len() - 1 {
                                        assert(stack@[t] == full[t]);
                                    } else {
                                        assert(q == v as int);
                                        assert(stack@[full.len() - 1].0 == v);
                                    }
                                }
                                assert(grays_on_stack(colors@, stack@));
                                // The measure: the same stack height, one
                                // adjacency entry fewer left to walk.
                                assert(stack@ == full.drop_last().push((v, (k + 1) as usize)));
                                assert(stack@.drop_last() == full.drop_last());
                                assert(stack@.last() == (v, (k + 1) as usize));
                                assert(sum_remaining(vs@, stack@) == sum_remaining(
                                    vs@,
                                    full.drop_last(),
                                ) + rem_of(vs@, (v, (k + 1) as usize)));
                                assert(sum_remaining(vs@, full) == sum_remaining(
                                    vs@,
                                    full.drop_last(),
                                ) + rem_of(vs@, (v, k)));
                                assert(rem_of(vs@, (v, (k + 1) as usize)) + 1 == rem_of(
                                    vs@,
                                    (v, k),
                                ));
                            }
                        }
                    }
                }
            }
            proof {
                assert forall|q: int| 0 <= q < n implies colors@[q] != 1 by {
                    if colors@[q] == 1 {
                        assert(on_stack(stack@, q));
                    }
                }
                assert(colors@[s as int] == 2);
            }
        }
        s = s + 1;
    }
    proof {
        assert forall|i2: int, j2: int| #[trigger] edge(vs@, i2, j2) implies rank.dom().contains(i2)
            && rank.dom().contains(j2) && rank[j2] < rank[i2] by {
            assert(colors@[i2] == 2);
            assert(colors@[j2] == 2);
        }
        lemma_ranked_acyclic(vs@, rank);
    }
    None
}

/// Returns the first adjacency entry that names no declared vertex, or
/// `None` exactly when the vertex set is complete.
#[verifier::loop_isolation(false)]
fn first_dangling(vs: &Vec<Vertex>) -> (r: Option<String>)
    ensures
        match r {
            Some(m) => dangling(vs@, m@),
            None => complete(vs@),
        },
{
    let mut i: usize = 0;
    while i < vs.len()
        invariant
            i <= vs@.len(),
            forall|q: int, c: int| #![trigger vs@[q].adj@[c]]
                0 <= q < i && 0 <= c < vs@[q].adj@.len() ==> has_vertex(vs@, vs@[q].adj@[c]@),
        decreases vs@.len() - i,
    {
        let mut k: usize = 0;
        while k < vs[i].adj.len()
            invariant
                i < vs@.len(),
                k <= vs@[i as int].adj@.len(),
                forall|c: int| 0 <= c < k ==> has_vertex(vs@, vs@[i as int].adj@[c]@),
            decreases vs@[i as int].adj@.len() - k,
        {
            match find_vertex(vs, &vs[i].adj[k]) {
                Some(_) => {},
                None => {
                    return Some(vs[i].adj[k].clone());
                },
            }
            k = k + 1;
        }
        i = i + 1;
    }
    None
}

/// Collects the names of the vertices that no adjacency entry references,
/// in declaration order.
#[verifier::loop_isolation(false)]
fn compute_roots(vs: &Vec<Vertex>) -> (r: Vec<String>)
    ensures
        r@.map_values(|s: String| s@) == root_names(vs@, vs@.len() as int),
{
    let mut roots: Vec<String> = Vec::new();
    let mut j: usize = 0;
    while j < vs.len()
        invariant
            j <= vs@.len(),
            roots@.map_values(|s: String| s@) == root_names(vs@, j as int),
        decreases vs@.len() - j,
    {
        if !has_incoming_exec(vs, j) {
            let name = vs[j].name.clone();
            roots.push(name);
            proof {
                assert(roots@.map_values(|s: String| s@) =~= root_names(vs@, j + 1));
            }
        } else {
            proof {
                assert(root_names(vs@, j + 1) == root_names(vs@, j as int));
            }
        }
        j = j + 1;
    }
    roots
}

/// A validated directed acyclic graph: a complete, cycle-free vertex set
/// together with its roots, the vertices no adjacency entry references.
pub struct Graph {
    pub vertices: Vec<Vertex>,
    pub roots: Vec<String>,
}

/// What a successful validation promises: the vertex set is kept as given,
/// it is complete and acyclic, and the root list holds exactly the names
/// of the vertices without incoming references, in declaration order.
pub open spec fn validate_ok(vs: Seq<Vertex>, g: Graph) -> bool {
    &&& g.vertices@ == vs
    &&& complete(vs)
    &&& !cyclic(vs)
    &&& g.roots@.map_values(|s: String| s@) == root_names(vs, vs.len() as int)
}

/// What each validation error means.  An incomplete set is always reported
/// as `IncompleteGraph`; a cycle is reported only once the set is complete.
pub open spec fn validate_err(vs: Seq<Vertex>, e: Error) -> bool {
    match e {
        Error::IncompleteGraph(m) => dangling(vs, m@),
        Error::CyclicGraph(m) => complete(vs) && cyclic(vs) && exists|j: int|
            0 <= j < vs.len() && (#[trigger] vs[j]).name@ == m@ && on_cycle(vs, j),
        _ => false,
    }
}

/// The full contract of validation, over both outcomes.
pub open spec fn validate_post(vs: Seq<Vertex>, r: Result<Graph, Error>) -> bool {
    match r {
        Ok(g) => validate_ok(vs, g),
        Err(e) => validate_err(vs, e),
    }
}

impl Graph {
    /// Validate a vertex set with unique names: reject a dangling adjacency
    /// reference with `IncompleteGraph` and a directed cycle with
    /// `CyclicGraph`, and otherwise compute the root set.
    pub fn new(vs: Vec<Vertex>) -> (r: Result<Graph, Error>)
        requires
            unique_names(vs@),
        ensures
            validate_post(vs@, r),
    {
        if let Some(m) = first_dangling(&vs) {
            return Err(Error::IncompleteGraph(m));
        }
        match find_cycle_vertex(&vs) {
            Some(j) => {
                let name = vs[j].name.clone();
                proof {
                    assert(vs@[j as int].name@ == name@ && on_cycle(vs@, j as int));
                }
                Err(Error::CyclicGraph(name))
            },
            None => {
                let roots = compute_roots(&vs);
                Ok(Graph { vertices: vs, roots })
            },
        }
    }
}

/// A vertex set with a directed cycle never validates: the result is an
/// error, and once the set is complete that error names a cycle.
pub proof fn lemma_cyclic_never_validates(vs: Seq<Vertex>, r: Result<Graph, Error>)
    requires
        validate_post(vs, r),
        cyclic(vs),
    ensures
        !(r is Ok),
        complete(vs) ==> r matches Err(Error::CyclicGraph(_)),
{
    match r {
        Ok(_) => {},
        Err(e) => {
            match e {
                Error::IncompleteGraph(m) => {
                    assert(dangling(vs, m@));
                    let (i, k) = choose|i: int, k: int|
                        0 <= i < vs.len() && 0 <= k < vs[i].adj@.len() && vs[i].adj@[k]@ == m@;
                    assert(vs[i].adj@[k] == vs[i].adj@[k]);
                    assert(!complete(vs));
                },
                _ => {},
            }
        },
    }
}

/// A vertex set with a dangling adjacency reference is always rejected as
/// incomplete, whether or not it also has a cycle.
pub proof fn lemma_dangling_never_validates(vs: Seq<Vertex>, r: Result<Graph, Error>)
    requires
        validate_post(vs, r),
        !complete(vs),
    ensures
        r matches Err(Error::IncompleteGraph(_)),
{
}

/// Membership in the computed root list is exactly "has no incoming
/// reference": the list built over the first `upto` vertices holds a name
/// exactly when some vertex among them carries it and nothing names it.
pub proof fn lemma_root_names_exact(vs: Seq<Vertex>, upto: int, n: Seq<char>)
    requires
        0 <= upto <= vs.len(),
    ensures
        root_names(vs, upto).contains(n) <==> exists|j: int|
            0 <= j < upto && vs[j].name@ == n && !has_incoming(vs, j),
    decreases upto,
{
    if upto > 0 {
        lemma_root_names_exact(vs, upto - 1, n);
        if !has_incoming(vs, upto - 1) && vs[upto - 1].name@ == n {
            assert(root_names(vs, upto)[root_names(vs, upto).len() - 1] == n);
        }
        if root_names(vs, upto - 1).contains(n) {
            let t = choose|t: int|
                0 <= t < root_names(vs, upto - 1).len() && #[trigger] root_names(
                    vs,
                    upto - 1,
                )[t] == n;
            if !has_incoming(vs, upto - 1) {
                assert(root_names(vs, upto)[t] == n);
            }
        }
    }
}

/// The root set of a validated graph holds exactly the names of the
/// vertices with zero incoming references.
pub proof fn lemma_validated_roots_exact(vs: Seq<Vertex>, g: Graph, n: Seq<char>)
    requires
        validate_ok(vs, g),
    ensures
        g.roots@.map_values(|s: String| s@).contains(n) <==> exists|j: int|
            0 <= j < vs.len() && vs[j].name@ == n && !has_incoming(vs, j),
{
    lemma_root_names_exact(vs, vs.len() as int, n);
}

} // verus!
