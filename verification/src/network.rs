use vstd::prelude::*;

use crate::channel::new_channel;
use crate::channel::recv_msg;
use crate::channel::send_msg;
use crate::graph::Error;
use crate::graph::Graph;
use crate::graph::Vertex;
use crate::graph::complete;
use crate::graph::has_vertex;
use crate::graph::unique_names;
use crate::msgmap::MsgMap;
use crate::msgmap::lookup;
use crate::msgmap::last_match_idx;

verus! {

/// One node of a compiled network: its wiring, and, once defined, its
/// state and transition function.  `senders[k]` is the sending half of
/// the channel for the edge to `adj[k]`; `receivers` holds the receiving
/// half of one channel per incoming edge.
#[verifier::reject_recursive_types(T)]
pub struct Process<T, S, F> {
    pub name: String,
    pub adj: Vec<String>,
    pub senders: Vec<std::sync::mpsc::Sender<(String, T)>>,
    pub receivers: Vec<std::sync::mpsc::Receiver<(String, T)>>,
    pub initial_state: Option<S>,
    pub body: Option<F>,
}

/// A compiled, not yet running network: one process per vertex.
#[verifier::reject_recursive_types(T)]
pub struct Network<T, S, F> {
    pub procs: Vec<Process<T, S, F>>,
}

/// The views of a list of names.
pub open spec fn names_of(adj: Seq<String>) -> Seq<Seq<char>> {
    adj.map_values(|s: String| s@)
}

/// No two processes share a name.
pub open spec fn unique_pnames<T, S, F>(ps: Seq<Process<T, S, F>>) -> bool {
    forall|i: int, j: int| #![trigger ps[i], ps[j]]
        0 <= i < ps.len() && 0 <= j < ps.len() && i != j ==> ps[i].name@ != ps[j].name@
}

/// Some process is named `n`.
pub open spec fn has_pname<T, S, F>(ps: Seq<Process<T, S, F>>, n: Seq<char>) -> bool {
    exists|i: int| 0 <= i < ps.len() && ps[i].name@ == n
}

/// How many of the first `upto` entries of `adj` are the name `n`.
pub open spec fn row_count(adj: Seq<Seq<char>>, upto: int, n: Seq<char>) -> nat
    decreases upto,
{
    if upto <= 0 {
        0
    } else if adj[upto - 1] == n {
        row_count(adj, upto - 1, n) + 1
    } else {
        row_count(adj, upto - 1, n)
    }
}

/// The sending halves held across the whole network.
pub open spec fn total_senders<T, S, F>(ps: Seq<Process<T, S, F>>) -> nat
    decreases ps.len(),
{
    if ps.len() == 0 {
        0
    } else {
        total_senders(ps.drop_last()) + ps.last().senders@.len()
    }
}

/// The receiving halves held across the whole network.
pub open spec fn total_receivers<T, S, F>(ps: Seq<Process<T, S, F>>) -> nat
    decreases ps.len(),
{
    if ps.len() == 0 {
        0
    } else {
        total_receivers(ps.drop_last()) + ps.last().receivers@.len()
    }
}

/// The adjacency entries, that is the edges, of the first `upto` vertices.
pub open spec fn total_edges(vs: Seq<Vertex>, upto: int) -> nat
    decreases upto,
{
    if upto <= 0 {
        0
    } else {
        total_edges(vs, upto - 1) + vs[upto - 1].adj@.len()
    }
}

/// Replacing one process changes the sender total by the difference of
/// that process's sender count.
proof fn lemma_total_senders_update<T, S, F>(
    ps: Seq<Process<T, S, F>>,
    j: int,
    p: Process<T, S, F>,
)
    requires
        0 <= j < ps.len(),
    ensures
        total_senders(ps.update(j, p)) + ps[j].senders@.len() == total_senders(ps)
            + p.senders@.len(),
    decreases ps.len(),
{
    if j == ps.len() - 1 {
        assert(ps.update(j, p).drop_last() =~= ps.drop_last());
    } else {
        assert(ps.update(j, p).drop_last() =~= ps.drop_last().update(j, p));
        lemma_total_senders_update(ps.drop_last(), j, p);
    }
}

/// Replacing one process changes the receiver total by the difference of
/// that process's receiver count.
proof fn lemma_total_receivers_update<T, S, F>(
    ps: Seq<Process<T, S, F>>,
    j: int,
    p: Process<T, S, F>,
)
    requires
        0 <= j < ps.len(),
    ensures
        total_receivers(ps.update(j, p)) + ps[j].receivers@.len() == total_receivers(ps)
            + p.receivers@.len(),
    decreases ps.len(),
{
    if j == ps.len() - 1 {
        assert(ps.update(j, p).drop_last() =~= ps.drop_last());
    } else {
        assert(ps.update(j, p).drop_last() =~= ps.drop_last().update(j, p));
        lemma_total_receivers_update(ps.drop_last(), j, p);
    }
}

/// A name matched by no entry of a prefix is counted zero times in it.
proof fn lemma_row_count_zero(adj: Seq<Seq<char>>, upto: int, n: Seq<char>)
    requires
        forall|c: int| 0 <= c < upto ==> adj[c] != n,
    ensures
        row_count(adj, upto, n) == 0,
    decreases upto,
{
    if upto > 0 {
        lemma_row_count_zero(adj, upto - 1, n);
    }
}

/// A prefix survives one push at the end.
proof fn lemma_prefix_push<A>(a: Seq<A>, b: Seq<A>, x: A)
    requires
        a.is_prefix_of(b),
    ensures
        a.is_prefix_of(b.push(x)),
{
    assert(b.push(x).subrange(0, a.len() as int) =~= b.subrange(0, a.len() as int));
}

/// Returns the index of the process named `n`, if any.
fn find_proc<T, S, F>(ps: &Vec<Process<T, S, F>>, n: &String) -> (r: Option<usize>)
    ensures
        match r {
            Some(j) => j < ps@.len() && ps@[j as int].name@ == n@,
            None => !has_pname(ps@, n@),
        },
{
    let mut i: usize = 0;
    while i < ps.len()
        invariant
            i <= ps@.len(),
            forall|q: int| 0 <= q < i ==> ps@[q].name@ != n@,
        decreases ps@.len() - i,
    {
        if ps[i].name == *n {
            return Some(i);
        }
        i = i + 1;
    }
    None
}

/// Allocates one channel per adjacency entry of `ps[px]`: the sending
/// half goes to `ps[px]`, the receiving half to the named target, which
/// is created as a bare stub when it does not exist yet.
#[verifier::loop_isolation(false)]
#[verifier::rlimit(60)]
fn wire_edges<T, S, F>(ps: &mut Vec<Process<T, S, F>>, px: usize)
    requires
        px < old(ps)@.len(),
        unique_pnames(old(ps)@),
    ensures
        final(ps)@.len() >= old(ps)@.len(),
        unique_pnames(final(ps)@),
        forall|j: int| 0 <= j < old(ps)@.len() ==> (#[trigger] final(ps)@[j]).name
            == old(ps)@[j].name && final(ps)@[j].adj == old(ps)@[j].adj
            && final(ps)@[j].initial_state == old(ps)@[j].initial_state && final(ps)@[j].body
            == old(ps)@[j].body,
        forall|j: int| 0 <= j < old(ps)@.len() && j != px ==> (#[trigger] final(ps)@[j]).senders
            == old(ps)@[j].senders,
        final(ps)@[px as int].senders@.len() == old(ps)@[px as int].senders@.len()
            + old(ps)@[px as int].adj@.len(),
        forall|j: int| 0 <= j < final(ps)@.len() ==> (#[trigger] final(ps)@[j]).receivers@.len()
            == (if j < old(ps)@.len() {
            old(ps)@[j].receivers@.len() as int
        } else {
            0
        }) + row_count(
            names_of(old(ps)@[px as int].adj@),
            old(ps)@[px as int].adj@.len() as int,
            final(ps)@[j].name@,
        ),
        forall|j: int| old(ps)@.len() <= j < final(ps)@.len()
            ==> (#[trigger] final(ps)@[j]).adj@.len() == 0
            && final(ps)@[j].senders@.len() == 0
            && final(ps)@[j].initial_state is None && final(ps)@[j].body is None
            && !has_pname(old(ps)@, final(ps)@[j].name@)
            && row_count(
            names_of(old(ps)@[px as int].adj@),
            old(ps)@[px as int].adj@.len() as int,
            final(ps)@[j].name@,
        ) > 0,
        old(ps)@[px as int].senders@.is_prefix_of(final(ps)@[px as int].senders@),
        forall|j: int| 0 <= j < old(ps)@.len() ==> old(ps)@[j].receivers@.is_prefix_of(
            (#[trigger] final(ps)@[j]).receivers@,
        ),
        forall|j: int| 0 <= j < old(ps)@.len() && row_count(
            names_of(old(ps)@[px as int].adj@),
            old(ps)@[px as int].adj@.len() as int,
            final(ps)@[j].name@,
        ) == 0 ==> (#[trigger] final(ps)@[j]).receivers == old(ps)@[j].receivers,
        total_senders(final(ps)@) == total_senders(old(ps)@) + old(ps)@[px as int].adj@.len(),
        total_receivers(final(ps)@) == total_receivers(old(ps)@) + old(ps)@[px as int].adj@.len(),
{
    let ghost ps0 = ps@;
    let ghost adjv = names_of(ps0[px as int].adj@);
    let n_adj = ps[px].adj.len();
    proof {
        assert(ps0[px as int].senders@.subrange(0, ps0[px as int].senders@.len() as int) =~= ps0[px as int].senders@);
        assert forall|j: int| 0 <= j < ps0.len() implies ps0[j].receivers@.is_prefix_of(
            (#[trigger] ps@[j]).receivers@,
        ) by {
            assert(ps0[j].receivers@.subrange(0, ps0[j].receivers@.len() as int) =~= ps0[j].receivers@);
        }
    }
    let mut k: usize = 0;
    while k < n_adj
        invariant
            k <= n_adj,
            px < ps@.len(),
            ps@.len() >= ps0.len(),
            unique_pnames(ps@),
            ps@[px as int].adj == ps0[px as int].adj,
            forall|j: int| 0 <= j < ps0.len() ==> (#[trigger] ps@[j]).name == ps0[j].name
                && ps@[j].adj == ps0[j].adj && ps@[j].initial_state == ps0[j].initial_state
                && ps@[j].body == ps0[j].body,
            forall|j: int| 0 <= j < ps0.len() && j != px ==> (#[trigger] ps@[j]).senders
                == ps0[j].senders,
            ps@[px as int].senders@.len() == ps0[px as int].senders@.len() + k,
            forall|j: int| 0 <= j < ps@.len() ==> (#[trigger] ps@[j]).receivers@.len() == (if j
                < ps0.len() {
                ps0[j].receivers@.len() as int
            } else {
                0
            }) + row_count(adjv, k as int, ps@[j].name@),
            forall|j: int| ps0.len() <= j < ps@.len() ==> (#[trigger] ps@[j]).adj@.len() == 0
                && ps@[j].senders@.len() == 0 && ps@[j].initial_state is None
                && ps@[j].body is None && !has_pname(ps0, ps@[j].name@)
                && row_count(adjv, k as int, ps@[j].name@) > 0,
            forall|c: int| 0 <= c < k ==> has_pname(ps@, adjv[c]),
            ps0[px as int].senders@.is_prefix_of(ps@[px as int].senders@),
            forall|j: int| 0 <= j < ps0.len() ==> ps0[j].receivers@.is_prefix_of(
                (#[trigger] ps@[j]).receivers@,
            ),
            forall|j: int| 0 <= j < ps0.len() && row_count(adjv, k as int, ps@[j].name@) == 0
                ==> (#[trigger] ps@[j]).receivers == ps0[j].receivers,
            total_senders(ps@) == total_senders(ps0) + k,
            total_receivers(ps@) == total_receivers(ps0) + k,
        decreases n_adj - k,
    {
        let tname = ps[px].adj[k].clone();
        proof {
            assert(tname@ == adjv[k as int]);
        }
        let (sh, rh) = new_channel::<(String, T)>();
        let ghost before = ps@;
        let mut p = ps.remove(px);
        p.senders.push(sh);
        ps.insert(px, p);
        proof {
            assert(ps@ =~= before.update(px as int, ps@[px as int]));
            lemma_total_senders_update(before, px as int, ps@[px as int]);
            lemma_total_receivers_update(before, px as int, ps@[px as int]);
            assert(ps@[px as int].senders@ == before[px as int].senders@.push(sh));
            lemma_prefix_push(ps0[px as int].senders@, before[px as int].senders@, sh);
        }
        let ghost mid = ps@;
        match find_proc(ps, &tname) {
            Some(t) => {
                let mut q = ps.remove(t);
                q.receivers.push(rh);
                ps.insert(t, q);
                proof {
                    assert(ps@ =~= mid.update(t as int, ps@[t as int]));
                    lemma_total_senders_update(mid, t as int, ps@[t as int]);
                    lemma_total_receivers_update(mid, t as int, ps@[t as int]);
                    assert forall|j: int| ps0.len() <= j < ps@.len() implies (#[trigger] ps@[j]).adj@.len()
                        == 0 && ps@[j].senders@.len() == 0 && ps@[j].initial_state is None
                        && ps@[j].body is None && !has_pname(ps0, ps@[j].name@) by {
                        assert(px < ps0.len());
                        if j != t as int {
                            assert(ps@[j] == mid[j]);
                            assert(mid[j] == before[j]);
                        } else {
                            assert(mid[j] == before[j]);
                        }
                        assert(row_count(adjv, k as int, ps@[j].name@) > 0);
                        assert(row_count(adjv, k + 1, ps@[j].name@) >= row_count(
                            adjv,
                            k as int,
                            ps@[j].name@,
                        ));
                    }
                    assert forall|j: int| 0 <= j < ps@.len() implies (#[trigger] ps@[j]).receivers@.len()
                        == (if j < ps0.len() {
                        ps0[j].receivers@.len() as int
                    } else {
                        0
                    }) + row_count(adjv, k + 1, ps@[j].name@) by {
                        if j == t as int {
                            assert(ps@[j].name@ == adjv[k as int]);
                        } else {
                            assert(ps@[j].name@ != adjv[k as int]);
                        }
                    }
                    assert(ps@[t as int].name@ == adjv[k as int]);
                    assert(has_pname(ps@, adjv[k as int]));
                    assert forall|j: int| 0 <= j < ps0.len() implies ps0[j].receivers@.is_prefix_of(
                        (#[trigger] ps@[j]).receivers@,
                    ) by {
                        if j == t as int {
                            assert(ps@[j].receivers@ == mid[j].receivers@.push(rh));
                            lemma_prefix_push(ps0[j].receivers@, mid[j].receivers@, rh);
                        } else {
                            assert(ps@[j].receivers@ == before[j].receivers@);
                        }
                    }
                    assert forall|j: int| 0 <= j < ps0.len() && row_count(
                        adjv,
                        k + 1,
                        ps@[j].name@,
                    ) == 0 implies (#[trigger] ps@[j]).receivers == ps0[j].receivers by {
                        assert(ps@[j].name@ != adjv[k as int]);
                        assert(j != t as int);
                        assert(row_count(adjv, k as int, ps@[j].name@) == 0);
                        assert(ps@[j].receivers == before[j].receivers);
                    }
                    assert forall|w: int| 0 <= w < before.len() implies (#[trigger] ps@[w]).name@
                        == before[w].name@ by {
                        if w != t as int && w != px as int {
                            assert(ps@[w] == before[w]);
                        }
                    }
                }
            },
            None => {
                let mut rv: Vec<std::sync::mpsc::Receiver<(String, T)>> = Vec::new();
                rv.push(rh);
                let stub = Process {
                    name: tname,
                    adj: Vec::new(),
                    senders: Vec::new(),
                    receivers: rv,
                    initial_state: None,
                    body: None,
                };
                ps.push(stub);
                proof {
                    assert(ps@.drop_last() =~= mid);
                    assert forall|c: int| 0 <= c < k implies adjv[c] != adjv[k as int] by {
                        assert(has_pname(before, adjv[c]));
                        let w = choose|w: int|
                            0 <= w < before.len() && before[w].name@ == adjv[c];
                        assert(mid[w].name@ == adjv[c]);
                        assert(has_pname(mid, adjv[c]));
                    }
                    assert forall|j: int| ps0.len() <= j < ps@.len() implies (#[trigger] ps@[j]).adj@.len()
                        == 0 && ps@[j].senders@.len() == 0 && ps@[j].initial_state is None
                        && ps@[j].body is None && !has_pname(ps0, ps@[j].name@) by {
                        assert(px < ps0.len());
                        if j < ps@.len() - 1 {
                            assert(ps@[j] == mid[j]);
                            assert(mid[j] == before[j]);
                            assert(row_count(adjv, k as int, ps@[j].name@) > 0);
                            assert(row_count(adjv, k + 1, ps@[j].name@) >= row_count(
                                adjv,
                                k as int,
                                ps@[j].name@,
                            ));
                        } else {
                            assert(ps@[j].name@ == adjv[k as int]);
                            assert(row_count(adjv, k + 1, ps@[j].name@) > 0);
                            if has_pname(ps0, ps@[j].name@) {
                                let w = choose|w: int|
                                    0 <= w < ps0.len() && ps0[w].name@ == ps@[j].name@;
                                assert(before[w].name@ == ps@[j].name@);
                                assert(mid[w].name@ == ps@[j].name@);
                                assert(has_pname(mid, ps@[j].name@));
                                assert(false);
                            }
                        }
                    }
                    lemma_row_count_zero(adjv, k as int, adjv[k as int]);
                    assert forall|j: int| 0 <= j < ps@.len() implies (#[trigger] ps@[j]).receivers@.len()
                        == (if j < ps0.len() {
                        ps0[j].receivers@.len() as int
                    } else {
                        0
                    }) + row_count(adjv, k + 1, ps@[j].name@) by {
                        if j < ps@.len() - 1 {
                            assert(ps@[j] == mid[j]);
                            assert(ps@[j].name@ != adjv[k as int]);
                        } else {
                            assert(ps@[j].name@ == adjv[k as int]);
                            assert(row_count(adjv, k as int, adjv[k as int]) == 0);
                        }
                    }
                    assert forall|i: int, j: int| #![trigger ps@[i], ps@[j]]
                        0 <= i < ps@.len() && 0 <= j < ps@.len() && i != j implies ps@[i].name@
                        != ps@[j].name@ by {
                        if j == ps@.len() - 1 {
                            assert(!has_pname(mid, ps@[j].name@));
                            assert(ps@[i] == mid[i]);
                        } else if i == ps@.len() - 1 {
                            assert(!has_pname(mid, ps@[i].name@));
                            assert(ps@[j] == mid[j]);
                        } else {
                            assert(ps@[i] == mid[i]);
                            assert(ps@[j] == mid[j]);
                        }
                    }
                    assert(ps@[ps@.len() - 1].name@ == adjv[k as int]);
                    assert(has_pname(ps@, adjv[k as int]));
                    assert forall|j: int| 0 <= j < ps0.len() && row_count(
                        adjv,
                        k + 1,
                        ps@[j].name@,
                    ) == 0 implies (#[trigger] ps@[j]).receivers == ps0[j].receivers by {
                        assert(row_count(adjv, k as int, ps@[j].name@) == 0);
                        assert(ps@[j].receivers == before[j].receivers);
                    }
                    assert forall|w: int| 0 <= w < before.len() implies (#[trigger] ps@[w]).name@
                        == before[w].name@ by {
                        if w != px as int {
                            assert(ps@[w] == mid[w]);
                        }
                    }
                }
            },
        }
        proof {
            assert forall|c: int| 0 <= c < k + 1 implies has_pname(ps@, adjv[c]) by {
                if c < k {
                    assert(has_pname(before, adjv[c]));
                    let w = choose|w: int| 0 <= w < before.len() && before[w].name@ == adjv[c];
                    assert(ps@[w].name@ == adjv[c]);
                }
            }
        }
        k = k + 1;
    }
}

/// The incoming references the first `upto` vertices make to the name `n`:
/// one per matching adjacency entry.
pub open spec fn incoming_from(vs: Seq<Vertex>, upto: int, n: Seq<char>) -> nat
    decreases upto,
{
    if upto <= 0 {
        0
    } else {
        incoming_from(vs, upto - 1, n) + row_count(
            names_of(vs[upto - 1].adj@),
            vs[upto - 1].adj@.len() as int,
            n,
        )
    }
}

/// A network whose processes hold no channel halves has zero totals.
proof fn lemma_total_zero<T, S, F>(ps: Seq<Process<T, S, F>>)
    requires
        forall|j: int| 0 <= j < ps.len() ==> (#[trigger] ps[j]).senders@.len() == 0
            && ps[j].receivers@.len() == 0,
    ensures
        total_senders(ps) == 0,
        total_receivers(ps) == 0,
    decreases ps.len(),
{
    if ps.len() > 0 {
        lemma_total_zero(ps.drop_last());
    }
}

/// A positive count means some prefix entry carries the name.
proof fn lemma_row_count_pos(adj: Seq<Seq<char>>, upto: int, n: Seq<char>)
    requires
        row_count(adj, upto, n) > 0,
    ensures
        exists|c: int| 0 <= c < upto && adj[c] == n,
    decreases upto,
{
    if upto > 0 && adj[upto - 1] != n {
        lemma_row_count_pos(adj, upto - 1, n);
    }
}

impl Graph {
    /// Compile the validated graph into a network: exactly one channel per
    /// edge, its sending half stored with the edge's source in adjacency
    /// order and its receiving half with the edge's target.  The processes
    /// carry no state or transition function yet.
    #[verifier::loop_isolation(false)]
    #[verifier::rlimit(60)]
    pub fn to_network<T, S, F>(self) -> (net: Network<T, S, F>)
        requires
            unique_names(self.vertices@),
            complete(self.vertices@),
        ensures
            net.procs@.len() == self.vertices@.len(),
            forall|j: int| 0 <= j < self.vertices@.len() ==> (#[trigger] net.procs@[j]).name
                == self.vertices@[j].name && net.procs@[j].adj == self.vertices@[j].adj
                && net.procs@[j].initial_state is None && net.procs@[j].body is None,
            forall|j: int| 0 <= j < self.vertices@.len() ==> (#[trigger] net.procs@[j]).senders@.len()
                == self.vertices@[j].adj@.len(),
            forall|j: int| 0 <= j < self.vertices@.len() ==> (#[trigger] net.procs@[j]).receivers@.len()
                == incoming_from(self.vertices@, self.vertices@.len() as int, net.procs@[j].name@),
            total_senders(net.procs@) == total_edges(self.vertices@, self.vertices@.len() as int),
            total_receivers(net.procs@) == total_edges(self.vertices@, self.vertices@.len() as int),
    {
        let ghost vs0 = self.vertices@;
        let mut vertices = self.vertices;
        let n = vertices.len();
        let mut procs: Vec<Process<T, S, F>> = Vec::new();
        let mut i: usize = 0;
        while i < n
            invariant
                i <= n,
                vertices@ =~= vs0.skip(i as int),
                procs@.len() == i as int,
                forall|j: int| 0 <= j < i ==> (#[trigger] procs@[j]).name == vs0[j].name
                    && procs@[j].adj == vs0[j].adj && procs@[j].senders@.len() == 0
                    && procs@[j].receivers@.len() == 0 && procs@[j].initial_state is None
                    && procs@[j].body is None,
            decreases n - i,
        {
            let v = vertices.remove(0);
            proof {
                assert(v == vs0[i as int]);
                assert(vertices@ =~= vs0.skip(i + 1));
            }
            procs.push(
                Process {
                    name: v.name,
                    adj: v.adj,
                    senders: Vec::new(),
                    receivers: Vec::new(),
                    initial_state: None,
                    body: None,
                },
            );
            i = i + 1;
        }
        proof {
            assert(unique_pnames(procs@));
            lemma_total_zero(procs@);
        }
        let mut px: usize = 0;
        while px < n
            invariant
                px <= n,
                procs@.len() == n as int,
                unique_pnames(procs@),
                forall|j: int| 0 <= j < n ==> (#[trigger] procs@[j]).name == vs0[j].name
                    && procs@[j].adj == vs0[j].adj && procs@[j].initial_state is None
                    && procs@[j].body is None,
                forall|j: int| 0 <= j < px ==> (#[trigger] procs@[j]).senders@.len()
                    == vs0[j].adj@.len(),
                forall|j: int| px <= j < n ==> (#[trigger] procs@[j]).senders@.len() == 0,
                forall|j: int| 0 <= j < n ==> (#[trigger] procs@[j]).receivers@.len()
                    == incoming_from(vs0, px as int, procs@[j].name@),
                total_senders(procs@) == total_edges(vs0, px as int),
                total_receivers(procs@) == total_edges(vs0, px as int),
            decreases n - px,
        {
            let ghost pre = procs@;
            wire_edges(&mut procs, px);
            proof {
                let adjv = names_of(pre[px as int].adj@);
                let alen = pre[px as int].adj@.len() as int;
                // A stub would carry a name that is already a vertex name,
                // since the graph is complete; so none is created.
                assert forall|j: int| pre.len() <= j < procs@.len() implies (#[trigger] procs@[j]).adj@.len()
                    > 0 by {
                    assert(procs@[j].receivers@.len() == row_count(adjv, alen, procs@[j].name@));
                    if row_count(adjv, alen, procs@[j].name@) > 0 {
                        lemma_row_count_pos(adjv, alen, procs@[j].name@);
                        let c = choose|c: int| 0 <= c < alen && adjv[c] == procs@[j].name@;
                        assert(adjv[c] == vs0[px as int].adj@[c]@);
                        assert(has_vertex(vs0, vs0[px as int].adj@[c]@));
                        let w = choose|w: int| 0 <= w < vs0.len() && vs0[w].name@ == procs@[j].name@;
                        assert(pre[w].name@ == procs@[j].name@);
                        assert(has_pname(pre, procs@[j].name@));
                    }
                }
                assert(procs@.len() == n as int) by {
                    if procs@.len() > n as int {
                        assert(procs@[n as int].adj@.len() == 0);
                        assert(procs@[n as int].adj@.len() > 0);
                    }
                }
                assert forall|j: int| 0 <= j < n implies (#[trigger] procs@[j]).receivers@.len()
                    == incoming_from(vs0, px + 1, procs@[j].name@) by {
                    assert(procs@[j].name@ == pre[j].name@);
                }
            }
            px = px + 1;
        }
        Network { procs }
    }
}

impl<T, S, F> Network<T, S, F> {
    /// An empty network with no processes.
    pub fn new() -> (net: Network<T, S, F>)
        ensures
            net.procs@.len() == 0,
    {
        Network { procs: Vec::new() }
    }

    /// Defines the process `name`: records its successors, initial state
    /// and transition function, and allocates one channel per successor.
    /// Each channel's sending half stays with `name`; its receiving half
    /// goes to the named target, created as a bare stub when it was not
    /// declared yet.  Endpoint halves wired earlier stay in place: the new
    /// halves are appended after them, and a process that is neither
    /// `name` nor one of its targets keeps its endpoint lists unchanged.
    #[verifier::rlimit(60)]
    pub fn add_process(&mut self, name: String, adj: Vec<String>, initial_state: S, body: F)
        requires
            unique_pnames(old(self).procs@),
        ensures
            unique_pnames(final(self).procs@),
            final(self).procs@.len() >= old(self).procs@.len(),
            total_senders(final(self).procs@) == total_senders(old(self).procs@) + adj@.len(),
            total_receivers(final(self).procs@) == total_receivers(old(self).procs@) + adj@.len(),
            forall|j: int| 0 <= j < final(self).procs@.len()
                ==> (#[trigger] final(self).procs@[j]).receivers@.len()
                == (if j < old(self).procs@.len() {
                old(self).procs@[j].receivers@.len() as int
            } else {
                0
            }) + row_count(names_of(adj@), adj@.len() as int, final(self).procs@[j].name@),
            forall|j: int| 0 <= j < old(self).procs@.len() ==> old(
                self,
            ).procs@[j].receivers@.is_prefix_of((#[trigger] final(self).procs@[j]).receivers@),
            forall|j: int| 0 <= j < old(self).procs@.len() && row_count(
                names_of(adj@),
                adj@.len() as int,
                final(self).procs@[j].name@,
            ) == 0 ==> (#[trigger] final(self).procs@[j]).receivers == old(self).procs@[j].receivers,
            forall|j: int| old(self).procs@.len() <= j < final(self).procs@.len()
                && (#[trigger] final(self).procs@[j]).name@ != name@
                ==> final(self).procs@[j].adj@.len() == 0
                && final(self).procs@[j].senders@.len() == 0
                && final(self).procs@[j].initial_state is None
                && final(self).procs@[j].body is None
                && !has_pname(old(self).procs@, final(self).procs@[j].name@)
                && row_count(names_of(adj@), adj@.len() as int, final(self).procs@[j].name@) > 0,
            exists|px: int|
                {
                    &&& 0 <= px < final(self).procs@.len()
                    &&& (#[trigger] final(self).procs@[px]).name@ == name@
                    &&& final(self).procs@[px].adj == adj
                    &&& final(self).procs@[px].initial_state == Some(initial_state)
                    &&& final(self).procs@[px].body == Some(body)
                    &&& (has_pname(old(self).procs@, name@) ==> 0 <= px < old(self).procs@.len()
                        && old(self).procs@[px].name@ == name@
                        && final(self).procs@[px].senders@.len()
                        == old(self).procs@[px].senders@.len() + adj@.len()
                        && old(self).procs@[px].senders@.is_prefix_of(
                        final(self).procs@[px].senders@,
                    ) && old(self).procs@[px].receivers@.is_prefix_of(
                        final(self).procs@[px].receivers@,
                    ))
                    &&& (!has_pname(old(self).procs@, name@) ==> px == old(self).procs@.len()
                        && final(self).procs@[px].senders@.len() == adj@.len())
                    &&& forall|j: int| 0 <= j < old(self).procs@.len() && j != px
                        ==> (#[trigger] final(self).procs@[j]).name == old(self).procs@[j].name
                        && final(self).procs@[j].adj == old(self).procs@[j].adj
                        && final(self).procs@[j].initial_state
                        == old(self).procs@[j].initial_state
                        && final(self).procs@[j].body == old(self).procs@[j].body
                        && final(self).procs@[j].senders == old(self).procs@[j].senders
                },
    {
        let ghost ps0 = self.procs@;
        let px: usize = match find_proc(&self.procs, &name) {
            Some(x) => {
                let ghost before = self.procs@;
                let mut p = self.procs.remove(x);
                p.adj = adj;
                p.initial_state = Some(initial_state);
                p.body = Some(body);
                self.procs.insert(x, p);
                proof {
                    assert(self.procs@ =~= before.update(x as int, self.procs@[x as int]));
                    lemma_total_senders_update(before, x as int, self.procs@[x as int]);
                    lemma_total_receivers_update(before, x as int, self.procs@[x as int]);
                }
                x
            },
            None => {
                let p = Process {
                    name,
                    adj,
                    senders: Vec::new(),
                    receivers: Vec::new(),
                    initial_state: Some(initial_state),
                    body: Some(body),
                };
                self.procs.push(p);
                proof {
                    assert(self.procs@.drop_last() =~= ps0);
                }
                self.procs.len() - 1
            },
        };
        let ghost mid = self.procs@;
        proof {
            assert(unique_pnames(mid)) by {
                assert forall|i: int, j: int| #![trigger mid[i], mid[j]]
                    0 <= i < mid.len() && 0 <= j < mid.len() && i != j implies mid[i].name@
                    != mid[j].name@ by {
                    if i < ps0.len() && j < ps0.len() {
                        assert(mid[i].name@ == ps0[i].name@);
                        assert(mid[j].name@ == ps0[j].name@);
                    } else if j == ps0.len() {
                        assert(!has_pname(ps0, mid[j].name@));
                        assert(mid[i].name@ == ps0[i].name@);
                    } else if i == ps0.len() {
                        assert(!has_pname(ps0, mid[i].name@));
                        assert(mid[j].name@ == ps0[j].name@);
                    }
                }
            }
        }
        wire_edges(&mut self.procs, px);
        proof {
            assert(mid[px as int].adj == adj);
            assert forall|j: int| 0 <= j < self.procs@.len() implies (#[trigger] self.procs@[j]).receivers@.len()
                == (if j < ps0.len() {
                ps0[j].receivers@.len() as int
            } else {
                0
            }) + row_count(names_of(adj@), adj@.len() as int, self.procs@[j].name@) by {
                if j < mid.len() {
                    assert(mid[j].receivers@.len() == (if j < ps0.len() {
                        ps0[j].receivers@.len() as int
                    } else {
                        0int
                    }));
                }
            }
            assert forall|j: int| 0 <= j < ps0.len() implies ps0[j].receivers@.is_prefix_of(
                (#[trigger] self.procs@[j]).receivers@,
            ) by {
                assert(mid[j].receivers == ps0[j].receivers);
            }
            assert forall|j: int| 0 <= j < ps0.len() && row_count(
                names_of(adj@),
                adj@.len() as int,
                self.procs@[j].name@,
            ) == 0 implies (#[trigger] self.procs@[j]).receivers == ps0[j].receivers by {
                assert(self.procs@[j].receivers == mid[j].receivers);
                assert(mid[j].receivers == ps0[j].receivers);
            }
            assert forall|j: int| ps0.len() <= j < self.procs@.len()
                && (#[trigger] self.procs@[j]).name@ != name@ implies self.procs@[j].adj@.len()
                == 0 && self.procs@[j].senders@.len() == 0
                && self.procs@[j].initial_state is None && self.procs@[j].body is None
                && !has_pname(ps0, self.procs@[j].name@)
                && row_count(names_of(adj@), adj@.len() as int, self.procs@[j].name@) > 0 by {
                assert(j >= mid.len());
                assert(!has_pname(mid, self.procs@[j].name@));
                if has_pname(ps0, self.procs@[j].name@) {
                    let w = choose|w: int|
                        0 <= w < ps0.len() && ps0[w].name@ == self.procs@[j].name@;
                    assert(mid[w].name@ == self.procs@[j].name@);
                    assert(has_pname(mid, self.procs@[j].name@));
                    assert(false);
                }
            }
        }
    }

    /// Hands one runnable worker per process to the caller, or reports the
    /// first process that was never given a state and a transition
    /// function.  Nothing runs until the caller drives the workers, so a
    /// failed network never partially starts.
    #[verifier::loop_isolation(false)]
    pub fn start(self) -> (r: Result<Vec<Worker<T, S, F>>, Error>)
        ensures
            match r {
                Ok(ws) => {
                    &&& ws@.len() == self.procs@.len()
                    &&& forall|k: int| 0 <= k < ws@.len() ==> (#[trigger] ws@[k]).name
                        == self.procs@[k].name && ws@[k].adj == self.procs@[k].adj && ws@[k].senders
                        == self.procs@[k].senders && ws@[k].receivers == self.procs@[k].receivers
                        && self.procs@[k].initial_state == Some(ws@[k].state)
                        && self.procs@[k].body == Some(ws@[k].body)
                },
                Err(e) => match e {
                    Error::UndefinedProcess(nm) => exists|k: int|
                        0 <= k < self.procs@.len() && (#[trigger] self.procs@[k]).name@ == nm@ && (
                        self.procs@[k].initial_state is None || self.procs@[k].body is None),
                    _ => false,
                },
            },
    {
        let ghost ps0 = self.procs@;
        let mut procs = self.procs;
        let mut workers: Vec<Worker<T, S, F>> = Vec::new();
        let mut i: usize = 0;
        while procs.len() > 0
            invariant
                i as int + procs@.len() == ps0.len(),
                procs@ =~= ps0.skip(i as int),
                workers@.len() == i as int,
                forall|k: int| 0 <= k < i ==> (#[trigger] workers@[k]).name == ps0[k].name
                    && workers@[k].adj == ps0[k].adj && workers@[k].senders == ps0[k].senders
                    && workers@[k].receivers == ps0[k].receivers && ps0[k].initial_state == Some(
                    workers@[k].state,
                ) && ps0[k].body == Some(workers@[k].body),
            decreases procs@.len(),
        {
            let p = procs.remove(0);
            proof {
                assert(p == ps0[i as int]);
                assert(procs@ =~= ps0.skip(i + 1));
            }
            let Process { name, adj, senders, receivers, initial_state, body } = p;
            match (initial_state, body) {
                (Some(state), Some(f)) => {
                    workers.push(Worker { name, adj, senders, receivers, state, body: f });
                },
                _ => {
                    return Err(Error::UndefinedProcess(name));
                },
            }
            i = workers.len();
        }
        Ok(workers)
    }
}

/// A runnable process: the wiring of one node together with its live
/// state and transition function.
#[verifier::reject_recursive_types(T)]
pub struct Worker<T, S, F> {
    pub name: String,
    pub adj: Vec<String>,
    pub senders: Vec<std::sync::mpsc::Sender<(String, T)>>,
    pub receivers: Vec<std::sync::mpsc::Receiver<(String, T)>>,
    pub state: S,
    pub body: F,
}

/// The entry list left after emitting on an edge named `n`: the latest
/// entry for `n` is consumed, everything else stays.
pub open spec fn emit_next<T>(out: Seq<(String, T)>, n: Seq<char>) -> Seq<(String, T)> {
    if last_match_idx(out, n) >= 0 {
        out.remove(last_match_idx(out, n))
    } else {
        out
    }
}

/// The outbox left after emitting on the first `k` edges of `adj`.
pub open spec fn outbox_after<T>(out: Seq<(String, T)>, adj: Seq<Seq<char>>, k: int) -> Seq<
    (String, T),
>
    decreases k,
{
    if k <= 0 {
        out
    } else {
        emit_next(outbox_after(out, adj, k - 1), adj[k - 1])
    }
}

/// What edge `k` of `adj` carries: the outbox value for its name, if the
/// transition produced one that an earlier duplicate edge did not consume.
pub open spec fn fill_value<T>(out: Seq<(String, T)>, adj: Seq<Seq<char>>, k: int) -> Option<T> {
    lookup(outbox_after(out, adj, k), adj[k])
}

/// Turns one round's outbox into the value for each successor edge, in
/// adjacency order: the value the transition function produced for that
/// edge's name, or the payload type's default value where it produced
/// none, so that no downstream process is left waiting.
pub fn round_outputs<T: Default>(outbox: MsgMap<T>, adj: &Vec<String>) -> (r: Vec<T>)
    ensures
        r@.len() == adj@.len(),
        forall|k: int| 0 <= k < adj@.len() ==> (fill_value(outbox@, names_of(adj@), k) is Some
            ==> fill_value(outbox@, names_of(adj@), k) == Some(#[trigger] r@[k])),
        forall|k: int| 0 <= k < adj@.len() ==> (fill_value(outbox@, names_of(adj@), k) is None
            ==> call_ensures(T::default, (), #[trigger] r@[k])),
{
    let ghost out0 = outbox@;
    let ghost adjv = names_of(adj@);
    let mut out = outbox;
    let mut r: Vec<T> = Vec::new();
    let mut k: usize = 0;
    while k < adj.len()
        invariant
            k <= adj@.len(),
            adjv == names_of(adj@),
            r@.len() == k as int,
            out@ == outbox_after(out0, adjv, k as int),
            forall|q: int| 0 <= q < k ==> (fill_value(out0, adjv, q) is Some ==> fill_value(
                out0,
                adjv,
                q,
            ) == Some(#[trigger] r@[q])),
            forall|q: int| 0 <= q < k ==> (fill_value(out0, adjv, q) is None ==> call_ensures(
                T::default,
                (),
                #[trigger] r@[q],
            )),
        decreases adj@.len() - k,
    {
        proof {
            assert(adjv[k as int] == adj@[k as int]@);
            crate::msgmap::lemma_lookup_match(out@, adjv[k as int]);
        }
        match out.take(&adj[k]) {
            Some(v) => {
                proof {
                    assert(out@ == emit_next(outbox_after(out0, adjv, k as int), adjv[k as int]));
                    assert(out@ == outbox_after(out0, adjv, k + 1));
                }
                r.push(v);
            },
            None => {
                proof {
                    assert(out@ == outbox_after(out0, adjv, k + 1));
                }
                r.push(T::default());
            },
        }
        k = k + 1;
    }
    r
}

impl<T: Default, S, F: Fn(MsgMap<T>, S) -> (MsgMap<T>, S)> Worker<T, S, F> {
    /// The wiring is consistent: one sending half per successor edge.
    pub open spec fn wf(self) -> bool {
        self.senders@.len() == self.adj@.len()
    }

    /// Runs one round: receives exactly one message from every predecessor
    /// channel into the inbox, keyed by the sender name each message
    /// carries; invokes the transition function once on the full inbox and
    /// the current state; and emits one value on every successor edge,
    /// tagged with this process's own name.  A closed channel stops the
    /// round and is reported; the transition function is never invoked
    /// before the inbox holds one message per predecessor channel.  An
    /// isolated process, with no predecessor channels and no successor
    /// edges, makes no channel call and always completes its round.
    #[verifier::loop_isolation(false)]
    pub fn run_round(self) -> (r: Result<Worker<T, S, F>, Error>)
        requires
            self.wf(),
            forall|args: (MsgMap<T>, S)| #[trigger] call_requires(self.body, args),
        ensures
            match r {
                Ok(w) => {
                    &&& w.name == self.name
                    &&& w.adj == self.adj
                    &&& w.senders == self.senders
                    &&& w.receivers == self.receivers
                    &&& w.body == self.body
                    &&& w.wf()
                    &&& exists|inbox: MsgMap<T>, outbox: MsgMap<T>|
                        inbox@.len() == self.receivers@.len() && #[trigger] call_ensures(
                            self.body,
                            (inbox, self.state),
                            (outbox, w.state),
                        )
                },
                Err(e) => e is ChannelClosed,
            },
            self.receivers@.len() == 0 && self.adj@.len() == 0 ==> r is Ok,
    {
        let Worker { name, adj, senders, receivers, state, body } = self;
        let mut inbox: MsgMap<T> = MsgMap::new();
        let mut k: usize = 0;
        while k < receivers.len()
            invariant
                k <= receivers@.len(),
                inbox@.len() == k as int,
            decreases receivers@.len() - k,
        {
            match recv_msg(&receivers[k]) {
                Ok(m) => {
                    inbox.insert(m.0, m.1);
                },
                Err(e) => {
                    return Err(e);
                },
            }
            k = k + 1;
        }
        let ghost inbox0 = inbox;
        let res = (body)(inbox, state);
        let outbox = res.0;
        let new_state = res.1;
        let ghost outbox0 = outbox;
        let mut outs = round_outputs(outbox, &adj);
        let mut e: usize = 0;
        while e < senders.len()
            invariant
                e <= senders@.len(),
                senders@.len() == adj@.len(),
                outs@.len() == adj@.len() - e,
            decreases senders@.len() - e,
        {
            let val = outs.remove(0);
            match send_msg(&senders[e], (name.clone(), val)) {
                Ok(_) => {},
                Err(err) => {
                    return Err(err);
                },
            }
            e = e + 1;
        }
        let w = Worker { name, adj, senders, receivers, state: new_state, body };
        proof {
            assert(inbox0@.len() == self.receivers@.len());
            assert(call_ensures(self.body, (inbox0, self.state), (outbox0, w.state)));
            assert(exists|inbox: MsgMap<T>, outbox: MsgMap<T>|
                inbox@.len() == self.receivers@.len() && #[trigger] call_ensures(
                    self.body,
                    (inbox, self.state),
                    (outbox, w.state),
                ));
        }
        Ok(w)
    }
}

} // verus!
