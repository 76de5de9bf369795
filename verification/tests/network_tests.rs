use dagnet::Error;
use dagnet::Graph;
use dagnet::MsgMap;
use dagnet::Network;
use dagnet::Vertex;
use dagnet::Worker;
use dagnet::round_outputs;

type State = Vec<(String, i32)>;
type Body = fn(MsgMap<i32>, State) -> (MsgMap<i32>, State);

fn v(name: &str, adj: &[&str]) -> Vertex {
    Vertex { name: name.to_string(), adj: adj.iter().map(|a| a.to_string()).collect() }
}

fn names(adj: &[&str]) -> Vec<String> {
    adj.iter().map(|a| a.to_string()).collect()
}

fn body_a(_inbox: MsgMap<i32>, st: State) -> (MsgMap<i32>, State) {
    let mut out = MsgMap::new();
    out.insert("b".to_string(), 1);
    out.insert("c".to_string(), 2);
    (out, st)
}

fn body_b(inbox: MsgMap<i32>, st: State) -> (MsgMap<i32>, State) {
    let got = *inbox.get(&"a".to_string()).expect("b hears from a every round");
    let mut out = MsgMap::new();
    out.insert("d".to_string(), got + 10);
    (out, st)
}

fn body_c(inbox: MsgMap<i32>, st: State) -> (MsgMap<i32>, State) {
    let got = *inbox.get(&"a".to_string()).expect("c hears from a every round");
    let mut out = MsgMap::new();
    out.insert("d".to_string(), got + 20);
    (out, st)
}

fn body_d(inbox: MsgMap<i32>, mut st: State) -> (MsgMap<i32>, State) {
    // The runtime never invokes a transition before the inbox holds one
    // message per predecessor channel, whatever their arrival order.
    assert_eq!(inbox.len(), 2);
    let from_b = *inbox.get(&"b".to_string()).expect("tagged by sender b");
    let from_c = *inbox.get(&"c".to_string()).expect("tagged by sender c");
    st.push(("b".to_string(), from_b));
    st.push(("c".to_string(), from_c));
    (MsgMap::new(), st)
}

fn keep_state(_inbox: MsgMap<i32>, st: State) -> (MsgMap<i32>, State) {
    (MsgMap::new(), st)
}

fn record_inbox(inbox: MsgMap<i32>, mut st: State) -> (MsgMap<i32>, State) {
    if let Some(got) = inbox.get(&"a".to_string()) {
        st.push(("a".to_string(), *got));
    }
    (MsgMap::new(), st)
}

fn take_worker(ws: &mut Vec<Worker<i32, State, Body>>, name: &str) -> Worker<i32, State, Body> {
    let pos = ws.iter().position(|w| w.name == name).expect("worker exists");
    ws.remove(pos)
}

fn lattice_network() -> Network<i32, State, Body> {
    let mut net: Network<i32, State, Body> = Network::new();
    net.add_process("a".to_string(), names(&["b", "c"]), Vec::new(), body_a);
    net.add_process("b".to_string(), names(&["d"]), Vec::new(), body_b);
    net.add_process("c".to_string(), names(&["d"]), Vec::new(), body_c);
    net.add_process("d".to_string(), names(&[]), Vec::new(), body_d);
    net
}

#[test]
fn lattice_runs_one_round() {
    let mut ws = lattice_network().start().expect("every process is defined");
    assert_eq!(ws.len(), 4);
    let wa = take_worker(&mut ws, "a");
    let wb = take_worker(&mut ws, "b");
    let wc = take_worker(&mut ws, "c");
    let wd = take_worker(&mut ws, "d");
    let wa = wa.run_round().expect("a has live successors");
    let _ = wb.run_round().expect("b relays a's message");
    let _ = wc.run_round().expect("c relays a's message");
    let wd = wd.run_round().expect("d consumes both messages");
    assert_eq!(wd.state, vec![("b".to_string(), 11), ("c".to_string(), 22)]);
    assert!(wa.state.is_empty());
}

#[test]
fn lattice_delivers_once_per_round() {
    let mut ws = lattice_network().start().expect("every process is defined");
    let mut wa = take_worker(&mut ws, "a");
    let mut wb = take_worker(&mut ws, "b");
    let mut wc = take_worker(&mut ws, "c");
    let mut wd = take_worker(&mut ws, "d");
    let rounds = 3;
    for _ in 0..rounds {
        wa = wa.run_round().expect("a keeps emitting");
        wb = wb.run_round().expect("b keeps relaying");
        wc = wc.run_round().expect("c keeps relaying");
        wd = wd.run_round().expect("d keeps consuming");
    }
    // Exactly one delivery from b and one from c reach d per round.
    assert_eq!(wd.state.len(), 2 * rounds);
    assert_eq!(wd.state.iter().filter(|(n, _)| n == "b").count(), rounds);
    assert_eq!(wd.state.iter().filter(|(n, _)| n == "c").count(), rounds);
}

#[test]
fn omitted_outbox_key_is_default_filled() {
    let mut net: Network<i32, State, Body> = Network::new();
    net.add_process("a".to_string(), names(&["b"]), Vec::new(), keep_state);
    net.add_process("b".to_string(), names(&[]), Vec::new(), record_inbox);
    let mut ws = net.start().expect("both processes are defined");
    let wa = take_worker(&mut ws, "a");
    let wb = take_worker(&mut ws, "b");
    let _ = wa.run_round().expect("a emits the default fill");
    let wb = wb.run_round().expect("b receives the default fill");
    // `a` emitted nothing for `b`, so `b` got i32's zero, tagged with "a".
    assert_eq!(wb.state, vec![("a".to_string(), 0)]);
}

#[test]
fn round_outputs_fills_defaults_in_order() {
    let mut out: MsgMap<i32> = MsgMap::new();
    out.insert("x".to_string(), 5);
    let r = round_outputs(out, &names(&["x", "y"]));
    assert_eq!(r, vec![5, 0]);

    let mut out2: MsgMap<i32> = MsgMap::new();
    out2.insert("x".to_string(), 5);
    // A duplicate edge consumes the value once; the second send is filled.
    let r2 = round_outputs(out2, &names(&["x", "x"]));
    assert_eq!(r2, vec![5, 0]);
}

#[test]
fn msgmap_later_entries_shadow_and_take_consumes() {
    let mut m: MsgMap<i32> = MsgMap::new();
    m.insert("x".to_string(), 1);
    m.insert("x".to_string(), 2);
    assert_eq!(m.len(), 2);
    assert_eq!(m.get(&"x".to_string()), Some(&2));
    assert_eq!(m.take(&"x".to_string()), Some(2));
    assert_eq!(m.get(&"x".to_string()), Some(&1));
    assert_eq!(m.take(&"x".to_string()), Some(1));
    assert_eq!(m.take(&"x".to_string()), None);
    assert!(m.get(&"y".to_string()).is_none());
}

#[test]
fn compiled_lattice_has_one_channel_per_edge() {
    let g = Graph::new(vec![v("a", &["b", "c"]), v("b", &["d"]), v("c", &["d"]), v("d", &[])])
        .expect("the lattice validates");
    let net: Network<i32, State, Body> = g.to_network();
    assert_eq!(net.procs.len(), 4);
    let total_senders: usize = net.procs.iter().map(|p| p.senders.len()).sum();
    let total_receivers: usize = net.procs.iter().map(|p| p.receivers.len()).sum();
    // Four edges: one channel each, and none left over.
    assert_eq!(total_senders, 4);
    assert_eq!(total_receivers, 4);
    for p in net.procs.iter() {
        assert_eq!(p.senders.len(), p.adj.len());
        let expected_in = match p.name.as_str() {
            "a" => 0,
            "b" | "c" => 1,
            "d" => 2,
            _ => panic!("unexpected process"),
        };
        assert_eq!(p.receivers.len(), expected_in);
        assert!(p.initial_state.is_none());
        assert!(p.body.is_none());
    }
}

#[test]
fn undefined_process_is_caught_before_anything_runs() {
    let g = Graph::new(vec![v("a", &["b"]), v("b", &[])]).expect("a simple chain validates");
    let net: Network<i32, State, Body> = g.to_network();
    match net.start() {
        Err(Error::UndefinedProcess(_)) => {},
        _ => panic!("a process without a definition must not start"),
    }
}

#[test]
fn adjacency_only_stub_is_undefined() {
    let mut net: Network<i32, State, Body> = Network::new();
    // `b` is referenced as a target but never defined.
    net.add_process("a".to_string(), names(&["b"]), Vec::new(), keep_state);
    match net.start() {
        Err(Error::UndefinedProcess(n)) => assert_eq!(n, "b"),
        _ => panic!("a dangling stub must fail fast, not run silently"),
    }
}

#[test]
fn isolated_process_completes_its_round() {
    let mut net: Network<i32, State, Body> = Network::new();
    net.add_process("solo".to_string(), names(&[]), Vec::new(), keep_state);
    let mut ws = net.start().expect("the lone process is defined");
    let solo = take_worker(&mut ws, "solo");
    // No predecessors, no successors: the round makes no channel call.
    let solo = solo.run_round().expect("an isolated round always succeeds");
    let _ = solo.run_round().expect("and keeps succeeding");
}

#[test]
fn redefining_a_process_appends_its_channels() {
    let mut net: Network<i32, State, Body> = Network::new();
    net.add_process("a".to_string(), names(&["b"]), Vec::new(), keep_state);
    net.add_process("a".to_string(), names(&["b"]), Vec::new(), keep_state);
    let a = net.procs.iter().find(|p| p.name == "a").expect("a exists");
    let b = net.procs.iter().find(|p| p.name == "b").expect("b exists");
    // The first wiring survives; the second is appended after it.
    assert_eq!(a.senders.len(), 2);
    assert_eq!(b.receivers.len(), 2);
    assert!(b.adj.is_empty());
    assert!(b.senders.is_empty());
    assert!(b.initial_state.is_none());
    assert!(b.body.is_none());
}

#[test]
fn closed_channel_stops_only_that_process() {
    let mut net: Network<i32, State, Body> = Network::new();
    net.add_process("a".to_string(), names(&["b"]), Vec::new(), keep_state);
    net.add_process("b".to_string(), names(&[]), Vec::new(), record_inbox);
    let mut ws = net.start().expect("both processes are defined");
    let wa = take_worker(&mut ws, "a");
    let wb = take_worker(&mut ws, "b");
    drop(wa);
    match wb.run_round() {
        Err(Error::ChannelClosed) => {},
        _ => panic!("a round over a dead upstream must report the closed channel"),
    }
}
