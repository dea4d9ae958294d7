use relaysim::{gate_const_into, Bus, Circuit, CircuitBuilder, Handle, NodeId, SubcircuitBuilder};

fn h(name: &str, index: Option<i8>) -> Handle {
    Handle::new(name, index, None)
}

#[test]
fn switch_closes_the_edge_of_its_position() {
    // A coil on an input line drives a switch whose pole is the ground rail.
    let (mut no, mut nc) = (0usize, 0usize);
    let mut c = CircuitBuilder::new()
        .add_subcircuit(|mut scb| {
            let g = scb.label(h("G", None));
            scb.add_coil(h("Kk", None), None);
            (_, no, nc) = scb.add_switch(h("kk", None), (Some(g), None, None));
            scb.trace_all(&[no, nc]);
        })
        .finalize();
    c.step();
    assert_eq!((c.switch_position(0), c.node_trace(no), c.node_trace(nc)), (false, false, true));
    c.set(&h("Kk", None));
    c.step();
    assert_eq!((c.switch_position(0), c.node_trace(no), c.node_trace(nc)), (true, false, true));
    c.step();
    assert_eq!((c.switch_position(0), c.node_trace(no), c.node_trace(nc)), (false, true, false));
    c.step();
    assert_eq!((c.switch_position(0), c.node_trace(no), c.node_trace(nc)), (false, false, true));
}

#[test]
fn energized_coil_actuates_all_its_switches() {
    let mut c = CircuitBuilder::new()
        .add_subcircuit(|mut scb| {
            let g = scb.label(h("G", None));
            scb.add_coil(h("Cc", Some(2)), Some(g));
            for _ in 0..3 {
                scb.add_switch(h("cc", Some(2)), (None, None, None));
            }
            scb.add_switch(h("cc", Some(3)), (None, None, None));
        })
        .finalize();
    c.step();
    assert!(c.switch_position(0) && c.switch_position(1) && c.switch_position(2));
    assert!(!c.switch_position(3));
}

#[test]
fn inspect_reads_reachability_of_the_last_step() {
    let (mut x, mut y, mut far) = (0usize, 0usize, 0usize);
    let mut c = CircuitBuilder::new()
        .add_subcircuit(|mut scb| {
            let g = scb.label(h("G", None));
            let (_, _, xn) = scb.add_switch(h("p", None), (Some(g), None, None));
            let (_, _, yn) = scb.add_switch(h("q", None), (Some(xn), None, None));
            x = xn;
            y = yn;
            far = scb.label(h("far", None));
            scb.trace_all(&[x, y, far]);
        })
        .finalize();
    c.step();
    assert_eq!((c.node_trace(x), c.node_trace(y), c.node_trace(far)), (true, true, false));
    c.set(&h("far", None));
    c.step();
    assert!(c.inspect(&h("far", None)));
    c.step();
    assert!(!c.inspect(&h("far", None)));
}

#[test]
fn unknown_source_is_ignored() {
    let mut c = CircuitBuilder::new()
        .add_subcircuit(|mut scb| {
            let n = scb.label(h("Zz", None));
            scb.trace(n);
        })
        .finalize();
    c.set(&h("nowhere", None));
    c.step();
    assert!(!c.inspect(&h("Zz", None)));
    assert_eq!(c.node_of(&h("nowhere", None)), None);
}

fn bus_circuit(width: i8) -> Circuit {
    CircuitBuilder::new()
        .add_subcircuit(move |mut scb| {
            for i in 0..width {
                let n = scb.label(h("Xx", Some(i)));
                scb.trace(n);
            }
        })
        .finalize()
}

#[test]
fn inspect_bus_sign_extends_at_the_top_index() {
    let mut c = bus_circuit(4);
    c.set(&h("Xx", Some(3)));
    c.step();
    assert_eq!(c.inspect_bus(&Bus::new("Xx", None)), -8);
    c.set(&h("Xx", Some(0)));
    c.set(&h("Xx", Some(1)));
    c.step();
    assert_eq!(c.inspect_bus(&Bus::new("Xx", None)), 3);
    c.set_bus(&Bus::new("Xx", None), -1);
    c.step();
    assert_eq!(c.inspect_bus(&Bus::new("Xx", None)), -1);

    let mut one = bus_circuit(1);
    one.set(&h("Xx", Some(0)));
    one.step();
    assert_eq!(one.inspect_bus(&Bus::new("Xx", None)), -1);
    one.step();
    assert_eq!(one.inspect_bus(&Bus::new("Xx", None)), 0);
}

#[test]
fn bus_values_stay_in_the_range_of_their_width() {
    for width in 1..=8i8 {
        let top = width - 1;
        for k in -300i32..300 {
            let mut c = bus_circuit(width);
            c.set_bus(&Bus::new("Xx", None), k);
            c.step();
            let v = c.inspect_bus(&Bus::new("Xx", None));
            assert!(-(1i32 << top) <= v && v <= (1i32 << top) - 1);
        }
    }
}

#[test]
fn set_bus_then_inspect_bus_round_trips() {
    for k in [-128, -123, -1, 0, 1, 77, 127] {
        let mut c = bus_circuit(8);
        c.set_bus(&Bus::new("Xx", None), k);
        c.step();
        assert_eq!(c.inspect_bus(&Bus::new("Xx", None)), k);
    }
    let mut wide = bus_circuit(32);
    wide.set_bus(&Bus::new("Xx", None), i32::MIN);
    wide.step();
    assert_eq!(wide.inspect_bus(&Bus::new("Xx", None)), i32::MIN);
}

#[test]
fn coil_case_and_superscript_select_the_family() {
    let mut c = CircuitBuilder::new()
        .add_subcircuit(|mut scb| {
            scb.add_coil(Handle::parse("AB_1^1"), None);
            scb.add_coil(Handle::parse("Ab_1^2"), None);
            scb.add_switch(Handle::parse("ab_1"), (None, None, None));
            scb.add_switch(Handle::parse("ab_1^1"), (None, None, None));
            scb.add_switch(Handle::parse("Ab_1"), (None, None, None));
        })
        .finalize();
    c.set(&Handle::parse("AB_1^1"));
    c.step();
    assert_eq!((c.switch_position(0), c.switch_position(1), c.switch_position(2)), (true, false, false));
    c.set(&Handle::parse("Ab_1^2"));
    c.step();
    assert_eq!((c.switch_position(0), c.switch_position(1), c.switch_position(2)), (true, false, false));
    c.step();
    assert!(!c.switch_position(0));
}

#[test]
fn chain_threads_in_order() {
    let r = SubcircuitBuilder::chain(0i32, &[1i8, 2, 3], |acc, i| acc * 10 + i as i32);
    assert_eq!(r, 123);
    let empty: [i8; 0] = [];
    assert_eq!(SubcircuitBuilder::chain(7i32, &empty, |acc, i| acc + i as i32), 7);
}

#[test]
fn labels_and_coils_share_nodes() {
    let (mut named, mut coil, mut again) = (0usize, 1usize, 2usize);
    let mut fresh: NodeId = 0;
    CircuitBuilder::new().add_subcircuit(|mut scb| {
        named = scb.label(h("Ba", Some(2)));
        coil = scb.add_coil(h("Ba", Some(2)), None);
        again = scb.label(Handle::parse("Ba_2"));
        fresh = scb.node(None);
    });
    assert_eq!(named, coil);
    assert_eq!(named, again);
    assert_ne!(fresh, named);
    assert_eq!(CircuitBuilder::new().finalize().node_of(&h("G", None)), Some(0));
}

#[test]
fn gate_const_sets_only_the_one_bits() {
    let mut c = CircuitBuilder::new()
        .add_subcircuit(|mut scb| gate_const_into(&mut scb, 5, &h("Gc", None), &Bus::new("Ac", None), 0, 3))
        .add_subcircuit(|mut scb| {
            for i in 0..4 {
                let n = scb.label(h("Ac", Some(i)));
                scb.trace(n);
            }
        })
        .finalize();
    c.set(&h("Gc", None));
    c.step();
    c.set(&h("S", Some(5)));
    c.step();
    assert_eq!(c.inspect_bus(&Bus::new("Ac", None)), 5);
}

#[test]
fn buses_that_can_be_read() {
    let mut c = CircuitBuilder::new()
        .add_subcircuit(|mut scb| {
            for i in 0..3 {
                let n = scb.label(h("Rd", Some(i)));
                scb.trace(n);
            }
            scb.label(h("Un", Some(0)));
            let n = scb.label(h("Ng", Some(-1)));
            scb.trace(n);
            let m = scb.label(h("Nx", None));
            scb.trace(m);
        })
        .finalize();
    c.step();
    assert!(c.can_inspect_bus(&Bus::new("Rd", None)));
    assert!(!c.can_inspect_bus(&Bus::new("Un", None)));
    assert!(!c.can_inspect_bus(&Bus::new("Ng", None)));
    assert!(!c.can_inspect_bus(&Bus::new("Nx", None)));
    assert!(!c.can_inspect_bus(&Bus::new("Absent", None)));
    assert!(!c.can_inspect_bus(&Bus::new("Rd", Some(1))));
}

#[test]
fn orphan_coils_are_listed() {
    let b = CircuitBuilder::new().add_subcircuit(|mut scb| {
        scb.add_coil(h("Aa", Some(0)), None);
        scb.add_coil(h("Bb", Some(1)), None);
        scb.add_coil(Handle::parse("Cc^2"), None);
        scb.add_switch(h("bb", Some(1)), (None, None, None));
        scb.add_switch(h("cc", None), (None, None, None));
    });
    assert_eq!(b.orphan_coils(), vec![h("Aa", Some(0))]);
    assert!(CircuitBuilder::new().orphan_coils().is_empty());
}
