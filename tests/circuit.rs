use relaysim::{Circuit, CircuitBuilder, Handle, SubcircuitBuilder};

fn h(name: &str, index: Option<i8>) -> Handle {
    Handle::new(name, index, None)
}

#[test]
fn basic_circuit() {
    let mut c = CircuitBuilder::new()
        .add_subcircuit(|mut scb| {
            scb.label(h("Aa", Some(0)));
            let shared = scb.label(Handle::parse("shared"));
            scb.trace(shared);
        })
        .add_subcircuit(|mut scb| {
            scb.label(h("Ba", Some(0)));
            let shared = scb.label(Handle::parse("shared"));
            let g = scb.label(Handle::parse("G"));
            scb.add_switch(Handle::parse("dummy"), (Some(shared), Some(g), Some(g)));
        })
        .finalize();

    c.step();
    assert!(c.inspect(&h("shared", None)));
}

#[test]
fn empty() {
    let cb = CircuitBuilder::new();
    let mut c = cb.finalize();
    c.step();
}

#[test]
fn one_relay() {
    let (mut no, mut nc) = (0usize, 0usize);
    let mut c = CircuitBuilder::new()
        .add_subcircuit(|mut scb| {
            let g = scb.label(Handle::parse("G"));
            scb.add_coil(h("Ab", Some(0)), Some(g));
            (_, no, nc) = scb.add_switch(Handle::parse("ab_0"), (Some(g), None, None));
            scb.trace_all(&[no, nc]);
        })
        .finalize();
    assert_eq!((c.switch_position(0), c.node_trace(no), c.node_trace(nc)), (false, false, false));
    c.step(); // turn on
    assert_eq!((c.switch_position(0), c.node_trace(no), c.node_trace(nc)), (true, false, true));
    c.step();
    assert_eq!((c.switch_position(0), c.node_trace(no), c.node_trace(nc)), (true, true, false));
}

#[test]
fn oscillating_relay() {
    let mut coil_node = 0usize;
    let mut c = CircuitBuilder::new()
        .add_subcircuit(|mut scb| {
            let g = scb.label(Handle::parse("G"));
            (_, _, coil_node) = scb.add_switch(Handle::parse("xy_-10"), (Some(g), None, None));
            scb.add_coil(Handle::parse("Xy_-10"), Some(coil_node));
            scb.trace(coil_node);
        })
        .finalize();
    c.step();
    for _ in 0..5 {
        assert_eq!((c.switch_position(0), c.node_trace(coil_node)), (true, true));
        c.step();
        assert_eq!((c.switch_position(0), c.node_trace(coil_node)), (false, false));
        c.step();
    }
}

#[test]
fn step_subcircuit() {
    let mut step = [0usize; 6]; // step[0] is unused for simplicity
    let mut step123 = 0usize;
    let mut c = CircuitBuilder::new()
        .add_subcircuit(|mut scb| {
            let g = scb.label(Handle::parse("G"));
            step123 = scb.label(Handle::parse("step123"));
            scb.trace(step123);
            scb.add_coil(Handle::parse("Init"), Some(g));
            for i in 1..=5 {
                step[i] = scb.add_coil(h("S", Some(i as i8)), None);
                scb.trace(step[i]);
            }
            scb.add_switch(Handle::parse("init"), (Some(g), None, Some(step[1])));
            scb.add_switch(h("s", Some(1)), (Some(g), Some(step[2]), None));
            scb.add_switch(h("s", Some(2)), (Some(g), Some(step[3]), None));
            scb.add_switch(h("s", Some(3)), (Some(g), Some(step[4]), None));
            scb.add_switch(h("s", Some(4)), (Some(g), Some(step[5]), None));
            scb.add_switch(h("s", Some(5)), (Some(g), Some(step[1]), None));

            scb.add_switch(Handle::parse("init"), (Some(g), None, Some(step123)));
            scb.add_switch(h("s", Some(5)), (Some(g), Some(step123), None));
            scb.add_switch(h("s", Some(1)), (Some(g), Some(step123), None));
            scb.add_switch(h("s", Some(2)), (Some(g), Some(step123), None));
        })
        .finalize();

    let test = |c: &Circuit, expected_step: usize| {
        let mut expected_states = [false; 5];
        if expected_step != 0 {
            expected_states[expected_step - 1] = true;
        }
        for (i, expected) in expected_states.into_iter().enumerate() {
            assert_eq!(expected, c.node_trace(step[i + 1]));
        }
    };

    test(&c, 0);
    for _ in 0..3 {
        for s in 1..=5 {
            c.step();
            test(&c, s);
            assert_eq!(s == 1 || s == 2 || s == 3, c.node_trace(step123));
        }
    }
}

#[test]
fn chain_alternating_relays() {
    let mut c = CircuitBuilder::new()
        .add_subcircuit(|mut scb| {
            let g = scb.label(Handle::parse("G"));
            let stages: Vec<i8> = (0..5).collect();
            let (last_a, last_b) = SubcircuitBuilder::chain((g, g), &stages, |(left_a, left_b), i| {
                scb.add_coil(h("Bb", Some(i)), Some(left_a));
                let right_a = scb.label(h("a", Some(i)));
                let right_b = scb.label(h("b", Some(i)));
                scb.trace_all(&[right_a, right_b]);
                scb.add_switch(h("aa", Some(i)), (Some(left_a), Some(right_a), None));
                scb.add_switch(h("bb", Some(i)), (Some(left_b), Some(right_b), None));
                scb.add_coil(h("Aa", Some(i)), Some(right_b));
                (right_a, right_b)
            });
            assert_eq!(last_a, scb.label(Handle::parse("a_4")));
            assert_eq!(last_b, scb.label(Handle::parse("b_4")));
        })
        .finalize();
    let test = |c: &Circuit, expected_a: i8, expected_b: i8| {
        for i in 0..5 {
            let a = c.node_of(&h("a", Some(i))).unwrap();
            let b = c.node_of(&h("b", Some(i))).unwrap();
            assert_eq!(c.node_trace(a), i < expected_a);
            assert_eq!(c.node_trace(b), i < expected_b);
        }
    };

    c.step();
    test(&c, 0, 0);
    for i in 0..5 {
        c.step();
        test(&c, i, i + 1);
        c.step();
        test(&c, i + 1, i + 1);
    }
}
