use relaysim::{gate, gate_const, Bus, CircuitBuilder, Handle};

fn h(name: &str, index: Option<i8>) -> Handle {
    Handle::new(name, index, None)
}

fn bus(name: &str) -> Bus {
    Bus::new(name, None)
}

#[test]
fn gate_test() {
    let mut c = CircuitBuilder::new()
        .add_subcircuit(gate(bus("Ab"), h("Ga", None), bus("Aa"), 0, 7))
        .add_subcircuit(|mut scb| {
            for i in 0..=7 {
                let ab = scb.add_coil(h("Ab", Some(i)), None);
                let aa = scb.label(h("Aa", Some(i)));
                scb.trace_all(&[ab, aa]);
            }
        })
        .finalize();

    c.set_bus(&bus("Ab"), -123);
    c.step();
    c.set(&h("S", Some(5)));
    c.step();
    assert_eq!(c.inspect_bus(&bus("Aa")), 0);

    c.set(&h("Ga", None));
    c.step();
    c.set(&h("S", Some(5)));
    c.step();
    assert_eq!(c.inspect_bus(&bus("Aa")), 0);

    c.set(&h("Ga", None));
    c.set_bus(&bus("Ab"), -123);
    c.step();
    c.set(&h("S", Some(5)));
    assert_eq!(c.inspect_bus(&bus("Ab")), -123);
    c.step();
    assert_eq!(c.inspect_bus(&bus("Aa")), -123);
}

#[test]
fn gate_const_test() {
    let mut c = CircuitBuilder::new()
        .add_subcircuit(gate_const(-123i8, h("Ga", None), bus("Aa"), 0, 7))
        .add_subcircuit(|mut scb| {
            for i in 0..=7 {
                let aa = scb.label(h("Aa", Some(i)));
                scb.trace(aa);
            }
        })
        .finalize();

    c.set(&h("S", Some(5)));
    c.step();
    assert_eq!(c.inspect_bus(&bus("Aa")), 0);

    c.set(&h("Ga", None));
    c.step();
    c.set(&h("S", Some(5)));
    c.step();
    assert_eq!(c.inspect_bus(&bus("Aa")), -123);
}
