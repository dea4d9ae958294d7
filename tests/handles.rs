use relaysim::{Bus, CircuitBuilder, Handle};

#[test]
fn parse_name_only() {
    let h = Handle::parse("shared");
    assert_eq!(h.name, "shared");
    assert_eq!(h.index, None);
    assert_eq!(h.sup, None);
}

#[test]
fn parse_index_and_sup() {
    let h = Handle::parse("Bb_-3^1");
    assert_eq!(h.name, "Bb");
    assert_eq!(h.index, Some(-3));
    assert_eq!(h.sup, Some(1));
    let s = Handle::parse("Be^12");
    assert_eq!(s, Handle::new("Be", None, Some(12)));
    let p = Handle::parse("a_+5");
    assert_eq!(p, Handle::new("a", Some(5), None));
    let z = Handle::parse("a_007");
    assert_eq!(z, Handle::new("a", Some(7), None));
    let extreme = Handle::parse("q_-128^255");
    assert_eq!(extreme, Handle::new("q", Some(-128), Some(255)));
}

#[test]
fn parse_odd_names() {
    assert_eq!(Handle::parse("-16"), Handle::new("-16", None, None));
    assert_eq!(Handle::parse("Be'_1"), Handle::new("Be'", Some(1), None));
}

#[test]
fn text_forms() {
    assert_eq!(Handle::new("Xy", Some(-10), Some(2)).text(), "Xy_-10^2");
    assert_eq!(Handle::new("G", None, None).text(), "G");
    assert_eq!(Handle::new("S", Some(123), None).text(), "S_123");
    assert_eq!(Handle::new("Bb", None, Some(0)).text(), "Bb^0");
    assert_eq!(Bus::new("Bb", Some(1)).text(), "Bb^1");
    assert_eq!(Bus::new("Aa", None).text(), "Aa");
}

#[test]
fn text_round_trip() {
    let names = ["Aa", "x", "Be'", "0"];
    let indices = [None, Some(0), Some(-128), Some(127), Some(-1), Some(42)];
    let sups = [None, Some(0u8), Some(9), Some(10), Some(255)];
    for name in names {
        for index in indices {
            for sup in sups {
                let h = Handle::new(name, index, sup);
                let text = h.text();
                assert_eq!(Handle::parse(&text), h);
                assert_eq!(Handle::parse(&text).text(), text);
            }
        }
    }
}

#[test]
fn bus_members() {
    let b = Bus::new("Ab", Some(3));
    assert_eq!(b.index(-2), Handle::new("Ab", Some(-2), Some(3)));
    assert!(b.holds(&Handle::new("Ab", Some(7), Some(3))));
    assert!(!b.holds(&Handle::new("Ab", Some(7), None)));
    assert!(!b.holds(&Handle::new("Ac", Some(7), Some(3))));
}

#[test]
fn coil_names_map_to_lower_case_families() {
    let family = CircuitBuilder::coil_to_switch_name(&Handle::new("AbC", Some(3), Some(2)));
    assert_eq!(family, Handle::new("abc", Some(3), None));
    let plain = CircuitBuilder::coil_to_switch_name(&Handle::new("Init", None, None));
    assert_eq!(plain, Handle::new("init", None, None));
}

#[test]
fn well_formed_texts() {
    for text in ["ab", "ab_0", "xy_-10", "Bb_3^1", "x^255", "a_+5", "q_-128", "a_127^0", "-16", "Be'_1"] {
        assert!(Handle::is_text(text), "{}", text);
    }
    for text in ["a_", "a^", "a_x", "a_128", "a_-129", "a^256", "a^-1", "a_1_2", "a^1^2", "a_+", "a_ 1"] {
        assert!(!Handle::is_text(text), "{}", text);
    }
}
