use vyges_extract::def::{DefNet, Segment, ViaPoint};
use vyges_extract::junction::{qkey, split_at_junctions, NmSeg};
use vyges_extract::number::Real;
use vyges_extract::rules::RcRules;
use vyges_extract::strmap::StrMap;
use vyges_extract::tree::{build_network, components, Outcome};

/// Binary floating point.
#[derive(Clone, Copy, Debug, PartialEq)]
struct F(f64);

impl Real for F {
    fn micro(n: i128) -> F {
        F(n as f64 / 1e6)
    }
    fn count(n: usize) -> F {
        F(n as f64)
    }
    fn plus(self, other: F) -> F {
        F(self.0 + other.0)
    }
    fn minus(self, other: F) -> F {
        F(self.0 - other.0)
    }
    fn times(self, other: F) -> F {
        F(self.0 * other.0)
    }
    fn over(self, other: F) -> F {
        F(self.0 / other.0)
    }
    fn exp(self) -> F {
        F(self.0.exp())
    }
    fn below(self, other: F) -> bool {
        self.0 < other.0
    }
    fn same(self, other: F) -> bool {
        self.0 == other.0
    }
    fn millionths(self) -> i64 {
        (self.0 * 1e6).round() as i64
    }
    fn parse(s: &Vec<char>) -> Option<F> {
        s.iter().collect::<String>().parse::<f64>().ok().map(F)
    }
    fn show(self) -> String {
        format!("{}", self.0)
    }
    fn numeral(self) -> String {
        let rounded: f64 = format!("{:.8e}", self.0).parse().unwrap_or(self.0);
        format!("{rounded}")
    }
    fn places(self, k: u64) -> String {
        format!("{:.*}", k as usize, self.0)
    }
}

/// Micrometres in picometres.
fn um(v: f64) -> i64 {
    (v * 1e6).round() as i64
}

fn deck(text: &str) -> RcRules<F> {
    RcRules::parse(text).unwrap()
}

fn seg(layer: &str, x0: f64, y0: f64, x1: f64, y1: f64) -> Segment {
    Segment::wire(layer, um(x0), um(y0), um(x1), um(y1))
}

#[test]
fn two_pin_wire_is_two_nodes_one_resistor() {
    let net = DefNet {
        name: "n".into(),
        pins: vec![("u0".into(), "Y".into()), ("u1".into(), "A".into())],
        segments: vec![seg("met1", 0.0, 0.0, 10.0, 0.0)],
        vias: 0,
        via_points: Vec::new(),
    };
    let rules = deck("met1 0.1 0.05 0.0\n");
    let t = build_network(&net, &rules, &StrMap::new(), &StrMap::new())
        .built()
        .unwrap();
    assert_eq!(t.nodes.len(), 2);
    assert_eq!(t.edges.len(), 1);
    assert!((t.raw_res.0 - 1.0).abs() < 1e-9, "10um * 0.1 = 1.0");
    assert!((t.raw_cap.0 - 0.5).abs() < 1e-9, "10um * 0.05 = 0.5");
    assert!(t.nodes.iter().filter(|n| n.pin.is_some()).count() == 2);
}

#[test]
fn forked_route_has_internal_junction() {
    let net = DefNet {
        name: "n".into(),
        pins: vec![
            ("drv".into(), "Y".into()),
            ("s0".into(), "A".into()),
            ("s1".into(), "A".into()),
        ],
        segments: vec![
            seg("met1", 0.0, 0.0, 10.0, 0.0),
            seg("met1", 10.0, 0.0, 10.0, 5.0),
            seg("met1", 10.0, 0.0, 10.0, -5.0),
        ],
        vias: 0,
        via_points: Vec::new(),
    };
    let rules = deck("met1 0.1 0.05 0.0\n");
    let t = build_network(&net, &rules, &StrMap::new(), &StrMap::new())
        .built()
        .unwrap();
    assert_eq!(t.nodes.len(), 4, "spine end + fork + 2 sink ends");
    assert_eq!(t.edges.len(), 3);
    let mut degree = vec![0usize; t.nodes.len()];
    for e in &t.edges {
        degree[e.a] += 1;
        degree[e.b] += 1;
    }
    let fork = degree
        .iter()
        .position(|&d| d == 3)
        .expect("a degree-3 junction exists");
    assert!(t.nodes[fork].pin.is_none(), "the junction is internal");
}

#[test]
fn a_via_landing_mid_span_still_joins_the_layers() {
    let net = DefNet {
        name: "n".into(),
        pins: vec![("a".into(), "A".into()), ("b".into(), "Y".into())],
        segments: vec![
            seg("met2", 230.690, 1035.470, 230.690, 1043.460),
            seg("met1", 226.550, 1040.230, 230.690, 1040.230),
        ],
        vias: 1,
        via_points: vec![ViaPoint {
            x: um(230.690),
            y: um(1040.230),
            layer: "met1".into(),
            name: "M1M2_PR".into(),
        }],
    };
    let rules = deck("met1 0.1 0.05 0.0\nmet2 0.1 0.05 0.0\nvia 5.0\n");
    let t = build_network(&net, &rules, &StrMap::new(), &StrMap::new())
        .built()
        .expect("one network");
    assert_eq!(components(&t.nodes, &t.edges), 1, "one net, one network");
    assert!(
        (t.raw_res.0 - (0.799 + 0.414 + 5.0)).abs() < 1e-6,
        "7.99um + 4.14um of wire at 0.1 ohm/um, plus the via: got {}",
        t.raw_res.0
    );
}

#[test]
fn a_same_layer_t_junction_joins() {
    let net = DefNet {
        name: "n".into(),
        pins: vec![("a".into(), "A".into()), ("b".into(), "Y".into())],
        segments: vec![
            seg("met1", 0.0, 0.0, 20.0, 0.0),
            seg("met1", 10.0, 0.0, 10.0, 5.0),
        ],
        vias: 0,
        via_points: Vec::new(),
    };
    let rules = deck("met1 0.1 0.05 0.0\n");
    let t = build_network(&net, &rules, &StrMap::new(), &StrMap::new())
        .built()
        .expect("one network");
    assert_eq!(components(&t.nodes, &t.edges), 1);
    assert_eq!(t.nodes.len(), 4, "spine ends + the tap point + branch end");
    assert_eq!(t.edges.len(), 3, "the spine is cut at the tap");
}

#[test]
fn crossing_layers_without_a_via_are_not_shorted() {
    let net = DefNet {
        name: "n".into(),
        pins: vec![("a".into(), "A".into()), ("b".into(), "Y".into())],
        segments: vec![
            seg("met1", 0.0, 5.0, 20.0, 5.0),
            seg("met2", 10.0, 0.0, 10.0, 10.0),
        ],
        vias: 0,
        via_points: Vec::new(),
    };
    let rules = deck("met1 0.1 0.05 0.0\nmet2 0.1 0.05 0.0\nvia 5.0\n");
    match build_network(&net, &rules, &StrMap::new(), &StrMap::new()) {
        Outcome::Disconnected { pieces } => assert_eq!(pieces, 2),
        other => panic!("expected two disconnected pieces, got {other:?}"),
    }
}

#[test]
fn a_via_does_not_short_a_layer_that_merely_passes_through() {
    let net = DefNet {
        name: "n".into(),
        pins: vec![("a".into(), "A".into()), ("b".into(), "Y".into())],
        segments: vec![
            seg("met1", 630.430, 1371.730, 630.430, 1372.070),
            seg("met2", 630.430, 1371.900, 630.430, 1372.070),
            seg("met3", 630.430, 1371.900, 630.660, 1371.900),
        ],
        vias: 2,
        via_points: vec![
            ViaPoint {
                x: um(630.430),
                y: um(1372.070),
                layer: "met1".into(),
                name: "M1M2_PR".into(),
            },
            ViaPoint {
                x: um(630.430),
                y: um(1371.900),
                layer: "met2".into(),
                name: "M2M3_PR".into(),
            },
        ],
    };
    let rules =
        deck("met1 0.1 0.05 0.0\nmet2 0.1 0.05 0.0\nmet3 0.1 0.05 0.0\nvia 5.0\n");
    let mut via_layers: StrMap<Vec<String>> = StrMap::new();
    via_layers.insert("M1M2_PR", vec!["via".into(), "met1".into(), "met2".into()]);
    via_layers.insert("M2M3_PR", vec!["via2".into(), "met2".into(), "met3".into()]);

    let t = build_network(&net, &rules, &StrMap::new(), &via_layers)
        .built()
        .expect("one network");
    assert_eq!(components(&t.nodes, &t.edges), 1, "still one network");
    assert_eq!(
        t.edges.len(),
        t.nodes.len() - 1,
        "and a TREE: {} nodes, {} edges — a loop means a via was invented",
        t.nodes.len(),
        t.edges.len()
    );
}

#[test]
fn an_ambiguous_via_with_no_lef_degrades_rather_than_guesses() {
    let net = DefNet {
        name: "n".into(),
        pins: vec![("a".into(), "A".into()), ("b".into(), "Y".into())],
        segments: vec![
            seg("met1", 630.430, 1371.730, 630.430, 1372.070),
            seg("met2", 630.430, 1371.900, 630.430, 1372.070),
            seg("met3", 630.430, 1371.900, 630.660, 1371.900),
        ],
        vias: 2,
        via_points: vec![
            ViaPoint {
                x: um(630.430),
                y: um(1372.070),
                layer: "met1".into(),
                name: "M1M2_PR".into(),
            },
            ViaPoint {
                x: um(630.430),
                y: um(1371.900),
                layer: "met2".into(),
                name: "M2M3_PR".into(),
            },
        ],
    };
    let rules =
        deck("met1 0.1 0.05 0.0\nmet2 0.1 0.05 0.0\nmet3 0.1 0.05 0.0\nvia 5.0\n");
    assert!(
        matches!(
            build_network(&net, &rules, &StrMap::new(), &StrMap::new()),
            Outcome::Disconnected { .. }
        ),
        "no LEF, three layers at one point: refuse, do not invent"
    );
}

#[test]
fn an_unambiguous_via_needs_no_lef_and_ignores_which_side_declared_it() {
    for declared_on in ["met1", "met2"] {
        let net = DefNet {
            name: "n".into(),
            pins: vec![("a".into(), "A".into()), ("b".into(), "Y".into())],
            segments: vec![
                seg("met1", 1.0, 2.0, 1.0, 5.0),
                seg("met2", 1.0, 5.0, 4.0, 5.0),
            ],
            vias: 1,
            via_points: vec![ViaPoint {
                x: um(1.0),
                y: um(5.0),
                layer: declared_on.into(),
                name: "M1M2_VIA".into(),
            }],
        };
        let rules = deck("met1 0.1 0.05 0.0\nmet2 0.1 0.05 0.0\nvia 5.0\n");
        let t = build_network(&net, &rules, &StrMap::new(), &StrMap::new())
            .built()
            .unwrap_or_else(|| panic!("declared on {declared_on}: expected one network"));
        assert_eq!(
            components(&t.nodes, &t.edges),
            1,
            "declared on {declared_on}"
        );
    }
}

#[test]
fn splitting_conserves_the_totals_the_deck_calibrated() {
    let rules = deck("met1 0.1 0.05 0.0\n");
    let whole = DefNet {
        name: "n".into(),
        pins: vec![("a".into(), "A".into()), ("b".into(), "Y".into())],
        segments: vec![seg("met1", 0.0, 0.0, 20.0, 0.0)],
        vias: 0,
        via_points: Vec::new(),
    };
    let tapped = DefNet {
        name: "n".into(),
        pins: vec![("a".into(), "A".into()), ("b".into(), "Y".into())],
        segments: vec![seg("met1", 0.0, 0.0, 20.0, 0.0), seg("met1", 10.0, 0.0, 10.0, 0.001)],
        vias: 0,
        via_points: Vec::new(),
    };
    let a = build_network(&whole, &rules, &StrMap::new(), &StrMap::new())
        .built()
        .unwrap();
    let b = build_network(&tapped, &rules, &StrMap::new(), &StrMap::new())
        .built()
        .unwrap();
    let stub_c = 0.001 * 0.05;
    let stub_r = 0.001 * 0.1;
    assert!(
        (b.raw_cap.0 - a.raw_cap.0 - stub_c).abs() < 1e-9,
        "capacitance is the original plus only the stub: {} vs {}",
        b.raw_cap.0,
        a.raw_cap.0
    );
    assert!(
        (b.raw_res.0 - a.raw_res.0 - stub_r).abs() < 1e-9,
        "resistance likewise: {} vs {}",
        b.raw_res.0,
        a.raw_res.0
    );
}

#[test]
fn via_transition_adds_a_resistor() {
    let net = DefNet {
        name: "n".into(),
        pins: vec![("u0".into(), "Y".into()), ("u1".into(), "A".into())],
        segments: vec![
            seg("met1", 0.0, 0.0, 10.0, 0.0),
            seg("met2", 10.0, 0.0, 10.0, 8.0),
        ],
        vias: 1,
        via_points: Vec::new(),
    };
    let rules = deck("met1 0.1 0.05 0.0\nmet2 0.1 0.05 0.0\nvia 5.0\n");
    let t = build_network(&net, &rules, &StrMap::new(), &StrMap::new())
        .built()
        .unwrap();
    assert_eq!(t.nodes.len(), 4);
    assert_eq!(t.edges.len(), 3);
    assert!(
        t.edges.iter().any(|e| (e.res_ohm.0 - 5.0).abs() < 1e-9),
        "via resistor present"
    );
}

fn plain(pins: usize, segments: Vec<Segment>) -> DefNet {
    DefNet {
        name: "n".into(),
        pins: (0..pins).map(|i| (format!("u{i}"), "A".to_string())).collect(),
        segments,
        vias: 0,
        via_points: Vec::new(),
    }
}

#[test]
fn a_net_without_usable_geometry_has_no_network() {
    let rules = deck("met1 0.1 0.05 0.0\n");
    let none = StrMap::new();
    let vias = StrMap::new();
    for net in [
        plain(2, vec![]),
        plain(2, vec![seg("met1", 1.0, 1.0, 1.0, 1.0)]),
        plain(2, vec![seg("met9", 0.0, 0.0, 5.0, 0.0)]),
        plain(3, vec![seg("met1", 0.0, 0.0, 5.0, 0.0)]),
    ] {
        assert!(matches!(build_network(&net, &rules, &none, &vias), Outcome::NoGeometry));
    }
}

#[test]
fn every_pin_sits_on_its_own_node_and_leaves_come_first() {
    let rules = deck("met1 0.1 0.05 0.0\n");
    let net = plain(
        3,
        vec![seg("met1", 0.0, 0.0, 10.0, 0.0), seg("met1", 10.0, 0.0, 10.0, 5.0)],
    );
    let t = build_network(&net, &rules, &StrMap::new(), &StrMap::new()).built().unwrap();
    let pins: Vec<Option<String>> =
        t.nodes.iter().map(|n| n.pin.as_ref().map(|p| p.0.clone())).collect();
    assert_eq!(pins, vec![Some("u0".into()), Some("u2".into()), Some("u1".into())]);
}

#[test]
fn a_sheet_resistance_makes_a_wide_wire_less_resistive() {
    let rules = deck("met1 0.1 0.05 0.0\nrsheet met1 0.2\n");
    let mut wide = seg("met1", 0.0, 0.0, 10.0, 0.0);
    wide.width = um(2.0);
    let t = build_network(&plain(2, vec![wide]), &rules, &StrMap::new(), &StrMap::new())
        .built()
        .unwrap();
    assert!((t.raw_res.0 - 1.0).abs() < 1e-9);
    let mut widths: StrMap<F> = StrMap::new();
    widths.insert("met1", F(0.5));
    let narrow = plain(2, vec![seg("met1", 0.0, 0.0, 10.0, 0.0)]);
    let t = build_network(&narrow, &rules, &widths, &StrMap::new()).built().unwrap();
    assert!((t.raw_res.0 - 4.0).abs() < 1e-9);
}

#[test]
fn a_cut_wire_keeps_its_length() {
    let whole = vec![NmSeg { layer: "met1".into(), a: (0, 0), b: (20_000, 0), width: 0 }];
    let pieces = split_at_junctions(&whole, &vec![(5_000, 0), (12_000, 0), (0, 0), (7_000, 1)]);
    let ends: Vec<_> = pieces.iter().map(|p| (p.a, p.b)).collect();
    assert_eq!(
        ends,
        vec![((0, 0), (5_000, 0)), ((5_000, 0), (12_000, 0)), ((12_000, 0), (20_000, 0))]
    );
}

#[test]
fn places_are_compared_in_nanometres() {
    assert_eq!(qkey(230_690_000), 230_690);
    assert_eq!(qkey(1_499), 1);
    assert_eq!(qkey(1_500), 2);
    assert_eq!(qkey(-1_500), -2);
}
