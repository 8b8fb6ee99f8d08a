use std::collections::{BTreeMap, BTreeSet};
use vyges_extract::coverage::{notice_inputs, notice_result};
use vyges_extract::def;
use vyges_extract::engine::{extract, network_all, notice_pieces, run_to_spef, ExtractError, Extraction, Inputs};
use vyges_extract::lef::Lef;
use vyges_extract::number::{Fixed, Real};
use vyges_extract::rc::NetParasitics;
use vyges_extract::rules::RcRules;

/// Binary floating point.
#[derive(Clone, Copy, Debug, PartialEq)]
struct F(f64);

impl Real for F {
    fn micro(n: i128) -> F {
        F(n as f64 / 1e6)
    }
    fn count(n: usize) -> F {
        F(n as f64)
    }
    fn plus(self, other: F) -> F {
        F(self.0 + other.0)
    }
    fn minus(self, other: F) -> F {
        F(self.0 - other.0)
    }
    fn times(self, other: F) -> F {
        F(self.0 * other.0)
    }
    fn over(self, other: F) -> F {
        F(self.0 / other.0)
    }
    fn exp(self) -> F {
        F(self.0.exp())
    }
    fn below(self, other: F) -> bool {
        self.0 < other.0
    }
    fn same(self, other: F) -> bool {
        self.0 == other.0
    }
    fn millionths(self) -> i64 {
        (self.0 * 1e6).round() as i64
    }
    fn parse(s: &Vec<char>) -> Option<F> {
        s.iter().collect::<String>().parse::<f64>().ok().map(F)
    }
    fn show(self) -> String {
        format!("{}", self.0)
    }
    fn numeral(self) -> String {
        let rounded: f64 = format!("{:.8e}", self.0).parse().unwrap_or(self.0);
        format!("{rounded}")
    }
    fn places(self, k: u64) -> String {
        format!("{:.*}", k as usize, self.0)
    }
}

fn assert_every_net_is_one_network(spef: &str) {
    let mut checked = 0;
    for block in spef.split("*D_NET ").skip(1) {
        let name = block.split_whitespace().next().unwrap_or("?").to_string();
        let body = &block[..block.find("*END").unwrap_or(block.len())];
        let mut nodes: BTreeSet<&str> = BTreeSet::new();
        let mut edges: Vec<(&str, &str)> = Vec::new();
        let (mut in_cap, mut in_res) = (false, false);
        for line in body.lines() {
            match line.trim() {
                "*CAP" => (in_cap, in_res) = (true, false),
                "*RES" => (in_cap, in_res) = (false, true),
                "*CONN" => (in_cap, in_res) = (false, false),
                l => {
                    let f: Vec<&str> = l.split_whitespace().collect();
                    if in_cap && f.len() == 3 {
                        nodes.insert(f[1]);
                    } else if in_res && f.len() == 4 {
                        nodes.insert(f[1]);
                        nodes.insert(f[2]);
                        edges.push((f[1], f[2]));
                    }
                }
            }
        }
        if nodes.len() < 2 {
            continue;
        }
        let idx: BTreeMap<&str, usize> = nodes.iter().copied().zip(0..).collect();
        let mut parent: Vec<usize> = (0..idx.len()).collect();
        fn find(parent: &mut [usize], mut x: usize) -> usize {
            while parent[x] != x {
                parent[x] = parent[parent[x]];
                x = parent[x];
            }
            x
        }
        for (a, b) in edges {
            let (ra, rb) = (find(&mut parent, idx[a]), find(&mut parent, idx[b]));
            parent[ra] = rb;
        }
        let pieces = (0..idx.len())
            .filter(|&i| find(&mut parent, i) == i)
            .count();
        assert_eq!(
            pieces,
            1,
            "net {name}: {} nodes in {pieces} disconnected pieces — some node has no \
             resistive path to the rest\n{body}",
            idx.len()
        );
        checked += 1;
    }
    assert!(checked > 0, "the scan found no multi-node net to check");
}

#[test]
#[should_panic(expected = "disconnected pieces")]
fn the_connectivity_check_rejects_a_net_in_pieces() {
    assert_every_net_is_one_network(
        "*D_NET *1 1.0\n\
         *CONN\n\
         *I *2:Y O\n\
         *I *3:A I\n\
         *CAP\n\
         1 *2:Y 0.4\n\
         2 *1:1 0.3\n\
         3 *3:A 0.3\n\
         *RES\n\
         1 *2:Y *1:1 5.0\n\
         *END\n",
    );
}

#[test]
fn the_connectivity_check_accepts_the_repaired_net() {
    assert_every_net_is_one_network(
        "*D_NET *1 1.0\n\
         *CONN\n\
         *I *2:Y O\n\
         *I *3:A I\n\
         *CAP\n\
         1 *2:Y 0.4\n\
         2 *1:1 0.3\n\
         3 *3:A 0.3\n\
         *RES\n\
         1 *2:Y *1:1 5.0\n\
         2 *1:1 *3:A 5.0\n\
         *END\n",
    );
}

fn inputs(layout: &str, rules: &str, lef: Option<&str>) -> Inputs<F> {
    Inputs {
        def: def::parse(layout).unwrap(),
        placed: 0,
        rules: RcRules::parse(rules).unwrap(),
        lef: match lef {
            Some(t) => Lef::parse(t).unwrap(),
            None => Lef::empty(),
        },
        lef_given: lef.is_some(),
        max_pairs: 1_000_000,
    }
}

#[test]
fn shield_k_is_applied_to_the_grounded_cap_not_just_parsed() {
    let layout = "VERSION 5.8 ;\nDESIGN s ;\nUNITS DISTANCE MICRONS 1000 ;\n\
         COMPONENTS 0 ;\nEND COMPONENTS\n\
         NETS 2 ;\n\
         - a ( u0 Y ) ( u1 A )\n  + ROUTED met1 ( 0 0 ) ( 10000 0 ) ;\n\
         - b ( u2 Y ) ( u3 A )\n  + ROUTED met1 ( 0 340 ) ( 10000 340 ) ;\n\
         END NETS\nEND DESIGN\n";
    let deck =
        |k: f64| format!("met1 0.125 0.1 0.08 0.14\nvia 9.3\ncouple_cutoff 2.0\nshield_k {k}\n");
    let run = |k: f64| {
        let ex = extract(&inputs(layout, &deck(k), None)).unwrap();
        let g: f64 = ex.nets.iter().map(|n| n.cap_ff.0).sum();
        let c: f64 = ex.couplings.iter().map(|c| c.cap_ff.0).sum();
        (g, c)
    };

    let (g0, c0) = run(0.0);
    let (g5, c5) = run(0.5);
    assert!(
        c0 > 0.0,
        "the fixture must actually couple, else this proves nothing"
    );
    assert!(
        (c5 - c0).abs() < 1e-9,
        "shielding moves charge out of ground, it must not change the coupling itself"
    );
    let expected = g0 - 0.5 * 2.0 * c0;
    assert!(
        (g5 - expected).abs() < 1e-6,
        "ground with shield_k=0.5 should be {expected:.6} fF, got {g5:.6} (unshielded {g0:.6})"
    );
}

#[test]
fn shielding_does_not_take_ground_below_zero() {
    let layout = "UNITS DISTANCE MICRONS 1000 ;\nNETS 2 ;\n\
         - a ( u0 Y ) ( u1 A ) + ROUTED met1 ( 0 0 ) ( 10000 0 ) ;\n\
         - b ( u2 Y ) ( u3 A ) + ROUTED met1 ( 0 340 ) ( 10000 340 ) ;\nEND NETS\n";
    let ex = extract(&inputs(layout, "met1 0.125 0.001 0.8 0.34\nshield_k 1.0\n", None)).unwrap();
    assert_eq!(ex.nets[0].cap_ff, F(0.0));
    assert_eq!(ex.nets[0].res_ohm, F(1.25));
}

/// A bias line, a sensitive node that climbs a layer, and a supply tap far away.
fn analog() -> Inputs<F> {
    inputs(
        "UNITS DISTANCE MICRONS 1000 ;\nNETS 3 ;\n\
         - vbias ( m1 D ) ( m2 G ) + ROUTED met1 ( 1000 1000 ) ( 1000 21000 ) ;\n\
         - vsense ( m3 D ) ( m4 G ) + ROUTED met1 ( 2000 1000 ) ( 2000 11000 )\n\
             NEW met2 ( 2000 11000 ) M1M2_PR ( 12000 11000 ) ;\n\
         - vsupply ( m5 S ) ( m6 S ) + ROUTED met3 ( 0 25000 ) M2M3_PR ( 30000 25000 ) ;\n\
         END NETS\n",
        "met1 0.125 0.078 0.050 0.14\nmet2 0.125 0.072 0.044 0.14\nmet3 0.047 0.068 0.040 0.3\n\
         via 9.3\ncouple_cutoff 2.0\n",
        Some(
            "LAYER met1\n WIDTH 0.14 ;\nEND met1\nLAYER met2\n WIDTH 0.14 ;\nEND met2\n\
             LAYER met3\n WIDTH 0.3 ;\nEND met3\n",
        ),
    )
}

fn net<'a>(ex: &'a Extraction<F>, name: &str) -> &'a NetParasitics<F> {
    ex.nets.iter().find(|n| n.name == name).unwrap_or_else(|| panic!("net {name} missing"))
}

#[test]
fn analog_block_extracts_sane_rc() {
    let ex = extract(&analog()).expect("extract analog block");
    assert_eq!(ex.nets.len(), 3, "vbias, vsense, vsupply");
    for n in &ex.nets {
        assert!(n.res_ohm.0 > 0.0, "{} R>0, got {}", n.name, n.res_ohm.0);
        assert!(n.cap_ff.0 > 0.0, "{} C>0, got {}", n.name, n.cap_ff.0);
    }
    assert!((net(&ex, "vbias").res_ohm.0 - 2.5).abs() < 1e-9);
    assert!((net(&ex, "vbias").cap_ff.0 - 1.56).abs() < 1e-9);
    assert!((net(&ex, "vsense").res_ohm.0 - 11.8).abs() < 1e-9);
    assert!((net(&ex, "vsense").cap_ff.0 - 1.5).abs() < 1e-9);
    assert!((net(&ex, "vsupply").res_ohm.0 - 10.71).abs() < 1e-9);
    assert!((net(&ex, "vsupply").cap_ff.0 - 2.04).abs() < 1e-9);
}

#[test]
fn resistance_scales_with_wire_length() {
    let ex = extract(&analog()).expect("extract");
    let vbias = net(&ex, "vbias");
    let vsupply = net(&ex, "vsupply");
    assert!(vsupply.res_ohm.0 > vbias.res_ohm.0, "supply R {} > bias R {}", vsupply.res_ohm.0, vbias.res_ohm.0);
    assert!(vsupply.cap_ff.0 > vbias.cap_ff.0, "supply C {} > bias C {}", vsupply.cap_ff.0, vbias.cap_ff.0);
    let met1_per_um = 0.125;
    assert!((vbias.res_ohm.0 - 20.0 * met1_per_um).abs() < 1e-9);
}

#[test]
fn vias_add_resistance() {
    let ex = extract(&analog()).expect("extract");
    let vsense = net(&ex, "vsense");
    let wire_only = 10.0 * 0.125 + 10.0 * 0.125;
    assert!(vsense.res_ohm.0 > wire_only, "via must add R");
    assert!((vsense.res_ohm.0 - wire_only - 9.3).abs() < 1e-9, "via contributes exactly 9.3 ohm");
}

#[test]
fn adjacent_nets_couple_sensitive_node_to_bias() {
    let ex = extract(&analog()).expect("extract");
    assert_eq!(ex.couplings.len(), 1, "one coupled pair (vbias <-> vsense)");
    let c = &ex.couplings[0];
    let pair = (c.a.as_str(), c.b.as_str());
    assert!(pair == ("vbias", "vsense") || pair == ("vsense", "vbias"), "got {pair:?}");
    assert!(c.cap_ff.0 > 0.0, "coupling cap > 0");
    assert!((c.cap_ff.0 - 0.081395).abs() < 1e-6, "cc={}", c.cap_ff.0);
    assert!(!ex.couplings.iter().any(|c| c.a == "vsupply" || c.b == "vsupply"));
}

#[test]
fn analog_block_renders_spef() {
    let spef = run_to_spef("bias_gen", &analog()).expect("render SPEF");
    assert!(spef.contains("*DESIGN \"bias_gen\""));
    assert!(spef.contains("*1 vbias") && spef.contains("*2 vsense") && spef.contains("*3 vsupply"));
    assert!(spef.contains("*D_NET *1 1.641395"), "vbias total\n{spef}");
    assert!(
        spef.lines().any(|l| l.contains("0.081395") && l.matches('*').count() == 2),
        "coupling vbias-vsense two-node entry\n{spef}"
    );
    assert_every_net_is_one_network(&spef);
}

#[test]
fn a_layer_without_a_rule_fails_the_extraction() {
    let i = inputs(
        "UNITS DISTANCE MICRONS 1000 ;\nNETS 2 ;\n- a ( u Y ) + ROUTED met1 ( 0 0 ) ( 10 0 ) ;\n\
         - b ( u Y ) + ROUTED met9 ( 0 0 ) ( 10 0 ) ;\nEND NETS\n",
        "met1 1 1\n",
        None,
    );
    let e = extract(&i).err().unwrap();
    assert_eq!(e.message(), "parse error: rc error: net b: no rule for layer \"met9\"");
    assert!(run_to_spef("d", &i).is_err());
    assert_eq!(ExtractError::Io("x".into()).message(), "io error: x");
    assert!(ExtractError::FieldSolverNotFound.message().starts_with("field solver not found"));
}

#[test]
fn nets_in_pieces_are_said_to_be() {
    let i = inputs(
        "UNITS DISTANCE MICRONS 1000 ;\nNETS 2 ;\n\
         - whole ( u0 Y ) ( u1 A ) + ROUTED met1 ( 0 0 ) ( 10 0 ) ;\n\
         - torn ( u2 Y ) ( u3 A ) + ROUTED met1 ( 0 500 ) ( 10 500 )\n NEW met1 ( 90 500 ) ( 99 500 ) ;\n\
         END NETS\n",
        "met1 1 1\n",
        None,
    );
    let o = network_all(&i.def.nets, &i.rules, &i.lef.widths, &i.lef.vias);
    let n = notice_pieces(&i.def.nets, &o).unwrap();
    assert!(n.attention);
    assert_eq!(n.code, "EXTRACT-RC-DISCONNECTED");
    assert_eq!(
        n.message,
        "1 of 2 net(s) had routing that would not resolve into a single RC network — emitted as a \
         lumped star instead (e.g. torn)"
    );
    assert_eq!(n.objects, vec!["net:torn"]);
    let whole: Vec<_> = i.def.nets.into_iter().take(1).collect();
    let o = network_all(&whole, &i.rules, &i.lef.widths, &i.lef.vias);
    assert!(notice_pieces(&whole, &o).is_none());
}

#[test]
fn inputs_are_described() {
    let mut i = analog();
    i.placed = 6;
    let n = notice_inputs(&i);
    assert_eq!(n.len(), 2);
    assert_eq!(
        n[0].message,
        "DEF: 3 signal net(s), 3 with routing geometry, 0 with none (those extract to nothing), \
         6 placed instance(s)"
    );
    assert!(!n[0].attention && !n[1].attention);
    assert_eq!(
        n[1].message,
        "layers: 3 used by the routing, 3 with RC rules, 3 with LEF widths"
    );
    let i = inputs(
        "NETS 2 ;\n- a ( u Y ) + ROUTED li1 ( 0 0 ) ( 10 0 ) NEW met1 ( 0 0 ) ( 10 0 ) ;\n\
         - b ( u Y ) ;\nEND NETS\n",
        "met1 1 1\n",
        None,
    );
    let n = notice_inputs(&i);
    assert!(n[0].attention && n[1].attention);
    assert_eq!(
        n[1].message,
        "layers: 2 used by the routing, 1 with RC rules, 0 with LEF widths — no RC rule for \
         [\"li1\"]; no LEF given, so widths are defaults rather than the technology's"
    );
}

#[test]
fn results_are_summed_up() {
    let ex = extract(&analog()).unwrap();
    let n = notice_result(&ex.nets, &ex.couplings);
    assert_eq!(n.len(), 1);
    assert_eq!(n[0].code, "EXTRACT-DONE");
    assert_eq!(
        n[0].message,
        "extracted 3 net(s), 1 coupling pair(s) (5.18 fF total capacitance)"
    );
    let lone = vec![NetParasitics {
        name: "x".into(),
        pins: vec![("u".into(), "Y".into())],
        res_ohm: F(0.0),
        cap_ff: F(0.0),
    }];
    let n = notice_result(&lone, &vec![]);
    assert_eq!(n.len(), 2);
    assert_eq!(n[0].code, "EXTRACT-UNCONNECTED");
    assert_eq!(n[0].message, "net 'x' has 1 pin(s) — no complete connection to extract");
    assert_eq!(n[0].objects, vec!["net:x"]);
}

/// The grounded capacitances and the resistances of each record, summed.
fn sums(spef: &str) -> Vec<(f64, f64)> {
    let mut out = Vec::new();
    for block in spef.split("*D_NET ").skip(1) {
        let body = &block[..block.find("*END").unwrap_or(block.len())];
        let (mut caps, mut ohms) = (0.0, 0.0);
        let mut in_res = false;
        for line in body.lines() {
            let f: Vec<&str> = line.split_whitespace().collect();
            if line == "*CAP" || line == "*RES" {
                in_res = line == "*RES";
            } else if in_res && f.len() == 4 {
                ohms += f[3].parse::<f64>().unwrap();
            } else if !in_res && f.len() == 3 && !f[0].starts_with('*') {
                caps += f[2].parse::<f64>().unwrap();
            }
        }
        out.push((caps, ohms));
    }
    out
}

const FORKED: &str = "UNITS DISTANCE MICRONS 1000 ;\nNETS 3 ;\n\
     - fork ( u0 Y ) ( u1 A ) ( u2 A ) + ROUTED met1 ( 0 0 ) ( 9000 0 )\n\
         NEW met1 ( 9000 0 ) ( 9000 5000 ) NEW met1 ( 4000 0 ) ( 4000 7000 ) ;\n\
     - apart ( u3 Y ) ( u4 A ) ( u5 A ) + ROUTED met1 ( 0 90000 ) ( 7000 90000 )\n\
         NEW met1 ( 0 95000 ) ( 4000 95000 ) ;\n\
     - lone + ROUTED met1 ( 0 50000 ) ( 3000 50000 ) ;\n\
     END NETS\n";

#[test]
fn a_record_sums_to_the_totals_of_its_net() {
    for i in [inputs(FORKED, "met1 0.125 0.078\nvia 9.3\n", None), analog()] {
        let ex = extract(&i).unwrap();
        let got = sums(&run_to_spef("t", &i).unwrap());
        assert_eq!(got.len(), ex.nets.len());
        for (n, (caps, ohms)) in ex.nets.iter().zip(got) {
            assert!((caps - n.cap_ff.0).abs() < 1e-6, "{}: {caps} of {}", n.name, n.cap_ff.0);
            assert!((ohms - n.res_ohm.0).abs() < 1e-6, "{}: {ohms} of {}", n.name, n.res_ohm.0);
        }
    }
}

fn fixed_inputs(layout: &str) -> Inputs<Fixed> {
    Inputs {
        def: def::parse(layout).unwrap(),
        placed: 0,
        rules: RcRules::parse("met1 0.333333333 0.077777777\nvia 9.3\n").unwrap(),
        lef: Lef::empty(),
        lef_given: false,
        max_pairs: 1_000_000,
    }
}

fn short_by_rounding(whole: i64, sum: i64, parts: usize, own: i64) -> bool {
    sum <= whole
        && i128::from(whole - sum) * 1_000_000_000 < parts as i128 * 1_000_000_000 + i128::from(own)
}

#[test]
fn a_record_in_fixed_point_falls_short_by_rounding_only() {
    let i = fixed_inputs(FORKED);
    let ex = extract(&i).unwrap();
    let got = sums(&run_to_spef("t", &i).unwrap());
    assert_eq!(ex.nets[0].res_ohm, Fixed { nano: 6_999_999_993 });
    let mut stars = 0;
    for ((want, tree), sum) in ex.nets.iter().zip(&ex.trees).zip(&got) {
        let caps = (sum.0 * 1e9).round() as i64;
        let ohms = (sum.1 * 1e9).round() as i64;
        let (c, r) = (want.cap_ff.nano, want.res_ohm.nano);
        match tree {
            Some(t) => {
                assert!(short_by_rounding(c, caps, t.nodes.len(), t.raw_cap.nano));
                assert!(short_by_rounding(r, ohms, t.edges.len(), t.raw_res.nano));
            }
            None => {
                stars += 1;
                assert!(short_by_rounding(c, caps, want.pins.len().max(2), 0));
                assert!(short_by_rounding(r, ohms, want.pins.len().max(1), 0));
            }
        }
    }
    assert!(stars > 0);
}

#[test]
fn a_record_in_fixed_point_states_what_it_lists_but_for_rounding() {
    let mut i = fixed_inputs(&format!(
        "UNITS DISTANCE MICRONS 1000 ;\nNETS 2 ;\n{TWO_WIRES}END NETS\n"
    ));
    i.rules = RcRules::parse("met1 0.333333333 0.077777777 0.033333333 0.14\n").unwrap();
    let ex = extract(&i).unwrap();
    assert_eq!(ex.couplings.len(), 1);
    let text = run_to_spef("t", &i).unwrap();
    for (k, block) in text.split("*D_NET ").skip(1).enumerate() {
        let nano = |s: &str| (s.parse::<f64>().unwrap() * 1e9).round() as i64;
        let stated = nano(block.split_whitespace().nth(1).unwrap());
        assert_eq!(stated, ex.nets[k].cap_ff.nano + ex.couplings[0].cap_ff.nano);
        let caps = block.split("*CAP\n").nth(1).unwrap().split("*RES").next().unwrap();
        let listed: Vec<i64> = caps
            .lines()
            .filter(|l| l.split_whitespace().count() >= 3)
            .map(|l| nano(l.split_whitespace().last().unwrap()))
            .collect();
        let t = ex.trees[k].as_ref().unwrap();
        let sum: i64 = listed.iter().sum();
        assert!(short_by_rounding(stated, sum, t.nodes.len(), t.raw_cap.nano), "{block}");
    }
}

#[test]
fn a_stub_in_fixed_point_adds_its_own_but_for_rounding() {
    let net = |stub: &str| {
        format!(
            "UNITS DISTANCE MICRONS 1000 ;\nNETS 1 ;\n\
             - n ( u0 Y ) ( u1 A ) + ROUTED met1 ( 0 0 ) ( 9001 0 ){stub} ;\nEND NETS\n"
        )
    };
    let bare = extract(&fixed_inputs(&net(""))).unwrap();
    let tapped = extract(&fixed_inputs(&net(" NEW met1 ( 4003 0 ) ( 4003 1007 )"))).unwrap();
    let (t, u) = (bare.trees[0].as_ref().unwrap(), tapped.trees[0].as_ref().unwrap());
    assert_eq!((t.edges.len(), u.edges.len()), (1, 3), "the tap cuts the wire in two");
    for (n, tree) in [(&bare.nets[0], t), (&tapped.nets[0], u)] {
        let lost = n.cap_ff.nano - tree.raw_cap.nano;
        assert!(0 <= lost && lost < 2 * tree.edges.len() as i64, "{lost}");
        let lost = n.res_ohm.nano - tree.raw_res.nano;
        assert!(0 <= lost && lost <= tree.edges.len() as i64, "{lost}");
    }
    let (cap, res) = (78_322_221, 335_666_666);
    let (c, r) = (u.raw_cap.nano - t.raw_cap.nano, u.raw_res.nano - t.raw_res.nano);
    assert!(cap - 6 < c && c < cap + 2, "{c}");
    assert!(res - 3 <= r && r <= res + 1, "{r}");
}

#[test]
fn a_record_states_the_sum_of_what_it_lists() {
    let spef = run_to_spef("t", &analog()).unwrap();
    let mut coupled = 0;
    for block in spef.split("*D_NET ").skip(1) {
        let stated: f64 = block.split_whitespace().nth(1).unwrap().parse().unwrap();
        let caps = block.split("*CAP\n").nth(1).unwrap().split("*RES").next().unwrap();
        coupled += caps.lines().filter(|l| l.split_whitespace().count() == 4).count();
        let listed: f64 = caps
            .lines()
            .map(|l| l.split_whitespace().last().unwrap().parse::<f64>().unwrap())
            .sum();
        assert!((stated - listed).abs() < 1e-6, "{stated} of {listed}\n{block}");
    }
    assert_eq!(coupled, 2, "one coupling, under both of its nets");
}

const TWO_WIRES: &str = "- a ( u0 Y ) ( u1 A ) + ROUTED met1 ( 0 0 ) ( 10000 0 ) ;\n\
     - b ( u2 Y ) ( u3 A ) + ROUTED met1 ( 0 680 ) ( 10000 680 ) ;\n";

#[test]
fn a_power_rail_between_two_nets_blocks_their_coupling() {
    let deck = "met1 0.125 0.1 0.08 0.14\ncouple_cutoff 2.0\n";
    let open = format!("UNITS DISTANCE MICRONS 1000 ;\nNETS 2 ;\n{TWO_WIRES}END NETS\n");
    let railed = format!(
        "UNITS DISTANCE MICRONS 1000 ;\nSPECIALNETS 1 ;\n\
         - VPWR ( * VPWR ) + ROUTED met1 100 + SHAPE FOLLOWPIN ( 0 340 ) ( 5000 340 ) ;\n\
         END SPECIALNETS\nNETS 2 ;\n{TWO_WIRES}END NETS\n"
    );
    let whole = extract(&inputs(&open, deck, None)).unwrap();
    let half = extract(&inputs(&railed, deck, None)).unwrap();
    assert_eq!((whole.couplings.len(), half.couplings.len()), (1, 1));
    assert_eq!(half.nets.len(), 2, "a rail is no net");
    let (c, h) = (whole.couplings[0].cap_ff.0, half.couplings[0].cap_ff.0);
    assert!((h - c / 2.0).abs() < 1e-9, "the rail hides half of the run: {h} of {c}");
}

#[test]
fn the_lef_says_which_layers_a_via_joins() {
    let layout = "UNITS DISTANCE MICRONS 1000 ;\nNETS 1 ;\n\
         - n ( u0 Y ) ( u1 A ) + ROUTED met1 ( 0 0 ) ( 4000 0 )\n\
           NEW met2 ( 0 0 ) ( 0 4000 ) NEW met3 ( 0 0 ) ( 0 -4000 )\n\
           NEW met2 ( 0 0 ) M1M2_PR NEW met2 ( 0 0 ) M2M3_PR ;\nEND NETS\n";
    let deck = "met1 0.1 0.1\nmet2 0.1 0.1\nmet3 0.1 0.1\nvia 5\n";
    let lef = "VIA M1M2_PR\n LAYER met1 ;\n LAYER via ;\n LAYER met2 ;\nEND M1M2_PR\n\
               VIA M2M3_PR\n LAYER met2 ;\n LAYER via2 ;\n LAYER met3 ;\nEND M2M3_PR\n";
    assert!(extract(&inputs(layout, deck, None)).unwrap().trees[0].is_none(), "ambiguous without");
    let x = extract(&inputs(layout, deck, Some(lef))).unwrap();
    let t = x.trees[0].as_ref().unwrap();
    assert_eq!(t.edges.iter().filter(|e| e.res_ohm == F(5.0)).count(), 2);
}

#[test]
fn a_network_carries_the_lumped_capacitance_of_its_net() {
    for i in [inputs(FORKED, "met1 0.125 0.078\nvia 9.3\n", None), analog()] {
        let ex = extract(&i).unwrap();
        let mut built = 0;
        for (n, t) in ex.nets.iter().zip(&ex.trees) {
            if let Some(t) = t {
                built += 1;
                assert!((t.raw_cap.0 - n.cap_ff.0).abs() < 1e-9, "{}", n.name);
                let wire: f64 = t.edges.iter().map(|e| e.res_ohm.0).filter(|r| *r != 9.3).sum();
                let vias = t.edges.iter().filter(|e| e.res_ohm.0 == 9.3).count();
                assert!((t.raw_res.0 - wire - 9.3 * vias as f64).abs() < 1e-9, "{}", n.name);
            }
        }
        assert!(built > 0);
    }
}

#[test]
fn shielding_leaves_everything_but_ground() {
    let layout = format!("UNITS DISTANCE MICRONS 1000 ;\nNETS 3 ;\n{TWO_WIRES}\
         - c ( u4 Y ) ( u5 A ) + ROUTED met1 ( 0 90000 ) ( 10000 90000 ) ;\nEND NETS\n");
    let deck = |k: &str| format!("met1 0.125 0.1 0.08 0.14\nshield_k {k}\n");
    let bare = extract(&inputs(&layout, &deck("0"), None)).unwrap();
    let shielded = extract(&inputs(&layout, &deck("0.5"), None)).unwrap();
    let cc = bare.couplings[0].cap_ff.0;
    assert_eq!(shielded.couplings[0].cap_ff, bare.couplings[0].cap_ff);
    for (k, (p, q)) in bare.nets.iter().zip(&shielded.nets).enumerate() {
        assert_eq!((&p.name, &p.pins, p.res_ohm), (&q.name, &q.pins, q.res_ohm));
        let lost = if k < 2 { 0.5 * cc } else { 0.0 };
        assert!((q.cap_ff.0 - (p.cap_ff.0 - lost).max(0.0)).abs() < 1e-9, "{}", p.name);
        let (t, u) = (bare.trees[k].as_ref().unwrap(), shielded.trees[k].as_ref().unwrap());
        assert_eq!((t.nodes.len(), t.raw_cap, t.raw_res), (u.nodes.len(), u.raw_cap, u.raw_res));
    }
}

#[test]
fn every_token_of_a_netlist_resolves() {
    let spef = run_to_spef("t", &analog()).unwrap();
    let map = spef.split("*NAME_MAP\n").nth(1).unwrap().split("\n\n").next().unwrap();
    let n = map.lines().count();
    let mut seen = 0;
    for w in spef.split_whitespace() {
        let digits: String = match w.strip_prefix('*') {
            Some(rest) => rest.chars().take_while(|c| c.is_ascii_digit()).collect(),
            None => String::new(),
        };
        if !digits.is_empty() {
            seen += 1;
            let k: usize = digits.parse().unwrap();
            assert!(1 <= k && k <= n, "{w}");
        }
    }
    assert!(seen > n);
}
