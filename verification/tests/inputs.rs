use vyges_extract::coupling::extract_coupling;
use vyges_extract::def;
use vyges_extract::def::{DefNet, Segment};
use vyges_extract::field::{coupling_per_um, coupling_per_um_fringe, EPS0_FF_PER_UM, GAP_MIN_UM};
use vyges_extract::gds::{reduce, sort_shapes, Box2, LayerMap, Ld, Prim, Shape, Trace};
use vyges_extract::job::ExtractJob;
use vyges_extract::lef::{Lef, LefError};
use vyges_extract::number::{Fixed, Real};
use vyges_extract::rc::extract_net;
use vyges_extract::rules::RcRules;
use vyges_extract::strmap::StrMap;
use vyges_extract::tech::{TechLayer, TechLef};

/// Binary floating point.
#[derive(Clone, Copy, Debug, PartialEq)]
struct F(f64);

impl Real for F {
    fn micro(n: i128) -> F {
        F(n as f64 / 1e6)
    }
    fn count(n: usize) -> F {
        F(n as f64)
    }
    fn plus(self, other: F) -> F {
        F(self.0 + other.0)
    }
    fn minus(self, other: F) -> F {
        F(self.0 - other.0)
    }
    fn times(self, other: F) -> F {
        F(self.0 * other.0)
    }
    fn over(self, other: F) -> F {
        F(self.0 / other.0)
    }
    fn exp(self) -> F {
        F(self.0.exp())
    }
    fn below(self, other: F) -> bool {
        self.0 < other.0
    }
    fn same(self, other: F) -> bool {
        self.0 == other.0
    }
    fn millionths(self) -> i64 {
        (self.0 * 1e6).round() as i64
    }
    fn parse(s: &Vec<char>) -> Option<F> {
        s.iter().collect::<String>().parse::<f64>().ok().map(F)
    }
    fn show(self) -> String {
        format!("{}", self.0)
    }
    fn numeral(self) -> String {
        let rounded: f64 = format!("{:.8e}", self.0).parse().unwrap_or(self.0);
        format!("{rounded}")
    }
    fn places(self, k: u64) -> String {
        format!("{:.*}", k as usize, self.0)
    }
}

/// Micrometres in picometres.
fn um(v: f64) -> i64 {
    (v * 1e6).round() as i64
}

fn deck(text: &str) -> RcRules<F> {
    RcRules::parse(text).unwrap()
}

const DEF: &str = "\
UNITS DISTANCE MICRONS 1000 ;
NETS 2 ;
- clk ( clkbuf X ) ( ff0 CLK ) ( ff1 CLK )
  + ROUTED met1 ( 1000 2000 ) ( 1000 5000 )
    NEW met2 ( 1000 5000 ) M1M2_VIA ( 4000 5000 ) ;
- n0 ( u0 Y ) ( u1 A )
  + ROUTED met1 ( 2000 2000 ) ( 2000 2800 ) ;
END NETS
";

#[test]
fn parses_scale_and_nets() {
    let d = def::parse::<F>(DEF).unwrap();
    assert_eq!(d.units_per_um, F(1000.0));
    assert_eq!(d.nets.len(), 2);
}

#[test]
fn parses_pins_segments_vias() {
    let d = def::parse::<F>(DEF).unwrap();
    let clk = &d.nets[0];
    assert_eq!(clk.name, "clk");
    assert_eq!(clk.pins.len(), 3);
    assert_eq!(clk.pins[0], ("clkbuf".into(), "X".into()));
    assert_eq!(clk.segments.len(), 2);
    assert_eq!(clk.segments[0].layer, "met1");
    assert!((clk.segments[0].length() as f64 / 1e6 - 3.0).abs() < 1e-9);
    assert_eq!(clk.segments[1].layer, "met2");
    assert!((clk.segments[1].length() as f64 / 1e6 - 3.0).abs() < 1e-9);
    assert_eq!(clk.vias, 1);
}

#[test]
fn star_coordinate_reuses_previous() {
    let d = def::parse::<F>(
        "UNITS DISTANCE MICRONS 1000 ;
         NETS 1 ;
         - a ( i p )
           + ROUTED met1 ( 0 0 ) ( * 4000 ) ( 2000 * ) ;
         END NETS",
    )
    .unwrap();
    let a = &d.nets[0];
    assert_eq!(a.segments.len(), 2);
    assert!((a.segments[0].length() as f64 / 1e6 - 4.0).abs() < 1e-9);
    assert!((a.segments[1].length() as f64 / 1e6 - 2.0).abs() < 1e-9);
}

#[test]
fn parses_routing_widths() {
    let l = Lef::<F>::parse(
        "VERSION 5.8 ;\n\
         LAYER li1\n  TYPE ROUTING ;\n  WIDTH 0.17 ;\nEND li1\n\
         LAYER met1\n  TYPE ROUTING ;\n  WIDTH 0.14 ;\nEND met1\n\
         END LIBRARY\n",
    )
    .unwrap();
    assert!((l.width("li1").0 - 0.17).abs() < 1e-12);
    assert!((l.width("met1").0 - 0.14).abs() < 1e-12);
    assert_eq!(l.width("nonexistent"), F(0.0));
}

#[test]
fn parses_and_defaults() {
    let j = ExtractJob::<F>::parse("design: counter\ndef: c.def\nrules: r.rules\n", "work").unwrap();
    assert_eq!(j.design, "counter");
    assert_eq!(j.corner, "typical");
    assert_eq!(j.temp, F(25.0));
    assert_eq!(j.resolve("c.def"), "work/c.def");
}

#[test]
fn missing_required_keys_error() {
    assert!(ExtractJob::<F>::parse("design: x\n", ".").is_err());
}

fn rules() -> RcRules<F> {
    deck("met1 0.125 0.078\nmet2 0.125 0.072\nvia 9.3\n")
}

#[test]
fn lumps_res_and_cap_over_segments_and_vias() {
    let net = DefNet {
        name: "clk".into(),
        pins: vec![("ff0".into(), "CLK".into())],
        segments: vec![
            Segment::wire("met1", um(0.0), um(0.0), um(3.0), um(0.0)),
            Segment::wire("met2", um(0.0), um(0.0), um(3.0), um(0.0)),
        ],
        vias: 1,
        via_points: vec![],
    };
    let p = extract_net(&net, &rules(), &StrMap::new()).unwrap();
    assert!((p.res_ohm.0 - 10.05).abs() < 1e-9, "res={}", p.res_ohm.0);
    assert!((p.cap_ff.0 - 0.45).abs() < 1e-9, "cap={}", p.cap_ff.0);
}

#[test]
fn unknown_layer_is_an_error_not_silent() {
    let net = DefNet {
        name: "x".into(),
        pins: vec![],
        segments: vec![Segment::wire("met9", um(0.0), um(0.0), um(1.0), um(0.0))],
        vias: 0,
        via_points: vec![],
    };
    assert!(extract_net(&net, &rules(), &StrMap::new()).is_err());
}

#[test]
fn resistance_is_width_dependent_with_sheet_rho() {
    let rules = deck("met1 0.125 0.078\nrsheet met1 0.1\n");
    let net = DefNet {
        name: "n".into(),
        pins: vec![],
        segments: vec![Segment::wire("met1", um(0.0), um(0.0), um(10.0), um(0.0))],
        vias: 0,
        via_points: vec![],
    };
    let mut narrow = StrMap::new();
    narrow.insert("met1", F(0.5));
    let mut wide = StrMap::new();
    wide.insert("met1", F(1.0));
    let rn = extract_net(&net, &rules, &narrow).unwrap().res_ohm.0;
    let rw = extract_net(&net, &rules, &wide).unwrap().res_ohm.0;
    assert!((rn - 2.0).abs() < 1e-9, "narrow R = {rn}");
    assert!((rw - 1.0).abs() < 1e-9, "wide R = {rw}");
    assert!((rn / rw - 2.0).abs() < 1e-9, "halving width doubles R");
    let rb = extract_net(&net, &rules, &StrMap::new()).unwrap().res_ohm.0;
    assert!((rb - 1.25).abs() < 1e-9, "fallback R = {rb}");
}

fn plate_of(eps_r: f64, t: f64, gap: f64) -> f64 {
    coupling_per_um(F(eps_r), F(t), F(gap)).0
}

fn fringe_of(eps_r: f64, t: f64, h: f64, gap: f64) -> f64 {
    coupling_per_um_fringe(F(eps_r), F(t), F(h), F(gap)).0
}

fn eps0() -> f64 {
    EPS0_FF_PER_UM as f64 / 1e6
}

fn gap_min() -> f64 {
    GAP_MIN_UM as f64 / 1e6
}

#[test]
fn sidewall_parallel_plate() {
    let c = plate_of(4.0, 0.35, 0.2);
    let want = 4.0 * eps0() * 0.35 / 0.2;
    assert!((c - want).abs() < 1e-12);
    assert!((c - 0.06198).abs() < 1e-4, "~0.062 fF/um, got {c}");
}

#[test]
fn thicker_metal_couples_more() {
    assert!(plate_of(4.0, 1.2, 0.3) > plate_of(4.0, 0.35, 0.3));
}

#[test]
fn gap_floored_at_near_field() {
    let abut = plate_of(4.0, 0.35, 0.01);
    let floor = plate_of(4.0, 0.35, gap_min());
    assert!((abut - floor).abs() < 1e-12);
    assert!(abut.is_finite());
}

#[test]
fn fringe_falls_faster_than_plate_at_wide_spacing() {
    let plate = plate_of(4.0, 0.35, 2.0);
    let fringe = fringe_of(4.0, 0.35, 1.0, 2.0);
    assert!(
        fringe < plate,
        "fringe-corrected falls below plate at S>>H: {fringe} vs {plate}"
    );
    let low = fringe_of(4.0, 0.35, 0.5, 1.0);
    let high = fringe_of(4.0, 0.35, 3.0, 1.0);
    assert!(
        high > low,
        "higher metal couples more (less ground shorting)"
    );
    assert!(
        (fringe_of(4.0, 0.35, 0.0, 1.0) - plate_of(4.0, 0.35, 1.0)).abs()
            < 1e-12
    );
}

#[test]
fn shield_k_parses() {
    let r = deck("eps_r 2.3\nshield_k 0.5\nmet1 0.9 0.08\n");
    assert!((r.shield_k.0 - 0.5).abs() < 1e-12);
    assert!((r.eps_r.0 - 2.3).abs() < 1e-12);
    let r0 = deck("met1 0.9 0.08\n");
    assert_eq!(r0.shield_k, F(0.0));
}

#[test]
fn a_geometry_only_deck_is_incomplete() {
    let r = deck("M1 0 0 0 0\nM2 0 0 0 0\n");
    let (no_r, no_c) = r.incomplete();
    assert_eq!(no_r, vec!["M1", "M2"]);
    assert_eq!(no_c, vec!["M1", "M2"]);
    assert!(r.is_incomplete());
}

#[test]
fn a_fully_specified_deck_is_complete() {
    let r = deck("M1 0.1 0.2 0.05 1.0\nM2 0.1 0.2 0.05 1.0\n");
    assert_eq!(r.incomplete(), (Vec::<String>::new(), Vec::<String>::new()));
    assert!(!r.is_incomplete());
}

#[test]
fn sheet_resistance_counts_as_resistance() {
    let r = deck("M1 0 0.2 0.05 1.0\nrsheet M1 0.09\n");
    let (no_r, no_c) = r.incomplete();
    assert!(
        no_r.is_empty(),
        "M1 has rsheet 0.09, so it is not missing resistance: {no_r:?}"
    );
    assert!(no_c.is_empty());
    let got = r.wire_res("M1", F(10.0), F(1.0)).expect("M1 has a rule").0;
    assert!(
        (got - 0.9).abs() < 1e-12,
        "sheet-based resistance should be ~0.9, got {got}"
    );
}

#[test]
fn a_zero_rsheet_does_not_mask_a_missing_resistance() {
    let r = deck("M1 0 0.2 0.05 1.0\nrsheet M1 0\n");
    assert_eq!(r.incomplete().0, vec!["M1"]);
}

#[test]
fn missing_r_and_missing_c_are_reported_separately() {
    let r = deck("M1 0.1 0 0.05 1.0\n");
    let (no_r, no_c) = r.incomplete();
    assert!(no_r.is_empty(), "M1 has resistance");
    assert_eq!(no_c, vec!["M1"]);
}

#[test]
fn decorations_and_attributes_are_passed_over() {
    let d = def::parse::<F>(
        "UNITS DISTANCE MICRONS 2000 ;
         NETS 1 ;
         - a ( i p ) + USE SIGNAL + PROPERTY x 3
           + ROUTED met1 TAPER ( 0 0 ) ( 4000 0 ) MASK 2 VIA12
             NEW met2 TAPERRULE wide ( 4000 0 ) ( 4000 2000 )
           + WEIGHT 7 ;
         END NETS",
    )
    .unwrap();
    let a = &d.nets[0];
    assert_eq!(a.segments.len(), 2);
    assert_eq!(a.segments[0].length(), um(2.0) as i128);
    assert_eq!(a.segments[1].length(), um(1.0) as i128);
    assert_eq!(a.vias, 1);
    assert_eq!(a.via_points.len(), 1);
    assert_eq!((a.via_points[0].x, a.via_points[0].y), (um(2.0), um(0.0)));
    assert_eq!(a.via_points[0].name, "VIA12");
}

#[test]
fn a_coordinate_that_is_no_number_is_an_error() {
    let e = def::parse::<F>("NETS 1 ;\n- a ( i p ) + ROUTED met1 ( 0 zero ) ( 1 1 ) ;\nEND NETS\n")
        .err()
        .unwrap();
    assert!(e.message().starts_with("def error: "), "{}", e.message());
    assert!(e.message().contains("\"zero\""), "{}", e.message());
}

#[test]
fn tokens_split_at_brackets_and_semicolons() {
    let t = def::tokenize(&"- a(b c);".chars().collect());
    let t: Vec<String> = t.iter().map(|w| w.iter().collect()).collect();
    assert_eq!(t, vec!["-", "a", "(", "b", "c", ")", ";"]);
}

#[test]
fn a_spacing_table_declares_no_width() {
    let l = Lef::<F>::parse(
        "LAYER met1\n WIDTH 0.14 ;\n THICKNESS 0.36 ;\n SPACINGTABLE\n WIDTH 0.0 0.14 0.2 ;\nEND met1\n",
    )
    .unwrap();
    assert_eq!(l.width("met1"), F(0.14));
    assert_eq!(l.thicknesses.get("met1"), Some(&F(0.36)));
    assert_eq!(LefError("x".into()).message(), "lef error: x");
}

#[test]
fn a_thickness_is_the_first_value_of_its_statement() {
    let l = Lef::<F>::parse(
        "LAYER met1\n THICKNESS 0.36 0.4 ;\nEND met1\nLAYER met2\n THICKNESS 0.5 RANGE 1 2 ;\nEND met2\n",
    )
    .unwrap();
    assert_eq!(l.thicknesses.get("met1"), Some(&F(0.36)));
    assert_eq!(l.thicknesses.get("met2"), Some(&F(0.5)));
}

#[test]
fn ground_draws_off_what_the_fall_off_says() {
    for (h, gap, factor) in [(0.94, 0.2, 0.901675194), (1.0, 2.0, 0.449688212)] {
        let f = fringe_of(4.0, 0.35, h, gap) / plate_of(4.0, 0.35, gap);
        assert!((f - factor).abs() < 1e-6, "{f} at {h}, {gap}");
        assert!((f - (-4.0 * gap / (gap + 8.01 * h)).exp()).abs() < 1e-12);
        let nano = |v: f64| Fixed { nano: (v * 1e9).round() as i64 };
        let bare = coupling_per_um(nano(4.0), nano(0.35), nano(gap));
        let got = coupling_per_um_fringe(nano(4.0), nano(0.35), nano(h), nano(gap));
        assert!((got.nano as f64 - bare.nano as f64 * factor).abs() < 100.0, "{got:?}");
    }
    let near = fringe_of(4.0, 0.35, 1.0, 0.05);
    assert_eq!(near, fringe_of(4.0, 0.35, 1.0, gap_min()), "the gap is floored in the factor too");
}

#[test]
fn a_job_is_read_with_comments_and_any_case() {
    let j = ExtractJob::<F>::parse(
        "# job\nDesign: d\nDEF: a.def # layout\nrules: /r.rules\nlef: t.lef\ncorner: slow\ntemp: -40\n",
        "dir",
    )
    .unwrap();
    assert_eq!(j.design, "d");
    assert_eq!(j.def, "a.def");
    assert_eq!(j.lef.as_deref(), Some("t.lef"));
    assert_eq!(j.corner, "slow");
    assert_eq!(j.temp, F(-40.0));
    assert_eq!(j.resolve("/abs"), "/abs");
    assert_eq!(j.resolve("t.lef"), "dir/t.lef");
    assert!(j.validate().is_ok());
}

#[test]
fn job_errors_say_what_is_wrong() {
    let e = ExtractJob::<F>::parse("design d\n", ".").err().unwrap();
    assert!(e.message().starts_with("job error: "), "{}", e.message());
    assert!(e.message().contains("\"design d\""), "{}", e.message());
}

#[test]
fn an_unknown_layer_is_named() {
    let net = DefNet {
        name: "x".into(),
        pins: vec![],
        segments: vec![Segment::wire("met9", um(0.0), um(0.0), um(1.0), um(0.0))],
        vias: 0,
        via_points: vec![],
    };
    let e = extract_net(&net, &rules(), &StrMap::new()).err().unwrap();
    assert_eq!(e.message(), "rc error: net x: no rule for layer \"met9\"");
}

#[test]
fn rules_errors_say_what_is_wrong() {
    for (text, want) in [
        ("met1 x 1\n", "rules error: met1 res: not a number: \"x\""),
        ("met1 1 x\n", "rules error: met1 cap: not a number: \"x\""),
        ("met1 1 1 x\n", "rules error: met1 coupling: not a number: \"x\""),
        ("met1 1 1 1 x\n", "rules error: met1 s_ref: not a number: \"x\""),
        ("met1 1\n", "rules error: layer \"met1\": expected `name res cap [coupling [s_ref]]`"),
        ("via\n", "rules error: via res: not a number: \"\""),
        ("rsheet\n", "rules error: rsheet needs `layer <ohm/square>`"),
        ("height\n", "rules error: height needs `layer <um>`"),
        ("interlayer a\n", "rules error: interlayer needs `layerA layerB fF/um2`"),
        ("couple_shape m\n", "rules error: couple_shape needs `layer <spacing>:<factor> ...`"),
        ("couple_shape m 1\n", "rules error: couple_shape m: expected `spacing:factor`, got \"1\""),
        ("# nothing\n", "rules error: no layers defined"),
    ] {
        assert_eq!(RcRules::<F>::parse(text).err().unwrap().message(), want);
    }
}

#[test]
fn rule_lines_of_every_shape_are_read() {
    let r = deck(
        "LAYER met1 0.1 0.2\nmet2 0.1 0.2 0.3 0.4 # comment\nvia 5\ncouple_cutoff 1.5\neps_r 4\n\
         height met1 0.9\ninterlayer met2 met1 0.02\nrsheet met2 0.07\n",
    );
    assert_eq!(r.layer("met1").unwrap().s_ref, F(0.2));
    assert_eq!(r.layer("met1").unwrap().coupling_per_um, F(0.0));
    assert_eq!(r.layer("met2").unwrap().s_ref, F(0.4));
    assert_eq!(r.via_res, F(5.0));
    assert_eq!(r.couple_cutoff, F(1.5));
    assert_eq!(r.heights.get("met1"), Some(&F(0.9)));
    assert_eq!(r.interlayer("met1", "met2"), Some(F(0.02)));
    assert_eq!(r.interlayer("met2", "met1"), Some(F(0.02)));
    assert_eq!(r.interlayer("met1", "met1"), None);
    assert_eq!(r.wire_res("met2", F(10.0), F(0.5)).map(|v| v.0), Some(0.07 * 10.0 / 0.5));
    assert_eq!(r.wire_res("met3", F(1.0), F(1.0)), None);
    assert_eq!(deck("met1 1 1\n").couple_cutoff, F(2.0));
}

#[test]
fn a_deck_is_derived_from_the_layers_of_a_tech_lef() {
    let layer = |routing: bool, w: f64, rsq: f64, area: f64, edge: f64, cut: f64| TechLayer {
        routing,
        width_um: F(w),
        rpersq: F(rsq),
        cpersqdist: F(area),
        edge_cap: F(edge),
        cut_res: F(cut),
    };
    let mut layers = StrMap::new();
    layers.insert("met1", layer(true, 0.14, 0.125, 2.0e-5, 4.0e-5, 0.0));
    layers.insert("met2", layer(true, 0.0, 0.0, 1.0e-5, 0.0, 0.0));
    layers.insert("via", layer(false, 0.0, 0.0, 0.0, 0.0, 9.3));
    layers.insert("via2", layer(false, 0.0, 0.0, 0.0, 0.0, 3.4));
    layers.insert("mcon", layer(false, 0.0, 0.0, 0.0, 0.0, 152.0));
    layers.insert("poly", layer(false, 0.0, 0.0, 0.0, 0.0, 0.0));
    let lef = TechLef { layers, routing_order: vec!["met1".into(), "met2".into()] };
    let r = RcRules::from_lef(&lef);
    assert_eq!(r.via_res, F(9.3));
    assert_eq!(r.couple_cutoff, F(2.0));
    assert_eq!(r.layers.len(), 2);
    let m1 = r.layer("met1").unwrap();
    assert_eq!(m1.res_per_um, F(0.125));
    assert_eq!(m1.cap_per_um, F((2.0e-5 * 0.14 + 2.0 * 4.0e-5) * 1000.0));
    assert_eq!(r.rsheet.get("met1"), Some(&F(0.125)));
    let m2 = r.layer("met2").unwrap();
    assert_eq!(m2.cap_per_um, F((1.0e-5 * 1.0 + 2.0 * 0.0) * 1000.0));
    assert_eq!(r.rsheet.get("met2"), None);
    assert_eq!(r.incomplete().0, vec!["met2"]);
    assert!(r.wants_captable());
}

const TABLE: &str = "\
Metal 1 RESOVER 0
DIST count 1
0.0 0.0 0.0 0.0001
0.1 0.1 0.0 0.0009
Metal 1 OVER 0
0.0 0.0 0.0 0.05
Metal 1 OVER 2
0.0 0.0 0.0 7
Metal 1 UNDER 2
0.0 0.0 0.0 0.03
Metal 1 UNDER 3
0.0 0.0 0.0 0.9
Metal 2 RESOVER 0
1 2 3 nothing
1 2 3 0.0002
Metal 9 RESOVER 0
0 0 0 1
";

#[test]
fn a_capacitance_table_fills_what_a_deck_lacks() {
    let order: Vec<String> = vec!["met1".into(), "met2".into()];
    let c = RcRules::<F>::from_captable(&order, TABLE);
    assert_eq!(c.layers.len(), 2);
    assert_eq!(c.layer("met1").unwrap().res_per_um, F(0.0001 * 1000.0));
    assert_eq!(c.layer("met1").unwrap().cap_per_um, F(0.05 + 0.03));
    assert_eq!(c.layer("met2").unwrap().res_per_um, F(0.0002 * 1000.0));
    assert_eq!(c.layer("met2").unwrap().cap_per_um, F(0.0));

    let mut r = deck("met1 0.5 0 0.1 0.2\nmet3 1 1\nrsheet met1 0.07\n");
    r.complete_from(&c);
    let m1 = r.layer("met1").unwrap();
    assert_eq!((m1.res_per_um, m1.cap_per_um), (F(0.5), F(0.08)));
    assert_eq!(m1.s_ref, F(0.2));
    assert_eq!(r.layer("met2").unwrap().res_per_um, F(0.2));
    assert_eq!(r.layer("met3").unwrap().cap_per_um, F(1.0));
    assert_eq!(r.rsheet.get("met1"), Some(&F(0.07)));
}

#[test]
fn a_deck_that_is_written_out_reads_back() {
    let r = deck(
        "met2 0.25 0.5 0.125 0.14\nmet1 0.125 0.078\nvia 9.3\ncouple_cutoff 1.5\nrsheet met1 0.1\n\
         couple_shape met1 0.28:0.7734 0.14:1.0\n",
    );
    let text = r.to_deck();
    assert!(text.starts_with("# vyges-extract RC rules"), "{text}");
    assert!(
        text.ends_with(
            "\nmet1 0.125 0.078 0 0.2\nmet2 0.25 0.5 0.125 0.14\nvia 9.3\ncouple_cutoff 1.5\n\
             rsheet met1 0.1\n"
        ),
        "{text}"
    );
    let back = deck(&text);
    assert_eq!(back.layers.len(), 2);
    assert_eq!(back.layer("met2").unwrap().res_per_um, F(0.25));
    assert_eq!(back.via_res, r.via_res);
    assert_eq!(back.couple_cutoff, r.couple_cutoff);
    assert_eq!(back.rsheet.get("met1"), Some(&F(0.1)));
    assert!(r.couple_shapes.get("met1").is_some() && back.couple_shapes.get("met1").is_none());
    assert_eq!(back.to_deck(), text);
}

#[test]
fn layer_maps_are_read() {
    let m = LayerMap::parse("ROUTING: 68/20 met1 # metal\nrouting: 69 met2\nVia: 67/44\nlabel: 68/5\n")
        .unwrap();
    assert_eq!(m.routing_name((68, 20)).map(|s| s.as_str()), Some("met1"));
    assert_eq!(m.routing_name((69, 0)).map(|s| s.as_str()), Some("met2"));
    assert_eq!(m.routing_name((70, 0)), None);
    assert!(m.is_via((67, 44)) && !m.is_via((68, 20)));
    assert!(m.is_label((68, 5)) && !m.is_label((67, 44)));
}

#[test]
fn layer_map_errors_say_what_is_wrong() {
    for (text, part) in [
        ("routing 68/20 met1\n", "expected 'key: value', got \"routing 68/20 met1\""),
        ("routing: x/20 met1\n", "bad layer/datatype \"x/20\""),
        ("Metal: 1/1\n", "\"metal\""),
        ("via: 1/2\n", "no `routing:` layers"),
    ] {
        let e = LayerMap::parse(text).err().unwrap();
        assert!(e.message().starts_with("gds error: "), "{}", e.message());
        assert!(e.message().contains(part), "{}", e.message());
    }
}

fn metal(layer: Ld, net: usize, rects: Vec<(i32, i32, i32, i32)>) -> Prim {
    Prim {
        layer,
        net,
        rects: rects.into_iter().map(|(x0, y0, x1, y1)| Box2 { x0, y0, x1, y1 }).collect(),
    }
}

#[test]
fn traced_metal_becomes_nets_in_the_order_of_their_names() {
    let m = LayerMap::parse("routing: 68/20 met1\nrouting: 69/20 met2\nvia: 67/44\n").unwrap();
    let t = Trace {
        prims: vec![
            metal((68, 20), 2, vec![(0, 0, 5000, 200)]),
            metal((69, 20), 0, vec![(0, 0, 200, 3000)]),
            metal((67, 44), 1, vec![(0, 0, 50, 50)]),
            metal((68, 20), 0, vec![(0, 3000, 1000, 3100), (1000, 3000, 2000, 3100)]),
            metal((68, 20), 3, vec![(0, 9000, 1000, 9100)]),
        ],
        names: vec![Some("vsense".into()), None, Some("bias".into()), None],
        cuts: vec![1, 0, 0, 0],
    };
    let nets = reduce(&m, &t, F(1000.0));
    let names: Vec<&str> = nets.iter().map(|n| n.name.as_str()).collect();
    assert_eq!(names, vec!["bias", "gnet_1", "vsense"]);
    assert_eq!(nets[2].vias, 1);
    assert_eq!(nets[2].segments.len(), 3);
    assert_eq!(nets[2].segments[0].layer, "met2");
    assert_eq!(nets[2].segments[0].length(), um(3.0) as i128);
    assert_eq!((nets[0].segments[0].y0, nets[0].segments[0].y1), (um(0.1), um(0.1)));
}

#[test]
fn shapes_are_sorted_by_their_roles() {
    let m = LayerMap::parse("routing: 69/20 met2\nrouting: 68/20 met1\nvia: 67/44\n").unwrap();
    let at = |layer: Ld, x0: i32| Shape { layer, area: Box2 { x0, y0: 0, x1: x0 + 1, y1: 1 } };
    let s = sort_shapes(
        &m,
        &vec![at((69, 20), 1), at((67, 44), 2), at((1, 1), 3), at((68, 20), 4), at((69, 20), 5)],
    );
    let layers: Vec<(Ld, Vec<i32>)> =
        s.layers.iter().map(|(l, v)| (*l, v.iter().map(|b| b.x0).collect())).collect();
    assert_eq!(layers, vec![((68, 20), vec![4]), ((69, 20), vec![1, 5])]);
    assert_eq!(s.cuts.len(), 1);
    assert_eq!(s.cuts[0].x0, 2);
}

const MET1: Ld = (68, 20);
const MET2: Ld = (69, 20);

fn roles() -> LayerMap {
    LayerMap::parse("routing: 68/20 met1\nrouting: 69/20 met2\nvia: 67/44\nlabel: 68/5\n").unwrap()
}

/// The nets of traced metal, at 1000 database units to the micrometre.
fn traced(prims: Vec<Prim>, names: Vec<Option<&str>>, cuts: Vec<usize>) -> Vec<DefNet> {
    let names = names.into_iter().map(|n| n.map(|s| s.to_string())).collect();
    reduce(&roles(), &Trace { prims, names, cuts }, F(1000.0))
}

fn len_um(s: &Segment) -> f64 {
    s.length() as f64 / 1e6
}

#[test]
fn touching_same_layer_rects_are_one_net() {
    let nets = traced(
        vec![metal(MET1, 0, vec![(0, 0, 2000, 200)]), metal(MET1, 0, vec![(2000, 0, 5000, 200)])],
        vec![None],
        vec![0],
    );
    assert_eq!(nets.len(), 1);
    assert_eq!(nets[0].segments.len(), 2);
    let total: f64 = nets[0].segments.iter().map(len_um).sum();
    assert!((total - 5.0).abs() < 1e-9, "len={total}");
}

#[test]
fn different_layers_join_only_through_a_via() {
    let prims = |above: usize| {
        vec![
            metal(MET1, 0, vec![(0, 0, 3000, 200)]),
            metal(MET2, above, vec![(2800, 0, 6000, 200)]),
        ]
    };
    assert_eq!(traced(prims(1), vec![None, None], vec![0, 0]).len(), 2, "no via -> not shorted");

    let nets = traced(prims(0), vec![None], vec![1]);
    assert_eq!(nets.len(), 1, "via joins the layers");
    assert_eq!(nets[0].vias, 1, "the via cut is counted");
    assert_eq!(nets[0].segments.len(), 2);
}

#[test]
fn text_labels_name_nets() {
    let nets = traced(vec![metal(MET1, 0, vec![(0, 0, 4000, 200)])], vec![Some("vbias")], vec![0]);
    assert_eq!(nets.len(), 1);
    assert_eq!(nets[0].name, "vbias");
}

#[test]
fn unlabelled_nets_get_stable_ids() {
    let nets = traced(vec![metal(MET1, 0, vec![(0, 0, 4000, 200)])], vec![None], vec![0]);
    assert_eq!(nets[0].name, "gnet_1");
}

#[test]
fn segment_run_is_the_long_side_not_the_width() {
    let nets = traced(vec![metal(MET1, 0, vec![(0, 0, 5000, 200)])], vec![None], vec![0]);
    let s = &nets[0].segments[0];
    assert!((len_um(s) - 5.0).abs() < 1e-9, "len={}", len_um(s));
    assert!(s.is_horizontal());
}

#[test]
fn gds_traced_nets_extract_through_the_rc_core() {
    let nets = traced(
        vec![
            metal(MET1, 0, vec![(930, 1000, 1070, 21000)]),
            metal(MET1, 1, vec![(1930, 1000, 2070, 11000)]),
            metal(MET2, 1, vec![(2000, 10930, 12000, 11070)]),
        ],
        vec![Some("vbias"), Some("vsense")],
        vec![0, 1],
    );
    assert_eq!(nets.len(), 2, "vbias + vsense");

    let rules =
        deck("met1 0.125 0.078 0.050 0.14\nmet2 0.125 0.072 0.044 0.14\nvia 9.3\ncouple_cutoff 2.0\n");
    let vbias = nets.iter().find(|n| n.name == "vbias").unwrap();
    let vsense = nets.iter().find(|n| n.name == "vsense").unwrap();
    let pb = extract_net(vbias, &rules, &StrMap::new()).unwrap();
    let ps = extract_net(vsense, &rules, &StrMap::new()).unwrap();
    assert!((pb.res_ohm.0 - 2.5).abs() < 1e-6, "vbias R={}", pb.res_ohm.0);
    assert!((pb.cap_ff.0 - 1.56).abs() < 1e-6, "vbias C={}", pb.cap_ff.0);
    assert_eq!(vsense.vias, 1, "via traced");
    assert!((ps.res_ohm.0 - 11.8).abs() < 1e-6, "vsense R={}", ps.res_ohm.0);
    assert!((ps.cap_ff.0 - 1.5).abs() < 1e-6, "vsense C={}", ps.cap_ff.0);

    let cc = extract_coupling(&nets, &rules, &StrMap::new(), &StrMap::new());
    assert_eq!(cc.len(), 1, "vbias <-> vsense couple");
    assert!(cc[0].cap_ff.0 > 0.0);
}

#[test]
fn a_width_may_share_its_line_with_other_statements() {
    let l = Lef::<F>::parse(
        "LAYER met1\n WIDTH 0.14 ; SPACING 0.17 ;\n THICKNESS 0.36; AREA 0.1 ;\n\
         SPACINGTABLE\n WIDTH 0 0.14\n WIDTH 3 0.28 ;\nEND met1\n",
    )
    .unwrap();
    assert_eq!(l.width("met1"), F(0.14));
    assert_eq!(l.thicknesses.get("met1"), Some(&F(0.36)));
}

#[test]
fn a_via_block_names_the_layers_of_a_via() {
    let l = Lef::<F>::parse(
        "LAYER met1\n WIDTH 0.14 ;\nEND met1\n\
         VIA M1M2_PR DEFAULT\n LAYER via ;\n RECT 0 0 1 1 ;\n LAYER met1 ;\n LAYER met2;\nEND M1M2_PR\n\
         LAYER met2\n WIDTH 0.15 ;\nEND met2\n",
    )
    .unwrap();
    assert_eq!(l.vias.get("M1M2_PR").unwrap(), &vec!["via", "met1", "met2"]);
    assert_eq!(l.vias.get("met1"), None);
    assert_eq!((l.width("met1"), l.width("met2")), (F(0.14), F(0.15)));
}

#[test]
fn routing_goes_on_after_an_attribute() {
    let d = def::parse::<F>(
        "NETS 1 ;
         - a ( i p ) + ROUTED met1 ( 0 0 ) ( 1000 0 ) + USE SIGNAL
           NEW met2 ( 1000 0 ) ( 1000 3000 ) V23 ;
         END NETS",
    )
    .unwrap();
    let a = &d.nets[0];
    assert_eq!(a.segments.len(), 2);
    assert_eq!((a.segments[1].layer.as_str(), a.segments[1].length()), ("met2", um(3.0) as i128));
    assert_eq!(a.vias, 1);
}

#[test]
fn wires_have_the_widths_of_their_non_default_rules() {
    let d = def::parse::<F>(
        "UNITS DISTANCE MICRONS 2000 ;
         NONDEFAULTRULES 2 ;
         - wide + HARDSPACING + LAYER met1 WIDTH 560 SPACING 560 + LAYER met2 WIDTH 600 ;
         - slim + LAYER met1 WIDTH 100 ;
         END NONDEFAULTRULES
         NETS 2 ;
         - a ( i p ) + NONDEFAULTRULE wide
           + ROUTED met1 ( 0 0 ) ( 4000 0 )
             NEW met1 TAPER ( 4000 0 ) ( 4000 2000 )
             NEW met2 ( 0 0 ) ( 0 2000 )
             NEW met3 ( 0 0 ) ( 2000 0 )
             NEW met1 TAPERRULE slim ( 0 0 ) ( 0 2000 ) ;
         - b ( i q ) + ROUTED met1 ( 0 9000 ) ( 4000 9000 ) ;
         END NETS",
    )
    .unwrap();
    let widths: Vec<i64> = d.nets[0].segments.iter().map(|s| s.width).collect();
    assert_eq!(widths, vec![um(0.28), 0, um(0.3), 0, um(0.05)]);
    assert_eq!(d.nets[1].segments[0].width, 0);
    let rules = deck("met1 0.125 0.078\nmet2 0.1 0.1\nmet3 0.1 0.1\nrsheet met1 0.1\n");
    let mut lef = StrMap::new();
    lef.insert("met1", F(0.14));
    let a = extract_net(&d.nets[0], &rules, &lef).unwrap();
    let want = 0.1 * 2.0 / 0.28 + 0.1 * 1.0 / 0.14 + 0.1 + 0.1 + 0.1 * 1.0 / 0.05;
    assert!((a.res_ohm.0 - want).abs() < 1e-9, "{}", a.res_ohm.0);
}

#[test]
fn special_nets_are_power_rails() {
    let d = def::parse::<F>(
        "UNITS DISTANCE MICRONS 1000 ;
         SPECIALNETS 2 ;
         - VPWR ( * VPWR ) + USE POWER
           + ROUTED met1 480 + SHAPE FOLLOWPIN ( 0 0 ) ( 9000 0 )
             NEW met4 1600 + SHAPE STRIPE ( 500 0 ) ( * 8000 ) via_1600
             NEW met3 330 + SHAPE STRIPE ( 500 400 ) via3_4 ;
         - VGND ( * VGND ) + ROUTED met1 480 ( bad 0 ) ( 0 2720 ) ( 9000 2720 ) + USE GROUND ;
         END SPECIALNETS
         NETS 0 ;
         END NETS",
    )
    .unwrap();
    let got: Vec<(&str, i64, i64, i64, i64, i64)> = d
        .rails
        .iter()
        .map(|s| (s.layer.as_str(), s.x0, s.y0, s.x1, s.y1, s.width))
        .collect();
    assert_eq!(
        got,
        vec![
            ("met1", 0, 0, um(9.0), 0, um(0.48)),
            ("met4", um(0.5), 0, um(0.5), um(8.0), um(1.6)),
            ("met1", 0, um(2.72), um(9.0), um(2.72), um(0.48)),
        ]
    );
    assert!(d.nets.is_empty());
}

#[test]
fn a_later_layer_map_overrides_an_earlier_one() {
    let a = "routing: 68/20 met1\nvia: 67/44\nrouting: 69/20 old\r";
    let b = "routing: 69/20 met2\nvia: 70/44\nlabel: 68/5";
    let m = LayerMap::parse(&format!("{a}\n{b}")).unwrap();
    assert_eq!(m.routing_name((68, 20)).map(|s| s.as_str()), Some("met1"));
    assert_eq!(m.routing_name((69, 20)).map(|s| s.as_str()), Some("met2"));
    assert!(m.is_via((67, 44)) && m.is_via((70, 44)) && m.is_label((68, 5)));
}
