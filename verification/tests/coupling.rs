use vyges_extract::coupling::{
    bands, extract_coupling, extract_coupling_blocked, extract_coupling_capped, max_coupling_pairs,
    couple_shape, scan_band, Contribution, CouplingCap, PairCaps, Scene,
    DEFAULT_MAX_COUPLING_PAIRS,
};
use vyges_extract::def::{DefNet, Segment};
use vyges_extract::number::Real;
use vyges_extract::rules::{LayerRc, RcRules};
use vyges_extract::strmap::StrMap;
use rayon::iter::{IntoParallelRefIterator, ParallelIterator};

/// Binary floating point.
#[derive(Clone, Copy, Debug, PartialEq)]
struct F(f64);

impl Real for F {
    fn micro(n: i128) -> F {
        F(n as f64 / 1e6)
    }
    fn count(n: usize) -> F {
        F(n as f64)
    }
    fn plus(self, other: F) -> F {
        F(self.0 + other.0)
    }
    fn minus(self, other: F) -> F {
        F(self.0 - other.0)
    }
    fn times(self, other: F) -> F {
        F(self.0 * other.0)
    }
    fn over(self, other: F) -> F {
        F(self.0 / other.0)
    }
    fn exp(self) -> F {
        F(self.0.exp())
    }
    fn below(self, other: F) -> bool {
        self.0 < other.0
    }
    fn same(self, other: F) -> bool {
        self.0 == other.0
    }
    fn millionths(self) -> i64 {
        (self.0 * 1e6).round() as i64
    }
    fn parse(s: &Vec<char>) -> Option<F> {
        s.iter().collect::<String>().parse::<f64>().ok().map(F)
    }
    fn show(self) -> String {
        format!("{}", self.0)
    }
    fn numeral(self) -> String {
        let rounded: f64 = format!("{:.8e}", self.0).parse().unwrap_or(self.0);
        format!("{rounded}")
    }
    fn places(self, k: u64) -> String {
        format!("{:.*}", k as usize, self.0)
    }
}

fn um(v: f64) -> i64 {
    (v * 1e6).round() as i64
}

fn deck(text: &str) -> RcRules<F> {
    RcRules::parse(text).unwrap()
}

fn wire(layer: &str, x0: f64, y0: f64, x1: f64, y1: f64) -> Segment {
    Segment::wire(layer, um(x0), um(y0), um(x1), um(y1))
}

fn copy(n: &DefNet) -> DefNet {
    DefNet {
        name: n.name.clone(),
        pins: n.pins.clone(),
        segments: n
            .segments
            .iter()
            .map(|s| Segment {
                layer: s.layer.clone(),
                x0: s.x0,
                y0: s.y0,
                x1: s.x1,
                y1: s.y1,
                width: s.width,
            })
            .collect(),
        vias: n.vias,
        via_points: Vec::new(),
    }
}

fn no_widths() -> StrMap<F> {
    StrMap::new()
}

fn hnet(name: &str, x0: f64, x1: f64, y: f64) -> DefNet {
    DefNet {
        name: name.into(),
        pins: vec![],
        segments: vec![wire("met1", x0, y, x1, y)],
        vias: 0,
        via_points: Vec::new(),
    }
}

#[test]
fn parallel_segments_couple() {
    let rules = deck("met1 0.1 0.05 0.1 0.5\n");
    let cc = extract_coupling(
        &vec![hnet("a", 0.0, 3.0, 0.0), hnet("b", 1.0, 5.0, 0.5)],
        &rules,
        &no_widths(),
        &no_widths(),
    );
    assert_eq!(cc.len(), 1);
    assert_eq!((cc[0].a.as_str(), cc[0].b.as_str()), ("a", "b"));
    assert!((cc[0].cap_ff.0 - 0.2).abs() < 1e-9, "cc={}", cc[0].cap_ff.0);
}

#[test]
fn wider_gap_couples_less() {
    let rules = deck("met1 0.1 0.05 0.1 0.5\n");
    let near = extract_coupling(
        &vec![hnet("a", 0.0, 3.0, 0.0), hnet("b", 0.0, 3.0, 0.5)],
        &rules,
        &no_widths(),
        &no_widths(),
    );
    let far = extract_coupling(
        &vec![hnet("a", 0.0, 3.0, 0.0), hnet("b", 0.0, 3.0, 1.5)],
        &rules,
        &no_widths(),
        &no_widths(),
    );
    assert!(far[0].cap_ff.0 < near[0].cap_ff.0, "1/gap falloff");
}

#[test]
fn beyond_cutoff_no_coupling() {
    let rules = deck("met1 0.1 0.05 0.1 0.5\ncouple_cutoff 1.0\n");
    let cc = extract_coupling(
        &vec![hnet("a", 0.0, 3.0, 0.0), hnet("b", 0.0, 3.0, 1.5)],
        &rules,
        &no_widths(),
        &no_widths(),
    );
    assert!(cc.is_empty());
}

#[test]
fn lef_width_uses_edge_gap() {
    let rules = deck("met1 0.1 0.05 0.1 0.5\n");
    let mut widths = StrMap::new();
    widths.insert("met1", F(0.4));
    let with_w = extract_coupling(
        &vec![hnet("a", 0.0, 3.0, 0.0), hnet("b", 0.0, 3.0, 1.0)],
        &rules,
        &widths,
        &no_widths(),
    );
    let plain = extract_coupling(
        &vec![hnet("a", 0.0, 3.0, 0.0), hnet("b", 0.0, 3.0, 1.0)],
        &rules,
        &no_widths(),
        &no_widths(),
    );
    assert!(with_w[0].cap_ff.0 > plain[0].cap_ff.0);
    assert!(
        (with_w[0].cap_ff.0 - 0.25).abs() < 1e-9,
        "cc={}",
        with_w[0].cap_ff.0
    );
}

#[test]
fn different_layers_dont_couple_laterally() {
    let rules = deck("met1 0.1 0.05 0.1 0.5\nmet2 0.1 0.05 0.1 0.5\n");
    let mut b = hnet("b", 0.0, 3.0, 0.5);
    b.segments[0].layer = "met2".into();
    assert!(extract_coupling(
        &vec![hnet("a", 0.0, 3.0, 0.0), b],
        &rules,
        &no_widths(),
        &no_widths()
    )
    .is_empty());
}

fn seg(layer: &str, x0: f64, y0: f64, x1: f64, y1: f64) -> DefNet {
    DefNet {
        name: layer.into(),
        pins: vec![],
        segments: vec![wire(layer, x0, y0, x1, y1)],
        vias: 0,
        via_points: Vec::new(),
    }
}

#[test]
fn interlayer_crossover_couples_by_area() {
    let rules = deck("met1 0.1 0.05 0.0\nmet2 0.1 0.05 0.0\ninterlayer met1 met2 0.02\n");
    let mut widths = StrMap::new();
    widths.insert("met1", F(0.4));
    widths.insert("met2", F(0.5));
    let mut a = seg("met1", 0.0, 2.0, 4.0, 2.0);
    a.name = "a".into();
    let mut b = seg("met2", 2.0, 0.0, 2.0, 4.0);
    b.name = "b".into();
    let cc = extract_coupling(&vec![a, b], &rules, &widths, &no_widths());
    assert_eq!(cc.len(), 1);
    assert!((cc[0].cap_ff.0 - 0.004).abs() < 1e-9, "cc={}", cc[0].cap_ff.0);
}

#[test]
fn interlayer_needs_widths() {
    let rules = deck("met1 0.1 0.05 0.0\nmet2 0.1 0.05 0.0\ninterlayer met1 met2 0.02\n");
    let mut a = seg("met1", 0.0, 2.0, 4.0, 2.0);
    a.name = "a".into();
    let mut b = seg("met2", 2.0, 0.0, 2.0, 4.0);
    b.name = "b".into();
    assert!(extract_coupling(&vec![a, b], &rules, &no_widths(), &no_widths()).is_empty());
}

#[test]
fn spatial_index_agrees_with_isolated_pairs_and_respects_line_of_sight() {
    let rules = deck("met1 0.1 0.05 0.1 0.5\nmet2 0.12 0.05 0.08 0.5\n");
    let mut nets: Vec<DefNet> = Vec::new();
    for i in 0..60u32 {
        let layer = if i % 2 == 0 { "met1" } else { "met2" };
        let y = (i as f64) * 0.31;
        let x0 = (i % 7) as f64 * 0.2;
        let mut n = hnet(&format!("n{i}"), x0, x0 + 5.0, y);
        n.segments[0].layer = layer.into();
        n.name = format!("n{i}");
        nets.push(n);
    }
    let got = extract_coupling(&nets, &rules, &no_widths(), &no_widths());

    let mut isolated: std::collections::BTreeMap<(String, String), f64> = Default::default();
    for i in 0..nets.len() {
        for j in (i + 1)..nets.len() {
            for c in extract_coupling(
                &vec![copy(&nets[i]), copy(&nets[j])],
                &rules,
                &no_widths(),
                &no_widths(),
            ) {
                isolated.insert((c.a, c.b), c.cap_ff.0);
            }
        }
    }

    for c in &got {
        let w = isolated
            .get(&(c.a.clone(), c.b.clone()))
            .unwrap_or_else(|| panic!("indexed pair {}/{} absent from the isolated set", c.a, c.b));
        assert!(
            c.cap_ff.0 <= w + 1e-12,
            "{}/{} reports {} in context, above its isolated {}",
            c.a,
            c.b,
            c.cap_ff.0,
            w
        );
    }

    assert!(
        got.len() < isolated.len(),
        "occlusion should remove hidden pairs: {} indexed vs {} isolated",
        got.len(),
        isolated.len()
    );

    let partial = got.iter().any(|c| {
        isolated
            .get(&(c.a.clone(), c.b.clone()))
            .is_some_and(|w| c.cap_ff.0 < w - 1e-9)
    });
    assert!(
        partial,
        "no pair was partially shadowed — coverage is not being applied"
    );
}

#[test]
fn a_short_neighbour_shadows_only_the_run_it_spans() {
    let rules = deck("met1 0.1 0.05 0.1 0.5\ncouple_cutoff 2.0\n");
    let nets = vec![
        hnet("a", 0.0, 10.0, 0.0),
        hnet("b", 0.0, 4.0, 0.5),
        hnet("c", 0.0, 10.0, 1.0),
    ];
    let cc = extract_coupling(&nets, &rules, &no_widths(), &no_widths());
    let find = |x: &str, y: &str| {
        cc.iter()
            .find(|c| c.a == x && c.b == y)
            .unwrap_or_else(|| panic!("{x}/{y} missing from {cc:?}"))
            .cap_ff.0
    };
    assert!((find("a", "b") - 0.4).abs() < 1e-9, "a/b = {}", find("a", "b"));
    assert!((find("a", "c") - 0.3).abs() < 1e-9, "a/c = {}", find("a", "c"));
    assert!((find("b", "c") - 0.4).abs() < 1e-9, "b/c = {}", find("b", "c"));
}

#[test]
fn a_covering_neighbour_hides_what_is_behind_it() {
    let rules = deck("met1 0.1 0.05 0.1 0.5\ncouple_cutoff 2.0\n");
    let nets = vec![
        hnet("a", 0.0, 10.0, 0.0),
        hnet("b", -1.0, 11.0, 0.5),
        hnet("c", 0.0, 10.0, 1.0),
    ];
    let cc = extract_coupling(&nets, &rules, &no_widths(), &no_widths());
    assert!(
        !cc.iter().any(|c| c.a == "a" && c.b == "c"),
        "a couples through a wire that fully covers it: {cc:?}"
    );
    assert!(cc.iter().any(|c| c.a == "a" && c.b == "b"));
    assert!(cc.iter().any(|c| c.b == "c" && c.a == "b"));
}

#[test]
fn coupling_is_invariant_under_mirroring() {
    let rules = deck("met1 0.1 0.05 0.1 0.5\nmet2 0.12 0.05 0.08 0.5\ncouple_cutoff 2.0\n");
    let mut nets: Vec<DefNet> = Vec::new();
    for i in 0..40u32 {
        let f = i as f64;
        let mut n = DefNet {
            name: format!("n{i}"),
            pins: vec![],
            segments: vec![],
            vias: 0,
            via_points: Vec::new(),
        };
        let layer = if i % 3 == 0 { "met2" } else { "met1" };
        if i % 2 == 0 {
            let y = f * 0.37;
            let x0 = (i % 5) as f64 * 0.9;
            n.segments.push(wire(layer, x0, y, x0 + 6.0, y));
            if i % 4 == 0 {
                n.segments.push(wire(layer, x0 + 6.0, y, x0 + 9.0, y));
            }
        } else {
            let x = f * 0.41;
            let y0 = (i % 7) as f64 * 0.8;
            n.segments.push(wire(layer, x, y0, x, y0 + 7.0));
        }
        nets.push(n);
    }
    let base = extract_coupling(&nets, &rules, &no_widths(), &no_widths());
    assert!(base.len() > 20, "the fixture must actually couple: {}", base.len());

    let mirror = |sign_x: i64, sign_y: i64| -> Vec<DefNet> {
        nets.iter()
            .map(|n| DefNet {
                name: n.name.clone(),
                pins: n.pins.clone(),
                segments: n
                    .segments
                    .iter()
                    .map(|s| Segment {
                        layer: s.layer.clone(),
                        x0: s.x0 * sign_x,
                        y0: s.y0 * sign_y,
                        x1: s.x1 * sign_x,
                        y1: s.y1 * sign_y,
                        width: s.width,
                    })
                    .collect(),
                vias: n.vias,
                via_points: Vec::new(),
            })
            .collect()
    };
    for (sx, sy, what) in [
        (1, -1, "flipped top to bottom"),
        (-1, 1, "flipped left to right"),
        (-1, -1, "rotated 180"),
    ] {
        let got = extract_coupling(&mirror(sx, sy), &rules, &no_widths(), &no_widths());
        assert_eq!(base.len(), got.len(), "{what}: pair count");
        for (b, g) in base.iter().zip(&got) {
            assert_eq!((b.a.as_str(), b.b.as_str()), (g.a.as_str(), g.b.as_str()), "{what}: pairs");
            assert_eq!(b.cap_ff.0.to_bits(), g.cap_ff.0.to_bits(), "{what}: {}-{}", b.a, b.b);
        }
    }
}

#[test]
fn shadowing_only_ever_removes() {
    let rules = deck("met1 0.1 0.05 0.1 0.5\ncouple_cutoff 3.0\n");
    let nets: Vec<DefNet> = (0..25u32)
        .map(|i| {
            let x0 = (i % 4) as f64 * 1.3;
            hnet(&format!("n{i}"), x0, x0 + 8.0, i as f64 * 0.29)
        })
        .collect();
    let got = extract_coupling(&nets, &rules, &no_widths(), &no_widths());
    for c in &got {
        let i = nets.iter().position(|n| n.name == c.a).unwrap();
        let j = nets.iter().position(|n| n.name == c.b).unwrap();
        let alone = extract_coupling(&vec![copy(&nets[i]), copy(&nets[j])], &rules, &no_widths(), &no_widths());
        let bound = alone.first().map(|x| x.cap_ff.0).unwrap_or(0.0);
        assert!(
            c.cap_ff.0 <= bound + 1e-12,
            "{}/{}: {} in context exceeds {} alone",
            c.a,
            c.b,
            c.cap_ff.0,
            bound
        );
    }
}

#[test]
fn power_metal_blocks_and_is_never_reported() {
    let rules = deck("met1 0.1 0.05 0.1 0.5\ncouple_cutoff 2.0\n");
    let nets = vec![hnet("a", 0.0, 10.0, 0.0), hnet("c", 0.0, 10.0, 1.0)];
    let rail = vec![Segment {
        layer: "met1".into(),
        x0: um(0.0),
        y0: um(0.5),
        x1: um(10.0),
        y1: um(0.5),
        width: um(0.2),
    }];

    let open = extract_coupling(&nets, &rules, &no_widths(), &no_widths());
    assert_eq!(open.len(), 1, "{open:?}");

    let blocked = extract_coupling_blocked(&nets, &rules, &no_widths(), &no_widths(), &rail);
    assert!(blocked.is_empty(), "coupled through a power rail: {blocked:?}");
}

#[test]
fn same_net_metal_blocks_without_being_reported() {
    let rules = deck("met1 0.1 0.05 0.1 0.5\ncouple_cutoff 2.0\n");
    let mut a = hnet("a", 0.0, 10.0, 0.0);
    a.segments.push(wire("met1", 0.0, 0.5, 10.0, 0.5));
    let cc = extract_coupling(&vec![a, hnet("c", 0.0, 10.0, 1.0)], &rules, &no_widths(), &no_widths());
    assert_eq!(cc.len(), 1, "{cc:?}");
    assert!((cc[0].cap_ff.0 - 1.0).abs() < 1e-9, "cc={}", cc[0].cap_ff.0);
}

#[test]
fn parallel_result_is_bit_identical_to_serial() {
    let rules = deck("met1 0.1 0.05 0.1 0.5\ncouple_cutoff 2.0\n");
    let mut nets: Vec<DefNet> = Vec::new();
    for i in 0..400u32 {
        let y = i as f64 * 0.3;
        nets.push(DefNet {
            name: format!("w{i}"),
            pins: vec![],
            segments: vec![
                wire("met1", 0.0, y, 5.0, y),
                wire("met1", 5.0, y, 11.0, y),
            ],
            vias: 0,
            via_points: Vec::new(),
        });
    }
    let rails: Vec<Segment> = Vec::new();
    let run = |threads: usize| -> Vec<CouplingCap<F>> {
        let pool = rayon::ThreadPoolBuilder::new()
            .num_threads(threads)
            .build()
            .unwrap();
        let none = no_widths();
        let scene = Scene::new(&nets, &rails, &rules, &none);
        let parts: Vec<_> = pool.install(|| {
            bands(scene.len(), threads)
                .par_iter()
                .map(|&(lo, hi)| scan_band(&scene, &nets, &rails, &rules, &none, &none, lo, hi))
                .collect()
        });
        let mut table: PairCaps<F> = PairCaps::new();
        for p in &parts {
            table.take_all(p, DEFAULT_MAX_COUPLING_PAIRS);
        }
        table.named(&nets)
    };
    let whole = extract_coupling(&nets, &rules, &no_widths(), &no_widths());
    let serial = run(1);
    assert_eq!(whole.len(), serial.len());
    for (s, p) in whole.iter().zip(&serial) {
        assert_eq!((s.a.as_str(), s.b.as_str()), (p.a.as_str(), p.b.as_str()));
        assert_eq!(s.cap_ff.0.to_bits(), p.cap_ff.0.to_bits());
    }
    for t in [2usize, 8, 16] {
        let par = run(t);
        assert_eq!(serial.len(), par.len(), "{t} threads: pair count");
        for (s, p) in serial.iter().zip(&par) {
            assert_eq!(
                (s.a.as_str(), s.b.as_str()),
                (p.a.as_str(), p.b.as_str()),
                "{t}t order"
            );
            assert_eq!(
                s.cap_ff.0.to_bits(),
                p.cap_ff.0.to_bits(),
                "{t}t cap bits {}-{}",
                s.a,
                s.b
            );
        }
    }
}

#[test]
fn pair_cap_bounds_distinct_pairs() {
    let rules = deck("met1 0.1 0.05 0.1 0.5\ncouple_cutoff 0.7\n");
    let n = 4000u32;
    let nets: Vec<DefNet> = (0..n)
        .map(|i| hnet(&format!("w{i}"), 0.0, 10.0, i as f64 * 0.5))
        .collect();
    let capped = extract_coupling_capped(&nets, &rules, &no_widths(), &no_widths(), 10);
    assert!(
        capped.len() <= 10,
        "distinct pairs bounded by the cap, got {}",
        capped.len()
    );
    let full = extract_coupling(&nets, &rules, &no_widths(), &no_widths());
    for c in &capped {
        let m = full
            .iter()
            .find(|f| f.a == c.a && f.b == c.b)
            .expect("capped pair is real");
        assert!(
            (m.cap_ff.0 - c.cap_ff.0).abs() < 1e-12,
            "capped pair keeps its full cap value"
        );
    }
}

#[test]
fn generous_cap_matches_uncapped() {
    let rules = deck("met1 0.1 0.05 0.1 0.5\ncouple_cutoff 0.7\n");
    let nets: Vec<DefNet> = (0..500u32)
        .map(|i| hnet(&format!("w{i}"), 0.0, 10.0, i as f64 * 0.5))
        .collect();
    let a = extract_coupling(&nets, &rules, &no_widths(), &no_widths());
    let b = extract_coupling_capped(&nets, &rules, &no_widths(), &no_widths(), usize::MAX);
    assert_eq!(a.len(), b.len());
    for (x, y) in a.iter().zip(&b) {
        assert_eq!(
            (x.a.as_str(), x.b.as_str()),
            (y.a.as_str(), y.b.as_str()),
            "same order"
        );
        assert!((x.cap_ff.0 - y.cap_ff.0).abs() < 1e-12);
    }
}

#[test]
fn scales_to_thousands_of_nets() {
    let rules = deck("met1 0.1 0.05 0.1 0.5\ncouple_cutoff 0.7\n");
    let n = 4000u32;
    let nets: Vec<DefNet> = (0..n)
        .map(|i| hnet(&format!("w{i}"), 0.0, 10.0, i as f64 * 0.5))
        .collect();
    let cc = extract_coupling(&nets, &rules, &no_widths(), &no_widths());
    assert_eq!(
        cc.len() as u32,
        n - 1,
        "only adjacent wires (gap 0.5 < 0.7) couple"
    );
}

#[test]
fn the_pair_limit_is_a_setting() {
    assert_eq!(max_coupling_pairs(None), DEFAULT_MAX_COUPLING_PAIRS);
    assert_eq!(max_coupling_pairs(Some("12")), 12);
    assert_eq!(max_coupling_pairs(Some("many")), DEFAULT_MAX_COUPLING_PAIRS);
}

#[test]
fn a_wire_of_its_own_width_couples_from_its_own_edge() {
    let rules = deck("met1 0.1 0.05 0.1 0.5\n");
    let mut a = hnet("a", 0.0, 3.0, 0.0);
    a.segments[0].width = um(0.4);
    let mut b = hnet("b", 0.0, 3.0, 1.0);
    b.segments[0].width = um(0.4);
    let cc = extract_coupling(&vec![a, b], &rules, &no_widths(), &no_widths());
    assert!((cc[0].cap_ff.0 - 0.25).abs() < 1e-9, "cc={}", cc[0].cap_ff.0);
}

#[test]
fn the_field_kernel_takes_over_where_thickness_is_known() {
    let rules = deck("eps_r 4.0\nmet1 0.1 0.05 0.1 0.5\n");
    let mut thick: StrMap<F> = StrMap::new();
    thick.insert("met1", F(0.35));
    let cc = extract_coupling(
        &vec![hnet("a", 0.0, 10.0, 0.0), hnet("b", 0.0, 10.0, 0.5)],
        &rules,
        &no_widths(),
        &thick,
    );
    let want = 4.0 * 8.854e-3 * 0.35 / 0.5 * 10.0;
    assert!((cc[0].cap_ff.0 - want).abs() < 1e-9, "cc={}", cc[0].cap_ff.0);
}

fn rules_with(shape: Option<Vec<(f64, f64)>>) -> RcRules<F> {
    let mut r = deck("met1 0.125 0.078 0.1 0.14\ncouple_cutoff 5.0\n");
    if let Some(pts) = shape {
        r.couple_shapes.insert("met1", pts.into_iter().map(|(a, b)| (F(a), F(b))).collect());
    }
    r
}
fn met1(r: &RcRules<F>) -> LayerRc<F> {
    *r.layers.get("met1").unwrap()
}

#[test]
fn falls_back_to_the_analytic_shape() {
    let r = rules_with(None);
    let l = met1(&r);
    assert!((couple_shape(&r, "met1", &l, F(0.14)).0 - 1.0).abs() < 1e-12, "at s_ref");
    assert!((couple_shape(&r, "met1", &l, F(0.28)).0 - 0.5).abs() < 1e-12, "1/s at twice s_ref");
    assert!((couple_shape(&r, "met1", &l, F(0.05)).0 - 1.0).abs() < 1e-12, "clamped below s_ref");
}

#[test]
fn the_characterised_curve_decays_far_slower_than_one_over_s() {
    let r = rules_with(Some(vec![(0.14, 1.0), (0.28, 0.7734), (0.42, 0.6001)]));
    let l = met1(&r);
    assert!((couple_shape(&r, "met1", &l, F(0.28)).0 - 0.7734).abs() < 1e-9);
    let analytic = l.s_ref.0 / 0.28_f64.max(l.s_ref.0);
    assert!(analytic < 0.51, "the analytic model gives {}", analytic);
}

#[test]
fn interpolates_linearly_between_samples() {
    let r = rules_with(Some(vec![(0.14, 1.0), (0.28, 0.8), (0.42, 0.6)]));
    let l = met1(&r);
    assert!((couple_shape(&r, "met1", &l, F(0.21)).0 - 0.9).abs() < 1e-9, "midpoint of 1.0..0.8");
    assert!((couple_shape(&r, "met1", &l, F(0.35)).0 - 0.7).abs() < 1e-9, "midpoint of 0.8..0.6");
}

#[test]
fn clamps_below_the_first_sample() {
    let r = rules_with(Some(vec![(0.14, 1.0), (0.28, 0.7734)]));
    let l = met1(&r);
    assert!((couple_shape(&r, "met1", &l, F(0.10)).0 - 1.0).abs() < 1e-12);
    assert!((couple_shape(&r, "met1", &l, F(0.0)).0 - 1.0).abs() < 1e-12);
}

#[test]
fn tails_off_as_one_over_gap_past_the_table() {
    let r = rules_with(Some(vec![(0.14, 1.0), (1.4, 0.25)]));
    let l = met1(&r);
    assert!((couple_shape(&r, "met1", &l, F(2.8)).0 - 0.25 * 1.4 / 2.8).abs() < 1e-9);
    assert!(couple_shape(&r, "met1", &l, F(100.0)).0 < 0.005, "decays away");
}

#[test]
fn the_deck_parses_a_shape_line() {
    let r = deck(
        "met1 0.125 0.078 0.1 0.14\ncouple_shape met1 0.14:1.0 0.28:0.7734 0.42:0.6001\n",
    );
    let pts = r.couple_shapes.get("met1").expect("parsed");
    assert_eq!(pts.len(), 3);
    assert!((pts[1].1 .0 - 0.7734).abs() < 1e-12);
}

#[test]
fn shape_points_are_sorted_by_spacing() {
    let r = deck(
        "met1 0.125 0.078 0.1 0.14\ncouple_shape met1 0.42:0.6 0.14:1.0 0.28:0.77\n",
    );
    let pts = r.couple_shapes.get("met1").unwrap();
    assert_eq!(pts[0].0, F(0.14));
    assert_eq!(pts[2].0, F(0.42));
}

#[test]
fn pairs_come_in_the_order_of_names_and_equal_names_keep_theirs() {
    let rules = deck("met1 0.1 0.05 0.1 0.5\n");
    let nets = vec![
        hnet("z", 0.0, 3.0, 0.0),
        hnet("b", 0.0, 3.0, 0.5),
        hnet("b", 0.0, 2.0, -0.5),
        hnet("a", 0.0, 1.0, 1.0),
    ];
    let cc = extract_coupling(&nets, &rules, &no_widths(), &no_widths());
    let got: Vec<(&str, &str, i64)> = cc
        .iter()
        .map(|c| (c.a.as_str(), c.b.as_str(), (c.cap_ff.0 * 1e6).round() as i64))
        .collect();
    assert_eq!(
        got[..],
        [("b", "a", 100_000), ("z", "b", 300_000), ("z", "b", 200_000)][..]
    );
}

#[test]
fn a_refused_pair_is_counted_once() {
    let part = |a: usize, b: usize, c: f64| Contribution { a, b, cap_ff: F(c) };
    let cs = vec![
        part(0, 1, 1.0),
        part(0, 2, 2.0),
        part(1, 2, 3.0),
        part(0, 1, 4.0),
        part(0, 2, 5.0),
        part(2, 3, 6.0),
        part(1, 2, 7.0),
    ];
    let mut table: PairCaps<F> = PairCaps::new();
    table.take_all(&cs, 1);
    assert_eq!(table.refused(), 3);
    table.take_all(&cs, 1);
    assert_eq!(table.refused(), 3, "the same pairs again");
    let mut wide: PairCaps<F> = PairCaps::new();
    wide.take_all(&cs, 3);
    assert_eq!(wide.refused(), 1);
    let nets: Vec<DefNet> = (0..4).map(|k| hnet(&format!("n{k}"), 0.0, 1.0, k as f64)).collect();
    let one = table.named(&nets);
    assert_eq!(one.len(), 1);
    assert_eq!((one[0].a.as_str(), one[0].b.as_str(), one[0].cap_ff), ("n0", "n1", F(10.0)));
}

#[test]
fn a_limit_drops_whole_couplings_only() {
    let rules = deck("met1 0.1 0.05 0.1 0.5\n");
    let nets: Vec<DefNet> =
        (0..6).map(|k| hnet(&format!("n{k}"), 0.0, 2.0 + k as f64, 0.5 * k as f64)).collect();
    let full = extract_coupling(&nets, &rules, &no_widths(), &no_widths());
    assert_eq!(full.len(), 5, "each wire hides those behind it");
    for max in 0..8 {
        let few = extract_coupling_capped(&nets, &rules, &no_widths(), &no_widths(), max);
        assert_eq!(few.len(), full.len().min(max));
        for c in &few {
            assert!(full.iter().any(|d| (&d.a, &d.b, d.cap_ff) == (&c.a, &c.b, c.cap_ff)));
        }
    }
}
