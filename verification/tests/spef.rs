use vyges_extract::coupling::CouplingCap;
use vyges_extract::hookup::{CellDirs, LibCells, LibPin, PinDir, PinResolver};
use vyges_extract::number::Real;
use vyges_extract::rc::NetParasitics;
use vyges_extract::spef::{render, render_distributed, render_json, Units};
use vyges_extract::strmap::StrMap;
use vyges_extract::tree::{RcEdge, RcNetwork, RcNode};

/// Binary floating point.
#[derive(Clone, Copy, Debug, PartialEq)]
struct F(f64);

impl Real for F {
    fn micro(n: i128) -> F {
        F(n as f64 / 1e6)
    }
    fn count(n: usize) -> F {
        F(n as f64)
    }
    fn plus(self, other: F) -> F {
        F(self.0 + other.0)
    }
    fn minus(self, other: F) -> F {
        F(self.0 - other.0)
    }
    fn times(self, other: F) -> F {
        F(self.0 * other.0)
    }
    fn over(self, other: F) -> F {
        F(self.0 / other.0)
    }
    fn exp(self) -> F {
        F(self.0.exp())
    }
    fn below(self, other: F) -> bool {
        self.0 < other.0
    }
    fn same(self, other: F) -> bool {
        self.0 == other.0
    }
    fn millionths(self) -> i64 {
        (self.0 * 1e6).round() as i64
    }
    fn parse(s: &Vec<char>) -> Option<F> {
        s.iter().collect::<String>().parse::<f64>().ok().map(F)
    }
    fn show(self) -> String {
        format!("{}", self.0)
    }
    fn numeral(self) -> String {
        let rounded: f64 = format!("{:.8e}", self.0).parse().unwrap_or(self.0);
        format!("{rounded}")
    }
    fn places(self, k: u64) -> String {
        format!("{:.*}", k as usize, self.0)
    }
}

fn net() -> NetParasitics<F> {
    NetParasitics {
        name: "clk".into(),
        pins: vec![("clkbuf".into(), "X".into()), ("ff0".into(), "CLK".into())],
        res_ohm: F(10.05),
        cap_ff: F(0.45),
    }
}

#[test]
fn header_and_units() {
    let s = render("counter", &Units::default(), None, &vec![net()], &vec![]);
    assert!(s.starts_with("*SPEF \"IEEE 1481-1999\""));
    assert!(s.contains("*DESIGN \"counter\""));
    assert!(s.contains("*PROGRAM \"vyges-extract\""));
    assert!(s.contains("*C_UNIT 1 FF"));
    assert!(s.contains("*R_UNIT 1 OHM"));

    assert!(
        s.contains("*DATE"),
        "required by the standard, whatever we think of it"
    );
    assert!(
        s.contains("*DESIGN_FLOW"),
        "required; also states pin caps are not included"
    );

    let again = render("counter", &Units::default(), None, &vec![net()], &vec![]);
    assert_eq!(s, again, "output must stay byte-identical across runs");
    assert!(
        !s.contains("1970-01-01T"),
        "a fixed stamp, in the format the grammar expects"
    );
}

fn d_net(text: &str, id: &str) -> f64 {
    text.lines()
        .find(|l| l.starts_with(&format!("*D_NET {id} ")))
        .and_then(|l| l.split_whitespace().nth(2))
        .and_then(|v| v.parse::<f64>().ok())
        .unwrap_or_else(|| panic!("no *D_NET {id}\n{text}"))
}

#[test]
fn name_map_and_dnet() {
    let s = render("counter", &Units::default(), None, &vec![net()], &vec![]);
    assert!(s.contains("*NAME_MAP"));
    assert!(s.contains("*1 clk"));
    assert!(s.contains("*2 clkbuf"));
    assert!(s.contains("*3 ff0"));
    assert!((d_net(&s, "*1") - 0.45).abs() < 1e-9);
    assert!(s.contains("*I *2:X I"));
    assert!(s.contains("*CAP\n1 *2:X 0.225"));
    assert!(s.contains("2 *3:CLK 0.225"));
    assert!(s.contains("*RES\n1 *1:0 *2:X 5.025"));
    assert!(s.contains("2 *1:0 *3:CLK 5.025"));
    assert!(s.trim_end().ends_with("*END"));
}

#[test]
fn coupling_adds_to_totals_and_caps() {
    let n0 = NetParasitics {
        name: "n0".into(),
        pins: vec![("u0".into(), "Y".into())],
        res_ohm: F(1.0),
        cap_ff: F(0.20),
    };
    let cpl = vec![CouplingCap {
        a: "clk".into(),
        b: "n0".into(),
        cap_ff: F(0.03),
    }];
    let s = render("c", &Units::default(), None, &vec![net(), n0], &cpl);
    assert!((d_net(&s, "*1") - 0.48).abs() < 1e-9, "clk total");
    assert!((d_net(&s, "*2") - 0.23).abs() < 1e-9, "n0 total");
    assert!(s.contains(" *1:0 *2:0 0.03"), "coupling under clk\n{s}");
    assert!(s.contains(" *2:0 *1:0 0.03"), "coupling under n0\n{s}");
}

#[test]
fn deterministic_repeatable() {
    let a = render("counter", &Units::default(), None, &vec![net()], &vec![]);
    let b = render("counter", &Units::default(), None, &vec![net()], &vec![]);
    assert_eq!(a, b);
}

#[test]
fn native_conn_hookup_direction_and_cin() {
    let comps = vec![
        ("clkbuf".to_string(), "CLKBUF_X1".to_string()),
        ("ff0".to_string(), "DFF_X1".to_string()),
    ];
    let mut lef: CellDirs = StrMap::new();
    let mut pins = StrMap::new();
    pins.insert("X", PinDir::Output);
    lef.insert("CLKBUF_X1", pins);
    let mut pins = StrMap::new();
    pins.insert("CLK", PinDir::Input);
    lef.insert("DFF_X1", pins);
    let mut lib: LibCells<F> = StrMap::new();
    let mut pins = StrMap::new();
    pins.insert("X", LibPin { direction: PinDir::Output, cap_ff: F(0.0) });
    lib.insert("CLKBUF_X1", pins);
    let mut pins = StrMap::new();
    pins.insert("CLK", LibPin { direction: PinDir::Input, cap_ff: F(3.0) });
    lib.insert("DFF_X1", pins);
    let resolver = PinResolver::from_loaded(&comps, Some(lef), Some(lib));

    let none: Vec<Option<RcNetwork<F>>> = vec![None];
    let s = render_distributed(
        "counter",
        &Units::default(),
        None,
        &vec![net()],
        &none,
        &vec![],
        Some(&resolver),
    );
    assert!(s.contains(":X O\n"), "spef:\n{s}");
    assert!(s.contains(":CLK I *L 3"), "spef:\n{s}");
    assert!(s.contains("*D_NET *1 3.45"), "spef:\n{s}");
}

fn assert_every_reference_resolves(s: &str) {
    let mut map_ids = std::collections::BTreeSet::new();
    let mut in_map = false;
    for line in s.lines() {
        if line.starts_with("*NAME_MAP") {
            in_map = true;
            continue;
        }
        if in_map {
            if line.starts_with('*') && line[1..].starts_with(|c: char| c.is_ascii_digit()) {
                if let Some((id, _)) = line[1..].split_once(' ') {
                    map_ids.insert(id.to_string());
                }
                continue;
            }
            if line.trim().is_empty() {
                continue;
            }
            in_map = false;
        }
        if line.starts_with('*') && line.contains('"') {
            continue;
        }
        for tok in line.split_whitespace() {
            let Some(body) = tok.strip_prefix('*') else {
                continue;
            };
            let id: String = body.chars().take_while(|c| c.is_ascii_digit()).collect();
            if id.is_empty() {
                continue;
            }
            assert!(
                map_ids.contains(&id),
                "`{tok}` references name-map id {id}, which is not in the map\n  in: {line}"
            );
        }
    }
    assert!(!map_ids.is_empty(), "the scan found no name map at all");
}

#[test]
fn every_name_map_reference_resolves() {
    let s = render("counter", &Units::default(), None, &vec![net()], &vec![]);
    assert_every_reference_resolves(&s);
}

#[test]
fn a_port_is_never_written_as_a_name_map_reference() {
    let with_port = NetParasitics {
        name: "clk".into(),
        pins: vec![("PIN".into(), "clk_i".into()), ("ff0".into(), "CLK".into())],
        res_ohm: F(10.0),
        cap_ff: F(0.4),
    };
    let s = render("counter", &Units::default(), None, &vec![with_port], &vec![]);

    assert!(
        s.contains("*P clk_i I"),
        "the connection is a port declaration"
    );
    assert!(
        !s.contains(":clk_i"),
        "the port is its own node — `clk_i`, never `<something>:clk_i`\n{s}"
    );
    assert!(
        !s.contains("PIN:") && !s.contains(" PIN "),
        "the DEF placeholder names nothing and must not reach the file as an instance\n{s}"
    );
    assert_every_reference_resolves(&s);
}

fn unescape(s: &str) -> String {
    let mut out = String::with_capacity(s.len());
    let mut esc = false;
    for c in s.chars() {
        if esc {
            out.push(c);
            esc = false;
        } else if c == '\\' {
            esc = true;
        } else {
            out.push(c);
        }
    }
    out
}

fn name_map(text: &str) -> Vec<String> {
    text.lines()
        .skip_while(|l| l.trim() != "*NAME_MAP")
        .skip(1)
        .take_while(|l| l.trim_start().starts_with('*') && l.split_whitespace().count() == 2)
        .filter_map(|l| l.split_whitespace().nth(1).map(unescape))
        .collect()
}

#[test]
fn hierarchical_names_are_escaped_and_reversible() {
    let mut n = net();
    n.name = "u_adapter/q[0]".into();
    let text = render("blk", &Units::default(), None, &vec![n], &vec![]);
    assert!(
        text.contains("*1 u_adapter/q[0]"),
        "the name is written as the design spells it:\n{text}"
    );
    assert!(
        name_map(&text).contains(&"u_adapter/q[0]".to_string()),
        "{:?}",
        name_map(&text)
    );
}

#[test]
fn coupling_between_hierarchical_names_is_escaped() {
    let mut a = net();
    a.name = "top/u_a/d[3]".into();
    let mut b = net();
    b.name = "top/u_b/q[3]".into();
    b.pins = vec![("ff1".into(), "D".into())];
    let cc = CouplingCap {
        a: a.name.clone(),
        b: b.name.clone(),
        cap_ff: F(1.25),
    };
    let text = render("blk", &Units::default(), None, &vec![a, b], &vec![cc]);
    let names = name_map(&text);
    assert!(names.contains(&"top/u_a/d[3]".to_string()), "{names:?}");
    assert!(names.contains(&"top/u_b/q[3]".to_string()), "{names:?}");
    let mut in_cap = false;
    let mut cc_lines = 0;
    for l in text.lines() {
        match l.trim() {
            "*CAP" => in_cap = true,
            "*RES" | "*CONN" | "*END" => in_cap = false,
            body => {
                let f: Vec<&str> = body.split_whitespace().collect();
                if in_cap
                    && f.len() == 4
                    && f[0].chars().all(|c| c.is_ascii_digit())
                    && f[3].parse::<f64>().is_ok()
                {
                    cc_lines += 1;
                }
            }
        }
    }
    assert_eq!(cc_lines, 2, "a two-node *CAP entry under each net:\n{text}");
}

#[test]
fn ordinary_names_are_not_escaped() {
    let text = render("blk", &Units::default(), None, &vec![net()], &vec![]);
    assert!(!text.contains("\\clk"), "{text}");
    assert!(name_map(&text).contains(&"clk".to_string()), "{:?}", name_map(&text));
}

#[test]
fn resolves_direction_and_cap() {
    let comps = vec![
        ("u1".to_string(), "INV_X1".to_string()),
        ("u2".to_string(), "INV_X1".to_string()),
    ];
    let mut lef: CellDirs = StrMap::new();
    let mut pins = StrMap::new();
    pins.insert("A", PinDir::Input);
    pins.insert("Y", PinDir::Output);
    lef.insert("INV_X1", pins);
    let mut lib: LibCells<F> = StrMap::new();
    let mut pins = StrMap::new();
    pins.insert("A", LibPin { direction: PinDir::Input, cap_ff: F(1.5) });
    pins.insert("Y", LibPin { direction: PinDir::Output, cap_ff: F(0.0) });
    lib.insert("INV_X1", pins);
    let r = PinResolver::from_loaded(&comps, Some(lef), Some(lib));
    assert!(r.active());
    assert_eq!(r.resolve("u1", "Y"), (PinDir::Output, F(0.0)));
    let (d, c) = r.resolve("u2", "A");
    assert_eq!(d, PinDir::Input);
    assert!((c.0 - 1.5).abs() < 1e-6);
    assert_eq!(r.resolve("zz", "A"), (PinDir::Unknown, F(0.0)));
}

#[test]
fn a_library_alone_gives_directions() {
    let comps = vec![("u1".to_string(), "INV_X1".to_string())];
    let mut lib: LibCells<F> = StrMap::new();
    let mut pins = StrMap::new();
    pins.insert("A", LibPin { direction: PinDir::Inout, cap_ff: F(1.5) });
    lib.insert("INV_X1", pins);
    let r = PinResolver::from_loaded(&comps, None, Some(lib));
    assert_eq!(r.resolve("u1", "A"), (PinDir::Inout, F(1.5)));
    assert_eq!(r.resolve("u1", "B"), (PinDir::Unknown, F(0.0)));
    let empty: PinResolver<F> = PinResolver::from_loaded(&vec![], None, None);
    assert!(!empty.active());
}

#[test]
fn a_date_is_written_as_it_is_given() {
    let s = render("d", &Units::default(), Some("12:00:00 Monday March 01, 2100"), &vec![net()], &vec![]);
    assert!(s.contains("*DATE \"12:00:00 Monday March 01, 2100\"\n"));
    let fixed = render("d", &Units::default(), None, &vec![net()], &vec![]);
    assert!(fixed.contains("*DATE \"00:00:00 Thursday January 01, 1970\"\n"));
}

#[test]
fn a_star_without_resistance_is_one_node() {
    let mut n = net();
    n.res_ohm = F(0.0);
    let s = render("d", &Units::default(), None, &vec![n], &vec![]);
    assert!(s.contains("*CAP\n1 *1:0 0.45\n*END"), "{s}");
    let mut lone = net();
    lone.pins = vec![("u".into(), "Y".into())];
    let s = render("d", &Units::default(), None, &vec![lone], &vec![]);
    assert!(s.contains("*CAP\n1 *2:Y 0.225\n2 *1:0 0.225\n*RES\n1 *1:0 *2:Y 10.05\n"), "{s}");
    let mut bare = net();
    bare.pins = vec![];
    let s = render("d", &Units::default(), None, &vec![bare], &vec![]);
    assert!(s.contains("1 *1:0 0.225\n2 *1:far 0.225\n*RES\n1 *1:0 *1:far 10.05\n"), "{s}");
}

#[test]
fn a_network_is_scaled_to_the_totals_of_its_net() {
    let t = RcNetwork {
        nodes: vec![
            RcNode { cap_ff: F(0.1), pin: Some(("clkbuf".into(), "X".into())) },
            RcNode { cap_ff: F(0.2), pin: None },
            RcNode { cap_ff: F(0.1), pin: Some(("ff0".into(), "CLK".into())) },
        ],
        edges: vec![
            RcEdge { a: 0, b: 1, res_ohm: F(1.0) },
            RcEdge { a: 1, b: 2, res_ohm: F(3.0) },
        ],
        raw_cap: F(0.4),
        raw_res: F(4.0),
    };
    let mut n = net();
    n.cap_ff = F(0.8);
    n.res_ohm = F(8.0);
    let s = render_distributed("d", &Units::default(), None, &vec![n], &vec![Some(t)], &vec![], None);
    assert!(s.contains("*CAP\n1 *2:X 0.2\n2 *1:1 0.4\n3 *3:CLK 0.2\n"), "{s}");
    assert!(s.contains("*RES\n1 *2:X *1:1 2\n2 *1:1 *3:CLK 6\n"), "{s}");
}

#[test]
fn json_summary() {
    let nets = vec![NetParasitics {
        name: "clk".into(),
        pins: vec![("a".into(), "X".into())],
        res_ohm: F(10.0),
        cap_ff: F(0.5),
    }];
    let j = render_json("d", &nets, &vec![]);
    assert!(j.contains("\"design\":\"d\""));
    assert!(j.contains("\"nets\":1"));
    assert!(j.contains("\"ground_cap_ff\":0.500000"));
    assert!(j.contains("\"coupling_cap_ff\":0.000000"));
    assert!(j.contains("\"total_cap_ff\":0.500000"));
    assert!(j.contains("\"total_res_ohm\":10.000000"));
    assert!(j.contains("\"couplings\":[]"));
    assert!(j.trim_end().ends_with('}'));
}

#[test]
fn the_summary_lists_couplings() {
    let nets = vec![net()];
    let cc = vec![CouplingCap { a: "clk".into(), b: "n0".into(), cap_ff: F(0.25) }];
    let j = render_json("d", &nets, &cc);
    assert!(j.contains("\"coupling_cap_ff\":0.250000"), "{j}");
    assert!(j.contains("\"total_cap_ff\":0.700000"), "{j}");
    assert!(j.contains("\"a\":\"clk\"") && j.contains("\"b\":\"n0\""), "{j}");
}
