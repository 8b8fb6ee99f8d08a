use std::time::{SystemTime, UNIX_EPOCH};
use vyges_extract::cli::{
    cache_path, check_report, decide, deck_source, demo_couplings, demo_nets, hookup_source,
    is_local_path, parse_cli, tech_source, wants_description, Action, Cli, DeckSource, Hookup,
    TechSource,
};
use vyges_extract::date::{format_spef_date, resolve};
use vyges_extract::guard::{rc_guard, splice_coverage, warnings};
use vyges_extract::job::ExtractJob;
use vyges_extract::klayout::{
    can_drive, design_of, driver_command, failure, judge, notice_result, options, KlOpts, KlResult,
    Trial, pins_hooked,
};
use vyges_extract::number::{Fixed, Real};
use vyges_extract::rules::RcRules;
use vyges_extract::spef::{render, Units};

const WEEKDAYS: [&str; 7] = [
    "Thursday",
    "Friday",
    "Saturday",
    "Sunday",
    "Monday",
    "Tuesday",
    "Wednesday",
];

const MONTHS: [&str; 12] = [
    "January",
    "February",
    "March",
    "April",
    "May",
    "June",
    "July",
    "August",
    "September",
    "October",
    "November",
    "December",
];

#[test]
fn the_epoch_matches_the_fixed_default() {
    assert_eq!(
        format_spef_date(0),
        "00:00:00 Thursday January 01, 1970",
        "must equal spef.rs's fallback string exactly"
    );
}

#[test]
fn known_instants_round_trip() {
    for (secs, want) in [
        (0_i64, "00:00:00 Thursday January 01, 1970"),
        (1_784_137_525, "17:45:25 Wednesday July 15, 2026"),
        (951_782_400, "00:00:00 Tuesday February 29, 2000"),
        (1_709_164_800, "00:00:00 Thursday February 29, 2024"),
        (4_107_456_000, "00:00:00 Sunday February 28, 2100"),
        (4_107_542_400, "00:00:00 Monday March 01, 2100"),
        (-86_400, "00:00:00 Wednesday December 31, 1969"),
        (1_735_689_599, "23:59:59 Tuesday December 31, 2024"),
    ] {
        assert_eq!(format_spef_date(secs), want, "epoch {secs}");
    }
}

#[test]
fn explicit_wins() {
    assert_eq!(
        resolve(Some("whatever the caller says"), Some("0"), Some(5)).as_deref(),
        Some("whatever the caller says")
    );
}

#[test]
fn a_resolved_stamp_has_the_shape_the_grammar_expects() {
    let s = resolve(
        None,
        None,
        SystemTime::now().duration_since(UNIX_EPOCH).ok().map(|d| d.as_secs() as i64),
    )
    .expect("a clock");
    let (time, rest) = s.split_once(' ').expect("time then date");
    assert_eq!(time.len(), 8, "HH:MM:SS — got {time:?}");
    assert!(
        time.chars().enumerate().all(|(i, c)| if i == 2 || i == 5 {
            c == ':'
        } else {
            c.is_ascii_digit()
        }),
        "HH:MM:SS — got {time:?}"
    );
    let mut parts = rest.split(' ');
    let wd = parts.next().unwrap_or("");
    let mo = parts.next().unwrap_or("");
    assert!(WEEKDAYS.contains(&wd), "weekday — got {wd:?}");
    assert!(MONTHS.contains(&mo), "month — got {mo:?}");
    assert!(
        !s.as_bytes()
            .windows(3)
            .any(|w| w[0].is_ascii_digit() && w[1] == b'T' && w[2].is_ascii_digit()),
        "must not be ISO 8601 (tests/spef.rs pins this) — got {s:?}"
    );
}

#[test]
fn a_url_is_not_a_cache_directory() {
    for url in [
        "https://raw.githubusercontent.com/vyges-tools/pdk-catalog/main/descriptors/\
         vyges-additions/asap7/vyges-extract.rules",
        "http://example.invalid/a.rules",
        "s3://bucket/key.rules",
        "git+ssh://host/repo.git",
    ] {
        assert!(!is_local_path(url), "{url} must not be used as a path");
    }
}

#[test]
fn only_an_absolute_local_path_is_a_cache_directory() {
    assert!(is_local_path(
        "/opt/pdk/vyges-additions/asap7/vyges-extract.rules"
    ));
    assert!(!is_local_path("vyges-additions/asap7/vyges-extract.rules"));
    assert!(!is_local_path("./rules"));
}

#[test]
fn an_epoch_setting_pins_the_stamp() {
    assert_eq!(
        resolve(None, Some(" 86400 "), Some(0)).as_deref(),
        Some("00:00:00 Friday January 02, 1970")
    );
    assert_eq!(
        resolve(None, Some("soon"), Some(0)).as_deref(),
        Some("00:00:00 Thursday January 01, 1970")
    );
    assert_eq!(resolve(None, None, None), None);
}

fn args(list: &[&str]) -> Cli {
    parse_cli(&list.iter().map(|s| s.to_string()).collect())
}

#[test]
fn arguments_are_sorted_into_settings_flags_and_the_rest() {
    let c = args(&["run", "a.ext", "-o", "x", "--json", "-j", "4", "-q", "--pdk", "sky", "-o", "y"]);
    assert_eq!(c.positionals, vec!["run", "a.ext"]);
    assert_eq!(c.setting("-o").as_deref(), Some("y"));
    assert_eq!(c.setting("--pdk").as_deref(), Some("sky"));
    assert_eq!(c.setting("--lib"), None);
    assert_eq!(c.threads(), Some(4));
    assert!(c.flag("--json") && c.flag("--quiet") && !c.flag("--verbose"));
    let c = args(&["run", "-j", "lots", "--refresh", "--date"]);
    assert_eq!(c.threads(), None);
    assert!(c.flag("--refresh"));
    assert_eq!(c.setting("--date"), None);
}

#[test]
fn a_command_line_asks_for_one_thing() {
    assert!(matches!(decide(&args(&[])), Action::Usage { code: 2 }));
    assert!(matches!(decide(&args(&["--help"])), Action::Usage { code: 0 }));
    assert!(matches!(decide(&args(&["-h", "run"])), Action::Usage { code: 0 }));
    assert!(matches!(decide(&args(&["-V"])), Action::Version));
    assert!(matches!(decide(&args(&["--star", "-V"])), Action::Star));
    assert!(matches!(decide(&args(&["--sponsor"])), Action::Sponsor));
    assert!(matches!(decide(&args(&["--bug-report"])), Action::ReportBug));
    assert!(matches!(decide(&args(&["--feature-request"])), Action::RequestFeature));
    assert!(matches!(decide(&args(&["demo"])), Action::Demo));
    assert!(matches!(decide(&args(&["gen-rc"])), Action::GenRc));
    assert!(matches!(decide(&args(&["klayout2spef"])), Action::Klayout));
    assert!(matches!(decide(&args(&["run"])), Action::Run { job: None }));
    assert!(matches!(decide(&args(&["check", "j"])), Action::Check { job: Some(j) } if j == "j"));
    assert!(matches!(decide(&args(&["fly"])), Action::Unknown { command } if command == "fly"));
    assert!(wants_description(&vec!["run".into(), "--describe".into()]));
    assert!(!wants_description(&vec!["run".into()]));
}

#[test]
fn decks_and_technologies_have_their_sources() {
    assert_eq!(deck_source(&args(&["--pdk", "p"]), "r"), DeckSource::Tech);
    assert_eq!(deck_source(&args(&["--tech-lef", "p"]), ""), DeckSource::Tech);
    assert_eq!(deck_source(&args(&[]), "r"), DeckSource::Job);
    assert_eq!(deck_source(&args(&[]), ""), DeckSource::Missing);
    assert!(matches!(tech_source(&args(&["--pdk", "p", "--tech-lef", "t"])), TechSource::Path(t) if t == "t"));
    assert!(matches!(tech_source(&args(&["--pdk", "p"])), TechSource::Pdk(p) if p == "p"));
    assert!(matches!(tech_source(&args(&[])), TechSource::Missing));
    assert_eq!(cache_path("t.lef", Some("/pdk".into())), "/pdk/vyges-extract-rc.rules");
    assert_eq!(cache_path("t.lef", None), "t.lef.vyges-extract-rc.rules");
}

#[test]
fn a_drive_letter_is_no_scheme() {
    assert!(!is_local_path("C:/x"));
    assert!(is_local_path("/a:b/c"));
    assert!(!is_local_path(""));
}

fn job() -> ExtractJob<Fixed> {
    ExtractJob::parse("design: d\ndef: a.def\nrules: r.rules\nlef: t.lef\n", "w").unwrap()
}

#[test]
fn a_job_in_order_is_reported() {
    assert_eq!(
        check_report(&job()),
        "OK  design=d def=a.def rules=r.rules corner=typical temp=25"
    );
}

#[test]
fn hookup_wants_a_cell_lef_or_a_library() {
    assert!(matches!(hookup_source(&args(&[]), &job()), Hookup::Skip));
    match hookup_source(&args(&["--lib", "l"]), &job()) {
        Hookup::From { cell_lef, lib } => {
            assert_eq!(cell_lef.as_deref(), Some("w/t.lef"));
            assert_eq!(lib.as_deref(), Some("l"));
        }
        Hookup::Skip => panic!("a library is given"),
    }
    match hookup_source(&args(&["--cell-lef", "c"]), &job()) {
        Hookup::From { cell_lef, lib } => {
            assert_eq!(cell_lef.as_deref(), Some("c"));
            assert_eq!(lib, None);
        }
        Hookup::Skip => panic!("a cell LEF is given"),
    }
}

#[test]
fn the_sample_is_written() {
    let s = render("vyges_extract_demo", &Units::default(), None, &demo_nets::<Fixed>(), &demo_couplings());
    assert!(s.contains("*1 clk\n*2 n0\n*3 clkbuf\n"), "{s}");
    assert!(s.contains("*D_NET *1 6.82\n"), "{s}");
    assert!(s.contains("*D_NET *2 2.22\n"), "{s}");
}

fn deck(text: &str) -> RcRules<Fixed> {
    RcRules::parse(text).unwrap()
}

#[test]
fn a_deck_with_gaps_is_refused_unless_it_is_allowed() {
    let r = deck("M1 0 0 0 0\nM2 0.1 0 0 0\n");
    let g = rc_guard("d.rules", &r, false);
    assert_eq!(
        g.warnings,
        vec![
            "warning: no resistance for [M1] — the tech LEF is geometry-only; pass --captable <rcx_rules>",
            "warning: no capacitance for [M1, M2] — the deck carries neither R nor C for these layers; \
             pass --captable for cap",
        ]
    );
    let refusal = g.refusal.unwrap();
    assert!(refusal.starts_with("error: d.rules has layers"), "{refusal}");
    assert!(refusal.contains("--captable") && refusal.contains("--allow-incomplete-rc"));
    let g = rc_guard("d.rules", &r, true);
    assert_eq!(g.refusal, None);
    assert_eq!(g.warnings.len(), 2);
    assert_eq!(
        g.note.as_deref(),
        Some(
            "RC deck d.rules has 1 layer(s) with no resistance and 2 with no capacitance; extracted \
             parasitics are understated"
        )
    );
    assert_eq!(warnings(&deck("M1 1 0\n")), vec![
        "warning: no capacitance for [M1] — RC is resistance-only; pass --captable for cap"
    ]);
}

#[test]
fn a_complete_deck_passes_without_a_word() {
    let g = rc_guard("d.rules", &deck("M1 0.1 0.2\n"), false);
    assert!(g.warnings.is_empty() && g.note.is_none() && g.refusal.is_none());
}

#[test]
fn coverage_stands_at_the_head_of_a_summary() {
    assert_eq!(
        splice_coverage(" {\"nets\":1}", "a \"b\" \\"),
        "{\"coverage\":{\"complete\":false,\"note\":\"a \\\"b\\\" \\\\\"},\"nets\":1}"
    );
    assert_eq!(
        splice_coverage("{ }", "n"),
        "{\"coverage\":{\"complete\":false,\"note\":\"n\"} }"
    );
    assert_eq!(splice_coverage("[1]", "n"), "[1]");
}

#[test]
fn the_driver_is_run_by_its_command() {
    let c = args(&["klayout2spef", "--gds", "g/a.gds", "--layermap", "m", "--top", "cell", "--routing-only"]);
    assert!(can_drive(&c));
    let o = options(&c, "/w", Some("a".into()));
    assert_eq!(o.design, "cell");
    assert_eq!(
        driver_command(&o, "d.py"),
        vec![
            "python3", "d.py", "--gds", "g/a.gds", "--layermap", "m", "--out", "-", "--design", "cell",
            "--top", "cell", "--routing-only"
        ]
    );
    let c = args(&["--gds", "a.gds", "--runner", "podman"]);
    assert!(!can_drive(&c));
    let o = options(&c, "/w", Some("a".into()));
    assert_eq!(o.design, "a");
    assert_eq!(o.version, "0.1.0");
    assert_eq!(
        o.python.join(" "),
        "podman run --rm --userns=keep-id -v /w:/w -w /w ghcr.io/vyges-tools/vyges-klayout:0.30.9 python3"
    );
    let o = options(&args(&["--python", "nice  python3"]), "/w", None);
    assert_eq!(o.python, vec!["nice", "python3"]);
    assert_eq!(o.design, "top");
    assert_eq!(design_of(&KlOpts::default()), "top");
    assert_eq!(driver_command(&KlOpts::default(), "d")[0], "python3");
    assert_eq!(failure(Some(-3)), "KLayout driver exited with -3");
    assert_eq!(failure(None), "KLayout driver exited with signal");
}

#[test]
fn a_dump_without_nets_wants_attention() {
    let mut res = KlResult {
        spef: String::new(),
        geom: String::new(),
        n_nets: 0,
        n_segs: 0,
        n_pins: 0,
        total_cap_ff: Fixed { nano: 0 },
    };
    let n = notice_result(&res);
    assert_eq!((n.len(), n[0].code.as_str(), n[0].attention), (2, "KLAYOUT-EXTRACT-EMPTY", true));
    res.n_nets = 2;
    res.n_segs = 3;
    res.n_pins = 1;
    res.total_cap_ff = Fixed { nano: 1_005_000_000 };
    let n = notice_result(&res);
    assert_eq!(n.len(), 1);
    assert_eq!(
        n[0].message,
        "KLayout→SPEF: 2 net(s), 3 metal segment(s), 1 pin(s) hooked, 1.01 fF total; EM geom sidecar emitted"
    );
}

#[test]
fn a_trial_of_the_pipeline_is_judged() {
    let trial = || Trial {
        n_nets: 2,
        n_segs: 3,
        clk_res: Some(Fixed::count(390)),
        clk_width: Some(Fixed::micro(140_000)),
        total_cap_ff: Fixed::count(19),
    };
    assert_eq!(
        judge(&trial()).unwrap(),
        "self-test OK — 2 nets, 3 segments, 19.0 fF; SPEF+geom round-trip verified"
    );
    let fails = [
        (Trial { n_nets: 1, ..trial() }, "expected 2 nets, got 1"),
        (Trial { n_segs: 4, ..trial() }, "expected 3 segments, got 4"),
        (Trial { clk_res: None, ..trial() }, "clk net lost in SPEF round-trip"),
        (Trial { clk_res: Some(Fixed::count(389)), ..trial() }, "clk res_ohm 389 != 390"),
        (Trial { clk_width: None, ..trial() }, "clk met1 segment lost in geom round-trip"),
        (Trial { clk_width: Some(Fixed::micro(150_000)), ..trial() }, "clk met1 width 0.15 != 0.14"),
    ];
    for (t, want) in fails {
        assert_eq!(judge(&t).err().as_deref(), Some(want));
    }
}

#[test]
fn fixed_point_numbers_round_and_saturate() {
    let p = |s: &str| Fixed::parse(&s.chars().collect());
    assert_eq!(p("-1.25"), Some(Fixed { nano: -1_250_000_000 }));
    assert_eq!(p(".5"), Some(Fixed { nano: 500_000_000 }));
    assert_eq!(p(""), None);
    assert_eq!(p("99999999999"), Some(Fixed { nano: i64::MAX }));
    for n in [0, 1, -1, 1_000_000_000, 1_230_000_000, i64::MAX, i64::MIN] {
        assert_eq!(p(&Fixed { nano: n }.show()), Some(Fixed { nano: n }));
    }
    assert_eq!(Fixed { nano: 1_500_000_000 }.places(0), "2");
    assert_eq!(Fixed { nano: -1_234_567_890 }.places(3), "-1.235");
    assert_eq!(Fixed::count(1).over(Fixed::count(3)), Fixed { nano: 333_333_333 });
    assert_eq!(Fixed::count(1).over(Fixed::count(0)), Fixed { nano: i64::MAX });
    assert_eq!(Fixed { nano: 1_499 }.millionths(), 1);
    assert_eq!(Fixed { nano: i64::MAX }.plus(Fixed { nano: 1 }), Fixed { nano: i64::MAX });
}

#[test]
fn fixed_point_numbers_are_read_in_exponent_form() {
    let p = |s: &str| Fixed::parse(&s.chars().collect()).map(|v| v.nano);
    for (text, nano) in [
        ("1e-3", 1_000_000),
        ("2.5E2", 250_000_000_000),
        ("-1e3", -1_000_000_000_000),
        (".5e+1", 5_000_000_000),
        ("5.e0", 5_000_000_000),
        ("1e-9", 1),
        ("123e-11", 1),
        ("-123e-11", -1),
        ("1e-999999999999999999999", 0),
        ("0e99", 0),
        ("1e99", i64::MAX),
        ("-1e99", i64::MIN),
        ("1e999999999999999999999", i64::MAX),
        ("inf", i64::MAX),
        ("-Infinity", i64::MIN),
    ] {
        assert_eq!(p(text), Some(nano), "{text}");
    }
    for text in ["e3", "1e", "1e+", "1e1.5", "1ee2", ".e1", "1e 2", "nan", "infinit"] {
        assert_eq!(p(text), None, "{text}");
    }
}

#[test]
fn fixed_point_exponentials_are_near() {
    assert_eq!(Fixed::count(0).exp(), Fixed::count(1));
    assert_eq!(Fixed { nano: -30_000_000_000 }.exp(), Fixed::count(0));
    for x in [-20.0f64, -5.0, -1.0, -0.1035, -0.001, 0.5, 1.0, 2.0] {
        let got = Fixed { nano: (x * 1e9).round() as i64 }.exp().nano as f64;
        assert!((got - x.exp() * 1e9).abs() < 100.0 * x.exp().max(1.0), "exp({x}) = {got}");
    }
}

#[test]
fn the_pins_of_a_dump_are_counted() {
    assert_eq!(pins_hooked("NET a 1\nPIN a P B\nPINS x\n PIN b\nPIN "), 2);
    assert_eq!(pins_hooked(""), 0);
}
