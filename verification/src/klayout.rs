//! Extraction from a GDS by way of a headless KLayout: the command that runs the
//! dump driver, and what is said of its result.
use crate::cli;
use crate::cli::Cli;
use crate::notice;
use crate::notice::{Notice, NoticeView};
use crate::number::Real;
use crate::text;
use crate::version;
use vstd::prelude::*;

verus! {

/// What is asked of an extraction by way of KLayout.
#[derive(Clone, Debug)]
pub struct KlOpts {
    pub gds: String,
    pub top: String,
    pub layermap: String,
    pub design: String,
    pub routing_only: bool,
    /// The words that run Python; a container runner is a longer prefix. None
    /// stand for `python3`.
    pub python: Vec<String>,
    /// The path of the driver; without one, that of the driver beside the GDS.
    pub driver: Option<String>,
    pub version: String,
    pub date: Option<String>,
    /// The placement, the cell LEF and the liberty of the design, as given.
    pub def: Option<String>,
    pub cell_lef: Option<String>,
    pub lib: Option<String>,
}

/// What [`KlOpts`] are.
#[verifier::ext_equal]
pub struct KlOptsView {
    pub gds: Seq<char>,
    pub top: Seq<char>,
    pub layermap: Seq<char>,
    pub design: Seq<char>,
    pub routing_only: bool,
    pub python: Seq<Seq<char>>,
    pub driver: Option<Seq<char>>,
    pub version: Seq<char>,
    pub date: Option<Seq<char>>,
    pub def: Option<Seq<char>>,
    pub cell_lef: Option<Seq<char>>,
    pub lib: Option<Seq<char>>,
}

impl View for KlOpts {
    type V = KlOptsView;

    open spec fn view(&self) -> KlOptsView {
        KlOptsView {
            gds: self.gds@,
            top: self.top@,
            layermap: self.layermap@,
            design: self.design@,
            routing_only: self.routing_only,
            python: text::texts(self.python@),
            driver: cli::opt(self.driver),
            version: self.version@,
            date: cli::opt(self.date),
            def: cli::opt(self.def),
            cell_lef: cli::opt(self.cell_lef),
            lib: cli::opt(self.lib),
        }
    }
}

/// Nothing asked.
pub open spec fn no_opts() -> KlOptsView {
    KlOptsView {
        gds: Seq::empty(),
        top: Seq::empty(),
        layermap: Seq::empty(),
        design: Seq::empty(),
        routing_only: false,
        python: Seq::empty(),
        driver: None,
        version: Seq::empty(),
        date: None,
        def: None,
        cell_lef: None,
        lib: None,
    }
}

impl Default for KlOpts {
    fn default() -> (r: Self)
        ensures
            r@ == no_opts(),
    {
        let r = KlOpts {
            gds: String::new(),
            top: String::new(),
            layermap: String::new(),
            design: String::new(),
            routing_only: false,
            python: Vec::new(),
            driver: None,
            version: String::new(),
            date: None,
            def: None,
            cell_lef: None,
            lib: None,
        };
        assert(r@ == no_opts());
        r
    }
}

/// The files of an extraction by way of KLayout, and their sizes.
#[derive(Debug)]
pub struct KlResult<N: Real> {
    pub spef: String,
    pub geom: String,
    pub n_nets: usize,
    pub n_segs: usize,
    pub n_pins: usize,
    pub total_cap_ff: N,
}

/// Whether a line of a dump hooks a pin up.
pub open spec fn is_pin_line(line: Seq<char>) -> bool {
    line.len() >= 4 && line.take(4) == "PIN "@
}

/// How many lines hook a pin up.
pub open spec fn pin_lines(lines: Seq<Seq<char>>) -> nat {
    lines.filter(|l: Seq<char>| is_pin_line(l)).len()
}

/// The number of pins that a dump hooks up.
pub fn pins_hooked(dump: &str) -> (n: usize)
    ensures
        n == pin_lines(text::lines(dump@)),
{
    let lines = text::split_lines(&text::chars_of(dump));
    let ghost lv = text::seqs(lines@);
    let ghost pin = |l: Seq<char>| is_pin_line(l);
    let mut n: usize = 0;
    proof {
        reveal(Seq::filter);
        reveal_strlit("PIN ");
        assert(lv.take(0).filter(pin).len() == 0);
    }
    for i in 0..lines.len()
        invariant
            lv == text::seqs(lines@),
            pin == (|l: Seq<char>| is_pin_line(l)),
            n <= i,
            n == lv.take(i as int).filter(pin).len(),
    {
        proof {
            reveal(Seq::filter);
            assert(lv.take(i + 1).drop_last() == lv.take(i as int));
            assert(lv.take(i + 1).last() == lines@[i as int]@);
        }
        if lines[i].len() >= 4 {
            let head = text::part(&lines[i], 0, 4);
            assert(head@ == lines@[i as int]@.take(4));
            if text::is_text(&head, "PIN ") {
                n = n + 1;
            }
        }
    }
    assert(lv.take(lines@.len() as int) == lv);
    n
}

/// The text, or a default where it is empty.
pub open spec fn or_default(s: Seq<char>, d: Seq<char>) -> Seq<char> {
    if s.len() == 0 {
        d
    } else {
        s
    }
}

fn or_default_of(s: &String, d: &str) -> (r: String)
    ensures
        r@ == or_default(s@, d@),
{
    if text::chars_of(s.as_str()).len() == 0 {
        d.to_owned()
    } else {
        s.clone()
    }
}

/// The name of the design.
pub fn design_of(opts: &KlOpts) -> (r: String)
    ensures
        r@ == or_default(opts@.design, "top"@),
{
    or_default_of(&opts.design, "top")
}

/// The words of the command that runs the driver at a path.
pub open spec fn driver_words(o: KlOptsView, driver: Seq<char>) -> Seq<Seq<char>> {
    let python = if o.python.len() == 0 {
        seq!["python3"@]
    } else {
        o.python
    };
    let always = python + seq![
        driver,
        "--gds"@,
        o.gds,
        "--layermap"@,
        o.layermap,
        "--out"@,
        "-"@,
        "--design"@,
        or_default(o.design, "top"@),
    ];
    let with_top = if o.top.len() > 0 {
        always + seq!["--top"@, o.top]
    } else {
        always
    };
    if o.routing_only {
        with_top + seq!["--routing-only"@]
    } else {
        with_top
    }
}

fn push_word(out: &mut Vec<String>, w: &str)
    ensures
        text::texts(final(out)@) == text::texts(old(out)@).push(w@),
{
    let ghost before = text::texts(out@);
    out.push(w.to_owned());
    assert(text::texts(out@) == before.push(w@));
}

/// The command that runs the driver: a program and its arguments.
pub fn driver_command(opts: &KlOpts, driver: &str) -> (r: Vec<String>)
    ensures
        text::texts(r@) == driver_words(opts@, driver@),
        r@.len() > 0,
{
    let ghost o = opts@;
    let mut out: Vec<String> = Vec::new();
    assert(text::texts(out@) == Seq::<Seq<char>>::empty());
    if opts.python.len() == 0 {
        push_word(&mut out, "python3");
        assert(text::texts(out@) == seq!["python3"@]);
    } else {
        for i in 0..opts.python.len()
            invariant
                text::texts(out@) == text::texts(opts.python@).take(i as int),
        {
            push_word(&mut out, opts.python[i].as_str());
            assert(text::texts(opts.python@).take(i + 1) == text::texts(opts.python@).take(
                i as int,
            ).push(opts.python@[i as int]@));
        }
        assert(text::texts(out@) == o.python);
    }
    let ghost python = text::texts(out@);
    push_word(&mut out, driver);
    push_word(&mut out, "--gds");
    push_word(&mut out, opts.gds.as_str());
    push_word(&mut out, "--layermap");
    push_word(&mut out, opts.layermap.as_str());
    push_word(&mut out, "--out");
    push_word(&mut out, "-");
    push_word(&mut out, "--design");
    push_word(&mut out, design_of(opts).as_str());
    let ghost always = text::texts(out@);
    assert(always == python + seq![
        driver@,
        "--gds"@,
        o.gds,
        "--layermap"@,
        o.layermap,
        "--out"@,
        "-"@,
        "--design"@,
        or_default(o.design, "top"@),
    ]);
    if text::chars_of(opts.top.as_str()).len() > 0 {
        push_word(&mut out, "--top");
        push_word(&mut out, opts.top.as_str());
        assert(text::texts(out@) == always + seq!["--top"@, o.top]);
    }
    let ghost with_top = text::texts(out@);
    if opts.routing_only {
        push_word(&mut out, "--routing-only");
        assert(text::texts(out@) == with_top + seq!["--routing-only"@]);
    }
    assert(text::texts(out@).len() == out@.len());
    out
}

/// The image that a container runner uses where none is given.
pub open spec fn default_image() -> Seq<char> {
    "ghcr.io/vyges-tools/vyges-klayout:0.30.9"@
}

/// The command that runs Python: a container runner with a directory mounted,
/// where one is asked for; else the command that is given.
pub open spec fn python_text(c: cli::CliView, mount: Seq<char>) -> Seq<char> {
    match cli::setting(c, "--runner"@) {
        Some(runner) => {
            let image = match cli::setting(c, "--image"@) {
                Some(i) => i,
                None => default_image(),
            };
            let dir = match cli::setting(c, "--mount"@) {
                Some(m) => m,
                None => mount,
            };
            runner + " run --rm --userns=keep-id -v "@ + dir + ":"@ + dir + " -w "@ + dir + " "@
                + image + " python3"@
        },
        None => match cli::setting(c, "--python"@) {
            Some(p) => p,
            None => Seq::empty(),
        },
    }
}

fn python_string(c: &Cli, mount: &str) -> (r: String)
    ensures
        r@ == python_text(c@, mount@),
{
    match c.setting("--runner") {
        Some(runner) => {
            let image: String = match c.setting("--image") {
                Some(i) => i,
                None => "ghcr.io/vyges-tools/vyges-klayout:0.30.9".to_owned(),
            };
            let dir: String = match c.setting("--mount") {
                Some(m) => m,
                None => mount.to_owned(),
            };
            let mut out = runner;
            out.append(" run --rm --userns=keep-id -v ");
            out.append(dir.as_str());
            out.append(":");
            out.append(dir.as_str());
            out.append(" -w ");
            out.append(dir.as_str());
            out.append(" ");
            out.append(image.as_str());
            out.append(" python3");
            out
        },
        None => match c.setting("--python") {
            Some(p) => p,
            None => {
                let r = String::new();
                assert(r@ == Seq::<char>::empty());
                r
            },
        },
    }
}

/// The text of an optional one, or an empty one.
pub open spec fn or_empty(s: Option<Seq<char>>) -> Seq<char> {
    match s {
        Some(t) => t,
        None => Seq::empty(),
    }
}

fn or_empty_of(s: Option<String>) -> (r: String)
    ensures
        r@ == or_empty(cli::opt(s)),
{
    match s {
        Some(t) => t,
        None => {
            let r = String::new();
            assert(r@ == Seq::<char>::empty());
            r
        },
    }
}

/// The design: the top cell that is given, else the stem of the GDS file.
pub open spec fn design_name(top: Option<Seq<char>>, stem: Option<Seq<char>>) -> Seq<char> {
    match top {
        Some(t) => t,
        None => match stem {
            Some(s) => s,
            None => "top"@,
        },
    }
}

/// What a command line asks of KLayout, where the directory of the GDS is
/// `mount` and the stem of its file is `stem`.
pub open spec fn asked(c: cli::CliView, mount: Seq<char>, stem: Option<Seq<char>>) -> KlOptsView {
    KlOptsView {
        gds: or_empty(cli::setting(c, "--gds"@)),
        top: or_empty(cli::setting(c, "--top"@)),
        layermap: or_empty(cli::setting(c, "--layermap"@)),
        design: design_name(cli::setting(c, "--top"@), stem),
        routing_only: cli::flag(c, "--routing-only"@),
        python: text::words(python_text(c, mount)),
        driver: cli::setting(c, "--driver"@),
        version: version::VERSION@,
        date: cli::setting(c, "--date"@),
        def: cli::setting(c, "--def"@),
        cell_lef: cli::setting(c, "--cell-lef"@),
        lib: cli::setting(c, "--lib"@),
    }
}

/// What a command line asks of KLayout.
pub fn options(c: &Cli, mount: &str, stem: Option<String>) -> (r: KlOpts)
    ensures
        r@ == asked(c@, mount@, cli::opt(stem)),
{
    let words = text::split_words(&text::chars_of(python_string(c, mount).as_str()));
    let ghost wv = text::seqs(words@);
    let mut python: Vec<String> = Vec::new();
    for i in 0..words.len()
        invariant
            wv == text::seqs(words@),
            python@.len() == i,
            forall|j: int| 0 <= j < i ==> (#[trigger] python@[j])@ == wv[j],
    {
        assert(wv[i as int] == words@[i as int]@);
        python.push(text::string_of(&words[i]));
    }
    assert(text::texts(python@) == wv);
    let design: String = match c.setting("--top") {
        Some(t) => t,
        None => match stem {
            Some(s) => s,
            None => "top".to_owned(),
        },
    };
    KlOpts {
        gds: or_empty_of(c.setting("--gds")),
        top: or_empty_of(c.setting("--top")),
        layermap: or_empty_of(c.setting("--layermap")),
        design,
        routing_only: c.flag("--routing-only"),
        python,
        driver: c.setting("--driver"),
        version: version::VERSION.to_owned(),
        date: c.setting("--date"),
        def: c.setting("--def"),
        cell_lef: c.setting("--cell-lef"),
        lib: c.setting("--lib"),
    }
}

/// Whether KLayout can be driven: a GDS and a layer map are given.
pub fn can_drive(c: &Cli) -> (r: bool)
    ensures
        r == (cli::setting(c@, "--gds"@) is Some && cli::setting(c@, "--layermap"@) is Some),
{
    c.setting("--gds").is_some() && c.setting("--layermap").is_some()
}

/// The message that the driver failed, with its exit code or for a signal.
pub open spec fn failure_text(code: Option<i32>) -> Seq<char> {
    "KLayout driver exited with "@ + (match code {
        Some(c) => text::int_text(c as int),
        None => "signal"@,
    })
}

pub fn failure(code: Option<i32>) -> (r: String)
    ensures
        r@ == failure_text(code),
{
    let mut out = "KLayout driver exited with ".to_owned();
    match code {
        Some(c) => {
            out.append(text::int_string(c as i64).as_str());
        },
        None => {
            out.append("signal");
        },
    }
    out
}

/// What is said of an extraction by way of KLayout.
pub open spec fn result_notices<N: Real>(
    n_nets: nat,
    n_segs: nat,
    n_pins: nat,
    total: N,
) -> Seq<NoticeView> {
    let done = NoticeView {
        attention: false,
        code: "KLAYOUT-EXTRACT-DONE"@,
        message: "KLayout→SPEF: "@ + text::nat_text(n_nets) + " net(s), "@ + text::nat_text(n_segs)
            + " metal segment(s), "@ + text::nat_text(n_pins) + " pin(s) hooked, "@
            + total.spec_places(2) + " fF total; EM geom sidecar emitted"@,
        objects: Seq::empty(),
    };
    if n_nets == 0 {
        seq![
            NoticeView {
                attention: true,
                code: "KLAYOUT-EXTRACT-EMPTY"@,
                message: "KLayout extraction produced 0 nets — check --top / --layermap"@,
                objects: Seq::empty(),
            },
            done,
        ]
    } else {
        seq![done]
    }
}

/// Says what an extraction by way of KLayout has produced.
pub fn notice_result<N: Real>(res: &KlResult<N>) -> (r: Vec<Notice>)
    ensures
        notice::notices_view(r@) == result_notices(
            res.n_nets as nat,
            res.n_segs as nat,
            res.n_pins as nat,
            res.total_cap_ff,
        ),
{
    let mut out: Vec<Notice> = Vec::new();
    if res.n_nets == 0 {
        out.push(
            notice::plain(
                true,
                "KLAYOUT-EXTRACT-EMPTY",
                "KLayout extraction produced 0 nets — check --top / --layermap".to_owned(),
            ),
        );
    }
    let mut m = "KLayout→SPEF: ".to_owned();
    m.append(text::nat_string(res.n_nets as u128).as_str());
    m.append(" net(s), ");
    m.append(text::nat_string(res.n_segs as u128).as_str());
    m.append(" metal segment(s), ");
    m.append(text::nat_string(res.n_pins as u128).as_str());
    m.append(" pin(s) hooked, ");
    m.append(res.total_cap_ff.places(2).as_str());
    m.append(" fF total; EM geom sidecar emitted");
    out.push(notice::plain(false, "KLAYOUT-EXTRACT-DONE", m));
    assert(notice::notices_view(out@) == result_notices(
        res.n_nets as nat,
        res.n_segs as nat,
        res.n_pins as nat,
        res.total_cap_ff,
    ));
    out
}

/// What a trial of the pipeline on a made-up dump found: the counts, the
/// resistance (ohm) of the net `clk` and the width (um) of its segment on `met1`
/// after both files were read again, and the capacitance (fF) of all nets.
#[derive(Debug)]
pub struct Trial<N: Real> {
    pub n_nets: usize,
    pub n_segs: usize,
    pub clk_res: Option<N>,
    pub clk_width: Option<N>,
    pub total_cap_ff: N,
}

/// Whether a value is off another one by more than a tolerance.
pub open spec fn off<N: Real>(v: N, want: N, tolerance: N) -> bool {
    tolerance.spec_below(v.spec_minus(want)) || tolerance.spec_below(want.spec_minus(v))
}

fn is_off<N: Real>(v: N, want: N, tolerance: N) -> (r: bool)
    ensures
        r == off(v, want, tolerance),
{
    tolerance.below(v.minus(want)) || tolerance.below(want.minus(v))
}

/// A billionth.
pub open spec fn billionth<N: Real>() -> N {
    N::spec_micro(1).spec_over(N::spec_count(1000))
}

/// The verdict on a trial.
pub open spec fn verdict<N: Real>(t: Trial<N>) -> Result<Seq<char>, Seq<char>> {
    if t.n_nets != 2 {
        Err("expected 2 nets, got "@ + text::nat_text(t.n_nets as nat))
    } else if t.n_segs != 3 {
        Err("expected 3 segments, got "@ + text::nat_text(t.n_segs as nat))
    } else {
        match t.clk_res {
            None => Err("clk net lost in SPEF round-trip"@),
            Some(r) => if off(r, N::spec_count(390), N::spec_micro(1)) {
                Err("clk res_ohm "@ + r.spec_show() + " != 390"@)
            } else {
                match t.clk_width {
                    None => Err("clk met1 segment lost in geom round-trip"@),
                    Some(w) => if off(w, N::spec_micro(140_000), billionth()) {
                        Err("clk met1 width "@ + w.spec_show() + " != 0.14"@)
                    } else {
                        Ok(
                            "self-test OK — "@ + text::nat_text(t.n_nets as nat) + " nets, "@
                                + text::nat_text(t.n_segs as nat) + " segments, "@
                                + t.total_cap_ff.spec_places(1)
                                + " fF; SPEF+geom round-trip verified"@,
                        )
                    },
                }
            },
        }
    }
}

/// Judges a trial of the pipeline.
pub fn judge<N: Real>(t: &Trial<N>) -> (r: Result<String, String>)
    ensures
        match (r, verdict(*t)) {
            (Ok(a), Ok(b)) => a@ == b,
            (Err(a), Err(b)) => a@ == b,
            _ => false,
        },
{
    if t.n_nets != 2 {
        let mut m = "expected 2 nets, got ".to_owned();
        m.append(text::nat_string(t.n_nets as u128).as_str());
        return Err(m);
    }
    if t.n_segs != 3 {
        let mut m = "expected 3 segments, got ".to_owned();
        m.append(text::nat_string(t.n_segs as u128).as_str());
        return Err(m);
    }
    let res: N = match t.clk_res {
        Some(v) => v,
        None => {
            return Err("clk net lost in SPEF round-trip".to_owned());
        },
    };
    if is_off(res, N::count(390), N::micro(1)) {
        let mut m = "clk res_ohm ".to_owned();
        m.append(res.show().as_str());
        m.append(" != 390");
        return Err(m);
    }
    let width: N = match t.clk_width {
        Some(v) => v,
        None => {
            return Err("clk met1 segment lost in geom round-trip".to_owned());
        },
    };
    if is_off(width, N::micro(140_000), N::micro(1).over(N::count(1000))) {
        let mut m = "clk met1 width ".to_owned();
        m.append(width.show().as_str());
        m.append(" != 0.14");
        return Err(m);
    }
    let mut m = "self-test OK — ".to_owned();
    m.append(text::nat_string(t.n_nets as u128).as_str());
    m.append(" nets, ");
    m.append(text::nat_string(t.n_segs as u128).as_str());
    m.append(" segments, ");
    m.append(t.total_cap_ff.places(1).as_str());
    m.append(" fF; SPEF+geom round-trip verified");
    Ok(m)
}

} // verus!
