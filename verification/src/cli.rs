//! The command line: what was asked for, and what is done about it.
use crate::coupling::{CapView, CouplingCap};
use crate::coupling;
use crate::job::ExtractJob;
use crate::number::Real;
use crate::rc;
use crate::rc::{NetParasitics, ParasiticsView};
use crate::strmap::StrMap;
use crate::tech;
use crate::text;
use vstd::prelude::*;

verus! {

/// The arguments of a command: what stands by itself, the settings with their
/// values, and the flags.
#[derive(Debug)]
pub struct Cli {
    pub positionals: Vec<String>,
    settings: StrMap<Option<String>>,
    flags: StrMap<()>,
}

/// What a [`Cli`] is.
#[verifier::ext_equal]
pub struct CliView {
    pub positionals: Seq<Seq<char>>,
    pub settings: Map<Seq<char>, Option<Seq<char>>>,
    pub flags: Map<Seq<char>, ()>,
}

/// The values of settings.
pub open spec fn values(m: Map<Seq<char>, Option<String>>) -> Map<Seq<char>, Option<Seq<char>>> {
    Map::new(
        |k: Seq<char>| m.contains_key(k),
        |k: Seq<char>|
            match m[k] {
                Some(s) => Some(s@),
                None => None,
            },
    )
}

impl View for Cli {
    type V = CliView;

    closed spec fn view(&self) -> CliView {
        CliView {
            positionals: text::texts(self.positionals@),
            settings: values(self.settings@),
            flags: self.flags@,
        }
    }
}

/// The long name of an argument that has a short one.
pub open spec fn long_name(s: Seq<char>) -> Seq<char> {
    if s == "-j"@ {
        "--threads"@
    } else if s == "-q"@ {
        "--quiet"@
    } else if s == "-v"@ {
        "--verbose"@
    } else if s == "-h"@ {
        "--help"@
    } else if s == "-V"@ {
        "--version"@
    } else {
        s
    }
}

/// Whether an argument is a setting, which takes the argument after it.
pub open spec fn is_setting(s: Seq<char>) -> bool {
    ||| s == "-o"@
    ||| s == "--threads"@
    ||| s == "--pdk"@
    ||| s == "--tech-lef"@
    ||| s == "--captable"@
    ||| s == "--gds"@
    ||| s == "--top"@
    ||| s == "--layermap"@
    ||| s == "--geom-out"@
    ||| s == "--from-dump"@
    ||| s == "--python"@
    ||| s == "--runner"@
    ||| s == "--image"@
    ||| s == "--mount"@
    ||| s == "--driver"@
    ||| s == "--date"@
    ||| s == "--def"@
    ||| s == "--cell-lef"@
    ||| s == "--lib"@
}

/// Whether an argument is a flag.
pub open spec fn is_flag(s: Seq<char>) -> bool {
    ||| s == "--refresh"@
    ||| s == "--allow-incomplete-rc"@
    ||| s == "--routing-only"@
    ||| s == "--self-test"@
    ||| s == "--json"@
    ||| s == "--quiet"@
    ||| s == "--verbose"@
    ||| s == "--help"@
    ||| s == "--version"@
    ||| s == "--bug-report"@
    ||| s == "--feature-request"@
    ||| s == "--sponsor"@
    ||| s == "--star"@
}

/// No arguments.
pub open spec fn no_arguments() -> CliView {
    CliView { positionals: Seq::empty(), settings: Map::empty(), flags: Map::empty() }
}

/// The argument at a place, if there is one.
pub open spec fn argument(args: Seq<Seq<char>>, i: int) -> Option<Seq<char>> {
    if 0 <= i < args.len() {
        Some(args[i])
    } else {
        None
    }
}

/// What the arguments from `i` on add.
pub open spec fn parsed(args: Seq<Seq<char>>, i: int, c: CliView) -> CliView
    decreases args.len() + 1 - i,
{
    if i < 0 || i >= args.len() {
        c
    } else {
        let name = long_name(args[i]);
        if is_setting(name) {
            parsed(
                args,
                i + 2,
                CliView { settings: c.settings.insert(name, argument(args, i + 1)), ..c },
            )
        } else if is_flag(name) {
            parsed(args, i + 1, CliView { flags: c.flags.insert(name, ()), ..c })
        } else {
            parsed(args, i + 1, CliView { positionals: c.positionals.push(args[i]), ..c })
        }
    }
}

/// The value of a setting.
pub open spec fn setting(c: CliView, name: Seq<char>) -> Option<Seq<char>> {
    if c.settings.contains_key(name) {
        c.settings[name]
    } else {
        None
    }
}

/// Whether a flag is set.
pub open spec fn flag(c: CliView, name: Seq<char>) -> bool {
    c.flags.contains_key(name)
}

/// The view of an optional string.
pub open spec fn opt(s: Option<String>) -> Option<Seq<char>> {
    match s {
        Some(t) => Some(t@),
        None => None,
    }
}

fn long_name_of(s: &String) -> (r: String)
    ensures
        r@ == long_name(s@),
{
    if text::same_text(s.as_str(), "-j") {
        "--threads".to_owned()
    } else if text::same_text(s.as_str(), "-q") {
        "--quiet".to_owned()
    } else if text::same_text(s.as_str(), "-v") {
        "--verbose".to_owned()
    } else if text::same_text(s.as_str(), "-h") {
        "--help".to_owned()
    } else if text::same_text(s.as_str(), "-V") {
        "--version".to_owned()
    } else {
        s.clone()
    }
}

fn names_setting(s: &str) -> (r: bool)
    ensures
        r == is_setting(s@),
{
    text::same_text(s, "-o") || text::same_text(s, "--threads") || text::same_text(s, "--pdk")
        || text::same_text(s, "--tech-lef") || text::same_text(s, "--captable") || text::same_text(
        s,
        "--gds",
    ) || text::same_text(s, "--top") || text::same_text(s, "--layermap") || text::same_text(
        s,
        "--geom-out",
    ) || text::same_text(s, "--from-dump") || text::same_text(s, "--python") || text::same_text(
        s,
        "--runner",
    ) || text::same_text(s, "--image") || text::same_text(s, "--mount") || text::same_text(
        s,
        "--driver",
    ) || text::same_text(s, "--date") || text::same_text(s, "--def") || text::same_text(
        s,
        "--cell-lef",
    ) || text::same_text(s, "--lib")
}

fn names_flag(s: &str) -> (r: bool)
    ensures
        r == is_flag(s@),
{
    text::same_text(s, "--refresh") || text::same_text(s, "--allow-incomplete-rc")
        || text::same_text(s, "--routing-only") || text::same_text(s, "--self-test")
        || text::same_text(s, "--json") || text::same_text(s, "--quiet") || text::same_text(
        s,
        "--verbose",
    ) || text::same_text(s, "--help") || text::same_text(s, "--version") || text::same_text(
        s,
        "--bug-report",
    ) || text::same_text(s, "--feature-request") || text::same_text(s, "--sponsor")
        || text::same_text(s, "--star")
}

/// Reads the arguments of a command. A setting at the end has no value; of a
/// setting that is given twice the last value counts.
pub fn parse_cli(args: &Vec<String>) -> (r: Cli)
    ensures
        r@ == parsed(text::texts(args@), 0, no_arguments()),
{
    let ghost av = text::texts(args@);
    let mut c = Cli { positionals: Vec::new(), settings: StrMap::new(), flags: StrMap::new() };
    assert(c@ == no_arguments());
    let mut i: usize = 0;
    let n: usize = args.len();
    while i < n
        invariant
            i <= n,
            n == args@.len(),
            av == text::texts(args@),
            parsed(av, i as int, c@) == parsed(av, 0, no_arguments()),
        decreases n - i,
    {
        assert(av[i as int] == args@[i as int]@);
        let name = long_name_of(&args[i]);
        let ghost before = c@;
        if names_setting(name.as_str()) {
            let value: Option<String> = if i < n - 1 {
                assert(av[i + 1] == args@[i + 1]@);
                Some(args[i + 1].clone())
            } else {
                None
            };
            let ghost old_settings = c.settings@;
            let ghost v = value;
            c.settings.insert(name.as_str(), value);
            assert(values(old_settings.insert(name@, v)) == values(old_settings).insert(
                name@,
                opt(v),
            ));
            assert(c@ == CliView {
                settings: before.settings.insert(name@, argument(av, i + 1)),
                ..before
            });
            if i < n - 1 {
                i = i + 2;
            } else {
                assert(parsed(av, i + 2, c@) == c@);
                i = n;
            }
        } else if names_flag(name.as_str()) {
            c.flags.insert(name.as_str(), ());
            assert(c@ == CliView { flags: before.flags.insert(name@, ()), ..before });
            i = i + 1;
        } else {
            c.positionals.push(args[i].clone());
            assert(text::texts(c.positionals@) == before.positionals.push(av[i as int]));
            assert(c@ == CliView { positionals: before.positionals.push(av[i as int]), ..before });
            i = i + 1;
        }
    }
    c
}

impl Cli {
    /// The value of a setting.
    pub fn setting(&self, name: &str) -> (r: Option<String>)
        ensures
            opt(r) == setting(self@, name@),
    {
        match self.settings.get(name) {
            Some(Some(v)) => Some(v.clone()),
            _ => None,
        }
    }

    /// Whether a flag is set.
    pub fn flag(&self, name: &str) -> (r: bool)
        ensures
            r == flag(self@, name@),
    {
        self.flags.get(name).is_some()
    }

    /// The number of threads, where one is given and is a number.
    pub fn threads(&self) -> (r: Option<usize>)
        ensures
            r == (match setting(self@, "--threads"@) {
                Some(s) => tech::index_value(s),
                None => None,
            }),
    {
        match self.setting("--threads") {
            Some(s) => tech::index_of(&text::chars_of(s.as_str())),
            None => None,
        }
    }

    /// The argument that stands by itself at a place.
    pub fn positional(&self, i: usize) -> (r: Option<String>)
        ensures
            opt(r) == argument(self@.positionals, i as int),
    {
        if i < self.positionals.len() {
            assert(self@.positionals[i as int] == self.positionals@[i as int]@);
            Some(self.positionals[i].clone())
        } else {
            None
        }
    }
}

/// What a command line asks for.
#[derive(Debug)]
pub enum Action {
    /// Show a page.
    ReportBug,
    RequestFeature,
    Sponsor,
    Star,
    /// Print the version.
    Version,
    /// Print the usage and end with a code.
    Usage { code: u8 },
    /// Extract the sample.
    Demo,
    /// Check a job, or say how that is asked for.
    Check { job: Option<String> },
    /// Derive a deck.
    GenRc,
    /// Extract a job, or say how that is asked for.
    Run { job: Option<String> },
    /// Extract a GDS by way of KLayout.
    Klayout,
    /// No such command.
    Unknown { command: String },
}

/// What an [`Action`] is.
pub enum ActionView {
    ReportBug,
    RequestFeature,
    Sponsor,
    Star,
    Version,
    Usage { code: u8 },
    Demo,
    Check { job: Option<Seq<char>> },
    GenRc,
    Run { job: Option<Seq<char>> },
    Klayout,
    Unknown { command: Seq<char> },
}

impl View for Action {
    type V = ActionView;

    open spec fn view(&self) -> ActionView {
        match self {
            Action::ReportBug => ActionView::ReportBug,
            Action::RequestFeature => ActionView::RequestFeature,
            Action::Sponsor => ActionView::Sponsor,
            Action::Star => ActionView::Star,
            Action::Version => ActionView::Version,
            Action::Usage { code } => ActionView::Usage { code: *code },
            Action::Demo => ActionView::Demo,
            Action::Check { job } => ActionView::Check { job: opt(*job) },
            Action::GenRc => ActionView::GenRc,
            Action::Run { job } => ActionView::Run { job: opt(*job) },
            Action::Klayout => ActionView::Klayout,
            Action::Unknown { command } => ActionView::Unknown { command: command@ },
        }
    }
}

/// What a command line asks for: a page, the version, help, or a command. The
/// usage is an error where no command was given and no help asked for.
pub open spec fn action(c: CliView) -> ActionView {
    let command = match argument(c.positionals, 0) {
        Some(s) => s,
        None => Seq::empty(),
    };
    let job = argument(c.positionals, 1);
    if flag(c, "--bug-report"@) {
        ActionView::ReportBug
    } else if flag(c, "--feature-request"@) {
        ActionView::RequestFeature
    } else if flag(c, "--sponsor"@) {
        ActionView::Sponsor
    } else if flag(c, "--star"@) {
        ActionView::Star
    } else if flag(c, "--version"@) {
        ActionView::Version
    } else if flag(c, "--help"@) {
        ActionView::Usage { code: 0 }
    } else if command.len() == 0 {
        ActionView::Usage { code: 2 }
    } else if command == "demo"@ {
        ActionView::Demo
    } else if command == "check"@ {
        ActionView::Check { job }
    } else if command == "gen-rc"@ {
        ActionView::GenRc
    } else if command == "run"@ {
        ActionView::Run { job }
    } else if command == "klayout2spef"@ {
        ActionView::Klayout
    } else {
        ActionView::Unknown { command }
    }
}

/// What a command line asks for.
pub fn decide(cli: &Cli) -> (r: Action)
    ensures
        r@ == action(cli@),
{
    if cli.flag("--bug-report") {
        return Action::ReportBug;
    }
    if cli.flag("--feature-request") {
        return Action::RequestFeature;
    }
    if cli.flag("--sponsor") {
        return Action::Sponsor;
    }
    if cli.flag("--star") {
        return Action::Star;
    }
    if cli.flag("--version") {
        return Action::Version;
    }
    if cli.flag("--help") {
        return Action::Usage { code: 0 };
    }
    let command: String = match cli.positional(0) {
        Some(s) => s,
        None => {
            return Action::Usage { code: 2 };
        },
    };
    let chars = text::chars_of(command.as_str());
    if chars.len() == 0 {
        return Action::Usage { code: 2 };
    }
    let job = cli.positional(1);
    if text::is_text(&chars, "demo") {
        Action::Demo
    } else if text::is_text(&chars, "check") {
        Action::Check { job }
    } else if text::is_text(&chars, "gen-rc") {
        Action::GenRc
    } else if text::is_text(&chars, "run") {
        Action::Run { job }
    } else if text::is_text(&chars, "klayout2spef") {
        Action::Klayout
    } else {
        Action::Unknown { command }
    }
}

/// Whether the command line asks for a description of the command.
pub fn wants_description(args: &Vec<String>) -> (r: bool)
    ensures
        r == text::texts(args@).contains("--describe"@),
{
    let ghost av = text::texts(args@);
    for i in 0..args.len()
        invariant
            av == text::texts(args@),
            forall|j: int| 0 <= j < i ==> #[trigger] av[j] != "--describe"@,
    {
        assert(av[i as int] == args@[i as int]@);
        if text::same_text(args[i].as_str(), "--describe") {
            return true;
        }
    }
    false
}

/// Where the deck of a run comes from.
#[derive(Clone, Copy, Debug, PartialEq, Eq, Structural)]
pub enum DeckSource {
    /// Derived from a tech LEF.
    Tech,
    /// Named by the job.
    Job,
    /// Nowhere.
    Missing,
}

/// Where the deck of a run comes from: the technology, where one is named;
/// else the job.
pub fn deck_source(cli: &Cli, job_rules: &str) -> (r: DeckSource)
    ensures
        r == (if setting(cli@, "--pdk"@) is Some || setting(cli@, "--tech-lef"@) is Some {
            DeckSource::Tech
        } else if job_rules@.len() > 0 {
            DeckSource::Job
        } else {
            DeckSource::Missing
        }),
{
    if cli.setting("--pdk").is_some() || cli.setting("--tech-lef").is_some() {
        DeckSource::Tech
    } else if text::chars_of(job_rules).len() > 0 {
        DeckSource::Job
    } else {
        DeckSource::Missing
    }
}

/// Where the tech LEF of a derived deck is.
#[derive(Debug)]
pub enum TechSource {
    /// At a path.
    Path(String),
    /// With the collateral of a PDK.
    Pdk(String),
    /// Nowhere.
    Missing,
}

/// Where the tech LEF is: at the path that is given, else with the PDK.
pub fn tech_source(cli: &Cli) -> (r: TechSource)
    ensures
        match r {
            TechSource::Path(p) => setting(cli@, "--tech-lef"@) == Some(p@),
            TechSource::Pdk(p) => setting(cli@, "--tech-lef"@) is None && setting(cli@, "--pdk"@)
                == Some(p@),
            TechSource::Missing => setting(cli@, "--tech-lef"@) is None && setting(
                cli@,
                "--pdk"@,
            ) is None,
        },
{
    match cli.setting("--tech-lef") {
        Some(p) => TechSource::Path(p),
        None => match cli.setting("--pdk") {
            Some(p) => TechSource::Pdk(p),
            None => TechSource::Missing,
        },
    }
}

/// The file that a derived deck is kept in: in the directory of the PDK's own
/// rules where that is known, else beside the tech LEF.
pub open spec fn cache_file(tech_lef: Seq<char>, rules_dir: Option<Seq<char>>) -> Seq<char> {
    match rules_dir {
        Some(d) => d + "/vyges-extract-rc.rules"@,
        None => tech_lef + ".vyges-extract-rc.rules"@,
    }
}

pub fn cache_path(tech_lef: &str, rules_dir: Option<String>) -> (r: String)
    ensures
        r@ == cache_file(tech_lef@, opt(rules_dir)),
{
    match rules_dir {
        Some(d) => {
            let mut out = d;
            out.append("/vyges-extract-rc.rules");
            out
        },
        None => {
            let mut out = tech_lef.to_owned();
            out.append(".vyges-extract-rc.rules");
            out
        },
    }
}

/// Whether a character may stand in a URL scheme.
pub open spec fn is_scheme_char(c: char) -> bool {
    is_letter(c) || text::is_digit(c) || c == '+' || c == '-' || c == '.'
}

/// Whether a character is an ASCII letter.
pub open spec fn is_letter(c: char) -> bool {
    ('a' <= c && c <= 'z') || ('A' <= c && c <= 'Z')
}

/// Whether a text starts with a URL scheme: two characters or more before the
/// first colon, a letter first. One letter is a drive.
pub open spec fn has_scheme(s: Seq<char>) -> bool {
    let head = text::before(s, ':');
    &&& text::has_char(s, ':')
    &&& head.len() > 1
    &&& is_letter(head[0])
    &&& forall|i: int| 0 <= i < head.len() ==> is_scheme_char(#[trigger] head[i])
}

/// Whether a text names a file on this machine whatever the working directory:
/// it is no URL, and it starts at the root.
pub open spec fn is_local(s: Seq<char>) -> bool {
    !has_scheme(s) && s.len() > 0 && s[0] == '/'
}

fn scheme_char(c: char) -> (r: bool)
    ensures
        r == is_scheme_char(c),
{
    ('a' <= c && c <= 'z') || ('A' <= c && c <= 'Z') || ('0' <= c && c <= '9') || c == '+' || c
        == '-' || c == '.'
}

/// Whether a place of collateral can serve as a directory to write into: an
/// absolute path on this machine, and no URL.
pub fn is_local_path(s: &str) -> (r: bool)
    ensures
        r == is_local(s@),
{
    let v = text::chars_of(s);
    let colon: usize = text::find_at(&v, ':', 0);
    let mut scheme: bool = colon < v.len() && colon > 1 && (('a' <= v[0] && v[0] <= 'z') || ('A'
        <= v[0] && v[0] <= 'Z'));
    let ghost head = text::before(s@, ':');
    assert(head == v@.subrange(0, colon as int));
    let ghost began = scheme;
    let mut i: usize = 0;
    while i < colon
        invariant
            i <= colon <= v@.len(),
            head == v@.subrange(0, colon as int),
            scheme == (began && forall|j: int| 0 <= j < i ==> is_scheme_char(#[trigger] head[j])),
        decreases colon - i,
    {
        assert(head[i as int] == v@[i as int]);
        if !scheme_char(v[i]) {
            scheme = false;
        }
        i = i + 1;
    }
    assert(scheme == has_scheme(s@)) by {
        if head.len() > 0 {
            assert(head[0] == v@[0]);
        }
    }
    !scheme && v.len() > 0 && v[0] == '/'
}

/// The line that says that a job is in order.
pub open spec fn check_line<N: Real>(j: crate::job::JobView<N>) -> Seq<char> {
    "OK  design="@ + j.design + " def="@ + j.def + " rules="@ + j.rules + " corner="@ + j.corner
        + " temp="@ + j.temp.spec_show()
}

pub fn check_report<N: Real>(job: &ExtractJob<N>) -> (r: String)
    ensures
        r@ == check_line(job@),
{
    let mut out = "OK  design=".to_owned();
    out.append(job.design.as_str());
    out.append(" def=");
    out.append(job.def.as_str());
    out.append(" rules=");
    out.append(job.rules.as_str());
    out.append(" corner=");
    out.append(job.corner.as_str());
    out.append(" temp=");
    out.append(job.temp.show().as_str());
    out
}

/// The cell LEF of the pin hookup of a run: the one that is given, else that of
/// the job. Nothing where neither a cell LEF nor a library is given, or the job
/// has no layout.
#[derive(Debug)]
pub enum Hookup {
    Skip,
    From { cell_lef: Option<String>, lib: Option<String> },
}

/// Where the pin hookup of a run comes from.
pub fn hookup_source<N: Real>(cli: &Cli, job: &ExtractJob<N>) -> (r: Hookup)
    ensures
        match r {
            Hookup::Skip => (setting(cli@, "--cell-lef"@) is None && setting(cli@, "--lib"@) is None)
                || job@.def.len() == 0,
            Hookup::From { cell_lef, lib } => {
                &&& setting(cli@, "--cell-lef"@) is Some || setting(cli@, "--lib"@) is Some
                &&& job@.def.len() > 0
                &&& opt(lib) == setting(cli@, "--lib"@)
                &&& opt(cell_lef) == (match setting(cli@, "--cell-lef"@) {
                    Some(p) => Some(p),
                    None => match job@.lef {
                        Some(p) => Some(crate::job::joined(job@.base_dir, p)),
                        None => None,
                    },
                })
            },
        },
{
    let cell_lef = cli.setting("--cell-lef");
    let lib = cli.setting("--lib");
    if (cell_lef.is_none() && lib.is_none()) || text::chars_of(job.def.as_str()).len() == 0 {
        return Hookup::Skip;
    }
    let cell_lef: Option<String> = match cell_lef {
        Some(p) => Some(p),
        None => match &job.lef {
            Some(p) => Some(job.resolve(p.as_str())),
            None => None,
        },
    };
    Hookup::From { cell_lef, lib }
}

/// The nets of the sample.
pub open spec fn demo_net_list<N: Real>() -> Seq<ParasiticsView<N>> {
    seq![
        ParasiticsView {
            name: "clk"@,
            pins: seq![("clkbuf"@, "X"@), ("ff0"@, "CLK"@)],
            res: N::spec_micro(12_500_000),
            cap: N::spec_micro(6_400_000),
        },
        ParasiticsView {
            name: "n0"@,
            pins: seq![("u0"@, "Y"@), ("u1"@, "A"@)],
            res: N::spec_micro(3_100_000),
            cap: N::spec_micro(1_800_000),
        },
    ]
}

fn demo_net<N: Real>(
    name: &str,
    a: (&str, &str),
    b: (&str, &str),
    res_ohm: N,
    cap_ff: N,
) -> (r: NetParasitics<N>)
    ensures
        r@ == (ParasiticsView {
            name: name@,
            pins: seq![(a.0@, a.1@), (b.0@, b.1@)],
            res: res_ohm,
            cap: cap_ff,
        }),
{
    let mut pins: Vec<(String, String)> = Vec::new();
    pins.push((a.0.to_owned(), a.1.to_owned()));
    pins.push((b.0.to_owned(), b.1.to_owned()));
    assert(crate::geom::pins_view(pins@) == seq![(a.0@, a.1@), (b.0@, b.1@)]);
    NetParasitics { name: name.to_owned(), pins, res_ohm, cap_ff }
}

/// The nets of the sample.
pub fn demo_nets<N: Real>() -> (r: Vec<NetParasitics<N>>)
    ensures
        rc::parasitics_view(r@) == demo_net_list::<N>(),
{
    let mut out: Vec<NetParasitics<N>> = Vec::new();
    out.push(
        demo_net(
            "clk",
            ("clkbuf", "X"),
            ("ff0", "CLK"),
            N::micro(12_500_000),
            N::micro(6_400_000),
        ),
    );
    out.push(demo_net("n0", ("u0", "Y"), ("u1", "A"), N::micro(3_100_000), N::micro(1_800_000)));
    assert(rc::parasitics_view(out@) == demo_net_list::<N>());
    out
}

/// The coupling of the sample.
pub fn demo_couplings<N: Real>() -> (r: Vec<CouplingCap<N>>)
    ensures
        coupling::caps_view(r@) == seq![
            CapView { a: "clk"@, b: "n0"@, cap: N::spec_micro(420_000) },
        ],
{
    let mut out: Vec<CouplingCap<N>> = Vec::new();
    out.push(CouplingCap { a: "clk".to_owned(), b: "n0".to_owned(), cap_ff: N::micro(420_000) });
    assert(coupling::caps_view(out@) == seq![
        CapView { a: "clk"@, b: "n0"@, cap: N::spec_micro(420_000) },
    ]);
    out
}

} // verus!
