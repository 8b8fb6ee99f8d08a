//! What a job file and a command line set: of several lines or arguments for one thing
//! the last counts, and nothing is set that is not there.
use crate::cli;
use crate::cli::{ActionView, CliView};
use crate::job;
use crate::klayout;
use crate::number::Real;
use crate::text;
use vstd::prelude::*;

verus! {

/// A line of a job without its comment and the spaces around it.
pub open spec fn kept(line: Seq<char>) -> Seq<char> {
    text::trim(text::before(line, '#'))
}

/// Whether a line of a job sets a key, in capitals or not.
pub open spec fn sets(line: Seq<char>, key: Seq<char>) -> bool {
    kept(line).len() > 0 && text::lower(text::trim(text::before(kept(line), ':'))) == key
}

/// What a line of a job sets its key to.
pub open spec fn set_to(line: Seq<char>) -> Seq<char> {
    text::trim(text::after(kept(line), ':'))
}

/// Whether line `k` is the last that sets a key.
pub open spec fn last_set(lines: Seq<Seq<char>>, key: Seq<char>, k: int) -> bool {
    &&& 0 <= k < lines.len()
    &&& sets(lines[k], key)
    &&& forall|j: int| k < j < lines.len() ==> !sets(#[trigger] lines[j], key)
}

/// Whether no line sets a key.
pub open spec fn never_set(lines: Seq<Seq<char>>, key: Seq<char>) -> bool {
    forall|j: int| 0 <= j < lines.len() ==> !sets(#[trigger] lines[j], key)
}

proof fn lemma_setting(lines: Seq<Seq<char>>, key: Seq<char>, n: int, k: int)
    requires
        0 <= n <= lines.len(),
    ensures
        0 <= k < n && sets(lines[k], key) && (forall|j: int|
            k < j < n ==> !sets(#[trigger] lines[j], key)) ==> job::setting(lines, key, n) == Some(
            set_to(lines[k]),
        ),
        (forall|j: int| 0 <= j < n ==> !sets(#[trigger] lines[j], key)) ==> job::setting(
            lines,
            key,
            n,
        ) is None,
        job::setting(lines, key, n) is Some ==> exists|j: int|
            0 <= j < n && sets(#[trigger] lines[j], key),
    decreases n,
{
    if n > 0 {
        lemma_setting(lines, key, n - 1, k);
        if sets(lines[n - 1], key) {
            assert(0 <= n - 1 < n);
        } else if job::setting(lines, key, n) is Some {
            let j = choose|j: int| 0 <= j < n - 1 && sets(#[trigger] lines[j], key);
            assert(sets(lines[j], key));
        }
    }
}

proof fn lemma_malformed(lines: Seq<Seq<char>>, i: int)
    requires
        0 <= i <= lines.len(),
    ensures
        job::malformed(lines, i) is Some <==> exists|j: int|
            i <= j < lines.len() && kept(#[trigger] lines[j]).len() > 0 && !text::has_char(
                kept(lines[j]),
                ':',
            ),
    decreases lines.len() - i,
{
    if i < lines.len() {
        lemma_malformed(lines, i + 1);
        if kept(lines[i]).len() > 0 && !text::has_char(kept(lines[i]), ':') {
            assert(i <= i < lines.len());
        }
        if exists|j: int|
            i <= j < lines.len() && kept(#[trigger] lines[j]).len() > 0 && !text::has_char(
                kept(lines[j]),
                ':',
            ) {
            let j = choose|j: int|
                i <= j < lines.len() && kept(#[trigger] lines[j]).len() > 0 && !text::has_char(
                    kept(lines[j]),
                    ':',
                );
            if j > i {
                assert(i + 1 <= j < lines.len());
            }
        }
    }
}

/// A job is what its lines set: design, layout and rules, which it must have, and LEF,
/// corner and temperature, which are none, `typical` and 25 where no line sets them. Of
/// several lines for one key the last counts.
pub proof fn a_job_is_what_its_lines_set<N: Real>(source: Seq<char>, base: Seq<char>, k: int)
    ensures
        job::job::<N>(source, base) matches Ok(j) ==> {
            let lines = text::lines(source);
            &&& last_set(lines, "design"@, k) ==> j.design == set_to(lines[k])
            &&& last_set(lines, "def"@, k) ==> j.def == set_to(lines[k])
            &&& last_set(lines, "rules"@, k) ==> j.rules == set_to(lines[k])
            &&& last_set(lines, "lef"@, k) ==> j.lef == Some(set_to(lines[k]))
            &&& last_set(lines, "corner"@, k) ==> j.corner == set_to(lines[k])
            &&& last_set(lines, "temp"@, k) && N::spec_parse(set_to(lines[k])) is Some
                ==> N::spec_parse(set_to(lines[k])) == Some(j.temp)
            &&& never_set(lines, "lef"@) ==> j.lef is None
            &&& never_set(lines, "corner"@) ==> j.corner == "typical"@
            &&& never_set(lines, "temp"@) ==> j.temp == N::spec_micro(25_000_000)
            &&& !never_set(lines, "design"@) && !never_set(lines, "def"@) && !never_set(
                lines,
                "rules"@,
            )
            &&& j.design.len() > 0 && j.def.len() > 0 && j.rules.len() > 0
            &&& j.base_dir == base
            &&& forall|i: int|
                0 <= i < lines.len() && kept(#[trigger] lines[i]).len() > 0 ==> text::has_char(
                    kept(lines[i]),
                    ':',
                )
        },
{
    let lines = text::lines(source);
    let n = lines.len() as int;
    lemma_malformed(lines, 0);
    lemma_setting(lines, "design"@, n, k);
    lemma_setting(lines, "def"@, n, k);
    lemma_setting(lines, "rules"@, n, k);
    lemma_setting(lines, "lef"@, n, k);
    lemma_setting(lines, "corner"@, n, k);
    lemma_setting(lines, "temp"@, n, k);
}

/// A job that is not read lacks a colon in a line, or the design, the layout or the rules,
/// or leaves one of these empty.
pub proof fn a_job_fails_for_what_it_lacks<N: Real>(source: Seq<char>, base: Seq<char>)
    ensures
        job::job::<N>(source, base) is Err ==> {
            let lines = text::lines(source);
            ||| exists|i: int|
                0 <= i < lines.len() && kept(#[trigger] lines[i]).len() > 0 && !text::has_char(
                    kept(lines[i]),
                    ':',
                )
            ||| lacks(lines, "design"@)
            ||| lacks(lines, "def"@)
            ||| lacks(lines, "rules"@)
        },
{
    let lines = text::lines(source);
    lemma_malformed(lines, 0);
    lemma_lacks(lines, "design"@);
    lemma_lacks(lines, "def"@);
    lemma_lacks(lines, "rules"@);
}

/// Whether lines do not set a key, or set it to nothing.
pub open spec fn lacks(lines: Seq<Seq<char>>, key: Seq<char>) -> bool {
    never_set(lines, key) || exists|k: int| #[trigger]
        last_set(lines, key, k) && set_to(lines[k]).len() == 0
}

proof fn lemma_lacks(lines: Seq<Seq<char>>, key: Seq<char>)
    ensures
        ({
            let v = job::setting(lines, key, lines.len() as int);
            (v is None || (v->0).len() == 0) ==> lacks(lines, key)
        }),
{
    let n = lines.len() as int;
    lemma_setting(lines, key, n, 0);
    if !never_set(lines, key) {
        let k = lemma_last(lines, key, n);
        lemma_setting(lines, key, n, k);
        assert(last_set(lines, key, k));
    }
}

proof fn lemma_last(lines: Seq<Seq<char>>, key: Seq<char>, n: int) -> (k: int)
    requires
        0 <= n <= lines.len(),
        exists|j: int| 0 <= j < n && sets(#[trigger] lines[j], key),
    ensures
        0 <= k < n,
        sets(lines[k], key),
        forall|j: int| k < j < n ==> !sets(#[trigger] lines[j], key),
    decreases n,
{
    if sets(lines[n - 1], key) {
        n - 1
    } else {
        let j = choose|j: int| 0 <= j < n && sets(#[trigger] lines[j], key);
        assert(0 <= j < n - 1);
        lemma_last(lines, key, n - 1)
    }
}

/// A path that starts at the root stays as it is; any other is one from the directory of
/// the job, with one slash between.
pub proof fn a_path_is_from_its_directory(base: Seq<char>, rel: Seq<char>)
    ensures
        rel.len() > 0 && rel[0] == '/' ==> job::joined(base, rel) == rel,
        base.len() == 0 ==> job::joined(base, rel) == rel,
        base.len() > 0 && base.last() != '/' && (rel.len() == 0 || rel[0] != '/') ==> job::joined(
            base,
            rel,
        ) == base.push('/') + rel,
        base.len() > 0 && base.last() == '/' && (rel.len() == 0 || rel[0] != '/') ==> job::joined(
            base,
            rel,
        ) == base + rel,
{
    reveal_strlit("/");
    assert("/"@ =~= seq!['/']);
    assert(base + "/"@ + rel =~= base.push('/') + rel);
}

/// The settings, which take the argument after them, and the flags of the command, and
/// what the short ones stand for.
pub proof fn the_arguments_are_known()
    ensures
        cli::is_setting("-o"@) && cli::is_setting("--threads"@) && cli::is_setting("--pdk"@),
        cli::is_setting("--tech-lef"@) && cli::is_setting("--captable"@) && cli::is_setting(
            "--gds"@,
        ),
        cli::is_setting("--top"@) && cli::is_setting("--layermap"@) && cli::is_setting(
            "--geom-out"@,
        ),
        cli::is_setting("--from-dump"@) && cli::is_setting("--python"@) && cli::is_setting(
            "--runner"@,
        ),
        cli::is_setting("--image"@) && cli::is_setting("--mount"@) && cli::is_setting("--driver"@),
        cli::is_setting("--date"@) && cli::is_setting("--def"@) && cli::is_setting("--cell-lef"@),
        cli::is_setting("--lib"@),
        cli::is_flag("--refresh"@) && cli::is_flag("--allow-incomplete-rc"@) && cli::is_flag(
            "--routing-only"@,
        ),
        cli::is_flag("--self-test"@) && cli::is_flag("--json"@) && cli::is_flag("--quiet"@),
        cli::is_flag("--verbose"@) && cli::is_flag("--help"@) && cli::is_flag("--version"@),
        cli::is_flag("--bug-report"@) && cli::is_flag("--feature-request"@) && cli::is_flag(
            "--sponsor"@,
        ),
        cli::is_flag("--star"@),
        cli::long_name("-j"@) == "--threads"@ && cli::long_name("-q"@) == "--quiet"@,
        cli::long_name("-v"@) == "--verbose"@ && cli::long_name("-h"@) == "--help"@,
        cli::long_name("-V"@) == "--version"@,
{
    reveal_strlit("-j");
    reveal_strlit("-q");
    reveal_strlit("-v");
    reveal_strlit("-h");
    reveal_strlit("-V");
    assert("-j"@[1] == 'j' && "-q"@[1] == 'q' && "-v"@[1] == 'v' && "-h"@[1] == 'h' && "-V"@[1]
        == 'V');
}

/// Whether an argument is read by itself, and not as the value of the one before.
pub open spec fn is_read(args: Seq<Seq<char>>, i: int) -> bool
    decreases i,
{
    if i <= 0 {
        i == 0
    } else {
        is_read(args, i - 1) && !cli::is_setting(cli::long_name(args[i - 1])) || i >= 2 && is_read(
            args,
            i - 2,
        ) && cli::is_setting(cli::long_name(args[i - 2]))
    }
}

/// Whether an argument that is read by itself is a setting with a name.
pub open spec fn gives(args: Seq<Seq<char>>, k: int, name: Seq<char>) -> bool {
    0 <= k < args.len() && is_read(args, k) && cli::long_name(args[k]) == name && cli::is_setting(
        name,
    )
}

/// Whether an argument that is read by itself is a flag with a name.
pub open spec fn raises(args: Seq<Seq<char>>, k: int, name: Seq<char>) -> bool {
    0 <= k < args.len() && is_read(args, k) && cli::long_name(args[k]) == name && cli::is_flag(name)
        && !cli::is_setting(name)
}

/// What the arguments before `i` give, as far as they are read.
spec fn agrees(args: Seq<Seq<char>>, i: int, c: CliView, name: Seq<char>) -> bool {
    &&& c.flags.contains_key(name) <==> exists|k: int| k < i && #[trigger] raises(args, k, name)
    &&& forall|k: int|
        k < i && #[trigger] gives(args, k, name) && (forall|j: int|
            k < j < i ==> !#[trigger] gives(args, j, name)) ==> c.settings.contains_key(name)
            && c.settings[name] == cli::argument(args, k + 1)
    &&& c.settings.contains_key(name) ==> exists|k: int| k < i && #[trigger] gives(args, k, name)
}

#[verifier::rlimit(50)]
proof fn lemma_parsed(args: Seq<Seq<char>>, i: int, c: CliView, name: Seq<char>)
    requires
        0 <= i,
        is_read(args, i),
        agrees(args, i, c, name),
    ensures
        agrees(args, args.len() as int, cli::parsed(args, i, c), name),
    decreases args.len() + 1 - i,
{
    let n = args.len() as int;
    if i >= n {
        let r = cli::parsed(args, i, c);
        assert(r == c);
        assert forall|k: int|
            k < n && #[trigger] gives(args, k, name) && (forall|j: int|
                k < j < n ==> !#[trigger] gives(args, j, name)) implies c.settings.contains_key(
            name,
        ) && c.settings[name] == cli::argument(args, k + 1) by {
            assert forall|j: int| k < j < i implies !#[trigger] gives(args, j, name) by {}
        }
        if c.flags.contains_key(name) {
            let k = choose|k: int| k < i && #[trigger] raises(args, k, name);
            assert(k < n && raises(args, k, name));
        }
        if exists|k: int| k < n && #[trigger] raises(args, k, name) {
            let k = choose|k: int| k < n && #[trigger] raises(args, k, name);
            assert(k < i && raises(args, k, name));
        }
        if c.settings.contains_key(name) {
            let k = choose|k: int| k < i && #[trigger] gives(args, k, name);
            assert(k < n && gives(args, k, name));
        }
    } else {
        let own = cli::long_name(args[i]);
        let (next, step) = if cli::is_setting(own) {
            (
                CliView { settings: c.settings.insert(own, cli::argument(args, i + 1)), ..c },
                2int,
            )
        } else if cli::is_flag(own) {
            (CliView { flags: c.flags.insert(own, ()), ..c }, 1int)
        } else {
            (CliView { positionals: c.positionals.push(args[i]), ..c }, 1int)
        };
        assert(is_read(args, i + step));
        if step == 2 {
            assert(!is_read(args, i + 1)) by {
                if is_read(args, i + 1) {
                    assert(is_read(args, i - 1) && cli::is_setting(cli::long_name(args[i - 1])));
                    lemma_not_both(args, i);
                }
            }
        }
        assert(agrees(args, i + step, next, name)) by {
            let e = i + step;
            assert forall|k: int|
                k < e && #[trigger] gives(args, k, name) && (forall|j: int|
                    k < j < e ==> !#[trigger] gives(args, j, name)) implies next.settings.contains_key(
                name,
            ) && next.settings[name] == cli::argument(args, k + 1) by {
                if k < i {
                    assert(!gives(args, i, name));
                    assert forall|j: int| k < j < i implies !#[trigger] gives(args, j, name) by {}
                } else if k == i + 1 {
                    assert(!is_read(args, i + 1));
                }
            }
            if next.flags.contains_key(name) {
                if c.flags.contains_key(name) {
                    let k = choose|k: int| k < i && #[trigger] raises(args, k, name);
                    assert(k < e && raises(args, k, name));
                } else {
                    assert(raises(args, i, name));
                }
            }
            if exists|k: int| k < e && #[trigger] raises(args, k, name) {
                let k = choose|k: int| k < e && #[trigger] raises(args, k, name);
                if k < i {
                    assert(c.flags.contains_key(name));
                }
            }
            if next.settings.contains_key(name) {
                if c.settings.contains_key(name) {
                    let k = choose|k: int| k < i && #[trigger] gives(args, k, name);
                    assert(k < e && gives(args, k, name));
                } else {
                    assert(gives(args, i, name));
                }
            }
        }
        lemma_parsed(args, i + step, next, name);
    }
}

/// An argument is not read both by itself and as a value.
proof fn lemma_not_both(args: Seq<Seq<char>>, i: int)
    requires
        0 < i,
        is_read(args, i - 1),
        cli::is_setting(cli::long_name(args[i - 1])),
    ensures
        !is_read(args, i),
    decreases i,
{
    if is_read(args, i) {
        assert(i >= 2 && is_read(args, i - 2) && cli::is_setting(cli::long_name(args[i - 2])));
        lemma_not_both(args, i - 1);
    }
}

/// A command line has a flag just where an argument that is read by itself names it, and a
/// setting has the argument after the last one that names it, or none at the end.
pub proof fn arguments_set_what_they_name(args: Seq<Seq<char>>, name: Seq<char>, k: int)
    ensures
        ({
            let c = cli::parsed(args, 0, cli::no_arguments());
            &&& cli::flag(c, name) <==> exists|j: int| #[trigger] raises(args, j, name)
            &&& gives(args, k, name) && (forall|j: int| k < j ==> !#[trigger] gives(args, j, name))
                ==> cli::setting(c, name) == (if k + 1 < args.len() {
                Some(args[k + 1])
            } else {
                None
            })
            &&& (forall|j: int| !#[trigger] gives(args, j, name)) ==> cli::setting(c, name) is None
        }),
{
    let n = args.len() as int;
    let none = cli::no_arguments();
    assert(agrees(args, 0, none, name));
    lemma_parsed(args, 0, none, name);
    let c = cli::parsed(args, 0, none);
    if exists|j: int| #[trigger] raises(args, j, name) {
        let j = choose|j: int| #[trigger] raises(args, j, name);
        assert(j < n && raises(args, j, name));
    }
    if gives(args, k, name) && (forall|j: int| k < j ==> !#[trigger] gives(args, j, name)) {
        assert forall|j: int| k < j < n implies !#[trigger] gives(args, j, name) by {}
    }
}

/// The arguments before `n` that are read by themselves and are neither settings nor flags.
pub open spec fn plain(args: Seq<Seq<char>>, n: int) -> Seq<Seq<char>>
    decreases n,
{
    if n <= 0 {
        Seq::empty()
    } else {
        let before = plain(args, n - 1);
        let name = cli::long_name(args[n - 1]);
        if n <= args.len() && is_read(args, n - 1) && !cli::is_setting(name) && !cli::is_flag(
            name,
        ) {
            before.push(args[n - 1])
        } else {
            before
        }
    }
}

proof fn lemma_plain(args: Seq<Seq<char>>, i: int, c: CliView)
    requires
        0 <= i <= args.len() + 1,
        is_read(args, i),
        c.positionals == plain(args, i),
    ensures
        cli::parsed(args, i, c).positionals == plain(args, args.len() as int),
    decreases args.len() + 1 - i,
{
    let n = args.len() as int;
    if i > n {
        assert(plain(args, n + 1) == plain(args, n));
    } else if i < n {
        let own = cli::long_name(args[i]);
        if cli::is_setting(own) {
            let next = CliView {
                settings: c.settings.insert(own, cli::argument(args, i + 1)),
                ..c
            };
            lemma_not_both(args, i + 1);
            assert(plain(args, i + 1) == plain(args, i));
            assert(plain(args, i + 2) == plain(args, i + 1));
            assert(is_read(args, i + 2));
            lemma_plain(args, i + 2, next);
        } else if cli::is_flag(own) {
            assert(is_read(args, i + 1));
            lemma_plain(args, i + 1, CliView { flags: c.flags.insert(own, ()), ..c });
        } else {
            assert(is_read(args, i + 1));
            lemma_plain(
                args,
                i + 1,
                CliView { positionals: c.positionals.push(args[i]), ..c },
            );
        }
    }
}

/// The arguments that stand by themselves, in order, are all those that are read by
/// themselves and are neither settings nor flags. The first of them names the command and
/// the second its job, unless a flag asks for a page, the version or help.
pub proof fn the_first_plain_argument_is_the_command(args: Seq<Seq<char>>)
    ensures
        ({
            let c = cli::parsed(args, 0, cli::no_arguments());
            let rest = plain(args, args.len() as int);
            let job = if rest.len() > 1 {
                Some(rest[1])
            } else {
                None
            };
            let asks = cli::flag(c, "--bug-report"@) || cli::flag(c, "--feature-request"@)
                || cli::flag(c, "--sponsor"@) || cli::flag(c, "--star"@) || cli::flag(
                c,
                "--version"@,
            ) || cli::flag(c, "--help"@);
            &&& c.positionals == rest
            &&& !asks && rest.len() == 0 ==> cli::action(c) == (ActionView::Usage { code: 2 })
            &&& !asks && rest.len() > 0 && rest[0] == "demo"@ ==> cli::action(c)
                == ActionView::Demo
            &&& !asks && rest.len() > 0 && rest[0] == "check"@ ==> cli::action(c) == (
            ActionView::Check { job })
            &&& !asks && rest.len() > 0 && rest[0] == "gen-rc"@ ==> cli::action(c)
                == ActionView::GenRc
            &&& !asks && rest.len() > 0 && rest[0] == "run"@ ==> cli::action(c) == (
            ActionView::Run { job })
            &&& !asks && rest.len() > 0 && rest[0] == "klayout2spef"@ ==> cli::action(c)
                == ActionView::Klayout
            &&& cli::flag(c, "--bug-report"@) ==> cli::action(c) == ActionView::ReportBug
            &&& cli::flag(c, "--version"@) && !cli::flag(c, "--bug-report"@) && !cli::flag(
                c,
                "--feature-request"@,
            ) && !cli::flag(c, "--sponsor"@) && !cli::flag(c, "--star"@) ==> cli::action(c)
                == ActionView::Version
        }),
{
    assert(plain(args, 0) == Seq::<Seq<char>>::empty());
    lemma_plain(args, 0, cli::no_arguments());
    reveal_strlit("demo");
    reveal_strlit("check");
    reveal_strlit("gen-rc");
    reveal_strlit("run");
    reveal_strlit("klayout2spef");
    assert("demo"@.len() == 4 && "check"@.len() == 5 && "gen-rc"@.len() == 6 && "run"@.len() == 3
        && "klayout2spef"@.len() == 12);
}

/// What is asked of KLayout is what the settings of the command line say; the design is the
/// top cell where one is named, else the name of the file, else `top`.
pub proof fn klayout_is_asked_what_is_set(
    c: CliView,
    mount: Seq<char>,
    stem: Option<Seq<char>>,
)
    ensures
        ({
            let o = klayout::asked(c, mount, stem);
            let given = |name: Seq<char>| cli::setting(c, name);
            &&& given("--gds"@) matches Some(v) ==> o.gds == v
            &&& given("--layermap"@) matches Some(v) ==> o.layermap == v
            &&& given("--top"@) matches Some(v) ==> o.top == v && o.design == v
            &&& given("--top"@) is None ==> o.top.len() == 0 && (stem matches Some(s) ==> o.design
                == s)
            &&& given("--top"@) is None && stem is None ==> o.design == "top"@
            &&& o.routing_only <==> cli::flag(c, "--routing-only"@)
            &&& o.driver == given("--driver"@) && o.date == given("--date"@) && o.def == given(
                "--def"@,
            )
            &&& o.cell_lef == given("--cell-lef"@) && o.lib == given("--lib"@)
            &&& given("--runner"@) is None && given("--python"@) is Some ==> o.python
                == text::words(given("--python"@)->0)
            &&& given("--runner"@) is None && given("--python"@) is None ==> o.python
                == text::words(Seq::empty())
        }),
{
}

} // verus!
