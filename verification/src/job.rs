//! An extraction job: what to extract, as a file of `key: value` lines.
//!
//! ```text
//! design:   counter
//! def:      counter.def           # routed layout
//! rules:    sky130.rules          # RC rules deck
//! lef:      counter.lef           # optional: routing widths
//! corner:   typical
//! temp:     25
//! ```
use crate::number::Real;
use crate::text;
use vstd::prelude::*;

verus! {

/// A job. Paths are relative to `base_dir`, the directory of the job's file.
#[derive(Debug)]
pub struct ExtractJob<N: Real> {
    pub design: String,
    pub def: String,
    pub rules: String,
    pub lef: Option<String>,
    pub corner: String,
    pub temp: N,
    pub base_dir: String,
}

/// What an [`ExtractJob`] is.
#[verifier::ext_equal]
pub struct JobView<N: Real> {
    pub design: Seq<char>,
    pub def: Seq<char>,
    pub rules: Seq<char>,
    pub lef: Option<Seq<char>>,
    pub corner: Seq<char>,
    pub temp: N,
    pub base_dir: Seq<char>,
}

impl<N: Real> View for ExtractJob<N> {
    type V = JobView<N>;

    open spec fn view(&self) -> JobView<N> {
        JobView {
            design: self.design@,
            def: self.def@,
            rules: self.rules@,
            lef: match self.lef {
                Some(l) => Some(l@),
                None => None,
            },
            corner: self.corner@,
            temp: self.temp,
            base_dir: self.base_dir@,
        }
    }
}

/// Why a job was not read.
#[derive(Debug)]
pub struct JobError(pub String);

impl JobError {
    /// The error as a message.
    pub fn message(&self) -> (r: String)
        ensures
            r@ == "job error: "@ + self.0@,
    {
        let mut out = "job error: ".to_owned();
        out.append(self.0.as_str());
        out
    }
}

/// A line without its comment and without spaces at its ends.
pub open spec fn content(line: Seq<char>) -> Seq<char> {
    text::trim(text::before(line, '#'))
}

/// The key of a line, in lower case.
pub open spec fn key_of(content: Seq<char>) -> Seq<char> {
    text::lower(text::trim(text::before(content, ':')))
}

/// The value of a line.
pub open spec fn value_of(content: Seq<char>) -> Seq<char> {
    text::trim(text::after(content, ':'))
}

/// The first of the lines from `i` on that has content but no colon.
pub open spec fn malformed(lines: Seq<Seq<char>>, i: int) -> Option<Seq<char>>
    decreases lines.len() - i,
{
    if i < 0 || i >= lines.len() {
        None
    } else {
        let c = content(lines[i]);
        if c.len() > 0 && !text::has_char(c, ':') {
            Some(c)
        } else {
            malformed(lines, i + 1)
        }
    }
}

/// The value that the last of the first `n` lines with a key gives it.
pub open spec fn setting(lines: Seq<Seq<char>>, key: Seq<char>, n: int) -> Option<Seq<char>>
    decreases n,
{
    if n <= 0 {
        None
    } else {
        let c = content(lines[n - 1]);
        if c.len() > 0 && key_of(c) == key {
            Some(value_of(c))
        } else {
            setting(lines, key, n - 1)
        }
    }
}

/// The message of a job that lacks what it needs, if it does.
pub open spec fn fault<N: Real>(job: JobView<N>) -> Option<Seq<char>> {
    if job.design.len() == 0 {
        Some("design is required"@)
    } else if job.def.len() == 0 || job.rules.len() == 0 {
        Some("def and rules are required"@)
    } else {
        None
    }
}

/// The job that a text describes.
pub open spec fn job<N: Real>(source: Seq<char>, base_dir: Seq<char>) -> Result<
    JobView<N>,
    Seq<char>,
> {
    let lines = text::lines(source);
    let n = lines.len() as int;
    match malformed(lines, 0) {
        Some(c) => Err("expected 'key: value', got "@ + text::debug_text(c)),
        None => match setting(lines, "design"@, n) {
            None => Err("missing key: "@ + "design"@),
            Some(design) => match setting(lines, "def"@, n) {
                None => Err("missing key: "@ + "def"@),
                Some(def) => match setting(lines, "rules"@, n) {
                    None => Err("missing key: "@ + "rules"@),
                    Some(rules) => {
                        let j = JobView {
                            design,
                            def,
                            rules,
                            lef: setting(lines, "lef"@, n),
                            corner: match setting(lines, "corner"@, n) {
                                Some(c) => c,
                                None => "typical"@,
                            },
                            temp: match setting(lines, "temp"@, n) {
                                Some(t) => match N::spec_parse(t) {
                                    Some(v) => v,
                                    None => N::spec_micro(25_000_000),
                                },
                                None => N::spec_micro(25_000_000),
                            },
                            base_dir,
                        };
                        match fault(j) {
                            Some(m) => Err(m),
                            None => Ok(j),
                        }
                    },
                },
            },
        },
    }
}

/// A path from a directory: an absolute path stays as it is.
pub open spec fn joined(base: Seq<char>, rel: Seq<char>) -> Seq<char> {
    if (rel.len() > 0 && rel[0] == '/') || base.len() == 0 {
        rel
    } else if base.last() == '/' {
        base + rel
    } else {
        base + "/"@ + rel
    }
}

fn content_of(line: &Vec<char>) -> (r: Vec<char>)
    ensures
        r@ == content(line@),
{
    let cut: usize = text::find_at(line, '#', 0);
    text::trimmed(&text::part(line, 0, cut))
}

fn setting_of(lines: &Vec<Vec<char>>, key: &str) -> (r: Option<Vec<char>>)
    requires
        malformed(text::seqs(lines@), 0) is None,
    ensures
        match (r, setting(text::seqs(lines@), key@, lines@.len() as int)) {
            (Some(a), Some(b)) => a@ == b,
            (None, None) => true,
            _ => false,
        },
{
    let ghost lv = text::seqs(lines@);
    let mut n: usize = lines.len();
    while n > 0
        invariant
            n <= lines@.len(),
            lv == text::seqs(lines@),
            malformed(lv, 0) is None,
            setting(lv, key@, n as int) == setting(lv, key@, lines@.len() as int),
        decreases n,
    {
        assert(lv[n - 1] == lines@[n - 1]@);
        let c = content_of(&lines[n - 1]);
        if c.len() > 0 {
            proof {
                lemma_well_formed(lv, 0, n - 1);
            }
            let at: usize = text::find_at(&c, ':', 0);
            let k = text::lowered(&text::trimmed(&text::part(&c, 0, at)));
            if text::is_text(&k, key) {
                return Some(text::trimmed(&text::part(&c, at + 1, c.len())));
            }
        }
        n = n - 1;
    }
    None
}

proof fn lemma_well_formed(lines: Seq<Seq<char>>, i: int, k: int)
    requires
        0 <= i <= k < lines.len(),
        malformed(lines, i) is None,
    ensures
        content(lines[k]).len() > 0 ==> text::has_char(content(lines[k]), ':'),
    decreases k - i,
{
    if i < k {
        lemma_well_formed(lines, i + 1, k);
    }
}

fn required(lines: &Vec<Vec<char>>, key: &str) -> (r: Result<String, JobError>)
    requires
        malformed(text::seqs(lines@), 0) is None,
    ensures
        match (r, setting(text::seqs(lines@), key@, lines@.len() as int)) {
            (Ok(a), Some(b)) => a@ == b,
            (Err(e), None) => e.0@ == "missing key: "@ + key@,
            _ => false,
        },
{
    match setting_of(lines, key) {
        Some(v) => Ok(text::string_of(&v)),
        None => {
            let mut m = "missing key: ".to_owned();
            m.append(key);
            Err(JobError(m))
        },
    }
}

impl<N: Real> ExtractJob<N> {
    /// Reads a job.
    pub fn parse(source: &str, base_dir: &str) -> (r: Result<Self, JobError>)
        ensures
            match (r, job::<N>(source@, base_dir@)) {
                (Ok(j), Ok(v)) => j@ == v,
                (Err(e), Err(v)) => e.0@ == v,
                _ => false,
            },
    {
        let lines = text::split_lines(&text::chars_of(source));
        let ghost lv = text::seqs(lines@);
        for i in 0..lines.len()
            invariant
                lv == text::seqs(lines@),
                lv == text::lines(source@),
                malformed(lv, i as int) == malformed(lv, 0),
        {
            assert(lv[i as int] == lines@[i as int]@);
            let c = content_of(&lines[i]);
            if c.len() > 0 && text::find_at(&c, ':', 0) >= c.len() {
                let mut m = "expected 'key: value', got ".to_owned();
                m.append(text::debug_string(text::string_of(&c).as_str()).as_str());
                return Err(JobError(m));
            }
        }
        let design = match required(&lines, "design") {
            Ok(v) => v,
            Err(e) => {
                return Err(e);
            },
        };
        let def = match required(&lines, "def") {
            Ok(v) => v,
            Err(e) => {
                return Err(e);
            },
        };
        let rules = match required(&lines, "rules") {
            Ok(v) => v,
            Err(e) => {
                return Err(e);
            },
        };
        let lef = match setting_of(&lines, "lef") {
            Some(v) => Some(text::string_of(&v)),
            None => None,
        };
        let corner = match setting_of(&lines, "corner") {
            Some(v) => text::string_of(&v),
            None => "typical".to_owned(),
        };
        let temp: N = match setting_of(&lines, "temp") {
            Some(v) => match N::parse(&v) {
                Some(t) => t,
                None => N::micro(25_000_000),
            },
            None => N::micro(25_000_000),
        };
        let j = ExtractJob {
            design,
            def,
            rules,
            lef,
            corner,
            temp,
            base_dir: base_dir.to_owned(),
        };
        match j.validate() {
            Ok(_) => Ok(j),
            Err(e) => Err(e),
        }
    }

    /// A path of the job.
    pub fn resolve(&self, rel: &str) -> (r: String)
        ensures
            r@ == joined(self.base_dir@, rel@),
    {
        let v = text::chars_of(rel);
        let base = text::chars_of(self.base_dir.as_str());
        if (v.len() > 0 && v[0] == '/') || base.len() == 0 {
            return rel.to_owned();
        }
        let mut out = self.base_dir.clone();
        if base[base.len() - 1] != '/' {
            out.append("/");
        }
        out.append(rel);
        out
    }

    /// Whether the job has what it needs.
    pub fn validate(&self) -> (r: Result<(), JobError>)
        ensures
            match (r, fault(self@)) {
                (Ok(_), None) => true,
                (Err(e), Some(m)) => e.0@ == m,
                _ => false,
            },
    {
        if text::chars_of(self.design.as_str()).len() == 0 {
            return Err(JobError("design is required".to_owned()));
        }
        if text::chars_of(self.def.as_str()).len() == 0 || text::chars_of(
            self.rules.as_str(),
        ).len() == 0 {
            return Err(JobError("def and rules are required".to_owned()));
        }
        Ok(())
    }
}

} // verus!
