//! Layer maps in parts: what two maps make when they are read as one.
use crate::gds;
use crate::gds::RolesView;
use crate::text;
use vstd::prelude::*;

verus! {

/// One map over another: where both name a routing layer, the later name holds;
/// cuts and labels come one list after the other.
pub open spec fn overridden(a: RolesView, b: RolesView) -> RolesView {
    RolesView {
        routing: a.routing.union_prefer_right(b.routing),
        vias: a.vias + b.vias,
        labels: a.labels + b.labels,
    }
}

/// The map after all of the lines, read on top of `m`.
spec fn fold(m: RolesView, lines: Seq<Seq<char>>) -> Result<RolesView, Seq<char>>
    decreases lines.len(),
{
    if lines.len() == 0 {
        Ok(m)
    } else {
        match gds::role_line(m, lines[0]) {
            Err(e) => Err(e),
            Ok(m2) => fold(m2, lines.drop_first()),
        }
    }
}

proof fn lemma_fold_last(m: RolesView, lines: Seq<Seq<char>>, x: Seq<char>)
    ensures
        fold(m, lines.push(x)) == match fold(m, lines) {
            Err(e) => Err(e),
            Ok(m2) => gds::role_line(m2, x),
        },
    decreases lines.len(),
{
    if lines.len() == 0 {
        assert(lines.push(x).drop_first() == Seq::<Seq<char>>::empty());
        reveal_with_fuel(fold, 2);
    } else {
        assert(lines.push(x)[0] == lines[0]);
        assert(lines.push(x).drop_first() == lines.drop_first().push(x));
        if let Ok(m2) = gds::role_line(m, lines[0]) {
            lemma_fold_last(m2, lines.drop_first(), x);
        }
    }
}

proof fn lemma_fold_is_upto(lines: Seq<Seq<char>>, n: int)
    requires
        0 <= n <= lines.len(),
    ensures
        gds::roles_upto(lines, n) == fold(gds::no_roles(), lines.take(n)),
    decreases n,
{
    if n > 0 {
        lemma_fold_is_upto(lines, n - 1);
        assert(lines.take(n) == lines.take(n - 1).push(lines[n - 1]));
        lemma_fold_last(gds::no_roles(), lines.take(n - 1), lines[n - 1]);
    }
}

/// A line does to a map on top of another what it does to the map.
proof fn lemma_line_over(a: RolesView, b: RolesView, raw: Seq<char>)
    ensures
        gds::role_line(overridden(a, b), raw) == match gds::role_line(b, raw) {
            Ok(m) => Ok(overridden(a, m)),
            Err(e) => Err(e),
        },
{
    let line = text::trim(text::before(raw, '#'));
    let t = text::words(text::after(line, ':'));
    if let Ok(l) = gds::layer_of(t[0]) {
        assert(a.routing.union_prefer_right(b.routing.insert(l, t[1]))
            == a.routing.union_prefer_right(b.routing).insert(l, t[1]));
        assert(a.vias + b.vias.push(l) == (a.vias + b.vias).push(l));
        assert(a.labels + b.labels.push(l) == (a.labels + b.labels).push(l));
    }
}

proof fn lemma_fold_over(a: RolesView, b: RolesView, lines: Seq<Seq<char>>)
    ensures
        fold(overridden(a, b), lines) == match fold(b, lines) {
            Ok(m) => Ok(overridden(a, m)),
            Err(e) => Err(e),
        },
    decreases lines.len(),
{
    if lines.len() > 0 {
        lemma_line_over(a, b, lines[0]);
        if let Ok(m) = gds::role_line(b, lines[0]) {
            lemma_fold_over(a, m, lines.drop_first());
        }
    }
}

proof fn lemma_space_end_append(s: Seq<char>, c: char, i: int)
    requires
        0 <= i <= s.len(),
        text::is_space(c),
    ensures
        text::space_end(s, i) < s.len() ==> text::space_end(s.push(c), i) == text::space_end(s, i),
        text::space_end(s, i) >= s.len() ==> text::space_end(s.push(c), i) > s.len(),
    decreases s.len() - i,
{
    if i < s.len() && text::is_space(s[i]) {
        lemma_space_end_append(s, c, i + 1);
    }
    reveal_with_fuel(text::space_end, 3);
}

proof fn lemma_space_start_append(s: Seq<char>, c: char, i: int)
    requires
        0 <= i <= s.len(),
    ensures
        text::space_start(s.push(c), i) == text::space_start(s, i),
        0 <= text::space_start(s, i) <= i,
    decreases i,
{
    if 0 < i && text::is_space(s[i - 1]) {
        lemma_space_start_append(s, c, i - 1);
    }
}

/// A space at the end of a text is trimmed away.
proof fn lemma_trim_append(s: Seq<char>, c: char)
    requires
        text::is_space(c),
    ensures
        text::trim(s.push(c)) == text::trim(s),
{
    let n = s.len() as int;
    lemma_space_end_append(s, c, 0);
    lemma_space_start_append(s, c, n);
    assert(text::space_start(s.push(c), n + 1) == text::space_start(s.push(c), n));
    text::lemma_space_end(s, 0);
    let a = text::space_end(s, 0);
    if a < n {
        text::lemma_space_start(s, a, n);
        let b = text::space_start(s, n);
        assert(s.push(c).subrange(a, b) == s.subrange(a, b));
    }
}

/// The carriage return at the end of a line says nothing.
proof fn lemma_line_chomped(m: RolesView, raw: Seq<char>)
    ensures
        gds::role_line(m, text::chomp(raw)) == gds::role_line(m, raw),
{
    if raw.len() > 0 && raw.last() == '\r' {
        let s = raw.drop_last();
        assert(raw == s.push('\r'));
        text::lemma_find_from(s, '#', 0);
        let e = text::find_from(s, '#', 0);
        if e < s.len() {
            text::lemma_find_is(raw, '#', 0, e);
            assert(text::before(raw, '#') == text::before(s, '#'));
        } else {
            text::lemma_find_is(raw, '#', 0, raw.len() as int);
            assert(text::before(raw, '#') == raw);
            assert(text::before(s, '#') == s);
            lemma_trim_append(s, '\r');
        }
    }
}

proof fn lemma_lines_shift(pre: Seq<char>, s: Seq<char>, i: int)
    requires
        0 <= i <= s.len(),
    ensures
        text::lines_from(pre + s, pre.len() + i) == text::lines_from(s, i),
    decreases s.len() - i,
{
    let all = pre + s;
    let k = pre.len() as int;
    if i < s.len() {
        text::lemma_find_from(s, '\n', i);
        let e = text::find_from(s, '\n', i);
        assert forall|j: int| k + i <= j < k + e implies all[j] != '\n' by {
            assert(all[j] == s[j - k]);
        }
        text::lemma_find_is(all, '\n', k + i, k + e);
        assert(all.subrange(k + i, k + e) == s.subrange(i, e));
        if e < s.len() {
            lemma_lines_shift(pre, s, e + 1);
        }
    }
}

/// Two texts as one are read as the first and then the second.
proof fn lemma_fold_texts(m: RolesView, a: Seq<char>, b: Seq<char>, i: int)
    requires
        0 <= i <= a.len(),
    ensures
        fold(m, text::lines_from(a + "\n"@ + b, i)) == match fold(m, text::lines_from(a, i)) {
            Err(e) => Err(e),
            Ok(m2) => fold(m2, text::lines(b)),
        },
    decreases a.len() - i,
{
    reveal_strlit("\n");
    let all = a + "\n"@ + b;
    let n = a.len() as int;
    text::lemma_find_from(a, '\n', i);
    let e = text::find_from(a, '\n', i);
    assert forall|j: int| i <= j < e implies all[j] != '\n' by {
        assert(all[j] == a[j]);
    }
    text::lemma_find_is(all, '\n', i, e);
    let head = all.subrange(i, e);
    assert(head == a.subrange(i, e));
    let whole = text::lines_from(all, i);
    let rest = text::lines_from(all, e + 1);
    assert(whole == seq![text::chomp(head)] + rest);
    assert(whole[0] == text::chomp(head));
    assert(whole.drop_first() == rest);
    lemma_line_chomped(m, head);
    let part = text::lines_from(a, i);
    if e < n {
        let later = text::lines_from(a, e + 1);
        assert(part == seq![text::chomp(head)] + later);
        assert(part[0] == text::chomp(head));
        assert(part.drop_first() == later);
        if let Ok(m2) = gds::role_line(m, head) {
            lemma_fold_texts(m2, a, b, e + 1);
        }
    } else {
        assert(all == (a + "\n"@) + b);
        lemma_lines_shift(a + "\n"@, b, 0);
        assert(rest == text::lines(b));
        if i < n {
            assert(part == seq![head]);
            assert(part.drop_first() == Seq::<Seq<char>>::empty());
            reveal_with_fuel(fold, 2);
        } else {
            assert(head == Seq::<char>::empty());
            assert(text::before(head, '#') == head);
            assert(gds::role_line(m, head) == Ok::<RolesView, Seq<char>>(m));
        }
    }
}

/// Two layer maps that are read as one text give the first with the second over
/// it: later names of routing layers hold, and the cuts and the labels of the
/// second follow those of the first.
pub proof fn a_later_map_overrides(a: Seq<char>, b: Seq<char>)
    requires
        gds::roles(a) is Ok,
        gds::roles(b) is Ok,
    ensures
        gds::roles(a + "\n"@ + b) == Ok::<RolesView, Seq<char>>(
            overridden(gds::roles(a)->Ok_0, gds::roles(b)->Ok_0),
        ),
{
    let all = a + "\n"@ + b;
    let (la, lb, lall) = (text::lines(a), text::lines(b), text::lines(all));
    let (ma, mb) = (gds::roles(a)->Ok_0, gds::roles(b)->Ok_0);
    lemma_fold_is_upto(la, la.len() as int);
    lemma_fold_is_upto(lb, lb.len() as int);
    lemma_fold_is_upto(lall, lall.len() as int);
    assert(la.take(la.len() as int) == la);
    assert(lb.take(lb.len() as int) == lb);
    assert(lall.take(lall.len() as int) == lall);
    lemma_fold_texts(gds::no_roles(), a, b, 0);
    assert(overridden(ma, gds::no_roles()) == ma);
    lemma_fold_over(ma, gds::no_roles(), lb);
    let m = overridden(ma, mb);
    if m.routing == Map::<(int, int), Seq<char>>::empty() {
        assert(mb.routing == Map::<(int, int), Seq<char>>::empty()) by {
            assert forall|k: (int, int)| !mb.routing.contains_key(k) by {
                assert(m.routing.contains_key(k) == (ma.routing.contains_key(k)
                    || mb.routing.contains_key(k)));
            }
        }
    }
}

} // verus!
