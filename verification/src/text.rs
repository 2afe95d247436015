use vstd::prelude::*;

use crate::path::{str_chars, string_of_range, string_push, strings_view};

verus! {

/// The width to which the old text of a changed line is padded.
pub const CHANGE_COLUMN: usize = 50;

/// Unicode `White_Space`, the characters that `str::trim` removes.
pub open spec fn is_white_space(c: char) -> bool {
    ||| ('\u{9}' <= c && c <= '\u{d}')
    ||| c == ' '
    ||| c == '\u{85}'
    ||| c == '\u{a0}'
    ||| c == '\u{1680}'
    ||| ('\u{2000}' <= c && c <= '\u{200a}')
    ||| c == '\u{2028}'
    ||| c == '\u{2029}'
    ||| c == '\u{202f}'
    ||| c == '\u{205f}'
    ||| c == '\u{3000}'
}

/// Whether `c` is white space.
pub fn white_space(c: char) -> (res: bool)
    ensures
        res == is_white_space(c),
{
    ('\u{9}' <= c && c <= '\u{d}') || c == ' ' || c == '\u{85}' || c == '\u{a0}' || c == '\u{1680}'
        || ('\u{2000}' <= c && c <= '\u{200a}') || c == '\u{2028}' || c == '\u{2029}' || c
        == '\u{202f}' || c == '\u{205f}' || c == '\u{3000}'
}

/// `s` without its leading white space.
pub open spec fn trim_start(s: Seq<char>) -> Seq<char>
    decreases s.len(),
{
    if s.len() > 0 && is_white_space(s[0]) {
        trim_start(s.skip(1))
    } else {
        s
    }
}

/// `s` without its trailing white space.
pub open spec fn trim_end(s: Seq<char>) -> Seq<char>
    decreases s.len(),
{
    if s.len() > 0 && is_white_space(s.last()) {
        trim_end(s.drop_last())
    } else {
        s
    }
}

/// `s` without its leading and trailing white space.
pub open spec fn trim(s: Seq<char>) -> Seq<char> {
    trim_end(trim_start(s))
}

/// A line without the carriage return that ends it, if any.
pub open spec fn strip_cr(line: Seq<char>) -> Seq<char> {
    if line.len() > 0 && line.last() == '\r' {
        line.drop_last()
    } else {
        line
    }
}

/// The lines of `s`, `cur` holding the characters of the line being read:
/// a line ends at `\n` (a `\r` before it is dropped); the last line, when
/// no `\n` ends it, is kept as it is unless it is empty.
pub open spec fn lines_acc(s: Seq<char>, cur: Seq<char>) -> Seq<Seq<char>>
    decreases s.len(),
{
    if s.len() == 0 {
        if cur.len() == 0 {
            Seq::empty()
        } else {
            seq![cur]
        }
    } else if s[0] == '\n' {
        seq![strip_cr(cur)] + lines_acc(s.skip(1), Seq::empty())
    } else {
        lines_acc(s.skip(1), cur.push(s[0]))
    }
}

/// The lines of `s`, as `str::lines` gives them.
pub open spec fn lines(s: Seq<char>) -> Seq<Seq<char>> {
    lines_acc(s, Seq::empty())
}

/// The lines of `s`.
pub fn split_lines(s: &str) -> (res: Vec<String>)
    ensures
        strings_view(res@) == lines(s@),
{
    let chars = str_chars(s);
    let n = chars.len();
    let mut out: Vec<String> = Vec::new();
    let mut start: usize = 0;
    let mut i: usize = 0;
    assert(chars@.skip(0) =~= chars@);
    assert(chars@.subrange(0, 0) =~= Seq::<char>::empty());
    assert(strings_view(out@) =~= Seq::<Seq<char>>::empty());
    while i < n
        invariant
            chars@ == s@,
            n == chars.len(),
            start <= i <= n,
            lines(s@) == strings_view(out@) + lines_acc(chars@.skip(i as int), chars@.subrange(start as int, i as int)),
        decreases n - i,
    {
        let ghost rest = chars@.skip(i as int);
        assert(rest.skip(1) =~= chars@.skip(i + 1));
        if chars[i] == '\n' {
            let mut end = i;
            if end > start && chars[end - 1] == '\r' {
                end -= 1;
            }
            let line = string_of_range(&chars, start, end);
            assert(line@ =~= strip_cr(chars@.subrange(start as int, i as int)));
            let ghost before = out@;
            out.push(line);
            assert(strings_view(out@) =~= strings_view(before) + seq![line@]);
            start = i + 1;
            i += 1;
            assert(chars@.subrange(start as int, i as int) =~= Seq::<char>::empty());
        } else {
            assert(chars@.subrange(start as int, i as int).push(chars@[i as int]) =~= chars@.subrange(
                start as int,
                i + 1,
            ));
            i += 1;
        }
    }
    if start < n {
        let line = string_of_range(&chars, start, n);
        let ghost before = out@;
        out.push(line);
        assert(strings_view(out@) =~= strings_view(before) + seq![line@]);
    }
    out
}

/// `s` without leading and trailing white space.
pub fn trim_str(s: &str) -> (res: String)
    ensures
        res@ == trim(s@),
{
    let chars = str_chars(s);
    let n = chars.len();
    let mut start: usize = 0;
    assert(chars@.skip(0) =~= chars@);
    while start < n && white_space(chars[start])
        invariant
            chars@ == s@,
            n == chars.len(),
            start <= n,
            trim_start(s@) == trim_start(chars@.skip(start as int)),
        decreases n - start,
    {
        assert(chars@.skip(start as int).skip(1) =~= chars@.skip(start + 1));
        start += 1;
    }
    assert(trim_start(s@) == chars@.skip(start as int));
    let mut end: usize = n;
    assert(chars@.skip(start as int) =~= chars@.subrange(start as int, n as int));
    while end > start && white_space(chars[end - 1])
        invariant
            chars@ == s@,
            n == chars.len(),
            start <= end <= n,
            trim(s@) == trim_end(chars@.subrange(start as int, end as int)),
        decreases end - start,
    {
        assert(chars@.subrange(start as int, end as int).drop_last() =~= chars@.subrange(
            start as int,
            end - 1,
        ));
        end -= 1;
    }
    string_of_range(&chars, start, end)
}


/// `x` padded with spaces to `width` characters.
pub open spec fn pad(x: Seq<char>, width: int) -> Seq<char> {
    if x.len() < width {
        x + Seq::new((width - x.len()) as nat, |k: int| ' ')
    } else {
        x
    }
}

/// The summary line of a changed line.
pub open spec fn changed_line(before: Seq<char>, after: Seq<char>) -> Seq<char> {
    "  "@ + pad(before, CHANGE_COLUMN as int) + " → "@ + after
}

/// The summary line of a removed line.
pub open spec fn removed_line(before: Seq<char>) -> Seq<char> {
    "  - "@ + before
}

/// The summary line of an added line.
pub open spec fn added_line(after: Seq<char>) -> Seq<char> {
    "  + "@ + after
}

/// The number of leading lines on which `b` and `a` agree, counting from `i`.
pub open spec fn common_prefix_from(b: Seq<Seq<char>>, a: Seq<Seq<char>>, i: int) -> int
    decreases b.len() - i,
{
    if 0 <= i < b.len() && i < a.len() && b[i] == a[i] {
        common_prefix_from(b, a, i + 1)
    } else {
        i
    }
}

/// The number of trailing lines on which `b` and `a` agree, counting from `j`.
pub open spec fn common_suffix_from(b: Seq<Seq<char>>, a: Seq<Seq<char>>, j: int) -> int
    decreases b.len() - j,
{
    if 0 <= j < b.len() && j < a.len() && b[b.len() - 1 - j] == a[a.len() - 1 - j] {
        common_suffix_from(b, a, j + 1)
    } else {
        j
    }
}

/// The summary entry for position `k` of the differing lines: both lines
/// present and different once trimmed, or only one of them present.
pub open spec fn change_entry(b: Seq<Seq<char>>, a: Seq<Seq<char>>, k: int) -> Seq<Seq<char>> {
    if k < b.len() && k < a.len() {
        if trim(b[k]) != trim(a[k]) {
            seq![changed_line(trim(b[k]), trim(a[k]))]
        } else {
            Seq::empty()
        }
    } else if k < b.len() {
        seq![removed_line(trim(b[k]))]
    } else if k < a.len() {
        seq![added_line(trim(a[k]))]
    } else {
        Seq::empty()
    }
}

/// The summary entries for the first `n` positions.
pub open spec fn change_entries(b: Seq<Seq<char>>, a: Seq<Seq<char>>, n: nat) -> Seq<Seq<char>>
    decreases n,
{
    if n == 0 {
        Seq::empty()
    } else {
        change_entries(b, a, (n - 1) as nat) + change_entry(b, a, n - 1)
    }
}

/// The line-level summary of the change from `before` to `after`: the
/// lines that differ, once the common leading and trailing lines are left
/// out, paired position by position.
pub open spec fn change_summary(before: Seq<char>, after: Seq<char>) -> Seq<Seq<char>> {
    let b = lines(before);
    let a = lines(after);
    let p = common_prefix_from(b, a, 0);
    let s = common_suffix_from(b.skip(p), a.skip(p), 0);
    let bc = b.subrange(p, b.len() - s);
    let ac = a.subrange(p, a.len() - s);
    let n = if bc.len() >= ac.len() { bc.len() } else { ac.len() };
    let entries = change_entries(bc, ac, n);
    if entries.len() == 0 {
        seq!["  (formatting changes only)"@]
    } else {
        entries
    }
}

proof fn lemma_common_prefix_bounds(b: Seq<Seq<char>>, a: Seq<Seq<char>>, i: int)
    requires
        0 <= i <= b.len(),
        i <= a.len(),
    ensures
        i <= common_prefix_from(b, a, i) <= b.len(),
        common_prefix_from(b, a, i) <= a.len(),
    decreases b.len() - i,
{
    if i < b.len() && i < a.len() && b[i] == a[i] {
        lemma_common_prefix_bounds(b, a, i + 1);
    }
}

proof fn lemma_common_suffix_bounds(b: Seq<Seq<char>>, a: Seq<Seq<char>>, j: int)
    requires
        0 <= j <= b.len(),
        j <= a.len(),
    ensures
        j <= common_suffix_from(b, a, j) <= b.len(),
        common_suffix_from(b, a, j) <= a.len(),
    decreases b.len() - j,
{
    if j < b.len() && j < a.len() && b[b.len() - 1 - j] == a[a.len() - 1 - j] {
        lemma_common_suffix_bounds(b, a, j + 1);
    }
}

/// The summary line of a changed line.
fn format_changed(before: &String, after: &String) -> (res: String)
    ensures
        res@ == changed_line(before@, after@),
{
    let mut res = String::from_str("  ");
    res.append(before.as_str());
    let chars = str_chars(before.as_str());
    let mut k = chars.len();
    while k < CHANGE_COLUMN
        invariant
            chars@ == before@,
            chars.len() <= k <= CHANGE_COLUMN || k == chars.len(),
            res@ == "  "@ + before@ + Seq::new((k - chars.len()) as nat, |x: int| ' '),
        decreases CHANGE_COLUMN - k,
    {
        string_push(&mut res, ' ');
        assert(Seq::new((k - chars.len()) as nat, |x: int| ' ').push(' ') =~= Seq::new(
            (k + 1 - chars.len()) as nat,
            |x: int| ' ',
        ));
        k += 1;
    }
    assert(pad(before@, CHANGE_COLUMN as int) =~= before@ + Seq::new((k - chars.len()) as nat, |x: int| ' '));
    res.append(" → ");
    res.append(after.as_str());
    res
}

/// The summary line of a removed line.
fn format_removed(before: &String) -> (res: String)
    ensures
        res@ == removed_line(before@),
{
    let mut res = String::from_str("  - ");
    res.append(before.as_str());
    res
}

/// The summary line of an added line.
fn format_added(after: &String) -> (res: String)
    ensures
        res@ == added_line(after@),
{
    let mut res = String::from_str("  + ");
    res.append(after.as_str());
    res
}

/// The line-level summary of the change from `before` to `after`.
pub fn summarize_changes(before: &str, after: &str) -> (res: Vec<String>)
    ensures
        strings_view(res@) == change_summary(before@, after@),
{
    let before_lines = split_lines(before);
    let after_lines = split_lines(after);
    let ghost b = lines(before@);
    let ghost a = lines(after@);
    let nb = before_lines.len();
    let na = after_lines.len();
    let mut p: usize = 0;
    while p < nb && p < na && before_lines[p] == after_lines[p]
        invariant
            b == strings_view(before_lines@),
            a == strings_view(after_lines@),
            nb == before_lines.len(),
            na == after_lines.len(),
            p <= nb,
            p <= na,
            common_prefix_from(b, a, 0) == common_prefix_from(b, a, p as int),
        decreases nb - p,
    {
        assert(b[p as int] == a[p as int]);
        p += 1;
    }
    assert(common_prefix_from(b, a, p as int) == p);
    let ghost bs = b.skip(p as int);
    let ghost as_ = a.skip(p as int);
    let mut s: usize = 0;
    while s < nb - p && s < na - p && before_lines[nb - 1 - s] == after_lines[na - 1 - s]
        invariant
            b == strings_view(before_lines@),
            a == strings_view(after_lines@),
            nb == before_lines.len(),
            na == after_lines.len(),
            p <= nb,
            p <= na,
            bs == b.skip(p as int),
            as_ == a.skip(p as int),
            s <= nb - p,
            s <= na - p,
            common_suffix_from(bs, as_, 0) == common_suffix_from(bs, as_, s as int),
        decreases nb - p - s,
    {
        assert(bs[bs.len() - 1 - s] == b[nb - 1 - s]);
        assert(as_[as_.len() - 1 - s] == a[na - 1 - s]);
        s += 1;
    }
    assert(common_suffix_from(bs, as_, s as int) == s) by {
        if s < nb - p && s < na - p {
            assert(bs[bs.len() - 1 - s] == b[nb - 1 - s]);
            assert(as_[as_.len() - 1 - s] == a[na - 1 - s]);
        }
    }
    let ghost bc = b.subrange(p as int, nb - s);
    let ghost ac = a.subrange(p as int, na - s);
    let lb = nb - s - p;
    let la = na - s - p;
    let n = if lb >= la { lb } else { la };
    let mut changes: Vec<String> = Vec::new();
    for k in 0..n
        invariant
            b == strings_view(before_lines@),
            a == strings_view(after_lines@),
            nb == before_lines.len(),
            na == after_lines.len(),
            p + s <= nb,
            p + s <= na,
            lb == nb - s - p,
            la == na - s - p,
            n == (if lb >= la { lb } else { la }),
            bc == b.subrange(p as int, nb - s),
            ac == a.subrange(p as int, na - s),
            strings_view(changes@) == change_entries(bc, ac, k as nat),
    {
        let ghost before_changes = changes@;
        if k < lb && k < la {
            let bt = trim_str(before_lines[p + k].as_str());
            let at = trim_str(after_lines[p + k].as_str());
            if bt != at {
                changes.push(format_changed(&bt, &at));
            }
        } else if k < lb {
            let bt = trim_str(before_lines[p + k].as_str());
            changes.push(format_removed(&bt));
        } else {
            let at = trim_str(after_lines[p + k].as_str());
            changes.push(format_added(&at));
        }
        proof {
            if k < lb {
                assert(bc[k as int] == b[p + k]);
            }
            if k < la {
                assert(ac[k as int] == a[p + k]);
            }
            assert(strings_view(changes@) =~= strings_view(before_changes) + change_entry(bc, ac, k as int));
        }
    }
    if changes.len() == 0 {
        changes.push(String::from_str("  (formatting changes only)"));
    }
    changes
}


proof fn lemma_common_prefix_same(b: Seq<Seq<char>>, i: int)
    requires
        0 <= i <= b.len(),
    ensures
        common_prefix_from(b, b, i) == b.len(),
    decreases b.len() - i,
{
    if i < b.len() {
        lemma_common_prefix_same(b, i + 1);
    }
}

/// A text compared with itself has no changed line: its summary is the one
/// line that says so.
pub proof fn lemma_summary_of_same_text(s: Seq<char>)
    ensures
        change_summary(s, s) == seq!["  (formatting changes only)"@],
{
    let b = lines(s);
    lemma_common_prefix_same(b, 0);
    let p = b.len() as int;
    assert(b.skip(p).len() == 0);
    assert(common_suffix_from(b.skip(p), b.skip(p), 0) == 0);
    assert(b.subrange(p, b.len() - 0).len() == 0);
    assert(change_entries(b.subrange(p, b.len() - 0), b.subrange(p, b.len() - 0), 0) =~= Seq::<Seq<char>>::empty());
}

/// When the first `n` paired lines all differ once trimmed, the entries are
/// one changed line per position, each about the two lines at that
/// position, in order.
pub proof fn lemma_changed_lines_in_order(b: Seq<Seq<char>>, a: Seq<Seq<char>>, n: nat)
    requires
        n <= b.len(),
        n <= a.len(),
        forall|k: int| 0 <= k < n ==> trim(#[trigger] b[k]) != trim(a[k]),
    ensures
        change_entries(b, a, n) == Seq::new(n, |k: int| changed_line(trim(b[k]), trim(a[k]))),
    decreases n,
{
    if n > 0 {
        lemma_changed_lines_in_order(b, a, (n - 1) as nat);
        let k = n - 1;
        assert(trim(b[k]) != trim(a[k]));
        assert(change_entries(b, a, n) =~= Seq::new(n, |k: int| changed_line(trim(b[k]), trim(a[k]))));
    }
}

/// Two texts of the same number of lines, every line changed (also once
/// trimmed): the summary is one changed line per line, in order, each
/// pairing the line of `before` with the line of `after` at its position.
pub proof fn lemma_summary_of_changed_lines(before: Seq<char>, after: Seq<char>)
    requires
        lines(before).len() > 0,
        lines(before).len() == lines(after).len(),
        forall|k: int| 0 <= k < lines(before).len() ==> trim(#[trigger] lines(before)[k]) != trim(lines(after)[k]),
    ensures
        change_summary(before, after) == Seq::new(
            lines(before).len(),
            |k: int| changed_line(trim(lines(before)[k]), trim(lines(after)[k])),
        ),
{
    let b = lines(before);
    let a = lines(after);
    let m = b.len();
    assert(trim(b[0]) != trim(a[0]));
    assert(common_prefix_from(b, a, 0) == 0);
    assert(b.skip(0) =~= b);
    assert(a.skip(0) =~= a);
    assert(trim(b[m - 1]) != trim(a[m - 1]));
    assert(common_suffix_from(b, a, 0) == 0);
    assert(b.subrange(0, m - 0) =~= b);
    assert(a.subrange(0, a.len() - 0) =~= a);
    lemma_changed_lines_in_order(b, a, m);
    assert(change_entries(b, a, m).len() == m);
}

} // verus!
