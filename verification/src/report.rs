//! The text table of per-file dependency figures, followed by the cycle summary.
//!
//! Widths are counted in characters; a value wider than its column is written whole.
use vstd::prelude::*;
use vstd::string::*;

use crate::model::{classify, coupling, coupling_name, coupling_text, strings_view, DepEntry};
use crate::text::{chars_of, decimal, push_all, push_char, push_decimal};

verus! {

/// `n` spaces.
pub open spec fn spaces(n: nat) -> Seq<char> {
    Seq::new(n, |i: int| ' ')
}

/// `s` followed by spaces up to width `w`.
pub open spec fn pad_right(s: Seq<char>, w: nat) -> Seq<char> {
    if s.len() < w {
        s + spaces((w - s.len()) as nat)
    } else {
        s
    }
}

/// `s` preceded by spaces up to width `w`.
pub open spec fn pad_left(s: Seq<char>, w: nat) -> Seq<char> {
    if s.len() < w {
        spaces((w - s.len()) as nat) + s
    } else {
        s
    }
}

/// A horizontal rule of `n` box-drawing characters.
pub open spec fn rule(n: nat) -> Seq<char> {
    Seq::new(n, |i: int| '─')
}

/// The width of the path column: the longest path, and at least `min`.
pub open spec fn path_width(entries: Seq<DepEntry>, min: nat) -> nat
    decreases entries.len(),
{
    if entries.len() == 0 {
        min
    } else {
        let w = path_width(entries.drop_last(), min);
        if entries.last().path@.len() > w {
            entries.last().path@.len()
        } else {
            w
        }
    }
}

/// Padding keeps the text and fills up to the width with spaces: on the right for
/// `pad_right`, on the left for `pad_left`; text at least as wide is left as it is.
pub proof fn lemma_padding(s: Seq<char>, w: nat)
    ensures
        pad_right(s, w).len() == if s.len() < w { w } else { s.len() },
        pad_left(s, w).len() == if s.len() < w { w } else { s.len() },
        pad_right(s, w).take(s.len() as int) == s,
        pad_left(s, w).skip(pad_left(s, w).len() - s.len()) == s,
        forall|i: int| s.len() <= i < pad_right(s, w).len() ==> #[trigger] pad_right(s, w)[i] == ' ',
        forall|i: int| 0 <= i < pad_left(s, w).len() - s.len() ==> #[trigger] pad_left(s, w)[i] == ' ',
{
    assert(pad_right(s, w).take(s.len() as int) =~= s);
    assert(pad_left(s, w).skip(pad_left(s, w).len() - s.len()) =~= s);
}

/// The path column is as wide as the longest path, and at least `min`.
pub proof fn lemma_path_width(entries: Seq<DepEntry>, min: nat)
    ensures
        path_width(entries, min) >= min,
        forall|i: int| 0 <= i < entries.len() ==> #[trigger] entries[i].path@.len() <= path_width(entries, min),
        path_width(entries, min) == min || exists|i: int|
            0 <= i < entries.len() && path_width(entries, min) == #[trigger] entries[i].path@.len(),
    decreases entries.len(),
{
    if entries.len() > 0 {
        let t = entries.drop_last();
        lemma_path_width(t, min);
        assert forall|i: int| 0 <= i < entries.len() implies #[trigger] entries[i].path@.len() <= path_width(
            entries,
            min,
        ) by {
            if i < t.len() {
                assert(t[i] == entries[i]);
            }
        }
        if path_width(entries, min) != min {
            if entries.last().path@.len() > path_width(t, min) {
                assert(path_width(entries, min) == entries[entries.len() - 1].path@.len());
            } else {
                let i = choose|i: int| 0 <= i < t.len() && path_width(t, min) == #[trigger] t[i].path@.len();
                assert(t[i] == entries[i]);
            }
        }
    }
}

/// The columns after the path column together with the spaces around them.
pub open spec fn fixed_width() -> nat {
    47
}

/// A table row: the path left-aligned, the other columns right-aligned.
pub open spec fn table_row(
    path: Seq<char>,
    language: Seq<char>,
    fan_in: Seq<char>,
    fan_out: Seq<char>,
    cycle: Seq<char>,
    coupling: Seq<char>,
    w: nat,
) -> Seq<char> {
    " "@ + pad_right(path, w) + "  "@ + pad_left(language, 10) + " "@ + pad_left(fan_in, 6) + " "@
        + pad_left(fan_out, 7) + " "@ + pad_left(cycle, 5) + " "@ + pad_left(coupling, 11)
}

/// The column titles.
pub open spec fn header_row(w: nat) -> Seq<char> {
    table_row("File"@, "Language"@, "Fan-In"@, "Fan-Out"@, "Cycle"@, "Coupling"@, w)
}

/// The row of one entry.
pub open spec fn entry_row(e: DepEntry, w: nat) -> Seq<char> {
    table_row(
        e.path@,
        e.language@,
        decimal(e.fan_in as nat),
        decimal(e.fan_out as nat),
        if e.in_cycle {
            "yes"@
        } else {
            "no"@
        },
        coupling_text(coupling(e)),
        w,
    )
}

/// The title line of the `i`-th cycle (counted from zero), which has `n` files.
pub open spec fn cycle_title(i: nat, n: nat) -> Seq<char> {
    "  Cycle "@ + decimal(i + 1) + " ("@ + decimal(n) + " files):"@
}

/// The lines of the cycles of `cycles`: for each, its title and then its files, indented.
pub open spec fn cycle_lines(cycles: Seq<Seq<Seq<char>>>) -> Seq<Seq<char>>
    decreases cycles.len(),
{
    if cycles.len() == 0 {
        Seq::empty()
    } else {
        let c = cycles.last();
        cycle_lines(cycles.drop_last()) + seq![
            cycle_title((cycles.len() - 1) as nat, c.len()),
        ] + Seq::new(c.len(), |k: int| "    "@ + c[k])
    }
}

/// The cycle summary.
pub open spec fn cycles_section(cycles: Seq<Seq<Seq<char>>>) -> Seq<Seq<char>> {
    if cycles.len() == 0 {
        seq!["No dependency cycles detected."@]
    } else {
        seq![Seq::<char>::empty(), "Dependency cycles: "@ + decimal(cycles.len())] + cycle_lines(cycles)
    }
}

/// The report: a titled table of `entries` between rules, then the summary of `cycles`;
/// a single line when there is no entry.
pub open spec fn report_text(entries: Seq<DepEntry>, cycles: Seq<Seq<Seq<char>>>) -> Seq<Seq<char>> {
    if entries.len() == 0 {
        seq!["No source files found for dependency analysis."@]
    } else {
        let w = path_width(entries, 4);
        let sep = rule(if w + fixed_width() > 72 { w + fixed_width() } else { 72 });
        seq!["Dependency Graph"@, sep, header_row(w), sep] + Seq::new(
            entries.len(),
            |i: int| entry_row(entries[i], w),
        ) + seq![sep] + cycles_section(cycles)
    }
}

/// The number of summary lines that the cycles before the `i`-th take: a title and
/// one line per file each.
pub open spec fn lines_before(cycles: Seq<Seq<Seq<char>>>, i: int) -> int
    decreases i,
{
    if i <= 0 {
        0
    } else {
        lines_before(cycles, i - 1) + 1 + cycles[i - 1].len()
    }
}

proof fn lemma_lines_before_prefix(a: Seq<Seq<Seq<char>>>, b: Seq<Seq<Seq<char>>>, i: int)
    requires
        0 <= i <= a.len(),
        i <= b.len(),
        forall|k: int| 0 <= k < i ==> a[k] == b[k],
    ensures
        lines_before(a, i) == lines_before(b, i),
    decreases i,
{
    if i > 0 {
        lemma_lines_before_prefix(a, b, i - 1);
    }
}

proof fn lemma_lines_before_mono(c: Seq<Seq<Seq<char>>>, i: int, j: int)
    requires
        0 <= i <= j <= c.len(),
    ensures
        lines_before(c, i) <= lines_before(c, j),
    decreases j - i,
{
    if i < j {
        lemma_lines_before_mono(c, i, j - 1);
    }
}

proof fn lemma_cycle_lines_at(c: Seq<Seq<Seq<char>>>)
    ensures
        cycle_lines(c).len() == lines_before(c, c.len() as int),
        forall|i: int|
            0 <= i < c.len() ==> cycle_lines(c)[#[trigger] lines_before(c, i)] == "  Cycle "@ + decimal(
                (i + 1) as nat,
            ) + " ("@ + decimal(c[i].len()) + " files):"@,
        forall|i: int, j: int|
            #![trigger lines_before(c, i), c[i][j]]
            0 <= i < c.len() && 0 <= j < c[i].len() ==> cycle_lines(c)[lines_before(c, i) + 1 + j]
                == "    "@ + c[i][j],
    decreases c.len(),
{
    if c.len() > 0 {
        let p = c.drop_last();
        let n = c.len() - 1;
        lemma_cycle_lines_at(p);
        lemma_lines_before_prefix(c, p, n);
        let left = cycle_lines(p);
        let last = c.last();
        let right = seq![cycle_title(n as nat, last.len())] + Seq::new(last.len(), |k: int| "    "@ + last[k]);
        assert(cycle_lines(c) == left + right);
        assert forall|i: int| 0 <= i < c.len() implies cycle_lines(c)[#[trigger] lines_before(c, i)] == "  Cycle "@
            + decimal((i + 1) as nat) + " ("@ + decimal(c[i].len()) + " files):"@ by {
            lemma_lines_before_mono(c, 0, i);
            if i < n {
                lemma_lines_before_prefix(c, p, i);
                lemma_lines_before_mono(p, i + 1, n);
                assert(lines_before(p, i) < left.len());
                assert(p[i] == c[i]);
            } else {
                assert(lines_before(c, i) == left.len());
            }
        }
        assert forall|i: int, j: int|
            #![trigger lines_before(c, i), c[i][j]]
            0 <= i < c.len() && 0 <= j < c[i].len() implies cycle_lines(c)[lines_before(c, i) + 1 + j] == "    "@
                + c[i][j] by {
            lemma_lines_before_mono(c, 0, i);
            if i < n {
                lemma_lines_before_prefix(c, p, i);
                lemma_lines_before_mono(p, i + 1, n);
                assert(p[i] == c[i]);
                assert(lines_before(p, i + 1) == lines_before(p, i) + 1 + p[i].len());
                assert(p[i][j] == c[i][j]);
            } else {
                assert(lines_before(c, i) == left.len());
                assert(right[1 + j] == "    "@ + last[j]);
            }
        }
    }
}

/// The cycle summary at the end of a report of at least one entry lists every cycle:
/// an empty line, `Dependency cycles: N`, then for each cycle, in order, the line
/// `  Cycle I (L files):` followed by each of its files indented by four spaces; with
/// no cycle, the single line `No dependency cycles detected.`. The summary starts after
/// the five lines of title, rules and header and the one line per entry.
pub proof fn lemma_report_cycle_summary(entries: Seq<DepEntry>, cycles: Seq<Seq<Seq<char>>>)
    requires
        entries.len() > 0,
    ensures
        ({
            let text = report_text(entries, cycles);
            let base = entries.len() + 5int;
            if cycles.len() == 0 {
                &&& text.len() == base + 1
                &&& text[base] == "No dependency cycles detected."@
            } else {
                &&& text.len() == base + 2 + lines_before(cycles, cycles.len() as int)
                &&& text[base] == Seq::<char>::empty()
                &&& text[base + 1] == "Dependency cycles: "@ + decimal(cycles.len())
                &&& forall|i: int|
                    0 <= i < cycles.len() ==> text[base + 2 + #[trigger] lines_before(cycles, i)]
                        == "  Cycle "@ + decimal((i + 1) as nat) + " ("@ + decimal(cycles[i].len())
                        + " files):"@
                &&& forall|i: int, j: int|
                    #![trigger lines_before(cycles, i), cycles[i][j]]
                    0 <= i < cycles.len() && 0 <= j < cycles[i].len() ==> text[base + 2 + lines_before(
                        cycles,
                        i,
                    ) + 1 + j] == "    "@ + cycles[i][j]
            }
        }),
{
    let w = path_width(entries, 4);
    let sep = rule(if w + fixed_width() > 72 { w + fixed_width() } else { 72 });
    let table = seq!["Dependency Graph"@, sep, header_row(w), sep] + Seq::new(
        entries.len(),
        |i: int| entry_row(entries[i], w),
    ) + seq![sep];
    assert(table.len() == entries.len() + 5);
    assert(report_text(entries, cycles) == table + cycles_section(cycles));
    if cycles.len() > 0 {
        lemma_cycle_lines_at(cycles);
        let head = seq![Seq::<char>::empty(), "Dependency cycles: "@ + decimal(cycles.len())];
        assert(cycles_section(cycles) == head + cycle_lines(cycles));
        let text = report_text(entries, cycles);
        let base = entries.len() + 5int;
        assert forall|i: int| 0 <= i < cycles.len() implies text[base + 2 + #[trigger] lines_before(cycles, i)]
            == "  Cycle "@ + decimal((i + 1) as nat) + " ("@ + decimal(cycles[i].len()) + " files):"@ by {
            lemma_lines_before_mono(cycles, i + 1, cycles.len() as int);
            lemma_lines_before_mono(cycles, 0, i);
            assert(cycle_lines(cycles)[lines_before(cycles, i)] == "  Cycle "@ + decimal((i + 1) as nat) + " ("@
                + decimal(cycles[i].len()) + " files):"@);
        }
        assert forall|i: int, j: int|
            #![trigger lines_before(cycles, i), cycles[i][j]]
            0 <= i < cycles.len() && 0 <= j < cycles[i].len() implies text[base + 2 + lines_before(cycles, i) + 1
                + j] == "    "@ + cycles[i][j] by {
            lemma_lines_before_mono(cycles, i + 1, cycles.len() as int);
            lemma_lines_before_mono(cycles, 0, i);
            assert(cycle_lines(cycles)[lines_before(cycles, i) + 1 + j] == "    "@ + cycles[i][j]);
        }
    }
}

/// The character views of the cycles of a result.
pub open spec fn cycle_paths(cycles: Seq<Vec<String>>) -> Seq<Seq<Seq<char>>> {
    cycles.map_values(|c: Vec<String>| strings_view(c@))
}

proof fn lemma_strings_view_push(s: Seq<String>, x: String)
    ensures
        strings_view(s.push(x)) == strings_view(s).push(x@),
{
    assert(strings_view(s.push(x)) =~= strings_view(s).push(x@));
}

fn push_repeat(out: &mut String, c: char, n: usize)
    ensures
        final(out)@ == old(out)@ + Seq::new(n as nat, |i: int| c),
{
    let mut i: usize = 0;
    while i < n
        invariant
            i <= n,
            out@ == old(out)@ + Seq::new(i as nat, |k: int| c),
        decreases n - i,
    {
        push_char(out, c);
        i += 1;
        assert(out@ =~= old(out)@ + Seq::new(i as nat, |k: int| c));
    }
}

fn push_pad_right(out: &mut String, v: &Vec<char>, w: usize)
    ensures
        final(out)@ == old(out)@ + pad_right(v@, w as nat),
{
    push_all(out, v);
    if v.len() < w {
        push_repeat(out, ' ', w - v.len());
        assert(out@ =~= old(out)@ + pad_right(v@, w as nat));
    }
}

fn push_pad_left(out: &mut String, v: &Vec<char>, w: usize)
    ensures
        final(out)@ == old(out)@ + pad_left(v@, w as nat),
{
    if v.len() < w {
        push_repeat(out, ' ', w - v.len());
    }
    push_all(out, v);
    assert(out@ =~= old(out)@ + pad_left(v@, w as nat));
}

fn decimal_chars(n: usize) -> (v: Vec<char>)
    ensures
        v@ == decimal(n as nat),
{
    let mut s = String::new();
    push_decimal(&mut s, n);
    assert(s@ =~= decimal(n as nat));
    chars_of(s.as_str())
}

fn row(
    path: &Vec<char>,
    language: &Vec<char>,
    fan_in: &Vec<char>,
    fan_out: &Vec<char>,
    cycle: &Vec<char>,
    coupling: &Vec<char>,
    w: usize,
) -> (r: String)
    ensures
        r@ == table_row(path@, language@, fan_in@, fan_out@, cycle@, coupling@, w as nat),
{
    let mut out = String::new();
    out.append(" ");
    push_pad_right(&mut out, path, w);
    out.append("  ");
    push_pad_left(&mut out, language, 10);
    out.append(" ");
    push_pad_left(&mut out, fan_in, 6);
    out.append(" ");
    push_pad_left(&mut out, fan_out, 7);
    out.append(" ");
    push_pad_left(&mut out, cycle, 5);
    out.append(" ");
    push_pad_left(&mut out, coupling, 11);
    assert(out@ =~= table_row(path@, language@, fan_in@, fan_out@, cycle@, coupling@, w as nat));
    out
}

fn from_chars(v: &Vec<char>) -> (s: String)
    ensures
        s@ == v@,
{
    let mut s = String::new();
    push_all(&mut s, v);
    assert(s@ =~= v@);
    s
}

/// The lines of the cycle summary.
fn cycle_summary(cycles: &Vec<Vec<String>>) -> (r: Vec<String>)
    ensures
        strings_view(r@) == cycles_section(cycle_paths(cycles@)),
{
    let ghost cv = cycle_paths(cycles@);
    let mut r: Vec<String> = Vec::new();
    if cycles.len() == 0 {
        r.push(String::from_str("No dependency cycles detected."));
        assert(strings_view(r@) =~= cycles_section(cv));
        return r;
    }
    r.push(String::new());
    let mut count = String::from_str("Dependency cycles: ");
    push_decimal(&mut count, cycles.len());
    r.push(count);
    assert(strings_view(r@) =~= seq![Seq::<char>::empty(), "Dependency cycles: "@ + decimal(cycles.len() as nat)]);
    let ghost head = strings_view(r@);
    let mut i: usize = 0;
    assert(cv.take(0) =~= Seq::<Seq<Seq<char>>>::empty());
    while i < cycles.len()
        invariant
            i <= cycles.len(),
            cv == cycle_paths(cycles@),
            strings_view(r@) == head + cycle_lines(cv.take(i as int)),
        decreases cycles.len() - i,
    {
        let c = &cycles[i];
        let ghost before = strings_view(r@);
        let mut title = String::from_str("  Cycle ");
        push_decimal(&mut title, i + 1);
        title.append(" (");
        push_decimal(&mut title, c.len());
        title.append(" files):");
        r.push(title);
        let mut k: usize = 0;
        while k < c.len()
            invariant
                k <= c.len(),
                *c == cycles@[i as int],
                strings_view(r@) == before + seq![cycle_title(i as nat, c.len() as nat)] + Seq::new(
                    k as nat,
                    |j: int| "    "@ + c@[j]@,
                ),
            decreases c.len() - k,
        {
            let mut line = String::from_str("    ");
            line.append(c[k].as_str());
            let ghost prev = r@;
            r.push(line);
            proof {
                lemma_strings_view_push(prev, line);
            }
            k += 1;
            assert(strings_view(r@) =~= before + seq![cycle_title(i as nat, c.len() as nat)]
                + Seq::new(k as nat, |j: int| "    "@ + c@[j]@));
        }
        proof {
            assert(cv.take(i + 1).drop_last() =~= cv.take(i as int));
            assert(cv.take(i + 1).last() == strings_view(c@));
            assert(Seq::new(c.len() as nat, |j: int| "    "@ + c@[j]@) =~= Seq::new(
                strings_view(c@).len(),
                |j: int| "    "@ + strings_view(c@)[j],
            ));
        }
        i += 1;
        assert(strings_view(r@) =~= head + cycle_lines(cv.take(i as int)));
    }
    assert(cv.take(cycles.len() as int) =~= cv);
    r
}

/// The lines of the dependency report for the listed `entries` and the `cycles` of the
/// analysis.
pub fn report_lines(entries: &Vec<DepEntry>, cycles: &Vec<Vec<String>>) -> (r: Vec<String>)
    requires
        forall|i: int| 0 <= i < entries@.len() ==> #[trigger] entries@[i].path@.len() + fixed_width() <= usize::MAX,
    ensures
        strings_view(r@) == report_text(entries@, cycle_paths(cycles@)),
{
    let mut r: Vec<String> = Vec::new();
    if entries.len() == 0 {
        r.push(String::from_str("No source files found for dependency analysis."));
        assert(strings_view(r@) =~= report_text(entries@, cycle_paths(cycles@)));
        return r;
    }
    let mut paths: Vec<Vec<char>> = Vec::new();
    let mut w: usize = 4;
    let mut i: usize = 0;
    assert(entries@.take(0) =~= Seq::<DepEntry>::empty());
    while i < entries.len()
        invariant
            i <= entries.len(),
            paths.len() == i,
            forall|k: int| 0 <= k < i ==> #[trigger] paths@[k]@ == entries@[k].path@,
            w == path_width(entries@.take(i as int), 4),
            w + fixed_width() <= usize::MAX,
            forall|k: int| 0 <= k < entries@.len() ==> #[trigger] entries@[k].path@.len() + fixed_width() <= usize::MAX,
        decreases entries.len() - i,
    {
        let p = chars_of(entries[i].path.as_str());
        assert(entries@.take(i + 1).drop_last() =~= entries@.take(i as int));
        assert(entries@.take(i + 1).last() == entries@[i as int]);
        assert(entries@[i as int].path@.len() + fixed_width() <= usize::MAX);
        if p.len() > w {
            w = p.len();
        }
        paths.push(p);
        i += 1;
    }
    assert(entries@.take(entries.len() as int) =~= entries@);
    let total = if w + 47 > 72 { w + 47 } else { 72 };
    let mut sep = String::new();
    push_repeat(&mut sep, '─', total);
    let sep_chars = chars_of(sep.as_str());
    r.push(String::from_str("Dependency Graph"));
    r.push(from_chars(&sep_chars));
    r.push(row(&chars_of("File"), &chars_of("Language"), &chars_of("Fan-In"), &chars_of("Fan-Out"), &chars_of("Cycle"), &chars_of("Coupling"), w));
    r.push(from_chars(&sep_chars));
    let ghost head = strings_view(r@);
    let ghost sep_view = rule(total as nat);
    assert(sep_chars@ =~= sep_view);
    assert(head =~= seq!["Dependency Graph"@, sep_view, header_row(w as nat), sep_view]);
    let mut i: usize = 0;
    while i < entries.len()
        invariant
            i <= entries.len(),
            paths.len() == entries.len(),
            forall|k: int| 0 <= k < entries.len() ==> #[trigger] paths@[k]@ == entries@[k].path@,
            strings_view(r@) == head + Seq::new(i as nat, |k: int| entry_row(entries@[k], w as nat)),
        decreases entries.len() - i,
    {
        let e = &entries[i];
        let lang = chars_of(e.language.as_str());
        let fan_in = decimal_chars(e.fan_in);
        let fan_out = decimal_chars(e.fan_out);
        let cycle = if e.in_cycle { chars_of("yes") } else { chars_of("no") };
        let class = chars_of(coupling_name(classify(e)));
        let line = row(&paths[i], &lang, &fan_in, &fan_out, &cycle, &class, w);
        let ghost prev = r@;
        r.push(line);
        proof {
            lemma_strings_view_push(prev, line);
            assert(line@ == entry_row(entries@[i as int], w as nat));
        }
        i += 1;
        assert(strings_view(r@) =~= head + Seq::new(i as nat, |k: int| entry_row(entries@[k], w as nat)));
    }
    r.push(from_chars(&sep_chars));
    let summary = cycle_summary(cycles);
    let ghost body = strings_view(r@);
    let mut k: usize = 0;
    while k < summary.len()
        invariant
            k <= summary.len(),
            strings_view(r@) == body + strings_view(summary@).take(k as int),
        decreases summary.len() - k,
    {
        let line = from_chars(&chars_of(summary[k].as_str()));
        let ghost prev = r@;
        r.push(line);
        proof {
            lemma_strings_view_push(prev, line);
            assert(strings_view(summary@).take(k + 1) =~= strings_view(summary@).take(k as int).push(line@));
        }
        k += 1;
        assert(strings_view(r@) =~= body + strings_view(summary@).take(k as int));
    }
    assert(strings_view(summary@).take(summary.len() as int) =~= strings_view(summary@));
    assert(strings_view(r@) =~= report_text(entries@, cycle_paths(cycles@)));
    r
}

} // verus!
