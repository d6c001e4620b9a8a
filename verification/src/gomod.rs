//! The Go module path declared in a `go.mod` file, against which Go imports are
//! resolved to project files.
use vstd::prelude::*;
use vstd::string::*;

use crate::text::{chars_of, push_range};

verus! {

/// Whether `c` has the Unicode `White_Space` property (as `char::is_whitespace` tests).
pub open spec fn is_whitespace(c: char) -> bool {
    let u = c as u32;
    (0x9 <= u <= 0xd) || u == 0x20 || u == 0x85 || u == 0xa0 || u == 0x1680 || (0x2000 <= u
        <= 0x200a) || u == 0x2028 || u == 0x2029 || u == 0x202f || u == 0x205f || u == 0x3000
}

/// `s` without its leading whitespace.
pub open spec fn trim_start(s: Seq<char>) -> Seq<char>
    decreases s.len(),
{
    if s.len() > 0 && is_whitespace(s[0]) {
        trim_start(s.drop_first())
    } else {
        s
    }
}

/// `s` without its trailing whitespace.
pub open spec fn trim_end(s: Seq<char>) -> Seq<char>
    decreases s.len(),
{
    if s.len() > 0 && is_whitespace(s.last()) {
        trim_end(s.drop_last())
    } else {
        s
    }
}

/// `s` without its leading and trailing whitespace (as `str::trim` gives it).
pub open spec fn trim(s: Seq<char>) -> Seq<char> {
    trim_end(trim_start(s))
}

/// The number of characters of `s` before its first line feed (all of them if it has none).
pub open spec fn line_len(s: Seq<char>) -> nat
    decreases s.len(),
{
    if s.len() == 0 || s[0] == '\n' {
        0
    } else {
        1 + line_len(s.drop_first())
    }
}

/// The module path declared by `go.mod` text: the rest of the first line that starts
/// with `module `, without surrounding whitespace; `None` when no line does.
pub open spec fn declared_module(s: Seq<char>) -> Option<Seq<char>>
    decreases s.len(),
{
    let line = s.take(line_len(s) as int);
    if "module "@.is_prefix_of(line) {
        Some(trim(line.skip("module "@.len() as int)))
    } else if line_len(s) < s.len() {
        declared_module(s.skip(line_len(s) as int + 1))
    } else {
        None
    }
}

proof fn lemma_trim_start_clean(s: Seq<char>)
    ensures
        trim_start(s).len() > 0 ==> !is_whitespace(trim_start(s)[0]),
    decreases s.len(),
{
    if s.len() > 0 && is_whitespace(s[0]) {
        lemma_trim_start_clean(s.drop_first());
    }
}

proof fn lemma_trim_end_clean(s: Seq<char>)
    ensures
        trim_end(s).len() > 0 ==> !is_whitespace(trim_end(s).last()),
        trim_end(s).len() > 0 ==> trim_end(s)[0] == s[0],
    decreases s.len(),
{
    if s.len() > 0 && is_whitespace(s.last()) {
        lemma_trim_end_clean(s.drop_last());
    }
}

/// A declared module path never starts or ends with whitespace.
pub proof fn lemma_declared_module_trimmed(s: Seq<char>)
    ensures
        declared_module(s) matches Some(m) ==> (m.len() == 0 || (!is_whitespace(m[0])
            && !is_whitespace(m.last()))),
    decreases s.len(),
{
    let line = s.take(line_len(s) as int);
    if "module "@.is_prefix_of(line) {
        let rest = line.skip("module "@.len() as int);
        lemma_trim_start_clean(rest);
        lemma_trim_end_clean(trim_start(rest));
    } else if line_len(s) < s.len() {
        lemma_declared_module_trimmed(s.skip(line_len(s) as int + 1));
    }
}

/// Whether `c` is whitespace.
pub fn is_whitespace_char(c: char) -> (r: bool)
    ensures
        r == is_whitespace(c),
{
    let u = c as u32;
    (0x9 <= u && u <= 0xd) || u == 0x20 || u == 0x85 || u == 0xa0 || u == 0x1680 || (0x2000 <= u
        && u <= 0x200a) || u == 0x2028 || u == 0x2029 || u == 0x202f || u == 0x205f || u == 0x3000
}

proof fn lemma_trim_start_range(v: Seq<char>, from: int, mid: int, to: int)
    requires
        0 <= from <= mid <= to <= v.len(),
        forall|k: int| from <= k < mid ==> is_whitespace(#[trigger] v[k]),
        mid == to || !is_whitespace(v[mid]),
    ensures
        trim_start(v.subrange(from, to)) == v.subrange(mid, to),
    decreases mid - from,
{
    if from == mid {
    } else {
        assert(v.subrange(from, to).drop_first() =~= v.subrange(from + 1, to));
        assert(v.subrange(from, to)[0] == v[from]);
        lemma_trim_start_range(v, from + 1, mid, to);
    }
}

proof fn lemma_trim_end_range(v: Seq<char>, from: int, mid: int, to: int)
    requires
        0 <= from <= mid <= to <= v.len(),
        forall|k: int| mid <= k < to ==> is_whitespace(#[trigger] v[k]),
        mid == from || !is_whitespace(v[mid - 1]),
    ensures
        trim_end(v.subrange(from, to)) == v.subrange(from, mid),
    decreases to - mid,
{
    if to == mid {
    } else {
        assert(v.subrange(from, to).drop_last() =~= v.subrange(from, to - 1));
        assert(v.subrange(from, to).last() == v[to - 1]);
        lemma_trim_end_range(v, from, mid, to - 1);
    }
}

proof fn lemma_line_len(s: Seq<char>, n: int)
    requires
        0 <= n <= s.len(),
        forall|k: int| 0 <= k < n ==> #[trigger] s[k] != '\n',
        n == s.len() || s[n] == '\n',
    ensures
        line_len(s) == n,
    decreases n,
{
    if n > 0 {
        assert forall|k: int| 0 <= k < n - 1 implies #[trigger] s.drop_first()[k] != '\n' by {
            assert(s.drop_first()[k] == s[k + 1]);
        }
        lemma_line_len(s.drop_first(), n - 1);
    }
}

/// A first line `module M`, with `M` free of surrounding whitespace, declares `M`,
/// whatever follows it.
pub proof fn lemma_module_line_declares(m: Seq<char>, rest: Seq<char>)
    requires
        forall|k: int| 0 <= k < m.len() ==> #[trigger] m[k] != '\n',
        m.len() == 0 || (!is_whitespace(m[0]) && !is_whitespace(m.last())),
    ensures
        declared_module("module "@ + m + "\n"@ + rest) == Some(m),
        declared_module("module "@ + m) == Some(m),
{
    reveal_strlit("module ");
    reveal_strlit("\n");
    let head = "module "@ + m;
    assert(forall|k: int| 0 <= k < head.len() ==> #[trigger] head[k] != '\n') by {
        assert forall|k: int| 0 <= k < head.len() implies #[trigger] head[k] != '\n' by {
            if k >= 7 {
                assert(head[k] == m[k - 7]);
            }
        }
    }
    let s1 = head + "\n"@ + rest;
    assert forall|k: int| 0 <= k < head.len() implies #[trigger] s1[k] != '\n' by {
        assert(s1[k] == head[k]);
    }
    lemma_line_len(s1, head.len() as int);
    lemma_line_len(head, head.len() as int);
    assert(s1.take(head.len() as int) =~= head);
    assert(head.take(head.len() as int) =~= head);
    assert("module "@.is_prefix_of(head)) by {
        assert(head.subrange(0, 7) =~= "module "@);
    }
    assert(head.skip(7) =~= m);
    assert(trim_start(m) == m);
    assert(trim_end(m) == m);
}

/// A line that does not start with `module ` declares nothing: what the text declares
/// is what the lines after it declare.
pub proof fn lemma_other_line_skipped(line: Seq<char>, rest: Seq<char>)
    requires
        forall|k: int| 0 <= k < line.len() ==> #[trigger] line[k] != '\n',
        !"module "@.is_prefix_of(line),
    ensures
        declared_module(line + "\n"@ + rest) == declared_module(rest),
{
    reveal_strlit("\n");
    let s1 = line + "\n"@ + rest;
    assert forall|k: int| 0 <= k < line.len() implies #[trigger] s1[k] != '\n' by {
        assert(s1[k] == line[k]);
    }
    lemma_line_len(s1, line.len() as int);
    assert(s1.take(line.len() as int) =~= line);
    assert(s1.skip(line.len() as int + 1) =~= rest);
}

/// The module path declared in the text of a `go.mod` file, if any line declares one.
pub fn go_module_name(content: &str) -> (r: Option<String>)
    ensures
        match r {
            Some(m) => declared_module(content@) == Some(m@),
            None => declared_module(content@) is None,
        },
{
    let v = chars_of(content);
    let prefix = chars_of("module ");
    let plen = prefix.len();
    let mut start: usize = 0;
    assert(v@.skip(0) =~= v@);
    loop
        invariant
            start <= v.len(),
            prefix@ == "module "@,
            plen == prefix.len(),
            declared_module(v@.skip(start as int)) == declared_module(content@),
            v@ == content@,
        decreases v.len() - start,
    {
        let mut end: usize = start;
        while end < v.len() && v[end] != '\n'
            invariant
                start <= end <= v.len(),
                forall|k: int| start <= k < end ==> v@[k] != '\n',
            decreases v.len() - end,
        {
            end += 1;
        }
        let ghost rest = v@.skip(start as int);
        proof {
            assert forall|k: int| 0 <= k < end - start implies #[trigger] rest[k] != '\n' by {
                assert(rest[k] == v@[start + k]);
            }
            lemma_line_len(rest, end - start);
        }
        let ghost line = rest.take(line_len(rest) as int);
        assert(line =~= v@.subrange(start as int, end as int));
        let mut matches = end - start >= plen;
        let mut k: usize = 0;
        while matches && k < plen
            invariant
                start <= end <= v.len(),
                plen == prefix.len(),
                matches ==> end - start >= plen,
                k <= plen,
                matches ==> forall|j: int| 0 <= j < k ==> v@[start + j] == prefix@[j],
                !matches ==> !prefix@.is_prefix_of(v@.subrange(start as int, end as int)),
            decreases plen - k + (if matches { 1int } else { 0int }),
        {
            if v[start + k] != prefix[k] {
                matches = false;
                proof {
                    let l = v@.subrange(start as int, end as int);
                    if prefix@.is_prefix_of(l) {
                        assert(prefix@[k as int] == l.subrange(0, prefix@.len() as int)[k as int]);
                    }
                }
            } else {
                k += 1;
            }
        }
        if matches {
            proof {
                let l = v@.subrange(start as int, end as int);
                assert(prefix@ =~= l.subrange(0, prefix@.len() as int));
            }
            let mut a = start + plen;
            while a < end && is_whitespace_char(v[a])
                invariant
                    start + plen <= a <= end <= v.len(),
                    forall|j: int| start + plen <= j < a ==> is_whitespace(#[trigger] v@[j]),
                decreases end - a,
            {
                a += 1;
            }
            let mut b = end;
            while b > a && is_whitespace_char(v[b - 1])
                invariant
                    a <= b <= end <= v.len(),
                    forall|j: int| b <= j < end ==> is_whitespace(#[trigger] v@[j]),
                decreases b,
            {
                b -= 1;
            }
            proof {
                lemma_trim_start_range(v@, start + plen, a as int, end as int);
                lemma_trim_end_range(v@, a as int, b as int, end as int);
                assert(line.skip(plen as int) =~= v@.subrange(start + plen, end as int));
            }
            let mut m = String::new();
            push_range(&mut m, &v, a, b);
            assert(m@ =~= v@.subrange(a as int, b as int));
            return Some(m);
        }
        if end == v.len() {
            return None;
        }
        assert(rest.skip(line_len(rest) as int + 1) =~= v@.skip(end + 1));
        start = end + 1;
    }
}

} // verus!
