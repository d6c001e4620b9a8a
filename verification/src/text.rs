//! Character-level text helpers with their mathematical meaning.
use vstd::prelude::*;
use vstd::std_specs::iter::IteratorSpec;

verus! {

/// The decimal digit character for `d` (taken modulo ten).
pub open spec fn digit_char(d: nat) -> char {
    let d = d % 10;
    if d == 0 { '0' } else if d == 1 { '1' } else if d == 2 { '2' } else if d == 3 { '3' }
    else if d == 4 { '4' } else if d == 5 { '5' } else if d == 6 { '6' } else if d == 7 { '7' }
    else if d == 8 { '8' } else { '9' }
}

/// The decimal notation of `n`, without sign or leading zeros ("0" for zero).
pub open spec fn decimal(n: nat) -> Seq<char>
    decreases n,
{
    if n < 10 {
        seq![digit_char(n)]
    } else {
        decimal(n / 10).push(digit_char(n % 10))
    }
}

/// The number that a string of decimal digits denotes (most significant first).
pub open spec fn digits_value(s: Seq<char>) -> int
    decreases s.len(),
{
    if s.len() == 0 {
        0
    } else {
        digits_value(s.drop_last()) * 10 + (s.last() as u32 - '0' as u32)
    }
}

/// Whether `c` is one of the digits `0` to `9`.
pub open spec fn is_digit(c: char) -> bool {
    '0' <= c && c <= '9'
}

/// Decimal notation is faithful: it is made of digits only, denotes `n`, and has no
/// leading zero (zero itself is the single digit `0`).
pub proof fn lemma_decimal_value(n: nat)
    ensures
        decimal(n).len() > 0,
        forall|i: int| 0 <= i < decimal(n).len() ==> is_digit(#[trigger] decimal(n)[i]),
        digits_value(decimal(n)) == n,
        decimal(n)[0] == '0' ==> n == 0,
        n == 0 ==> decimal(n) == seq!['0'],
    decreases n,
{
    let d = n % 10;
    assert(is_digit(digit_char(d)) && digit_char(d) as u32 - '0' as u32 == d);
    if n >= 10 {
        lemma_decimal_value(n / 10);
        let s = decimal(n);
        let t = decimal(n / 10);
        assert(s == t.push(digit_char(d)));
        assert(s.drop_last() =~= t);
        assert(s[0] == t[0]);
        assert forall|i: int| 0 <= i < s.len() implies is_digit(#[trigger] s[i]) by {
            if i < t.len() {
                assert(s[i] == t[i]);
            }
        }
        assert(s.last() == digit_char(d));
        assert(digits_value(s) == digits_value(t) * 10 + (digit_char(d) as u32 - '0' as u32));
        assert(n == (n / 10) * 10 + d);
    } else {
        let s = decimal(n);
        assert(s.drop_last() =~= Seq::<char>::empty());
        assert(s.last() == digit_char(d));
        assert(digits_value(Seq::<char>::empty()) == 0);
        assert(digits_value(s) == 0 * 10 + (digit_char(d) as u32 - '0' as u32));
        assert(d == n);
    }
}

/// Appends one character to a `String` (std `String::push`).
#[verifier::external_body]
pub(crate) fn push_char(s: &mut String, c: char)
    ensures
        final(s)@ == old(s)@.push(c),
{
    s.push(c);
}

fn digit(d: usize) -> (c: char)
    requires
        d < 10,
    ensures
        c == digit_char(d as nat),
{
    match d {
        0 => '0',
        1 => '1',
        2 => '2',
        3 => '3',
        4 => '4',
        5 => '5',
        6 => '6',
        7 => '7',
        8 => '8',
        _ => '9',
    }
}

/// Appends the decimal notation of `n` to `out`.
pub fn push_decimal(out: &mut String, n: usize)
    ensures
        final(out)@ == old(out)@ + decimal(n as nat),
    decreases n,
{
    if n < 10 {
        push_char(out, digit(n));
        assert(decimal(n as nat) == seq![digit_char(n as nat)]);
    } else {
        push_decimal(out, n / 10);
        push_char(out, digit(n % 10));
        assert(decimal(n as nat) == decimal((n / 10) as nat).push(digit_char((n % 10) as nat)));
    }
}

/// The characters of `s`, in order.
pub fn chars_of(s: &str) -> (v: Vec<char>)
    ensures
        v@ == s@,
{
    broadcast use vstd::string::group_string_axioms;

    let mut it = s.chars();
    let mut v: Vec<char> = Vec::new();
    assert(it.remaining() == s@);
    loop
        invariant
            it.obeys_prophetic_iter_laws(),
            it.decrease() is Some,
            v@ + it.remaining() == s@,
        ensures
            v@ == s@,
        decreases it.decrease()->0,
    {
        let ghost before = it.remaining();
        match it.next() {
            Some(c) => {
                v.push(c);
                assert(v@ + it.remaining() =~= s@) by {
                    assert(before =~= seq![c] + it.remaining());
                    assert(v@ =~= (v@.drop_last()).push(c));
                }
            },
            None => {
                assert(v@ =~= s@);
                break;
            },
        }
    }
    v
}

/// Appends `v[from..to]` to `out`.
pub fn push_range(out: &mut String, v: &Vec<char>, from: usize, to: usize)
    requires
        from <= to <= v.len(),
    ensures
        final(out)@ == old(out)@ + v@.subrange(from as int, to as int),
{
    let mut i = from;
    while i < to
        invariant
            from <= i <= to <= v.len(),
            out@ == old(out)@ + v@.subrange(from as int, i as int),
        decreases to - i,
    {
        push_char(out, v[i]);
        i += 1;
        assert(v@.subrange(from as int, i as int) =~= v@.subrange(from as int, (i - 1) as int).push(v@[i - 1]));
    }
}

/// Appends all of `v` to `out`.
pub fn push_all(out: &mut String, v: &Vec<char>)
    ensures
        final(out)@ == old(out)@ + v@,
{
    push_range(out, v, 0, v.len());
    assert(v@.subrange(0, v@.len() as int) =~= v@);
}

/// Whether two character sequences are equal.
pub fn same_chars(a: &Vec<char>, b: &Vec<char>) -> (r: bool)
    ensures
        r == (a@ == b@),
{
    if a.len() != b.len() {
        return false;
    }
    let mut i: usize = 0;
    while i < a.len()
        invariant
            a.len() == b.len(),
            i <= a.len(),
            forall|k: int| 0 <= k < i ==> a@[k] == b@[k],
        decreases a.len() - i,
    {
        if a[i] != b[i] {
            return false;
        }
        i += 1;
    }
    assert(a@ =~= b@);
    true
}

/// Whether `c` must be escaped inside a DOT quoted string: a double quote or a backslash.
pub open spec fn needs_escape(c: char) -> bool {
    c == '"' || c == '\\'
}

/// `s` with a backslash put before every double quote and every backslash.
pub open spec fn escape_quotes(s: Seq<char>) -> Seq<char>
    decreases s.len(),
{
    if s.len() == 0 {
        Seq::empty()
    } else if needs_escape(s.last()) {
        escape_quotes(s.drop_last()) + seq!['\\', s.last()]
    } else {
        escape_quotes(s.drop_last()).push(s.last())
    }
}

/// Escaping works character by character: a double quote or a backslash gets a
/// backslash before it, every other character stands for itself, and the escape of
/// two strings one after the other is their escapes one after the other.
pub proof fn lemma_escape_by_char(a: Seq<char>, b: Seq<char>, c: char)
    ensures
        escape_quotes(seq![c]) == if c == '"' || c == '\\' {
            seq!['\\', c]
        } else {
            seq![c]
        },
        escape_quotes(a + b) == escape_quotes(a) + escape_quotes(b),
    decreases b.len(),
{
    assert(seq![c].drop_last() =~= Seq::<char>::empty());
    assert(escape_quotes(Seq::<char>::empty()) == Seq::<char>::empty());
    assert(seq![c].last() == c);
    if needs_escape(c) {
        assert(escape_quotes(seq![c]) =~= seq!['\\', c]);
    } else {
        assert(escape_quotes(seq![c]) =~= seq![c]);
    }
    if b.len() == 0 {
        assert(a + b =~= a);
        assert(escape_quotes(a) + escape_quotes(b) =~= escape_quotes(a));
    } else {
        lemma_escape_by_char(a, b.drop_last(), c);
        assert((a + b).drop_last() =~= a + b.drop_last());
        assert((a + b).last() == b.last());
        assert(escape_quotes(a + b) =~= escape_quotes(a) + escape_quotes(b));
    }
}

/// Whether `s` is a sequence of plain characters (neither a double quote nor a
/// backslash) and escapes (a backslash followed by a double quote or a backslash):
/// inside DOT double quotes it reads back as one string, and no quote in it ends
/// the string.
pub open spec fn well_escaped(s: Seq<char>) -> bool
    decreases s.len(),
{
    if s.len() == 0 {
        true
    } else if !needs_escape(s.last()) {
        well_escaped(s.drop_last())
    } else {
        s.len() >= 2 && s[s.len() - 2] == '\\' && well_escaped(s.subrange(0, s.len() - 2))
    }
}

/// Appends `escape_quotes(v)` to `out`.
pub fn push_escaped(out: &mut String, v: &Vec<char>)
    ensures
        final(out)@ == old(out)@ + escape_quotes(v@),
{
    let mut i: usize = 0;
    assert(v@.take(0) =~= Seq::<char>::empty());
    while i < v.len()
        invariant
            i <= v.len(),
            out@ == old(out)@ + escape_quotes(v@.take(i as int)),
        decreases v.len() - i,
    {
        let c = v[i];
        assert(v@.take(i + 1).drop_last() =~= v@.take(i as int));
        if c == '"' || c == '\\' {
            push_char(out, '\\');
            push_char(out, c);
            assert(out@ =~= old(out)@ + escape_quotes(v@.take(i + 1)));
        } else {
            push_char(out, c);
            assert(out@ =~= old(out)@ + escape_quotes(v@.take(i + 1)));
        }
        i += 1;
    }
    assert(v@.take(v.len() as int) =~= v@);
}

/// The characters of `p` after its last `/` (all of `p` when it holds none).
pub open spec fn last_segment(p: Seq<char>) -> Seq<char>
    decreases p.len(),
{
    if p.len() == 0 || p.last() == '/' {
        Seq::empty()
    } else {
        last_segment(p.drop_last()).push(p.last())
    }
}

/// The final component of a `/`-separated path, as `std::path::Path::file_name` gives it:
/// trailing separators and `.` components are skipped; a final `..`, or no component
/// at all, gives `None`.
pub open spec fn file_name(p: Seq<char>) -> Option<Seq<char>>
    decreases p.len(),
{
    if p.len() == 0 {
        None
    } else if p.last() == '/' {
        file_name(p.drop_last())
    } else if last_segment(p) == seq!['.'] {
        file_name(p.drop_last())
    } else if last_segment(p) == seq!['.', '.'] {
        None
    } else {
        Some(last_segment(p))
    }
}

proof fn lemma_last_segment_split(p: Seq<char>, start: int, end: int)
    requires
        0 <= start <= end <= p.len(),
        forall|k: int| start <= k < end ==> p[k] != '/',
    ensures
        last_segment(p.take(end)) == last_segment(p.take(start)) + p.subrange(start, end),
    decreases end - start,
{
    if end == start {
        assert(p.subrange(start, end) =~= Seq::<char>::empty());
        assert(last_segment(p.take(start)) + p.subrange(start, end) =~= last_segment(p.take(start)));
    } else {
        lemma_last_segment_split(p, start, end - 1);
        assert(p.take(end).drop_last() =~= p.take(end - 1));
        assert(p.subrange(start, end) =~= p.subrange(start, end - 1).push(p[end - 1]));
        assert(last_segment(p.take(end)) =~= last_segment(p.take(start)) + p.subrange(start, end));
    }
}

/// A plain name: not empty, without `/`, and neither `.` nor `..`.
pub open spec fn plain_name(n: Seq<char>) -> bool {
    n.len() > 0 && !n.contains('/') && n != seq!['.'] && n != seq!['.', '.']
}

/// The file name of a path that ends in a plain name is that name, whatever directory
/// precedes it; a plain name alone is its own file name, and a trailing `/` changes
/// nothing.
pub proof fn lemma_file_name_of_name(dir: Seq<char>, n: Seq<char>)
    requires
        plain_name(n),
    ensures
        file_name(dir + seq!['/'] + n) == Some(n),
        file_name(n) == Some(n),
        file_name(dir + seq!['/'] + n + seq!['/']) == Some(n),
{
    assert forall|k: int| 0 <= k < n.len() implies n[k] != '/' by {
        if n[k] == '/' {
            assert(n.contains('/'));
        }
    }
    let p = dir + seq!['/'] + n;
    let start: int = dir.len() as int + 1;
    assert forall|k: int| start <= k < p.len() implies p[k] != '/' by {
        assert(p[k] == n[k - start]);
    }
    lemma_last_segment_split(p, start, p.len() as int);
    assert(p.take(start).last() == '/');
    assert(last_segment(p.take(start)) == Seq::<char>::empty());
    assert(p.take(p.len() as int) =~= p);
    assert(p.subrange(start, p.len() as int) =~= n);
    assert(last_segment(p) =~= n);
    assert(p.last() == n.last());
    assert(n.last() != '/');
    lemma_last_segment_split(n, 0, n.len() as int);
    assert(n.take(0) =~= Seq::<char>::empty());
    assert(n.take(n.len() as int) =~= n);
    assert(n.subrange(0, n.len() as int) =~= n);
    let q = p + seq!['/'];
    assert(q.drop_last() =~= p);
}

/// Locates `file_name(v)`: the bounds of the final component within `v`, if there is one.
pub fn file_name_range(v: &Vec<char>) -> (r: Option<(usize, usize)>)
    ensures
        match r {
            Some((from, to)) => from <= to <= v.len() && file_name(v@) == Some(
                v@.subrange(from as int, to as int),
            ),
            None => file_name(v@) is None,
        },
{
    let mut end: usize = v.len();
    assert(v@.take(end as int) =~= v@);
    loop
        invariant
            end <= v.len(),
            file_name(v@.take(end as int)) == file_name(v@),
        decreases end,
    {
        if end == 0 {
            return None;
        }
        let ghost p = v@.take(end as int);
        assert(p.drop_last() =~= v@.take(end - 1));
        if v[end - 1] == '/' {
            end = end - 1;
        } else {
            let mut start: usize = end;
            while start > 0 && v[start - 1] != '/'
                invariant
                    start <= end <= v.len(),
                    forall|k: int| start <= k < end ==> v@[k] != '/',
                decreases start,
            {
                start = start - 1;
            }
            proof {
                lemma_last_segment_split(p, start as int, end as int);
                assert(p.take(end as int) =~= p);
                assert(p.take(start as int) =~= v@.take(start as int));
                if start > 0 {
                    assert(v@.take(start as int).last() == '/');
                }
                assert(last_segment(v@.take(start as int)) =~= Seq::<char>::empty());
                assert(p.subrange(start as int, end as int) =~= v@.subrange(start as int, end as int));
                assert(last_segment(p) =~= v@.subrange(start as int, end as int));
            }
            if end - start == 1 && v[start] == '.' {
                assert(last_segment(p) =~= seq!['.']);
                end = end - 1;
            } else if end - start == 2 && v[start] == '.' && v[start + 1] == '.' {
                assert(last_segment(p) =~= seq!['.', '.']);
                return None;
            } else {
                assert(last_segment(p) != seq!['.']) by {
                    if end - start == 1 {
                        assert(last_segment(p)[0] == v@[start as int]);
                    } else {
                        assert(last_segment(p).len() != seq!['.'].len());
                    }
                }
                assert(last_segment(p) != seq!['.', '.']) by {
                    if end - start == 2 {
                        assert(last_segment(p)[0] == v@[start as int]);
                        assert(last_segment(p)[1] == v@[start + 1]);
                    } else {
                        assert(last_segment(p).len() != seq!['.', '.'].len());
                    }
                }
                return Some((start, end));
            }
        }
    }
}

} // verus!
