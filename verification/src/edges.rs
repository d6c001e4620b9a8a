//! The import graph as an adjacency list keyed by path: each source file with the
//! project files it imports. As in a map keyed by `PathBuf`, two sources never name
//! the same path (compared component by component, see `imports`).
use vstd::prelude::*;

use crate::imports::{path_key, path_key_of, same_key, same_path};
use crate::model::{edges_view, strings_view};

verus! {

/// The position of the source that names path `p`, or -1 when there is none.
pub open spec fn source_index(s: Seq<(Seq<char>, Seq<Seq<char>>)>, p: Seq<char>) -> int
    decreases s.len(),
{
    if s.len() == 0 {
        -1
    } else if source_index(s.drop_last(), p) >= 0 {
        source_index(s.drop_last(), p)
    } else if same_path(s.last().0, p) {
        s.len() - 1
    } else {
        -1
    }
}

/// No two sources name the same path.
pub open spec fn distinct_sources(s: Seq<(Seq<char>, Seq<Seq<char>>)>) -> bool {
    forall|i: int, j: int| 0 <= i < j < s.len() ==> !same_path(#[trigger] s[i].0, #[trigger] s[j].0)
}

proof fn lemma_source_index(s: Seq<(Seq<char>, Seq<Seq<char>>)>, p: Seq<char>)
    ensures
        -1 <= source_index(s, p) < s.len(),
        source_index(s, p) >= 0 ==> same_path(s[source_index(s, p)].0, p),
        source_index(s, p) == -1 <==> forall|k: int| 0 <= k < s.len() ==> !same_path(#[trigger] s[k].0, p),
    decreases s.len(),
{
    if s.len() > 0 {
        lemma_source_index(s.drop_last(), p);
        let t = s.drop_last();
        assert forall|k: int| 0 <= k < t.len() implies #[trigger] t[k] == s[k] by {}
        if source_index(s, p) == -1 {
            assert forall|k: int| 0 <= k < s.len() implies !same_path(#[trigger] s[k].0, p) by {
                if k < t.len() {
                    assert(t[k] == s[k]);
                }
            }
        }
        if source_index(t, p) >= 0 {
            let k = source_index(t, p);
            assert(t[k] == s[k]);
        }
    }
}

/// `s` with the imports of `src` set to `dsts`: those of the source that names the
/// same path are replaced (that source keeps its spelling), or a new source is added
/// at the end.
pub open spec fn with_imports(
    s: Seq<(Seq<char>, Seq<Seq<char>>)>,
    src: Seq<char>,
    dsts: Seq<Seq<char>>,
) -> Seq<(Seq<char>, Seq<Seq<char>>)> {
    if source_index(s, src) >= 0 {
        s.update(source_index(s, src), (s[source_index(s, src)].0, dsts))
    } else {
        s.push((src, dsts))
    }
}

proof fn lemma_source_index_names(s: Seq<(Seq<char>, Seq<Seq<char>>)>, t: Seq<(Seq<char>, Seq<Seq<char>>)>, p: Seq<char>)
    requires
        s.len() == t.len(),
        forall|k: int| 0 <= k < s.len() ==> (#[trigger] s[k]).0 == t[k].0,
    ensures
        source_index(s, p) == source_index(t, p),
    decreases s.len(),
{
    if s.len() > 0 {
        let a = s.drop_last();
        let b = t.drop_last();
        assert forall|k: int| 0 <= k < a.len() implies (#[trigger] a[k]).0 == b[k].0 by {
            assert(a[k] == s[k] && b[k] == t[k]);
        }
        lemma_source_index_names(a, b, p);
        assert(s.last().0 == t[t.len() - 1].0);
    }
}

/// Reading back what was set: after the imports of `src` are set, the source that
/// names `src` has exactly those imports, every source that names another path keeps
/// its place and its imports, and the list grows by one exactly when no source named
/// `src` before.
pub proof fn lemma_with_imports_read_back(
    s: Seq<(Seq<char>, Seq<Seq<char>>)>,
    src: Seq<char>,
    dsts: Seq<Seq<char>>,
    p: Seq<char>,
)
    ensures
        source_index(with_imports(s, src, dsts), src) >= 0,
        with_imports(s, src, dsts)[source_index(with_imports(s, src, dsts), src)].1 == dsts,
        !same_path(p, src) ==> source_index(with_imports(s, src, dsts), p) == source_index(s, p),
        !same_path(p, src) && source_index(s, p) >= 0 ==> with_imports(s, src, dsts)[source_index(s, p)]
            == s[source_index(s, p)],
        with_imports(s, src, dsts).len() == s.len() + if source_index(s, src) >= 0 {
            0int
        } else {
            1int
        },
{
    let t = with_imports(s, src, dsts);
    lemma_source_index(s, src);
    lemma_source_index(s, p);
    let i = source_index(s, src);
    if i >= 0 {
        assert forall|k: int| 0 <= k < s.len() implies (#[trigger] s[k]).0 == t[k].0 by {}
        lemma_source_index_names(s, t, src);
        lemma_source_index_names(s, t, p);
        if !same_path(p, src) && source_index(s, p) >= 0 {
            assert(source_index(s, p) != i);
        }
    } else {
        assert(t.drop_last() =~= s);
        assert(t.last() == (src, dsts));
        if !same_path(p, src) && source_index(s, p) >= 0 {
            assert(t[source_index(s, p)] == s[source_index(s, p)]);
        }
    }
}

/// An adjacency list whose sources name distinct paths.
#[derive(Debug)]
pub struct EdgeList {
    pairs: Vec<(String, Vec<String>)>,
}

impl View for EdgeList {
    type V = Seq<(Seq<char>, Seq<Seq<char>>)>;

    closed spec fn view(&self) -> Self::V {
        edges_view(self.pairs@)
    }
}

/// The position of the source that names path `p`, if any.
fn find_source(pairs: &Vec<(String, Vec<String>)>, p: &str) -> (r: Option<usize>)
    ensures
        match r {
            Some(i) => i == source_index(edges_view(pairs@), p@),
            None => source_index(edges_view(pairs@), p@) == -1,
        },
{
    let ghost ev = edges_view(pairs@);
    let kp = path_key_of(p);
    let mut i: usize = 0;
    assert(ev.take(0) =~= Seq::<(Seq<char>, Seq<Seq<char>>)>::empty());
    while i < pairs.len()
        invariant
            i <= pairs.len(),
            ev == edges_view(pairs@),
            kp@ == path_key(p@),
            source_index(ev.take(i as int), p@) == -1,
        decreases pairs.len() - i,
    {
        let ki = path_key_of(pairs[i].0.as_str());
        assert(ev.take(i + 1).drop_last() =~= ev.take(i as int));
        assert(ev.take(i + 1).last() == ev[i as int]);
        if same_key(&ki, &kp) {
            proof {
                lemma_source_index(ev, p@);
                lemma_prefix_index(ev, p@, i as int + 1);
            }
            return Some(i);
        }
        i += 1;
    }
    assert(ev.take(pairs.len() as int) =~= ev);
    None
}

proof fn lemma_prefix_index(s: Seq<(Seq<char>, Seq<Seq<char>>)>, p: Seq<char>, n: int)
    requires
        0 < n <= s.len(),
        source_index(s.take(n), p) == n - 1,
    ensures
        source_index(s, p) == n - 1,
    decreases s.len() - n,
{
    if n < s.len() {
        assert(s.drop_last().take(n) =~= s.take(n));
        lemma_prefix_index(s.drop_last(), p, n);
    } else {
        assert(s.take(n) =~= s);
    }
}

impl EdgeList {
    /// No two sources of the list name the same path.
    #[verifier::type_invariant]
    closed spec fn sources_distinct(self) -> bool {
        distinct_sources(edges_view(self.pairs@))
    }

    /// The empty list.
    pub fn new() -> (r: EdgeList)
        ensures
            r@ == Seq::<(Seq<char>, Seq<Seq<char>>)>::empty(),
    {
        let r = EdgeList { pairs: Vec::new() };
        assert(r@ =~= Seq::<(Seq<char>, Seq<Seq<char>>)>::empty());
        r
    }

    /// The sources with their imports, in order.
    pub fn pairs(&self) -> (r: &Vec<(String, Vec<String>)>)
        ensures
            edges_view(r@) == self@,
            distinct_sources(self@),
    {
        proof {
            use_type_invariant(self);
        }
        &self.pairs
    }

    /// Sets the imports of `src`: those of the source that names the same path are
    /// replaced (that source keeps its spelling), or a new source is added at the end.
    pub fn insert(&mut self, src: String, dsts: Vec<String>)
        ensures
            final(self)@ == if source_index(old(self)@, src@) >= 0 {
                old(self)@.update(
                    source_index(old(self)@, src@),
                    (old(self)@[source_index(old(self)@, src@)].0, strings_view(dsts@)),
                )
            } else {
                old(self)@.push((src@, strings_view(dsts@)))
            },
            final(self)@ == with_imports(old(self)@, src@, strings_view(dsts@)),
            distinct_sources(final(self)@),
    {
        proof {
            use_type_invariant(&*self);
            lemma_source_index(self@, src@);
        }
        let mut pairs: Vec<(String, Vec<String>)> = Vec::new();
        std::mem::swap(&mut pairs, &mut self.pairs);
        let ghost before = edges_view(pairs@);
        match find_source(&pairs, src.as_str()) {
            Some(i) => {
                let (name, _old) = pairs.remove(i);
                pairs.insert(i, (name, dsts));
                assert(edges_view(pairs@) =~= before.update(
                    i as int,
                    (before[i as int].0, strings_view(dsts@)),
                ));
                assert forall|a: int, b: int| 0 <= a < b < edges_view(pairs@).len() implies !same_path(
                    #[trigger] edges_view(pairs@)[a].0,
                    #[trigger] edges_view(pairs@)[b].0,
                ) by {
                    assert(edges_view(pairs@)[a].0 == before[a].0);
                    assert(edges_view(pairs@)[b].0 == before[b].0);
                }
            },
            None => {
                let ghost s = src@;
                pairs.push((src, dsts));
                assert(edges_view(pairs@) =~= before.push((s, strings_view(dsts@))));
                assert forall|a: int, b: int| 0 <= a < b < edges_view(pairs@).len() implies !same_path(
                    #[trigger] edges_view(pairs@)[a].0,
                    #[trigger] edges_view(pairs@)[b].0,
                ) by {
                    if b == before.len() {
                        assert(!same_path(before[a].0, s));
                    }
                }
            },
        }
        self.pairs = pairs;
    }

    /// Adds `src` with no imports, unless a source already names the same path
    /// (as `HashMap::entry(..).or_default()` does).
    pub fn ensure_source(&mut self, src: String)
        ensures
            final(self)@ == if source_index(old(self)@, src@) >= 0 {
                old(self)@
            } else {
                old(self)@.push((src@, Seq::<Seq<char>>::empty()))
            },
            distinct_sources(final(self)@),
    {
        proof {
            use_type_invariant(&*self);
            lemma_source_index(self@, src@);
        }
        let mut pairs: Vec<(String, Vec<String>)> = Vec::new();
        std::mem::swap(&mut pairs, &mut self.pairs);
        let ghost before = edges_view(pairs@);
        if find_source(&pairs, src.as_str()).is_none() {
            let ghost s = src@;
            let none: Vec<String> = Vec::new();
            assert(strings_view(none@) =~= Seq::<Seq<char>>::empty());
            pairs.push((src, none));
            assert(edges_view(pairs@) =~= before.push((s, Seq::<Seq<char>>::empty())));
            assert forall|a: int, b: int| 0 <= a < b < edges_view(pairs@).len() implies !same_path(
                #[trigger] edges_view(pairs@)[a].0,
                #[trigger] edges_view(pairs@)[b].0,
            ) by {
                if b == before.len() {
                    assert(!same_path(before[a].0, s));
                }
            }
        }
        self.pairs = pairs;
    }
}

/// `edges` with an empty import list added for each of `files` that no source names
/// yet, in the order of `files`.
pub open spec fn completed(edges: Seq<(Seq<char>, Seq<Seq<char>>)>, files: Seq<Seq<char>>) -> Seq<
    (Seq<char>, Seq<Seq<char>>),
>
    decreases files.len(),
{
    if files.len() == 0 {
        edges
    } else {
        let e = completed(edges, files.drop_last());
        if source_index(e, files.last()) >= 0 {
            e
        } else {
            e.push((files.last(), Seq::empty()))
        }
    }
}

/// After completion every file names the same path as a source, and the sources
/// that were there come first, unchanged.
pub proof fn lemma_completed_covers(edges: Seq<(Seq<char>, Seq<Seq<char>>)>, files: Seq<Seq<char>>)
    ensures
        edges.is_prefix_of(completed(edges, files)),
        forall|i: int| 0 <= i < files.len() ==> source_index(completed(edges, files), #[trigger] files[i]) >= 0,
    decreases files.len(),
{
    if files.len() > 0 {
        let rest = files.drop_last();
        lemma_completed_covers(edges, rest);
        let e = completed(edges, rest);
        let f = files.last();
        lemma_source_index(e, f);
        let c = completed(edges, files);
        lemma_source_index(c, f);
        assert forall|i: int| 0 <= i < files.len() implies source_index(c, #[trigger] files[i]) >= 0 by {
            if i < files.len() - 1 {
                assert(rest[i] == files[i]);
                lemma_source_index(e, files[i]);
                lemma_source_index(c, files[i]);
                let k = source_index(e, files[i]);
                if source_index(c, files[i]) == -1 {
                    assert(c[k] == e[k]);
                }
            } else if source_index(e, f) == -1 {
                assert(c[c.len() - 1].0 == f);
            }
        }
        if source_index(e, f) == -1 {
            assert(edges =~= c.subrange(0, edges.len() as int));
        }
    }
}

/// Gives every file a source in the adjacency list, with no imports when it had none.
pub fn complete_edges(edges: &mut EdgeList, files: &Vec<String>)
    ensures
        final(edges)@ == completed(old(edges)@, strings_view(files@)),
        distinct_sources(final(edges)@),
{
    let ghost fv = strings_view(files@);
    let ghost start = edges@;
    let mut i: usize = 0;
    assert(fv.take(0) =~= Seq::<Seq<char>>::empty());
    let _ = edges.pairs();
    while i < files.len()
        invariant
            i <= files.len(),
            fv == strings_view(files@),
            start == old(edges)@,
            edges@ == completed(start, fv.take(i as int)),
            distinct_sources(edges@),
        decreases files.len() - i,
    {
        assert(fv.take(i + 1).drop_last() =~= fv.take(i as int));
        assert(fv.take(i + 1).last() == files@[i as int]@);
        edges.ensure_source(files[i].clone());
        i += 1;
    }
    assert(fv.take(files.len() as int) =~= fv);
}

} // verus!
