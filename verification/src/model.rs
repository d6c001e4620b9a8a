//! The dependency graph's per-file figures, as the analysis hands them to the reports.
use vstd::prelude::*;

verus! {

/// One source file of the project with its coupling figures.
#[derive(Debug)]
pub struct DepEntry {
    /// Path of the file, relative to the analysis root, `/`-separated.
    pub path: String,
    /// Name of the file's language.
    pub language: String,
    /// How many project files import this one.
    pub fan_in: usize,
    /// How many project files this one imports.
    pub fan_out: usize,
    /// Whether the file takes part in a dependency cycle.
    pub in_cycle: bool,
}

/// The analysed graph: one entry per file and the dependency cycles found.
#[derive(Debug)]
pub struct DepResult {
    pub entries: Vec<DepEntry>,
    /// Each cycle as the paths of the files that take part in it.
    pub cycles: Vec<Vec<String>>,
}

/// How a file is coupled to the rest of the project.
#[derive(Debug, Clone, Copy, PartialEq, Eq, Structural)]
pub enum Coupling {
    /// The file takes part in a dependency cycle.
    InCycle,
    /// A stable leaf: the file imports no project file and is imported by others.
    StableLeaf,
    /// Any other file.
    Ordinary,
}

/// The coupling classification of an entry: a cycle member first, then a stable leaf.
pub open spec fn coupling(e: DepEntry) -> Coupling {
    if e.in_cycle {
        Coupling::InCycle
    } else if e.fan_out == 0 && e.fan_in > 0 {
        Coupling::StableLeaf
    } else {
        Coupling::Ordinary
    }
}

/// The coupling class of a file, read off its fields: a cycle member is in a cycle;
/// otherwise a file that imports no project file and that some project file imports
/// is a stable leaf; any other file (one that imports a project file, or that nothing
/// imports) is ordinary.
pub proof fn lemma_coupling_on_fields(e: DepEntry)
    ensures
        (coupling(e) == Coupling::InCycle) <==> e.in_cycle,
        (coupling(e) == Coupling::StableLeaf) <==> (!e.in_cycle && e.fan_out == 0 && e.fan_in > 0),
        (coupling(e) == Coupling::Ordinary) <==> (!e.in_cycle && (e.fan_out > 0 || e.fan_in == 0)),
        !e.in_cycle && e.fan_out > 0 ==> coupling(e) == Coupling::Ordinary,
{
}

/// The name of a coupling class, as the reports print it.
pub open spec fn coupling_text(c: Coupling) -> Seq<char> {
    match c {
        Coupling::InCycle => "in cycle"@,
        Coupling::StableLeaf => "stable leaf"@,
        Coupling::Ordinary => "default"@,
    }
}

/// Classifies an entry.
pub fn classify(e: &DepEntry) -> (r: Coupling)
    ensures
        r == coupling(*e),
        (r == Coupling::InCycle) == e.in_cycle,
        (r == Coupling::StableLeaf) == (!e.in_cycle && e.fan_out == 0 && e.fan_in > 0),
        (r == Coupling::Ordinary) == (!e.in_cycle && (e.fan_out > 0 || e.fan_in == 0)),
{
    if e.in_cycle {
        Coupling::InCycle
    } else if e.fan_out == 0 && e.fan_in > 0 {
        Coupling::StableLeaf
    } else {
        Coupling::Ordinary
    }
}

/// The name of a coupling class: `in cycle`, `stable leaf` or `default`.
pub fn coupling_name(c: Coupling) -> (r: &'static str)
    ensures
        r@ == coupling_text(c),
{
    match c {
        Coupling::InCycle => "in cycle",
        Coupling::StableLeaf => "stable leaf",
        Coupling::Ordinary => "default",
    }
}

/// The character views of a sequence of strings.
pub open spec fn strings_view(v: Seq<String>) -> Seq<Seq<char>> {
    v.map_values(|s: String| s@)
}

/// The adjacency list of a graph by path: each source path with the paths it imports.
pub open spec fn edges_view(edges: Seq<(String, Vec<String>)>) -> Seq<(Seq<char>, Seq<Seq<char>>)> {
    edges.map_values(|p: (String, Vec<String>)| (p.0@, strings_view(p.1@)))
}

/// A field-by-field copy of an entry.
pub fn copy_entry(e: &DepEntry) -> (r: DepEntry)
    ensures
        r == *e,
{
    DepEntry {
        path: e.path.clone(),
        language: e.language.clone(),
        fan_in: e.fan_in,
        fan_out: e.fan_out,
        in_cycle: e.in_cycle,
    }
}

/// A copy of a list of strings.
pub fn copy_strings(v: &Vec<String>) -> (r: Vec<String>)
    ensures
        r@ == v@,
{
    let mut r: Vec<String> = Vec::new();
    let mut i: usize = 0;
    while i < v.len()
        invariant
            i <= v.len(),
            r@ == v@.take(i as int),
        decreases v.len() - i,
    {
        r.push(v[i].clone());
        i += 1;
        assert(r@ =~= v@.take(i as int));
    }
    assert(v@.take(v.len() as int) =~= v@);
    r
}

} // verus!
