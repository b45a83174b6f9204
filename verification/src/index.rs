//! The file lookup index of one deployment phase.
//!
//! Load-edge injection and client-call resolution map script references to
//! file nodes. The index is built once from the graph: path lookups, and
//! the file paths in path order for the deterministic filename scan.
use vstd::prelude::*;

use crate::graph::{is_file_node, CodeGraph};
use crate::model::FileId;
use crate::node::NodeData;
use crate::order::{lemma_stable_sorted_members, sort_stable, stable_sorted, SortKey};
use crate::paths::{
    build, build_string, compare_paths, components, components_of, ends_with, file_name, file_name_of, join, join_path,
    lemma_path_order, parent, parent_of, path_ends_with, path_order, paths_equal, same_path, views,
};
use crate::pg::graph_node;
use crate::scanner::replace_text;
use crate::text::{chars_of, str_eq, string_from};

verus! {

/// A path with the node of its file.
#[derive(Debug, Clone)]
pub struct PathEntry {
    pub path: String,
    pub node: usize,
}

impl SortKey for PathEntry {
    open spec fn key_order(self, other: Self) -> int {
        path_order(self.path@, other.path@)
    }

    proof fn lemma_key_order(a: Self, b: Self, c: Self) {
        lemma_path_order(a.path@, b.path@, c.path@);
    }

    fn compare_keys(&self, other: &Self) -> (r: i8) {
        compare_paths(self.path.as_str(), other.path.as_str())
    }
}

/// File lookup tables of one deployment phase.
#[derive(Debug)]
pub struct DeployIndex {
    /// Project path to node index of every file node (a later entry of the
    /// same path wins).
    pub path_to_idx: Vec<(String, usize)>,
    /// Project path to file id.
    pub path_to_file_id: Vec<(String, FileId)>,
    /// File id to project path.
    pub fid_to_path: Vec<(FileId, String)>,
    /// File paths in path order.
    pub ordered: Vec<PathEntry>,
}

/// The value of the last entry whose path is the same as `p`.
pub open spec fn path_value<V>(entries: Seq<(String, V)>, p: Seq<char>) -> Option<V>
    decreases entries.len(),
{
    if entries.len() == 0 {
        None
    } else if same_path(entries.last().0@, p) {
        Some(entries.last().1)
    } else {
        path_value(entries.drop_last(), p)
    }
}

/// The first entry, in path order, named like the script or ending with it.
pub open spec fn first_name_match(ordered: Seq<PathEntry>, target: Option<Seq<char>>, script: Seq<char>) -> Option<usize>
    decreases ordered.len(),
{
    if ordered.len() == 0 {
        None
    } else {
        match first_name_match(ordered.drop_last(), target, script) {
            Some(i) => Some(i),
            None => {
                let e = ordered.last();
                if (target is Some && file_name(e.path@) == target) || ends_with(e.path@, script) {
                    Some(e.node)
                } else {
                    None
                }
            },
        }
    }
}

/// The first hit among the script's component suffixes, from `k` on.
pub open spec fn suffix_hit(entries: Seq<(String, usize)>, cs: Seq<Seq<char>>, k: int) -> Option<usize>
    decreases cs.len() - k,
{
    if k < 1 || k >= cs.len() {
        None
    } else {
        match path_value(entries, build(cs.skip(k))) {
            Some(i) => Some(i),
            None => suffix_hit(entries, cs, k + 1),
        }
    }
}

/// The four lookup strategies, in order: base-relative, source-relative,
/// filename or suffix match in path order, then the script with its leading
/// components stripped one by one.
pub open spec fn spec_candidate(ix: DeployIndex, base: Seq<char>, script: Seq<char>, source_file: Seq<char>) -> Option<usize> {
    candidate_in(ix.path_to_idx@, ix.ordered@, base, script, source_file)
}

/// [`spec_candidate`] over a path table and its path-ordered entries.
pub open spec fn candidate_in(entries: Seq<(String, usize)>, ordered: Seq<PathEntry>, base: Seq<char>, script: Seq<char>, source_file: Seq<char>) -> Option<usize> {
    match path_value(entries, join(base, script)) {
        Some(i) => Some(i),
        None => {
            let dir = match parent(source_file) {
                Some(d) => d,
                None => seq!['.'],
            };
            match path_value(entries, join(dir, script)) {
                Some(i) => Some(i),
                None => match first_name_match(ordered, file_name(script), script) {
                    Some(i) => Some(i),
                    None => suffix_hit(entries, components(script), 1),
                },
            }
        },
    }
}

/// The script with every `\` turned into `/`.
pub open spec fn forward_slashes(s: Seq<char>) -> Seq<char> {
    s.map_values(|c: char| if c == '\\' { '/' } else { c })
}

/// The file node a load script resolves to: the strategies on the script,
/// then, for a script written with `\` separators, on its `/` spelling.
pub open spec fn spec_resolve_script(ix: DeployIndex, base: Seq<char>, script: Seq<char>, source_file: Seq<char>) -> Option<usize> {
    resolve_in(ix.path_to_idx@, ix.ordered@, base, script, source_file)
}

/// [`spec_resolve_script`] over a path table and its path-ordered entries.
pub open spec fn resolve_in(entries: Seq<(String, usize)>, ordered: Seq<PathEntry>, base: Seq<char>, script: Seq<char>, source_file: Seq<char>) -> Option<usize> {
    match candidate_in(entries, ordered, base, script, source_file) {
        Some(i) => Some(i),
        None => if forward_slashes(script) != script {
            candidate_in(entries, ordered, base, forward_slashes(script), source_file)
        } else {
            None
        },
    }
}

/// The value of the last entry of the same path (see [`path_value`]).
pub fn lookup_path(entries: &Vec<(String, usize)>, p: &str) -> (r: Option<usize>)
    ensures
        r == path_value(entries@, p@),
{
    let mut i: usize = entries.len();
    proof { assert(entries@.take(i as int) =~= entries@); }
    while i > 0
        invariant
            0 <= i <= entries@.len(),
            path_value(entries@, p@) == path_value(entries@.take(i as int), p@),
        decreases i,
    {
        proof {
            assert(entries@.take(i as int).last() == entries@[i - 1]);
            assert(entries@.take(i as int).drop_last() =~= entries@.take(i - 1));
        }
        if paths_equal(entries[i - 1].0.as_str(), p) {
            return Some(entries[i - 1].1);
        }
        i = i - 1;
    }
    None
}

fn name_match(ordered: &Vec<PathEntry>, target: &Option<String>, script: &str) -> (r: Option<usize>)
    ensures
        r == first_name_match(ordered@, match target { Some(t) => Some(t@), None => None }, script@),
{
    let ghost tv: Option<Seq<char>> = match target { Some(t) => Some(t@), None => None };
    let mut i: usize = 0;
    while i < ordered.len()
        invariant
            tv == (match target { Some(t) => Some(t@), None => None::<Seq<char>> }),
            0 <= i <= ordered@.len(),
            first_name_match(ordered@.take(i as int), tv, script@) is None,
        decreases ordered@.len() - i,
    {
        let e = &ordered[i];
        proof {
            assert(ordered@.take(i + 1).drop_last() =~= ordered@.take(i as int));
            assert(ordered@.take(i + 1).last() == *e);
        }
        let named = match target {
            Some(t) => match file_name_of(e.path.as_str()) {
                Some(n) => str_eq(n.as_str(), t.as_str()),
                None => false,
            },
            None => false,
        };
        if named || path_ends_with(e.path.as_str(), script) {
            proof { lemma_name_match_prefix(ordered@, tv, script@, i + 1); }
            return Some(e.node);
        }
        i = i + 1;
    }
    proof { assert(ordered@.take(i as int) =~= ordered@); }
    None
}

proof fn lemma_name_match_prefix(ordered: Seq<PathEntry>, target: Option<Seq<char>>, script: Seq<char>, m: int)
    requires
        0 <= m <= ordered.len(),
        first_name_match(ordered.take(m), target, script) is Some,
    ensures
        first_name_match(ordered, target, script) == first_name_match(ordered.take(m), target, script),
    decreases ordered.len() - m,
{
    if m == ordered.len() {
        assert(ordered.take(m) =~= ordered);
    } else {
        assert(ordered.take(m + 1).drop_last() =~= ordered.take(m));
        lemma_name_match_prefix(ordered, target, script, m + 1);
    }
}

/// Path and node index of every registered file, in registration order.
pub open spec fn registered_paths(g: CodeGraph) -> Seq<(String, usize)> {
    g.file_to_index@.map_values(|e: (FileId, usize)| (g.nodes()[e.1 as int]->File_0.path, e.1))
}

/// Path and file id of every registered file, in registration order.
pub open spec fn registered_file_ids(g: CodeGraph) -> Seq<(String, FileId)> {
    g.file_to_index@.map_values(|e: (FileId, usize)| (g.nodes()[e.1 as int]->File_0.path, e.0))
}

impl DeployIndex {
    /// The lookup tables of a graph: every registered file node, in
    /// registration order; the ordered list sorted by path.
    pub fn build(graph: &CodeGraph) -> (r: DeployIndex)
        requires
            graph.wf(),
        ensures
            r.path_to_idx@.len() == graph.file_to_index@.len(),
            forall|i: int| 0 <= i < r.path_to_idx@.len() ==> {
                let (fid, idx) = graph.file_to_index@[i];
                &&& (#[trigger] r.path_to_idx@[i]).0 == graph.nodes()[idx as int]->File_0.path
                &&& r.path_to_idx@[i].1 == idx
                &&& r.path_to_file_id@[i] == (graph.nodes()[idx as int]->File_0.path, fid)
                &&& r.fid_to_path@[i] == (fid, graph.nodes()[idx as int]->File_0.path)
            },
            r.path_to_file_id@.len() == r.path_to_idx@.len(),
            r.fid_to_path@.len() == r.path_to_idx@.len(),
            r.ordered@ == stable_sorted(r.path_to_idx@.map_values(|e: (String, usize)| PathEntry { path: e.0, node: e.1 })),
            r.path_to_idx@ == registered_paths(*graph),
            r.path_to_file_id@ == registered_file_ids(*graph),
            r.ordered@ == ordered_entries(registered_paths(*graph)),
            entries_below(r.path_to_idx@, r.ordered@, graph.nodes().len()),
    {
        let mut path_to_idx: Vec<(String, usize)> = Vec::new();
        let mut path_to_file_id: Vec<(String, FileId)> = Vec::new();
        let mut fid_to_path: Vec<(FileId, String)> = Vec::new();
        let mut entries: Vec<PathEntry> = Vec::new();
        let mut i: usize = 0;
        while i < graph.file_to_index.len()
            invariant
                graph.wf(),
                0 <= i <= graph.file_to_index@.len(),
                path_to_idx@.len() == i,
                path_to_file_id@.len() == i,
                fid_to_path@.len() == i,
                forall|k: int| 0 <= k < i ==> {
                    let (fid, idx) = graph.file_to_index@[k];
                    &&& (#[trigger] path_to_idx@[k]).0 == graph.nodes()[idx as int]->File_0.path
                    &&& path_to_idx@[k].1 == idx
                    &&& path_to_file_id@[k] == (graph.nodes()[idx as int]->File_0.path, fid)
                    &&& fid_to_path@[k] == (fid, graph.nodes()[idx as int]->File_0.path)
                },
                entries@ == path_to_idx@.map_values(|e: (String, usize)| PathEntry { path: e.0, node: e.1 }),
            decreases graph.file_to_index@.len() - i,
        {
            let (fid, idx) = graph.file_to_index[i];
            proof { assert(is_file_node(graph.nodes(), graph.file_to_index@[i as int].1, graph.file_to_index@[i as int].0)); }
            let ghost (p0, f0, t0) = (path_to_idx@, path_to_file_id@, fid_to_path@);
            match graph_node(&graph.graph, idx) {
                NodeData::File(f) => {
                    path_to_idx.push((f.path.clone(), idx));
                    path_to_file_id.push((f.path.clone(), fid));
                    fid_to_path.push((fid, f.path.clone()));
                    entries.push(PathEntry { path: f.path.clone(), node: idx });
                    proof {
                        assert(entries@ =~= path_to_idx@.map_values(|e: (String, usize)| PathEntry { path: e.0, node: e.1 }));
                        assert forall|k: int| 0 <= k < i + 1 implies {
                            let (fid, idx) = graph.file_to_index@[k];
                            &&& (#[trigger] path_to_idx@[k]).0 == graph.nodes()[idx as int]->File_0.path
                            &&& path_to_idx@[k].1 == idx
                            &&& path_to_file_id@[k] == (graph.nodes()[idx as int]->File_0.path, fid)
                            &&& fid_to_path@[k] == (fid, graph.nodes()[idx as int]->File_0.path)
                        } by {
                            if k < i {
                                assert(path_to_idx@[k] == p0[k]);
                                assert(path_to_file_id@[k] == f0[k]);
                                assert(fid_to_path@[k] == t0[k]);
                            }
                        }
                    }
                },
                _ => {},
            }
            i = i + 1;
        }
        let ordered = sort_stable(entries);
        proof {
            assert(path_to_idx@ =~= registered_paths(*graph));
            assert forall|k: int| 0 <= k < path_to_file_id@.len() implies #[trigger] path_to_file_id@[k] == registered_file_ids(*graph)[k] by {
                let (fid, idx) = graph.file_to_index@[k];
                assert(path_to_idx@[k].1 == idx);
                assert(path_to_file_id@[k] == (graph.nodes()[idx as int]->File_0.path, fid));
            }
            assert(path_to_file_id@ =~= registered_file_ids(*graph));
            assert forall|k: int| 0 <= k < path_to_idx@.len() implies (#[trigger] path_to_idx@[k]).1 < graph.nodes().len() by {
                assert(is_file_node(graph.nodes(), graph.file_to_index@[k].1, graph.file_to_index@[k].0));
            }
            lemma_ordered_entries_below(path_to_idx@, graph.nodes().len());
        }
        DeployIndex { path_to_idx, path_to_file_id, fid_to_path, ordered }
    }

    /// An index over a plain path table, without file ids.
    pub fn from_index(path_to_idx: Vec<(String, usize)>) -> (r: DeployIndex)
        ensures
            r.path_to_idx@ == path_to_idx@,
            r.path_to_file_id@.len() == 0,
            r.fid_to_path@.len() == 0,
            r.ordered@ == stable_sorted(path_to_idx@.map_values(|e: (String, usize)| PathEntry { path: e.0, node: e.1 })),
    {
        let mut entries: Vec<PathEntry> = Vec::new();
        let mut i: usize = 0;
        while i < path_to_idx.len()
            invariant
                0 <= i <= path_to_idx@.len(),
                entries@ == path_to_idx@.take(i as int).map_values(|e: (String, usize)| PathEntry { path: e.0, node: e.1 }),
            decreases path_to_idx@.len() - i,
        {
            entries.push(PathEntry { path: path_to_idx[i].0.clone(), node: path_to_idx[i].1 });
            proof {
                assert(entries@ =~= path_to_idx@.take(i + 1).map_values(|e: (String, usize)| PathEntry { path: e.0, node: e.1 }));
            }
            i = i + 1;
        }
        proof { assert(path_to_idx@.take(i as int) =~= path_to_idx@); }
        let ordered = sort_stable(entries);
        DeployIndex { path_to_idx, path_to_file_id: Vec::new(), fid_to_path: Vec::new(), ordered }
    }

    /// The lookup strategies for one spelling of a script (see
    /// [`spec_candidate`]).
    pub fn candidate(&self, base: &str, script: &str, source_file: &str) -> (r: Option<usize>)
        ensures
            r == spec_candidate(*self, base@, script@, source_file@),
    {
        let entries = &self.path_to_idx;
        let j1 = join_path(base, script);
        let first = lookup_path(entries, j1.as_str());
        if first.is_some() {
            return first;
        }
        let dir = match parent_of(source_file) {
            Some(d) => d,
            None => string_from("."),
        };
        proof {
            reveal_strlit(".");
            assert(dir@ == match parent(source_file@) {
                Some(d) => d,
                None => seq!['.'],
            });
        }
        let j2 = join_path(dir.as_str(), script);
        let second = lookup_path(entries, j2.as_str());
        if second.is_some() {
            return second;
        }
        let target = file_name_of(script);
        proof {
            assert((match target { Some(t) => Some(t@), None => None::<Seq<char>> }) == file_name(script@));
        }
        let third = name_match(&self.ordered, &target, script);
        if third.is_some() {
            return third;
        }
        let mut comps = components_of(script);
        let ghost vs = components(script@);
        let n0 = comps.len();
        let mut k: usize = 1;
        proof {
            assert(spec_candidate(*self, base@, script@, source_file@) == suffix_hit(entries@, vs, 1));
        }
        proof {
            assert(views(comps@) == vs.skip(0)) by {
                assert(vs.skip(0) =~= vs);
            }
        }
        while comps.len() > 1
            invariant
                vs == components(script@),
                entries == &self.path_to_idx,
                spec_candidate(*self, base@, script@, source_file@) == suffix_hit(entries@, vs, 1),
                n0 == vs.len(),
                1 <= k <= n0 + 1,
                k - 1 <= vs.len(),
                views(comps@) == vs.skip(k - 1),
                suffix_hit(entries@, vs, 1) == suffix_hit(entries@, vs, k as int),
            decreases comps@.len(),
        {
            let ghost before = comps@;
            comps.remove(0);
            let p = build_string(&comps);
            proof {
                assert(comps@ =~= before.skip(1));
                assert(views(comps@) =~= views(before).skip(1));
                assert(vs.skip(k - 1).skip(1) =~= vs.skip(k as int));
                assert(views(comps@) == vs.skip(k as int));
                assert(comps@.map_values(|v: Vec<char>| v@) == views(comps@));
                assert(k < vs.len());
                assert(p@ == build(vs.skip(k as int)));
            }
            let hit = lookup_path(entries, p.as_str());
            if hit.is_some() {
                proof {
                    assert(suffix_hit(entries@, vs, k as int) == hit);
                    assert(spec_candidate(*self, base@, script@, source_file@) == suffix_hit(entries@, vs, 1));
                }
                return hit;
            }
            k = k + 1;
        }
        proof {
            assert(views(comps@).len() <= 1);
            assert(suffix_hit(entries@, vs, k as int) is None);
            assert(spec_candidate(*self, base@, script@, source_file@) == suffix_hit(entries@, vs, 1));
        }
        None
    }

    /// Resolves a load script to a file node (see [`spec_resolve_script`]).
    pub fn resolve_script(&self, base: &str, script: &str, source_file: &str) -> (r: Option<usize>)
        ensures
            r == spec_resolve_script(*self, base@, script@, source_file@),
    {
        let first = self.candidate(base, script, source_file);
        if first.is_some() {
            return first;
        }
        let normalized = replace_text(script, "\\", "/");
        proof {
            reveal_strlit("\\");
            reveal_strlit("/");
            lemma_replace_backslashes(script@);
            assert("\\"@ =~= seq!['\\']);
            assert("/"@ =~= seq!['/']);
            assert(normalized@ == forward_slashes(script@));
        }
        if !str_eq(normalized.as_str(), script) {
            return self.candidate(base, normalized.as_str(), source_file);
        }
        None
    }
}

proof fn lemma_replace_backslashes(s: Seq<char>)
    ensures
        crate::scanner::replace_all(s, seq!['\\'], seq!['/']) == forward_slashes(s),
    decreases s.len(),
{
    if s.len() > 0 {
        lemma_replace_backslashes(s.drop_first());
        if s[0] == '\\' {
            assert(crate::scanner::has_prefix(s, seq!['\\'])) by {
                assert(s.take(1) =~= seq!['\\']);
            }
            assert(s.skip(1) =~= s.drop_first());
        } else {
            assert(!crate::scanner::has_prefix(s, seq!['\\'])) by {
                assert(s.take(1)[0] == s[0]);
            }
        }
        assert(forward_slashes(s) =~= seq![if s[0] == '\\' { '/' } else { s[0] }] + forward_slashes(s.drop_first()));
    } else {
        assert(forward_slashes(s) =~= Seq::<char>::empty());
    }
}

/// Every node a path table and its ordered entries can answer lies below `n`.
pub open spec fn entries_below(entries: Seq<(String, usize)>, ordered: Seq<PathEntry>, n: nat) -> bool {
    &&& forall|i: int| 0 <= i < entries.len() ==> (#[trigger] entries[i]).1 < n
    &&& forall|i: int| 0 <= i < ordered.len() ==> (#[trigger] ordered[i]).node < n
}

/// The path-ordered entries of a path table.
pub open spec fn ordered_entries(entries: Seq<(String, usize)>) -> Seq<PathEntry> {
    stable_sorted(entries.map_values(|e: (String, usize)| PathEntry { path: e.0, node: e.1 }))
}

proof fn lemma_path_value_below(entries: Seq<(String, usize)>, p: Seq<char>, n: nat)
    requires
        forall|i: int| 0 <= i < entries.len() ==> (#[trigger] entries[i]).1 < n,
    ensures
        path_value(entries, p) matches Some(v) ==> v < n,
    decreases entries.len(),
{
    if entries.len() > 0 {
        assert(entries.last() == entries[entries.len() - 1]);
        lemma_path_value_below(entries.drop_last(), p, n);
    }
}

proof fn lemma_name_match_below(ordered: Seq<PathEntry>, target: Option<Seq<char>>, script: Seq<char>, n: nat)
    requires
        forall|i: int| 0 <= i < ordered.len() ==> (#[trigger] ordered[i]).node < n,
    ensures
        first_name_match(ordered, target, script) matches Some(v) ==> v < n,
    decreases ordered.len(),
{
    if ordered.len() > 0 {
        assert(ordered.last() == ordered[ordered.len() - 1]);
        lemma_name_match_below(ordered.drop_last(), target, script, n);
    }
}

proof fn lemma_suffix_hit_below(entries: Seq<(String, usize)>, cs: Seq<Seq<char>>, k: int, n: nat)
    requires
        forall|i: int| 0 <= i < entries.len() ==> (#[trigger] entries[i]).1 < n,
    ensures
        suffix_hit(entries, cs, k) matches Some(v) ==> v < n,
    decreases cs.len() - k,
{
    if 1 <= k < cs.len() {
        lemma_path_value_below(entries, build(cs.skip(k)), n);
        lemma_suffix_hit_below(entries, cs, k + 1, n);
    }
}

proof fn lemma_candidate_below(entries: Seq<(String, usize)>, ordered: Seq<PathEntry>, base: Seq<char>, script: Seq<char>, source_file: Seq<char>, n: nat)
    requires
        entries_below(entries, ordered, n),
    ensures
        candidate_in(entries, ordered, base, script, source_file) matches Some(v) ==> v < n,
{
    let dir = match parent(source_file) {
        Some(d) => d,
        None => seq!['.'],
    };
    lemma_path_value_below(entries, join(base, script), n);
    lemma_path_value_below(entries, join(dir, script), n);
    lemma_name_match_below(ordered, file_name(script), script, n);
    lemma_suffix_hit_below(entries, components(script), 1, n);
}

/// A script resolves to a node of the table it was looked up in.
pub proof fn lemma_resolve_below(entries: Seq<(String, usize)>, ordered: Seq<PathEntry>, base: Seq<char>, script: Seq<char>, source_file: Seq<char>, n: nat)
    requires
        entries_below(entries, ordered, n),
    ensures
        resolve_in(entries, ordered, base, script, source_file) matches Some(v) ==> v < n,
{
    lemma_candidate_below(entries, ordered, base, script, source_file, n);
    lemma_candidate_below(entries, ordered, base, forward_slashes(script), source_file, n);
}

/// Sorting a path table keeps its nodes.
pub proof fn lemma_ordered_entries_below(entries: Seq<(String, usize)>, n: nat)
    requires
        forall|i: int| 0 <= i < entries.len() ==> (#[trigger] entries[i]).1 < n,
    ensures
        entries_below(entries, ordered_entries(entries), n),
{
    let m = entries.map_values(|e: (String, usize)| PathEntry { path: e.0, node: e.1 });
    lemma_stable_sorted_members(m, |e: PathEntry| e.node);
    assert forall|k: int| 0 <= k < ordered_entries(entries).len() implies (#[trigger] ordered_entries(entries)[k]).node < n by {
        let x = stable_sorted(m)[k];
        assert(m.contains(x));
        let j = choose|j: int| 0 <= j < m.len() && m[j] == x;
        assert(m[j].node == entries[j].1);
    }
}

/// `v` is the value of some entry of the table.
pub open spec fn is_entry_value(entries: Seq<(String, usize)>, v: usize) -> bool {
    exists|j: int| 0 <= j < entries.len() && (#[trigger] entries[j]).1 == v
}

/// A path lookup answers with the value of one of the entries.
pub proof fn lemma_path_value_entry(entries: Seq<(String, usize)>, p: Seq<char>)
    ensures
        path_value(entries, p) matches Some(v) ==> is_entry_value(entries, v),
    decreases entries.len(),
{
    if entries.len() > 0 {
        lemma_path_value_entry(entries.drop_last(), p);
        if path_value(entries.drop_last(), p) is Some && !same_path(entries.last().0@, p) {
            let v = path_value(entries.drop_last(), p)->0;
            let j = choose|j: int| 0 <= j < entries.drop_last().len() && (#[trigger] entries.drop_last()[j]).1 == v;
            assert(entries[j].1 == v);
        }
        assert(entries[entries.len() - 1] == entries.last());
    }
}

/// The file id of the last entry of the same path.
pub fn lookup_file_id(entries: &Vec<(String, FileId)>, p: &str) -> (r: Option<FileId>)
    ensures
        r == path_value(entries@, p@),
{
    let mut i: usize = entries.len();
    proof { assert(entries@.take(i as int) =~= entries@); }
    while i > 0
        invariant
            0 <= i <= entries@.len(),
            path_value(entries@, p@) == path_value(entries@.take(i as int), p@),
        decreases i,
    {
        proof {
            assert(entries@.take(i as int).last() == entries@[i - 1]);
            assert(entries@.take(i as int).drop_last() =~= entries@.take(i - 1));
        }
        if paths_equal(entries[i - 1].0.as_str(), p) {
            return Some(entries[i - 1].1);
        }
        i = i - 1;
    }
    None
}

} // verus!
