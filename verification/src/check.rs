//! Cut fairness: every cut edge of the plan must survive into the manifest
//! as an annotated edge and an `rpc_stub` edge of the same direction, so a
//! forced split never silently drops a call; and no edge may carry cut
//! annotations that no cut explains.
use vstd::prelude::*;

use crate::cut::{CutAnnotation, CutEdge};
use crate::manifest::{
    annotations_for, cut_pairs, edge_view, has_scc_cut, inter_edge_view, lemma_cut_pairs, lowest_confidence,
    manifest_edge_views, stub_view, view_le, ManifestEdge, PodManifest,
};
use crate::order::{lemma_sort_by_permutes, sort_by};
use crate::pod::InterPodEdge;
use crate::text::{chars_of, decimal, push_decimal, push_str};

verus! {

/// Some edge of the pod pair carries cut annotations.
pub open spec fn has_annotated_edge(edges: Seq<ManifestEdge>, from_pod: usize, to_pod: usize) -> bool {
    exists|i: int| 0 <= i < edges.len() && (#[trigger] edges[i]).from_pod == from_pod && edges[i].to_pod == to_pod
        && edges[i].cut_annotations@.len() > 0
}

/// Some `rpc_stub` edge goes from `from_pod` to `to_pod`.
pub open spec fn has_stub(edges: Seq<ManifestEdge>, from_pod: usize, to_pod: usize) -> bool {
    exists|i: int| 0 <= i < edges.len() && (#[trigger] edges[i]).kind@ == "rpc_stub"@ && edges[i].from_pod == from_pod
        && edges[i].to_pod == to_pod
}

/// Some cut joins the pod pair.
pub open spec fn is_cut_pair(cuts: Seq<CutEdge>, from_pod: usize, to_pod: usize) -> bool {
    exists|i: int| 0 <= i < cuts.len() && (#[trigger] cuts[i]).from_pod == from_pod && cuts[i].to_pod == to_pod
}

/// A message about a pod pair: `text`, the pair in brackets, then `rest`.
pub open spec fn pair_message(text: Seq<char>, from_pod: usize, to_pod: usize, rest: Seq<char>) -> Seq<char> {
    text + "("@ + decimal(from_pod as nat) + ", "@ + decimal(to_pod as nat) + ")"@ + rest
}

/// The complaints about the cuts, in cut order: a missing annotated edge,
/// then a missing stub.
pub open spec fn cut_issues(edges: Seq<ManifestEdge>, cuts: Seq<CutEdge>) -> Seq<Seq<char>>
    decreases cuts.len(),
{
    if cuts.len() == 0 {
        Seq::empty()
    } else {
        let c = cuts.last();
        let prev = cut_issues(edges, cuts.drop_last());
        let a = if has_annotated_edge(edges, c.from_pod, c.to_pod) {
            prev
        } else {
            prev.push(pair_message("cut edge "@, c.from_pod, c.to_pod, " missing from manifest or missing cut annotation"@))
        };
        if has_stub(edges, c.from_pod, c.to_pod) {
            a
        } else {
            a.push(pair_message("cut edge "@, c.from_pod, c.to_pod, " has no corresponding 'rpc_stub' entry"@))
        }
    }
}

/// The complaints about annotated edges that no cut explains, in edge order.
pub open spec fn stray_issues(edges: Seq<ManifestEdge>, cuts: Seq<CutEdge>) -> Seq<Seq<char>>
    decreases edges.len(),
{
    if edges.len() == 0 {
        Seq::empty()
    } else {
        let e = edges.last();
        let prev = stray_issues(edges.drop_last(), cuts);
        if e.cut_annotations@.len() > 0 && !is_cut_pair(cuts, e.from_pod, e.to_pod) {
            prev.push(pair_message("edge "@, e.from_pod, e.to_pod, " has cut annotations but is not in the cut list"@))
        } else {
            prev
        }
    }
}

/// Every complaint of the fairness check.
pub open spec fn fairness_issues(edges: Seq<ManifestEdge>, cuts: Seq<CutEdge>) -> Seq<Seq<char>> {
    cut_issues(edges, cuts) + stray_issues(edges, cuts)
}

fn pair_text(text: &str, from_pod: usize, to_pod: usize, rest: &str) -> (r: String)
    ensures
        r@ == pair_message(text@, from_pod, to_pod, rest@),
{
    let mut s = String::new();
    push_str(&mut s, text);
    push_str(&mut s, "(");
    push_decimal(&mut s, from_pod);
    push_str(&mut s, ", ");
    push_decimal(&mut s, to_pod);
    push_str(&mut s, ")");
    push_str(&mut s, rest);
    proof {
        assert(s@ =~= pair_message(text@, from_pod, to_pod, rest@));
    }
    s
}

fn is_stub_kind(kind: &String) -> (r: bool)
    ensures
        r == (kind@ == "rpc_stub"@),
{
    let a = chars_of(kind.as_str());
    let b = chars_of("rpc_stub");
    crate::text::chars_eq(a.as_slice(), b.as_slice())
}

fn find_annotated(edges: &Vec<ManifestEdge>, from_pod: usize, to_pod: usize) -> (r: bool)
    ensures
        r == has_annotated_edge(edges@, from_pod, to_pod),
{
    let mut i: usize = 0;
    while i < edges.len()
        invariant
            0 <= i <= edges@.len(),
            forall|j: int| 0 <= j < i ==> !((#[trigger] edges@[j]).from_pod == from_pod && edges@[j].to_pod == to_pod
                && edges@[j].cut_annotations@.len() > 0),
        decreases edges@.len() - i,
    {
        let e = &edges[i];
        if e.from_pod == from_pod && e.to_pod == to_pod && e.cut_annotations.len() > 0 {
            proof { assert(edges@[i as int] == *e); }
            return true;
        }
        i = i + 1;
    }
    false
}

fn find_stub(edges: &Vec<ManifestEdge>, from_pod: usize, to_pod: usize) -> (r: bool)
    ensures
        r == has_stub(edges@, from_pod, to_pod),
{
    let mut i: usize = 0;
    while i < edges.len()
        invariant
            0 <= i <= edges@.len(),
            forall|j: int| 0 <= j < i ==> !((#[trigger] edges@[j]).kind@ == "rpc_stub"@ && edges@[j].from_pod == from_pod
                && edges@[j].to_pod == to_pod),
        decreases edges@.len() - i,
    {
        let e = &edges[i];
        if is_stub_kind(&e.kind) && e.from_pod == from_pod && e.to_pod == to_pod {
            proof { assert(edges@[i as int] == *e); }
            return true;
        }
        i = i + 1;
    }
    false
}

fn find_cut(cuts: &Vec<CutEdge>, from_pod: usize, to_pod: usize) -> (r: bool)
    ensures
        r == is_cut_pair(cuts@, from_pod, to_pod),
{
    let mut i: usize = 0;
    while i < cuts.len()
        invariant
            0 <= i <= cuts@.len(),
            forall|j: int| 0 <= j < i ==> !((#[trigger] cuts@[j]).from_pod == from_pod && cuts@[j].to_pod == to_pod),
        decreases cuts@.len() - i,
    {
        if cuts[i].from_pod == from_pod && cuts[i].to_pod == to_pod {
            proof { assert(cuts@[i as int] == cuts[i as int]); }
            return true;
        }
        i = i + 1;
    }
    false
}

/// Checks that every cut edge has an annotated manifest edge and an
/// `rpc_stub` edge of the same direction, and that no edge carries cut
/// annotations without a cut. Returns one message per problem.
pub fn check_cut_fairness(manifest: &PodManifest, cuts: &Vec<CutEdge>) -> (r: Vec<String>)
    ensures
        r@.map_values(|s: String| s@) == fairness_issues(manifest.edges@, cuts@),
{
    let edges = &manifest.edges;
    let mut out: Vec<String> = Vec::new();
    let mut k: usize = 0;
    while k < cuts.len()
        invariant
            edges == &manifest.edges,
            0 <= k <= cuts@.len(),
            out@.map_values(|s: String| s@) == cut_issues(edges@, cuts@.take(k as int)),
        decreases cuts@.len() - k,
    {
        let c = &cuts[k];
        proof {
            assert(cuts@.take(k + 1).drop_last() =~= cuts@.take(k as int));
            assert(cuts@.take(k + 1).last() == *c);
        }
        if !find_annotated(edges, c.from_pod, c.to_pod) {
            let ghost before = out@;
            out.push(pair_text("cut edge ", c.from_pod, c.to_pod, " missing from manifest or missing cut annotation"));
            proof {
                assert(out@.map_values(|s: String| s@) =~= before.map_values(|s: String| s@).push(out@.last()@));
            }
        }
        if !find_stub(edges, c.from_pod, c.to_pod) {
            let ghost before = out@;
            out.push(pair_text("cut edge ", c.from_pod, c.to_pod, " has no corresponding 'rpc_stub' entry"));
            proof {
                assert(out@.map_values(|s: String| s@) =~= before.map_values(|s: String| s@).push(out@.last()@));
            }
        }
        k = k + 1;
    }
    proof { assert(cuts@.take(k as int) =~= cuts@); }
    let ghost head = out@.map_values(|s: String| s@);
    let mut i: usize = 0;
    while i < edges.len()
        invariant
            edges == &manifest.edges,
            0 <= i <= edges@.len(),
            out@.map_values(|s: String| s@) == head + stray_issues(edges@.take(i as int), cuts@),
        decreases edges@.len() - i,
    {
        let e = &edges[i];
        proof {
            assert(edges@.take(i + 1).drop_last() =~= edges@.take(i as int));
            assert(edges@.take(i + 1).last() == *e);
        }
        if e.cut_annotations.len() > 0 && !find_cut(cuts, e.from_pod, e.to_pod) {
            let ghost before = out@;
            out.push(pair_text("edge ", e.from_pod, e.to_pod, " has cut annotations but is not in the cut list"));
            proof {
                assert(out@.map_values(|s: String| s@) =~= before.map_values(|s: String| s@).push(out@.last()@));
            }
        }
        i = i + 1;
    }
    proof { assert(edges@.take(i as int) =~= edges@); }
    out
}

/// A manifest built from a list of cuts passes the fairness check against
/// those cuts: every cut pair has its annotated `rpc_stub` edge, and every
/// annotated edge belongs to a cut pair.
pub proof fn lemma_generated_manifest_is_fair(edges: Seq<ManifestEdge>, inter: Seq<InterPodEdge>, cuts: Seq<CutEdge>)
    requires
        edges.map_values(|e: ManifestEdge| edge_view(e)) == sort_by(
            manifest_edge_views(inter, cuts),
            |a: (usize, usize, Seq<char>, u32, bool, Seq<CutAnnotation>), b: (usize, usize, Seq<char>, u32, bool, Seq<CutAnnotation>)|
                view_le(a, b),
        ),
    ensures
        fairness_issues(edges, cuts) == Seq::<Seq<char>>::empty(),
{
    let le = |a: (usize, usize, Seq<char>, u32, bool, Seq<CutAnnotation>), b: (usize, usize, Seq<char>, u32, bool, Seq<CutAnnotation>)|
        view_le(a, b);
    let views = manifest_edge_views(inter, cuts);
    let head = inter.map_values(|e: InterPodEdge| inter_edge_view(e, cuts));
    let stubs = cut_pairs(cuts).map_values(|pair: (usize, usize)| stub_view(cuts, pair));
    assert(views == head + stubs);
    lemma_sort_by_permutes(views, le);
    let ev = edges.map_values(|e: ManifestEdge| edge_view(e));
    // every cut finds its annotated stub
    assert forall|k: int| 0 <= k <= cuts.len() implies #[trigger] cut_issues(edges, cuts.take(k)) == Seq::<Seq<char>>::empty() by {
        lemma_no_cut_issues(edges, cuts, k, views, ev, stubs, head);
    }
    assert(cuts.take(cuts.len() as int) =~= cuts);
    // every annotated edge belongs to a cut pair
    assert forall|k: int| 0 <= k <= edges.len() implies #[trigger] stray_issues(edges.take(k), cuts) == Seq::<Seq<char>>::empty() by {
        lemma_no_stray_issues(edges, cuts, k, views, ev, stubs, head);
    }
    assert(edges.take(edges.len() as int) =~= edges);
    assert(fairness_issues(edges, cuts) =~= Seq::<Seq<char>>::empty());
}

proof fn lemma_no_cut_issues(
    edges: Seq<ManifestEdge>,
    cuts: Seq<CutEdge>,
    k: int,
    views: Seq<(usize, usize, Seq<char>, u32, bool, Seq<CutAnnotation>)>,
    ev: Seq<(usize, usize, Seq<char>, u32, bool, Seq<CutAnnotation>)>,
    stubs: Seq<(usize, usize, Seq<char>, u32, bool, Seq<CutAnnotation>)>,
    head: Seq<(usize, usize, Seq<char>, u32, bool, Seq<CutAnnotation>)>,
)
    requires
        0 <= k <= cuts.len(),
        views == head + stubs,
        stubs == cut_pairs(cuts).map_values(|pair: (usize, usize)| stub_view(cuts, pair)),
        ev == edges.map_values(|e: ManifestEdge| edge_view(e)),
        forall|x: (usize, usize, Seq<char>, u32, bool, Seq<CutAnnotation>)| ev.contains(x) <==> views.contains(x),
    ensures
        cut_issues(edges, cuts.take(k)) == Seq::<Seq<char>>::empty(),
    decreases k,
{
    if k > 0 {
        lemma_no_cut_issues(edges, cuts, k - 1, views, ev, stubs, head);
        let t = cuts.take(k);
        assert(t.drop_last() =~= cuts.take(k - 1));
        let c = t.last();
        assert(c == cuts[k - 1]);
        let pair = (c.from_pod, c.to_pod);
        lemma_cut_pairs(cuts, pair);
        assert(cuts[k - 1].from_pod == pair.0 && cuts[k - 1].to_pod == pair.1);
        assert(cut_pairs(cuts).contains(pair));
        let q = choose|q: int| 0 <= q < cut_pairs(cuts).len() && cut_pairs(cuts)[q] == pair;
        let sv = stub_view(cuts, pair);
        assert(stubs[q] == sv);
        assert(views[head.len() + q] == sv);
        assert(views.contains(sv));
        assert(ev.contains(sv));
        let w = choose|w: int| 0 <= w < ev.len() && ev[w] == sv;
        assert(edge_view(edges[w]) == sv);
        assert(edges[w].kind@ == "rpc_stub"@);
        assert(has_stub(edges, c.from_pod, c.to_pod));
        assert(has_annotated_edge(edges, c.from_pod, c.to_pod));
    }
}

proof fn lemma_no_stray_issues(
    edges: Seq<ManifestEdge>,
    cuts: Seq<CutEdge>,
    k: int,
    views: Seq<(usize, usize, Seq<char>, u32, bool, Seq<CutAnnotation>)>,
    ev: Seq<(usize, usize, Seq<char>, u32, bool, Seq<CutAnnotation>)>,
    stubs: Seq<(usize, usize, Seq<char>, u32, bool, Seq<CutAnnotation>)>,
    head: Seq<(usize, usize, Seq<char>, u32, bool, Seq<CutAnnotation>)>,
)
    requires
        0 <= k <= edges.len(),
        views == head + stubs,
        stubs == cut_pairs(cuts).map_values(|pair: (usize, usize)| stub_view(cuts, pair)),
        forall|i: int| 0 <= i < head.len() ==> (#[trigger] head[i]).5 == annotations_for(cuts, (head[i].0, head[i].1)),
        ev == edges.map_values(|e: ManifestEdge| edge_view(e)),
        forall|x: (usize, usize, Seq<char>, u32, bool, Seq<CutAnnotation>)| ev.contains(x) <==> views.contains(x),
    ensures
        stray_issues(edges.take(k), cuts) == Seq::<Seq<char>>::empty(),
    decreases k,
{
    if k > 0 {
        lemma_no_stray_issues(edges, cuts, k - 1, views, ev, stubs, head);
        let t = edges.take(k);
        assert(t.drop_last() =~= edges.take(k - 1));
        let e = t.last();
        assert(e == edges[k - 1]);
        if e.cut_annotations@.len() > 0 {
            let pair = (e.from_pod, e.to_pod);
            assert(ev[k - 1] == edge_view(e));
            assert(ev.contains(edge_view(e)));
            assert(views.contains(edge_view(e)));
            let w = choose|w: int| 0 <= w < views.len() && views[w] == edge_view(e);
            lemma_cut_pairs(cuts, pair);
            if w < head.len() {
                assert(head[w] == views[w]);
                assert(annotations_for(cuts, pair).len() > 0);
            } else {
                let q = w - head.len();
                assert(stubs[q] == views[w]);
                assert(cut_pairs(cuts)[q] == pair);
                assert(cut_pairs(cuts).contains(pair));
            }
            assert(cut_pairs(cuts).contains(pair));
            let i = choose|i: int| 0 <= i < cuts.len() && (#[trigger] cuts[i]).from_pod == pair.0 && cuts[i].to_pod == pair.1;
            assert(is_cut_pair(cuts, e.from_pod, e.to_pod));
        }
    }
}

} // verus!
