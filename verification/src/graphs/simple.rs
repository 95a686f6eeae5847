//! An adjacency-list graph: each vertex owns the list of its neighbors,
//! stored as an association list, plus a separate weight map keyed by
//! ordered vertex pairs. No duplicate vertices, no duplicate edges.

use vstd::prelude::*;

use crate::error::GraphError;
use crate::traits::graph::Graph;
use crate::traits::graph::GraphMut;
use crate::traits::graph::vertex_views;
use crate::traits::value::EdgeWeight;
use crate::traits::value::VertexKey;
use crate::traits::weighted::WeightedGraph;
use crate::traits::weighted::WeightedGraphMut;

verus! {

/// One vertex together with the list of its neighbors.
struct AdjEntry<V> {
    vertex: V,
    nbrs: Vec<V>,
}

/// One recorded weight for the ordered pair `(src, dst)`.
struct WeightEntry<V, W> {
    src: V,
    dst: V,
    weight: W,
}

/// A simple graph (no duplicate vertices or edges) over an adjacency
/// list, with an independent weight map. Directedness is fixed at
/// construction: an undirected graph stores every edge mirrored.
pub struct SimpleGraph<V, W = ()> {
    adj: Vec<AdjEntry<V>>,
    weights: Vec<WeightEntry<V, W>>,
    directed: bool,
}

/// The vertex views keying an adjacency sequence, in storage order.
spec fn keys_of<V: VertexKey>(s: Seq<AdjEntry<V>>) -> Seq<<V as View>::V> {
    s.map_values(|e: AdjEntry<V>| e.vertex@)
}

/// Whether some entry of `s` is keyed by `v`.
spec fn ahas<V: VertexKey>(s: Seq<AdjEntry<V>>, v: <V as View>::V) -> bool {
    exists|i: int| 0 <= i < s.len() && (#[trigger] s[i].vertex)@ == v
}

/// The index of the entry keyed by `v` (unique when the keys have no
/// duplicate views).
spec fn aidx<V: VertexKey>(s: Seq<AdjEntry<V>>, v: <V as View>::V) -> int {
    choose|i: int| 0 <= i < s.len() && (#[trigger] s[i].vertex)@ == v
}

/// The neighbor views recorded for `v` in `s`; empty when `v` is
/// absent.
spec fn nset_of<V: VertexKey>(s: Seq<AdjEntry<V>>, v: <V as View>::V) -> Set<<V as View>::V> {
    if ahas(s, v) {
        vertex_views(s[aidx(s, v)].nbrs@).to_set()
    } else {
        Set::empty()
    }
}

/// The weight keys of a weight sequence, as view pairs, in storage
/// order.
spec fn wkeys_of<V: VertexKey, W: EdgeWeight>(s: Seq<WeightEntry<V, W>>) -> Seq<
    (<V as View>::V, <V as View>::V),
> {
    s.map_values(|e: WeightEntry<V, W>| (e.src@, e.dst@))
}

/// Whether some entry of `s` is keyed by the view pair `k`.
spec fn whas<V: VertexKey, W: EdgeWeight>(
    s: Seq<WeightEntry<V, W>>,
    k: (<V as View>::V, <V as View>::V),
) -> bool {
    exists|j: int| 0 <= j < s.len() && ((#[trigger] s[j].src)@, s[j].dst@) == k
}

/// The index of the weight entry keyed by `k`.
spec fn widx<V: VertexKey, W: EdgeWeight>(
    s: Seq<WeightEntry<V, W>>,
    k: (<V as View>::V, <V as View>::V),
) -> int {
    choose|j: int| 0 <= j < s.len() && ((#[trigger] s[j].src)@, s[j].dst@) == k
}

/// The weight map recorded by a weight sequence.
spec fn wmap_of<V: VertexKey, W: EdgeWeight>(s: Seq<WeightEntry<V, W>>) -> Map<
    (<V as View>::V, <V as View>::V),
    <W as View>::V,
> {
    Map::new(
        |k: (<V as View>::V, <V as View>::V)| whas(s, k),
        |k: (<V as View>::V, <V as View>::V)| s[widx(s, k)].weight@,
    )
}

/// The entry at index `i` is the unique one for its key, and the key
/// set is the set of key views.
proof fn lemma_adj_entry<V: VertexKey>(s: Seq<AdjEntry<V>>, i: int)
    requires
        keys_of(s).no_duplicates(),
        0 <= i < s.len(),
    ensures
        ahas(s, s[i].vertex@),
        aidx(s, s[i].vertex@) == i,
        nset_of(s, s[i].vertex@) == vertex_views(s[i].nbrs@).to_set(),
{
    let v = s[i].vertex@;
    assert(ahas(s, v));
    let j = aidx(s, v);
    assert(0 <= j < s.len() && s[j].vertex@ == v);
    assert(keys_of(s)[j] == v && keys_of(s)[i] == v);
    assert(j == i);
}

/// A view is among the key views exactly when some entry is keyed by
/// it.
proof fn lemma_keys_contain<V: VertexKey>(s: Seq<AdjEntry<V>>)
    ensures
        forall|v: <V as View>::V| keys_of(s).to_set().contains(v) == ahas(s, v),
{
    assert forall|v: <V as View>::V| keys_of(s).to_set().contains(v) == ahas(s, v) by {
        if ahas(s, v) {
            let i = aidx(s, v);
            assert(0 <= i < s.len() && s[i].vertex@ == v);
            assert(keys_of(s)[i] == v);
        }
        if keys_of(s).to_set().contains(v) {
            let i = choose|i: int| 0 <= i < keys_of(s).len() && #[trigger] keys_of(s)[i] == v;
            assert((#[trigger] s[i].vertex)@ == v);
        }
    }
}

/// The weight entry at index `j` is the unique one for its key, and
/// the map records its weight.
proof fn lemma_weight_entry<V: VertexKey, W: EdgeWeight>(s: Seq<WeightEntry<V, W>>, j: int)
    requires
        wkeys_of(s).no_duplicates(),
        0 <= j < s.len(),
    ensures
        whas(s, (s[j].src@, s[j].dst@)),
        widx(s, (s[j].src@, s[j].dst@)) == j,
        wmap_of(s).contains_key((s[j].src@, s[j].dst@)),
        wmap_of(s)[(s[j].src@, s[j].dst@)] == s[j].weight@,
{
    let k = (s[j].src@, s[j].dst@);
    assert(whas(s, k));
    let j2 = widx(s, k);
    assert(0 <= j2 < s.len() && (s[j2].src@, s[j2].dst@) == k);
    assert(wkeys_of(s)[j2] == k && wkeys_of(s)[j] == k);
    assert(j2 == j);
}

/// Appending an entry with a fresh key adds one vertex and leaves
/// every other neighbor set unchanged.
proof fn lemma_adj_push<V: VertexKey>(s: Seq<AdjEntry<V>>, e: AdjEntry<V>)
    requires
        keys_of(s).no_duplicates(),
        !ahas(s, e.vertex@),
    ensures
        keys_of(s.push(e)) == keys_of(s).push(e.vertex@),
        keys_of(s.push(e)).no_duplicates(),
        forall|x: <V as View>::V| ahas(s.push(e), x) == (ahas(s, x) || x == e.vertex@),
        nset_of(s.push(e), e.vertex@) == vertex_views(e.nbrs@).to_set(),
        forall|x: <V as View>::V| x != e.vertex@ ==> nset_of(s.push(e), x) == nset_of(s, x),
{
    let s2 = s.push(e);
    assert(keys_of(s2) =~= keys_of(s).push(e.vertex@));
    assert forall|i: int| 0 <= i < s.len() implies #[trigger] keys_of(s)[i] != e.vertex@ by {
        assert(s[i].vertex@ != e.vertex@);
    }
    assert(keys_of(s2).no_duplicates());
    assert forall|x: <V as View>::V|
        ahas(s2, x) == (ahas(s, x) || x == e.vertex@) by {
        if ahas(s2, x) {
            let i = choose|i: int| 0 <= i < s2.len() && (#[trigger] s2[i].vertex)@ == x;
            if i < s.len() {
                assert(s[i].vertex@ == x);
            }
        }
        if ahas(s, x) {
            let i = choose|i: int| 0 <= i < s.len() && (#[trigger] s[i].vertex)@ == x;
            assert(s2[i].vertex@ == x);
        }
        if x == e.vertex@ {
            assert(s2[s.len() as int].vertex@ == x);
        }
    }
    lemma_adj_entry(s2, s.len() as int);
    assert forall|x: <V as View>::V|
        x != e.vertex@ implies nset_of(s2, x) == nset_of(s, x) by {
        if ahas(s, x) {
            let i = aidx(s, x);
            assert(0 <= i < s.len() && s[i].vertex@ == x);
            lemma_adj_entry(s, i);
            lemma_adj_entry(s2, i);
            assert(s2[i] == s[i]);
        } else {
            assert(!ahas(s2, x));
        }
    }
}

/// Replacing the entry at `i` by one with the same key leaves every
/// other neighbor set unchanged.
proof fn lemma_adj_update<V: VertexKey>(s: Seq<AdjEntry<V>>, i: int, e: AdjEntry<V>)
    requires
        keys_of(s).no_duplicates(),
        0 <= i < s.len(),
        e.vertex@ == s[i].vertex@,
    ensures
        keys_of(s.update(i, e)) == keys_of(s),
        keys_of(s.update(i, e)).no_duplicates(),
        forall|x: <V as View>::V| ahas(s.update(i, e), x) == ahas(s, x),
        nset_of(s.update(i, e), e.vertex@) == vertex_views(e.nbrs@).to_set(),
        forall|x: <V as View>::V|
            x != e.vertex@ ==> nset_of(s.update(i, e), x) == nset_of(s, x),
{
    let s2 = s.update(i, e);
    assert(keys_of(s2) =~= keys_of(s));
    assert forall|x: <V as View>::V| ahas(s2, x) == ahas(s, x) by {
        if ahas(s2, x) {
            let t = choose|t: int| 0 <= t < s2.len() && (#[trigger] s2[t].vertex)@ == x;
            if t == i {
                assert(s[i].vertex@ == x);
            } else {
                assert(s[t].vertex@ == x);
            }
        }
        if ahas(s, x) {
            let t = choose|t: int| 0 <= t < s.len() && (#[trigger] s[t].vertex)@ == x;
            if t == i {
                assert(s2[i].vertex@ == x);
            } else {
                assert(s2[t].vertex@ == x);
            }
        }
    }
    lemma_adj_entry(s2, i);
    assert forall|x: <V as View>::V|
        x != e.vertex@ implies nset_of(s2, x) == nset_of(s, x) by {
        if ahas(s, x) {
            let t = aidx(s, x);
            assert(0 <= t < s.len() && s[t].vertex@ == x);
            lemma_adj_entry(s, t);
            lemma_adj_entry(s2, t);
            assert(s2[t] == s[t]);
        }
    }
}

/// Removing the entry at `i` discards exactly its vertex, leaving
/// every other neighbor set unchanged.
proof fn lemma_adj_remove<V: VertexKey>(s: Seq<AdjEntry<V>>, i: int)
    requires
        keys_of(s).no_duplicates(),
        0 <= i < s.len(),
    ensures
        keys_of(s.remove(i)) == keys_of(s).remove(i),
        keys_of(s.remove(i)).no_duplicates(),
        forall|x: <V as View>::V| ahas(s.remove(i), x) == (ahas(s, x) && x != s[i].vertex@),
        forall|x: <V as View>::V|
            x != s[i].vertex@ ==> nset_of(s.remove(i), x) == nset_of(s, x),
{
    let s2 = s.remove(i);
    let xi = s[i].vertex@;
    assert(keys_of(s2) =~= keys_of(s).remove(i));
    lemma_seq_remove_to_set(keys_of(s), i);
    assert forall|x: <V as View>::V|
        ahas(s2, x) == (ahas(s, x) && x != xi) by {
        if ahas(s2, x) {
            let t = choose|t: int| 0 <= t < s2.len() && (#[trigger] s2[t].vertex)@ == x;
            let t0 = if t < i { t } else { t + 1 };
            assert(s2[t] == s[t0]);
            assert(s[t0].vertex@ == x);
            if x == xi {
                assert(keys_of(s)[t0] == x && keys_of(s)[i] == x);
                assert(false);
            }
        }
        if ahas(s, x) && x != xi {
            let t = choose|t: int| 0 <= t < s.len() && (#[trigger] s[t].vertex)@ == x;
            assert(t != i);
            let t2 = if t < i { t } else { t - 1 };
            assert(s2[t2] == s[t]);
            assert(s2[t2].vertex@ == x);
        }
    }
    assert forall|x: <V as View>::V|
        x != xi implies nset_of(s2, x) == nset_of(s, x) by {
        if ahas(s, x) {
            let t = aidx(s, x);
            assert(0 <= t < s.len() && s[t].vertex@ == x);
            lemma_adj_entry(s, t);
            assert(t != i);
            let t2 = if t < i { t } else { t - 1 };
            assert(s2[t2] == s[t]);
            lemma_adj_entry(s2, t2);
        } else {
            assert(!ahas(s2, x));
        }
    }
}

/// Appending a weight entry with a fresh key records exactly that
/// weight.
proof fn lemma_weight_push<V: VertexKey, W: EdgeWeight>(s: Seq<WeightEntry<V, W>>, e: WeightEntry<V, W>)
    requires
        wkeys_of(s).no_duplicates(),
        !whas(s, (e.src@, e.dst@)),
    ensures
        wkeys_of(s.push(e)) == wkeys_of(s).push((e.src@, e.dst@)),
        wkeys_of(s.push(e)).no_duplicates(),
        wmap_of(s.push(e)) == wmap_of(s).insert((e.src@, e.dst@), e.weight@),
        forall|k: (<V as View>::V, <V as View>::V)|
            whas(s.push(e), k) == (whas(s, k) || k == (e.src@, e.dst@)),
{
    let s2 = s.push(e);
    let ke = (e.src@, e.dst@);
    assert(wkeys_of(s2) =~= wkeys_of(s).push(ke));
    assert forall|j: int| 0 <= j < s.len() implies #[trigger] wkeys_of(s)[j] != ke by {
        assert((s[j].src@, s[j].dst@) != ke);
    }
    assert(wkeys_of(s2).no_duplicates());
    lemma_weight_entry(s2, s.len() as int);
    assert forall|k: (<V as View>::V, <V as View>::V)|
        whas(s2, k) == (whas(s, k) || k == ke) by {
        if whas(s2, k) {
            let j = choose|j: int|
                0 <= j < s2.len() && ((#[trigger] s2[j].src)@, s2[j].dst@) == k;
            if j < s.len() {
                assert((s[j].src@, s[j].dst@) == k);
            }
        }
        if whas(s, k) {
            let j = choose|j: int|
                0 <= j < s.len() && ((#[trigger] s[j].src)@, s[j].dst@) == k;
            assert((s2[j].src@, s2[j].dst@) == k);
        }
        if k == ke {
            assert((s2[s.len() as int].src@, s2[s.len() as int].dst@) == k);
        }
    }
    assert(wmap_of(s2) =~= wmap_of(s).insert(ke, e.weight@)) by {
        assert forall|k: (<V as View>::V, <V as View>::V)|
            whas(s, k) && k != ke implies wmap_of(s2)[k] == wmap_of(s)[k] by {
            let j = widx(s, k);
            assert(0 <= j < s.len() && (s[j].src@, s[j].dst@) == k);
            lemma_weight_entry(s, j);
            lemma_weight_entry(s2, j);
            assert(s2[j] == s[j]);
        }
    }
}

/// Replacing the weight entry at `j` by one with the same key
/// overwrites exactly that weight.
proof fn lemma_weight_update<V: VertexKey, W: EdgeWeight>(
    s: Seq<WeightEntry<V, W>>,
    j: int,
    e: WeightEntry<V, W>,
)
    requires
        wkeys_of(s).no_duplicates(),
        0 <= j < s.len(),
        e.src@ == s[j].src@,
        e.dst@ == s[j].dst@,
    ensures
        wkeys_of(s.update(j, e)) == wkeys_of(s),
        wkeys_of(s.update(j, e)).no_duplicates(),
        wmap_of(s.update(j, e)) == wmap_of(s).insert((e.src@, e.dst@), e.weight@),
        forall|k: (<V as View>::V, <V as View>::V)| whas(s.update(j, e), k) == whas(s, k),
{
    let s2 = s.update(j, e);
    let ke = (e.src@, e.dst@);
    assert(wkeys_of(s2) =~= wkeys_of(s));
    assert forall|k: (<V as View>::V, <V as View>::V)| whas(s2, k) == whas(s, k) by {
        if whas(s2, k) {
            let t = choose|t: int| 0 <= t < s2.len() && ((#[trigger] s2[t].src)@, s2[t].dst@) == k;
            if t == j {
                assert((s[j].src@, s[j].dst@) == k);
            } else {
                assert((s[t].src@, s[t].dst@) == k);
            }
        }
        if whas(s, k) {
            let t = choose|t: int| 0 <= t < s.len() && ((#[trigger] s[t].src)@, s[t].dst@) == k;
            if t == j {
                assert((s2[j].src@, s2[j].dst@) == k);
            } else {
                assert((s2[t].src@, s2[t].dst@) == k);
            }
        }
    }
    lemma_weight_entry(s2, j);
    assert(wmap_of(s2) =~= wmap_of(s).insert(ke, e.weight@)) by {
        assert forall|k: (<V as View>::V, <V as View>::V)|
            whas(s, k) && k != ke implies wmap_of(s2)[k] == wmap_of(s)[k] by {
            let t = widx(s, k);
            assert(0 <= t < s.len() && (s[t].src@, s[t].dst@) == k);
            lemma_weight_entry(s, t);
            lemma_weight_entry(s2, t);
            assert(s2[t] == s[t]);
        }
    }
}

/// Removing the weight entry at `j` discards exactly that key.
proof fn lemma_weight_remove<V: VertexKey, W: EdgeWeight>(s: Seq<WeightEntry<V, W>>, j: int)
    requires
        wkeys_of(s).no_duplicates(),
        0 <= j < s.len(),
    ensures
        wkeys_of(s.remove(j)).no_duplicates(),
        wmap_of(s.remove(j)) == wmap_of(s).remove((s[j].src@, s[j].dst@)),
        forall|k: (<V as View>::V, <V as View>::V)|
            #[trigger] whas(s.remove(j), k) == (whas(s, k) && k != (s[j].src@, s[j].dst@)),
{
    let s2 = s.remove(j);
    let kj = (s[j].src@, s[j].dst@);
    assert(wkeys_of(s2) =~= wkeys_of(s).remove(j));
    assert(wkeys_of(s).remove(j).no_duplicates()) by {
        assert forall|a: int, b: int|
            0 <= a < b < wkeys_of(s).remove(j).len() implies wkeys_of(s).remove(j)[a]
            != wkeys_of(s).remove(j)[b] by {
            let a0 = if a < j { a } else { a + 1 };
            let b0 = if b < j { b } else { b + 1 };
            assert(wkeys_of(s).remove(j)[a] == wkeys_of(s)[a0]);
            assert(wkeys_of(s).remove(j)[b] == wkeys_of(s)[b0]);
        }
    }
    assert forall|k: (<V as View>::V, <V as View>::V)|
        whas(s2, k) == (whas(s, k) && k != kj) by {
        if whas(s2, k) {
            let t = choose|t: int| 0 <= t < s2.len() && ((#[trigger] s2[t].src)@, s2[t].dst@) == k;
            let t0 = if t < j { t } else { t + 1 };
            assert(s2[t] == s[t0]);
            assert((s[t0].src@, s[t0].dst@) == k);
            if k == kj {
                assert(wkeys_of(s)[t0] == k && wkeys_of(s)[j] == k);
                assert(false);
            }
        }
        if whas(s, k) && k != kj {
            let t = choose|t: int| 0 <= t < s.len() && ((#[trigger] s[t].src)@, s[t].dst@) == k;
            assert(t != j);
            let t2 = if t < j { t } else { t - 1 };
            assert(s2[t2] == s[t]);
            assert((s2[t2].src@, s2[t2].dst@) == k);
        }
    }
    assert(wmap_of(s2) =~= wmap_of(s).remove(kj)) by {
        assert forall|k: (<V as View>::V, <V as View>::V)|
            whas(s2, k) implies wmap_of(s2)[k] == wmap_of(s)[k] by {
            let t = widx(s2, k);
            assert(0 <= t < s2.len() && (s2[t].src@, s2[t].dst@) == k);
            lemma_weight_entry(s2, t);
            let t0 = if t < j { t } else { t + 1 };
            assert(s2[t] == s[t0]);
            lemma_weight_entry(s, t0);
        }
    }
}

/// Removing one element of a duplicate-free sequence removes exactly
/// it from the element set.
proof fn lemma_seq_remove_to_set<T>(s: Seq<T>, k: int)
    requires
        s.no_duplicates(),
        0 <= k < s.len(),
    ensures
        s.remove(k).no_duplicates(),
        s.remove(k).to_set() == s.to_set().remove(s[k]),
{
    let s2 = s.remove(k);
    assert forall|a: int, b: int| 0 <= a < b < s2.len() implies s2[a] != s2[b] by {
        let a0 = if a < k { a } else { a + 1 };
        let b0 = if b < k { b } else { b + 1 };
        assert(s2[a] == s[a0] && s2[b] == s[b0]);
    }
    assert(s2.to_set() =~= s.to_set().remove(s[k])) by {
        assert forall|y: T| s2.to_set().contains(y) == (s.to_set().contains(y) && y != s[k]) by {
            if s2.to_set().contains(y) {
                let t = choose|t: int| 0 <= t < s2.len() && #[trigger] s2[t] == y;
                let t0 = if t < k { t } else { t + 1 };
                assert(s[t0] == y);
                assert(t0 != k ==> y != s[k]);
            }
            if s.to_set().contains(y) && y != s[k] {
                let t = choose|t: int| 0 <= t < s.len() && #[trigger] s[t] == y;
                assert(t != k);
                let t2 = if t < k { t } else { t - 1 };
                assert(s2[t2] == y);
            }
        }
    }
}

/// Whether the weight keys of `s2` are exactly those of `s1` with
/// `key` discarded.
spec fn wkeys_minus<V: VertexKey, W: EdgeWeight>(
    s2: Seq<WeightEntry<V, W>>,
    s1: Seq<WeightEntry<V, W>>,
    key: (<V as View>::V, <V as View>::V),
) -> bool {
    forall|k: (<V as View>::V, <V as View>::V)|
        #[trigger] whas(s2, k) == (whas(s1, k) && k != key)
}

/// Whether the weight keys of `s2` are exactly those of `s1` with
/// both `k1` and `k2` discarded.
spec fn wkeys_minus2<V: VertexKey, W: EdgeWeight>(
    s2: Seq<WeightEntry<V, W>>,
    s1: Seq<WeightEntry<V, W>>,
    k1: (<V as View>::V, <V as View>::V),
    k2: (<V as View>::V, <V as View>::V),
) -> bool {
    forall|k: (<V as View>::V, <V as View>::V)|
        #[trigger] whas(s2, k) == (whas(s1, k) && k != k1 && k != k2)
}

/// Whether the weight keys of `s2` are exactly those of `s1` plus
/// `key`.
spec fn wkeys_plus<V: VertexKey, W: EdgeWeight>(
    s2: Seq<WeightEntry<V, W>>,
    s1: Seq<WeightEntry<V, W>>,
    key: (<V as View>::V, <V as View>::V),
) -> bool {
    forall|k: (<V as View>::V, <V as View>::V)|
        #[trigger] whas(s2, k) == (whas(s1, k) || k == key)
}

/// Whether the weight keys of `s2` are exactly those of `s1` plus
/// `k1` and `k2`.
spec fn wkeys_plus2<V: VertexKey, W: EdgeWeight>(
    s2: Seq<WeightEntry<V, W>>,
    s1: Seq<WeightEntry<V, W>>,
    k1: (<V as View>::V, <V as View>::V),
    k2: (<V as View>::V, <V as View>::V),
) -> bool {
    forall|k: (<V as View>::V, <V as View>::V)|
        #[trigger] whas(s2, k) == (whas(s1, k) || k == k1 || k == k2)
}

/// Whether none of the first `bound` weight entries of `s` touches
/// the vertex view `xv`.
spec fn wprefix_clean<V: VertexKey, W: EdgeWeight>(
    s: Seq<WeightEntry<V, W>>,
    bound: int,
    xv: <V as View>::V,
) -> bool {
    forall|t: int| 0 <= t < bound ==> (#[trigger] s[t].src)@ != xv && s[t].dst@ != xv
}

/// The pairs tagging each element of `n` with the fixed first
/// component `v`.
spec fn tagged_pairs<A, B>(v: A, n: Set<B>) -> Set<(A, B)> {
    Set::new(|p: (A, B)| p.0 == v && n.contains(p.1))
}

/// Tagging a finite set keeps its cardinality.
proof fn lemma_tagged_card<A, B>(v: A, n: Set<B>)
    requires
        n.finite(),
    ensures
        tagged_pairs(v, n).finite(),
        tagged_pairs(v, n).len() == n.len(),
    decreases n.len(),
{
    if n.len() == 0 {
        assert(tagged_pairs(v, n) =~= Set::empty());
    } else {
        let x = n.choose();
        assert(n.contains(x));
        lemma_tagged_card(v, n.remove(x));
        assert(tagged_pairs(v, n) =~= tagged_pairs(v, n.remove(x)).insert((v, x)));
        assert(!tagged_pairs(v, n.remove(x)).contains((v, x)));
    }
}

impl<V: VertexKey, W: EdgeWeight> SimpleGraph<V, W> {
    /// The structural invariant.
    spec fn inv(&self) -> bool {
        &&& keys_of(self.adj@).no_duplicates()
        &&& (forall|i: int|
            0 <= i < self.adj@.len() ==> vertex_views(
                #[trigger] self.adj@[i].nbrs@,
            ).no_duplicates())
        &&& (forall|u: <V as View>::V, v: <V as View>::V|
            #[trigger] nset_of(self.adj@, u).contains(v) ==> ahas(self.adj@, v))
        &&& wkeys_of(self.weights@).no_duplicates()
        &&& (forall|j: int|
            0 <= j < self.weights@.len() ==> nset_of(
                self.adj@,
                (#[trigger] self.weights@[j].src)@,
            ).contains(self.weights@[j].dst@))
        &&& (!self.directed ==> (forall|u: <V as View>::V, v: <V as View>::V|
            #[trigger] nset_of(self.adj@, u).contains(v) ==> nset_of(self.adj@, v).contains(u)))
        &&& (!self.directed ==> (forall|j: int|
            0 <= j < self.weights@.len() ==> whas(
                self.weights@,
                ((#[trigger] self.weights@[j].dst)@, self.weights@[j].src@),
            ) && wmap_of(self.weights@)[(self.weights@[j].dst@, self.weights@[j].src@)]
                == self.weights@[j].weight@))
    }

    /// In a well-formed graph the set of neighbor pairs is finite,
    /// so `edge_count` can be asked for.
    pub proof fn edge_pairs_finite(&self)
        requires
            self.wf(),
        ensures
            self.edge_pair_set().finite(),
    {
        self.lemma_pairs_full();
    }

    /// Count consistency: in a well-formed undirected graph without
    /// self-loops, the stored neighbor pairs cover each unordered
    /// edge exactly twice, so `edge_count` is the number of distinct
    /// unordered pairs with an edge.
    pub proof fn lemma_undirected_edge_count(&self)
        requires
            self.wf(),
            !self.directed(),
            forall|v: <V as View>::V| !(#[trigger] self.neighbor_set(v)).contains(v),
        ensures
            self.edge_pair_set().finite(),
            crate::traits::graph::unordered_pairs(self.edge_pair_set()).finite(),
            self.edge_pair_set().len() == 2 * crate::traits::graph::unordered_pairs(
                self.edge_pair_set(),
            ).len(),
            self.edge_pair_set().len() / 2 == crate::traits::graph::unordered_pairs(
                self.edge_pair_set(),
            ).len(),
    {
        self.lemma_pairs_full();
        self.undirected_edges_symmetric();
        let e = self.edge_pair_set();
        assert forall|p: (<V as View>::V, <V as View>::V)|
            #[trigger] e.contains(p) implies e.contains((p.1, p.0)) by {
            assert(self.neighbor_set(p.0).contains(p.1));
        }
        assert forall|p: (<V as View>::V, <V as View>::V)|
            #[trigger] e.contains(p) implies p.0 != p.1 by {
            assert(self.neighbor_set(p.0).contains(p.1));
        }
        crate::traits::graph::lemma_symmetric_pairs_halve(e);
    }

    /// Isolated-vertex detection: an endpoint of an edge is not
    /// isolated; in an undirected graph neither endpoint is.
    pub proof fn lemma_edge_endpoints_not_isolated(
        &self,
        u: <V as View>::V,
        v: <V as View>::V,
    )
        requires
            self.wf(),
            self.neighbor_set(u).contains(v),
        ensures
            !self.isolated_set().contains(u),
            !self.directed() ==> !self.isolated_set().contains(v),
    {
        assert(!self.neighbor_set(u).is_empty());
        if !self.directed() {
            self.undirected_edges_symmetric();
            assert(self.neighbor_set(v).contains(u));
            assert(!self.neighbor_set(v).is_empty());
        }
    }

    /// Finds the adjacency entry keyed like `v`, if any.
    fn find_vertex(&self, v: &V) -> (r: Option<usize>)
        ensures
            match r {
                Some(i) => i < self.adj@.len() && self.adj@[i as int].vertex@ == v@,
                None => !ahas(self.adj@, v@),
            },
    {
        let n = self.adj.len();
        for i in 0..n
            invariant
                n == self.adj@.len(),
                forall|j: int| 0 <= j < i ==> (#[trigger] self.adj@[j].vertex)@ != v@,
        {
            if self.adj[i].vertex.key_eq(v) {
                return Some(i);
            }
        }
        None
    }

    /// Finds the weight entry keyed `(u, v)`, if any.
    fn find_weight(&self, u: &V, v: &V) -> (r: Option<usize>)
        ensures
            match r {
                Some(j) => j < self.weights@.len() && self.weights@[j as int].src@ == u@
                    && self.weights@[j as int].dst@ == v@,
                None => !whas(self.weights@, (u@, v@)),
            },
    {
        let n = self.weights.len();
        for j in 0..n
            invariant
                n == self.weights@.len(),
                forall|i: int|
                    0 <= i < j ==> !((#[trigger] self.weights@[i].src)@ == u@
                        && self.weights@[i].dst@ == v@),
        {
            if self.weights[j].src.key_eq(u) && self.weights[j].dst.key_eq(v) {
                return Some(j);
            }
        }
        None
    }

    /// Ensures `x` is in the neighbor list of the entry at `i`,
    /// inserting it when absent.
    fn insert_nbr(&mut self, i: usize, x: &V)
        requires
            keys_of(old(self).adj@).no_duplicates(),
            forall|t: int|
                0 <= t < old(self).adj@.len() ==> vertex_views(
                    #[trigger] old(self).adj@[t].nbrs@,
                ).no_duplicates(),
            i < old(self).adj@.len(),
        ensures
            final(self).weights == old(self).weights,
            final(self).directed == old(self).directed,
            keys_of(final(self).adj@) == keys_of(old(self).adj@),
            final(self).adj@.len() == old(self).adj@.len(),
            forall|t: int|
                0 <= t < final(self).adj@.len() ==> vertex_views(
                    #[trigger] final(self).adj@[t].nbrs@,
                ).no_duplicates(),
            forall|y: <V as View>::V| ahas(final(self).adj@, y) == ahas(old(self).adj@, y),
            nset_of(final(self).adj@, old(self).adj@[i as int].vertex@) == nset_of(
                old(self).adj@,
                old(self).adj@[i as int].vertex@,
            ).insert(x@),
            forall|y: <V as View>::V|
                y != old(self).adj@[i as int].vertex@ ==> nset_of(final(self).adj@, y) == nset_of(
                    old(self).adj@,
                    y,
                ),
    {
        let ghost g0 = *self;
        proof {
            lemma_adj_entry(g0.adj@, i as int);
        }
        let f = Self::list_find(&self.adj[i].nbrs, x);
        match f {
            Some(k) => {
                proof {
                    assert(vertex_views(g0.adj@[i as int].nbrs@)[k as int] == x@);
                    assert(nset_of(g0.adj@, g0.adj@[i as int].vertex@).contains(x@));
                    assert(nset_of(g0.adj@, g0.adj@[i as int].vertex@).insert(x@) =~= nset_of(
                        g0.adj@,
                        g0.adj@[i as int].vertex@,
                    ));
                }
            },
            None => {
                let mut e = self.adj.remove(i);
                e.nbrs.push(x.dup());
                self.adj.insert(i, e);
                proof {
                    assert(self.adj@ =~= g0.adj@.update(i as int, self.adj@[i as int]));
                    let e2 = self.adj@[i as int];
                    assert(e2.vertex == g0.adj@[i as int].vertex);
                    assert(e2.nbrs@ == g0.adj@[i as int].nbrs@.push(e2.nbrs@.last()));
                    assert(e2.nbrs@.last()@ == x@);
                    lemma_adj_update(g0.adj@, i as int, e2);
                    let vs0 = vertex_views(g0.adj@[i as int].nbrs@);
                    let vs2 = vertex_views(e2.nbrs@);
                    assert(vs2 =~= vs0.push(x@));
                    assert(!vs0.to_set().contains(x@));
                    assert forall|t: int| 0 <= t < vs0.len() implies #[trigger] vs0[t] != x@ by {
                        assert(vs0.to_set().contains(vs0[t]));
                    }
                    assert(vs2.no_duplicates());
                    assert(vs2.to_set() =~= vs0.to_set().insert(x@)) by {
                        assert forall|y: <V as View>::V|
                            vs2.to_set().contains(y) == (vs0.to_set().contains(y) || y == x@) by {
                            if vs2.to_set().contains(y) {
                                let t = choose|t: int|
                                    0 <= t < vs2.len() && #[trigger] vs2[t] == y;
                                if t < vs0.len() {
                                    assert(vs0[t] == y);
                                }
                            }
                            if vs0.to_set().contains(y) {
                                let t = choose|t: int|
                                    0 <= t < vs0.len() && #[trigger] vs0[t] == y;
                                assert(vs2[t] == y);
                            }
                            if y == x@ {
                                assert(vs2[vs2.len() - 1] == y);
                            }
                        }
                    }
                    assert forall|t: int|
                        0 <= t < self.adj@.len() implies vertex_views(
                        #[trigger] self.adj@[t].nbrs@,
                    ).no_duplicates() by {
                        if t != i {
                            assert(self.adj@[t] == g0.adj@[t]);
                        }
                    }
                }
            },
        }
    }

    /// Removes `x` from the neighbor list of the entry at `i`, if
    /// present.
    fn remove_nbr(&mut self, i: usize, x: &V)
        requires
            keys_of(old(self).adj@).no_duplicates(),
            forall|t: int|
                0 <= t < old(self).adj@.len() ==> vertex_views(
                    #[trigger] old(self).adj@[t].nbrs@,
                ).no_duplicates(),
            i < old(self).adj@.len(),
        ensures
            final(self).weights == old(self).weights,
            final(self).directed == old(self).directed,
            keys_of(final(self).adj@) == keys_of(old(self).adj@),
            final(self).adj@.len() == old(self).adj@.len(),
            forall|t: int|
                0 <= t < final(self).adj@.len() ==> vertex_views(
                    #[trigger] final(self).adj@[t].nbrs@,
                ).no_duplicates(),
            forall|y: <V as View>::V| ahas(final(self).adj@, y) == ahas(old(self).adj@, y),
            nset_of(final(self).adj@, old(self).adj@[i as int].vertex@) == nset_of(
                old(self).adj@,
                old(self).adj@[i as int].vertex@,
            ).remove(x@),
            forall|y: <V as View>::V|
                y != old(self).adj@[i as int].vertex@ ==> nset_of(final(self).adj@, y) == nset_of(
                    old(self).adj@,
                    y,
                ),
    {
        let ghost g0 = *self;
        proof {
            lemma_adj_entry(g0.adj@, i as int);
        }
        let f = Self::list_find(&self.adj[i].nbrs, x);
        match f {
            None => {
                proof {
                    assert(!nset_of(g0.adj@, g0.adj@[i as int].vertex@).contains(x@));
                    assert(nset_of(g0.adj@, g0.adj@[i as int].vertex@).remove(x@) =~= nset_of(
                        g0.adj@,
                        g0.adj@[i as int].vertex@,
                    ));
                }
            },
            Some(k) => {
                let mut e = self.adj.remove(i);
                e.nbrs.remove(k);
                self.adj.insert(i, e);
                proof {
                    assert(self.adj@ =~= g0.adj@.update(i as int, self.adj@[i as int]));
                    let e2 = self.adj@[i as int];
                    assert(e2.vertex == g0.adj@[i as int].vertex);
                    assert(e2.nbrs@ == g0.adj@[i as int].nbrs@.remove(k as int));
                    lemma_adj_update(g0.adj@, i as int, e2);
                    let vs0 = vertex_views(g0.adj@[i as int].nbrs@);
                    let vs2 = vertex_views(e2.nbrs@);
                    assert(vs2 =~= vs0.remove(k as int));
                    lemma_seq_remove_to_set(vs0, k as int);
                    assert(vs0[k as int] == x@);
                    assert forall|t: int|
                        0 <= t < self.adj@.len() implies vertex_views(
                        #[trigger] self.adj@[t].nbrs@,
                    ).no_duplicates() by {
                        if t != i {
                            assert(self.adj@[t] == g0.adj@[t]);
                        }
                    }
                }
            },
        }
    }

    /// Records `w` for the ordered pair `(u, v)`, overwriting any
    /// earlier entry.
    fn upsert_weight(&mut self, u: &V, v: &V, w: W)
        requires
            wkeys_of(old(self).weights@).no_duplicates(),
        ensures
            final(self).adj == old(self).adj,
            final(self).directed == old(self).directed,
            wkeys_of(final(self).weights@).no_duplicates(),
            wmap_of(final(self).weights@) == wmap_of(old(self).weights@).insert((u@, v@), w@),
            wkeys_plus(final(self).weights@, old(self).weights@, (u@, v@)),
    {
        let ghost s0 = self.weights@;
        match self.find_weight(u, v) {
            Some(j) => {
                let e = WeightEntry { src: u.dup(), dst: v.dup(), weight: w };
                self.weights.remove(j);
                self.weights.insert(j, e);
                proof {
                    assert(self.weights@ =~= s0.update(j as int, self.weights@[j as int]));
                    lemma_weight_update(s0, j as int, self.weights@[j as int]);
                    assert forall|k: (<V as View>::V, <V as View>::V)|
                        whas(self.weights@, k) == (whas(s0, k) || k == (u@, v@)) by {
                        if k == (u@, v@) {
                            assert((s0[j as int].src@, s0[j as int].dst@) == k);
                        }
                    }
                    assert(wkeys_plus(self.weights@, s0, (u@, v@)));
                }
            },
            None => {
                self.weights.push(WeightEntry { src: u.dup(), dst: v.dup(), weight: w });
                proof {
                    assert(self.weights@ == s0.push(self.weights@.last()));
                    lemma_weight_push(s0, self.weights@.last());
                    assert(wkeys_plus(self.weights@, s0, (u@, v@)));
                }
            },
        }
    }

    /// Discards the weight recorded for the ordered pair `(u, v)`, if
    /// any.
    fn remove_weight(&mut self, u: &V, v: &V)
        requires
            wkeys_of(old(self).weights@).no_duplicates(),
        ensures
            final(self).adj == old(self).adj,
            final(self).directed == old(self).directed,
            wkeys_of(final(self).weights@).no_duplicates(),
            wmap_of(final(self).weights@) == wmap_of(old(self).weights@).remove((u@, v@)),
            wkeys_minus(final(self).weights@, old(self).weights@, (u@, v@)),
    {
        let ghost s0 = self.weights@;
        match self.find_weight(u, v) {
            Some(j) => {
                self.weights.remove(j);
                proof {
                    lemma_weight_remove(s0, j as int);
                    assert((s0[j as int].src@, s0[j as int].dst@) == (u@, v@));
                    assert(self.weights@ == s0.remove(j as int));
                    assert forall|k: (<V as View>::V, <V as View>::V)|
                        whas(self.weights@, k) == (whas(s0, k) && k != (u@, v@)) by {
                        assert(whas(s0.remove(j as int), k) == (whas(s0, k) && k != (
                        s0[j as int].src@,
                        s0[j as int].dst@,
                        )));
                    }
                    assert(wkeys_minus(self.weights@, s0, (u@, v@)));
                }
            },
            None => {
                proof {
                    assert(!wmap_of(s0).contains_key((u@, v@)));
                    assert(wmap_of(s0) =~= wmap_of(s0).remove((u@, v@)));
                    assert forall|k: (<V as View>::V, <V as View>::V)|
                        whas(self.weights@, k) == (whas(s0, k) && k != (u@, v@)) by {
                        if k == (u@, v@) {
                            assert(!whas(s0, k));
                        }
                    }
                    assert(wkeys_minus(self.weights@, s0, (u@, v@)));
                }
            },
        }
    }

    /// After inserting the edge `uv -> vv` (mirrored when undirected
    /// and not a self-loop), the graph is well formed again and
    /// changed exactly as the mutable capability states. `g0` is the
    /// graph before, `g1` the graph after the forward insertion.
    proof fn lemma_after_edge_insert(
        &self,
        g0: &Self,
        g1: &Self,
        uv: <V as View>::V,
        vv: <V as View>::V,
        mirrored: bool,
    )
        requires
            g0.inv(),
            ahas(g0.adj@, uv),
            ahas(g0.adj@, vv),
            g1.weights == g0.weights,
            g1.directed == g0.directed,
            keys_of(g1.adj@) == keys_of(g0.adj@),
            g1.adj@.len() == g0.adj@.len(),
            forall|t: int|
                0 <= t < g1.adj@.len() ==> vertex_views(
                    #[trigger] g1.adj@[t].nbrs@,
                ).no_duplicates(),
            forall|y: <V as View>::V| ahas(g1.adj@, y) == ahas(g0.adj@, y),
            nset_of(g1.adj@, uv) == nset_of(g0.adj@, uv).insert(vv),
            forall|y: <V as View>::V| y != uv ==> nset_of(g1.adj@, y) == nset_of(g0.adj@, y),
            mirrored == (!g0.directed && uv != vv),
            mirrored ==> self.weights == g1.weights && self.directed == g1.directed && keys_of(
                self.adj@,
            ) == keys_of(g1.adj@) && self.adj@.len() == g1.adj@.len() && (forall|t: int|
                0 <= t < self.adj@.len() ==> vertex_views(
                    #[trigger] self.adj@[t].nbrs@,
                ).no_duplicates()) && (forall|y: <V as View>::V|
                ahas(self.adj@, y) == ahas(g1.adj@, y)) && nset_of(self.adj@, vv) == nset_of(
                g1.adj@,
                vv,
            ).insert(uv) && (forall|y: <V as View>::V|
                y != vv ==> nset_of(self.adj@, y) == nset_of(g1.adj@, y)),
            !mirrored ==> *self == *g1,
        ensures
            self.inv(),
            self.directed() == g0.directed(),
            self.vertex_set() == g0.vertex_set(),
            self.neighbor_set(uv) == g0.neighbor_set(uv).insert(vv),
            g0.directed() ==> self.neighbor_sets_unchanged_except(g0, uv),
            !g0.directed() ==> self.neighbor_set(vv) == g0.neighbor_set(vv).insert(uv)
                && self.neighbor_sets_unchanged_except_pair(g0, uv, vv),
    {
        lemma_keys_contain(self.adj@);
        lemma_keys_contain(g0.adj@);
        assert(self.vertex_set() =~= g0.vertex_set());
        if mirrored {
            assert(nset_of(self.adj@, uv) == nset_of(g0.adj@, uv).insert(vv));
        }
        if !g0.directed && uv == vv {
            assert(nset_of(self.adj@, vv) == nset_of(g0.adj@, vv).insert(uv));
        }
        assert(self.inv()) by {
            assert forall|x: <V as View>::V, y: <V as View>::V|
                #[trigger] nset_of(self.adj@, x).contains(y) implies ahas(self.adj@, y) by {
                if x == uv && y == vv {
                } else if mirrored && x == vv && y == uv {
                } else {
                    assert(nset_of(g0.adj@, x).contains(y));
                }
            }
            assert forall|j: int|
                0 <= j < self.weights@.len() implies nset_of(
                self.adj@,
                (#[trigger] self.weights@[j].src)@,
            ).contains(self.weights@[j].dst@) by {
                assert(self.weights@[j] == g0.weights@[j]);
                let sx = self.weights@[j].src@;
                assert(nset_of(g0.adj@, sx).contains(self.weights@[j].dst@));
                if sx == uv {
                    assert(nset_of(self.adj@, sx) == nset_of(g0.adj@, sx).insert(vv));
                }
            }
            if !self.directed {
                assert forall|x: <V as View>::V, y: <V as View>::V|
                    #[trigger] nset_of(self.adj@, x).contains(y) implies nset_of(
                    self.adj@,
                    y,
                ).contains(x) by {
                    if x == uv && y == vv {
                        assert(nset_of(self.adj@, vv).contains(uv));
                    } else if x == vv && y == uv {
                        assert(nset_of(self.adj@, uv).contains(vv));
                    } else {
                        assert(nset_of(g0.adj@, x).contains(y));
                        assert(nset_of(g0.adj@, y).contains(x));
                        if y == uv {
                            assert(nset_of(self.adj@, y) == nset_of(g0.adj@, y).insert(vv));
                        }
                    }
                }
                assert(wkeys_of(self.weights@) == wkeys_of(g0.weights@));
                assert(wmap_of(self.weights@) == wmap_of(g0.weights@));
            }
        }
    }

    /// After removing the edge `uv -> vv` (mirrored when undirected
    /// and not a self-loop) and its recorded weights, the graph is
    /// well formed again and changed exactly as the mutable capability
    /// states. `g0` is the graph before, `g1` the graph after the
    /// weight removal only.
    proof fn lemma_after_edge_remove(
        &self,
        g0: &Self,
        g1: &Self,
        uv: <V as View>::V,
        vv: <V as View>::V,
        mirrored: bool,
    )
        requires
            g0.inv(),
            ahas(g0.adj@, uv),
            nset_of(g0.adj@, uv).contains(vv),
            g1.adj == g0.adj,
            g1.directed == g0.directed,
            wkeys_of(g1.weights@).no_duplicates(),
            g0.directed ==> wkeys_minus(g1.weights@, g0.weights@, (uv, vv)) && wmap_of(g1.weights@)
                == wmap_of(g0.weights@).remove((uv, vv)),
            !g0.directed ==> wkeys_minus2(g1.weights@, g0.weights@, (uv, vv), (vv, uv)) && wmap_of(
                g1.weights@,
            ) == wmap_of(g0.weights@).remove((uv, vv)).remove((vv, uv)),
            self.weights == g1.weights,
            self.directed == g1.directed,
            keys_of(self.adj@) == keys_of(g0.adj@),
            self.adj@.len() == g0.adj@.len(),
            forall|t: int|
                0 <= t < self.adj@.len() ==> vertex_views(
                    #[trigger] self.adj@[t].nbrs@,
                ).no_duplicates(),
            forall|y: <V as View>::V| ahas(self.adj@, y) == ahas(g0.adj@, y),
            nset_of(self.adj@, uv) == nset_of(g0.adj@, uv).remove(vv),
            mirrored == (!g0.directed && uv != vv),
            mirrored ==> nset_of(self.adj@, vv) == nset_of(g0.adj@, vv).remove(uv) && (forall|
                y: <V as View>::V,
            |
                y != uv && y != vv ==> nset_of(self.adj@, y) == nset_of(g0.adj@, y)),
            !mirrored ==> (forall|y: <V as View>::V|
                y != uv ==> nset_of(self.adj@, y) == nset_of(g0.adj@, y)),
        ensures
            self.inv(),
            self.directed() == g0.directed(),
            self.vertex_set() == g0.vertex_set(),
            self.neighbor_set(uv) == g0.neighbor_set(uv).remove(vv),
            g0.directed() ==> self.neighbor_sets_unchanged_except(g0, uv),
            !g0.directed() ==> self.neighbor_set(vv) == g0.neighbor_set(vv).remove(uv)
                && self.neighbor_sets_unchanged_except_pair(g0, uv, vv),
    {
        lemma_keys_contain(self.adj@);
        lemma_keys_contain(g0.adj@);
        assert(self.vertex_set() =~= g0.vertex_set());
        if !g0.directed && uv == vv {
            assert(nset_of(self.adj@, vv) == nset_of(g0.adj@, vv).remove(uv));
        }
        assert(self.inv()) by {
            assert forall|x: <V as View>::V, y: <V as View>::V|
                #[trigger] nset_of(self.adj@, x).contains(y) implies ahas(self.adj@, y) by {
                assert(nset_of(g0.adj@, x).contains(y));
            }
            assert forall|j: int|
                0 <= j < self.weights@.len() implies nset_of(
                self.adj@,
                (#[trigger] self.weights@[j].src)@,
            ).contains(self.weights@[j].dst@) by {
                lemma_weight_entry(self.weights@, j);
                let k = (self.weights@[j].src@, self.weights@[j].dst@);
                assert(whas(self.weights@, k));
                assert(whas(g0.weights@, k) && k != (uv, vv));
                if !g0.directed {
                    assert(k != (vv, uv));
                }
                let t = widx(g0.weights@, k);
                assert(0 <= t < g0.weights@.len() && (g0.weights@[t].src@, g0.weights@[t].dst@)
                    == k);
                assert(nset_of(g0.adj@, k.0).contains(k.1));
                if k.0 == uv {
                    assert(k.1 != vv);
                } else if mirrored && k.0 == vv {
                    assert(k.1 != uv);
                }
            }
            if !self.directed {
                assert forall|x: <V as View>::V, y: <V as View>::V|
                    #[trigger] nset_of(self.adj@, x).contains(y) implies nset_of(
                    self.adj@,
                    y,
                ).contains(x) by {
                    assert(nset_of(g0.adj@, x).contains(y));
                    assert(nset_of(g0.adj@, y).contains(x));
                    assert(!(x == uv && y == vv));
                    assert(!(x == vv && y == uv));
                    if y == uv {
                        assert(x != vv);
                    } else if y == vv {
                        assert(x != uv);
                    }
                }
                assert forall|j: int|
                    0 <= j < self.weights@.len() implies whas(
                    self.weights@,
                    ((#[trigger] self.weights@[j].dst)@, self.weights@[j].src@),
                ) && wmap_of(self.weights@)[(self.weights@[j].dst@, self.weights@[j].src@)]
                    == self.weights@[j].weight@ by {
                    lemma_weight_entry(self.weights@, j);
                    let k = (self.weights@[j].src@, self.weights@[j].dst@);
                    let mk = (k.1, k.0);
                    assert(whas(self.weights@, k));
                    assert(whas(g0.weights@, k) && k != (uv, vv) && k != (vv, uv));
                    let t = widx(g0.weights@, k);
                    assert(0 <= t < g0.weights@.len() && (g0.weights@[t].src@,
                    g0.weights@[t].dst@) == k);
                    assert(whas(g0.weights@, mk) && wmap_of(g0.weights@)[mk] == g0.weights@[
                        t
                    ].weight@);
                    assert(mk != (uv, vv) && mk != (vv, uv));
                    assert(whas(self.weights@, mk));
                    assert(wmap_of(self.weights@)[mk] == wmap_of(g0.weights@)[mk]);
                    assert(wmap_of(self.weights@)[k] == wmap_of(g0.weights@)[k]);
                    assert(wmap_of(g0.weights@)[k] == g0.weights@[t].weight@);
                    assert(wmap_of(self.weights@)[k] == self.weights@[j].weight@);
                }
            }
        }
    }

    /// After recording a weight `wv` for the edge `uv -> vv`
    /// (mirrored when undirected), the graph is well formed again.
    /// `g2` is the graph before the weight channel changed; its
    /// adjacency already holds the edge.
    proof fn lemma_after_weight_upsert(
        &self,
        g2: &Self,
        uv: <V as View>::V,
        vv: <V as View>::V,
        wv: <W as View>::V,
    )
        requires
            g2.inv(),
            nset_of(g2.adj@, uv).contains(vv),
            !g2.directed ==> nset_of(g2.adj@, vv).contains(uv),
            self.adj == g2.adj,
            self.directed == g2.directed,
            wkeys_of(self.weights@).no_duplicates(),
            g2.directed ==> wmap_of(self.weights@) == wmap_of(g2.weights@).insert((uv, vv), wv)
                && wkeys_plus(self.weights@, g2.weights@, (uv, vv)),
            !g2.directed ==> wmap_of(self.weights@) == wmap_of(g2.weights@).insert(
                (uv, vv),
                wv,
            ).insert((vv, uv), wv) && wkeys_plus2(
                self.weights@,
                g2.weights@,
                (uv, vv),
                (vv, uv),
            ),
        ensures
            self.inv(),
    {
        let k1 = (uv, vv);
        let k2 = (vv, uv);
        assert forall|j: int|
            0 <= j < self.weights@.len() implies nset_of(
            self.adj@,
            (#[trigger] self.weights@[j].src)@,
        ).contains(self.weights@[j].dst@) by {
            lemma_weight_entry(self.weights@, j);
            let k = (self.weights@[j].src@, self.weights@[j].dst@);
            assert(whas(self.weights@, k));
            if k == k1 {
                assert(nset_of(self.adj@, k.0).contains(k.1));
            } else if !g2.directed && k == k2 {
                assert(nset_of(self.adj@, k.0).contains(k.1));
            } else {
                assert(whas(g2.weights@, k));
                let t = widx(g2.weights@, k);
                assert(0 <= t < g2.weights@.len() && (g2.weights@[t].src@, g2.weights@[t].dst@)
                    == k);
                assert(nset_of(g2.adj@, k.0).contains(k.1));
            }
        }
        if !self.directed {
            assert forall|j: int|
                0 <= j < self.weights@.len() implies whas(
                self.weights@,
                ((#[trigger] self.weights@[j].dst)@, self.weights@[j].src@),
            ) && wmap_of(self.weights@)[(self.weights@[j].dst@, self.weights@[j].src@)]
                == self.weights@[j].weight@ by {
                lemma_weight_entry(self.weights@, j);
                let k = (self.weights@[j].src@, self.weights@[j].dst@);
                let mk = (k.1, k.0);
                assert(whas(self.weights@, k));
                assert(wmap_of(self.weights@)[k] == self.weights@[j].weight@);
                if k == k1 || k == k2 {
                    assert(whas(self.weights@, mk));
                    assert(wmap_of(self.weights@)[k] == wv);
                    assert(wmap_of(self.weights@)[mk] == wv);
                } else {
                    assert(whas(g2.weights@, k));
                    let t = widx(g2.weights@, k);
                    assert(0 <= t < g2.weights@.len() && (g2.weights@[t].src@,
                    g2.weights@[t].dst@) == k);
                    assert(whas(g2.weights@, mk) && wmap_of(g2.weights@)[mk] == g2.weights@[
                        t
                    ].weight@);
                    assert(mk != k1 && mk != k2);
                    assert(whas(self.weights@, mk));
                    assert(wmap_of(self.weights@)[mk] == wmap_of(g2.weights@)[mk]);
                    assert(wmap_of(self.weights@)[k] == wmap_of(g2.weights@)[k]);
                    assert(wmap_of(g2.weights@)[k] == g2.weights@[t].weight@);
                }
            }
        }
    }

    /// The edge pairs whose source is among the first `k` vertex keys.
    spec fn prefix_pairs(&self, k: int) -> Set<(<V as View>::V, <V as View>::V)> {
        Set::new(
            |p: (<V as View>::V, <V as View>::V)|
                keys_of(self.adj@).take(k).to_set().contains(p.0) && nset_of(
                    self.adj@,
                    p.0,
                ).contains(p.1),
        )
    }

    /// Extending the source prefix by one vertex adds exactly its
    /// neighbor pairs.
    proof fn lemma_pairs_step(&self, k: int)
        requires
            self.inv(),
            0 <= k < self.adj@.len(),
            self.prefix_pairs(k).finite(),
        ensures
            self.prefix_pairs(k + 1).finite(),
            self.prefix_pairs(k + 1).len() == self.prefix_pairs(k).len() + vertex_views(
                self.adj@[k].nbrs@,
            ).to_set().len(),
    {
        let v = self.adj@[k].vertex@;
        lemma_adj_entry(self.adj@, k);
        let n = nset_of(self.adj@, v);
        let keys = keys_of(self.adj@);
        assert(keys.take(k + 1) =~= keys.take(k).push(keys[k]));
        assert forall|x: <V as View>::V|
            keys.take(k + 1).to_set().contains(x) == (keys.take(k).to_set().contains(x) || x
                == v) by {
            if keys.take(k + 1).to_set().contains(x) {
                let i = choose|i: int|
                    0 <= i < keys.take(k + 1).len() && #[trigger] keys.take(k + 1)[i] == x;
                if i < k {
                    assert(keys.take(k)[i] == x);
                }
            }
            if keys.take(k).to_set().contains(x) {
                let i = choose|i: int| 0 <= i < keys.take(k).len() && #[trigger] keys.take(k)[i] == x;
                assert(keys.take(k + 1)[i] == x);
            }
            if x == v {
                assert(keys.take(k + 1)[k] == x);
            }
        }
        assert(!keys.take(k).to_set().contains(v)) by {
            if keys.take(k).to_set().contains(v) {
                let i = choose|i: int| 0 <= i < keys.take(k).len() && #[trigger] keys.take(k)[i] == v;
                assert(keys[i] == keys[k]);
                assert(false);
            }
        }
        let tagged = tagged_pairs(v, n);
        assert(self.prefix_pairs(k + 1) =~= self.prefix_pairs(k) + tagged);
        lemma_tagged_card(v, n);
        assert(self.prefix_pairs(k).disjoint(tagged)) by {
            assert forall|p: (<V as View>::V, <V as View>::V)|
                !(self.prefix_pairs(k).contains(p) && tagged.contains(p)) by {
                if self.prefix_pairs(k).contains(p) && tagged.contains(p) {
                    assert(keys.take(k).to_set().contains(v));
                }
            }
        }
        vstd::set_lib::lemma_set_disjoint_lens(self.prefix_pairs(k), tagged);
        assert(vertex_views(self.adj@[k].nbrs@).to_set() == n);
    }

    /// Every source prefix yields a finite pair set.
    proof fn lemma_prefix_pairs_finite(&self, k: int)
        requires
            self.inv(),
            0 <= k <= self.adj@.len(),
        ensures
            self.prefix_pairs(k).finite(),
        decreases k,
    {
        if k == 0 {
            assert(self.prefix_pairs(0) =~= Set::empty()) by {
                assert forall|p: (<V as View>::V, <V as View>::V)|
                    !self.prefix_pairs(0).contains(p) by {
                    if keys_of(self.adj@).take(0).to_set().contains(p.0) {
                        let i = choose|i: int|
                            0 <= i < keys_of(self.adj@).take(0).len() && #[trigger] keys_of(
                                self.adj@,
                            ).take(0)[i] == p.0;
                        assert(false);
                    }
                }
            }
        } else {
            self.lemma_prefix_pairs_finite(k - 1);
            self.lemma_pairs_step(k - 1);
        }
    }

    /// The full-prefix pair set is the edge pair set, and it is
    /// finite.
    proof fn lemma_pairs_full(&self)
        requires
            self.inv(),
        ensures
            self.edge_pair_set() == self.prefix_pairs(self.adj@.len() as int),
            self.edge_pair_set().finite(),
    {
        let n = self.adj@.len() as int;
        let keys = keys_of(self.adj@);
        assert(keys.take(n) =~= keys);
        lemma_keys_contain(self.adj@);
        assert(self.edge_pair_set() =~= self.prefix_pairs(n)) by {
            assert forall|p: (<V as View>::V, <V as View>::V)|
                self.edge_pair_set().contains(p) == self.prefix_pairs(n).contains(p) by {
                if self.edge_pair_set().contains(p) {
                    assert(nset_of(self.adj@, p.0).contains(p.1));
                    assert(ahas(self.adj@, p.0));
                }
            }
        }
        self.lemma_prefix_pairs_finite(n);
    }

    /// Finds the position of `v` in the list `l`, if any.
    fn list_find(l: &Vec<V>, v: &V) -> (r: Option<usize>)
        ensures
            match r {
                Some(k) => k < l@.len() && l@[k as int]@ == v@,
                None => !vertex_views(l@).to_set().contains(v@),
            },
    {
        let n = l.len();
        for k in 0..n
            invariant
                n == l@.len(),
                forall|j: int| 0 <= j < k ==> (#[trigger] l@[j])@ != v@,
        {
            if l[k].key_eq(v) {
                return Some(k);
            }
        }
        proof {
            assert forall|j: int|
                0 <= j < vertex_views(l@).len() implies #[trigger] vertex_views(l@)[j] != v@ by {
                assert(l@[j]@ != v@);
            }
        }
        None
    }
}

/// Whether some of the first `bound` entries of `s` is keyed by `x`
/// and has no neighbors.
spec fn iso_witness<V: VertexKey>(s: Seq<AdjEntry<V>>, bound: int, x: <V as View>::V) -> bool {
    exists|j: int| 0 <= j < bound && (#[trigger] s[j].vertex)@ == x && s[j].nbrs@.len() == 0
}

impl<V: VertexKey, W: EdgeWeight> Graph for SimpleGraph<V, W> {
    type Vertex = V;

    closed spec fn wf(&self) -> bool {
        self.inv()
    }

    closed spec fn vertex_set(&self) -> Set<<V as View>::V> {
        keys_of(self.adj@).to_set()
    }

    closed spec fn neighbor_set(&self, v: <V as View>::V) -> Set<<V as View>::V> {
        nset_of(self.adj@, v)
    }

    closed spec fn directed(&self) -> bool {
        self.directed
    }

    proof fn finite_model(&self) {
        assert forall|v: <V as View>::V| (#[trigger] self.neighbor_set(v)).finite() by {
            if ahas(self.adj@, v) {
                assert(nset_of(self.adj@, v) == vertex_views(
                    self.adj@[aidx(self.adj@, v)].nbrs@,
                ).to_set());
            } else {
                assert(nset_of(self.adj@, v) == Set::<<V as View>::V>::empty());
            }
        }
    }

    proof fn neighbors_are_vertices(&self) {
        lemma_keys_contain(self.adj@);
        assert forall|u: <V as View>::V, v: <V as View>::V|
            #[trigger] self.neighbor_set(u).contains(v) implies self.vertex_set().contains(u)
            && self.vertex_set().contains(v) by {
            assert(ahas(self.adj@, u));
            let i = aidx(self.adj@, u);
            let views = vertex_views(self.adj@[i].nbrs@);
            assert(views.to_set().contains(v));
            let k = choose|k: int| 0 <= k < views.len() && #[trigger] views[k] == v;
            assert(self.adj@[i].nbrs@[k]@ == v);
            assert(ahas(self.adj@, v));
        }
    }

    proof fn undirected_edges_symmetric(&self) {
    }

    fn vertices(&self) -> (r: Vec<V>) {
        let mut out: Vec<V> = Vec::new();
        let n = self.adj.len();
        for i in 0..n
            invariant
                n == self.adj@.len(),
                out@.len() == i,
                forall|j: int| 0 <= j < i ==> (#[trigger] out@[j])@ == self.adj@[j].vertex@,
        {
            out.push(self.adj[i].vertex.dup());
        }
        proof {
            assert(vertex_views(out@) =~= keys_of(self.adj@));
        }
        out
    }

    fn neighbors(&self, v: &V) -> (r: Option<Vec<V>>) {
        proof {
            lemma_keys_contain(self.adj@);
        }
        match self.find_vertex(v) {
            None => None,
            Some(i) => {
                proof {
                    lemma_adj_entry(self.adj@, i as int);
                }
                let list = &self.adj[i].nbrs;
                let mut out: Vec<V> = Vec::new();
                let m = list.len();
                for k in 0..m
                    invariant
                        m == list@.len(),
                        out@.len() == k,
                        forall|j: int| 0 <= j < k ==> (#[trigger] out@[j])@ == list@[j]@,
                {
                    out.push(list[k].dup());
                }
                proof {
                    assert(vertex_views(out@) =~= vertex_views(list@));
                }
                Some(out)
            },
        }
    }

    fn contains_vertex(&self, v: &V) -> (r: bool) {
        let r = self.find_vertex(v);
        proof {
            lemma_keys_contain(self.adj@);
            if let Some(i) = r {
                assert(self.adj@[i as int].vertex@ == v@);
                assert(ahas(self.adj@, v@));
            }
        }
        r.is_some()
    }

    fn contains_edge(&self, u: &V, v: &V) -> (r: bool) {
        match self.find_vertex(u) {
            None => false,
            Some(i) => {
                proof {
                    lemma_adj_entry(self.adj@, i as int);
                }
                let r = Self::list_find(&self.adj[i].nbrs, v);
                proof {
                    if let Some(k) = r {
                        assert(vertex_views(self.adj@[i as int].nbrs@)[k as int] == v@);
                    }
                }
                r.is_some()
            },
        }
    }

    fn is_directed(&self) -> (r: bool) {
        self.directed
    }

    fn order(&self) -> (r: usize) {
        proof {
            keys_of(self.adj@).unique_seq_to_set();
        }
        self.adj.len()
    }

    fn edge_count(&self) -> (r: usize) {
        proof {
            self.lemma_pairs_full();
            assert(self.prefix_pairs(0) =~= Set::empty()) by {
                assert forall|p: (<V as View>::V, <V as View>::V)|
                    !self.prefix_pairs(0).contains(p) by {
                    if keys_of(self.adj@).take(0).to_set().contains(p.0) {
                        let i = choose|i: int|
                            0 <= i < keys_of(self.adj@).take(0).len() && #[trigger] keys_of(
                                self.adj@,
                            ).take(0)[i] == p.0;
                        assert(false);
                    }
                }
            }
        }
        let mut total: usize = 0;
        let n = self.adj.len();
        for i in 0..n
            invariant
                n == self.adj@.len(),
                self.inv(),
                self.edge_pair_set().len() <= usize::MAX,
                self.edge_pair_set() == self.prefix_pairs(n as int),
                self.edge_pair_set().finite(),
                self.prefix_pairs(i as int).finite(),
                total == self.prefix_pairs(i as int).len(),
        {
            proof {
                self.lemma_pairs_step(i as int);
                assert(self.prefix_pairs(i + 1).subset_of(self.prefix_pairs(n as int))) by {
                    assert forall|p: (<V as View>::V, <V as View>::V)|
                        self.prefix_pairs(i + 1).contains(p) implies self.prefix_pairs(
                        n as int,
                    ).contains(p) by {
                        let keys = keys_of(self.adj@);
                        let j = choose|j: int|
                            0 <= j < keys.take(i + 1).len() && #[trigger] keys.take(i + 1)[j] == p.0;
                        assert(keys.take(n as int)[j] == p.0);
                    }
                }
                vstd::set_lib::lemma_len_subset(
                    self.prefix_pairs(i + 1),
                    self.prefix_pairs(n as int),
                );
                vertex_views(self.adj@[i as int].nbrs@).unique_seq_to_set();
            }
            total = total + self.adj[i].nbrs.len();
        }
        proof {
            assert(keys_of(self.adj@).take(n as int) =~= keys_of(self.adj@));
        }
        if self.directed {
            total
        } else {
            total / 2
        }
    }

    fn degree(&self, v: &V) -> (r: Option<usize>) {
        proof {
            lemma_keys_contain(self.adj@);
        }
        match self.find_vertex(v) {
            None => None,
            Some(i) => {
                proof {
                    lemma_adj_entry(self.adj@, i as int);
                    vertex_views(self.adj@[i as int].nbrs@).unique_seq_to_set();
                }
                Some(self.adj[i].nbrs.len())
            },
        }
    }

    fn get_isolated_vertices(&self) -> (r: Vec<V>) {
        let mut out: Vec<V> = Vec::new();
        let n = self.adj.len();
        for i in 0..n
            invariant
                n == self.adj@.len(),
                self.inv(),
                vertex_views(out@).no_duplicates(),
                forall|t: int|
                    0 <= t < out@.len() ==> iso_witness(self.adj@, i as int, (#[trigger] out@[t])@),
                forall|j: int|
                    0 <= j < i && (#[trigger] self.adj@[j].nbrs@).len() == 0 ==> vertex_views(
                        out@,
                    ).to_set().contains(self.adj@[j].vertex@),
        {
            let ghost prev = out@;
            let ghost ii = i as int;
            if self.adj[i].nbrs.len() == 0 {
                proof {
                    if vertex_views(out@).to_set().contains(self.adj@[ii].vertex@) {
                        let t = choose|t: int|
                            0 <= t < vertex_views(out@).len() && #[trigger] vertex_views(out@)[t]
                                == self.adj@[ii].vertex@;
                        assert(iso_witness(self.adj@, ii, out@[t]@));
                        let j = choose|j: int|
                            0 <= j < ii && (#[trigger] self.adj@[j].vertex)@ == out@[t]@ && self.adj@[
                                j
                            ].nbrs@.len() == 0;
                        assert(keys_of(self.adj@)[j] == keys_of(self.adj@)[ii]);
                        assert(false);
                    }
                }
                out.push(self.adj[i].vertex.dup());
                proof {
                    assert(vertex_views(out@) =~= vertex_views(prev).push(self.adj@[ii].vertex@));
                }
            }
            proof {
                assert forall|t: int| 0 <= t < out@.len() implies iso_witness(
                    self.adj@,
                    ii + 1,
                    out@[t]@,
                ) by {
                    if t < prev.len() {
                        assert(out@[t] == prev[t]);
                        assert(iso_witness(self.adj@, ii, prev[t]@));
                        let j = choose|j: int|
                            0 <= j < ii && (#[trigger] self.adj@[j].vertex)@ == prev[t]@
                                && self.adj@[j].nbrs@.len() == 0;
                        assert(0 <= j < ii + 1 && (self.adj@[j].vertex)@ == out@[t]@ && self.adj@[
                            j
                        ].nbrs@.len() == 0);
                    } else {
                        assert((self.adj@[ii].vertex)@ == out@[t]@ && self.adj@[ii].nbrs@.len()
                            == 0);
                    }
                }
                assert forall|j: int|
                    0 <= j < ii + 1 && (#[trigger] self.adj@[j].nbrs@).len()
                        == 0 implies vertex_views(out@).to_set().contains(
                    self.adj@[j].vertex@,
                ) by {
                    if j < ii {
                        assert(vertex_views(prev).to_set().contains(self.adj@[j].vertex@));
                        let t = choose|t: int|
                            0 <= t < vertex_views(prev).len() && #[trigger] vertex_views(prev)[t]
                                == self.adj@[j].vertex@;
                        assert(vertex_views(out@)[t] == self.adj@[j].vertex@);
                    } else {
                        assert(vertex_views(out@)[out@.len() - 1] == self.adj@[j].vertex@);
                    }
                }
            }
        }
        proof {
            lemma_keys_contain(self.adj@);
            assert forall|x: <V as View>::V|
                vertex_views(out@).to_set().contains(x) == self.isolated_set().contains(x) by {
                if vertex_views(out@).to_set().contains(x) {
                    let t = choose|t: int|
                        0 <= t < vertex_views(out@).len() && #[trigger] vertex_views(out@)[t] == x;
                    assert(iso_witness(self.adj@, n as int, out@[t]@));
                    let j = choose|j: int|
                        0 <= j < n && (#[trigger] self.adj@[j].vertex)@ == out@[t]@ && self.adj@[j].nbrs@.len()
                            == 0;
                    lemma_adj_entry(self.adj@, j);
                    assert(vertex_views(self.adj@[j].nbrs@).to_set() =~= Set::empty());
                    assert(self.isolated_set().contains(x));
                }
                if self.isolated_set().contains(x) {
                    assert(ahas(self.adj@, x));
                    let j = aidx(self.adj@, x);
                    lemma_adj_entry(self.adj@, j);
                    vertex_views(self.adj@[j].nbrs@).unique_seq_to_set();
                    assert(self.adj@[j].nbrs@.len() == 0);
                    assert(vertex_views(out@).to_set().contains(x));
                }
            }
            assert(vertex_views(out@).to_set() =~= self.isolated_set());
        }
        out
    }

    fn has_isolated_vertex(&self) -> (r: bool) {
        let n = self.adj.len();
        for i in 0..n
            invariant
                n == self.adj@.len(),
                self.inv(),
                forall|j: int| 0 <= j < i ==> (#[trigger] self.adj@[j].nbrs@).len() != 0,
        {
            if self.adj[i].nbrs.len() == 0 {
                proof {
                    lemma_adj_entry(self.adj@, i as int);
                    lemma_keys_contain(self.adj@);
                    assert(vertex_views(self.adj@[i as int].nbrs@).to_set() =~= Set::empty());
                    assert(self.isolated_set().contains(self.adj@[i as int].vertex@));
                }
                return true;
            }
        }
        proof {
            assert forall|x: <V as View>::V| !self.isolated_set().contains(x) by {
                if self.isolated_set().contains(x) {
                    lemma_keys_contain(self.adj@);
                    let j = aidx(self.adj@, x);
                    lemma_adj_entry(self.adj@, j);
                    vertex_views(self.adj@[j].nbrs@).unique_seq_to_set();
                    assert(self.adj@[j].nbrs@.len() == 0);
                }
            }
            assert(self.isolated_set() =~= Set::empty());
        }
        false
    }
}

impl<V: VertexKey, W: EdgeWeight> GraphMut for SimpleGraph<V, W> {
    fn add_vertex(&mut self, vertex: V) -> (r: Result<(), GraphError>)
        ensures
            final(self).weight_map() == old(self).weight_map(),
    {
        let found = self.find_vertex(&vertex);
        proof {
            lemma_keys_contain(self.adj@);
        }
        match found {
            Some(i) => {
                proof {
                    assert(self.adj@[i as int].vertex@ == vertex@);
                    assert(ahas(self.adj@, vertex@));
                }
                Err(GraphError::VertexAlreadyExists)
            },
            None => {
                let ghost g0 = *self;
                self.adj.push(AdjEntry { vertex, nbrs: Vec::new() });
                proof {
                    let e = self.adj@.last();
                    assert(self.adj@ == g0.adj@.push(e));
                    lemma_adj_push(g0.adj@, e);
                    assert(vertex_views(e.nbrs@).to_set() =~= Set::empty());
                    assert(self.vertex_set() =~= g0.vertex_set().insert(e.vertex@)) by {
                        lemma_keys_contain(self.adj@);
                        lemma_keys_contain(g0.adj@);
                        assert forall|x: <V as View>::V|
                            keys_of(self.adj@).to_set().contains(x) == g0.vertex_set().insert(
                            e.vertex@,
                        ).contains(x) by {
                            assert(keys_of(self.adj@).to_set().contains(x) == ahas(
                                self.adj@,
                                x,
                            ));
                            assert(ahas(self.adj@, x) == (ahas(g0.adj@, x) || x == e.vertex@));
                            assert(keys_of(g0.adj@).to_set().contains(x) == ahas(g0.adj@, x));
                        }
                    }
                    assert(self.neighbor_sets_unchanged(&g0)) by {
                        assert forall|x: <V as View>::V|
                            #[trigger] nset_of(self.adj@, x) == nset_of(g0.adj@, x) by {
                            if x == e.vertex@ {
                                assert(nset_of(g0.adj@, x) =~= Set::empty());
                                assert(nset_of(self.adj@, x) =~= Set::empty());
                            }
                        }
                    }
                    assert(self.inv()) by {
                        assert forall|t: int|
                            0 <= t < self.adj@.len() implies vertex_views(
                            #[trigger] self.adj@[t].nbrs@,
                        ).no_duplicates() by {
                            if t < g0.adj@.len() {
                                assert(self.adj@[t] == g0.adj@[t]);
                            } else {
                                assert(vertex_views(self.adj@[t].nbrs@).len() == 0);
                            }
                        }
                        assert forall|x: <V as View>::V, y: <V as View>::V|
                            #[trigger] nset_of(self.adj@, x).contains(y) implies ahas(
                            self.adj@,
                            y,
                        ) by {
                            assert(nset_of(g0.adj@, x).contains(y));
                        }
                        assert forall|j: int|
                            0 <= j < self.weights@.len() implies nset_of(
                            self.adj@,
                            (#[trigger] self.weights@[j].src)@,
                        ).contains(self.weights@[j].dst@) by {
                            assert(self.weights@[j] == g0.weights@[j]);
                            assert(nset_of(g0.adj@, self.weights@[j].src@).contains(
                                self.weights@[j].dst@,
                            ));
                        }
                        if !self.directed {
                            assert forall|x: <V as View>::V, y: <V as View>::V|
                                #[trigger] nset_of(self.adj@, x).contains(y) implies nset_of(
                                self.adj@,
                                y,
                            ).contains(x) by {
                                assert(nset_of(g0.adj@, x).contains(y));
                                assert(nset_of(g0.adj@, y).contains(x));
                            }
                        }
                    }
                }
                Ok(())
            },
        }
    }

    fn remove_vertex(&mut self, vertex: &V) -> (r: Result<(), GraphError>)
        ensures
            r is Ok ==> final(self).weight_map()
                == crate::traits::weighted::weights_without(old(self), vertex@),
    {
        proof {
            lemma_keys_contain(self.adj@);
        }
        let idx = match self.find_vertex(vertex) {
            None => {
                return Err(GraphError::VertexNotFound);
            },
            Some(i) => i,
        };
        let ghost g0 = *self;
        let ghost xv = vertex@;
        proof {
            assert(ahas(g0.adj@, xv));
        }
        self.adj.remove(idx);
        proof {
            lemma_adj_remove(g0.adj@, idx as int);
            lemma_seq_remove_to_set(keys_of(g0.adj@), idx as int);
        }
        let ghost g1 = *self;
        let n = self.adj.len();
        for i in 0..n
            invariant
                xv == vertex@,
                n == self.adj@.len(),
                self.weights == g1.weights,
                self.directed == g1.directed,
                keys_of(self.adj@) == keys_of(g1.adj@),
                keys_of(self.adj@).no_duplicates(),
                forall|t: int|
                    0 <= t < n ==> vertex_views(#[trigger] self.adj@[t].nbrs@).no_duplicates(),
                forall|y: <V as View>::V| ahas(self.adj@, y) == ahas(g1.adj@, y),
                forall|t: int|
                    0 <= t < i ==> nset_of(self.adj@, keys_of(g1.adj@)[t]) == nset_of(
                        g1.adj@,
                        keys_of(g1.adj@)[t],
                    ).remove(xv),
                forall|t: int|
                    i <= t < n ==> nset_of(self.adj@, keys_of(g1.adj@)[t]) == nset_of(
                        g1.adj@,
                        keys_of(g1.adj@)[t],
                    ),
        {
            let ghost gp = *self;
            self.remove_nbr(i, vertex);
            proof {
                let key_i = keys_of(g1.adj@)[i as int];
                assert(gp.adj@[i as int].vertex@ == keys_of(gp.adj@)[i as int]);
                assert(keys_of(gp.adj@)[i as int] == key_i);
                assert(nset_of(self.adj@, key_i) == nset_of(gp.adj@, key_i).remove(xv)) by {
                    assert(gp.adj@[i as int].vertex@ == key_i);
                    assert(nset_of(self.adj@, gp.adj@[i as int].vertex@) == nset_of(
                        gp.adj@,
                        gp.adj@[i as int].vertex@,
                    ).remove(vertex@));
                }
                assert forall|t: int|
                    0 <= t < i + 1 implies nset_of(self.adj@, keys_of(g1.adj@)[t]) == nset_of(
                    g1.adj@,
                    keys_of(g1.adj@)[t],
                ).remove(xv) by {
                    let kt = keys_of(g1.adj@)[t];
                    if t < i {
                        assert(kt != key_i) by {
                            assert(keys_of(g1.adj@).no_duplicates());
                        }
                        assert(nset_of(self.adj@, kt) == nset_of(gp.adj@, kt));
                    } else {
                        assert(nset_of(self.adj@, kt) == nset_of(gp.adj@, kt).remove(xv));
                        assert(nset_of(gp.adj@, kt) == nset_of(g1.adj@, kt));
                    }
                }
                assert forall|t: int|
                    i + 1 <= t < n implies nset_of(self.adj@, keys_of(g1.adj@)[t]) == nset_of(
                    g1.adj@,
                    keys_of(g1.adj@)[t],
                ) by {
                    let kt = keys_of(g1.adj@)[t];
                    assert(kt != key_i) by {
                        assert(keys_of(g1.adj@).no_duplicates());
                    }
                    assert(nset_of(self.adj@, kt) == nset_of(gp.adj@, kt));
                }
            }
        }
        let ghost g2 = *self;
        proof {
            assert forall|y: <V as View>::V|
                ahas(g2.adj@, y) implies nset_of(g2.adj@, y) == nset_of(g1.adj@, y).remove(
                xv,
            ) by {
                let t = aidx(g2.adj@, y);
                assert(0 <= t < g2.adj@.len() && g2.adj@[t].vertex@ == y);
                assert(keys_of(g2.adj@)[t] == y);
                assert(keys_of(g1.adj@)[t] == y);
            }
        }
        // Discard every weight entry incident to the removed vertex.
        let mut j: usize = 0;
        while j < self.weights.len()
            invariant
                xv == vertex@,
                self.adj == g2.adj,
                self.directed == g2.directed,
                j <= self.weights@.len(),
                wkeys_of(self.weights@).no_duplicates(),
                wprefix_clean(self.weights@, j as int, xv),
                forall|k: (<V as View>::V, <V as View>::V)|
                    whas(self.weights@, k) ==> whas(g0.weights@, k) && wmap_of(self.weights@)[k]
                        == wmap_of(g0.weights@)[k],
                forall|k: (<V as View>::V, <V as View>::V)|
                    whas(g0.weights@, k) && k.0 != xv && k.1 != xv ==> whas(self.weights@, k),
            decreases self.weights@.len() - j,
        {
            let ghost sp = self.weights@;
            let touches = self.weights[j].src.key_eq(vertex) || self.weights[j].dst.key_eq(
                vertex,
            );
            if touches {
                self.weights.remove(j);
                proof {
                    lemma_weight_remove(sp, j as int);
                    let kj = (sp[j as int].src@, sp[j as int].dst@);
                    assert(self.weights@ == sp.remove(j as int));
                    assert(kj.0 == xv || kj.1 == xv);
                    assert forall|t: int|
                        0 <= t < j implies (#[trigger] self.weights@[t].src)@ != xv
                        && self.weights@[t].dst@ != xv by {
                        assert(self.weights@[t] == sp[t]);
                    }
                    assert(wprefix_clean(self.weights@, j as int, xv));
                    assert forall|k: (<V as View>::V, <V as View>::V)|
                        whas(self.weights@, k) implies whas(g0.weights@, k) && wmap_of(
                        self.weights@,
                    )[k] == wmap_of(g0.weights@)[k] by {
                        lemma_weight_remove(sp, j as int);
                        assert(whas(sp.remove(j as int), k) == (whas(sp, k) && k != kj));
                        assert(whas(sp, k) && k != kj);
                        assert(wmap_of(sp.remove(j as int)) == wmap_of(sp).remove(kj));
                        assert(wmap_of(self.weights@)[k] == wmap_of(sp)[k]);
                    }
                    assert forall|k: (<V as View>::V, <V as View>::V)|
                        whas(g0.weights@, k) && k.0 != xv && k.1 != xv implies whas(
                        self.weights@,
                        k,
                    ) by {
                        lemma_weight_remove(sp, j as int);
                        assert(whas(sp, k));
                        assert(k != kj);
                        assert(whas(sp.remove(j as int), k) == (whas(sp, k) && k != kj));
                    }
                }
            } else {
                proof {
                    assert((self.weights@[j as int].src)@ != xv && self.weights@[j as int].dst@
                        != xv);
                    assert(wprefix_clean(self.weights@, j as int + 1, xv)) by {
                        assert forall|t: int|
                            0 <= t < j + 1 implies (#[trigger] self.weights@[t].src)@ != xv
                            && self.weights@[t].dst@ != xv by {}
                    }
                }
                j = j + 1;
            }
        }
        proof {
            // Every surviving weight entry avoids the removed vertex.
            assert forall|k: (<V as View>::V, <V as View>::V)|
                whas(self.weights@, k) implies k.0 != xv && k.1 != xv by {
                let t = widx(self.weights@, k);
                assert(0 <= t < self.weights@.len() && (self.weights@[t].src@,
                self.weights@[t].dst@) == k);
                assert((self.weights@[t].src)@ != xv && self.weights@[t].dst@ != xv);
            }
            lemma_keys_contain(g2.adj@);
            lemma_keys_contain(g0.adj@);
            // The vertex set lost exactly the removed vertex.
            assert(self.vertex_set() =~= g0.vertex_set().remove(xv));
            // Neighbor sets shrank by the removed vertex.
            assert(self.neighbor_sets_shrunk(&g0, xv)) by {
                assert forall|x: <V as View>::V|
                    x != xv implies #[trigger] nset_of(self.adj@, x) == nset_of(
                    g0.adj@,
                    x,
                ).remove(xv) by {
                    if ahas(g2.adj@, x) {
                        assert(nset_of(g2.adj@, x) == nset_of(g1.adj@, x).remove(xv));
                        assert(nset_of(g1.adj@, x) == nset_of(g0.adj@, x));
                    } else {
                        assert(!ahas(g0.adj@, x));
                        assert(nset_of(self.adj@, x) =~= Set::<<V as View>::V>::empty());
                        assert(nset_of(g0.adj@, x).remove(xv) =~= Set::<
                            <V as View>::V,
                        >::empty());
                    }
                }
            }
            assert(nset_of(self.adj@, xv) =~= Set::<<V as View>::V>::empty());
            // The invariant holds again.
            assert(self.inv()) by {
                assert forall|x: <V as View>::V, y: <V as View>::V|
                    #[trigger] nset_of(self.adj@, x).contains(y) implies ahas(self.adj@, y) by {
                    assert(nset_of(self.adj@, x) == nset_of(g0.adj@, x).remove(xv));
                    assert(nset_of(g0.adj@, x).contains(y));
                    assert(ahas(g0.adj@, y) && y != xv);
                }
                assert forall|j2: int|
                    0 <= j2 < self.weights@.len() implies nset_of(
                    self.adj@,
                    (#[trigger] self.weights@[j2].src)@,
                ).contains(self.weights@[j2].dst@) by {
                    lemma_weight_entry(self.weights@, j2);
                    let k = (self.weights@[j2].src@, self.weights@[j2].dst@);
                    assert(whas(self.weights@, k));
                    assert(k.0 != xv && k.1 != xv);
                    assert(whas(g0.weights@, k));
                    let t = widx(g0.weights@, k);
                    assert(0 <= t < g0.weights@.len() && (g0.weights@[t].src@,
                    g0.weights@[t].dst@) == k);
                    assert(nset_of(g0.adj@, k.0).contains(k.1));
                    assert(nset_of(self.adj@, k.0) == nset_of(g0.adj@, k.0).remove(xv));
                }
                if !self.directed {
                    assert forall|x: <V as View>::V, y: <V as View>::V|
                        #[trigger] nset_of(self.adj@, x).contains(y) implies nset_of(
                        self.adj@,
                        y,
                    ).contains(x) by {
                        assert(nset_of(self.adj@, x) == nset_of(g0.adj@, x).remove(xv));
                        assert(nset_of(g0.adj@, x).contains(y));
                        assert(nset_of(g0.adj@, y).contains(x));
                        assert(ahas(g0.adj@, x));
                        assert(x != xv);
                        assert(nset_of(self.adj@, y) == nset_of(g0.adj@, y).remove(xv));
                    }
                    assert forall|j2: int|
                        0 <= j2 < self.weights@.len() implies whas(
                        self.weights@,
                        ((#[trigger] self.weights@[j2].dst)@, self.weights@[j2].src@),
                    ) && wmap_of(self.weights@)[(self.weights@[j2].dst@, self.weights@[j2].src@)]
                        == self.weights@[j2].weight@ by {
                        lemma_weight_entry(self.weights@, j2);
                        let k = (self.weights@[j2].src@, self.weights@[j2].dst@);
                        let mk = (k.1, k.0);
                        assert(whas(self.weights@, k));
                        assert(k.0 != xv && k.1 != xv);
                        assert(whas(g0.weights@, k));
                        let t = widx(g0.weights@, k);
                        assert(0 <= t < g0.weights@.len() && (g0.weights@[t].src@,
                        g0.weights@[t].dst@) == k);
                        assert(whas(g0.weights@, mk) && wmap_of(g0.weights@)[mk] == g0.weights@[
                            t
                        ].weight@);
                        assert(whas(self.weights@, mk));
                        assert(wmap_of(self.weights@)[mk] == wmap_of(g0.weights@)[mk]);
                        assert(wmap_of(self.weights@)[k] == wmap_of(g0.weights@)[k]);
                        assert(wmap_of(g0.weights@)[k] == g0.weights@[t].weight@);
                        assert(wmap_of(self.weights@)[k] == self.weights@[j2].weight@);
                    }
                }
            }
        }
        proof {
            assert(wmap_of(self.weights@) =~= crate::traits::weighted::weights_without(
                &g0,
                xv,
            )) by {
                assert forall|k: (<V as View>::V, <V as View>::V)|
                    wmap_of(self.weights@).contains_key(k) == (wmap_of(
                        g0.weights@,
                    ).contains_key(k) && k.0 != xv && k.1 != xv) by {
                    if whas(self.weights@, k) {
                        assert(k.0 != xv && k.1 != xv);
                        assert(whas(g0.weights@, k));
                    }
                    if whas(g0.weights@, k) && k.0 != xv && k.1 != xv {
                        assert(whas(self.weights@, k));
                    }
                }
            }
        }
        Ok(())
    }

    fn add_edge(&mut self, u: &V, v: &V) -> (r: Result<(), GraphError>)
        ensures
            final(self).weight_map() == old(self).weight_map(),
    {
        proof {
            lemma_keys_contain(self.adj@);
        }
        let iu = match self.find_vertex(u) {
            None => {
                return Err(GraphError::VertexNotFound);
            },
            Some(i) => i,
        };
        let iv = match self.find_vertex(v) {
            None => {
                return Err(GraphError::VertexNotFound);
            },
            Some(i) => i,
        };
        proof {
            assert(ahas(self.adj@, u@) && ahas(self.adj@, v@));
            lemma_adj_entry(self.adj@, iu as int);
            lemma_adj_entry(self.adj@, iv as int);
        }
        let f = Self::list_find(&self.adj[iu].nbrs, v);
        if let Some(k) = f {
            proof {
                assert(vertex_views(self.adj@[iu as int].nbrs@)[k as int] == v@);
                assert(nset_of(self.adj@, u@).contains(v@));
            }
            return Err(GraphError::EdgeAlreadyExists);
        }
        proof {
            assert(!nset_of(self.adj@, u@).contains(v@));
        }
        let ghost g0 = *self;
        self.insert_nbr(iu, v);
        let ghost g1 = *self;
        let mirrored = !self.directed && !u.key_eq(v);
        if mirrored {
            proof {
                assert(keys_of(g1.adj@)[iv as int] == keys_of(g0.adj@)[iv as int]);
                assert(g1.adj@[iv as int].vertex@ == v@);
            }
            self.insert_nbr(iv, u);
        }
        proof {
            assert(g1.adj@.len() == g0.adj@.len()) by {
                assert(keys_of(g1.adj@).len() == keys_of(g0.adj@).len());
            }
            assert(self.adj@.len() == g1.adj@.len()) by {
                assert(keys_of(self.adj@).len() == keys_of(g1.adj@).len());
            }
            assert(mirrored == (!g0.directed && u@ != v@));
            self.lemma_after_edge_insert(&g0, &g1, u@, v@, mirrored);
        }
        Ok(())
    }

    fn remove_edge(&mut self, u: &V, v: &V) -> (r: Result<(), GraphError>)
        ensures
            r is Ok ==> final(self).weight_map() == (if old(self).directed() {
                old(self).weight_map().remove((u@, v@))
            } else {
                old(self).weight_map().remove((u@, v@)).remove((v@, u@))
            }),
    {
        proof {
            lemma_keys_contain(self.adj@);
        }
        let iu = match self.find_vertex(u) {
            None => {
                proof {
                    assert(!ahas(self.adj@, u@));
                }
                return Err(GraphError::EdgeNotFound);
            },
            Some(i) => i,
        };
        proof {
            lemma_adj_entry(self.adj@, iu as int);
        }
        let f = Self::list_find(&self.adj[iu].nbrs, v);
        let ku = match f {
            None => {
                proof {
                    assert(!nset_of(self.adj@, u@).contains(v@));
                }
                return Err(GraphError::EdgeNotFound);
            },
            Some(k) => k,
        };
        proof {
            assert(vertex_views(self.adj@[iu as int].nbrs@)[ku as int] == v@);
            assert(nset_of(self.adj@, u@).contains(v@));
        }
        let ghost g0 = *self;
        self.remove_weight(u, v);
        let ghost gm = *self;
        if !self.directed {
            self.remove_weight(v, u);
        }
        let ghost g1 = *self;
        proof {
            if !g0.directed {
                assert forall|k: (<V as View>::V, <V as View>::V)|
                    whas(g1.weights@, k) == (whas(g0.weights@, k) && k != (u@, v@) && k != (
                    v@,
                    u@,
                )) by {
                    assert(whas(g1.weights@, k) == (whas(gm.weights@, k) && k != (v@, u@)));
                    assert(whas(gm.weights@, k) == (whas(g0.weights@, k) && k != (u@, v@)));
                }
                assert(wkeys_minus2(g1.weights@, g0.weights@, (u@, v@), (v@, u@)));
            }
        }
        let ghost ga = *self;
        self.remove_nbr(iu, v);
        let ghost gb = *self;
        let mirrored = !self.directed && !u.key_eq(v);
        if mirrored {
            let iv = match self.find_vertex(v) {
                Some(i) => i,
                None => {
                    proof {
                        assert(ahas(g0.adj@, v@));
                        assert(false);
                    }
                    unreached()
                },
            };
            proof {
                assert(gb.adj@[iv as int].vertex@ == v@);
                assert(v@ != u@);
            }
            self.remove_nbr(iv, u);
        }
        proof {
            assert(ga.adj == g0.adj);
            assert(ga.adj@[iu as int].vertex@ == u@);
            assert(nset_of(gb.adj@, u@) == nset_of(g0.adj@, u@).remove(v@));
            if mirrored {
                assert(nset_of(self.adj@, v@) == nset_of(gb.adj@, v@).remove(u@));
                assert(nset_of(gb.adj@, v@) == nset_of(g0.adj@, v@));
                assert(nset_of(self.adj@, u@) == nset_of(gb.adj@, u@));
                assert forall|y: <V as View>::V|
                    y != u@ && y != v@ implies nset_of(self.adj@, y) == nset_of(
                    g0.adj@,
                    y,
                ) by {
                    assert(nset_of(self.adj@, y) == nset_of(gb.adj@, y));
                    assert(nset_of(gb.adj@, y) == nset_of(g0.adj@, y));
                }
            }
            assert(keys_of(self.adj@) == keys_of(g0.adj@));
            assert(self.adj@.len() == g0.adj@.len()) by {
                assert(keys_of(self.adj@).len() == keys_of(g0.adj@).len());
            }
            assert forall|y: <V as View>::V|
                ahas(self.adj@, y) == ahas(g0.adj@, y) by {}
            assert(mirrored == (!g0.directed && u@ != v@));
            self.lemma_after_edge_remove(&g0, &g1, u@, v@, mirrored);
        }
        Ok(())
    }

    fn remove_isolated_vertices(&mut self) -> (r: Result<(), GraphError>)
        ensures
            r is Ok ==> final(self).weight_map() == crate::traits::weighted::weights_outside(
                old(self),
                old(self).isolated_set(),
            ),
    {
        let iso = self.get_isolated_vertices();
        if iso.len() == 0 {
            proof {
                assert(vertex_views(iso@).to_set() =~= Set::<<V as View>::V>::empty());
                assert(self.isolated_set().is_empty());
            }
            return Err(GraphError::VertexNotFound);
        }
        proof {
            assert(vertex_views(iso@).to_set().contains(vertex_views(iso@)[0]));
            assert(!self.isolated_set().is_empty());
        }
        let ghost g0 = *self;
        let ghost isoset = g0.isolated_set();
        proof {
            assert(vertex_views(iso@.take(0)).to_set() =~= Set::<<V as View>::V>::empty());
            assert(self.vertex_set() =~= g0.vertex_set().difference(
                vertex_views(iso@.take(0)).to_set(),
            ));
            assert(self.neighbor_sets_pruned(&g0, vertex_views(iso@.take(0)).to_set())) by {
                assert forall|x: <V as View>::V|
                    !vertex_views(iso@.take(0)).to_set().contains(x) implies #[trigger] self.neighbor_set(
                    x,
                ) == g0.neighbor_set(x).difference(vertex_views(iso@.take(0)).to_set()) by {
                    assert(g0.neighbor_set(x).difference(vertex_views(iso@.take(0)).to_set())
                        =~= g0.neighbor_set(x));
                }
            }
            assert(isoset.subset_of(g0.vertex_set()));
            assert(self.weight_map() =~= crate::traits::weighted::weights_outside(
                &g0,
                vertex_views(iso@.take(0)).to_set(),
            ));
        }
        let m = iso.len();
        for t in 0..m
            invariant
                m == iso@.len(),
                vertex_views(iso@).no_duplicates(),
                vertex_views(iso@).to_set() == isoset,
                isoset.subset_of(g0.vertex_set()),
                self.inv(),
                self.directed() == g0.directed(),
                self.vertex_set() == g0.vertex_set().difference(
                    vertex_views(iso@.take(t as int)).to_set(),
                ),
                self.neighbor_sets_pruned(&g0, vertex_views(iso@.take(t as int)).to_set()),
                self.weight_map() == crate::traits::weighted::weights_outside(
                    &g0,
                    vertex_views(iso@.take(t as int)).to_set(),
                ),
        {
            let ghost gp = *self;
            let ghost pset = vertex_views(iso@.take(t as int)).to_set();
            let ghost xv = iso@[t as int]@;
            proof {
                assert(vertex_views(iso@)[t as int] == xv);
                assert(isoset.contains(xv));
                assert(!pset.contains(xv)) by {
                    if pset.contains(xv) {
                        let q = choose|q: int|
                            0 <= q < vertex_views(iso@.take(t as int)).len()
                                && #[trigger] vertex_views(iso@.take(t as int))[q] == xv;
                        assert(vertex_views(iso@)[q] == xv);
                    }
                }
                assert(gp.vertex_set().contains(xv));
            }
            match self.remove_vertex(&iso[t]) {
                Ok(()) => {},
                Err(_) => {
                    proof {
                        assert(false);
                    }
                    return Err(GraphError::VertexNotFound);
                },
            }
            proof {
                let pset2 = vertex_views(iso@.take(t as int + 1)).to_set();
                assert(vertex_views(iso@.take(t as int + 1)) =~= vertex_views(
                    iso@.take(t as int),
                ).push(xv));
                assert(pset2 =~= pset.insert(xv)) by {
                    let vs = vertex_views(iso@.take(t as int));
                    assert forall|y: <V as View>::V|
                        pset2.contains(y) == (pset.contains(y) || y == xv) by {
                        let vs2 = vs.push(xv);
                        if pset2.contains(y) {
                            let q = choose|q: int|
                                0 <= q < vs2.len() && #[trigger] vs2[q] == y;
                            if q < vs.len() {
                                assert(vs[q] == y);
                            }
                        }
                        if pset.contains(y) {
                            let q = choose|q: int| 0 <= q < vs.len() && #[trigger] vs[q] == y;
                            assert(vs2[q] == y);
                        }
                        if y == xv {
                            assert(vs2[vs2.len() - 1] == y);
                        }
                    }
                }
                assert(self.vertex_set() =~= g0.vertex_set().difference(pset2));
                assert(self.weight_map() =~= crate::traits::weighted::weights_outside(
                    &g0,
                    pset2,
                )) by {
                    assert(self.weight_map() == crate::traits::weighted::weights_without(
                        &gp,
                        xv,
                    ));
                    assert(gp.weight_map() == crate::traits::weighted::weights_outside(
                        &g0,
                        pset,
                    ));
                    assert forall|k: (<V as View>::V, <V as View>::V)|
                        self.weight_map().contains_key(k) == (g0.weight_map().contains_key(k)
                            && !pset2.contains(k.0) && !pset2.contains(k.1)) by {}
                }
                assert(self.neighbor_sets_pruned(&g0, pset2)) by {
                    assert forall|x: <V as View>::V|
                        !pset2.contains(x) implies #[trigger] self.neighbor_set(x)
                        == g0.neighbor_set(x).difference(pset2) by {
                        assert(x != xv && !pset.contains(x));
                        assert(self.neighbor_set(x) == gp.neighbor_set(x).remove(xv));
                        assert(gp.neighbor_set(x) == g0.neighbor_set(x).difference(pset));
                        assert(g0.neighbor_set(x).difference(pset).remove(xv)
                            =~= g0.neighbor_set(x).difference(pset2));
                    }
                }
            }
        }
        proof {
            assert(iso@.take(m as int) == iso@);
            assert(self.vertex_set() == g0.vertex_set().difference(isoset));
            assert(self.neighbor_sets_pruned(&g0, isoset));
            assert(self.weight_map() == crate::traits::weighted::weights_outside(&g0, isoset));
        }
        Ok(())
    }
}

impl<V: VertexKey, W: EdgeWeight> WeightedGraph for SimpleGraph<V, W> {
    type Weight = W;

    closed spec fn weight_map(&self) -> Map<
        (<V as View>::V, <V as View>::V),
        <W as View>::V,
    > {
        wmap_of(self.weights@)
    }

    proof fn weight_implies_edge(&self, u: <V as View>::V, v: <V as View>::V) {
        assert(whas(self.weights@, (u, v)));
        let j = widx(self.weights@, (u, v));
        assert(0 <= j < self.weights@.len() && (self.weights@[j].src@, self.weights@[j].dst@) == (
        u,
        v,
        ));
        assert(nset_of(self.adj@, self.weights@[j].src@).contains(self.weights@[j].dst@));
    }

    proof fn undirected_weights_symmetric(&self, u: <V as View>::V, v: <V as View>::V) {
        assert(whas(self.weights@, (u, v)));
        let j = widx(self.weights@, (u, v));
        assert(0 <= j < self.weights@.len() && (self.weights@[j].src@, self.weights@[j].dst@) == (
        u,
        v,
        ));
        lemma_weight_entry(self.weights@, j);
    }

    fn edge_weight<'a>(&'a self, u: &V, v: &V) -> (r: Option<&'a W>) {
        match self.find_weight(u, v) {
            None => None,
            Some(j) => {
                proof {
                    lemma_weight_entry(self.weights@, j as int);
                }
                Some(&self.weights[j].weight)
            },
        }
    }
}

impl<V: VertexKey, W: EdgeWeight> SimpleGraph<V, W> {
    /// Creates an empty graph with the given directedness.
    fn new(directed: bool) -> (r: Self)
        ensures
            r.wf(),
            r.vertex_set() == Set::<<V as View>::V>::empty(),
            forall|v: <V as View>::V| #[trigger] r.neighbor_set(v) == Set::<
                <V as View>::V,
            >::empty(),
            r.weight_map() == Map::<(<V as View>::V, <V as View>::V), <W as View>::V>::empty(),
            r.directed() == directed,
    {
        let r = SimpleGraph { adj: Vec::new(), weights: Vec::new(), directed };
        proof {
            assert(r.vertex_set() =~= Set::empty());
            assert(r.weight_map() =~= Map::empty()) by {
                assert forall|k: (<V as View>::V, <V as View>::V)|
                    !whas(r.weights@, k) by {}
            }
            assert forall|v: <V as View>::V| #[trigger] r.neighbor_set(v) == Set::<
                <V as View>::V,
            >::empty() by {
                assert(!ahas(r.adj@, v));
            }
        }
        r
    }

    /// Creates a new directed graph with weights of type `W`.
    pub fn new_weighted_directed() -> (r: Self)
        ensures
            r.wf(),
            r.vertex_set() == Set::<<V as View>::V>::empty(),
            forall|v: <V as View>::V| #[trigger] r.neighbor_set(v) == Set::<
                <V as View>::V,
            >::empty(),
            r.weight_map() == Map::<(<V as View>::V, <V as View>::V), <W as View>::V>::empty(),
            r.directed(),
    {
        SimpleGraph::new(true)
    }

    /// Creates a new undirected graph with weights of type `W`.
    pub fn new_weighted_undirected() -> (r: Self)
        ensures
            r.wf(),
            r.vertex_set() == Set::<<V as View>::V>::empty(),
            forall|v: <V as View>::V| #[trigger] r.neighbor_set(v) == Set::<
                <V as View>::V,
            >::empty(),
            r.weight_map() == Map::<(<V as View>::V, <V as View>::V), <W as View>::V>::empty(),
            !r.directed(),
    {
        SimpleGraph::new(false)
    }
}

impl<V: VertexKey> SimpleGraph<V, ()> {
    /// Creates a new directed graph without weights.
    pub fn new_directed() -> (r: Self)
        ensures
            r.wf(),
            r.vertex_set() == Set::<<V as View>::V>::empty(),
            forall|v: <V as View>::V| #[trigger] r.neighbor_set(v) == Set::<
                <V as View>::V,
            >::empty(),
            r.weight_map() == Map::<(<V as View>::V, <V as View>::V), ()>::empty(),
            r.directed(),
    {
        SimpleGraph::new(true)
    }

    /// Creates a new undirected graph without weights.
    pub fn new_undirected() -> (r: Self)
        ensures
            r.wf(),
            r.vertex_set() == Set::<<V as View>::V>::empty(),
            forall|v: <V as View>::V| #[trigger] r.neighbor_set(v) == Set::<
                <V as View>::V,
            >::empty(),
            r.weight_map() == Map::<(<V as View>::V, <V as View>::V), ()>::empty(),
            !r.directed(),
    {
        SimpleGraph::new(false)
    }
}

impl<V: VertexKey, W: EdgeWeight> WeightedGraphMut for SimpleGraph<V, W> {
    fn set_edge_weight(&mut self, u: &V, v: &V, weight: W) -> (r: Result<(), GraphError>) {
        proof {
            lemma_keys_contain(self.adj@);
        }
        let iu = match self.find_vertex(u) {
            None => {
                return Err(GraphError::VertexNotFound);
            },
            Some(i) => i,
        };
        let iv = match self.find_vertex(v) {
            None => {
                return Err(GraphError::VertexNotFound);
            },
            Some(i) => i,
        };
        proof {
            assert(ahas(self.adj@, u@) && ahas(self.adj@, v@));
            lemma_adj_entry(self.adj@, iu as int);
            lemma_adj_entry(self.adj@, iv as int);
        }
        let ghost g0 = *self;
        self.insert_nbr(iu, v);
        let ghost g1 = *self;
        let mirrored = !self.directed && !u.key_eq(v);
        if mirrored {
            proof {
                assert(keys_of(g1.adj@)[iv as int] == keys_of(g0.adj@)[iv as int]);
                assert(g1.adj@[iv as int].vertex@ == v@);
            }
            self.insert_nbr(iv, u);
        }
        let ghost g2 = *self;
        proof {
            assert(g1.adj@.len() == g0.adj@.len()) by {
                assert(keys_of(g1.adj@).len() == keys_of(g0.adj@).len());
            }
            assert(g2.adj@.len() == g1.adj@.len()) by {
                assert(keys_of(g2.adj@).len() == keys_of(g1.adj@).len());
            }
            assert(mirrored == (!g0.directed && u@ != v@));
            g2.lemma_after_edge_insert(&g0, &g1, u@, v@, mirrored);
        }
        if self.directed {
            self.upsert_weight(u, v, weight);
            proof {
                self.lemma_after_weight_upsert(&g2, u@, v@, weight@);
            }
        } else {
            let w2 = weight.dup();
            self.upsert_weight(u, v, weight);
            let ghost gm = *self;
            self.upsert_weight(v, u, w2);
            proof {
                assert forall|k: (<V as View>::V, <V as View>::V)|
                    whas(self.weights@, k) == (whas(g2.weights@, k) || k == (u@, v@) || k == (
                    v@,
                    u@,
                )) by {
                    assert(whas(self.weights@, k) == (whas(gm.weights@, k) || k == (v@, u@)));
                    assert(whas(gm.weights@, k) == (whas(g2.weights@, k) || k == (u@, v@)));
                }
                assert(wkeys_plus2(self.weights@, g2.weights@, (u@, v@), (v@, u@)));
                assert(nset_of(g2.adj@, v@).contains(u@));
                self.lemma_after_weight_upsert(&g2, u@, v@, weight@);
            }
        }
        proof {
            assert(self.adj == g2.adj);
            lemma_keys_contain(self.adj@);
            lemma_keys_contain(g0.adj@);
            assert(self.vertex_set() =~= g0.vertex_set());
            assert(nset_of(self.adj@, u@) == nset_of(g2.adj@, u@));
            if !g0.directed {
                assert(nset_of(self.adj@, v@) == nset_of(g2.adj@, v@));
                assert(self.neighbor_sets_unchanged_except_pair(&g0, u@, v@)) by {
                    assert forall|x: <V as View>::V|
                        x != u@ && x != v@ implies #[trigger] nset_of(self.adj@, x) == nset_of(
                        g0.adj@,
                        x,
                    ) by {
                        assert(nset_of(self.adj@, x) == nset_of(g2.adj@, x));
                    }
                }
            } else {
                assert(self.neighbor_sets_unchanged_except(&g0, u@)) by {
                    assert forall|x: <V as View>::V|
                        x != u@ implies #[trigger] nset_of(self.adj@, x) == nset_of(
                        g0.adj@,
                        x,
                    ) by {
                        assert(nset_of(self.adj@, x) == nset_of(g2.adj@, x));
                    }
                }
            }
            assert(g2.weights == g0.weights);
        }
        Ok(())
    }
}

/// A directed graph without weights.
pub type DirectedGraph<V> = SimpleGraph<V, ()>;

/// An undirected graph without weights.
pub type UndirectedGraph<V> = SimpleGraph<V, ()>;

/// A directed graph with weights of type `W`.
pub type WeightedDirectedGraph<V, W> = SimpleGraph<V, W>;

/// An undirected graph with weights of type `W`.
pub type WeightedUndirectedGraph<V, W> = SimpleGraph<V, W>;

impl<V: VertexKey, W: EdgeWeight> Default for SimpleGraph<V, W> {
    /// An empty undirected graph.
    fn default() -> (r: Self)
        ensures
            r.wf(),
            r.vertex_set() == Set::<<V as View>::V>::empty(),
            r.weight_map() == Map::<(<V as View>::V, <V as View>::V), <W as View>::V>::empty(),
            !r.directed(),
    {
        SimpleGraph::new(false)
    }
}

} // verus!
