//! The timeline of a Lottie model: every layer to be rendered, with
//! precompositions expanded into the layers of their assets, and each staged
//! layer linked to its parent.
use vstd::prelude::*;
use std::collections::HashMap;

verus! {

broadcast use vstd::std_specs::hash::group_hash_axioms;

/// What the timeline reads of a layer: its id, its index and its parent's
/// index (as the document numbers layers), and the asset id of the
/// precomposition it shows, if it is a precomposition layer.
pub struct LayerNode {
    pub id: u32,
    pub index: Option<u32>,
    pub parent_index: Option<u32>,
    pub precomposition: Option<String>,
}

/// A precomposition asset: its id and its layers.
pub struct AssetNode {
    pub id: String,
    pub layers: Vec<LayerNode>,
}

/// The layers and precomposition assets of a model.
pub struct ModelNodes {
    pub layers: Vec<LayerNode>,
    pub assets: Vec<AssetNode>,
}

/// Which layer of the model a staged layer shows: a top-level layer, or
/// layer `j` of asset `a`.
#[derive(Debug, Clone, Copy, PartialEq, Eq, Structural)]
pub enum LayerSource {
    Top(usize),
    Asset(usize, usize),
}

/// What a staged layer belongs to: a top-level layer (by its id), or a
/// precomposition asset (by the asset id).
#[derive(Debug)]
pub enum TargetRef {
    Layer(u32),
    Asset(String),
}

/// A layer waiting to be staged: what it shows, what it belongs to, and the
/// staged precomposition layer (by position) that brought it in.
pub struct StageEntry {
    pub source: LayerSource,
    pub target: TargetRef,
    pub container: Option<usize>,
}

/// A staged layer: its id is its position on the timeline; `parent` is the
/// staged layer it is attached to.
pub struct StagedLayer {
    pub id: usize,
    pub source: LayerSource,
    pub target: TargetRef,
    pub container: Option<usize>,
    pub parent: Option<usize>,
}

pub open spec fn valid_source(m: ModelNodes, s: LayerSource) -> bool {
    match s {
        LayerSource::Top(i) => i < m.layers@.len(),
        LayerSource::Asset(a, j) => a < m.assets@.len() && j < m.assets@[a as int].layers@.len(),
    }
}

pub open spec fn node_of(m: ModelNodes, s: LayerSource) -> LayerNode {
    match s {
        LayerSource::Top(i) => m.layers@[i as int],
        LayerSource::Asset(a, j) => m.assets@[a as int].layers@[j as int],
    }
}

/// The first asset at or after `k` whose id is `r`.
pub open spec fn find_asset(m: ModelNodes, r: Seq<char>, k: int) -> Option<int>
    decreases m.assets@.len() - k,
{
    if k < 0 || k >= m.assets@.len() {
        None
    } else if m.assets@[k].id@ == r {
        Some(k)
    } else {
        find_asset(m, r, k + 1)
    }
}

/// The top-level layers, in document order.
pub open spec fn top_entries(m: ModelNodes) -> Seq<StageEntry> {
    Seq::new(
        m.layers@.len(),
        |i: int|
            StageEntry {
                source: LayerSource::Top(i as usize),
                target: TargetRef::Layer(m.layers@[i].id),
                container: None,
            },
    )
}

/// The layers of asset `a`, brought in by the precomposition layer staged at
/// position `pos` that refers to the asset as `r`.
pub open spec fn asset_entries(m: ModelNodes, a: int, pos: int, r: String) -> Seq<StageEntry> {
    Seq::new(
        m.assets@[a].layers@.len(),
        |j: int|
            StageEntry {
                source: LayerSource::Asset(a as usize, j as usize),
                target: TargetRef::Asset(r),
                container: Some(pos as usize),
            },
    )
}

/// Staging one waiting layer, given the layers staged so far and those
/// waiting for the next round. A precomposition layer whose asset is missing
/// is dropped; one whose asset exists is staged and brings in the asset's
/// layers; any other layer is staged.
pub open spec fn stage_step(
    m: ModelNodes,
    acc: (Seq<StageEntry>, Seq<StageEntry>),
    p: StageEntry,
) -> (Seq<StageEntry>, Seq<StageEntry>) {
    match node_of(m, p.source).precomposition {
        None => (acc.0.push(p), acc.1),
        Some(r) => match find_asset(m, r@, 0) {
            None => acc,
            Some(a) => (acc.0.push(p), acc.1 + asset_entries(m, a, acc.0.len() as int, r)),
        },
    }
}

/// The staged layers and the waiting layers after `k` rounds: the first
/// round stages the top-level layers, each later one the layers that the
/// precompositions of the round before brought in.
pub open spec fn stage_rounds(m: ModelNodes, k: nat) -> (Seq<StageEntry>, Seq<StageEntry>)
    decreases k,
{
    if k == 0 {
        (Seq::empty(), top_entries(m))
    } else {
        let prev = stage_rounds(m, (k - 1) as nat);
        prev.1.fold_left(
            (prev.0, Seq::<StageEntry>::empty()),
            |acc: (Seq<StageEntry>, Seq<StageEntry>), p: StageEntry| stage_step(m, acc, p),
        )
    }
}

/// Expanding precompositions comes to an end: no asset brings itself in
/// again, directly or through others, so nothing is left waiting after one
/// round more than there are assets.
pub open spec fn staging_ends(m: ModelNodes) -> bool {
    stage_rounds(m, (m.assets@.len() + 1) as nat).1.len() == 0
}

/// The staged layers of a model, in the order they are staged.
pub open spec fn staged_entries(m: ModelNodes) -> Seq<StageEntry> {
    stage_rounds(m, (m.assets@.len() + 1) as nat).0
}

proof fn lemma_rounds_stay_empty(m: ModelNodes, j: nat, k: nat)
    requires
        j <= k,
        stage_rounds(m, j).1.len() == 0,
    ensures
        stage_rounds(m, k).1.len() == 0,
        stage_rounds(m, k).0 == stage_rounds(m, j).0,
    decreases k - j,
{
    if j < k {
        let prev = stage_rounds(m, j);
        let f = |acc: (Seq<StageEntry>, Seq<StageEntry>), p: StageEntry| stage_step(m, acc, p);
        assert(stage_rounds(m, j + 1) == prev.1.fold_left((prev.0, Seq::<StageEntry>::empty()), f));
        assert(prev.1.fold_left((prev.0, Seq::<StageEntry>::empty()), f) == (
            prev.0,
            Seq::<StageEntry>::empty(),
        ));
        lemma_rounds_stay_empty(m, j + 1, k);
    }
}

fn find_asset_exec(m: &ModelNodes, r: &String) -> (res: Option<usize>)
    ensures
        res matches Some(a) ==> a < m.assets@.len(),
        match res {
            Some(a) => find_asset(*m, r@, 0) == Some(a as int),
            None => find_asset(*m, r@, 0) is None,
        },
{
    let mut k: usize = 0;
    while k < m.assets.len()
        invariant
            k <= m.assets@.len(),
            find_asset(*m, r@, k as int) == find_asset(*m, r@, 0),
        decreases m.assets@.len() - k,
    {
        if m.assets[k].id == *r {
            return Some(k);
        }
        k = k + 1;
    }
    None
}

fn node_ref<'a>(m: &'a ModelNodes, s: LayerSource) -> (n: &'a LayerNode)
    requires
        valid_source(*m, s),
    ensures
        *n == node_of(*m, s),
{
    match s {
        LayerSource::Top(i) => &m.layers[i],
        LayerSource::Asset(a, j) => &m.assets[a].layers[j],
    }
}

/// Stages one round: each waiting layer in turn is staged (or dropped),
/// and the layers that staged precompositions bring in wait for the next
/// round.
fn stage_round(m: &ModelNodes, staged: &mut Vec<StageEntry>, frontier: &Vec<StageEntry>) -> (next:
    Vec<StageEntry>)
    requires
        forall|q: int| 0 <= q < frontier@.len() ==> valid_source(*m, #[trigger] frontier@[q].source),
        forall|q: int| 0 <= q < old(staged)@.len() ==> valid_source(*m, #[trigger] old(staged)@[q].source),
    ensures
        (final(staged)@, next@) == frontier@.fold_left(
            (old(staged)@, Seq::<StageEntry>::empty()),
            |acc: (Seq<StageEntry>, Seq<StageEntry>), p: StageEntry| stage_step(*m, acc, p),
        ),
        forall|q: int| 0 <= q < next@.len() ==> valid_source(*m, #[trigger] next@[q].source),
        forall|q: int| 0 <= q < final(staged)@.len() ==> valid_source(*m, #[trigger] final(staged)@[q].source),
{
    let ghost f = |acc: (Seq<StageEntry>, Seq<StageEntry>), p: StageEntry| stage_step(*m, acc, p);
    let ghost init = staged@;
    let ghost prev = frontier@;
    let mut next: Vec<StageEntry> = Vec::new();
    let mut q: usize = 0;
    while q < frontier.len()
        invariant
            prev == frontier@,
            q <= frontier@.len(),
            (staged@, next@) == prev.subrange(0, q as int).fold_left(
                (init, Seq::<StageEntry>::empty()),
                f,
            ),
            forall|x: int| 0 <= x < prev.len() ==> valid_source(*m, #[trigger] prev[x].source),
            forall|x: int| 0 <= x < next@.len() ==> valid_source(*m, #[trigger] next@[x].source),
            forall|x: int| 0 <= x < staged@.len() ==> valid_source(*m, #[trigger] staged@[x].source),
            f == (|acc: (Seq<StageEntry>, Seq<StageEntry>), p: StageEntry| stage_step(*m, acc, p)),
        decreases frontier@.len() - q,
    {
        let ghost before = (staged@, next@);
        assert(prev.subrange(0, q + 1).drop_last() =~= prev.subrange(0, q as int));
        let src = frontier[q].source;
        let node = node_ref(m, src);
        match &node.precomposition {
            None => {
                let target = match &frontier[q].target {
                    TargetRef::Layer(id) => TargetRef::Layer(*id),
                    TargetRef::Asset(s) => TargetRef::Asset(s.clone()),
                };
                staged.push(StageEntry { source: src, target, container: frontier[q].container });
                assert(staged@ =~= before.0.push(prev[q as int]));
            },
            Some(r) => {
                match find_asset_exec(m, r) {
                    None => {},
                    Some(a) => {
                        let pos = staged.len();
                        let target = match &frontier[q].target {
                            TargetRef::Layer(id) => TargetRef::Layer(*id),
                            TargetRef::Asset(s) => TargetRef::Asset(s.clone()),
                        };
                        staged.push(
                            StageEntry { source: src, target, container: frontier[q].container },
                        );
                        assert(staged@ =~= before.0.push(prev[q as int]));
                        let n = m.assets[a].layers.len();
                        let mut j: usize = 0;
                        while j < n
                            invariant
                                j <= n,
                                n == m.assets@[a as int].layers@.len(),
                                a < m.assets@.len(),
                                pos == before.0.len(),
                                next@ == before.1 + asset_entries(*m, a as int, pos as int, *r).subrange(0, j as int),
                                forall|x: int| 0 <= x < next@.len() ==> valid_source(*m, #[trigger] next@[x].source),
                            decreases n - j,
                        {
                            next.push(
                                StageEntry {
                                    source: LayerSource::Asset(a, j),
                                    target: TargetRef::Asset(r.clone()),
                                    container: Some(pos),
                                },
                            );
                            j = j + 1;
                            assert(next@ =~= before.1 + asset_entries(*m, a as int, pos as int, *r).subrange(0, j as int));
                        }
                        assert(asset_entries(*m, a as int, pos as int, *r).subrange(0, n as int) =~= asset_entries(*m, a as int, pos as int, *r));
                    },
                }
            },
        }
        q = q + 1;
    }
    assert(prev.subrange(0, prev.len() as int) =~= prev);
    next
}

/// Stages the layers of a model: the top-level layers first, then round by
/// round the layers of the assets that staged precompositions show; `None`
/// where precompositions bring one another in without end.
pub fn try_stage_layers(m: &ModelNodes) -> (r: Option<Vec<StageEntry>>)
    ensures
        r is None <==> !staging_ends(*m),
        r matches Some(v) ==> v@ == staged_entries(*m),
        r matches Some(v) ==> forall|q: int|
            0 <= q < v@.len() ==> valid_source(*m, #[trigger] v@[q].source),
{
    let mut staged: Vec<StageEntry> = Vec::new();
    let mut frontier: Vec<StageEntry> = Vec::new();
    let mut i: usize = 0;
    while i < m.layers.len()
        invariant
            i <= m.layers@.len(),
            frontier@ == top_entries(*m).subrange(0, i as int),
        decreases m.layers@.len() - i,
    {
        frontier.push(
            StageEntry {
                source: LayerSource::Top(i),
                target: TargetRef::Layer(m.layers[i].id),
                container: None,
            },
        );
        i = i + 1;
        assert(frontier@ =~= top_entries(*m).subrange(0, i as int));
    }
    assert(frontier@ =~= top_entries(*m));
    let ghost mut round: nat = 0;
    let mut budget: usize = m.assets.len();
    assert(stage_rounds(*m, 0) == (staged@, frontier@));
    loop
        invariant
            round <= m.assets@.len(),
            budget == m.assets@.len() - round,
            (staged@, frontier@) == stage_rounds(*m, round),
            forall|q: int| 0 <= q < frontier@.len() ==> valid_source(*m, #[trigger] frontier@[q].source),
            forall|q: int| 0 <= q < staged@.len() ==> valid_source(*m, #[trigger] staged@[q].source),
        decreases budget,
    {
        if frontier.len() == 0 {
            proof {
                lemma_rounds_stay_empty(*m, round, (m.assets@.len() + 1) as nat);
            }
            return Some(staged);
        }
        let next = stage_round(m, &mut staged, &frontier);
        frontier = next;
        proof {
            round = round + 1;
        }
        if budget == 0 {
            if frontier.len() == 0 {
                return Some(staged);
            } else {
                return None;
            }
        }
        budget = budget - 1;
    }
}

/// Stages the layers of a model: the top-level layers first, then round by
/// round the layers of the assets that staged precompositions show.
pub fn stage_layers(m: &ModelNodes) -> (r: Vec<StageEntry>)
    requires
        staging_ends(*m),
    ensures
        r@ == staged_entries(*m),
        forall|q: int| 0 <= q < r@.len() ==> valid_source(*m, #[trigger] r@[q].source),
{
    match try_stage_layers(m) {
        Some(v) => v,
        None => Vec::new(),
    }
}

pub open spec fn containers_precede(st: Seq<StageEntry>, nx: Seq<StageEntry>) -> bool {
    &&& forall|i: int|
        0 <= i < st.len() ==> ((#[trigger] st[i]).container matches Some(c) ==> c < i)
    &&& forall|j: int|
        0 <= j < nx.len() ==> ((#[trigger] nx[j]).container matches Some(c) ==> c < st.len())
}

proof fn lemma_fold_containers_precede(
    m: ModelNodes,
    fr: Seq<StageEntry>,
    init: (Seq<StageEntry>, Seq<StageEntry>),
)
    requires
        containers_precede(init.0, init.1),
        forall|j: int|
            0 <= j < fr.len() ==> ((#[trigger] fr[j]).container matches Some(c) ==> c
                < init.0.len()),
    ensures
        ({
            let r = fr.fold_left(
                init,
                |acc: (Seq<StageEntry>, Seq<StageEntry>), p: StageEntry| stage_step(m, acc, p),
            );
            &&& containers_precede(r.0, r.1)
            &&& r.0.len() >= init.0.len()
        }),
    decreases fr.len(),
{
    if fr.len() > 0 {
        let f = |acc: (Seq<StageEntry>, Seq<StageEntry>), p: StageEntry| stage_step(m, acc, p);
        let rest = fr.drop_last();
        assert forall|j: int|
            0 <= j < rest.len() implies ((#[trigger] rest[j]).container matches Some(c) ==> c
                < init.0.len()) by {
            assert(rest[j] == fr[j]);
        }
        lemma_fold_containers_precede(m, rest, init);
        let mid = rest.fold_left(init, f);
        let p = fr.last();
        assert(fr[fr.len() - 1] == p);
        let r = stage_step(m, mid, p);
        assert(fr.fold_left(init, f) == r);
        match node_of(m, p.source).precomposition {
            None => {
                assert forall|i: int|
                    0 <= i < r.0.len() implies ((#[trigger] r.0[i]).container matches Some(c) ==> c
                    < i) by {
                    if i < mid.0.len() {
                        assert(r.0[i] == mid.0[i]);
                    }
                }
            },
            Some(name) => match find_asset(m, name@, 0) {
                None => {},
                Some(a) => {
                    assert forall|i: int|
                        0 <= i < r.0.len() implies ((#[trigger] r.0[i]).container matches Some(c)
                        ==> c < i) by {
                        if i < mid.0.len() {
                            assert(r.0[i] == mid.0[i]);
                        }
                    }
                    assert forall|j: int|
                        0 <= j < r.1.len() implies ((#[trigger] r.1[j]).container matches Some(c)
                        ==> c < r.0.len()) by {
                        if j < mid.1.len() {
                            assert(r.1[j] == mid.1[j]);
                        } else {
                            assert(r.1[j] == asset_entries(m, a, mid.0.len() as int, name)[j
                                - mid.1.len()]);
                        }
                    }
                },
            },
        }
    }
}

proof fn lemma_rounds_containers_precede(m: ModelNodes, k: nat)
    ensures
        containers_precede(stage_rounds(m, k).0, stage_rounds(m, k).1),
    decreases k,
{
    if k > 0 {
        lemma_rounds_containers_precede(m, (k - 1) as nat);
        let prev = stage_rounds(m, (k - 1) as nat);
        lemma_fold_containers_precede(m, prev.1, (prev.0, Seq::<StageEntry>::empty()));
    }
}

/// The entry `e` is a layer of the asset that the precomposition layer of
/// entry `c` shows: the first asset whose id is the precomposition's id.
pub open spec fn brought_in_by(m: ModelNodes, c: StageEntry, e: StageEntry) -> bool {
    match node_of(m, c.source).precomposition {
        Some(r) => match e.source {
            LayerSource::Asset(a, _) => a < m.assets@.len() && m.assets@[a as int].id@ == r@
                && forall|b: int| 0 <= b < a ==> (#[trigger] m.assets@[b]).id@ != r@,
            LayerSource::Top(_) => false,
        },
        None => false,
    }
}

/// Each staged or waiting entry that a precomposition brought in names, as
/// its container, a staged entry before it whose precomposition shows the
/// entry's asset.
pub open spec fn containers_bring_in(m: ModelNodes, st: Seq<StageEntry>, nx: Seq<StageEntry>) -> bool {
    &&& forall|i: int|
        0 <= i < st.len() ==> ((#[trigger] st[i]).container matches Some(c) ==> c < i
            && brought_in_by(m, st[c as int], st[i]))
    &&& forall|j: int|
        0 <= j < nx.len() ==> ((#[trigger] nx[j]).container matches Some(c) ==> c < st.len()
            && brought_in_by(m, st[c as int], nx[j]))
}

proof fn lemma_find_asset_first(m: ModelNodes, r: Seq<char>, k: int)
    requires
        0 <= k,
        forall|b: int| 0 <= b < k ==> (#[trigger] m.assets@[b]).id@ != r,
    ensures
        find_asset(m, r, k) matches Some(a) ==> k <= a < m.assets@.len() && m.assets@[a].id@ == r
            && forall|b: int| 0 <= b < a ==> (#[trigger] m.assets@[b]).id@ != r,
    decreases m.assets@.len() - k,
{
    if k < m.assets@.len() && m.assets@[k].id@ != r {
        lemma_find_asset_first(m, r, k + 1);
    }
}

proof fn lemma_fold_containers_bring_in(
    m: ModelNodes,
    fr: Seq<StageEntry>,
    init: (Seq<StageEntry>, Seq<StageEntry>),
)
    requires
        init.0.len() <= usize::MAX ==> containers_bring_in(m, init.0, init.1),
        init.0.len() <= usize::MAX ==> forall|j: int|
            0 <= j < fr.len() ==> ((#[trigger] fr[j]).container matches Some(c) ==> c
                < init.0.len() && brought_in_by(m, init.0[c as int], fr[j])),
    ensures
        ({
            let r = fr.fold_left(
                init,
                |acc: (Seq<StageEntry>, Seq<StageEntry>), p: StageEntry| stage_step(m, acc, p),
            );
            &&& r.0.len() <= usize::MAX ==> containers_bring_in(m, r.0, r.1)
            &&& r.0.len() >= init.0.len()
            &&& r.0.subrange(0, init.0.len() as int) == init.0
        }),
    decreases fr.len(),
{
    let f = |acc: (Seq<StageEntry>, Seq<StageEntry>), p: StageEntry| stage_step(m, acc, p);
    assert(m.assets.len() == m.assets@.len());
    if fr.len() == 0 {
        assert(fr.fold_left(init, f) == init);
        assert(init.0.subrange(0, init.0.len() as int) =~= init.0);
    } else {
        let rest = fr.drop_last();
        if init.0.len() <= usize::MAX {
            assert forall|j: int|
                0 <= j < rest.len() implies ((#[trigger] rest[j]).container matches Some(c) ==> c
                    < init.0.len() && brought_in_by(m, init.0[c as int], rest[j])) by {
                assert(rest[j] == fr[j]);
            }
        }
        lemma_fold_containers_bring_in(m, rest, init);
        let mid = rest.fold_left(init, f);
        let p = fr.last();
        assert(p == fr[fr.len() - 1]);
        let r = stage_step(m, mid, p);
        assert(fr.fold_left(init, f) == r);
        // The entries of `init.0` stay where they were.
        assert forall|c: int| 0 <= c < init.0.len() implies #[trigger] mid.0[c] == init.0[c] by {
            assert(mid.0.subrange(0, init.0.len() as int)[c] == mid.0[c]);
        }
        match node_of(m, p.source).precomposition {
            None => {
                assert(r.0 == mid.0.push(p));
                assert(r.0.subrange(0, init.0.len() as int) =~= init.0);
                if r.0.len() <= usize::MAX {
                    assert forall|i: int|
                        0 <= i < r.0.len() implies ((#[trigger] r.0[i]).container matches Some(c) ==> c
                        < i && brought_in_by(m, r.0[c as int], r.0[i])) by {
                        if i < mid.0.len() {
                            assert(r.0[i] == mid.0[i]);
                            if let Some(c) = r.0[i].container {
                                assert(r.0[c as int] == mid.0[c as int]);
                            }
                        } else {
                            if let Some(c) = p.container {
                                assert(r.0[c as int] == mid.0[c as int]);
                            }
                        }
                    }
                    assert forall|j: int|
                        0 <= j < r.1.len() implies ((#[trigger] r.1[j]).container matches Some(c) ==> c
                        < r.0.len() && brought_in_by(m, r.0[c as int], r.1[j])) by {
                        assert(r.1[j] == mid.1[j]);
                        if let Some(c) = r.1[j].container {
                            assert(r.0[c as int] == mid.0[c as int]);
                        }
                    }
                }
            },
            Some(name) => match find_asset(m, name@, 0) {
                None => {
                    assert(r == mid);
                },
                Some(a) => {
                    lemma_find_asset_first(m, name@, 0);
                    let pos = mid.0.len() as int;
                    assert(r.0 == mid.0.push(p));
                    assert(r.1 == mid.1 + asset_entries(m, a, pos, name));
                    assert(r.0.subrange(0, init.0.len() as int) =~= init.0);
                    if r.0.len() <= usize::MAX {
                        assert forall|i: int|
                            0 <= i < r.0.len() implies ((#[trigger] r.0[i]).container matches Some(c)
                            ==> c < i && brought_in_by(m, r.0[c as int], r.0[i])) by {
                            if i < mid.0.len() {
                                assert(r.0[i] == mid.0[i]);
                                if let Some(c) = r.0[i].container {
                                    assert(r.0[c as int] == mid.0[c as int]);
                                }
                            } else {
                                if let Some(c) = p.container {
                                    assert(r.0[c as int] == mid.0[c as int]);
                                }
                            }
                        }
                        assert forall|j: int|
                            0 <= j < r.1.len() implies ((#[trigger] r.1[j]).container matches Some(c)
                            ==> c < r.0.len() && brought_in_by(m, r.0[c as int], r.1[j])) by {
                            if j < mid.1.len() {
                                assert(r.1[j] == mid.1[j]);
                                if let Some(c) = r.1[j].container {
                                    assert(r.0[c as int] == mid.0[c as int]);
                                }
                            } else {
                                let e = asset_entries(m, a, pos, name)[j - mid.1.len()];
                                assert(r.1[j] == e);
                                assert(e.container == Some(pos as usize));
                                assert(r.0[pos] == p);
                            }
                        }
                    }
                },
            },
        }
    }
}

proof fn lemma_rounds_containers_bring_in(m: ModelNodes, k: nat)
    ensures
        stage_rounds(m, k).0.len() <= usize::MAX ==> containers_bring_in(
            m,
            stage_rounds(m, k).0,
            stage_rounds(m, k).1,
        ),
    decreases k,
{
    if k > 0 {
        lemma_rounds_containers_bring_in(m, (k - 1) as nat);
        let prev = stage_rounds(m, (k - 1) as nat);
        lemma_fold_containers_bring_in(m, prev.1, (prev.0, Seq::<StageEntry>::empty()));
    }
}

/// A staged layer that a precomposition brought in names, as its container,
/// the staged precomposition layer that brought it in: that layer is staged
/// before it, is a precomposition, and the layer belongs to the first asset
/// whose id is that precomposition's id.
pub proof fn lemma_container_brings_in(m: ModelNodes, i: int)
    requires
        0 <= i < staged_entries(m).len(),
        staged_entries(m).len() <= usize::MAX,
    ensures
        ({
            let st = staged_entries(m);
            st[i].container matches Some(c) ==> {
                &&& c < i
                &&& node_of(m, st[c as int].source).precomposition matches Some(r)
                &&& st[i].source matches LayerSource::Asset(a, _)
                &&& a < m.assets@.len()
                &&& m.assets@[a as int].id@ == r@
                &&& forall|b: int| 0 <= b < a ==> (#[trigger] m.assets@[b]).id@ != r@
            }
        }),
{
    lemma_rounds_containers_bring_in(m, (m.assets@.len() + 1) as nat);
}

/// The position of a top-level layer in the document; -1 for a layer of an
/// asset.
pub open spec fn top_index(s: LayerSource) -> int {
    match s {
        LayerSource::Top(i) => i as int,
        LayerSource::Asset(_, _) => -1,
    }
}

/// The top-level layers come first, in document order, and the layers of
/// assets after them.
pub open spec fn tops_then_assets(st: Seq<StageEntry>) -> bool {
    forall|i: int, j: int|
        0 <= i < j < st.len() && top_index(#[trigger] st[j].source) >= 0 ==> 0 <= top_index(
            #[trigger] st[i].source,
        ) < top_index(st[j].source)
}

pub open spec fn all_assets(s: Seq<StageEntry>) -> bool {
    forall|k: int| 0 <= k < s.len() ==> (#[trigger] s[k].source) is Asset
}

proof fn lemma_fold_assets(
    m: ModelNodes,
    fr: Seq<StageEntry>,
    init: (Seq<StageEntry>, Seq<StageEntry>),
)
    requires
        tops_then_assets(init.0),
        all_assets(init.1),
        all_assets(fr),
    ensures
        ({
            let r = fr.fold_left(
                init,
                |acc: (Seq<StageEntry>, Seq<StageEntry>), p: StageEntry| stage_step(m, acc, p),
            );
            tops_then_assets(r.0) && all_assets(r.1)
        }),
    decreases fr.len(),
{
    if fr.len() > 0 {
        let f = |acc: (Seq<StageEntry>, Seq<StageEntry>), p: StageEntry| stage_step(m, acc, p);
        let rest = fr.drop_last();
        assert(all_assets(rest)) by {
            assert forall|k: int| 0 <= k < rest.len() implies (#[trigger] rest[k].source) is Asset by {
                assert(rest[k] == fr[k]);
            }
        }
        lemma_fold_assets(m, rest, init);
        let mid = rest.fold_left(init, f);
        let p = fr.last();
        assert(p.source is Asset) by {
            assert(fr[fr.len() - 1] == p);
        }
        let r = stage_step(m, mid, p);
        assert(fr.fold_left(init, f) == r);
        assert(tops_then_assets(r.0)) by {
            assert forall|i: int, j: int|
                0 <= i < j < r.0.len() && top_index(#[trigger] r.0[j].source) >= 0 implies 0
                <= top_index(#[trigger] r.0[i].source) < top_index(r.0[j].source) by {
                if j < mid.0.len() {
                    assert(r.0[j] == mid.0[j]);
                    assert(r.0[i] == mid.0[i]);
                }
            }
        }
        assert(all_assets(r.1)) by {
            assert forall|k: int| 0 <= k < r.1.len() implies (#[trigger] r.1[k].source) is Asset by {
                if k < mid.1.len() {
                    assert(r.1[k] == mid.1[k]);
                } else {
                    match node_of(m, p.source).precomposition {
                        None => {},
                        Some(name) => match find_asset(m, name@, 0) {
                            None => {},
                            Some(a) => {
                                assert(r.1[k] == asset_entries(m, a, mid.0.len() as int, name)[k
                                    - mid.1.len()]);
                            },
                        },
                    }
                }
            }
        }
    }
}

proof fn lemma_fold_tops(
    m: ModelNodes,
    fr: Seq<StageEntry>,
    init: (Seq<StageEntry>, Seq<StageEntry>),
)
    requires
        init.0.len() == 0,
        all_assets(init.1),
        fr.len() <= usize::MAX,
        forall|k: int| 0 <= k < fr.len() ==> (#[trigger] fr[k]).source == LayerSource::Top(
            k as usize,
        ),
    ensures
        ({
            let r = fr.fold_left(
                init,
                |acc: (Seq<StageEntry>, Seq<StageEntry>), p: StageEntry| stage_step(m, acc, p),
            );
            &&& tops_then_assets(r.0)
            &&& forall|k: int|
                0 <= k < r.0.len() ==> 0 <= top_index(#[trigger] r.0[k].source) < fr.len()
            &&& all_assets(r.1)
        }),
    decreases fr.len(),
{
    let f = |acc: (Seq<StageEntry>, Seq<StageEntry>), p: StageEntry| stage_step(m, acc, p);
    if fr.len() == 0 {
        assert(fr.fold_left(init, f) == init);
    } else {
        let rest = fr.drop_last();
        assert forall|k: int| 0 <= k < rest.len() implies (#[trigger] rest[k]).source
            == LayerSource::Top(k as usize) by {
            assert(rest[k] == fr[k]);
        }
        lemma_fold_tops(m, rest, init);
        let mid = rest.fold_left(init, f);
        let p = fr.last();
        assert(p == fr[fr.len() - 1]);
        assert(top_index(p.source) == fr.len() - 1);
        let r = stage_step(m, mid, p);
        assert(fr.fold_left(init, f) == r);
        assert forall|k: int| 0 <= k < r.0.len() implies 0 <= top_index(
            #[trigger] r.0[k].source,
        ) < fr.len() by {
            if k < mid.0.len() {
                assert(r.0[k] == mid.0[k]);
            }
        }
        assert(tops_then_assets(r.0)) by {
            assert forall|i: int, j: int|
                0 <= i < j < r.0.len() && top_index(#[trigger] r.0[j].source) >= 0 implies 0
                <= top_index(#[trigger] r.0[i].source) < top_index(r.0[j].source) by {
                assert(r.0[i] == mid.0[i]);
                if j < mid.0.len() {
                    assert(r.0[j] == mid.0[j]);
                } else {
                    assert(r.0[j] == p);
                }
            }
        }
        assert(all_assets(r.1)) by {
            assert forall|k: int| 0 <= k < r.1.len() implies (#[trigger] r.1[k].source) is Asset by {
                if k < mid.1.len() {
                    assert(r.1[k] == mid.1[k]);
                } else {
                    match node_of(m, p.source).precomposition {
                        None => {},
                        Some(name) => match find_asset(m, name@, 0) {
                            None => {},
                            Some(a) => {
                                assert(r.1[k] == asset_entries(m, a, mid.0.len() as int, name)[k
                                    - mid.1.len()]);
                            },
                        },
                    }
                }
            }
        }
    }
}

proof fn lemma_rounds_tops_then_assets(m: ModelNodes, k: nat)
    requires
        k >= 1,
        m.layers@.len() <= usize::MAX,
    ensures
        tops_then_assets(stage_rounds(m, k).0),
        all_assets(stage_rounds(m, k).1),
    decreases k,
{
    let prev = stage_rounds(m, (k - 1) as nat);
    if k == 1 {
        assert(all_assets(Seq::<StageEntry>::empty()));
        lemma_fold_tops(m, top_entries(m), (Seq::empty(), Seq::empty()));
    } else {
        lemma_rounds_tops_then_assets(m, (k - 1) as nat);
        assert(all_assets(Seq::<StageEntry>::empty()));
        lemma_fold_assets(m, prev.1, (prev.0, Seq::<StageEntry>::empty()));
    }
}

/// The top-level layers of a model are staged first, in document order,
/// before any layer that a precomposition brings in.
pub proof fn lemma_top_layers_first(m: ModelNodes)
    ensures
        tops_then_assets(staged_entries(m)),
{
    assert(m.layers.len() == m.layers@.len());
    lemma_rounds_tops_then_assets(m, (m.assets@.len() + 1) as nat);
}

/// A layer that a precomposition brings in is staged after that
/// precomposition layer.
pub proof fn lemma_container_staged_first(m: ModelNodes, i: int)
    requires
        0 <= i < staged_entries(m).len(),
    ensures
        staged_entries(m)[i].container matches Some(c) ==> c < i,
{
    lemma_rounds_containers_precede(m, (m.assets@.len() + 1) as nat);
}

proof fn lemma_last_with_index_is_last(l: Seq<ParentLink>, p: u32, x: int)
    requires
        x < l.len(),
    ensures
        last_with_index(l, p, x) matches Some(y) ==> forall|z: int|
            y < z <= x ==> #[trigger] l[z].index != Some(p),
    decreases x + 1,
{
    if 0 <= x < l.len() && l[x].index != Some(p) {
        lemma_last_with_index_is_last(l, p, x - 1);
    }
}

proof fn lemma_first_with_index_is_first(l: Seq<ParentLink>, p: u32, y: int, end: int)
    requires
        0 <= y,
        end <= l.len(),
    ensures
        first_with_index(l, p, y, end) matches Some(z) ==> forall|w: int|
            y <= w < z ==> #[trigger] l[w].index != Some(p),
    decreases end - y,
{
    if y < end && l[y].index != Some(p) {
        lemma_first_with_index_is_first(l, p, y + 1, end);
    }
}

/// Which layer a layer naming parent index `p` is attached to: the nearest
/// layer at or before it with index `p`; where there is none, the first
/// layer after it with index `p`; where there is none either, its initial
/// parent.
pub proof fn lemma_parent_is_nearest(l: Seq<ParentLink>, x: int)
    requires
        0 <= x < l.len(),
        l.len() <= usize::MAX,
    ensures
        l[x].parent_index matches Some(p) ==> match resolved_parent(l, x) {
            Some(y) => (y <= x && l[y as int].index == Some(p) && forall|z: int|
                y < z <= x ==> #[trigger] l[z].index != Some(p)) || (x < y < l.len()
                && l[y as int].index == Some(p) && forall|z: int|
                0 <= z < y ==> #[trigger] l[z].index != Some(p)) || (resolved_parent(l, x)
                == l[x].initial && forall|z: int|
                0 <= z < l.len() ==> #[trigger] l[z].index != Some(p)),
            None => l[x].initial is None && forall|z: int|
                0 <= z < l.len() ==> #[trigger] l[z].index != Some(p),
        },
{
    if let Some(p) = l[x].parent_index {
        lemma_last_with_index_range(l, p, x);
        lemma_last_with_index_is_last(l, p, x);
        lemma_first_with_index_range(l, p, x + 1, l.len() as int);
        lemma_first_with_index_is_first(l, p, x + 1, l.len() as int);
        if last_with_index(l, p, x) is None {
            if let Some(y) = first_with_index(l, p, x + 1, l.len() as int) {
                assert forall|z: int| 0 <= z < y implies #[trigger] l[z].index != Some(p) by {
                    if z > x {
                    }
                }
            } else {
                assert forall|z: int| 0 <= z < l.len() implies #[trigger] l[z].index != Some(p) by {
                    if z > x {
                    }
                }
            }
        }
    }
}

/// A layer that names a parent index is attached to a layer with that index
/// whenever one is staged at all; a layer that names none keeps its initial
/// parent (none for a top-level layer, its precomposition for an asset's
/// layer).
pub proof fn lemma_parent_has_named_index(l: Seq<ParentLink>, x: int)
    requires
        0 <= x < l.len(),
        l.len() <= usize::MAX,
    ensures
        l[x].parent_index is None ==> resolved_parent(l, x) == l[x].initial,
        l[x].parent_index matches Some(p) ==> ((exists|y: int|
            0 <= y < l.len() && #[trigger] l[y].index == Some(p)) ==> (resolved_parent(l, x) matches Some(
            z,
        ) && z < l.len() && l[z as int].index == Some(p))),
{
    if let Some(p) = l[x].parent_index {
        lemma_last_with_index_range(l, p, x);
        lemma_first_with_index_range(l, p, x + 1, l.len() as int);
        if last_with_index(l, p, x) is None && first_with_index(l, p, x + 1, l.len() as int)
            is None {
            assert forall|y: int| 0 <= y < l.len() implies #[trigger] l[y].index != Some(p) by {
                if y > x {
                }
            }
        }
    }
}

/// What parenting reads of a staged layer: its index, its parent's index, and
/// the parent it has before parenting (the precomposition that brought it in).
#[derive(Debug, Clone, Copy, PartialEq, Eq, Structural)]
pub struct ParentLink {
    pub index: Option<u32>,
    pub parent_index: Option<u32>,
    pub initial: Option<usize>,
}

/// The last position at or before `x` whose layer has index `p`.
pub open spec fn last_with_index(l: Seq<ParentLink>, p: u32, x: int) -> Option<int>
    decreases x + 1,
{
    if x < 0 || x >= l.len() {
        None
    } else if l[x].index == Some(p) {
        Some(x)
    } else {
        last_with_index(l, p, x - 1)
    }
}

/// The first position in `[y, end)` whose layer has index `p`.
pub open spec fn first_with_index(l: Seq<ParentLink>, p: u32, y: int, end: int) -> Option<int>
    decreases end - y,
{
    if y < 0 || y >= end || y >= l.len() {
        None
    } else if l[y].index == Some(p) {
        Some(y)
    } else {
        first_with_index(l, p, y + 1, end)
    }
}

/// The parent of the layer at `x` once the layers before `end` are staged: a
/// layer naming a parent index is attached to the last layer up to itself
/// with that index; failing that, to the first later one (before `end`);
/// failing that, and for layers naming no parent, it keeps its initial
/// parent.
pub open spec fn parent_at(l: Seq<ParentLink>, x: int, end: int) -> Option<usize> {
    match l[x].parent_index {
        None => l[x].initial,
        Some(p) => match last_with_index(l, p, x) {
            Some(y) => Some(y as usize),
            None => match first_with_index(l, p, x + 1, end) {
                Some(y) => Some(y as usize),
                None => l[x].initial,
            },
        },
    }
}

/// The parent of the layer at `x` once all layers are staged.
pub open spec fn resolved_parent(l: Seq<ParentLink>, x: int) -> Option<usize> {
    parent_at(l, x, l.len() as int)
}

proof fn lemma_last_with_index_range(l: Seq<ParentLink>, p: u32, x: int)
    requires
        x < l.len(),
    ensures
        last_with_index(l, p, x) matches Some(y) ==> 0 <= y <= x && y < l.len() && l[y].index
            == Some(p),
        last_with_index(l, p, x) is None ==> forall|y: int|
            0 <= y <= x && y < l.len() ==> #[trigger] l[y].index != Some(p),
    decreases x + 1,
{
    if 0 <= x < l.len() && l[x].index != Some(p) {
        lemma_last_with_index_range(l, p, x - 1);
    }
}

proof fn lemma_last_with_index_prefix(l: Seq<ParentLink>, p: u32, x: int, z: int)
    requires
        0 <= x <= z < l.len(),
        forall|y: int| x < y <= z ==> #[trigger] l[y].index != Some(p),
    ensures
        last_with_index(l, p, z) == last_with_index(l, p, x),
    decreases z - x,
{
    if z > x {
        lemma_last_with_index_prefix(l, p, x, z - 1);
    }
}

proof fn lemma_first_with_index_extend(l: Seq<ParentLink>, p: u32, y: int, end: int)
    requires
        0 <= y <= end < l.len(),
    ensures
        first_with_index(l, p, y, end + 1) == match first_with_index(l, p, y, end) {
            Some(z) => Some(z),
            None => if l[end].index == Some(p) {
                Some(end)
            } else {
                None
            },
        },
    decreases end - y,
{
    if y < end {
        if l[y].index != Some(p) {
            lemma_first_with_index_extend(l, p, y + 1, end);
        }
    } else {
        assert(first_with_index(l, p, end + 1, end + 1) is None);
    }
}

proof fn lemma_first_with_index_none(l: Seq<ParentLink>, p: u32, y: int, end: int)
    requires
        0 <= y,
        end <= l.len(),
        forall|z: int| y <= z < end ==> #[trigger] l[z].index != Some(p),
    ensures
        first_with_index(l, p, y, end) is None,
    decreases end - y,
{
    if y < end {
        lemma_first_with_index_none(l, p, y + 1, end);
    }
}

proof fn lemma_first_with_index_range(l: Seq<ParentLink>, p: u32, y: int, end: int)
    requires
        0 <= y,
        end <= l.len(),
    ensures
        first_with_index(l, p, y, end) matches Some(z) ==> y <= z < end && l[z].index == Some(p),
        first_with_index(l, p, y, end) is None ==> forall|z: int|
            y <= z < end ==> #[trigger] l[z].index != Some(p),
    decreases end - y,
{
    if y < end && l[y].index != Some(p) {
        lemma_first_with_index_range(l, p, y + 1, end);
    }
}

/// How the parent of an earlier layer changes when one more layer is staged:
/// only a layer still waiting for a parent with the new layer's index gets
/// attached, to the new layer.
proof fn lemma_parent_at_step(l: Seq<ParentLink>, x: int, k: int)
    requires
        0 <= x < k < l.len(),
    ensures
        parent_at(l, x, k + 1) == if l[x].parent_index is Some && last_with_index(
            l,
            l[x].parent_index->0,
            x,
        ) is None && first_with_index(l, l[x].parent_index->0, x + 1, k) is None && l[k].index
            == l[x].parent_index {
            Some(k as usize)
        } else {
            parent_at(l, x, k)
        },
{
    if let Some(p) = l[x].parent_index {
        lemma_first_with_index_extend(l, p, x + 1, k);
    }
}

/// A layer waiting for a parent index means no layer so far has that index.
proof fn lemma_waiting_means_unseen(l: Seq<ParentLink>, p: u32, x: int, k: int)
    requires
        0 <= x < k <= l.len(),
        last_with_index(l, p, x) is None,
        first_with_index(l, p, x + 1, k) is None,
    ensures
        last_with_index(l, p, k - 1) is None,
{
    lemma_last_with_index_range(l, p, x);
    lemma_first_with_index_range(l, p, x + 1, k);
    lemma_last_with_index_range(l, p, k - 1);
}

/// A layer whose parent index no layer so far has is waiting.
proof fn lemma_unseen_means_waiting(l: Seq<ParentLink>, p: u32, x: int, k: int)
    requires
        0 <= x < k <= l.len(),
        last_with_index(l, p, k - 1) is None,
    ensures
        last_with_index(l, p, x) is None,
        first_with_index(l, p, x + 1, k) is None,
{
    lemma_last_with_index_range(l, p, k - 1);
    lemma_last_with_index_range(l, p, x);
    lemma_first_with_index_range(l, p, x + 1, k);
}

/// Attaches each staged layer to its parent, going through the layers in
/// staging order: a layer is attached to the last layer so far with the
/// index it names, or waits until the first later layer with that index.
pub fn resolve_parents(links: &Vec<ParentLink>) -> (r: Vec<Option<usize>>)
    ensures
        r@.len() == links@.len(),
        forall|x: int| 0 <= x < links@.len() ==> #[trigger] r@[x] == resolved_parent(links@, x),
{
    let ghost l = links@;
    let n = links.len();
    let mut out: Vec<Option<usize>> = Vec::new();
    let mut parents: HashMap<u32, usize> = HashMap::new();
    let mut standby: HashMap<u32, Vec<usize>> = HashMap::new();
    let mut k: usize = 0;
    while k < n
        invariant
            l == links@,
            n == l.len(),
            k <= n,
            out@.len() == k,
            forall|x: int| 0 <= x < k ==> #[trigger] out@[x] == parent_at(l, x, k as int),
            forall|p: u32|
                #![trigger parents@.contains_key(p)]
                parents@.contains_key(p) <==> last_with_index(l, p, k - 1) is Some,
            forall|p: u32|
                #![trigger parents@[p]]
                parents@.contains_key(p) ==> parents@[p] as int == last_with_index(l, p, k - 1)->0,
            forall|p: u32|
                #![trigger standby@.contains_key(p)]
                standby@.contains_key(p) ==> last_with_index(l, p, k - 1) is None,
            forall|p: u32, c: usize|
                #![trigger standby@[p]@.contains(c)]
                standby@.contains_key(p) && standby@[p]@.contains(c) ==> c < k && l[c as int].parent_index
                    == Some(p),
            forall|x: int|
                #![trigger l[x].parent_index]
                0 <= x < k && l[x].parent_index is Some && last_with_index(
                    l,
                    l[x].parent_index->0,
                    k - 1,
                ) is None ==> standby@.contains_key(l[x].parent_index->0)
                    && standby@[l[x].parent_index->0]@.contains(x as usize),
        decreases n - k,
    {
        let link = links[k];
        let ghost old_out = out@;
        let ghost old_standby = standby@;
        out.push(link.initial);
        match link.index {
            Some(i) => {
                parents.insert(i, k);
            },
            None => {},
        }
        proof {
            assert forall|p: u32| #[trigger] last_with_index(l, p, k as int) == if link.index == Some(
                p,
            ) {
                Some(k as int)
            } else {
                last_with_index(l, p, k - 1)
            } by {}
            assert forall|p: u32|
                #![trigger parents@.contains_key(p)]
                parents@.contains_key(p) <==> last_with_index(l, p, k as int) is Some by {}
            assert forall|p: u32|
                #![trigger parents@[p]]
                parents@.contains_key(p) ==> parents@[p] as int == last_with_index(
                    l,
                    p,
                    k as int,
                )->0 by {}
        }
        let ghost mut pushed: Option<u32> = None;
        match link.parent_index {
            Some(p) => {
                match parents.get(&p) {
                    Some(y) => {
                        let yy = *y;
                        out.set(k, Some(yy));
                    },
                    None => {
                        let removed = standby.remove(&p);
                        proof {
                            if removed is Some {
                                assert(old_standby.contains_key(p) && removed->0 == old_standby[p]);
                            } else {
                                assert(!old_standby.contains_key(p));
                            }
                        }
                        let mut v = match removed {
                            Some(v) => v,
                            None => Vec::new(),
                        };
                        let ghost pv = v@;
                        v.push(k);
                        standby.insert(p, v);
                        proof {
                            pushed = Some(p);
                            assert forall|c: usize| #[trigger] standby@[p]@.contains(c) implies c < k + 1
                                && l[c as int].parent_index == Some(p) by {
                                if c != k {
                                    assert(pv.contains(c));
                                    assert(old_standby.contains_key(p));
                                    assert(old_standby[p]@.contains(c));
                                }
                            }
                            assert forall|x: int|
                                0 <= x < k && l[x].parent_index == Some(p) && last_with_index(
                                    l,
                                    p,
                                    k - 1,
                                ) is None implies #[trigger] standby@[p]@.contains(x as usize) by {
                                assert(old_standby.contains_key(p));
                                assert(old_standby[p]@.contains(x as usize));
                                assert(pv.contains(x as usize));
                                assert(v@[pv.index_of(x as usize)] == x as usize);
                            }
                            assert(standby@[p]@.contains(k)) by {
                                assert(v@[pv.len() as int] == k);
                            }
                        }
                    },
                }
            },
            None => {},
        }
        let ghost mid_standby = standby@;
        let ghost mid_out = out@;
        proof {
            assert(mid_out[k as int] == parent_at(l, k as int, k + 1));
            assert forall|x: int| 0 <= x < k implies #[trigger] mid_out[x] == parent_at(l, x, k as int) by {
                assert(mid_out[x] == old_out[x]);
            }
            // After this layer: which parent indices still wait, and who waits.
            assert forall|p: u32| #[trigger] mid_standby.contains_key(p) implies (pushed == Some(p)
                && link.parent_index == Some(p) && last_with_index(l, p, k as int) is None)
                || (old_standby.contains_key(p) && mid_standby[p] == old_standby[p] && pushed != Some(
                p,
            )) by {}
            assert forall|p: u32| old_standby.contains_key(p) && pushed != Some(p) implies #[trigger] mid_standby.contains_key(p)
                && mid_standby[p] == old_standby[p] by {}
        }
        match link.index {
            Some(i) => {
                match standby.remove(&i) {
                    Some(children) => {
                        proof {
                            assert(mid_standby.contains_key(i));
                            assert(!(link.parent_index == Some(i) && last_with_index(l, i, k as int) is None));
                            assert(children == old_standby[i]);
                            assert forall|q: int| 0 <= q < children@.len() implies #[trigger] children@[q] < k by {
                                assert(old_standby[i]@.contains(children@[q]));
                            }
                        }
                        let mut c: usize = 0;
                        while c < children.len()
                            invariant
                                c <= children@.len(),
                                out@.len() == k + 1,
                                mid_out.len() == k + 1,
                                forall|q: int| 0 <= q < children@.len() ==> #[trigger] children@[q] < k,
                                forall|x: int|
                                    0 <= x < k + 1 ==> #[trigger] out@[x] == if children@.subrange(
                                        0,
                                        c as int,
                                    ).contains(x as usize) {
                                        Some(k)
                                    } else {
                                        mid_out[x]
                                    },
                            decreases children@.len() - c,
                        {
                            let ch = children[c];
                            let ghost prev_out = out@;
                            out.set(ch, Some(k));
                            c = c + 1;
                            assert forall|x: int| 0 <= x < k + 1 implies #[trigger] out@[x] == if children@.subrange(
                                0,
                                c as int,
                            ).contains(x as usize) {
                                Some(k)
                            } else {
                                mid_out[x]
                            } by {
                                let sub = children@.subrange(0, c as int);
                                let before = children@.subrange(0, c - 1);
                                assert(sub == before.push(ch));
                                assert(sub.contains(x as usize) <==> (before.contains(x as usize) || x
                                    == ch as int)) by {
                                    if before.contains(x as usize) {
                                        assert(sub[before.index_of(x as usize)] == x as usize);
                                    }
                                    if x == ch as int {
                                        assert(sub[sub.len() - 1] == ch);
                                    }
                                    if sub.contains(x as usize) && x != ch as int {
                                        let w = sub.index_of(x as usize);
                                        assert(w < before.len());
                                        assert(before[w] == x as usize);
                                    }
                                }
                                if x != ch as int {
                                    assert(out@[x] == prev_out[x]);
                                }
                            }
                        }
                        assert(children@.subrange(0, children@.len() as int) == children@);
                    },
                    None => {},
                }
            },
            None => {},
        }
        proof {
            assert forall|x: int| 0 <= x < k + 1 implies #[trigger] out@[x] == parent_at(
                l,
                x,
                k + 1,
            ) by {
                if x < k {
                    lemma_parent_at_step(l, x, k as int);
                    if let Some(p) = l[x].parent_index {
                        if last_with_index(l, p, x) is None && first_with_index(l, p, x + 1, k as int)
                            is None && link.index == Some(p) {
                            lemma_waiting_means_unseen(l, p, x, k as int);
                            assert(old_standby.contains_key(p));
                            assert(old_standby[p]@.contains(x as usize));
                        } else if link.index is Some && old_standby.contains_key(link.index->0)
                            && old_standby[link.index->0]@.contains(x as usize) {
                            let i = link.index->0;
                            assert(l[x].parent_index == Some(i));
                            lemma_unseen_means_waiting(l, i, x, k as int);
                        }
                    } else if link.index is Some && old_standby.contains_key(link.index->0)
                        && old_standby[link.index->0]@.contains(x as usize) {
                        assert(false);
                    }
                }
            }
            assert forall|p: u32|
                #![trigger standby@.contains_key(p)]
                standby@.contains_key(p) ==> last_with_index(l, p, k as int) is None by {}
            assert forall|p: u32, c: usize|
                #![trigger standby@[p]@.contains(c)]
                standby@.contains_key(p) && standby@[p]@.contains(c) implies c < k + 1
                    && l[c as int].parent_index == Some(p) by {
                assert(mid_standby.contains_key(p));
                if pushed != Some(p) {
                    assert(old_standby[p]@.contains(c));
                }
            }
            assert forall|x: int|
                #![trigger l[x].parent_index]
                0 <= x < k + 1 && l[x].parent_index is Some && last_with_index(
                    l,
                    l[x].parent_index->0,
                    k as int,
                ) is None implies standby@.contains_key(l[x].parent_index->0)
                && standby@[l[x].parent_index->0]@.contains(x as usize) by {
                let p = l[x].parent_index->0;
                if x < k {
                    assert(old_standby.contains_key(p) && old_standby[p]@.contains(x as usize));
                    if pushed != Some(p) {
                        assert(mid_standby[p] == old_standby[p]);
                    }
                }
            }
        }
        k = k + 1;
    }
    out
}

/// The parenting inputs of the staged layers of a model.
pub open spec fn staged_links(m: ModelNodes) -> Seq<ParentLink> {
    staged_entries(m).map_values(
        |e: StageEntry|
            ParentLink {
                index: node_of(m, e.source).index,
                parent_index: node_of(m, e.source).parent_index,
                initial: e.container,
            },
    )
}

/// The parent of each staged layer of a model.
pub open spec fn staged_parents(m: ModelNodes) -> Seq<Option<usize>> {
    Seq::new(
        staged_entries(m).len(),
        |i: int| resolved_parent(staged_links(m), i),
    )
}

/// Following parents from `id` ends (at a layer with no parent, or with a
/// parent that is not staged) within `fuel` steps.
pub open spec fn chain_ends(parents: Seq<Option<usize>>, id: int, fuel: nat) -> bool
    decreases fuel,
{
    match parents[id] {
        Some(p) => if p < parents.len() {
            fuel > 0 && chain_ends(parents, p as int, (fuel - 1) as nat)
        } else {
            true
        },
        None => true,
    }
}

/// The layer `id` followed by its ancestors, nearest first, following
/// parents at most `fuel` times.
pub open spec fn ancestry(parents: Seq<Option<usize>>, id: int, fuel: nat) -> Seq<usize>
    decreases fuel,
{
    match parents[id] {
        Some(p) => if p < parents.len() && fuel > 0 {
            seq![id as usize] + ancestry(parents, p as int, (fuel - 1) as nat)
        } else {
            seq![id as usize]
        },
        None => seq![id as usize],
    }
}

/// Every staged layer's chain of parents ends: no layer is its own
/// ancestor.
pub open spec fn parents_acyclic(parents: Seq<Option<usize>>) -> bool {
    forall|i: int| 0 <= i < parents.len() ==> #[trigger] chain_ends(parents, i, parents.len() as nat)
}

/// The layer `id` followed by its ancestors is a chain of parents: it starts
/// at `id`, each layer in it is the parent of the one before, and it stops
/// at a layer with no staged parent.
pub proof fn lemma_ancestry_follows_parents(parents: Seq<Option<usize>>, id: int, fuel: nat)
    requires
        0 <= id < parents.len(),
        parents.len() <= usize::MAX,
        chain_ends(parents, id, fuel),
    ensures
        ({
            let s = ancestry(parents, id, fuel);
            &&& s.len() > 0
            &&& s[0] == id
            &&& forall|k: int| 0 <= k < s.len() ==> #[trigger] s[k] < parents.len()
            &&& forall|k: int|
                0 <= k < s.len() - 1 ==> parents[#[trigger] s[k] as int] == Some(s[k + 1])
            &&& match parents[s[s.len() - 1] as int] {
                Some(p) => p >= parents.len(),
                None => true,
            }
        }),
    decreases fuel,
{
    let s = ancestry(parents, id, fuel);
    if let Some(p) = parents[id] {
        if p < parents.len() {
            lemma_ancestry_follows_parents(parents, p as int, (fuel - 1) as nat);
            let rest = ancestry(parents, p as int, (fuel - 1) as nat);
            assert(s =~= seq![id as usize] + rest);
            assert(s[0] == id as usize);
            assert(rest[0] == p);
            assert forall|k: int| 0 <= k < s.len() implies #[trigger] s[k] < parents.len() by {
                if k > 0 {
                    assert(s[k] == rest[k - 1]);
                }
            }
            assert forall|k: int| 0 <= k < s.len() - 1 implies parents[#[trigger] s[k] as int]
                == Some(s[k + 1]) by {
                assert(s[k + 1] == rest[k]);
                if k > 0 {
                    assert(s[k] == rest[k - 1]);
                }
            }
            assert(s[s.len() - 1] == rest[rest.len() - 1]);
        }
    }
}

/// The layer `id` followed by its ancestors, nearest first; `None` where
/// following parents from `id` does not end.
fn try_ancestry(parents: &Vec<Option<usize>>, id: usize) -> (r: Option<Vec<usize>>)
    requires
        id < parents@.len(),
    ensures
        r is None <==> !chain_ends(parents@, id as int, parents@.len() as nat),
        r matches Some(v) ==> v@ == ancestry(parents@, id as int, parents@.len() as nat),
{
    let ghost ps = parents@;
    let n = parents.len();
    let mut stack: Vec<usize> = Vec::new();
    stack.push(id);
    let mut cur = id;
    let mut fuel: usize = n;
    loop
        invariant
            ps == parents@,
            n == ps.len(),
            cur < ps.len(),
            fuel <= n,
            stack@.len() > 0,
            stack@.last() == cur,
            chain_ends(ps, cur as int, fuel as nat) == chain_ends(ps, id as int, n as nat),
            stack@.drop_last() + ancestry(ps, cur as int, fuel as nat) == ancestry(ps, id as int, n as nat),
        decreases fuel,
    {
        match parents[cur] {
            Some(p) => {
                if p < n {
                    if fuel == 0 {
                        return None;
                    }
                    let ghost before = stack@;
                    stack.push(p);
                    proof {
                        assert(stack@.drop_last() + ancestry(ps, p as int, (fuel - 1) as nat) =~= before.drop_last() + ancestry(ps, cur as int, fuel as nat));
                    }
                    cur = p;
                    fuel = fuel - 1;
                } else {
                    assert(stack@ =~= stack@.drop_last() + ancestry(ps, cur as int, fuel as nat));
                    return Some(stack);
                }
            },
            None => {
                assert(stack@ =~= stack@.drop_last() + ancestry(ps, cur as int, fuel as nat));
                return Some(stack);
            },
        }
    }
}

/// The timeline of a model: its staged layers in staging order, a layer's
/// id being its position.
pub struct Timeline {
    items: Vec<StagedLayer>,
    opacity: Vec<Vec<usize>>,
}

impl Timeline {
    pub closed spec fn layers(&self) -> Seq<StagedLayer> {
        self.items@
    }

    pub closed spec fn opacity_stacks(&self) -> Seq<Seq<usize>> {
        self.opacity@.map_values(|v: Vec<usize>| v@)
    }

    /// This timeline is the one built from `m`: one layer per staged entry
    /// (its id its position), attached to its resolved parent, with the
    /// layers whose opacities combine into its own (itself first, then its
    /// ancestors).
    pub open spec fn built_from(&self, m: ModelNodes) -> bool {
        &&& self.layers().len() == staged_entries(m).len()
        &&& self.opacity_stacks().len() == self.layers().len()
        &&& forall|i: int|
            0 <= i < self.layers().len() ==> {
                let l = #[trigger] self.layers()[i];
                let e = staged_entries(m)[i];
                &&& l.id == i
                &&& l.source == e.source
                &&& l.target == e.target
                &&& l.container == e.container
                &&& l.parent == resolved_parent(staged_links(m), i)
                &&& self.opacity_stacks()[i] == ancestry(
                    staged_parents(m),
                    i,
                    staged_parents(m).len() as nat,
                )
            }
    }

    /// Stages the layers of a model, attaches each to its parent, and records
    /// for each the layers whose opacities combine into its own; `None` where
    /// precompositions bring one another in without end or a layer is its
    /// own ancestor.
    pub fn try_new(m: &ModelNodes) -> (r: Option<Timeline>)
        ensures
            r is None <==> !(staging_ends(*m) && parents_acyclic(staged_parents(*m))),
            r matches Some(t) ==> t.built_from(*m),
    {
        let entries = match try_stage_layers(m) {
            Some(v) => v,
            None => {
                return None;
            },
        };
        let ghost es = entries@;
        let mut links: Vec<ParentLink> = Vec::new();
        let mut i: usize = 0;
        while i < entries.len()
            invariant
                es == entries@,
                es == staged_entries(*m),
                i <= es.len(),
                links@ == staged_links(*m).subrange(0, i as int),
                forall|q: int| 0 <= q < es.len() ==> valid_source(*m, #[trigger] es[q].source),
            decreases es.len() - i,
        {
            let node = node_ref(m, entries[i].source);
            links.push(
                ParentLink {
                    index: node.index,
                    parent_index: node.parent_index,
                    initial: entries[i].container,
                },
            );
            i = i + 1;
            assert(links@ =~= staged_links(*m).subrange(0, i as int));
        }
        assert(links@ =~= staged_links(*m));
        let parents = resolve_parents(&links);
        assert(parents@ =~= staged_parents(*m));
        let mut items: Vec<StagedLayer> = Vec::new();
        let mut opacity: Vec<Vec<usize>> = Vec::new();
        let mut k: usize = 0;
        while k < entries.len()
            invariant
                es == entries@,
                es == staged_entries(*m),
                staging_ends(*m),
                parents@ == staged_parents(*m),
                parents@.len() == es.len(),
                k <= es.len(),
                items@.len() == k,
                opacity@.len() == k,
                forall|q: int| 0 <= q < k ==> #[trigger] chain_ends(parents@, q, parents@.len() as nat),
                forall|q: int|
                    0 <= q < k ==> {
                        let l = #[trigger] items@[q];
                        &&& l.id == q
                        &&& l.source == es[q].source
                        &&& l.target == es[q].target
                        &&& l.container == es[q].container
                        &&& l.parent == parents@[q]
                    },
                forall|q: int|
                    0 <= q < k ==> (#[trigger] opacity@[q])@ == ancestry(
                        parents@,
                        q,
                        parents@.len() as nat,
                    ),
            decreases es.len() - k,
        {
            let stack = match try_ancestry(&parents, k) {
                Some(v) => v,
                None => {
                    return None;
                },
            };
            let target = match &entries[k].target {
                TargetRef::Layer(id) => TargetRef::Layer(*id),
                TargetRef::Asset(s) => TargetRef::Asset(s.clone()),
            };
            items.push(
                StagedLayer {
                    id: k,
                    source: entries[k].source,
                    target,
                    container: entries[k].container,
                    parent: parents[k],
                },
            );
            opacity.push(stack);
            k = k + 1;
        }
        let t = Timeline { items, opacity };
        assert(t.opacity_stacks().len() == t.layers().len());
        assert(parents_acyclic(parents@));
        Some(t)
    }

    /// Stages the layers of a model, attaches each to its parent, and records
    /// for each the layers whose opacities combine into its own (itself
    /// first, then its ancestors).
    pub fn new(m: &ModelNodes) -> (t: Timeline)
        requires
            staging_ends(*m),
            parents_acyclic(staged_parents(*m)),
        ensures
            t.built_from(*m),
    {
        match Timeline::try_new(m) {
            Some(t) => t,
            None => Timeline { items: Vec::new(), opacity: Vec::new() },
        }
    }

    /// The layers whose opacities combine into a staged layer's own are the
    /// layer itself and then its ancestors: each is the parent of the one
    /// before, and the last has no parent on the timeline.
    pub proof fn lemma_opacity_follows_parents(self, m: ModelNodes, i: int)
        requires
            self.built_from(m),
            parents_acyclic(staged_parents(m)),
            0 <= i < self.layers().len(),
        ensures
            ({
                let s = self.opacity_stacks()[i];
                &&& s.len() > 0
                &&& s[0] == i
                &&& forall|k: int| 0 <= k < s.len() ==> #[trigger] s[k] < self.layers().len()
                &&& forall|k: int|
                    0 <= k < s.len() - 1 ==> self.layers()[#[trigger] s[k] as int].parent == Some(
                        s[k + 1],
                    )
                &&& match self.layers()[s[s.len() - 1] as int].parent {
                    Some(p) => p >= self.layers().len(),
                    None => true,
                }
            }),
    {
        let ps = staged_parents(m);
        assert(chain_ends(ps, i, ps.len() as nat));
        assert(self.items.len() == self.items@.len());
        lemma_ancestry_follows_parents(ps, i, ps.len() as nat);
        let s = self.opacity_stacks()[i];
        assert(self.layers()[i].id == i);
        assert(s == ancestry(ps, i, ps.len() as nat));
        assert(ps.len() == self.layers().len());
        assert forall|x: int| 0 <= x < ps.len() implies #[trigger] self.layers()[x].parent == ps[x] by {}
        assert forall|k: int| 0 <= k < s.len() - 1 implies self.layers()[#[trigger] s[k] as int].parent
            == Some(s[k + 1]) by {
            assert(s[k] < ps.len());
            assert(ps[s[k] as int] == Some(s[k + 1]));
        }
        assert(s[s.len() - 1] < ps.len());
    }

    /// The staged layers, in staging order.
    pub fn items(&self) -> (r: &Vec<StagedLayer>)
        ensures
            r@ == self.layers(),
    {
        &self.items
    }

    /// The staged layer with id `id`, if there is one.
    pub fn item(&self, id: usize) -> (r: Option<&StagedLayer>)
        ensures
            r == if id < self.layers().len() {
                Some(&self.layers()[id as int])
            } else {
                None
            },
    {
        if id < self.items.len() {
            Some(&self.items[id])
        } else {
            None
        }
    }

    /// The layers whose opacities combine into the opacity of layer `id`:
    /// the layer itself, then its ancestors, nearest first.
    pub fn opacity(&self, id: usize) -> (r: Option<&Vec<usize>>)
        ensures
            r matches Some(v) ==> id < self.opacity_stacks().len() && v@
                == self.opacity_stacks()[id as int],
            r is None ==> id >= self.opacity_stacks().len(),
    {
        if id < self.opacity.len() {
            Some(&self.opacity[id])
        } else {
            None
        }
    }
}

} // verus!
