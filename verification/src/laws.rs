//! What holds of every run: the properties of lineages that a layer keeps,
//! and the shape of the log.
use crate::area::Area;
use crate::region::{
    connected, is_walk, leads, lemma_connected_on, lemma_connected_touching, lemma_room_is_size,
    lists_region, region, roomy,
};
use crate::search::{
    advance, first_free, fits, follows, free_cells, grown, lemma_next_layer_from, next_layer,
    occupied, run, splits, state_of, stops, Search, State, FILL_CAP, FRONTIER_CAP,
};
use crate::snake::brick::{lemma_touching_is_one_step, Brick, Position};
use crate::snake::chain::Form;
use vstd::prelude::*;

verus! {

/// No two bricks of the lineage lie on the same cell.
pub open spec fn self_avoiding(lineage: Seq<Brick>) -> bool {
    forall|i: int, j: int|
        0 <= i < j < lineage.len() ==> (#[trigger] lineage[i]).coordinates != (
        #[trigger] lineage[j]).coordinates
}

/// Every brick of the lineage lies in the region.
pub open spec fn inside(area: &Area, lineage: Seq<Brick>) -> bool {
    forall|i: int| 0 <= i < lineage.len() ==> area.contains((#[trigger] lineage[i]).coordinates)
}

/// The forms of the bricks of a lineage, from the root to the leaf.
pub open spec fn forms(lineage: Seq<Brick>) -> Seq<Form> {
    Seq::new(lineage.len(), |i: int| lineage[lineage.len() - 1 - i].form)
}

/// The lineage has one brick for each of the first `layer` links of the
/// chain, and from the root to the leaf their forms are those links.
pub open spec fn faithful(chain: Seq<Form>, lineage: Seq<Brick>, layer: nat) -> bool {
    &&& layer <= chain.len()
    &&& lineage.len() == layer
    &&& forms(lineage) == chain.take(layer as int)
}

/// Whether `next` is one of the bricks that can follow `prev` over a link
/// of the form that `next` records.
pub open spec fn succeeds(prev: Brick, next: Brick) -> bool {
    exists|k: int|
        0 <= k < prev.successors(next.form).len() && #[trigger] prev.successors(next.form)[k]
            == next
}

/// Every brick of the lineage but the root follows the brick before it:
/// it lies one step ahead of it, and keeps its direction or turns off its
/// axis as its form says.
pub open spec fn chained(lineage: Seq<Brick>) -> bool {
    forall|i: int|
        0 <= i < lineage.len() - 1 ==> succeeds(lineage[i + 1], #[trigger] lineage[i])
}

/// Whether `lineage` ends, on the side of the root, with `seed`.
pub open spec fn extends(lineage: Seq<Brick>, seed: Seq<Brick>) -> bool {
    seed.len() <= lineage.len() && lineage.skip(lineage.len() - seed.len()) == seed
}

/// Whether `lineage` extends one of the lineages of `seeds`.
pub open spec fn rooted(seeds: Seq<Seq<Brick>>, lineage: Seq<Brick>) -> bool {
    exists|p: int| 0 <= p < seeds.len() && extends(lineage, #[trigger] seeds[p])
}

/// No lineage of the frontier crosses itself.
pub open spec fn all_self_avoiding(frontier: Seq<Seq<Brick>>) -> bool {
    forall|i: int| 0 <= i < frontier.len() ==> self_avoiding(#[trigger] frontier[i])
}

/// Every lineage of the frontier lies in the region.
pub open spec fn all_inside(area: &Area, frontier: Seq<Seq<Brick>>) -> bool {
    forall|i: int| 0 <= i < frontier.len() ==> inside(area, #[trigger] frontier[i])
}

/// Every lineage of the frontier spells the first `layer` links.
pub open spec fn all_faithful(chain: Seq<Form>, frontier: Seq<Seq<Brick>>, layer: nat) -> bool {
    forall|i: int| 0 <= i < frontier.len() ==> faithful(chain, #[trigger] frontier[i], layer)
}

/// Every lineage of the frontier is chained.
pub open spec fn all_chained(frontier: Seq<Seq<Brick>>) -> bool {
    forall|i: int| 0 <= i < frontier.len() ==> chained(#[trigger] frontier[i])
}

/// Every lineage of the frontier extends one of `seeds`.
pub open spec fn all_rooted(seeds: Seq<Seq<Brick>>, frontier: Seq<Seq<Brick>>) -> bool {
    forall|i: int| 0 <= i < frontier.len() ==> rooted(seeds, #[trigger] frontier[i])
}

/// Whether every lineage of the frontier is good for the layer.
pub open spec fn all_good(good: spec_fn(Seq<Brick>, nat) -> bool, s: Search) -> bool {
    forall|i: int| 0 <= i < s.frontier.len() ==> good(#[trigger] s.frontier[i], s.layer)
}

/// Whether `good` passes from a lineage to every lineage that follows it
/// over the next link of the chain.
pub open spec fn passed_on(
    area: &Area,
    chain: Seq<Form>,
    good: spec_fn(Seq<Brick>, nat) -> bool,
) -> bool {
    forall|parent: Seq<Brick>, child: Seq<Brick>, layer: nat, form: Form, remaining: nat|
        layer < chain.len() && form == chain[layer as int] && remaining == chain.len() - layer
            && #[trigger] good(parent, layer) && #[trigger] follows(
            area,
            parent,
            form,
            remaining,
            child,
        ) ==> good(child, layer + 1)
}

/// A property of lineages that passes from parent to child holds of the
/// whole frontier at the end of a run if it held of it at the start.
pub proof fn lemma_run_keeps(
    area: &Area,
    chain: Seq<Form>,
    s: Search,
    good: spec_fn(Seq<Brick>, nat) -> bool,
)
    requires
        all_good(good, s),
        passed_on(area, chain, good),
    ensures
        all_good(good, run(area, chain, s)),
    decreases chain.len() - s.layer,
{
    if state_of(chain.len(), s) is Ready {
        let form = chain[s.layer as int];
        let remaining = (chain.len() - s.layer) as nat;
        let t = advance(area, chain, s);
        assert forall|i: int| 0 <= i < t.frontier.len() implies good(
            #[trigger] t.frontier[i],
            t.layer,
        ) by {
            let p = lemma_next_layer_from(area, s.frontier, form, remaining, i);
            assert(good(s.frontier[p], s.layer));
            assert(follows(area, s.frontier[p], form, remaining, t.frontier[i]));
        }
        lemma_run_keeps(area, chain, t, good);
    }
}

/// Whether `lineage`, at `layer`, has grown out of `seed`, at
/// `seed_layer`, and is as good as it: it extends the seed by one brick for
/// each layer in between, and it crosses itself, lies in the region, is
/// chained and spells the chain exactly if the seed does.
pub open spec fn as_good_as(
    area: &Area,
    chain: Seq<Form>,
    seed: Seq<Brick>,
    seed_layer: nat,
    lineage: Seq<Brick>,
    layer: nat,
) -> bool {
    &&& extends(lineage, seed)
    &&& lineage.len() - seed.len() == layer - seed_layer
    &&& self_avoiding(lineage) <==> self_avoiding(seed)
    &&& inside(area, lineage) <==> inside(area, seed)
    &&& chained(lineage) <==> chained(seed)
    &&& faithful(chain, lineage, layer) <==> faithful(chain, seed, seed_layer)
}

/// Whether `lineage` is as good as one of the lineages of the state `s`.
pub open spec fn as_good_as_a_seed(
    area: &Area,
    chain: Seq<Form>,
    s: Search,
    lineage: Seq<Brick>,
    layer: nat,
) -> bool {
    exists|p: int|
        0 <= p < s.frontier.len() && as_good_as(
            area,
            chain,
            #[trigger] s.frontier[p],
            s.layer,
            lineage,
            layer,
        )
}

/// A lineage that follows another is as good as it.
pub proof fn lemma_child_is_as_good(
    area: &Area,
    chain: Seq<Form>,
    parent: Seq<Brick>,
    layer: nat,
    child: Seq<Brick>,
)
    requires
        layer < chain.len(),
        follows(area, parent, chain[layer as int], (chain.len() - layer) as nat, child),
    ensures
        as_good_as(area, chain, parent, layer, child, layer + 1),
{
    let form = chain[layer as int];
    let remaining = (chain.len() - layer) as nat;
    let k = choose|k: int|
        #![trigger parent[0].successors(form)[k]]
        0 <= k < parent[0].successors(form).len() && fits(
            area,
            parent,
            remaining,
            parent[0].successors(form)[k].coordinates,
        ) && child == seq![parent[0].successors(form)[k]] + parent;
    let leaf = parent[0].successors(form)[k];
    assert(child.skip(1) =~= parent);
    assert(leaf.form == form);
    assert(forall|i: int| 0 <= i < parent.len() ==> child[i + 1] == parent[i]);
    // no self-intersection
    assert(!occupied(parent, leaf.coordinates));
    if self_avoiding(parent) {
        assert forall|i: int, j: int| 0 <= i < j < child.len() implies (
        #[trigger] child[i]).coordinates != (#[trigger] child[j]).coordinates by {
            assert(child[j] == parent[j - 1]);
            if i > 0 {
                assert(child[i] == parent[i - 1]);
            }
        }
    }
    if self_avoiding(child) {
        assert forall|i: int, j: int| 0 <= i < j < parent.len() implies (
        #[trigger] parent[i]).coordinates != (#[trigger] parent[j]).coordinates by {
            assert(child[i + 1] == parent[i] && child[j + 1] == parent[j]);
        }
    }
    // containment
    if inside(area, parent) {
        assert forall|i: int| 0 <= i < child.len() implies area.contains(
            (#[trigger] child[i]).coordinates,
        ) by {
            if i > 0 {
                assert(child[i] == parent[i - 1]);
            }
        }
    }
    if inside(area, child) {
        assert forall|i: int| 0 <= i < parent.len() implies area.contains(
            (#[trigger] parent[i]).coordinates,
        ) by {
            assert(child[i + 1] == parent[i]);
        }
    }
    // every brick follows the one before it
    if chained(parent) {
        assert forall|i: int| 0 <= i < child.len() - 1 implies succeeds(
            child[i + 1],
            #[trigger] child[i],
        ) by {
            assert(child[i + 1] == parent[i]);
            if i == 0 {
                assert(parent[0].successors(child[0].form)[k] == child[0]);
            } else {
                assert(child[i] == parent[i - 1]);
                assert(succeeds(parent[i - 1 + 1], parent[i - 1]));
            }
        }
    }
    if chained(child) {
        assert forall|i: int| 0 <= i < parent.len() - 1 implies succeeds(
            parent[i + 1],
            #[trigger] parent[i],
        ) by {
            assert(child[i + 1] == parent[i]);
            assert(succeeds(child[i + 1 + 1], child[i + 1]));
        }
    }
    // chain fidelity
    if faithful(chain, parent, layer) {
        assert forall|i: int| 0 <= i < child.len() implies #[trigger] forms(child)[i] == chain.take(
            layer as int + 1,
        )[i] by {
            if i < layer {
                assert(child[layer - i] == parent[layer - 1 - i]);
                assert(forms(parent)[i] == chain.take(layer as int)[i]);
            }
        }
        assert(forms(child) =~= chain.take(layer as int + 1));
    }
    if faithful(chain, child, layer + 1) {
        assert forall|i: int| 0 <= i < parent.len() implies #[trigger] forms(parent)[i]
            == chain.take(layer as int)[i] by {
            assert(child[layer - i] == parent[layer - 1 - i]);
            assert(forms(child)[i] == chain.take(layer as int + 1)[i]);
        }
        assert(forms(parent) =~= chain.take(layer as int));
    }
}

/// Being as good as a lineage passes on: a lineage that is as good as one
/// that is as good as a seed is as good as the seed.
pub proof fn lemma_as_good_passes_on(
    area: &Area,
    chain: Seq<Form>,
    seed: Seq<Brick>,
    seed_layer: nat,
    parent: Seq<Brick>,
    layer: nat,
    child: Seq<Brick>,
    child_layer: nat,
)
    requires
        as_good_as(area, chain, seed, seed_layer, parent, layer),
        as_good_as(area, chain, parent, layer, child, child_layer),
    ensures
        as_good_as(area, chain, seed, seed_layer, child, child_layer),
{
    assert(child.skip(child.len() - seed.len()) =~= child.skip(child.len() - parent.len()).skip(
        parent.len() - seed.len(),
    ));
}

/// What a run keeps: every lineage that it leaves has grown out of one of
/// the lineages that it started from, by one brick for each layer, and
/// crosses itself, lies in the region, is chained and spells the chain
/// exactly if that one does.
pub proof fn lemma_run_keeps_what_the_seeds_have(area: &Area, chain: Seq<Form>, s: Search)
    ensures
        forall|i: int|
            0 <= i < run(area, chain, s).frontier.len() ==> as_good_as_a_seed(
                area,
                chain,
                s,
                #[trigger] run(area, chain, s).frontier[i],
                run(area, chain, s).layer,
            ),
{
    let good = |lineage: Seq<Brick>, layer: nat| as_good_as_a_seed(area, chain, s, lineage, layer);
    assert(passed_on(area, chain, good)) by {
        assert forall|parent: Seq<Brick>, child: Seq<Brick>, layer: nat, form: Form, remaining: nat|
            layer < chain.len() && form == chain[layer as int] && remaining == chain.len() - layer
                && #[trigger] good(parent, layer) && #[trigger] follows(
                area,
                parent,
                form,
                remaining,
                child,
            ) implies good(child, layer + 1) by {
            let p = choose|p: int|
                0 <= p < s.frontier.len() && as_good_as(
                    area,
                    chain,
                    #[trigger] s.frontier[p],
                    s.layer,
                    parent,
                    layer,
                );
            lemma_child_is_as_good(area, chain, parent, layer, child);
            lemma_as_good_passes_on(
                area,
                chain,
                s.frontier[p],
                s.layer,
                parent,
                layer,
                child,
                layer + 1,
            );
        }
    }
    assert(all_good(good, s)) by {
        assert forall|i: int| 0 <= i < s.frontier.len() implies good(
            #[trigger] s.frontier[i],
            s.layer,
        ) by {
            assert(s.frontier[i].skip(0) =~= s.frontier[i]);
            assert(as_good_as(area, chain, s.frontier[i], s.layer, s.frontier[i], s.layer));
        }
    }
    lemma_run_keeps(area, chain, s, good);
    let r = run(area, chain, s);
    assert forall|i: int| 0 <= i < r.frontier.len() implies as_good_as_a_seed(
        area,
        chain,
        s,
        #[trigger] r.frontier[i],
        r.layer,
    ) by {
        assert(good(r.frontier[i], r.layer));
    }
}

/// No self-intersection: if no lineage of the frontier crosses itself
/// before a run, none does after it.
pub proof fn lemma_run_stays_self_avoiding(area: &Area, chain: Seq<Form>, s: Search)
    requires
        all_self_avoiding(s.frontier),
    ensures
        all_self_avoiding(run(area, chain, s).frontier),
{
    lemma_run_keeps_what_the_seeds_have(area, chain, s);
    let r = run(area, chain, s);
    assert forall|i: int| 0 <= i < r.frontier.len() implies self_avoiding(
        #[trigger] r.frontier[i],
    ) by {
        assert(as_good_as_a_seed(area, chain, s, r.frontier[i], r.layer));
    }
}

/// Containment: if every brick of every lineage of the frontier lies in
/// the region before a run, the same holds after it.
pub proof fn lemma_run_stays_inside(area: &Area, chain: Seq<Form>, s: Search)
    requires
        all_inside(area, s.frontier),
    ensures
        all_inside(area, run(area, chain, s).frontier),
{
    lemma_run_keeps_what_the_seeds_have(area, chain, s);
    let r = run(area, chain, s);
    assert forall|i: int| 0 <= i < r.frontier.len() implies inside(area, #[trigger] r.frontier[i]) by {
        assert(as_good_as_a_seed(area, chain, s, r.frontier[i], r.layer));
    }
}

/// Chain fidelity: if every lineage of the frontier spells the links
/// applied so far before a run, it does so after it; and once the chain is
/// used up, the forms along every lineage, from the root to the leaf, are
/// the chain.
pub proof fn lemma_run_stays_faithful(area: &Area, chain: Seq<Form>, s: Search)
    requires
        all_faithful(chain, s.frontier, s.layer),
    ensures
        all_faithful(chain, run(area, chain, s).frontier, run(area, chain, s).layer),
        run(area, chain, s).layer == chain.len() ==> forall|i: int|
            0 <= i < run(area, chain, s).frontier.len() ==> forms(
                #[trigger] run(area, chain, s).frontier[i],
            ) == chain,
{
    lemma_run_keeps_what_the_seeds_have(area, chain, s);
    lemma_run_log(area, chain, s);
    let r = run(area, chain, s);
    assert forall|i: int| 0 <= i < r.frontier.len() implies faithful(
        chain,
        #[trigger] r.frontier[i],
        r.layer,
    ) by {
        assert(as_good_as_a_seed(area, chain, s, r.frontier[i], r.layer));
    }
    assert(chain.take(chain.len() as int) =~= chain);
}

/// Every brick follows the one before it: if the lineages of the frontier
/// are chained before a run, they are after it.
pub proof fn lemma_run_stays_chained(area: &Area, chain: Seq<Form>, s: Search)
    requires
        all_chained(s.frontier),
    ensures
        all_chained(run(area, chain, s).frontier),
{
    lemma_run_keeps_what_the_seeds_have(area, chain, s);
    let r = run(area, chain, s);
    assert forall|i: int| 0 <= i < r.frontier.len() implies chained(#[trigger] r.frontier[i]) by {
        assert(as_good_as_a_seed(area, chain, s, r.frontier[i], r.layer));
    }
}

/// Every lineage that a run leaves extends one of the lineages that it
/// started from: the bricks laid before the run stay where they were.
pub proof fn lemma_run_extends_the_seeds(area: &Area, chain: Seq<Form>, s: Search)
    ensures
        all_rooted(s.frontier, run(area, chain, s).frontier),
{
    lemma_run_keeps_what_the_seeds_have(area, chain, s);
    let r = run(area, chain, s);
    assert forall|i: int| 0 <= i < r.frontier.len() implies rooted(
        s.frontier,
        #[trigger] r.frontier[i],
    ) by {
        assert(as_good_as_a_seed(area, chain, s, r.frontier[i], r.layer));
        let p = choose|p: int|
            0 <= p < s.frontier.len() && as_good_as(
                area,
                chain,
                #[trigger] s.frontier[p],
                s.layer,
                r.frontier[i],
                r.layer,
            );
        assert(extends(r.frontier[i], s.frontier[p]));
    }
}

/// The log of a run: one entry is added for each layer that was laid, in
/// the order of the layers and with the index of the layer; what was logged
/// before stays. A layer that is followed by another left between 1 and
/// `FRONTIER_CAP` lineages; the last entry holds the size of the frontier
/// that the run ends with. The run ends before the chain is used up only
/// behind a layer that stops it.
pub proof fn lemma_run_log(area: &Area, chain: Seq<Form>, s: Search)
    ensures
        ({
            let r = run(area, chain, s);
            let laid = r.layer - s.layer;
            &&& 0 <= laid
            &&& s.layer <= chain.len() ==> r.layer <= chain.len()
            &&& r.statistics.len() == s.statistics.len() + laid
            &&& r.statistics.take(s.statistics.len() as int) == s.statistics
            &&& forall|j: int|
                0 <= j < laid ==> (#[trigger] r.statistics[s.statistics.len() + j]).0 == (s.layer
                    + j) as usize
            &&& forall|j: int|
                0 <= j < laid - 1 ==> !stops((#[trigger] r.statistics[s.statistics.len() + j]).1 as nat)
            &&& laid > 0 ==> r.statistics.last().1 == r.frontier.len() as usize
            &&& laid == 0 ==> r == s
            &&& laid > 0 && r.layer < chain.len() ==> stops(r.frontier.len())
        }),
    decreases chain.len() - s.layer,
{
    let r = run(area, chain, s);
    lemma_run_ends(area, chain, s);
    if state_of(chain.len(), s) is Ready {
        let t = advance(area, chain, s);
        lemma_run_log(area, chain, t);
        let laid = r.layer - s.layer;
        assert(r.statistics.take(s.statistics.len() as int) =~= s.statistics) by {
            assert(r.statistics.take(t.statistics.len() as int) == t.statistics);
            assert forall|j: int| 0 <= j < s.statistics.len() implies r.statistics[j]
                == s.statistics[j] by {
                assert(r.statistics.take(t.statistics.len() as int)[j] == r.statistics[j]);
            }
        }
        assert(r.statistics.take(t.statistics.len() as int)[s.statistics.len() as int]
            == r.statistics[s.statistics.len() as int]);
        assert forall|j: int| 0 <= j < laid implies (#[trigger] r.statistics[s.statistics.len()
            + j]).0 == (s.layer + j) as usize by {
            if j > 0 {
                assert(r.statistics[t.statistics.len() + (j - 1)].0 == (t.layer + (j - 1)) as usize);
            }
        }
        assert forall|j: int| 0 <= j < laid - 1 implies !stops(
            (#[trigger] r.statistics[s.statistics.len() + j]).1 as nat,
        ) by {
            if j == 0 {
                assert(state_of(chain.len(), t) is Ready);
                assert(t.frontier.len() <= usize::MAX);
            } else {
                assert(!stops(r.statistics[t.statistics.len() + (j - 1)].1 as nat));
            }
        }
    }
}

/// A run ends in a state that is not ready: the chain is used up, or the
/// last layer left the search dead or aborted.
pub proof fn lemma_run_ends(area: &Area, chain: Seq<Form>, s: Search)
    ensures
        !(state_of(chain.len(), run(area, chain, s)) is Ready),
    decreases chain.len() - s.layer,
{
    if state_of(chain.len(), s) is Ready {
        lemma_run_ends(area, chain, advance(area, chain, s));
    }
}

/// A run changes nothing that a run has left: to run twice is to run once.
pub proof fn lemma_run_twice(area: &Area, chain: Seq<Form>, s: Search)
    ensures
        run(area, chain, run(area, chain, s)) == run(area, chain, s),
{
    lemma_run_ends(area, chain, s);
}

/// One layer takes a ready search to the next link, or to the end of the
/// chain; an empty layer leaves it dead and a layer beyond `FRONTIER_CAP`
/// aborted, both at the layer that was laid.
pub proof fn lemma_layer_moves_state(area: &Area, chain: Seq<Form>, s: Search)
    requires
        chain.len() <= usize::MAX,
        state_of(chain.len(), s) is Ready,
    ensures
        ({
            let t = advance(area, chain, s);
            let size = t.frontier.len();
            state_of(chain.len(), t) == if size == 0 {
                State::Dead(s.layer as usize)
            } else if size > FRONTIER_CAP {
                State::Aborted(s.layer as usize)
            } else if s.layer + 1 == chain.len() {
                State::Exhausted(size as usize)
            } else {
                State::Ready((s.layer + 1) as usize)
            }
        }),
{
}

/// A run changes nothing if the search is not ready.
pub proof fn lemma_run_at_rest(area: &Area, chain: Seq<Form>, s: Search)
    requires
        !(state_of(chain.len(), s) is Ready),
    ensures
        run(area, chain, s) == s,
{
}

/// A search over a chain without links is never ready: a run keeps the
/// frontier that the search was seeded with, and lays and logs no layer.
pub proof fn lemma_no_links_no_run(area: &Area, chain: Seq<Form>, s: Search)
    requires
        chain.len() == 0,
    ensures
        run(area, chain, s) == s,
{
}

/// In a region without cells the next layer is empty, whatever the
/// frontier: a ready search ends dead at the first layer it lays, and logs
/// that layer with size 0.
pub proof fn lemma_run_in_empty_region(area: &Area, chain: Seq<Form>, s: Search)
    requires
        forall|pos: Position| !area.contains(pos),
        state_of(chain.len(), s) is Ready,
        chain.len() <= usize::MAX,
    ensures
        run(area, chain, s) == (Search {
            frontier: Seq::empty(),
            layer: s.layer + 1,
            statistics: s.statistics.push((s.layer as usize, 0)),
        }),
        state_of(chain.len(), run(area, chain, s)) == State::Dead(s.layer as usize),
{
    let form = chain[s.layer as int];
    let remaining = (chain.len() - s.layer) as nat;
    let next = next_layer(area, s.frontier, form, remaining);
    if next.len() > 0 {
        let p = lemma_next_layer_from(area, s.frontier, form, remaining, 0);
        let parent = s.frontier[p];
        let k = choose|k: int|
            #![trigger parent[0].successors(form)[k]]
            0 <= k < parent[0].successors(form).len() && fits(
                area,
                parent,
                remaining,
                parent[0].successors(form)[k].coordinates,
            ) && next[0] == seq![parent[0].successors(form)[k]] + parent;
        assert(free_cells(area, parent).contains(parent[0].successors(form)[k].coordinates));
        assert(false);
    }
    assert(next =~= Seq::empty());
    let t = advance(area, chain, s);
    assert(run(area, chain, t) == t);
}

/// A layer holds at most one lineage for each lineage of the frontier it
/// grew from if the link is straight, and at most four if it is a turn.
pub proof fn lemma_layer_size(area: &Area, frontier: Seq<Seq<Brick>>, form: Form, remaining: nat)
    ensures
        form == Form::Straight ==> next_layer(area, frontier, form, remaining).len()
            <= frontier.len(),
        next_layer(area, frontier, form, remaining).len() <= 4 * frontier.len(),
    decreases frontier.len(),
{
    if frontier.len() > 0 {
        lemma_layer_size(area, frontier.drop_last(), form, remaining);
        let parent = frontier.last();
        lemma_grown_size(area, parent, remaining, parent[0].successors(form));
    }
}

/// At most one lineage grows for each candidate.
pub proof fn lemma_grown_size(area: &Area, lineage: Seq<Brick>, remaining: nat, candidates: Seq<Brick>)
    ensures
        grown(area, lineage, remaining, candidates).len() <= candidates.len(),
    decreases candidates.len(),
{
    if candidates.len() > 0 {
        lemma_grown_size(area, lineage, remaining, candidates.drop_last());
    }
}

/// What `first_free` finds is a free cell of the list, and it finds one if
/// the list holds one.
pub proof fn lemma_first_free(free: Set<Position>, cells: Seq<Position>)
    ensures
        match first_free(free, cells) {
            Some(found) => free.contains(found) && cells.contains(found),
            None => forall|i: int| 0 <= i < cells.len() ==> !free.contains(#[trigger] cells[i]),
        },
    decreases cells.len(),
{
    if cells.len() > 0 {
        if free.contains(cells[0]) {
            assert(cells.contains(cells[0]));
        } else {
            let rest = cells.skip(1);
            lemma_first_free(free, rest);
            match first_free(free, rest) {
                Some(found) => {
                    let i = choose|i: int| 0 <= i < rest.len() && rest[i] == found;
                    assert(cells[i + 1] == found);
                },
                None => {
                    assert forall|i: int| 0 <= i < cells.len() implies !free.contains(
                        #[trigger] cells[i],
                    ) by {
                        if i > 0 {
                            assert(rest[i - 1] == cells[i]);
                        }
                    }
                },
            }
        }
    }
}

/// The free space around a free cell is its own: the region of its first
/// free neighbour is the region of the cell itself.
pub proof fn lemma_region_around(free: Set<Position>, pos: Position)
    requires
        pos.inner(),
        free.contains(pos),
        first_free(free, pos.around()).is_some(),
    ensures
        region(free, first_free(free, pos.around()).unwrap()) == region(free, pos),
{
    let start = first_free(free, pos.around()).unwrap();
    lemma_first_free(free, pos.around());
    lemma_touching_is_one_step(pos, start);
    lemma_connected_touching(free, pos, start);
    assert forall|to: Position| region(free, start).contains(to) == region(free, pos).contains(
        to,
    ) by {
        if connected(free, start, to) {
            lemma_connected_on(free, pos, start, to);
        }
        if connected(free, pos, to) {
            lemma_connected_on(free, start, pos, to);
        }
    }
    assert(region(free, start) =~= region(free, pos));
}

/// A free cell that does not split the free space has room for the
/// segments that remain in its own region; and one that splits it has not,
/// or more remain than are counted.
pub proof fn lemma_split_counts_own_region(free: Set<Position>, pos: Position, remaining: nat)
    requires
        pos.inner(),
        free.contains(pos),
    ensures
        splits(free, pos, remaining) <==> first_free(free, pos.around()).is_some() && (remaining
            > FILL_CAP + 1 || remaining > region(free, pos).len()),
{
    if first_free(free, pos.around()).is_some() {
        lemma_region_around(free, pos);
    }
}

/// The split test refuses dead ends only. If the segments that remain
/// can be laid at all from `pos` on, that is, if there is a walk from `pos`
/// through as many different free cells as segments remain, and these are
/// not more than the flood fill counts, then `pos` does not split the free
/// space.
pub proof fn lemma_split_refuses_dead_ends_only(
    free: Set<Position>,
    pos: Position,
    remaining: nat,
    cells: Seq<Position>,
)
    requires
        pos.inner(),
        is_walk(free, cells),
        cells[0] == pos,
        cells.no_duplicates(),
        cells.len() == remaining,
        remaining <= FILL_CAP + 1,
    ensures
        !splits(free, pos, remaining),
{
    if first_free(free, pos.around()).is_some() {
        assert forall|k: int| 0 <= k < cells.len() implies connected(
            free,
            pos,
            #[trigger] cells[k],
        ) by {
            let part = cells.take(k + 1);
            assert forall|i: int| 0 <= i < part.len() - 1 implies (#[trigger] part[i]).touches(
                part[i + 1],
            ) by {
                assert(cells[i].touches(cells[i + 1]));
            }
            assert(leads(free, part, pos, cells[k]));
        }
        assert(lists_region(free, pos, cells));
        assert(roomy(free, pos, remaining));
        lemma_room_is_size(free, pos, remaining);
        lemma_region_around(free, pos);
    }
}

} // verus!
