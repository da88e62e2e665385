//! The search as mathematics: which bricks may follow a lineage, what the
//! next layer of a frontier is, and where a run over the rest of the chain
//! ends. The executable engine is held to these definitions.
use crate::area::Area;
use crate::region::region;
use crate::snake::brick::{Brick, Position};
use crate::snake::chain::Form;
use vstd::prelude::*;

verus! {

/// The flood fill stops growing once it holds more than this many cells.
pub const FILL_CAP: usize = 100;

/// A run stops after a layer that leaves more than this many lineages.
pub const FRONTIER_CAP: usize = 10000000;

/// Whether a brick of the lineage lies on `pos`.
pub open spec fn occupied(lineage: Seq<Brick>, pos: Position) -> bool {
    exists|i: int| 0 <= i < lineage.len() && (#[trigger] lineage[i]).coordinates == pos
}

/// The cells that a further brick of the lineage may lie on: those of the
/// region that the lineage has not used.
pub open spec fn free_cells(area: &Area, lineage: Seq<Brick>) -> Set<Position> {
    Set::new(|pos: Position| area.contains(pos) && !occupied(lineage, pos))
}

/// The first free cell of a list, if there is one.
pub open spec fn first_free(free: Set<Position>, cells: Seq<Position>) -> Option<Position>
    decreases cells.len(),
{
    if cells.len() == 0 {
        None
    } else if free.contains(cells[0]) {
        Some(cells[0])
    } else {
        first_free(free, cells.skip(1))
    }
}

/// Whether a brick on `pos` would leave too little connected free space
/// for the `remaining` segments: more of them remain than the region of the
/// first free neighbour of `pos` has cells. The cells are counted up to
/// `FILL_CAP + 1`, so more segments than that never fit. A cell without a
/// free neighbour splits nothing.
pub open spec fn splits(free: Set<Position>, pos: Position, remaining: nat) -> bool {
    match first_free(free, pos.around()) {
        None => false,
        Some(start) => remaining > FILL_CAP + 1 || remaining > region(free, start).len(),
    }
}

/// Whether a brick on `pos` may follow the lineage when `remaining`
/// segments, this one included, are still to be laid: the cell is in the
/// region, the lineage has not used it, and it does not split the free space.
pub open spec fn fits(area: &Area, lineage: Seq<Brick>, remaining: nat, pos: Position) -> bool {
    let free = free_cells(area, lineage);
    free.contains(pos) && !splits(free, pos, remaining)
}

/// The lineages that grow out of `lineage` by those of the candidates that
/// fit, in the order of the candidates.
pub open spec fn grown(area: &Area, lineage: Seq<Brick>, remaining: nat, candidates: Seq<Brick>) -> Seq<
    Seq<Brick>,
>
    decreases candidates.len(),
{
    if candidates.len() == 0 {
        Seq::empty()
    } else {
        let before = grown(area, lineage, remaining, candidates.drop_last());
        let last = candidates.last();
        if fits(area, lineage, remaining, last.coordinates) {
            before.push(seq![last] + lineage)
        } else {
            before
        }
    }
}

/// The lineages that follow `lineage` over a link of the given form.
pub open spec fn offspring(area: &Area, lineage: Seq<Brick>, form: Form, remaining: nat) -> Seq<
    Seq<Brick>,
> {
    grown(area, lineage, remaining, lineage[0].successors(form))
}

/// The next layer of a frontier: the offspring of its lineages, one
/// lineage after the other.
pub open spec fn next_layer(area: &Area, frontier: Seq<Seq<Brick>>, form: Form, remaining: nat) -> Seq<
    Seq<Brick>,
>
    decreases frontier.len(),
{
    if frontier.len() == 0 {
        Seq::empty()
    } else {
        next_layer(area, frontier.drop_last(), form, remaining) + offspring(
            area,
            frontier.last(),
            form,
            remaining,
        )
    }
}

/// The state of a search: the lineages of the frontier, the number of links
/// applied so far, and the log of layers with the size each one left.
pub struct Search {
    /// The lineages of the frontier, each with its leaf first.
    pub frontier: Seq<Seq<Brick>>,
    /// The number of links applied so far.
    pub layer: nat,
    /// For each layer laid so far its index and the size it left.
    pub statistics: Seq<(usize, usize)>,
}

/// The state after the next link of the chain has been applied.
pub open spec fn advance(area: &Area, chain: Seq<Form>, s: Search) -> Search
    recommends
        s.layer < chain.len(),
{
    let next = next_layer(area, s.frontier, chain[s.layer as int], (chain.len() - s.layer) as nat);
    Search {
        frontier: next,
        layer: s.layer + 1,
        statistics: s.statistics.push((s.layer as usize, next.len() as usize)),
    }
}

/// How a search stands.
#[derive(Copy, Clone, Debug, PartialEq, Eq, Structural)]
pub enum State {
    /// The link with this index is the next to apply.
    Ready(usize),
    /// The chain is used up; this many foldings are left.
    Exhausted(usize),
    /// The layer with this index left no lineage.
    Dead(usize),
    /// The layer with this index left more than `FRONTIER_CAP` lineages.
    Aborted(usize),
}

/// How a search over a chain of `links` links stands in state `s`. A
/// search is dead or aborted by the last layer that was laid; before any
/// layer it is ready, or exhausted if the chain has no link.
pub open spec fn state_of(links: nat, s: Search) -> State {
    if s.layer > 0 && s.frontier.len() == 0 {
        State::Dead((s.layer - 1) as usize)
    } else if s.layer > 0 && s.frontier.len() > FRONTIER_CAP {
        State::Aborted((s.layer - 1) as usize)
    } else if s.layer >= links {
        State::Exhausted(s.frontier.len() as usize)
    } else {
        State::Ready(s.layer as usize)
    }
}

/// Whether a layer of this size ends a run: it is empty, or it is larger
/// than `FRONTIER_CAP`.
pub open spec fn stops(size: nat) -> bool {
    size == 0 || size > FRONTIER_CAP
}

/// The state in which a run ends: layers are laid as long as the search
/// is ready.
pub open spec fn run(area: &Area, chain: Seq<Form>, s: Search) -> Search
    decreases chain.len() - s.layer,
{
    if state_of(chain.len(), s) is Ready {
        run(area, chain, advance(area, chain, s))
    } else {
        s
    }
}

/// Whether `child` grows out of `parent` over a link of the given form:
/// it is `parent` with one of its successors that fit laid in front.
pub open spec fn follows(
    area: &Area,
    parent: Seq<Brick>,
    form: Form,
    remaining: nat,
    child: Seq<Brick>,
) -> bool {
    exists|k: int|
        #![trigger parent[0].successors(form)[k]]
        0 <= k < parent[0].successors(form).len() && fits(
            area,
            parent,
            remaining,
            parent[0].successors(form)[k].coordinates,
        ) && child == seq![parent[0].successors(form)[k]] + parent
}

/// Every lineage that grows out of `lineage` is `lineage` with a candidate
/// that fits laid in front.
pub proof fn lemma_grown_from(
    area: &Area,
    lineage: Seq<Brick>,
    remaining: nat,
    candidates: Seq<Brick>,
    i: int,
) -> (k: int)
    requires
        0 <= i < grown(area, lineage, remaining, candidates).len(),
    ensures
        0 <= k < candidates.len(),
        fits(area, lineage, remaining, candidates[k].coordinates),
        grown(area, lineage, remaining, candidates)[i] == seq![candidates[k]] + lineage,
    decreases candidates.len(),
{
    let before = grown(area, lineage, remaining, candidates.drop_last());
    if i < before.len() {
        lemma_grown_from(area, lineage, remaining, candidates.drop_last(), i)
    } else {
        candidates.len() - 1
    }
}

/// Every lineage of the next layer follows a lineage of the frontier.
pub proof fn lemma_next_layer_from(
    area: &Area,
    frontier: Seq<Seq<Brick>>,
    form: Form,
    remaining: nat,
    i: int,
) -> (p: int)
    requires
        0 <= i < next_layer(area, frontier, form, remaining).len(),
    ensures
        0 <= p < frontier.len(),
        follows(area, frontier[p], form, remaining, next_layer(area, frontier, form, remaining)[i]),
    decreases frontier.len(),
{
    let before = next_layer(area, frontier.drop_last(), form, remaining);
    if i < before.len() {
        lemma_next_layer_from(area, frontier.drop_last(), form, remaining, i)
    } else {
        let parent = frontier.last();
        let k = lemma_grown_from(
            area,
            parent,
            remaining,
            parent[0].successors(form),
            i - before.len(),
        );
        frontier.len() - 1
    }
}

} // verus!
