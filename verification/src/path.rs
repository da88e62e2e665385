//! The folding engine: it holds the region, the chain and the frontier of
//! lineages, and lays the chain link by link.
pub use crate::area::{Area, Position};
use crate::region::{
    closed_from, connected, lemma_connected_on, lemma_connected_self, lemma_connected_touching,
    lemma_filled_list_measures_room, lemma_room_is_size, lemma_touching_cells_are_around,
    lists_region,
};
use crate::laws::{
    all_chained, all_faithful, all_inside, all_rooted, all_self_avoiding, as_good_as_a_seed,
    lemma_run_ends, lemma_run_extends_the_seeds, lemma_run_keeps_what_the_seeds_have,
    lemma_run_log, lemma_run_stays_chained, lemma_run_stays_faithful, lemma_run_stays_inside,
    lemma_run_stays_self_avoiding,
};
use crate::search::{
    advance, first_free, fits, free_cells, grown, lemma_next_layer_from, next_layer, occupied,
    offspring, run, splits, state_of, Search, State, FILL_CAP, FRONTIER_CAP,
};
pub use crate::snake::brick::{Brick, Orientation};
pub use crate::snake::chain::{Chain, Form};
use crate::tree::{lemma_lineage, share, Node, TreeIterator};
pub use std::rc::Rc;
use vstd::prelude::*;

verus! {

/// A search in progress.
pub struct Path {
    /// The region that the snake must stay in.
    pub area: Area,
    /// The links of the snake.
    pub chain: Chain,
    /// The leaves of the frontier; each stands for its lineage.
    pub last_layer: Vec<Rc<Node<Brick>>>,
    /// The number of links applied so far, which is the index of the next
    /// link.
    pub last_layer_index: usize,
    /// For each layer laid so far its index and the number of lineages
    /// that it left.
    pub statistics: Vec<(usize, usize)>,
}

/// The lineages that a list of leaves stands for.
pub open spec fn lineages(leaves: Seq<Rc<Node<Brick>>>) -> Seq<Seq<Brick>> {
    Seq::new(leaves.len(), |i: int| leaves[i]@)
}

/// Whether a step ahead from the leaf of every lineage stays on the grid.
pub open spec fn launchable(frontier: Seq<Seq<Brick>>) -> bool {
    forall|i: int|
        0 <= i < frontier.len() ==> (#[trigger] frontier[i])[0].coordinates.can_step(
            frontier[i][0].orientation,
        )
}

impl Path {
    /// The lineages of the frontier.
    pub open spec fn frontier(&self) -> Seq<Seq<Brick>> {
        lineages(self.last_layer@)
    }

    /// The search as the model sees it.
    pub open spec fn search(&self) -> Search {
        Search {
            frontier: self.frontier(),
            layer: self.last_layer_index as nat,
            statistics: self.statistics@,
        }
    }

    /// The number of links that are still to be applied.
    pub open spec fn remaining(&self) -> nat {
        (self.chain@.len() - self.last_layer_index) as nat
    }

    /// Whether the next layer can be laid without leaving the grid: the
    /// region is bounded and a step ahead from every leaf stays on the grid.
    pub open spec fn steppable(&self) -> bool {
        self.area.bounded() && launchable(self.frontier())
    }

    /// A search over `chain` in `area`, with an empty frontier and no link
    /// applied.
    pub fn new(area: Area, chain: Chain) -> (path: Path)
        ensures
            path.area == area,
            path.chain == chain,
            path.last_layer@.len() == 0,
            path.last_layer_index == 0,
            path.statistics@.len() == 0,
    {
        Path {
            area: area,
            chain: chain,
            last_layer: Vec::new(),
            last_layer_index: 0,
            statistics: Vec::new(),
        }
    }

    /// How the search stands.
    pub fn state(&self) -> (state: State)
        ensures
            state == state_of(self.chain@.len(), self.search()),
    {
        let size = self.last_layer.len();
        if self.last_layer_index > 0 && size == 0 {
            State::Dead(self.last_layer_index - 1)
        } else if self.last_layer_index > 0 && size > FRONTIER_CAP {
            State::Aborted(self.last_layer_index - 1)
        } else if self.last_layer_index >= self.chain.len() {
            State::Exhausted(size)
        } else {
            State::Ready(self.last_layer_index)
        }
    }

    /// Whether `fold` may be called: the search is not ready, or it is
    /// steppable.
    pub fn can_fold(&self) -> (ok: bool)
        ensures
            ok == (state_of(self.chain@.len(), self.search()) is Ready ==> self.steppable()),
    {
        match self.state() {
            State::Ready(_) => {},
            _ => {
                return true;
            },
        }
        if !self.area.is_bounded() {
            return false;
        }
        let mut i: usize = 0;
        while i < self.last_layer.len()
            invariant
                i <= self.last_layer.len(),
                state_of(self.chain@.len(), self.search()) is Ready,
                self.area.bounded(),
                forall|j: int|
                    0 <= j < i ==> (#[trigger] self.frontier()[j])[0].coordinates.can_step(
                        self.frontier()[j][0].orientation,
                    ),
            decreases self.last_layer.len() - i,
        {
            let leaf = &self.last_layer[i];
            proof {
                lemma_lineage(&**leaf);
            }
            if !leaf.value.coordinates.has_neighbour(leaf.value.orientation) {
                assert(!self.frontier()[i as int][0].coordinates.can_step(
                    self.frontier()[i as int][0].orientation,
                ));
                return false;
            }
            i += 1;
        }
        true
    }

    /// Lays a brick by hand, before folding begins: the first brick becomes
    /// the root, every further one the child of the first leaf. The brick is
    /// taken as it is, and counts as one layer with one lineage.
    pub fn add_brick(&mut self, brick: &Brick)
        requires
            old(self).last_layer_index < usize::MAX,
        ensures
            final(self).area == old(self).area,
            final(self).chain == old(self).chain,
            final(self).frontier() == if old(self).frontier().len() == 0 {
                seq![seq![*brick]]
            } else {
                old(self).frontier().update(0, seq![*brick] + old(self).frontier()[0])
            },
            final(self).statistics@ == old(self).statistics@.push((old(self).last_layer_index, 1)),
            final(self).last_layer_index == old(self).last_layer_index + 1,
    {
        if self.last_layer.len() == 0 {
            self.last_layer.push(Node::new_root(*brick));
        } else {
            let grown = Node::new_child(*brick, &self.last_layer[0]);
            self.last_layer.set(0, grown);
        }
        assert(self.frontier() =~= if old(self).frontier().len() == 0 {
            seq![seq![*brick]]
        } else {
            old(self).frontier().update(0, seq![*brick] + old(self).frontier()[0])
        });
        self.statistics.push((self.last_layer_index, 1));
        self.last_layer_index += 1;
    }

    /// Whether a brick of the lineage of `node` lies on `coords`.
    pub fn self_intersect(coords: Position, node: Rc<Node<Brick>>) -> (hit: bool)
        ensures
            hit == occupied(node@, coords),
    {
        let ghost lineage = node@;
        let mut iter = TreeIterator::new(node);
        let ghost mut seen: int = 0;
        loop
            invariant
                lineage == node@,
                0 <= seen <= lineage.len(),
                iter@ == lineage.skip(seen),
                forall|i: int| 0 <= i < seen ==> (#[trigger] lineage[i]).coordinates != coords,
            decreases lineage.len() - seen,
        {
            match iter.next() {
                None => {
                    return false;
                },
                Some(rr) => {
                    proof {
                        lemma_lineage(&*rr);
                        assert(rr@[0] == lineage[seen]);
                        assert(lineage.skip(seen).skip(1) =~= lineage.skip(seen + 1));
                    }
                    if rr.value.coordinates == coords {
                        return true;
                    }
                    proof {
                        seen = seen + 1;
                    }
                },
            }
        }
    }

    /// Whether a further brick of the lineage of `nr` may lie on `coords`:
    /// the cell is in the region and the lineage has not used it.
    #[inline]
    pub fn valid(path: &Path, coords: Position, nr: &Rc<Node<Brick>>) -> (free: bool)
        ensures
            free == free_cells(&path.area, nr@).contains(coords),
    {
        path.area.is_in(coords) && !Path::self_intersect(coords, share(nr))
    }

    /// Whether a brick on `coords` would split the free space of the lineage
    /// of `node` so that the links still to be applied no longer fit: the
    /// free cells connected to the first free neighbour of `coords` are
    /// counted, up to `FILL_CAP + 1` of them, and the remaining links must not
    /// outnumber them.
    #[verifier::loop_isolation(false)]
    pub fn split_area(path: &Path, coords: Position, node: &Rc<Node<Brick>>) -> (split: bool)
        requires
            path.area.bounded(),
            coords.inner(),
            path.last_layer_index <= path.chain@.len(),
        ensures
            split == splits(free_cells(&path.area, node@), coords, path.remaining()),
    {
        let ghost free = free_cells(&path.area, node@);
        let around = coords.neighbours();
        let mut fnb: Option<Position> = None;
        let mut k: usize = 0;
        assert(around@.skip(0) =~= around@);
        while k < 6
            invariant
                k <= 6,
                fnb.is_none(),
                first_free(free, around@) == first_free(free, around@.skip(k as int)),
            decreases 6 - k,
        {
            proof {
                assert(around@.skip(k as int).skip(1) =~= around@.skip(k as int + 1));
            }
            if Path::valid(path, around[k], node) {
                fnb = Some(around[k]);
                break ;
            }
            k += 1;
        }
        assert(first_free(free, around@) == fnb);
        let fnb = match fnb {
            None => {
                return false;
            },
            Some(fnb) => fnb,
        };
        let mut complement: Vec<Position> = Vec::new();
        Path::build_complement(&mut complement, fnb, path, node);
        proof {
            assert(lists_region(free, fnb, complement@));
            lemma_filled_list_measures_room(
                free,
                fnb,
                complement@,
                FILL_CAP as nat,
                path.remaining(),
            );
            lemma_room_is_size(free, fnb, path.remaining());
        }
        path.chain.dirs.len() - path.last_layer_index > complement.len()
    }

    /// Fills `complement` with the free cells that are connected to `pos`,
    /// as far as they are not in it yet, until it holds more than `FILL_CAP`
    /// cells. What was in it stays in front.
    #[verifier::loop_isolation(false)]
    fn build_complement(
        complement: &mut Vec<Position>,
        pos: Position,
        path: &Path,
        node: &Rc<Node<Brick>>,
    )
        requires
            path.area.bounded(),
            old(complement)@.len() <= FILL_CAP + 1,
            old(complement)@.no_duplicates(),
            tied(free_cells(&path.area, node@), pos, old(complement)@),
        ensures
            final(complement)@.len() <= FILL_CAP + 1,
            old(complement)@.len() <= final(complement)@.len(),
            final(complement)@.take(old(complement)@.len() as int) == old(complement)@,
            final(complement)@.no_duplicates(),
            tied(free_cells(&path.area, node@), pos, final(complement)@),
            !free_cells(&path.area, node@).contains(pos) ==> final(complement)@ == old(
                complement,
            )@,
            final(complement)@.len() <= FILL_CAP ==> {
                &&& free_cells(&path.area, node@).contains(pos) ==> final(complement)@.contains(pos)
                &&& closed_from(
                    free_cells(&path.area, node@),
                    final(complement)@,
                    old(complement)@.len() as int,
                )
            },
        decreases FILL_CAP + 2 - old(complement)@.len(),
    {
        let ghost free = free_cells(&path.area, node@);
        let ghost before = complement@;
        if complement.len() > FILL_CAP {
            assert(complement@.take(before.len() as int) =~= before);
            return ;
        }
        let mut i: usize = 0;
        while i < complement.len()
            invariant
                i <= complement.len(),
                complement@ == before,
                forall|j: int| 0 <= j < i ==> complement@[j] != pos,
            decreases complement.len() - i,
        {
            if complement[i] == pos {
                assert(complement@.take(before.len() as int) =~= before);
                return ;
            }
            i += 1;
        }
        if Path::valid(path, pos, node) {
            complement.push(pos);
            let ghost first = before.push(pos);
            let around = pos.neighbours();
            proof {
                lemma_connected_self(free, pos);
                assert(complement@.take(first.len() as int) =~= first);
            }
            let mut k: usize = 0;
            while k < 6
                invariant
                    k <= 6,
                    path.area.bounded(),
                    free == free_cells(&path.area, node@),
                    free.contains(pos),
                    pos.inner(),
                    around@ == pos.around(),
                    first == before.push(pos),
                    before.len() <= FILL_CAP,
                    first.len() <= complement@.len() <= FILL_CAP + 1,
                    complement@.take(first.len() as int) == first,
                    complement@.no_duplicates(),
                    tied(free, pos, complement@),
                    complement@.len() <= FILL_CAP ==> {
                        &&& forall|n: int|
                            0 <= n < k && free.contains(#[trigger] around@[n])
                                ==> complement@.contains(around@[n])
                        &&& closed_from(free, complement@, first.len() as int)
                    },
                decreases 6 - k,
            {
                let ghost cur = complement@;
                let nb = around[k];
                proof {
                    if free.contains(nb) {
                        lemma_next_to(pos, k as int);
                        lemma_connected_touching(free, pos, nb);
                        assert forall|i: int| 0 <= i < cur.len() implies connected(
                            free,
                            nb,
                            #[trigger] cur[i],
                        ) by {
                            lemma_connected_on(free, nb, pos, cur[i]);
                        }
                    }
                }
                Path::build_complement(complement, nb, path, node);
                proof {
                    let now = complement@;
                    assert(now.take(cur.len() as int) == cur);
                    assert forall|i: int| 0 <= i < cur.len() implies now[i] == cur[i] by {
                        assert(now.take(cur.len() as int)[i] == now[i]);
                    }
                    assert(now.take(first.len() as int) =~= first) by {
                        assert forall|i: int| 0 <= i < first.len() implies now[i] == first[i] by {
                            assert(cur.take(first.len() as int)[i] == cur[i]);
                        }
                    }
                    assert forall|q: Position| cur.contains(q) implies now.contains(q) by {
                        let i = choose|i: int| 0 <= i < cur.len() && cur[i] == q;
                        assert(now[i] == q);
                    }
                    if free.contains(nb) {
                        assert forall|i: int| 0 <= i < now.len() implies connected(
                            free,
                            pos,
                            #[trigger] now[i],
                        ) by {
                            lemma_connected_on(free, pos, nb, now[i]);
                        }
                    }
                    if now.len() <= FILL_CAP {
                        assert forall|n: int|
                            0 <= n < k + 1 && free.contains(
                                #[trigger] around@[n],
                            ) implies now.contains(around@[n]) by {
                            if n < k {
                                assert(cur.contains(around@[n]));
                            }
                        }
                        assert forall|j: int, q: Position|
                            first.len() <= j < now.len() && free.contains(q) && (
                            #[trigger] now[j]).touches(q) implies #[trigger] now.contains(q) by {
                            if j < cur.len() {
                                assert(cur[j].touches(q));
                                assert(cur.contains(q));
                            }
                        }
                    }
                }
                k += 1;
            }
            proof {
                let now = complement@;
                assert(now.take(before.len() as int) =~= before) by {
                    assert forall|i: int| 0 <= i < before.len() implies now[i] == before[i] by {
                        assert(now.take(first.len() as int)[i] == now[i]);
                    }
                }
                assert(now[before.len() as int] == pos) by {
                    assert(now.take(first.len() as int)[before.len() as int] == now[before.len() as int]);
                }
                if now.len() <= FILL_CAP {
                    assert forall|j: int, q: Position|
                        before.len() <= j < now.len() && free.contains(q) && (
                        #[trigger] now[j]).touches(q) implies #[trigger] now.contains(q) by {
                        if j == before.len() {
                            lemma_touching_cells_are_around(pos, q);
                            let n = choose|n: int| 0 <= n < 6 && #[trigger] pos.around()[n] == q;
                            assert(free.contains(around@[n]));
                        }
                    }
                }
            }
        } else {
            assert(complement@.take(before.len() as int) =~= before);
        }
    }

    /// Whether a brick on `coords` may follow the lineage of `nr`: the cell
    /// is in the region, the lineage has not used it, and the links still to
    /// be applied fit into the free space around it.
    #[inline]
    pub fn valid_nosplit(path: &Path, coords: Position, nr: &Rc<Node<Brick>>) -> (ok: bool)
        requires
            path.area.bounded(),
            path.last_layer_index <= path.chain@.len(),
        ensures
            ok == fits(&path.area, nr@, path.remaining(), coords),
    {
        path.area.is_in(coords) && !Path::self_intersect(coords, share(nr))
            && !Path::split_area(path, coords, nr)
    }

    /// Lays the next layer over a link of form `frm`: every leaf is replaced
    /// by its successors that fit, each as a child of that leaf. Returns the
    /// size of the new frontier.
    pub fn build_next_layer(&mut self, frm: Form) -> (count: usize)
        requires
            old(self).steppable(),
            old(self).last_layer_index < old(self).chain@.len(),
        ensures
            final(self).area == old(self).area,
            final(self).chain == old(self).chain,
            final(self).statistics == old(self).statistics,
            final(self).last_layer_index == old(self).last_layer_index + 1,
            final(self).frontier() == next_layer(
                &old(self).area,
                old(self).frontier(),
                frm,
                old(self).remaining(),
            ),
            count == final(self).frontier().len(),
    {
        let ghost frontier = self.frontier();
        let ghost remaining = self.remaining();
        let mut new_layer: Vec<Rc<Node<Brick>>> = Vec::new();
        let mut i: usize = 0;
        assert(lineages(new_layer@) =~= next_layer(&self.area, frontier.take(0), frm, remaining));
        while i < self.last_layer.len()
            invariant
                *self == *old(self),
                frontier == self.frontier(),
                remaining == self.remaining(),
                self.steppable(),
                self.last_layer_index < self.chain@.len(),
                i <= self.last_layer.len(),
                lineages(new_layer@) == next_layer(
                    &self.area,
                    frontier.take(i as int),
                    frm,
                    remaining,
                ),
            decreases self.last_layer.len() - i,
        {
            let nr = &self.last_layer[i];
            let ghost lineage = frontier[i as int];
            let ghost base = lineages(new_layer@);
            proof {
                lemma_lineage(&**nr);
                assert(frontier.take(i as int + 1).drop_last() =~= frontier.take(i as int));
                assert(frontier.take(i as int + 1).last() == lineage);
            }
            match frm {
                Form::Straight => {
                    let new_brick = nr.value.next_straight();
                    proof {
                        let candidates = lineage[0].successors(frm);
                        assert(candidates.last() == new_brick);
                        assert(candidates.drop_last() =~= Seq::<Brick>::empty());
                        assert(grown(&self.area, lineage, remaining, candidates.drop_last())
                            =~= Seq::<Seq<Brick>>::empty());
                    }
                    if Path::valid_nosplit(self, new_brick.coordinates, nr) {
                        new_layer.push(Node::new_child(new_brick, nr));
                        assert(lineages(new_layer@) =~= base + offspring(
                            &self.area,
                            lineage,
                            frm,
                            remaining,
                        ));
                    } else {
                        assert(lineages(new_layer@) =~= base + offspring(
                            &self.area,
                            lineage,
                            frm,
                            remaining,
                        ));
                    }
                },
                Form::Turn => {
                    let bricks = nr.value.next_turn();
                    let mut j: usize = 0;
                    assert(lineages(new_layer@) =~= base + grown(
                        &self.area,
                        lineage,
                        remaining,
                        bricks@.take(0),
                    ));
                    while j < 4
                        invariant
                            *self == *old(self),
                            remaining == self.remaining(),
                            self.steppable(),
                            self.last_layer_index < self.chain@.len(),
                            i < self.last_layer.len(),
                            *nr == self.last_layer@[i as int],
                            lineage == nr@,
                            j <= 4,
                            bricks@.len() == 4,
                            lineages(new_layer@) == base + grown(
                                &self.area,
                                lineage,
                                remaining,
                                bricks@.take(j as int),
                            ),
                        decreases 4 - j,
                    {
                        let ghost sofar = lineages(new_layer@);
                        proof {
                            assert(bricks@.take(j as int + 1).drop_last() =~= bricks@.take(
                                j as int,
                            ));
                        }
                        if Path::valid_nosplit(self, bricks[j].coordinates, nr) {
                            new_layer.push(Node::new_child(bricks[j], nr));
                            assert(lineages(new_layer@) =~= sofar.push(seq![bricks@[j as int]] + lineage));
                        }
                        assert(lineages(new_layer@) =~= base + grown(
                            &self.area,
                            lineage,
                            remaining,
                            bricks@.take(j as int + 1),
                        ));
                        j += 1;
                    }
                    assert(bricks@.take(4) =~= bricks@);
                },
            }
            i += 1;
        }
        assert(frontier.take(i as int) =~= frontier);
        assert(self.chain@.len() == self.chain.dirs.len());
        self.last_layer = new_layer;
        self.last_layer_index += 1;
        self.last_layer.len()
    }

    /// Lays one layer over the next link of the chain and logs its size,
    /// which is returned.
    pub fn fold_layer(&mut self) -> (count: usize)
        requires
            old(self).last_layer_index < old(self).chain@.len(),
            old(self).steppable(),
        ensures
            final(self).area == old(self).area,
            final(self).chain == old(self).chain,
            final(self).search() == advance(&old(self).area, old(self).chain@, old(self).search()),
            count == final(self).frontier().len(),
            final(self).steppable(),
    {
        let ghost before = self.search();
        let ii = self.last_layer_index;
        let frm = self.chain.dirs[ii];
        let lsize = self.build_next_layer(frm);
        self.statistics.push((ii, lsize));
        proof {
            assert(self.search().statistics =~= advance(
                &self.area,
                self.chain@,
                before,
            ).statistics);
            lemma_layer_is_launchable(
                &self.area,
                before.frontier,
                frm,
                (self.chain@.len() - ii) as nat,
            );
        }
        lsize
    }

    /// Lays the rest of the chain, layer by layer, and logs the size of
    /// each layer: layers are laid as long as the search is ready. So the
    /// run ends when the chain is used up, when a layer is left empty, or
    /// when a layer is left with more than `FRONTIER_CAP` lineages; a search
    /// that is not ready is left as it is. Returns the size of the last
    /// layer laid, or 0 if none was laid.
    ///
    /// What the lineages of the frontier have in common before the run,
    /// they have after it: they do not cross themselves, they lie in the
    /// region, every brick follows the one before it, and the forms spell
    /// the chain as far as it is applied.
    pub fn fold(&mut self) -> (count: usize)
        requires
            state_of(old(self).chain@.len(), old(self).search()) is Ready ==> old(self).steppable(),
        ensures
            final(self).area == old(self).area,
            final(self).chain == old(self).chain,
            final(self).search() == run(&old(self).area, old(self).chain@, old(self).search()),
            count == if state_of(old(self).chain@.len(), old(self).search()) is Ready {
                final(self).frontier().len()
            } else {
                0
            },
            !(state_of(final(self).chain@.len(), final(self).search()) is Ready),
            all_self_avoiding(old(self).frontier()) ==> all_self_avoiding(final(self).frontier()),
            all_inside(&old(self).area, old(self).frontier()) ==> all_inside(
                &final(self).area,
                final(self).frontier(),
            ),
            all_faithful(old(self).chain@, old(self).frontier(), old(self).last_layer_index as nat)
                ==> all_faithful(
                final(self).chain@,
                final(self).frontier(),
                final(self).last_layer_index as nat,
            ),
            all_chained(old(self).frontier()) ==> all_chained(final(self).frontier()),
            all_rooted(old(self).frontier(), final(self).frontier()),
            forall|i: int|
                0 <= i < final(self).frontier().len() ==> as_good_as_a_seed(
                    &old(self).area,
                    old(self).chain@,
                    old(self).search(),
                    #[trigger] final(self).frontier()[i],
                    final(self).last_layer_index as nat,
                ),
            final(self).statistics@.len() - old(self).statistics@.len()
                == final(self).last_layer_index - old(self).last_layer_index,
    {
        let ghost chain = self.chain@;
        let ghost s = self.search();
        let mut lsize: usize = 0;
        loop
            invariant_except_break
                state_of(self.chain@.len(), self.search()) is Ready ==> self.steppable(),
                run(&self.area, self.chain@, self.search()) == run(
                    &old(self).area,
                    old(self).chain@,
                    old(self).search(),
                ),
            invariant
                self.area == old(self).area,
                self.chain == old(self).chain,
                chain == old(self).chain@,
                s == old(self).search(),
                old(self).last_layer_index <= self.last_layer_index,
                old(self).last_layer_index == self.last_layer_index ==> self.search() == s,
                old(self).last_layer_index < self.last_layer_index ==> state_of(
                    chain.len(),
                    s,
                ) is Ready,
                lsize == if old(self).last_layer_index < self.last_layer_index {
                    self.frontier().len()
                } else {
                    0
                },
            ensures
                self.search() == run(&old(self).area, old(self).chain@, old(self).search()),
                state_of(chain.len(), s) is Ready ==> old(self).last_layer_index
                    < self.last_layer_index,
            decreases self.chain@.len() - self.last_layer_index,
        {
            match self.state() {
                State::Ready(_) => {
                    lsize = self.fold_layer();
                },
                _ => {
                    break ;
                },
            }
        }
        proof {
            let area = &self.area;
            let r = run(area, chain, s);
            assert(!(state_of(chain.len(), r) is Ready)) by {
                lemma_run_ends(area, chain, s);
            }
            assert(all_rooted(s.frontier, r.frontier)) by {
                lemma_run_extends_the_seeds(area, chain, s);
            }
            assert(forall|i: int|
                0 <= i < r.frontier.len() ==> as_good_as_a_seed(
                    area,
                    chain,
                    s,
                    #[trigger] r.frontier[i],
                    r.layer,
                )) by {
                lemma_run_keeps_what_the_seeds_have(area, chain, s);
            }
            assert(all_self_avoiding(s.frontier) ==> all_self_avoiding(r.frontier)) by {
                if all_self_avoiding(s.frontier) {
                    lemma_run_stays_self_avoiding(area, chain, s);
                }
            }
            assert(all_inside(area, s.frontier) ==> all_inside(area, r.frontier)) by {
                if all_inside(area, s.frontier) {
                    lemma_run_stays_inside(area, chain, s);
                }
            }
            assert(all_chained(s.frontier) ==> all_chained(r.frontier)) by {
                if all_chained(s.frontier) {
                    lemma_run_stays_chained(area, chain, s);
                }
            }
            assert(all_faithful(chain, s.frontier, s.layer) ==> all_faithful(
                chain,
                r.frontier,
                r.layer,
            )) by {
                if all_faithful(chain, s.frontier, s.layer) {
                    lemma_run_stays_faithful(area, chain, s);
                }
            }
            assert(r.statistics.len() - s.statistics.len() == r.layer - s.layer) by {
                lemma_run_log(area, chain, s);
            }
        }
        lsize
    }
}

/// In a bounded region a step ahead from the leaf of every lineage of a
/// layer stays on the grid.
pub proof fn lemma_layer_is_launchable(
    area: &Area,
    frontier: Seq<Seq<Brick>>,
    form: Form,
    remaining: nat,
)
    requires
        area.bounded(),
    ensures
        launchable(next_layer(area, frontier, form, remaining)),
{
    let next = next_layer(area, frontier, form, remaining);
    assert forall|i: int| 0 <= i < next.len() implies (#[trigger] next[i])[0].coordinates.can_step(
        next[i][0].orientation,
    ) by {
        let p = lemma_next_layer_from(area, frontier, form, remaining, i);
        let parent = frontier[p];
        let k = choose|k: int|
            #![trigger parent[0].successors(form)[k]]
            0 <= k < parent[0].successors(form).len() && fits(
                area,
                parent,
                remaining,
                parent[0].successors(form)[k].coordinates,
            ) && next[i] == seq![parent[0].successors(form)[k]] + parent;
        let leaf = parent[0].successors(form)[k];
        assert(next[i][0] == leaf);
        assert(area.contains(leaf.coordinates));
        assert(leaf.coordinates.inner());
    }
}

/// Whether all of `cells` are connected to `pos`, if `pos` is free.
/// Whether all of `cells` are connected to `pos`, if `pos` is free.
pub open spec fn tied(free: Set<Position>, pos: Position, cells: Seq<Position>) -> bool {
    free.contains(pos) ==> forall|i: int|
        0 <= i < cells.len() ==> connected(free, pos, #[trigger] cells[i])
}

/// An inner cell touches each of its six neighbours.
proof fn lemma_next_to(pos: Position, k: int)
    requires
        pos.inner(),
        0 <= k < 6,
    ensures
        pos.touches(pos.around()[k]),
{
}

} // verus!
