//! Path analysis over the links of a grid: walks, breadth-first distances,
//! shortest paths, farthest cells and dead ends.

use vstd::prelude::*;
use crate::grid::Cell;
use crate::grid::Grid;

verus! {

/// The positions of a labeling that hold no distance yet.
pub open spec fn unlabeled(l: Seq<Option<usize>>) -> Set<int> {
    Set::new(|c: int| 0 <= c < l.len() && l[c] is None)
}

proof fn lemma_unlabeled_finite(l: Seq<Option<usize>>)
    ensures
        unlabeled(l).finite(),
        unlabeled(l).len() <= l.len(),
{
    vstd::set_lib::lemma_int_range(0, l.len() as int);
    vstd::set_lib::lemma_len_subset(unlabeled(l), vstd::set_lib::set_int_range(0, l.len() as int));
}

proof fn lemma_unlabeled_update(l: Seq<Option<usize>>, x: int, v: usize)
    requires
        0 <= x < l.len(),
        l[x] is None,
    ensures
        unlabeled(l.update(x, Some(v))).len() + 1 == unlabeled(l).len(),
{
    lemma_unlabeled_finite(l);
    assert(unlabeled(l.update(x, Some(v))) =~= unlabeled(l).remove(x));
    assert(unlabeled(l).contains(x));
}

impl Grid {
    /// Whether `p` is a walk: a non-empty sequence of cells of the grid in which
    /// each cell is linked to the next.
    pub open spec fn is_walk(&self, p: Seq<Cell>) -> bool {
        &&& p.len() > 0
        &&& forall|k: int| 0 <= k < p.len() ==> self.has_cell(#[trigger] p[k])
        &&& forall|k: int| 0 <= k < p.len() - 1 ==> self.linked(#[trigger] p[k], p[k + 1])
    }

    /// Whether `p` is a walk that starts at `a` and ends at `b`.
    pub open spec fn walk_between(&self, p: Seq<Cell>, a: Cell, b: Cell) -> bool {
        self.is_walk(p) && p[0] == a && p[p.len() - 1] == b
    }

    /// Whether some walk of exactly `n` links leads from `a` to `b`.
    pub open spec fn walk_of_length(&self, a: Cell, b: Cell, n: nat) -> bool {
        exists|p: Seq<Cell>| #[trigger] self.walk_between(p, a, b) && p.len() == n + 1
    }

    /// Whether some walk leads from `a` to `b`.
    pub open spec fn reachable(&self, a: Cell, b: Cell) -> bool {
        exists|p: Seq<Cell>| #[trigger] self.walk_between(p, a, b)
    }

    /// Whether `d` is the distance from `a` to `b`: the number of links of a
    /// shortest walk between them.
    pub open spec fn distance_is(&self, a: Cell, b: Cell, d: nat) -> bool {
        &&& self.walk_of_length(a, b, d)
        &&& forall|n: nat| n < d ==> !#[trigger] self.walk_of_length(a, b, n)
    }

    /// Whether the label of `c`, a cell other than the start, is one more than the
    /// least label among the cells linked to `c`.
    pub open spec fn label_fits(&self, l: Seq<Option<usize>>, c: Cell) -> bool {
        let d = l[c as int].unwrap();
        &&& d > 0
        &&& exists|n: Cell| #[trigger] self.linked(c, n) && l[n as int] == Some((d - 1) as usize)
        &&& forall|n: Cell| #[trigger]
            self.linked(c, n) ==> l[n as int] is Some && l[n as int].unwrap() + 1 >= d
    }

    /// Whether `l` labels the cells with their breadth-first distances from `start`:
    /// the start has 0, every other labeled cell has one more than the least label
    /// among the cells linked to it, and every cell linked to a labeled cell is labeled.
    pub open spec fn is_labeling(&self, start: Cell, l: Seq<Option<usize>>) -> bool {
        &&& l.len() == self.size()
        &&& l[start as int] == Some(0usize)
        &&& forall|c: Cell|
            self.has_cell(c) && c != start && l[c as int] is Some ==> #[trigger] self.label_fits(
                l,
                c,
            )
        &&& forall|a: Cell, b: Cell| #[trigger]
            self.linked(a, b) && l[a as int] is Some ==> l[b as int] is Some
    }

    /// Whether `l` gives every cell its distance from `start`, and no label to the
    /// cells that no walk reaches.
    pub open spec fn is_distance_map(&self, start: Cell, l: Seq<Option<usize>>) -> bool {
        &&& l.len() == self.size()
        &&& forall|c: Cell|
            self.has_cell(c) ==> match #[trigger] l[c as int] {
                Some(d) => self.distance_is(start, c, d as nat),
                None => !self.reachable(start, c),
            }
    }

    /// A walk stays a walk when a cell linked to its end is appended.
    pub proof fn lemma_walk_push(&self, p: Seq<Cell>, a: Cell, b: Cell, c: Cell)
        requires
            self.wf(),
            self.walk_between(p, a, b),
            self.linked(b, c),
        ensures
            self.walk_between(p.push(c), a, c),
    {
        self.lemma_wf();
        let q = p.push(c);
        assert forall|k: int| 0 <= k < q.len() - 1 implies self.linked(#[trigger] q[k], q[k + 1]) by {
            if k < p.len() - 1 {
                assert(self.linked(p[k], p[k + 1]));
            }
        }
        assert forall|k: int| 0 <= k < q.len() implies self.has_cell(#[trigger] q[k]) by {
            if k < p.len() {
                assert(self.has_cell(p[k]));
            }
        }
    }

    /// A walk read backwards is a walk.
    pub proof fn lemma_walk_reverse(&self, p: Seq<Cell>, a: Cell, b: Cell)
        requires
            self.wf(),
            self.walk_between(p, a, b),
        ensures
            self.walk_between(p.reverse(), b, a),
            p.reverse().len() == p.len(),
    {
        self.lemma_wf();
        let q = p.reverse();
        assert forall|k: int| 0 <= k < q.len() - 1 implies self.linked(#[trigger] q[k], q[k + 1]) by {
            let m = p.len() - 2 - k;
            assert(self.linked(p[m], p[m + 1]));
        }
        assert forall|k: int| 0 <= k < q.len() implies self.has_cell(#[trigger] q[k]) by {
            assert(self.has_cell(p[p.len() - 1 - k]));
        }
    }

    /// Two walks that meet end to start make one walk.
    pub proof fn lemma_walk_join(&self, p: Seq<Cell>, q: Seq<Cell>, a: Cell, b: Cell, c: Cell)
        requires
            self.walk_between(p, a, b),
            self.walk_between(q, b, c),
        ensures
            self.walk_between(p + q.subrange(1, q.len() as int), a, c),
    {
        let t = q.subrange(1, q.len() as int);
        let r = p + t;
        assert forall|k: int| 0 <= k < r.len() - 1 implies self.linked(#[trigger] r[k], r[k + 1]) by {
            if k < p.len() - 1 {
                assert(self.linked(p[k], p[k + 1]));
            } else {
                let m = k - p.len() + 1;
                assert(self.linked(q[m], q[m + 1]));
            }
        }
        assert forall|k: int| 0 <= k < r.len() implies self.has_cell(#[trigger] r[k]) by {
            if k < p.len() {
                assert(self.has_cell(p[k]));
            } else {
                assert(self.has_cell(q[k - p.len() + 1]));
            }
        }
    }

    /// Reachability is symmetric.
    pub proof fn lemma_reachable_symmetric(&self, a: Cell, b: Cell)
        requires
            self.wf(),
            self.reachable(a, b),
        ensures
            self.reachable(b, a),
    {
        let p = choose|p: Seq<Cell>| self.walk_between(p, a, b);
        self.lemma_walk_reverse(p, a, b);
        assert(self.walk_between(p.reverse(), b, a));
    }

    /// Reachability is transitive.
    pub proof fn lemma_reachable_transitive(&self, a: Cell, b: Cell, c: Cell)
        requires
            self.reachable(a, b),
            self.reachable(b, c),
        ensures
            self.reachable(a, c),
    {
        let p = choose|p: Seq<Cell>| self.walk_between(p, a, b);
        let q = choose|q: Seq<Cell>| self.walk_between(q, b, c);
        self.lemma_walk_join(p, q, a, b, c);
        assert(self.walk_between(p + q.subrange(1, q.len() as int), a, c));
    }

    /// Every cell reaches itself, and a link makes its two cells reach each other.
    pub proof fn lemma_reachable_step(&self, a: Cell, b: Cell)
        requires
            self.wf(),
            self.has_cell(a),
        ensures
            self.reachable(a, a),
            self.linked(a, b) ==> self.reachable(a, b),
    {
        let p = seq![a];
        assert(self.walk_between(p, a, a));
        if self.linked(a, b) {
            self.lemma_walk_push(p, a, a, b);
            assert(self.walk_between(p.push(b), a, b));
        }
    }

    /// A labeled cell is reached by a walk of as many links as its label says.
    proof fn lemma_label_walk(&self, start: Cell, l: Seq<Option<usize>>, c: Cell, d: nat)
        requires
            self.wf(),
            self.has_cell(start),
            self.is_labeling(start, l),
            self.has_cell(c),
            l[c as int] == Some(d as usize),
            d <= usize::MAX,
        ensures
            self.walk_of_length(start, c, d),
        decreases d,
    {
        self.lemma_wf();
        if c == start {
            assert(self.walk_between(seq![start], start, start));
        } else {
            assert(self.label_fits(l, c));
            let n = choose|n: Cell| #[trigger]
                self.linked(c, n) && l[n as int] == Some((d - 1) as usize);
            assert(self.linked(n, c));
            self.lemma_label_walk(start, l, n, (d - 1) as nat);
            let p = choose|p: Seq<Cell>| #[trigger]
                self.walk_between(p, start, n) && p.len() == (d - 1) as nat + 1;
            self.lemma_walk_push(p, start, n, c);
            assert(self.walk_between(p.push(c), start, c));
        }
    }

    /// The end of a walk from the start is labeled, with no more than the number of
    /// links of the walk.
    proof fn lemma_walk_label(&self, start: Cell, l: Seq<Option<usize>>, p: Seq<Cell>, c: Cell)
        requires
            self.wf(),
            self.has_cell(start),
            self.is_labeling(start, l),
            self.walk_between(p, start, c),
        ensures
            l[c as int] is Some,
            l[c as int].unwrap() <= p.len() - 1,
        decreases p.len(),
    {
        self.lemma_wf();
        if p.len() > 1 {
            let q = p.drop_last();
            let b = p[p.len() - 2];
            assert(self.has_cell(b));
            assert forall|k: int| 0 <= k < q.len() - 1 implies self.linked(
                #[trigger] q[k],
                q[k + 1],
            ) by {
                assert(self.linked(p[k], p[k + 1]));
            }
            assert forall|k: int| 0 <= k < q.len() implies self.has_cell(#[trigger] q[k]) by {
                assert(self.has_cell(p[k]));
            }
            assert(self.walk_between(q, start, b));
            self.lemma_walk_label(start, l, q, b);
            assert(self.linked(b, c));
            assert(self.linked(c, b));
            if c != start {
                assert(self.label_fits(l, c));
            }
        }
    }

    /// A breadth-first labeling gives every reached cell its distance.
    pub proof fn lemma_labeling_is_distance_map(&self, start: Cell, l: Seq<Option<usize>>)
        requires
            self.wf(),
            self.has_cell(start),
            self.is_labeling(start, l),
        ensures
            self.is_distance_map(start, l),
    {
        assert forall|c: Cell| self.has_cell(c) implies match #[trigger] l[c as int] {
            Some(d) => self.distance_is(start, c, d as nat),
            None => !self.reachable(start, c),
        } by {
            match l[c as int] {
                Some(d) => {
                    self.lemma_label_walk(start, l, c, d as nat);
                    assert forall|n: nat| n < d implies !#[trigger] self.walk_of_length(
                        start,
                        c,
                        n,
                    ) by {
                        if self.walk_of_length(start, c, n) {
                            let p = choose|p: Seq<Cell>| #[trigger]
                                self.walk_between(p, start, c) && p.len() == n + 1;
                            self.lemma_walk_label(start, l, p, c);
                        }
                    }
                },
                None => {
                    if self.reachable(start, c) {
                        let p = choose|p: Seq<Cell>| self.walk_between(p, start, c);
                        self.lemma_walk_label(start, l, p, c);
                    }
                },
            }
        }
    }

    /// Whether a labeled cell has a linked cell labeled one less.
    spec fn has_pred(&self, l: Seq<Option<usize>>, c: Cell) -> bool {
        exists|n: Cell| #[trigger]
            self.linked(c, n) && l[c as int].unwrap() > 0 && l[n as int] == Some(
                (l[c as int].unwrap() - 1) as usize,
            )
    }

    /// The state of a breadth-first labeling in progress: no label is above `hi`,
    /// and every cell labeled below `lo` has all its linked cells labeled.
    spec fn labeling_upto(&self, start: Cell, l: Seq<Option<usize>>, hi: nat, lo: nat) -> bool {
        &&& l.len() == self.size()
        &&& l[start as int] == Some(0usize)
        &&& forall|c: Cell|
            self.has_cell(c) && (#[trigger] l[c as int]) is Some ==> l[c as int].unwrap() <= hi
        &&& forall|c: Cell|
            self.has_cell(c) && c != start && l[c as int] is Some ==> #[trigger] self.has_pred(l, c)
        &&& forall|a: Cell, b: Cell| #[trigger]
            self.linked(a, b) && l[a as int] is Some && l[b as int] is Some ==> l[b as int].unwrap()
                + 1 >= l[a as int].unwrap()
        &&& forall|a: Cell, b: Cell| #[trigger]
            self.linked(a, b) && l[a as int] is Some && l[a as int].unwrap() < lo
                ==> l[b as int] is Some
    }

    /// Labeling an unlabeled cell linked to a cell of the last complete layer
    /// keeps the labeling state.
    proof fn lemma_label_next(
        &self,
        start: Cell,
        l: Seq<Option<usize>>,
        k: nat,
        c: Cell,
        d: Cell,
    )
        requires
            self.wf(),
            self.has_cell(start),
            self.labeling_upto(start, l, k + 1, k),
            self.has_cell(c),
            l[c as int] == Some(k as usize),
            self.linked(c, d),
            l[d as int] is None,
            k + 1 <= usize::MAX,
        ensures
            self.labeling_upto(start, l.update(d as int, Some((k + 1) as usize)), k + 1, k),
    {
        self.lemma_wf();
        let m = l.update(d as int, Some((k + 1) as usize));
        assert(self.has_cell(d));
        assert forall|x: Cell| self.has_cell(x) && x != start && m[x as int] is Some implies #[trigger] self.has_pred(
            m,
            x,
        ) by {
            if x == d {
                assert(self.linked(d, c));
                assert(self.linked(x, c) && m[x as int].unwrap() > 0 && m[c as int] == Some(
                    (m[x as int].unwrap() - 1) as usize,
                ));
            } else {
                assert(self.has_pred(l, x));
                let n = choose|n: Cell| #[trigger]
                    self.linked(x, n) && l[x as int].unwrap() > 0 && l[n as int] == Some(
                        (l[x as int].unwrap() - 1) as usize,
                    );
                assert(self.linked(x, n) && m[x as int].unwrap() > 0 && m[n as int] == Some(
                    (m[x as int].unwrap() - 1) as usize,
                ));
            }
        }
        assert forall|a: Cell, b: Cell| #[trigger]
            self.linked(a, b) && m[a as int] is Some && m[b as int] is Some implies m[b as int].unwrap()
            + 1 >= m[a as int].unwrap() by {
            assert(self.has_cell(a) && self.has_cell(b));
            if a == d && b != d {
                assert(self.linked(b, a));
                assert(l[b as int] is Some);
                if l[b as int].unwrap() < k {
                    assert(l[a as int] is Some);
                }
            } else if a != d && b == d {
                assert(l[a as int] is Some);
                assert(l[a as int].unwrap() <= k + 1);
            } else if a != d && b != d {
                assert(l[a as int] is Some && l[b as int] is Some);
            }
        }
        assert forall|a: Cell, b: Cell| #[trigger]
            self.linked(a, b) && m[a as int] is Some && m[a as int].unwrap() < k implies m[b as int] is Some by {
            assert(self.has_cell(a) && self.has_cell(b));
            assert(a != d);
            assert(l[a as int] is Some);
        }
        assert forall|c: Cell|
            self.has_cell(c) && (#[trigger] m[c as int]) is Some implies m[c as int].unwrap() <= k
            + 1 by {
            if c != d {
                assert(l[c as int] is Some);
            }
        }
        assert(m[start as int] == Some(0usize));
    }

    /// When every cell of the last layer has all its linked cells labeled and no
    /// cell has a higher label, the labeling is complete.
    proof fn lemma_labeling_done(&self, start: Cell, l: Seq<Option<usize>>, k: nat)
        requires
            self.wf(),
            self.has_cell(start),
            self.labeling_upto(start, l, k, k),
            forall|c: Cell| self.has_cell(c) ==> #[trigger] l[c as int] != Some(k as usize),
        ensures
            self.is_labeling(start, l),
    {
        self.lemma_wf();
        assert forall|c: Cell|
            self.has_cell(c) && c != start && l[c as int] is Some implies #[trigger] self.label_fits(
            l,
            c,
        ) by {
            assert(self.has_pred(l, c));
            let d = l[c as int].unwrap();
            let n = choose|n: Cell| #[trigger]
                self.linked(c, n) && l[c as int].unwrap() > 0 && l[n as int] == Some(
                    (l[c as int].unwrap() - 1) as usize,
                );
            assert(self.linked(c, n) && l[n as int] == Some((d - 1) as usize));
            assert forall|n: Cell| #[trigger] self.linked(c, n) implies l[n as int] is Some
                && l[n as int].unwrap() + 1 >= d by {
                assert(l[c as int] != Some(k as usize));
            }
        }
        assert forall|a: Cell, b: Cell| #[trigger]
            self.linked(a, b) && l[a as int] is Some implies l[b as int] is Some by {
            assert(l[a as int] != Some(k as usize));
        }
    }

    /// Computes the distance from the cell to each other cell, breadth first over
    /// the links. The result has one entry per cell; a cell that no walk reaches
    /// has `None`.
    pub fn distances(&self, cell: Cell) -> (dists: Vec<Option<usize>>)
        requires
            self.wf(),
            self.has_cell(cell),
        ensures
            dists@.len() == self.size(),
            self.is_labeling(cell, dists@),
            self.is_distance_map(cell, dists@),
    {
        let n = self.num_cells();
        let mut dists: Vec<Option<usize>> = Vec::with_capacity(n);
        let mut k: usize = 0;
        while k < n
            invariant
                k <= n,
                dists@.len() == k,
                forall|c: int| 0 <= c < k ==> (#[trigger] dists@[c]) is None,
            decreases n - k,
        {
            dists.push(None);
            k += 1;
        }
        proof {
            lemma_unlabeled_update(dists@, cell as int, 0);
            lemma_unlabeled_finite(dists@);
        }
        dists[cell] = Some(0);
        let mut frontier: Vec<Cell> = Vec::new();
        frontier.push(cell);
        let ghost mut level: nat = 0;
        proof {
            self.lemma_wf();
            assert(frontier@[0] == cell);
        }

        while frontier.len() > 0
            invariant
                self.wf(),
                self.has_cell(cell),
                n == self.size(),
                self.labeling_upto(cell, dists@, level, level),
                forall|f: int|
                    0 <= f < frontier@.len() ==> self.has_cell(#[trigger] frontier@[f])
                        && dists@[frontier@[f] as int] == Some(level as usize),
                forall|c: Cell|
                    self.has_cell(c) && #[trigger] dists@[c as int] == Some(level as usize)
                        ==> frontier@.contains(c),
                level + unlabeled(dists@).len() + (if frontier@.len() > 0 {
                    1int
                } else {
                    0int
                }) <= n,
            decreases unlabeled(dists@).len() + frontier@.len(),
        {
            let mut new_frontier: Vec<Cell> = Vec::new();
            let ghost before = unlabeled(dists@).len();
            let mut f: usize = 0;
            while f < frontier.len()
                invariant
                    self.wf(),
                    self.has_cell(cell),
                    n == self.size(),
                    f <= frontier@.len(),
                    self.labeling_upto(cell, dists@, level + 1, level),
                    forall|f: int|
                        0 <= f < frontier@.len() ==> self.has_cell(#[trigger] frontier@[f])
                            && dists@[frontier@[f] as int] == Some(level as usize),
                    forall|c: Cell|
                        self.has_cell(c) && #[trigger] dists@[c as int] == Some(level as usize)
                            ==> frontier@.contains(c),
                    forall|f: int|
                        0 <= f < new_frontier@.len() ==> self.has_cell(#[trigger] new_frontier@[f])
                            && dists@[new_frontier@[f] as int] == Some((level + 1) as usize),
                    forall|c: Cell|
                        self.has_cell(c) && #[trigger] dists@[c as int] == Some(
                            (level + 1) as usize,
                        ) ==> new_frontier@.contains(c),
                    forall|g: int, b: Cell|
                        0 <= g < f && #[trigger] self.linked(frontier@[g], b)
                            ==> dists@[b as int] is Some,
                    unlabeled(dists@).len() + new_frontier@.len() == before,
                    level + 1 + before <= n,
                decreases frontier@.len() - f,
            {
                let c = frontier[f];
                let links = self.links(c);
                let mut m: usize = 0;
                while m < links.len()
                    invariant
                        self.wf(),
                        self.has_cell(cell),
                        n == self.size(),
                        f < frontier@.len(),
                        c == frontier@[f as int],
                        links@ == self.link_list(c),
                        m <= links@.len(),
                        self.labeling_upto(cell, dists@, level + 1, level),
                        forall|f: int|
                            0 <= f < frontier@.len() ==> self.has_cell(#[trigger] frontier@[f])
                                && dists@[frontier@[f] as int] == Some(level as usize),
                        forall|c: Cell|
                            self.has_cell(c) && #[trigger] dists@[c as int] == Some(level as usize)
                                ==> frontier@.contains(c),
                        forall|f: int|
                            0 <= f < new_frontier@.len() ==> self.has_cell(
                                #[trigger] new_frontier@[f],
                            ) && dists@[new_frontier@[f] as int] == Some((level + 1) as usize),
                        forall|c: Cell|
                            self.has_cell(c) && #[trigger] dists@[c as int] == Some(
                                (level + 1) as usize,
                            ) ==> new_frontier@.contains(c),
                        forall|g: int, b: Cell|
                            0 <= g < f && #[trigger] self.linked(frontier@[g], b)
                                ==> dists@[b as int] is Some,
                        forall|j: int| 0 <= j < m ==> dists@[#[trigger] links@[j] as int] is Some,
                        unlabeled(dists@).len() + new_frontier@.len() == before,
                        level + 1 + before <= n,
                    decreases links@.len() - m,
                {
                    let d = links[m];
                    let ghost entry_dists = dists@;
                    proof {
                        self.lemma_wf();
                        assert(links@.contains(d));
                        assert(self.linked(c, d));
                        assert(self.has_cell(d));
                    }
                    if dists[d].is_none() {
                        let ghost old_dists = dists@;
                        let ghost old_new = new_frontier@;
                        proof {
                            lemma_unlabeled_update(dists@, d as int, (level + 1) as usize);
                            self.lemma_label_next(cell, dists@, level, c, d);
                        }
                        let next = match dists[c] {
                            Some(dc) => dc + 1,
                            None => 0,
                        };
                        dists[d] = Some(next);
                        new_frontier.push(d);
                        proof {
                            assert(dists@ == old_dists.update(d as int, Some((level + 1) as usize)));
                            assert(new_frontier@[old_new.len() as int] == d);
                            assert forall|x: Cell|
                                self.has_cell(x) && #[trigger] dists@[x as int] == Some(
                                    (level + 1) as usize,
                                ) implies new_frontier@.contains(x) by {
                                if x != d {
                                    assert(old_dists[x as int] == Some((level + 1) as usize));
                                    assert(old_new.contains(x));
                                    let g = choose|g: int| 0 <= g < old_new.len() && old_new[g] == x;
                                    assert(new_frontier@[g] == x);
                                }
                            }
                            assert forall|g: int|
                                0 <= g < frontier@.len() implies dists@[#[trigger] frontier@[g] as int]
                                == Some(level as usize) by {
                                assert(old_dists[frontier@[g] as int] == Some(level as usize));
                            }
                            assert forall|g: int|
                                0 <= g < new_frontier@.len() implies self.has_cell(
                                #[trigger] new_frontier@[g],
                            ) && dists@[new_frontier@[g] as int] == Some((level + 1) as usize) by {
                                if g < old_new.len() {
                                    assert(old_new[g] == new_frontier@[g]);
                                    assert(old_dists[old_new[g] as int] == Some(
                                        (level + 1) as usize,
                                    ));
                                }
                            }
                        }
                    }
                    proof {
                        assert forall|j: int| 0 <= j < m + 1 implies dists@[#[trigger] links@[j] as int] is Some by {
                            assert(links@.contains(links@[j]));
                            assert(self.linked(c, links@[j]));
                            if j < m {
                                assert(entry_dists[links@[j] as int] is Some);
                            }
                        }
                    }
                    m += 1;
                }
                proof {
                    self.lemma_wf();
                    assert forall|g: int, b: Cell|
                        0 <= g < f + 1 && #[trigger] self.linked(
                            frontier@[g],
                            b,
                        ) implies dists@[b as int] is Some by {
                        if g == f {
                            let j = choose|j: int| 0 <= j < links@.len() && links@[j] == b;
                            assert(dists@[links@[j] as int] is Some);
                        }
                    }
                }
                f += 1;
            }
            proof {
                self.lemma_wf();
                assert forall|a: Cell, b: Cell| #[trigger]
                    self.linked(a, b) && dists@[a as int] is Some && dists@[a as int].unwrap()
                        < level + 1 implies dists@[b as int] is Some by {
                    if dists@[a as int].unwrap() == level {
                        assert(frontier@.contains(a));
                        let g = choose|g: int| 0 <= g < frontier@.len() && frontier@[g] == a;
                        assert(self.linked(frontier@[g], b));
                    }
                }
                level = level + 1;
                lemma_unlabeled_finite(dists@);
            }
            frontier = new_frontier;
        }
        proof {
            assert forall|c: Cell| self.has_cell(c) implies #[trigger] dists@[c as int] != Some(
                level as usize,
            ) by {
                if dists@[c as int] == Some(level as usize) {
                    assert(frontier@.contains(c));
                }
            }
            self.lemma_labeling_done(cell, dists@, level);
            self.lemma_labeling_is_distance_map(cell, dists@);
        }
        dists
    }

    /// Whether `to` is the `k`-th cell that `from` is linked to, `from` lies `d`
    /// links from `start`, `to` lies one link nearer, and no cell that `from` was
    /// linked to earlier does.
    pub open spec fn step_back_at(&self, start: Cell, from: Cell, to: Cell, d: nat, k: int) -> bool {
        &&& d > 0
        &&& self.distance_is(start, from, d)
        &&& 0 <= k < self.link_list(from).len()
        &&& self.link_list(from)[k] == to
        &&& self.distance_is(start, to, (d - 1) as nat)
        &&& forall|j: int|
            0 <= j < k ==> !self.distance_is(
                start,
                #[trigger] self.link_list(from)[j],
                (d - 1) as nat,
            )
    }

    /// Whether `to` is the step back from `from` toward `start`: the first of the
    /// cells linked to `from`, in the order the links were made, that lies one
    /// link nearer to `start`.
    pub open spec fn is_step_back(&self, start: Cell, from: Cell, to: Cell) -> bool {
        exists|d: nat, k: int| #[trigger] self.step_back_at(start, from, to, d, k)
    }

    /// A cell has at most one distance from another.
    pub proof fn lemma_distance_unique(&self, a: Cell, b: Cell, d: nat, e: nat)
        requires
            self.distance_is(a, b, d),
            self.distance_is(a, b, e),
        ensures
            d == e,
    {
        if d < e {
            assert(!self.walk_of_length(a, b, d));
        }
        if e < d {
            assert(!self.walk_of_length(a, b, e));
        }
    }

    /// A distance map gives a cell the label `d` exactly when `d` is its distance.
    pub proof fn lemma_distance_map_label(
        &self,
        start: Cell,
        l: Seq<Option<usize>>,
        c: Cell,
        d: nat,
    )
        requires
            self.is_distance_map(start, l),
            self.has_cell(c),
        ensures
            self.distance_is(start, c, d) <==> (l[c as int] is Some && l[c as int].unwrap() == d),
    {
        match l[c as int] {
            Some(e) => {
                assert(self.distance_is(start, c, e as nat));
                if self.distance_is(start, c, d) {
                    self.lemma_distance_unique(start, c, d, e as nat);
                }
            },
            None => {
                if self.distance_is(start, c, d) {
                    let p = choose|p: Seq<Cell>| #[trigger]
                        self.walk_between(p, start, c) && p.len() == d + 1;
                    assert(self.walk_between(p, start, c));
                }
            },
        }
    }

    /// The first cell linked to `from` that is labeled one less than `from` is
    /// the step back from `from`.
    proof fn lemma_found_step_back(
        &self,
        start: Cell,
        l: Seq<Option<usize>>,
        from: Cell,
        to: Cell,
        d: usize,
        m: int,
    )
        requires
            self.wf(),
            self.has_cell(start),
            self.is_labeling(start, l),
            self.has_cell(from),
            d > 0,
            l[from as int] == Some(d),
            0 <= m < self.link_list(from).len(),
            self.link_list(from)[m] == to,
            l[to as int] == Some((d - 1) as usize),
            forall|j: int|
                0 <= j < m ==> l[#[trigger] self.link_list(from)[j] as int] != Some(
                    (d - 1) as usize,
                ),
        ensures
            self.is_step_back(start, from, to),
    {
        self.lemma_wf();
        self.lemma_labeling_is_distance_map(start, l);
        assert(self.link_list(from).contains(to));
        assert(self.linked(from, to));
        self.lemma_distance_map_label(start, l, from, d as nat);
        self.lemma_distance_map_label(start, l, to, (d - 1) as nat);
        assert forall|j: int| 0 <= j < m implies !self.distance_is(
            start,
            #[trigger] self.link_list(from)[j],
            (d - 1) as nat,
        ) by {
            let x = self.link_list(from)[j];
            assert(self.link_list(from).contains(x));
            assert(self.linked(from, x));
            self.lemma_distance_map_label(start, l, x, (d - 1) as nat);
        }
        assert(self.step_back_at(start, from, to, d as nat, m));
    }

    /// A shortest path has as many links as the distance map says the goal is
    /// away, and is empty where the map has no distance for the goal.
    pub proof fn lemma_shortest_path_length(
        &self,
        start: Cell,
        goal: Cell,
        dists: Seq<Option<usize>>,
        path: Seq<Cell>,
    )
        requires
            self.has_cell(goal),
            self.is_distance_map(start, dists),
            self.reachable(start, goal) ==> self.walk_between(path, start, goal)
                && self.distance_is(start, goal, (path.len() - 1) as nat),
            !self.reachable(start, goal) ==> path.len() == 0,
        ensures
            match dists[goal as int] {
                Some(d) => path.len() == d + 1,
                None => path.len() == 0,
            },
    {
        match dists[goal as int] {
            Some(d) => {
                assert(self.distance_is(start, goal, d as nat));
                let p = choose|p: Seq<Cell>| #[trigger]
                    self.walk_between(p, start, goal) && p.len() == d as nat + 1;
                assert(self.walk_between(p, start, goal));
                self.lemma_distance_unique(start, goal, d as nat, (path.len() - 1) as nat);
            },
            None => {},
        }
    }

    /// Whether `r` is the farthest cell from `start`: its distance is the greatest
    /// that any cell has, and it has the lowest ID among the cells at that distance.
    pub open spec fn is_farthest(&self, start: Cell, r: Cell) -> bool {
        exists|d: nat| #[trigger]
            self.distance_is(start, r, d) && self.has_cell(r) && forall|c: Cell, e: nat|
                self.has_cell(c) && #[trigger] self.distance_is(start, c, e) ==> e <= d && (e == d
                    ==> r <= c)
    }

    /// Computes a shortest path from the first cell to the second, returning the
    /// path as a vector of cells that begins with `start` and ends with `goal`. If
    /// no walk leads from one to the other, the vector is empty.
    pub fn shortest_path(&self, start: Cell, goal: Cell) -> (path: Vec<Cell>)
        requires
            self.wf(),
            self.has_cell(start),
            self.has_cell(goal),
        ensures
            self.reachable(start, goal) ==> self.walk_between(path@, start, goal)
                && self.distance_is(start, goal, (path@.len() - 1) as nat),
            !self.reachable(start, goal) ==> path@.len() == 0,
            forall|k: int|
                0 <= k < path@.len() - 1 ==> self.is_step_back(start, #[trigger] path@[k + 1], path@[k]),
    {
        let dists = self.distances(start);
        let mut path: Vec<Cell> = Vec::new();
        let gdist = match dists[goal] {
            Some(d) => d,
            None => {
                return path;
            },
        };
        let mut current = goal;
        let mut cdist = gdist;
        path.push(current);
        proof {
            self.lemma_wf();
        }
        while current != start
            invariant
                self.wf(),
                self.has_cell(start),
                self.is_labeling(start, dists@),
                self.has_cell(current),
                dists@[current as int] == Some(cdist),
                cdist <= gdist,
                forall|k: int|
                    0 <= k < path@.len() - 1 ==> self.is_step_back(start, #[trigger] path@[k], path@[k + 1]),
                path@.len() == gdist - cdist + 1,
                path@[0] == goal,
                path@[path@.len() - 1] == current,
                forall|k: int| 0 <= k < path@.len() ==> self.has_cell(#[trigger] path@[k]),
                forall|k: int| 0 <= k < path@.len() - 1 ==> self.linked(#[trigger] path@[k + 1], path@[k]),
            decreases cdist,
        {
            let links = self.links(current);
            let mut next: Option<Cell> = None;
            let mut m: usize = 0;
            proof {
                self.lemma_wf();
                assert(self.label_fits(dists@, current));
            }
            while m < links.len() && next.is_none()
                invariant
                    self.wf(),
                    self.is_labeling(start, dists@),
                    self.has_cell(current),
                    current != start,
                    self.label_fits(dists@, current),
                    dists@[current as int] == Some(cdist),
                    links@ == self.link_list(current),
                    m <= links@.len(),
                    forall|j: int|
                        0 <= j < m ==> dists@[#[trigger] links@[j] as int] != Some(
                            (cdist - 1) as usize,
                        ),
                    next is Some ==> m < links@.len() && links@[m as int] == next.unwrap()
                        && self.linked(current, next.unwrap()) && dists@[next.unwrap() as int]
                        == Some((cdist - 1) as usize),
                decreases links@.len() - m + (if next is None { 1int } else { 0int }),
            {
                let neighbor = links[m];
                proof {
                    self.lemma_wf();
                    assert(links@.contains(neighbor));
                    assert(self.linked(current, neighbor));
                }
                let ndist = match dists[neighbor] {
                    Some(d) => d,
                    None => cdist,
                };
                if ndist < cdist {
                    next = Some(neighbor);
                } else {
                    m += 1;
                }
            }
            match next {
                Some(neighbor) => {
                    let ghost old_path = path@;
                    path.push(neighbor);
                    current = neighbor;
                    cdist = cdist - 1;
                    proof {
                        self.lemma_wf();
                        assert forall|k: int| 0 <= k < path@.len() - 1 implies self.linked(
                            #[trigger] path@[k + 1],
                            path@[k],
                        ) by {
                            if k < old_path.len() - 1 {
                                assert(self.linked(old_path[k + 1], old_path[k]));
                            }
                        }
                        let from = old_path[old_path.len() - 1];
                        self.lemma_found_step_back(
                            start,
                            dists@,
                            from,
                            neighbor,
                            (cdist + 1) as usize,
                            m as int,
                        );
                        assert forall|k: int| 0 <= k < path@.len() - 1 implies self.is_step_back(
                            start,
                            #[trigger] path@[k],
                            path@[k + 1],
                        ) by {
                            if k < old_path.len() - 1 {
                                assert(self.is_step_back(start, old_path[k], old_path[k + 1]));
                            }
                        }
                    }
                },
                None => {
                    proof {
                        let n = choose|n: Cell| #[trigger]
                            self.linked(current, n) && dists@[n as int] == Some(
                                (cdist - 1) as usize,
                            );
                        let j = choose|j: int| 0 <= j < links@.len() && links@[j] == n;
                        assert(dists@[links@[j] as int] != Some((cdist - 1) as usize));
                    }
                    path.clear();
                    return path;
                },
            }
        }
        let ghost back = path@;
        let path = reversed(path);
        proof {
            self.lemma_wf();
            assert(self.walk_between(back.reverse(), start, goal)) by {
                let q = back.reverse();
                assert forall|k: int| 0 <= k < q.len() - 1 implies self.linked(
                    #[trigger] q[k],
                    q[k + 1],
                ) by {
                    let i = back.len() - 2 - k;
                    assert(self.linked(back[i + 1], back[i]));
                }
                assert forall|k: int| 0 <= k < q.len() implies self.has_cell(#[trigger] q[k]) by {
                    assert(self.has_cell(back[back.len() - 1 - k]));
                }
            }
            assert(dists@[goal as int] == Some(gdist));
            assert(self.distance_is(start, goal, gdist as nat));
            assert forall|k: int| 0 <= k < path@.len() - 1 implies self.is_step_back(
                start,
                #[trigger] path@[k + 1],
                path@[k],
            ) by {
                let i = back.len() - 2 - k;
                assert(self.is_step_back(start, back[i], back[i + 1]));
            }
        }
        path
    }

    /// Returns the farthest cell from the given cell: the one with the greatest
    /// distance and, among those, the lowest ID.
    pub fn farthest(&self, start: Cell) -> (r: Cell)
        requires
            self.wf(),
            self.has_cell(start),
        ensures
            self.has_cell(r),
            self.is_farthest(start, r),
    {
        let dists = self.distances(start);
        let mut max: usize = 0;
        let mut argmax: Cell = start;
        let n = self.num_cells();
        let mut c: usize = 0;
        while c < n
            invariant
                self.wf(),
                self.has_cell(start),
                n == self.size(),
                c <= n,
                self.is_labeling(start, dists@),
                self.has_cell(argmax),
                dists@[argmax as int] == Some(max),
                max > 0 ==> argmax < c,
                max == 0 ==> argmax == start,
                forall|x: Cell|
                    x < c && (#[trigger] dists@[x as int]) is Some ==> dists@[x as int].unwrap()
                        <= max && (dists@[x as int].unwrap() == max ==> argmax <= x),
            decreases n - c,
        {
            if let Some(dist) = dists[c] {
                if dist > max {
                    max = dist;
                    argmax = c;
                } else if c != start {
                    proof {
                        assert(self.label_fits(dists@, c));
                    }
                }
            }
            c += 1;
        }
        proof {
            assert(self.distance_is(start, argmax, max as nat));
            assert forall|x: Cell, e: nat|
                self.has_cell(x) && #[trigger] self.distance_is(start, x, e) implies e <= max && (e
                == max ==> argmax <= x) by {
                match dists@[x as int] {
                    Some(d) => {
                        assert(self.distance_is(start, x, d as nat));
                        if e < d {
                            assert(!self.walk_of_length(start, x, e));
                        }
                        if d < e {
                            assert(!self.walk_of_length(start, x, d as nat));
                        }
                    },
                    None => {
                        let p = choose|p: Seq<Cell>| #[trigger]
                            self.walk_between(p, start, x) && p.len() == e + 1;
                        assert(self.walk_between(p, start, x));
                    },
                }
            }
        }
        argmax
    }

    /// Gets the dead-end cells of the grid, in ascending order: the cells that are
    /// linked to exactly one other cell.
    pub fn dead_ends(&self) -> (r: Vec<Cell>)
        requires
            self.wf(),
        ensures
            forall|c: Cell| #[trigger]
                r@.contains(c) ==> self.has_cell(c) && self.link_list(c).len() == 1,
            forall|c: Cell|
                self.has_cell(c) && (#[trigger] self.link_list(c)).len() == 1 ==> r@.contains(c),
            forall|i: int, j: int| 0 <= i < j < r@.len() ==> r@[i] < r@[j],
    {
        let mut r: Vec<Cell> = Vec::new();
        let n = self.num_cells();
        let mut c: usize = 0;
        while c < n
            invariant
                self.wf(),
                n == self.size(),
                c <= n,
                forall|x: Cell| r@.contains(x) <==> x < c && self.link_list(x).len() == 1,
                forall|i: int, j: int| 0 <= i < j < r@.len() ==> r@[i] < r@[j],
                forall|i: int| 0 <= i < r@.len() ==> r@[i] < c,
            decreases n - c,
        {
            if self.links(c).len() == 1 {
                let ghost before = r@;
                r.push(c);
                proof {
                    assert(r@[before.len() as int] == c);
                    assert forall|x: Cell| r@.contains(x) <==> x < c + 1 && self.link_list(
                        x,
                    ).len() == 1 by {
                        if before.contains(x) {
                            let k = choose|k: int| 0 <= k < before.len() && before[k] == x;
                            assert(r@[k] == x);
                        }
                        if r@.contains(x) {
                            let k = choose|k: int| 0 <= k < r@.len() && r@[k] == x;
                            if k < before.len() {
                                assert(before[k] == x);
                            }
                        }
                    }
                }
            }
            c += 1;
        }
        r
    }

    /// Returns a longest path through the maze: from the cell farthest from cell 0,
    /// a shortest path to the cell farthest from that one. The path is a longest
    /// one where the links form a tree.
    pub fn longest_path(&self) -> (path: Vec<Cell>)
        requires
            self.wf(),
            self.has_cell(0),
        ensures
            exists|start: Cell, end: Cell| #[trigger]
                self.is_farthest(end, start) && self.is_farthest(0, end) && self.walk_between(
                    path@,
                    start,
                    end,
                ) && self.distance_is(start, end, (path@.len() - 1) as nat),
    {
        let end = self.farthest(0);
        let start = self.farthest(end);
        proof {
            let d = choose|d: nat| #[trigger]
                self.distance_is(end, start, d) && self.has_cell(start) && forall|c: Cell, e: nat|
                    self.has_cell(c) && #[trigger] self.distance_is(end, c, e) ==> e <= d && (e == d
                        ==> start <= c);
            let p = choose|p: Seq<Cell>| #[trigger]
                self.walk_between(p, end, start) && p.len() == d + 1;
            assert(self.reachable(end, start));
            self.lemma_reachable_symmetric(end, start);
        }
        let path = self.shortest_path(start, end);
        proof {
            assert(self.is_farthest(end, start) && self.is_farthest(0, end) && self.walk_between(
                path@,
                start,
                end,
            ) && self.distance_is(start, end, (path@.len() - 1) as nat));
        }
        path
    }
}

/// Returns the cells of `v` in the opposite order.
fn reversed(v: Vec<Cell>) -> (r: Vec<Cell>)
    ensures
        r@ == v@.reverse(),
{
    let mut r: Vec<Cell> = Vec::with_capacity(v.len());
    let mut k: usize = v.len();
    while k > 0
        invariant
            k <= v@.len(),
            r@.len() == v@.len() - k,
            forall|i: int| 0 <= i < r@.len() ==> r@[i] == v@[v@.len() - 1 - i],
        decreases k,
    {
        k -= 1;
        r.push(v[k]);
    }
    proof {
        assert(r@ =~= v@.reverse());
    }
    r
}

} // verus!
