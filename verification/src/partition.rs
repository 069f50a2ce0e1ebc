//! Enumeration of candidate measurement steps: the nonempty subsets of the
//! measurable front, larger subsets first so that the search descends toward
//! the time-optimal schedule before exploring the rest.
//!
//! A deliberate design decision: a node postponed by one step stays plainly
//! measurable, and every nonempty subset of the whole front is offered at
//! every node.  A narrower enumeration that forces postponed nodes into the
//! very next step keeps the tree smaller but cannot reach schedules that
//! pick such a node up later — with two independent two-node chains, the
//! cheapest full-length schedule interleaves the chains and re-postpones a
//! node, so the narrower rule would miss a frontier point.  This library
//! commits to the wider enumeration and pays for it in tree size.

use vstd::prelude::*;

verus! {

/// A combination: strictly increasing positions below `k`.
pub open spec fn combo_wf(combo: Seq<usize>, k: nat) -> bool {
    &&& forall|i: int| 0 <= i < combo.len() ==> (#[trigger] combo[i]) < k
    &&& forall|i: int| 0 <= i && i + 1 < combo.len() ==> #[trigger] combo[i] < combo[i + 1]
}

/// The first combination of `c` positions: `0, 1, ..., c - 1`.
pub open spec fn first_combo(c: nat) -> Seq<usize> {
    Seq::new(c, |i: int| i as usize)
}

/// The elements of `set` selected by the positions of `combo`.
pub open spec fn elems_of(set: Seq<usize>, combo: Seq<usize>) -> Seq<usize> {
    Seq::new(combo.len(), |i: int| set[combo[i] as int])
}

/// The rightmost position at or below `i` whose index can still grow, or -1.
pub open spec fn bump_pos(combo: Seq<usize>, k: int, i: int) -> int
    decreases i + 1,
{
    if i < 0 {
        -1
    } else if combo[i] < k - combo.len() + i {
        i
    } else {
        bump_pos(combo, k, i - 1)
    }
}

/// The lexicographic successor of `combo` among the combinations of the same
/// size, if any.
pub open spec fn next_combo(combo: Seq<usize>, k: int) -> Option<Seq<usize>> {
    let c = combo.len() as int;
    let p = bump_pos(combo, k, c - 1);
    if p < 0 {
        None
    } else {
        Some(
            Seq::new(
                combo.len(),
                |i: int|
                    if i < p {
                        combo[i]
                    } else {
                        (combo[p] + 1 + (i - p)) as usize
                    },
            ),
        )
    }
}

/// The combination that follows `combo`: its same-size successor, else the
/// first combination one size down, else nothing.
pub open spec fn advance_combo(combo: Seq<usize>, k: int) -> Option<Seq<usize>> {
    match next_combo(combo, k) {
        Some(nc) => Some(nc),
        None => if combo.len() > 1 {
            Some(first_combo((combo.len() - 1) as nat))
        } else {
            None
        },
    }
}

/// The same-size successor exists and is a combination whenever some
/// position can still grow.
pub proof fn lemma_next_combo_wf(combo: Seq<usize>, k: int, p: int)
    requires
        combo_wf(combo, k as nat),
        0 <= k <= usize::MAX,
        1 <= combo.len() <= k,
        0 <= p < combo.len(),
        bump_pos(combo, k, combo.len() as int - 1) == p,
        combo[p] + combo.len() - p < k,
    ensures
        next_combo(combo, k) is Some,
        next_combo(combo, k).unwrap().len() == combo.len(),
        combo_wf(next_combo(combo, k).unwrap(), k as nat),
        forall|q: int| 0 <= q < p ==> next_combo(combo, k).unwrap()[q] == combo[q],
        forall|q: int|
            p <= q < combo.len() ==> next_combo(combo, k).unwrap()[q] == combo[p] + 1 + (q - p),
{
    let c = combo.len() as int;
    let nc = next_combo(combo, k).unwrap();
    assert forall|q: int| p <= q < c implies nc[q] == combo[p] + 1 + (q - p) by {
        assert(combo[p] + 1 + (q - p) <= combo[p] + (c - p));
        assert(combo[p] + 1 + (q - p) <= k);
    }
    assert forall|q: int| 0 <= q < c implies (#[trigger] nc[q]) < k by {
        if q >= p {
            assert(nc[q] == combo[p] + 1 + (q - p));
            assert(combo[p] + 1 + (q - p) <= combo[p] + (c - p));
        } else {
            assert(nc[q] == combo[q]);
        }
    }
    assert forall|q: int| 0 <= q && q + 1 < c implies #[trigger] nc[q] < nc[q + 1] by {
        if q + 1 < p {
            assert(nc[q] == combo[q] && nc[q + 1] == combo[q + 1]);
        } else if q + 1 == p {
            assert(nc[q] == combo[q]);
            assert(combo[q] < combo[p]);
            assert(nc[q + 1] == combo[p] + 1);
        } else {
            assert(q >= p);
            assert(nc[q + 1] == combo[p] + 1 + (q + 1 - p));
            assert(nc[q] == combo[p] + 1 + (q - p));
        }
    }
}


/// The full relation of one `next` call: how the cursor moves and what is
/// produced, for every starting state.
pub open spec fn next_rel(pre: Partition, post: Partition, r: Option<Seq<usize>>) -> bool {
    &&& post.set@ == pre.set@
    &&& (pre.exhausted ==> r is None && post == pre)
    &&& (!pre.started && pre.set@.len() == 0 ==> r is None && post.started && post.exhausted)
    &&& (!pre.started && pre.set@.len() > 0 ==> post.started && !post.exhausted && post.combo@
        == first_combo(pre.set@.len()) && r == Some(elems_of(pre.set@, post.combo@)))
    &&& (pre.started && !pre.exhausted ==> match advance_combo(
        pre.combo@,
        pre.set@.len() as int,
    ) {
        Some(nc) => post.combo@ == nc && post.started && !post.exhausted && r == Some(
            elems_of(pre.set@, nc),
        ),
        None => post.started && post.exhausted && r is None,
    })
}

/// A lazy, restartable enumeration of the nonempty subsets of `set`, by
/// decreasing size and lexicographic position order within each size.
#[derive(Debug)]
pub struct Partition {
    /// The underlying set, fixed at creation.
    pub set: Vec<usize>,
    /// The positions of the current subset.
    pub combo: Vec<usize>,
    /// Whether a first subset was produced.
    pub started: bool,
    /// Whether the enumeration is over.
    pub exhausted: bool,
}

impl Partition {
    /// The enumeration yields nothing more: it is exhausted, was started on
    /// an empty set, or has no combination after the current one.
    pub open spec fn done(self) -> bool {
        ||| self.exhausted
        ||| !self.started && self.set@.len() == 0
        ||| self.started && advance_combo(self.combo@, self.set@.len() as int) is None
    }

    /// Structural invariant.
    pub open spec fn wf(self) -> bool {
        &&& (self.exhausted ==> self.started)
        &&& (self.started && !self.exhausted ==> {
            &&& combo_wf(self.combo@, self.set@.len())
            &&& 1 <= self.combo@.len() <= self.set@.len()
        })
    }

    /// A fresh enumeration over `set`.
    pub fn new(set: Vec<usize>) -> (r: Partition)
        ensures
            r.wf(),
            r.set@ == set@,
            !r.started,
            !r.exhausted,
    {
        Partition { set, combo: Vec::new(), started: false, exhausted: false }
    }

    /// A fresh enumeration over a copy of the same set.
    pub fn duplicate(&self) -> (r: Partition)
        ensures
            r.set@ == self.set@,
            r.combo@ == self.combo@,
            r.started == self.started,
            r.exhausted == self.exhausted,
    {
        Partition {
            set: crate::space::clone_usize_vec(&self.set),
            combo: crate::space::clone_usize_vec(&self.combo),
            started: self.started,
            exhausted: self.exhausted,
        }
    }

    /// The current subset, as elements of `set`.
    fn elems(&self) -> (r: Vec<usize>)
        requires
            combo_wf(self.combo@, self.set@.len()),
        ensures
            r@ == elems_of(self.set@, self.combo@),
    {
        let c = self.combo.len();
        let mut r: Vec<usize> = Vec::new();
        let mut i: usize = 0;
        while i < c
            invariant
                i <= c,
                c == self.combo@.len(),
                combo_wf(self.combo@, self.set@.len()),
                r@ =~= elems_of(self.set@, self.combo@).take(i as int),
            decreases c - i,
        {
            r.push(self.set[self.combo[i]]);
            i += 1;
        }
        proof {
            assert(elems_of(self.set@, self.combo@).take(c as int) =~= elems_of(
                self.set@,
                self.combo@,
            ));
        }
        r
    }

    /// Produces the next subset of the enumeration: all of `set` first, then
    /// each size from large to small in lexicographic position order, and
    /// `None` once every nonempty subset has been produced.
    #[verifier::rlimit(60)]
    pub fn next(&mut self) -> (r: Option<Vec<usize>>)
        requires
            old(self).wf(),
        ensures
            final(self).wf(),
            final(self).set@ == old(self).set@,
            old(self).exhausted ==> r is None && *final(self) == *old(self),
            !old(self).started && old(self).set@.len() == 0 ==> r is None && final(self).exhausted,
            !old(self).started && old(self).set@.len() > 0 ==> final(self).started
                && !final(self).exhausted && final(self).combo@ == first_combo(old(self).set@.len())
                && (r matches Some(s) && s@ == elems_of(old(self).set@, final(self).combo@)),
            old(self).started && !old(self).exhausted ==> match advance_combo(
                old(self).combo@,
                old(self).set@.len() as int,
            ) {
                Some(nc) => final(self).combo@ == nc && !final(self).exhausted && (r matches Some(s)
                    && s@ == elems_of(old(self).set@, nc)),
                None => final(self).exhausted && r is None,
            },
            r matches Some(s) ==> s@ == elems_of(old(self).set@, final(self).combo@) && combo_wf(
                final(self).combo@,
                old(self).set@.len(),
            ) && 1 <= final(self).combo@.len() <= old(self).set@.len(),
            r is None <==> old(self).done(),
            r matches Some(s) ==> next_rel(*old(self), *final(self), Some(s@)),
            r is None ==> next_rel(*old(self), *final(self), None::<Seq<usize>>),
    {
        if self.exhausted {
            return None;
        }
        if !self.started {
            self.started = true;
            let k = self.set.len();
            if k == 0 {
                self.exhausted = true;
                return None;
            }
            let mut combo: Vec<usize> = Vec::new();
            let mut i: usize = 0;
            while i < k
                invariant
                    i <= k,
                    combo@ =~= first_combo(i as nat),
                decreases k - i,
            {
                combo.push(i);
                proof {
                    assert(combo@ =~= first_combo(i as nat + 1));
                }
                i += 1;
            }
            self.combo = combo;
            let s = self.elems();
            return Some(s);
        }
        let k = self.set.len();
        let c = self.combo.len();
        let ghost combo0 = self.combo@;
        let mut i: usize = c;
        while i > 0
            invariant_except_break
                i <= c,
                c == combo0.len(),
                combo0 == self.combo@,
                k == self.set@.len(),
                combo_wf(combo0, k as nat),
                1 <= c <= k,
                bump_pos(combo0, k as int, c as int - 1) == bump_pos(combo0, k as int, i as int - 1),
            ensures
                combo0 == self.combo@,
                c == combo0.len(),
                k == self.set@.len(),
                combo_wf(combo0, k as nat),
                1 <= c <= k,
                i <= c,
                i == 0 && bump_pos(combo0, k as int, c as int - 1) < 0 || i > 0 && bump_pos(
                    combo0,
                    k as int,
                    c as int - 1,
                ) == i - 1 && combo0[i - 1] + c - i + 1 < k,
            decreases i,
        {
            if self.combo[i - 1] < k - c + (i - 1) {
                proof {
                    assert(bump_pos(combo0, k as int, i as int - 1) == i - 1);
                }
                break ;
            }
            i -= 1;
        }
        if i > 0 {
            let p = i - 1;
            proof {
                lemma_next_combo_wf(combo0, k as int, p as int);
            }
            let base = self.combo[p];
            let ghost nc = next_combo(combo0, k as int).unwrap();
            let mut j: usize = p;
            while j < c
                invariant
                    p <= j <= c,
                    k == self.set@.len(),
                    self.set@ == old(self).set@,
                    self.started,
                    !self.exhausted,
                    1 <= c <= k,
                    c == self.combo@.len(),
                    c == combo0.len(),
                    p == i - 1 < c,
                    base == combo0[p as int],
                    base + c - p <= k,
                    nc == next_combo(combo0, k as int).unwrap(),
                    nc.len() == c,
                    forall|q: int| 0 <= q < p ==> self.combo@[q] == combo0[q],
                    forall|q: int| p <= q < j ==> self.combo@[q] == nc[q],
                    forall|q: int| j <= q < c ==> self.combo@[q] == combo0[q],
                    forall|q: int| 0 <= q < p ==> nc[q] == combo0[q],
                    forall|q: int| p <= q < c ==> nc[q] == base + 1 + (q - p),
                decreases c - j,
            {
                self.combo.set(j, base + 1 + (j - p));
                j += 1;
            }
            proof {
                assert(self.combo@ =~= nc);
            }
            let s = self.elems();
            Some(s)
        } else if c > 1 {
            let mut combo: Vec<usize> = Vec::new();
            let cm = c - 1;
            let mut q: usize = 0;
            while q < cm
                invariant
                    q <= cm,
                    combo@ =~= first_combo(q as nat),
                decreases cm - q,
            {
                combo.push(q);
                proof {
                    assert(combo@ =~= first_combo(q as nat + 1));
                }
                q += 1;
            }
            self.combo = combo;
            proof {
                assert(advance_combo(combo0, k as int) == Some(first_combo((c - 1) as nat)));
            }
            let s = self.elems();
            Some(s)
        } else {
            self.exhausted = true;
            proof {
                assert(advance_combo(combo0, k as int) is None);
            }
            None
        }
    }
}

} // verus!
