//! Commands that reshape the container tree: flattening a split or stack
//! container into its parent, detaching a container, wrapping tiling
//! containers in a stack, and moving focus up to an ancestor.
//!
//! Tiling sizes are fractions kept by the layout; every command records the
//! size work it leaves to the layout as a `SizeEffect`.

use vstd::prelude::*;
use super::{
    child_ids, children_unique, child_links, focus_index_in_parent, focus_matches, focus_orders,
    fresh_choice, ids_unique, index_in_parent, kinds_fit, nearest_direction, parent_links, same_identity,
    tree_wf, ContainerKind, ContainerNode, ContainerTree, GapsConfig, TilingDirection, TreeError,
};
use crate::ids::new_container_id;
use crate::seq_util::{
    move_to_front, position_u128, keep_u128, push_prefix, push_without_u128, push_without_usize, without, lemma_concat_no_dup, lemma_filter_contains_iff, lemma_filter_no_dup,
    lemma_same_members_multiset, lemma_take_skip_disjoint, copy_vec, lemma_index_of_unique, lemma_splice_contains, lemma_splice_map,
    lemma_splice_multiset, lemma_splice_no_dup, splice, splice_vec,
};

verus! {

broadcast use vstd::seq_lib::group_to_multiset_ensures;

/// Size work left to the layout, which holds each tiling container's size
/// as a fraction of its parent.
pub enum SizeEffect {
    /// Each tiling container among `children` takes the size of `from`
    /// times its own size, or, when `evenly`, the size of `from` divided by
    /// the number of `children`.
    Inherit { from: usize, children: Vec<usize>, evenly: bool },
    /// The children of `stack` are resized for their number.
    ResizeStack { stack: usize },
    /// The space that `removed` held is shared out among `siblings` in
    /// proportion to what each holds above the minimum size.
    Redistribute { removed: usize, siblings: Vec<usize> },
    /// `target` is resized to fill its parent.
    Fill { target: usize },
    /// `stack` takes the summed size of `children`, then its children are
    /// resized as for `ResizeStack`.
    Wrap { stack: usize, children: Vec<usize> },
}

/// `w` is `o` after `s` is flattened into its parent: the children of `s`
/// take the place of `s` among the parent's children, the focus order of
/// `s` takes the place of its id in the parent's focus order, and `s` is
/// left without parent and children.
pub open spec fn flattened(o: Seq<ContainerNode>, w: Seq<ContainerNode>, s: usize) -> bool {
    let p = o[s as int].parent.unwrap() as int;
    let cs = o[s as int].children@;
    &&& w.len() == o.len()
    &&& forall|x: int| 0 <= x < o.len() ==> #[trigger] same_identity(o[x], w[x])
    &&& forall|x: int|
        0 <= x < o.len() ==> #[trigger] w[x].parent == if x == s as int {
            None
        } else if cs.contains(x as usize) {
            Some(p as usize)
        } else {
            o[x].parent
        }
    &&& forall|x: int|
        0 <= x < o.len() ==> #[trigger] w[x].children@ == if x == p {
            splice(o[p].children@, index_in_parent(o, s as int), cs)
        } else if x == s as int {
            Seq::<usize>::empty()
        } else {
            o[x].children@
        }
    &&& forall|x: int|
        0 <= x < o.len() ==> #[trigger] w[x].child_focus_order@ == if x == p {
            splice(
                o[p].child_focus_order@,
                focus_index_in_parent(o, s as int),
                o[s as int].child_focus_order@,
            )
        } else {
            o[x].child_focus_order@
        }
}

/// Flattening keeps a tree well formed.
#[verifier::spinoff_prover]
#[verifier::rlimit(50)]
pub proof fn lemma_flattened_wf(o: Seq<ContainerNode>, w: Seq<ContainerNode>, su: usize)
    requires
        tree_wf(o),
        o.len() <= usize::MAX,
        su < o.len(),
        o[su as int].parent is Some,
        o[su as int].parent.unwrap() != su,
        o[su as int].kind.tiling(),
        flattened(o, w, su),
    ensures
        tree_wf(w),
{
    let s = su as int;
    let p = o[s].parent.unwrap() as int;
    let cs = o[s].children@;
    let idx = index_in_parent(o, s);
    let fidx = focus_index_in_parent(o, s);
    assert(o[p].children@.contains(su));
    let ki = choose|k: int| 0 <= k < o[p].children@.len() && o[p].children@[k] == su;
    lemma_index_of_unique(o[p].children@, ki);
    assert(o[p].children@[idx] == s);
    // children of s are not children of p, and s is not its own child
    assert forall|x: usize| cs.contains(x) implies !o[p].children@.contains(x) && x != su && x < o.len()
        && o[x as int].parent == Some(su) by {
        let k = choose|k: int| 0 <= k < cs.len() && cs[k] == x;
        assert(o[s].children@[k] == x);
        if o[p].children@.contains(x) {
            let m = choose|m: int| 0 <= m < o[p].children@.len() && o[p].children@[m] == x;
            assert(o[p].children@[m] == x);
        }
    }
    assert forall|x: int| 0 <= x < o.len() && o[x].parent == Some(su) implies cs.contains(
        x as usize,
    ) by {
        assert(o[x].parent is Some);
    }
    // ids
    assert(ids_unique(w)) by {
        assert forall|a: int, b: int| 0 <= a < w.len() && 0 <= b < w.len() && a != b implies #[trigger] w[a].id
            != #[trigger] w[b].id by {
            assert(same_identity(o[a], w[a]));
            assert(same_identity(o[b], w[b]));
        }
    }
    assert forall|x: int| 0 <= x < o.len() implies #[trigger] w[x].kind == o[x].kind && w[x].id == o[x].id by {
        assert(same_identity(o[x], w[x]));
    }
    assert(parent_links(w)) by {
        assert forall|x: int| 0 <= x < w.len() && (#[trigger] w[x].parent) is Some implies {
            let q = w[x].parent.unwrap();
            &&& q < w.len()
            &&& w[q as int].children@.contains(x as usize)
        } by {
            assert(w[x].parent == if x == s {
                None
            } else if cs.contains(x as usize) {
                Some(p as usize)
            } else {
                o[x].parent
            });
            assert(w[p].children@ == splice(o[p].children@, idx, cs));
            if cs.contains(x as usize) {
                lemma_splice_contains(o[p].children@, idx, cs, x as usize);
            } else {
                let q = o[x].parent.unwrap() as int;
                assert(o[x].parent is Some);
                assert(o[q].children@.contains(x as usize));
                if q == p {
                    lemma_splice_contains(o[p].children@, idx, cs, x as usize);
                } else {
                    assert(q != s);
                    assert(w[q].children@ == o[q].children@);
                }
            }
        }
    }
    assert(child_links(w)) by {
        assert forall|j: int, k: int| 0 <= j < w.len() && 0 <= k < w[j].children@.len() implies {
            let c = #[trigger] w[j].children@[k];
            &&& c < w.len()
            &&& w[c as int].parent == Some(j as usize)
        } by {
            let c = w[j].children@[k];
            assert(w[j].children@ == if j == p {
                splice(o[p].children@, idx, cs)
            } else if j == s {
                Seq::<usize>::empty()
            } else {
                o[j].children@
            });
            if j == p {
                assert(w[j].children@.contains(c));
                lemma_splice_contains(o[p].children@, idx, cs, c);
                assert(w[c as int].parent == if c == s {
                    None
                } else if cs.contains(c) {
                    Some(p as usize)
                } else {
                    o[c as int].parent
                });
                if !cs.contains(c) {
                    let m = choose|m: int| 0 <= m < o[p].children@.len() && o[p].children@[m] == c;
                    assert(o[p].children@[m] == c);
                    assert(o[c as int].parent == Some(p as usize));
                }
            } else if j == s {
                assert(w[j].children@.len() == 0);
            } else {
                assert(o[j].children@[k] == c);
                assert(o[c as int].parent == Some(j as usize));
                assert(c != s);
                assert(!cs.contains(c));
                assert(w[c as int].parent == o[c as int].parent);
            }
        }
    }
    assert(children_unique(w)) by {
        assert forall|j: int| 0 <= j < w.len() implies (#[trigger] w[j].children@).no_duplicates() by {
            assert(o[j].children@.no_duplicates());
            assert(o[s].children@.no_duplicates());
            if j == p {
                lemma_splice_no_dup(o[p].children@, idx, cs);
            }
        }
    }
    // focus orders
    let ids = |c: usize| o[c as int].id;
    assert forall|j: int| 0 <= j < w.len() implies #[trigger] child_ids(w, j) == if j == p {
        splice(child_ids(o, p), idx, child_ids(o, s))
    } else if j == s {
        Seq::<u128>::empty()
    } else {
        child_ids(o, j)
    } by {
        let wc = w[j].children@;
        assert(child_ids(w, j) =~= wc.map_values(ids)) by {
            assert forall|k: int| 0 <= k < wc.len() implies w[wc[k] as int].id == o[wc[k] as int].id by {
                assert(child_links(w));
                assert(wc[k] < w.len());
                assert(same_identity(o[wc[k] as int], w[wc[k] as int]));
            }
        }
        if j == p {
            lemma_splice_map(o[p].children@, idx, cs, ids);
        }
    }
    assert(focus_orders(w)) by {
        assert forall|j: int| 0 <= j < w.len() implies #[trigger] focus_matches(w, j) by {
            assert(focus_matches(o, j));
            assert(child_ids(w, j) == if j == p {
                splice(child_ids(o, p), idx, child_ids(o, s))
            } else if j == s {
                Seq::<u128>::empty()
            } else {
                child_ids(o, j)
            });
            assert(w[j].child_focus_order@ == if j == p {
                splice(o[p].child_focus_order@, fidx, o[s].child_focus_order@)
            } else {
                o[j].child_focus_order@
            });
            assert(w[j].parent == if j == s {
                None
            } else if cs.contains(j as usize) {
                Some(p as usize)
            } else {
                o[j].parent
            });
            if j == p {
                assert(focus_matches(o, s));
                let of = o[p].child_focus_order@;
                let cp = child_ids(o, p);
                assert(of.to_multiset() == cp.to_multiset());
                assert(cp[idx] == o[s].id);
                assert(of.contains(o[s].id)) by {
                    assert(cp.contains(o[s].id));
                    assert(of.to_multiset().count(o[s].id) > 0);
                }
                let fi = choose|m: int| 0 <= m < of.len() && of[m] == o[s].id;
                assert(fidx == of.index_of(o[s].id));
                assert(0 <= fidx < of.len() && of[fidx] == o[s].id);
                lemma_splice_multiset(of, fidx, o[s].child_focus_order@);
                lemma_splice_multiset(cp, idx, child_ids(o, s));
                assert(child_ids(w, j) =~= splice(cp, idx, child_ids(o, s)));
            } else if j == s {
                assert(w[j].children@ =~= Seq::<usize>::empty());
            } else {
                assert(child_ids(w, j) =~= child_ids(o, j));
                if cs.contains(j as usize) {
                    assert(o[j].parent is Some);
                }
            }
        }
    }
    assert(kinds_fit(w)) by {
        assert forall|j: int, k: int|
            0 <= j < w.len() && (w[j].kind is Split || w[j].kind is Stack) && 0 <= k
                < w[j].children@.len() implies (#[trigger] w[w[j].children@[k] as int]).kind.tiling() by {
            let c = w[j].children@[k];
            assert(w[j].children@ == if j == p {
                splice(o[p].children@, idx, cs)
            } else if j == s {
                Seq::<usize>::empty()
            } else {
                o[j].children@
            });
            if j == p {
                assert(w[j].children@.contains(c));
                lemma_splice_contains(o[p].children@, idx, cs, c);
                if cs.contains(c) {
                    let m = choose|m: int| 0 <= m < cs.len() && cs[m] == c;
                    assert(o[s].children@[m] == c);
                    assert(!o[s].kind.window());
                } else {
                    let m = choose|m: int| 0 <= m < o[p].children@.len() && o[p].children@[m] == c;
                    assert(o[p].children@[m] == c);
                }
                assert(o[c as int].kind.tiling());
            } else {
                assert(o[j].children@[k] == c);
                assert(o[c as int].kind.tiling());
            }
            assert(w[c as int].kind == o[c as int].kind);
        }
        assert forall|j: int| 0 <= j < w.len() && (#[trigger] w[j].kind).window() implies w[j].children@.len()
            == 0 by {
            assert(w[j].children@ == if j == p {
                splice(o[p].children@, idx, cs)
            } else if j == s {
                Seq::<usize>::empty()
            } else {
                o[j].children@
            });
            if j == p {
                assert(o[p].children@.len() > 0);
            }
        }
    }
}


/// `w` is `o` with the parent of each of `cs` set to `p`.
pub open spec fn reparented(o: Seq<ContainerNode>, w: Seq<ContainerNode>, cs: Seq<usize>, p: usize) -> bool {
    &&& w.len() == o.len()
    &&& forall|x: int|
        0 <= x < o.len() ==> {
            &&& #[trigger] same_identity(o[x], w[x])
            &&& w[x].children@ == o[x].children@
            &&& w[x].child_focus_order@ == o[x].child_focus_order@
            &&& w[x].parent == if cs.contains(x as usize) {
                Some(p)
            } else {
                o[x].parent
            }
        }
}

/// Setting the parent of one more of `cs` keeps `reparented`.
#[verifier::spinoff_prover]
proof fn lemma_reparent_step(
    o: Seq<ContainerNode>,
    prev: Seq<ContainerNode>,
    now: Seq<ContainerNode>,
    cs: Seq<usize>,
    k: int,
    p: usize,
)
    requires
        0 <= k < cs.len(),
        cs[k] < o.len(),
        o.len() <= usize::MAX,
        reparented(o, prev, cs.take(k), p),
        now.len() == prev.len(),
        forall|x: int| 0 <= x < prev.len() && x != cs[k] as int ==> now[x] == prev[x],
        same_identity(prev[cs[k] as int], now[cs[k] as int]),
        now[cs[k] as int].children == prev[cs[k] as int].children,
        now[cs[k] as int].child_focus_order == prev[cs[k] as int].child_focus_order,
        now[cs[k] as int].parent == Some(p),
    ensures
        reparented(o, now, cs.take(k + 1), p),
{
    let c = cs[k];
    assert(cs.take(k + 1) =~= cs.take(k).push(c));
    assert forall|x: int| 0 <= x < o.len() implies {
        &&& #[trigger] same_identity(o[x], now[x])
        &&& now[x].children@ == o[x].children@
        &&& now[x].child_focus_order@ == o[x].child_focus_order@
        &&& now[x].parent == if cs.take(k + 1).contains(x as usize) {
            Some(p)
        } else {
            o[x].parent
        }
    } by {
        assert(same_identity(o[x], prev[x]));
        if x != c as int {
            assert(cs.take(k + 1).contains(x as usize) == cs.take(k).contains(x as usize));
        } else {
            assert(cs.take(k + 1)[k] == c);
        }
    }
    assert(now.len() == o.len());
    assert(reparented(o, now, cs.take(k + 1), p));
}

/// The log gained exactly `e` at its end.
pub open spec fn pushed_one(before: Seq<SizeEffect>, after: Seq<SizeEffect>) -> bool {
    &&& after.len() == before.len() + 1
    &&& after.take(before.len() as int) == before
}

/// The last entry of `effects` is the size work of flattening `s` in `o`.
pub open spec fn inherit_logged(effects: Seq<SizeEffect>, o: Seq<ContainerNode>, s: usize) -> bool {
    effects.last() matches SizeEffect::Inherit { from, children, evenly } && from == s
        && children@ == o[s as int].children@ && evenly == (o[s as int].kind is Stack)
}

impl ContainerTree {
    /// Moves the children of `s` into its parent, in place of `s`; gives
    /// the parent.
    #[verifier::spinoff_prover]
    fn flatten_into_parent(&mut self, s: usize, effects: &mut Vec<SizeEffect>) -> (r: Result<
        usize,
        TreeError,
    >)
        requires
            old(self).wf(),
            old(self).valid(s as int),
            old(self)@[s as int].kind.tiling(),
        ensures
            final(self).wf(),
            old(self)@[s as int].parent is None ==> {
                &&& r == Err::<usize, TreeError>(TreeError::NoParent)
                &&& final(self)@ == old(self)@
                &&& final(self).height(s as int) == old(self).height(s as int)
                &&& final(effects)@ == old(effects)@
            },
            old(self)@[s as int].parent matches Some(p) ==> {
                &&& r == Ok::<usize, TreeError>(p)
                &&& flattened(old(self)@, final(self)@, s)
                &&& pushed_one(old(effects)@, final(effects)@)
                &&& inherit_logged(final(effects)@, old(self)@, s)
            },
            forall|x: int| 0 <= x < old(self)@.len() ==> final(self).height(x) == old(self).height(x),
    {
        let p = match self.nodes[s].parent {
            None => {
                return Err(TreeError::NoParent);
            },
            Some(p) => p,
        };
        let n = self.nodes.len();
        let ghost o = self@;
        proof {
            assert(self.rank@[p as int] < self.rank@[s as int]);
        }
        let idx = self.index(s);
        let fidx = self.focus_index(s);
        let moved = copy_vec(&self.nodes[s].children);
        let sf = copy_vec(&self.nodes[s].child_focus_order);
        let nc = splice_vec(&self.nodes[p].children, idx, &moved);
        let nf = splice_vec(&self.nodes[p].child_focus_order, fidx, &sf);
        let mut k: usize = 0;
        while k < moved.len()
            invariant
                self.rank == old(self).rank,
                o == old(self)@,
                self@.len() == o.len(),
                moved@ == o[s as int].children@,
                tree_wf(o),
                s < o.len(),
                o[s as int].parent == Some(p),
                p < o.len(),
                o.len() <= usize::MAX,
                k <= moved@.len(),
                reparented(o, self@, moved@.take(k as int), p),
            decreases moved@.len() - k,
        {
            let c = moved[k];
            proof {
                assert(o[s as int].children@[k as int] == c);
                assert(c < o.len());
            }
            let ghost prev = self@;
            self.nodes[c].parent = Some(p);
            proof {
                lemma_reparent_step(o, prev, self@, moved@, k as int, p);
            }
            k = k + 1;
        }
        proof {
            assert(moved@.take(k as int) =~= moved@);
        }
        let ghost mid = self@;
        self.nodes[p].children = nc;
        self.nodes[p].child_focus_order = nf;
        self.nodes[s].parent = None;
        self.nodes[s].children = Vec::new();
        proof {
            let w = self@;
            assert forall|x: int| 0 <= x < o.len() implies #[trigger] w[x].id == o[x].id && w[x].kind
                == o[x].kind && w[x].tiling_direction == o[x].tiling_direction && w[x].gaps_config
                == o[x].gaps_config && (x != p && x != s ==> w[x].children@ == o[x].children@
                && w[x].child_focus_order@ == o[x].child_focus_order@) && (x != s ==> w[x].parent
                == mid[x].parent) && (x == p ==> w[x].child_focus_order@ == nf@ && w[x].children@
                == nc@) && (x == s ==> w[x].parent is None && w[x].children@.len() == 0
                && w[x].child_focus_order@ == o[x].child_focus_order@) by {
                assert(reparented(o, mid, o[s as int].children@, p));
                assert(same_identity(o[x], mid[x]));
            }
            assert forall|x: usize| #[trigger] o[s as int].children@.contains(x) implies x != s && x
                != p by {
                let m = choose|m: int|
                    0 <= m < o[s as int].children@.len() && o[s as int].children@[m] == x;
                assert(o[s as int].children@[m] == x);
                assert(o[x as int].parent == Some(s));
            }
            assert(flattened(o, w, s)) by {
                assert forall|x: int| 0 <= x < o.len() implies #[trigger] same_identity(o[x], w[x]) by {
                    assert(w[x].id == o[x].id);
                }
                assert forall|x: int| 0 <= x < o.len() implies #[trigger] w[x].parent == if x == s as int {
                    None
                } else if o[s as int].children@.contains(x as usize) {
                    Some(p)
                } else {
                    o[x].parent
                } by {
                    assert(w[x].id == o[x].id);
                    assert(reparented(o, mid, o[s as int].children@, p));
                    assert(same_identity(o[x], mid[x]));
                }
                assert forall|x: int| 0 <= x < o.len() implies #[trigger] w[x].children@ == if x
                    == p as int {
                    splice(o[p as int].children@, index_in_parent(o, s as int), o[s as int].children@)
                } else if x == s as int {
                    Seq::<usize>::empty()
                } else {
                    o[x].children@
                } by {
                    assert(w[x].id == o[x].id);
                }
                assert forall|x: int| 0 <= x < o.len() implies #[trigger] w[x].child_focus_order@
                    == if x == p as int {
                    splice(
                        o[p as int].child_focus_order@,
                        focus_index_in_parent(o, s as int),
                        o[s as int].child_focus_order@,
                    )
                } else {
                    o[x].child_focus_order@
                } by {
                    assert(w[x].id == o[x].id);
                }
            }
            lemma_flattened_wf(o, w, s);
            assert(self.ranked()) by {
                assert forall|x: int| 0 <= x < w.len() && (#[trigger] w[x].parent) is Some implies self.rank@[w[x].parent.unwrap() as int]
                    < self.rank@[x] by {
                    if o[s as int].children@.contains(x as usize) {
                        assert(o[x].parent == Some(s));
                        assert(o[x].parent is Some);
                    } else {
                        assert(o[x].parent is Some);
                    }
                }
            }
        }
        let evenly = self.nodes[s].kind.is_stack();
        proof {
            assert(self@[s as int].id == o[s as int].id);
            assert(evenly == (o[s as int].kind is Stack));
        }
        effects.push(SizeEffect::Inherit { from: s, children: moved, evenly });
        proof {
            assert(final(effects)@.take(old(effects)@.len() as int) =~= old(effects)@);
            assert(inherit_logged(final(effects)@, o, s));
            assert(flattened(o, self@, s));
        }
        Ok(p)
    }
}

/// Removes a split container from the tree and moves its children into the
/// parent container, where the split container stood; its focus order takes
/// the place of its id in the parent's focus order.
///
/// The children are resized to fit the size of the split container (logged
/// as `SizeEffect::Inherit`).
pub fn flatten_split_container(
    tree: &mut ContainerTree,
    split_container: usize,
    effects: &mut Vec<SizeEffect>,
) -> (r: Result<(), TreeError>)
    requires
        old(tree).wf(),
        old(tree).valid(split_container as int),
        old(tree)@[split_container as int].kind is Split,
    ensures
        final(tree).wf(),
        old(tree)@[split_container as int].parent is None ==> {
            &&& r == Err::<(), TreeError>(TreeError::NoParent)
            &&& final(tree)@ == old(tree)@
            &&& final(effects)@ == old(effects)@
        },
        old(tree)@[split_container as int].parent is Some ==> {
            &&& r == Ok::<(), TreeError>(())
            &&& flattened(old(tree)@, final(tree)@, split_container)
            &&& final(tree)@[split_container as int].parent is None
            &&& final(tree)@[split_container as int].children@.len() == 0
            &&& pushed_one(old(effects)@, final(effects)@)
            &&& inherit_logged(final(effects)@, old(tree)@, split_container)
        },
        forall|x: int| 0 <= x < old(tree)@.len() ==> final(tree).height(x) == old(tree).height(x),
{
    proof {
        tree.lemma_parent_not_self(split_container as int);
    }
    match tree.flatten_into_parent(split_container, effects) {
        Ok(_) => Ok(()),
        Err(e) => Err(e),
    }
}

/// Removes a tiling container from the tree and moves its children into
/// the parent container, where it stood; its focus order takes the place of
/// its id in the parent's focus order. Gives the parent's direction
/// container.
///
/// The children are resized to fit the size of the flattened container, or
/// share it evenly when it is a stack (logged as `SizeEffect::Inherit`).
pub fn flatten_tiling_container(
    tree: &mut ContainerTree,
    tiling_container: usize,
    effects: &mut Vec<SizeEffect>,
) -> (r: Result<usize, TreeError>)
    requires
        old(tree).wf(),
        old(tree).valid(tiling_container as int),
        old(tree)@[tiling_container as int].kind.tiling(),
    ensures
        final(tree).wf(),
        old(tree)@[tiling_container as int].parent is None ==> {
            &&& r == Err::<usize, TreeError>(TreeError::NoParent)
            &&& final(tree)@ == old(tree)@
            &&& final(effects)@ == old(effects)@
        },
        old(tree)@[tiling_container as int].parent matches Some(p) ==> {
            &&& flattened(old(tree)@, final(tree)@, tiling_container)
            &&& final(tree)@[tiling_container as int].parent is None
            &&& final(tree)@[tiling_container as int].children@.len() == 0
            &&& pushed_one(old(effects)@, final(effects)@)
            &&& inherit_logged(final(effects)@, old(tree)@, tiling_container)
            &&& r == match nearest_direction(
                final(tree)@,
                p as int,
                (final(tree).height(p as int) + 1) as nat,
            ) {
                Some(d) => Ok::<usize, TreeError>(d),
                None => Err::<usize, TreeError>(TreeError::ParentNotDirectionContainer),
            }
        },
        r matches Ok(d) ==> final(tree).valid(d as int) && final(tree)@[d as int].kind.direction(),
        forall|x: int| 0 <= x < old(tree)@.len() ==> final(tree).height(x) == old(tree).height(x),
{
    proof {
        tree.lemma_parent_not_self(tiling_container as int);
    }
    let parent = tree.flatten_into_parent(tiling_container, effects)?;
    match tree.direction_container(parent) {
        Some(d) => Ok(d),
        None => Err(TreeError::ParentNotDirectionContainer),
    }
}


/// `w` is `o` after `c` leaves its parent: it is taken out of the parent's
/// children and focus order and has no parent any more.
pub open spec fn removed(o: Seq<ContainerNode>, w: Seq<ContainerNode>, c: usize) -> bool {
    let q = o[c as int].parent.unwrap() as int;
    &&& w.len() == o.len()
    &&& forall|x: int| 0 <= x < o.len() ==> #[trigger] same_identity(o[x], w[x])
    &&& forall|x: int|
        0 <= x < o.len() ==> #[trigger] w[x].parent == if x == c as int {
            None
        } else {
            o[x].parent
        }
    &&& forall|x: int|
        0 <= x < o.len() ==> #[trigger] w[x].children@ == if x == q {
            o[q].children@.remove(index_in_parent(o, c as int))
        } else {
            o[x].children@
        }
    &&& forall|x: int|
        0 <= x < o.len() ==> #[trigger] w[x].child_focus_order@ == if x == q {
            o[q].child_focus_order@.remove(focus_index_in_parent(o, c as int))
        } else {
            o[x].child_focus_order@
        }
}

/// Taking a container out of its parent keeps a tree well formed.
#[verifier::spinoff_prover]
pub proof fn lemma_removed_wf(o: Seq<ContainerNode>, w: Seq<ContainerNode>, c: usize)
    requires
        tree_wf(o),
        o.len() <= usize::MAX,
        c < o.len(),
        o[c as int].parent is Some,
        removed(o, w, c),
    ensures
        tree_wf(w),
{
    lemma_removed_links(o, w, c);
    lemma_removed_focus(o, w, c);
    lemma_removed_kinds(o, w, c);
}

#[verifier::spinoff_prover]
#[verifier::rlimit(50)]
proof fn lemma_removed_links(o: Seq<ContainerNode>, w: Seq<ContainerNode>, c: usize)
    requires
        tree_wf(o),
        o.len() <= usize::MAX,
        c < o.len(),
        o[c as int].parent is Some,
        removed(o, w, c),
    ensures
        ids_unique(w),
        parent_links(w),
        child_links(w),
        children_unique(w),
{
    let q = o[c as int].parent.unwrap() as int;
    let idx = index_in_parent(o, c as int);
    let fidx = focus_index_in_parent(o, c as int);
    assert(o[q].children@.contains(c));
    let ki = choose|k: int| 0 <= k < o[q].children@.len() && o[q].children@[k] == c;
    lemma_index_of_unique(o[q].children@, ki);
    let qc = o[q].children@;
    assert(qc[idx] == c);
    assert forall|x: int| 0 <= x < o.len() implies #[trigger] w[x].kind == o[x].kind && w[x].id
        == o[x].id by {
        assert(same_identity(o[x], w[x]));
    }
    assert forall|x: int| 0 <= x < o.len() implies #[trigger] w[x].children@ == if x == q {
        qc.remove(idx)
    } else {
        o[x].children@
    } && w[x].parent == if x == c as int {
        None
    } else {
        o[x].parent
    } && w[x].child_focus_order@ == if x == q {
        o[q].child_focus_order@.remove(fidx)
    } else {
        o[x].child_focus_order@
    } by {
    }
    assert forall|y: usize| #[trigger] qc.remove(idx).contains(y) <==> (qc.contains(y) && y != c) by {
        let r = qc.remove(idx);
        if r.contains(y) {
            let k = choose|k: int| 0 <= k < r.len() && r[k] == y;
            if k < idx {
                assert(qc[k] == y);
            } else {
                assert(qc[k + 1] == y);
            }
        }
        if qc.contains(y) && y != c {
            let k = choose|k: int| 0 <= k < qc.len() && qc[k] == y;
            if k < idx {
                assert(r[k] == y);
            } else {
                assert(r[k - 1] == y);
            }
        }
    }
    assert(ids_unique(w)) by {
        assert forall|a: int, b: int| 0 <= a < w.len() && 0 <= b < w.len() && a != b implies #[trigger] w[a].id
            != #[trigger] w[b].id by {
            assert(same_identity(o[a], w[a]));
            assert(same_identity(o[b], w[b]));
        }
    }
    assert(parent_links(w)) by {
        assert forall|x: int| 0 <= x < w.len() && (#[trigger] w[x].parent) is Some implies {
            let p = w[x].parent.unwrap();
            &&& p < w.len()
            &&& w[p as int].children@.contains(x as usize)
        } by {
            assert(w[x].children@ == w[x].children@);
            assert(o[x].parent is Some);
            let p = o[x].parent.unwrap() as int;
            assert(o[p].children@.contains(x as usize));
            assert(w[p].children@ == if p == q {
                qc.remove(idx)
            } else {
                o[p].children@
            });
            if p == q {
                assert(qc.remove(idx).contains(x as usize));
            }
        }
    }
    assert(child_links(w)) by {
        assert forall|j: int, k: int| 0 <= j < w.len() && 0 <= k < w[j].children@.len() implies {
            let y = #[trigger] w[j].children@[k];
            &&& y < w.len()
            &&& w[y as int].parent == Some(j as usize)
        } by {
            let y = w[j].children@[k];
            assert(w[j].children@ == if j == q {
                qc.remove(idx)
            } else {
                o[j].children@
            });
            assert(w[j].children@.contains(y));
            if j == q {
                assert(qc.contains(y) && y != c);
                let m = choose|m: int| 0 <= m < qc.len() && qc[m] == y;
                assert(o[q].children@[m] == y);
            } else {
                assert(o[j].children@[k] == y);
                assert(o[y as int].parent == Some(j as usize));
                assert(y != c);
            }
            assert(w[y as int].parent == if y as int == c as int {
                None
            } else {
                o[y as int].parent
            });
        }
    }
    assert(children_unique(w)) by {
        assert forall|j: int| 0 <= j < w.len() implies (#[trigger] w[j].children@).no_duplicates() by {
            assert(o[j].children@.no_duplicates());
            assert(w[j].children@ == if j == q {
                qc.remove(idx)
            } else {
                o[j].children@
            });
            if j == q {
                let r = qc.remove(idx);
                assert forall|a: int, b: int| 0 <= a < r.len() && 0 <= b < r.len() && a != b implies r[a]
                    != r[b] by {
                    let sa = if a < idx { a } else { a + 1 };
                    let sb = if b < idx { b } else { b + 1 };
                    assert(r[a] == qc[sa]);
                    assert(r[b] == qc[sb]);
                }
            }
        }
    }
}

#[verifier::spinoff_prover]
proof fn lemma_removed_focus(o: Seq<ContainerNode>, w: Seq<ContainerNode>, c: usize)
    requires
        tree_wf(o),
        o.len() <= usize::MAX,
        c < o.len(),
        o[c as int].parent is Some,
        removed(o, w, c),
        ids_unique(w),
        parent_links(w),
        child_links(w),
        children_unique(w),
    ensures
        focus_orders(w),
{
    assert forall|j: int| 0 <= j < w.len() implies #[trigger] focus_matches(w, j) by {
        lemma_removed_focus_at(o, w, c, j);
    }
}

#[verifier::spinoff_prover]
#[verifier::rlimit(50)]
proof fn lemma_removed_focus_at(o: Seq<ContainerNode>, w: Seq<ContainerNode>, c: usize, j: int)
    requires
        tree_wf(o),
        o.len() <= usize::MAX,
        c < o.len(),
        o[c as int].parent is Some,
        removed(o, w, c),
        ids_unique(w),
        parent_links(w),
        child_links(w),
        children_unique(w),
        0 <= j < w.len(),
    ensures
        focus_matches(w, j),
{
    let q = o[c as int].parent.unwrap() as int;
    let idx = index_in_parent(o, c as int);
    let fidx = focus_index_in_parent(o, c as int);
    let qc = o[q].children@;
    assert(same_identity(o[j], w[j]));
    assert(w[j].children@ == if j == q {
        qc.remove(idx)
    } else {
        o[j].children@
    });
    assert(w[j].child_focus_order@ == if j == q {
        o[q].child_focus_order@.remove(fidx)
    } else {
        o[j].child_focus_order@
    });
    assert(w[j].parent == if j == c as int {
        None
    } else {
        o[j].parent
    });
    assert(focus_matches(o, j));
    let ids = |y: usize| o[y as int].id;
    let wc = w[j].children@;
    assert(child_ids(w, j) =~= wc.map_values(ids)) by {
        assert forall|k: int| 0 <= k < wc.len() implies w[wc[k] as int].id == o[wc[k] as int].id by {
            assert(wc[k] == w[j].children@[k]);
            assert(wc[k] < w.len());
            assert(same_identity(o[wc[k] as int], w[wc[k] as int]));
        }
    }
    if j == q {
        assert(o[q].children@.contains(c));
        let ki = choose|k: int| 0 <= k < qc.len() && qc[k] == c;
        lemma_index_of_unique(qc, ki);
        assert(qc[idx] == c);
        let cq = child_ids(o, q);
        let of = o[q].child_focus_order@;
        assert(of.to_multiset() == cq.to_multiset());
        assert(cq[idx] == o[c as int].id);
        assert(of.contains(o[c as int].id)) by {
            assert(cq.contains(o[c as int].id));
            assert(of.to_multiset().count(o[c as int].id) > 0);
        }
        let fi = choose|m: int| 0 <= m < of.len() && of[m] == o[c as int].id;
        assert(0 <= fidx < of.len() && of[fidx] == o[c as int].id);
        assert(child_ids(w, j) =~= cq.remove(idx));
        assert(of.remove(fidx).to_multiset() =~= of.to_multiset().remove(of[fidx]));
        assert(cq.remove(idx).to_multiset() =~= cq.to_multiset().remove(cq[idx]));
    } else {
        assert(child_ids(w, j) =~= child_ids(o, j));
    }
}

#[verifier::spinoff_prover]
#[verifier::rlimit(50)]
proof fn lemma_removed_kinds(o: Seq<ContainerNode>, w: Seq<ContainerNode>, c: usize)
    requires
        tree_wf(o),
        o.len() <= usize::MAX,
        c < o.len(),
        o[c as int].parent is Some,
        removed(o, w, c),
    ensures
        kinds_fit(w),
{
    let q = o[c as int].parent.unwrap() as int;
    let idx = index_in_parent(o, c as int);
    let qc = o[q].children@;
    assert(o[q].children@.contains(c));
    assert forall|x: int| 0 <= x < o.len() implies #[trigger] w[x].kind == o[x].kind && w[x].id
        == o[x].id by {
        assert(same_identity(o[x], w[x]));
    }
    assert forall|y: usize| #[trigger] qc.remove(idx).contains(y) implies qc.contains(y) by {
        let r = qc.remove(idx);
        if r.contains(y) {
            let k = choose|k: int| 0 <= k < r.len() && r[k] == y;
            if k < idx {
                assert(qc[k] == y);
            } else {
                assert(qc[k + 1] == y);
            }
        }
    }
    {
        assert forall|j: int, k: int|
            0 <= j < w.len() && (w[j].kind is Split || w[j].kind is Stack) && 0 <= k
                < w[j].children@.len() implies (#[trigger] w[w[j].children@[k] as int]).kind.tiling() by {
            let y = w[j].children@[k];
            assert(w[j].children@ == if j == q {
                qc.remove(idx)
            } else {
                o[j].children@
            });
            assert(w[j].children@.contains(y));
            if j == q {
                assert(qc.contains(y));
                let m = choose|m: int| 0 <= m < qc.len() && qc[m] == y;
                assert(o[q].children@[m] == y);
            } else {
                assert(o[j].children@[k] == y);
            }
            assert(w[y as int].kind == o[y as int].kind);
        }
        assert forall|j: int| 0 <= j < w.len() && (#[trigger] w[j].kind).window() implies w[j].children@.len()
            == 0 by {
            assert(w[j].children@ == if j == q {
                qc.remove(idx)
            } else {
                o[j].children@
            });
        }
        assert forall|j: int|
            0 <= j < w.len() && (w[j].kind.tiling() || w[j].kind.window()) && (#[trigger] w[j].parent) is Some
                implies w[w[j].parent.unwrap() as int].kind.direction() by {
            assert(w[j].kind == o[j].kind);
            assert(o[j].parent is Some);
            assert(w[o[j].parent.unwrap() as int].kind == o[o[j].parent.unwrap() as int].kind);
        }
    }
}


/// The tiling containers among the children of `j`, in display order.
pub open spec fn tiling_children(w: Seq<ContainerNode>, j: int) -> Seq<usize> {
    w[j].children@.filter(|x: usize| w[x as int].kind.tiling())
}

/// `c` is the only child of a split or stack container.
pub open spec fn leaves_empty_tiling_parent(o: Seq<ContainerNode>, c: int) -> bool {
    o[c].parent matches Some(q) && o[q as int].kind.tiling() && o[q as int].children@.len() == 1
}

/// The size work of taking `c` out of `q` (the tree now being `w`): a stack
/// resizes its remaining children; otherwise the space of a tiling `c`
/// goes to the tiling siblings.
pub open spec fn detach_logged(
    before: Seq<SizeEffect>,
    after: Seq<SizeEffect>,
    w: Seq<ContainerNode>,
    q: usize,
    c: usize,
) -> bool {
    if w[q as int].kind is Stack {
        pushed_one(before, after) && (after.last() matches SizeEffect::ResizeStack { stack }
            && stack == q)
    } else if w[c as int].kind.tiling() {
        pushed_one(before, after) && (after.last() matches SizeEffect::Redistribute {
            removed,
            siblings,
        } && removed == c && siblings@ == tiling_children(w, q as int))
    } else {
        after == before
    }
}

impl ContainerTree {
    /// Takes `c` out of its parent; gives the parent.
    fn remove_from_parent(&mut self, c: usize) -> (r: Result<usize, TreeError>)
        requires
            old(self).wf(),
            old(self).valid(c as int),
        ensures
            final(self).wf(),
            old(self)@[c as int].parent is None ==> r == Err::<usize, TreeError>(TreeError::NoParent)
                && final(self)@ == old(self)@,
            old(self)@[c as int].parent matches Some(q) ==> r == Ok::<usize, TreeError>(q)
                && removed(old(self)@, final(self)@, c),
            forall|x: int| 0 <= x < old(self)@.len() ==> final(self).height(x) == old(self).height(x),
    {
        let q = match self.nodes[c].parent {
            None => {
                return Err(TreeError::NoParent);
            },
            Some(q) => q,
        };
        let n = self.nodes.len();
        let ghost o = self@;
        let idx = self.index(c);
        let fidx = self.focus_index(c);
        self.nodes[q].children.remove(idx);
        self.nodes[q].child_focus_order.remove(fidx);
        self.nodes[c].parent = None;
        proof {
            let w = self@;
            assert(removed(o, w, c)) by {
                assert forall|x: int| 0 <= x < o.len() implies #[trigger] same_identity(o[x], w[x])
                    by {}
                assert forall|x: int| 0 <= x < o.len() implies #[trigger] w[x].parent == if x == c as int {
                    None
                } else {
                    o[x].parent
                } by {}
                assert forall|x: int| 0 <= x < o.len() implies #[trigger] w[x].children@ == if x
                    == q as int {
                    o[q as int].children@.remove(index_in_parent(o, c as int))
                } else {
                    o[x].children@
                } by {}
                assert forall|x: int| 0 <= x < o.len() implies #[trigger] w[x].child_focus_order@
                    == if x == q as int {
                    o[q as int].child_focus_order@.remove(focus_index_in_parent(o, c as int))
                } else {
                    o[x].child_focus_order@
                } by {}
            }
            lemma_removed_wf(o, w, c);
            assert(self.ranked()) by {
                assert forall|x: int| 0 <= x < w.len() && (#[trigger] w[x].parent) is Some implies self.rank@[w[x].parent.unwrap() as int]
                    < self.rank@[x] by {
                    assert(o[x].parent is Some);
                }
            }
        }
        Ok(q)
    }

    /// The tiling containers among the children of `j`, in display order.
    pub fn tiling_children(&self, j: usize) -> (r: Vec<usize>)
        requires
            self.wf(),
            self.valid(j as int),
        ensures
            r@ == tiling_children(self@, j as int),
    {
        let ch = &self.nodes[j].children;
        let ghost pred = |x: usize| self@[x as int].kind.tiling();
        let mut r: Vec<usize> = Vec::new();
        let mut k: usize = 0;
        while k < ch.len()
            invariant
                self.wf(),
                self.valid(j as int),
                ch@ == self@[j as int].children@,
                pred == (|x: usize| self@[x as int].kind.tiling()),
                k <= ch@.len(),
                r@ == ch@.take(k as int).filter(pred),
            decreases ch@.len() - k,
        {
            let c = ch[k];
            proof {
                assert(ch@.take(k + 1) =~= ch@.take(k as int).push(c));
                ch@.take(k as int).lemma_filter_push(c, pred);
                assert(c < self@.len());
            }
            if self.nodes[c].kind.is_tiling() {
                r.push(c);
            }
            k = k + 1;
        }
        proof {
            assert(ch@.take(k as int) =~= ch@);
        }
        r
    }
}

/// Removes a container from the tree.
///
/// A split or stack container that the container leaves empty is flattened
/// first. If the parent is a stack, its remaining children are resized for
/// their number; otherwise, for a tiling container, its space goes to the
/// tiling siblings (both logged as `SizeEffect`s).
#[verifier::spinoff_prover]
pub fn detach_container(
    tree: &mut ContainerTree,
    child_to_remove: usize,
    effects: &mut Vec<SizeEffect>,
) -> (r: Result<(), TreeError>)
    requires
        old(tree).wf(),
        old(tree).valid(child_to_remove as int),
    ensures
        final(tree).wf(),
        ({
            let o = old(tree)@;
            let c = child_to_remove;
            let q = o[c as int].parent.unwrap();
            let g = o[q as int].parent.unwrap();
            &&& o[c as int].parent is None ==> {
                &&& r == Err::<(), TreeError>(TreeError::NoParent)
                &&& final(tree)@ == o
                &&& final(effects)@ == old(effects)@
            }
            &&& (o[c as int].parent is Some && !leaves_empty_tiling_parent(o, c as int)) ==> {
                &&& r == Ok::<(), TreeError>(())
                &&& removed(o, final(tree)@, c)
                &&& detach_logged(old(effects)@, final(effects)@, final(tree)@, q, c)
            }
            &&& (leaves_empty_tiling_parent(o, c as int) && o[q as int].parent is None) ==> {
                &&& r == Err::<(), TreeError>(TreeError::NoParent)
                &&& final(tree)@ == o
                &&& final(effects)@ == old(effects)@
            }
            &&& (leaves_empty_tiling_parent(o, c as int) && o[q as int].parent is Some) ==> exists|
                mid: Seq<ContainerNode>,
            |
                #[trigger] flattened(o, mid, q) && {
                    let e1 = final(effects)@.take(old(effects)@.len() as int + 1);
                    &&& pushed_one(old(effects)@, e1)
                    &&& inherit_logged(e1, o, q)
                    &&& if nearest_direction(mid, g as int, (old(tree).height(g as int) + 1) as nat)
                        is None {
                        &&& r == Err::<(), TreeError>(TreeError::ParentNotDirectionContainer)
                        &&& final(tree)@ == mid
                        &&& final(effects)@ == e1
                    } else {
                        &&& r == Ok::<(), TreeError>(())
                        &&& removed(mid, final(tree)@, c)
                        &&& detach_logged(e1, final(effects)@, final(tree)@, g, c)
                    }
                }
        }),
{
    let ghost o = tree@;
    let ghost e0 = effects@;
    if let Some(q) = tree.parent(child_to_remove) {
        if tree.kind(q).is_tiling() && tree.child_count(q) == 1 {
            let flat = flatten_tiling_container(tree, q, effects);
            proof {
                if let Some(g) = o[q as int].parent {
                    let mid = tree@;
                    assert(flattened(o, mid, q));
                    assert(effects@.take(e0.len() as int + 1) =~= effects@);
                    assert(o[q as int].children@[0] == child_to_remove) by {
                        assert(o[q as int].children@.contains(child_to_remove));
                    }
                    assert(o[q as int].children@.contains(child_to_remove));
                    assert(mid[child_to_remove as int].parent == Some(g));
                }
            }
            match flat {
                Ok(_) => {},
                Err(e) => {
                    return Err(e);
                },
            }
        }
    }
    let ghost mid = tree@;
    let ghost e1 = effects@;
    let parent = tree.remove_from_parent(child_to_remove)?;
    if tree.kind(parent).is_stack() {
        effects.push(SizeEffect::ResizeStack { stack: parent });
        proof {
            assert(effects@.take(e1.len() as int) =~= e1);
        }
        return Ok(());
    }
    if tree.kind(child_to_remove).is_tiling() {
        let siblings = tree.tiling_children(parent);
        effects.push(SizeEffect::Redistribute { removed: child_to_remove, siblings });
        proof {
            assert(effects@.take(e1.len() as int) =~= e1);
        }
    }
    proof {
        if leaves_empty_tiling_parent(o, child_to_remove as int) {
            let q = o[child_to_remove as int].parent.unwrap();
            assert(effects@.take(e0.len() as int + 1) =~= e1);
            assert(flattened(o, mid, q));
        }
    }
    Ok(())
}


/// Ids of the containers `ts`.
pub open spec fn ids_of(v: Seq<ContainerNode>, ts: Seq<usize>) -> Seq<u128> {
    ts.map_values(|t: usize| v[t as int].id)
}

/// The smallest index among their parent's children of the containers `ts`.
pub open spec fn min_index(v: Seq<ContainerNode>, ts: Seq<usize>) -> int
    decreases ts.len(),
{
    if ts.len() <= 1 {
        index_in_parent(v, ts[0] as int)
    } else {
        let m = min_index(v, ts.drop_last());
        let x = index_in_parent(v, ts.last() as int);
        if x < m {
            x
        } else {
            m
        }
    }
}

/// The smallest index in their parent's focus order of the containers `ts`.
pub open spec fn min_focus_index(v: Seq<ContainerNode>, ts: Seq<usize>) -> int
    decreases ts.len(),
{
    if ts.len() <= 1 {
        focus_index_in_parent(v, ts[0] as int)
    } else {
        let m = min_focus_index(v, ts.drop_last());
        let x = focus_index_in_parent(v, ts.last() as int);
        if x < m {
            x
        } else {
            m
        }
    }
}

pub proof fn lemma_min_index(v: Seq<ContainerNode>, ts: Seq<usize>)
    requires
        ts.len() > 0,
    ensures
        forall|k: int| 0 <= k < ts.len() ==> min_index(v, ts) <= index_in_parent(v, #[trigger] ts[k] as int),
        exists|k: int| 0 <= k < ts.len() && min_index(v, ts) == index_in_parent(v, #[trigger] ts[k] as int),
        forall|k: int|
            0 <= k < ts.len() ==> min_focus_index(v, ts) <= focus_index_in_parent(v, #[trigger] ts[k] as int),
        exists|k: int|
            0 <= k < ts.len() && min_focus_index(v, ts) == focus_index_in_parent(v, #[trigger] ts[k] as int),
    decreases ts.len(),
{
    if ts.len() == 1 {
        assert(min_index(v, ts) == index_in_parent(v, ts[0] as int));
        assert(min_focus_index(v, ts) == focus_index_in_parent(v, ts[0] as int));
    } else {
        let r = ts.drop_last();
        lemma_min_index(v, r);
        assert forall|k: int| 0 <= k < ts.len() implies min_index(v, ts) <= index_in_parent(v, #[trigger] ts[k] as int)
            && min_focus_index(v, ts) <= focus_index_in_parent(v, ts[k] as int) by {
            if k < r.len() {
                assert(r[k] == ts[k]);
            }
        }
        let k1 = choose|k: int| 0 <= k < r.len() && min_index(v, r) == index_in_parent(v, #[trigger] r[k] as int);
        let k2 = choose|k: int| 0 <= k < r.len() && min_focus_index(v, r) == focus_index_in_parent(v, #[trigger] r[k] as int);
        assert(r[k1] == ts[k1]);
        assert(r[k2] == ts[k2]);
        if index_in_parent(v, ts.last() as int) < min_index(v, r) {
            assert(ts[ts.len() - 1] == ts.last());
        }
        if focus_index_in_parent(v, ts.last() as int) < min_focus_index(v, r) {
            assert(ts[ts.len() - 1] == ts.last());
        }
    }
}

/// `w` is `o` after the containers `ts`, children of `p`, move into the
/// childless, detached stack `st` (whose focus order is replaced), which takes the place of the first of them
/// among `p`'s children and in `p`'s focus order.
pub open spec fn wrapped(
    o: Seq<ContainerNode>,
    w: Seq<ContainerNode>,
    st: usize,
    p: usize,
    ts: Seq<usize>,
) -> bool {
    let i0 = min_index(o, ts);
    let f0 = min_focus_index(o, ts);
    let tids = ids_of(o, ts);
    let pc = o[p as int].children@;
    let pf = o[p as int].child_focus_order@;
    &&& w.len() == o.len()
    &&& forall|x: int| 0 <= x < o.len() ==> #[trigger] same_identity(o[x], w[x])
    &&& forall|x: int|
        0 <= x < o.len() ==> #[trigger] w[x].parent == if ts.contains(x as usize) {
            Some(st)
        } else if x == st as int {
            Some(p)
        } else {
            o[x].parent
        }
    &&& forall|x: int|
        0 <= x < o.len() ==> #[trigger] w[x].children@ == if x == p as int {
            pc.take(i0) + seq![st] + without(pc.skip(i0), ts)
        } else if x == st as int {
            ts
        } else {
            o[x].children@
        }
    &&& forall|x: int|
        0 <= x < o.len() ==> #[trigger] w[x].child_focus_order@ == if x == p as int {
            pf.take(f0) + seq![o[st as int].id] + without(pf.skip(f0), tids)
        } else if x == st as int {
            pf.filter(|u: u128| tids.contains(u))
        } else {
            o[x].child_focus_order@
        }
}

/// What `wrap_in_stack_container` asks of its arguments.
pub open spec fn wrappable(o: Seq<ContainerNode>, st: usize, p: usize, ts: Seq<usize>) -> bool {
    &&& st < o.len()
    &&& p < o.len()
    &&& st != p
    &&& o[st as int].kind is Stack
    &&& o[st as int].parent is None
    &&& o[st as int].children@.len() == 0
    &&& ts.no_duplicates()
    &&& forall|k: int|
        0 <= k < ts.len() ==> #[trigger] ts[k] < o.len() && o[ts[k] as int].parent == Some(p)
            && o[ts[k] as int].kind.tiling()
}

proof fn lemma_child_ids_members(w: Seq<ContainerNode>, j: int)
    requires
        0 <= j < w.len(),
        ids_unique(w),
        children_unique(w),
        child_links(w),
    ensures
        child_ids(w, j).no_duplicates(),
        forall|u: u128|
            #[trigger] child_ids(w, j).contains(u) <==> exists|c: usize|
                #[trigger] w[j].children@.contains(c) && w[c as int].id == u,
{
    let ids = child_ids(w, j);
    let wc = w[j].children@;
    assert(wc.no_duplicates());
    assert forall|a: int, b: int| 0 <= a < ids.len() && 0 <= b < ids.len() && a != b implies ids[a]
        != ids[b] by {
        assert(wc[a] != wc[b]);
        assert(wc[a] < w.len() && wc[b] < w.len());
    }
    assert forall|u: u128| #[trigger] ids.contains(u) <==> exists|c: usize|
        #[trigger] wc.contains(c) && w[c as int].id == u by {
        if ids.contains(u) {
            let k = choose|k: int| 0 <= k < ids.len() && ids[k] == u;
            assert(wc.contains(wc[k]));
        }
        if exists|c: usize| #[trigger] wc.contains(c) && w[c as int].id == u {
            let c = choose|c: usize| #[trigger] wc.contains(c) && w[c as int].id == u;
            let k = choose|k: int| 0 <= k < wc.len() && wc[k] == c;
            assert(ids[k] == u);
        }
    }
}


/// The focus order of a container with a parent or children is duplicate
/// free and has the children's ids as members.
pub proof fn lemma_focus_members(o: Seq<ContainerNode>, j: int)
    requires
        tree_wf(o),
        0 <= j < o.len(),
        !(o[j].parent is None && o[j].children@.len() == 0),
    ensures
        o[j].child_focus_order@.no_duplicates(),
        child_ids(o, j).no_duplicates(),
        forall|u: u128|
            #[trigger] o[j].child_focus_order@.contains(u) <==> child_ids(o, j).contains(u),
{
    assert(focus_matches(o, j));
    lemma_child_ids_members(o, j);
    crate::seq_util::lemma_same_multiset_no_dup(o[j].child_focus_order@, child_ids(o, j));
    assert forall|u: u128| #[trigger] o[j].child_focus_order@.contains(u) <==> child_ids(
        o,
        j,
    ).contains(u) by {
        crate::seq_util::lemma_same_multiset_contains(o[j].child_focus_order@, child_ids(o, j), u);
    }
}

/// Facts about the targets of a wrap.
proof fn lemma_wrap_targets(o: Seq<ContainerNode>, st: usize, p: usize, ts: Seq<usize>)
    requires
        tree_wf(o),
        o.len() <= usize::MAX,
        ts.len() > 0,
        wrappable(o, st, p, ts),
    ensures
        ({
            let pc = o[p as int].children@;
            let pf = o[p as int].child_focus_order@;
            let i0 = min_index(o, ts);
            let f0 = min_focus_index(o, ts);
            let tids = ids_of(o, ts);
            &&& 0 <= i0 < pc.len()
            &&& 0 <= f0 < pf.len()
            &&& pc.no_duplicates()
            &&& pf.no_duplicates()
            &&& !pc.contains(st)
            &&& forall|c: usize| #[trigger] ts.contains(c) ==> pc.contains(c)
            &&& forall|c: usize| #[trigger] pc.take(i0).contains(c) ==> !ts.contains(c)
            &&& forall|u: u128| #[trigger] pf.take(f0).contains(u) ==> !tids.contains(u)
            &&& forall|u: u128| #[trigger] pf.contains(u) <==> child_ids(o, p as int).contains(u)
            &&& forall|u: u128|
                #[trigger] tids.contains(u) <==> exists|c: usize| #[trigger] ts.contains(c) && o[c as int].id == u
            &&& forall|c: usize| c < o.len() ==> (#[trigger] ts.contains(c) <==> tids.contains(o[c as int].id))
            &&& forall|u: u128| #[trigger] tids.contains(u) ==> pf.contains(u)
            &&& !pf.contains(o[st as int].id)
        }),
{
    let pc = o[p as int].children@;
    let pf = o[p as int].child_focus_order@;
    let i0 = min_index(o, ts);
    let f0 = min_focus_index(o, ts);
    let tids = ids_of(o, ts);
    lemma_min_index(o, ts);
    assert(ts[0] < o.len() && o[ts[0] as int].parent == Some(p));
    assert(pc.contains(ts[0]));
    lemma_focus_members(o, p as int);
    lemma_child_ids_members(o, p as int);
    assert(pc.no_duplicates());
    assert forall|c: usize| #[trigger] ts.contains(c) implies pc.contains(c) by {
        let m = choose|m: int| 0 <= m < ts.len() && ts[m] == c;
        assert(ts[m] < o.len() && o[ts[m] as int].parent == Some(p));
    }
    // each target's index and focus index
    assert forall|m: int| 0 <= m < ts.len() implies 0 <= index_in_parent(o, #[trigger] ts[m] as int)
        < pc.len() && pc[index_in_parent(o, ts[m] as int)] == ts[m] && 0 <= focus_index_in_parent(
        o,
        ts[m] as int,
    ) < pf.len() && pf[focus_index_in_parent(o, ts[m] as int)] == o[ts[m] as int].id by {
        let t = ts[m];
        assert(t < o.len() && o[t as int].parent == Some(p));
        assert(pc.contains(t));
        let k = choose|k: int| 0 <= k < pc.len() && pc[k] == t;
        lemma_index_of_unique(pc, k);
        assert(child_ids(o, p as int)[k] == o[t as int].id);
        assert(pf.contains(o[t as int].id));
        let f = choose|f: int| 0 <= f < pf.len() && pf[f] == o[t as int].id;
        lemma_index_of_unique(pf, f);
    }
    let mi = choose|k: int| 0 <= k < ts.len() && min_index(o, ts) == index_in_parent(o, #[trigger] ts[k] as int);
    let mf = choose|k: int| 0 <= k < ts.len() && min_focus_index(o, ts) == focus_index_in_parent(o, #[trigger] ts[k] as int);
    assert(0 <= index_in_parent(o, ts[mi] as int));
    assert(0 <= focus_index_in_parent(o, ts[mf] as int));
    if pc.contains(st) {
        let k = choose|k: int| 0 <= k < pc.len() && pc[k] == st;
        assert(o[pc[k] as int].parent == Some(p));
    }
    assert forall|c: usize| #[trigger] pc.take(i0).contains(c) implies !ts.contains(c) by {
        let k = choose|k: int| 0 <= k < i0 && pc.take(i0)[k] == c;
        if ts.contains(c) {
            let m = choose|m: int| 0 <= m < ts.len() && ts[m] == c;
            assert(pc[index_in_parent(o, ts[m] as int)] == ts[m]);
            assert(pc[k] == c);
            assert(index_in_parent(o, ts[m] as int) >= i0);
        }
    }
    assert forall|u: u128| #[trigger] tids.contains(u) <==> exists|c: usize| #[trigger] ts.contains(c) && o[c as int].id
        == u by {
        if tids.contains(u) {
            let m = choose|m: int| 0 <= m < tids.len() && tids[m] == u;
            assert(ts.contains(ts[m]));
        }
        if exists|c: usize| #[trigger] ts.contains(c) && o[c as int].id == u {
            let c = choose|c: usize| #[trigger] ts.contains(c) && o[c as int].id == u;
            let m = choose|m: int| 0 <= m < ts.len() && ts[m] == c;
            assert(tids[m] == u);
        }
    }
    assert forall|c: usize| c < o.len() implies (#[trigger] ts.contains(c) <==> tids.contains(
        o[c as int].id,
    )) by {
        if tids.contains(o[c as int].id) {
            let d = choose|d: usize| #[trigger] ts.contains(d) && o[d as int].id == o[c as int].id;
            let m = choose|m: int| 0 <= m < ts.len() && ts[m] == d;
            assert(ts[m] < o.len());
        }
    }
    assert forall|u: u128| #[trigger] pf.take(f0).contains(u) implies !tids.contains(u) by {
        let k = choose|k: int| 0 <= k < f0 && pf.take(f0)[k] == u;
        if tids.contains(u) {
            let m = choose|m: int| 0 <= m < tids.len() && tids[m] == u;
            assert(pf[focus_index_in_parent(o, ts[m] as int)] == o[ts[m] as int].id);
            assert(pf[k] == u);
            assert(focus_index_in_parent(o, ts[m] as int) >= f0);
        }
    }
    assert forall|u: u128| #[trigger] tids.contains(u) implies pf.contains(u) by {
        let m = choose|m: int| 0 <= m < tids.len() && tids[m] == u;
        assert(pf[focus_index_in_parent(o, ts[m] as int)] == o[ts[m] as int].id);
    }
    if pf.contains(o[st as int].id) {
        assert(child_ids(o, p as int).contains(o[st as int].id));
        let c = choose|c: usize| #[trigger] pc.contains(c) && o[c as int].id == o[st as int].id;
        let k = choose|k: int| 0 <= k < pc.len() && pc[k] == c;
        assert(c < o.len());
    }
}


/// Wrapping keeps a tree well formed.
#[verifier::spinoff_prover]
#[verifier::rlimit(80)]
pub proof fn lemma_wrapped_wf(
    o: Seq<ContainerNode>,
    w: Seq<ContainerNode>,
    st: usize,
    p: usize,
    ts: Seq<usize>,
)
    requires
        tree_wf(o),
        o.len() <= usize::MAX,
        ts.len() > 0,
        wrappable(o, st, p, ts),
        wrapped(o, w, st, p, ts),
    ensures
        tree_wf(w),
{
    let pc = o[p as int].children@;
    let pf = o[p as int].child_focus_order@;
    let i0 = min_index(o, ts);
    let f0 = min_focus_index(o, ts);
    let tids = ids_of(o, ts);
    let sid = o[st as int].id;
    lemma_wrap_targets(o, st, p, ts);
    let np = pc.take(i0) + seq![st] + without(pc.skip(i0), ts);
    let nf = pf.take(f0) + seq![sid] + without(pf.skip(f0), tids);
    let sf = pf.filter(|u: u128| tids.contains(u));
    let notin_ts = |c: usize| !ts.contains(c);
    let notin_tids = |u: u128| !tids.contains(u);
    let in_tids = |u: u128| tids.contains(u);
    // the new children of p
    lemma_take_skip_disjoint(pc, i0);
    lemma_filter_no_dup(pc.skip(i0), notin_ts);
    assert forall|c: usize| #[trigger] without(pc.skip(i0), ts).contains(c) <==> (pc.skip(i0).contains(c)
        && !ts.contains(c)) by {
        lemma_filter_contains_iff(pc.skip(i0), notin_ts, c);
    }
    lemma_concat_no_dup(pc.take(i0), seq![st]);
    assert forall|c: usize| #[trigger] (pc.take(i0) + seq![st]).contains(c) implies !without(
        pc.skip(i0),
        ts,
    ).contains(c) by {
        if c == st {
            assert(!pc.contains(st));
        }
    }
    lemma_concat_no_dup(pc.take(i0) + seq![st], without(pc.skip(i0), ts));
    assert forall|c: usize| #[trigger] np.contains(c) <==> ((pc.contains(c) && !ts.contains(c)) || c
        == st) by {
        assert(seq![st].contains(c) <==> c == st) by {
            if c == st {
                assert(seq![st][0] == st);
            }
        }
    }
    // the new focus order of p
    lemma_take_skip_disjoint(pf, f0);
    lemma_filter_no_dup(pf.skip(f0), notin_tids);
    assert forall|u: u128| #[trigger] without(pf.skip(f0), tids).contains(u) <==> (pf.skip(f0).contains(
        u,
    ) && !tids.contains(u)) by {
        lemma_filter_contains_iff(pf.skip(f0), notin_tids, u);
    }
    lemma_concat_no_dup(pf.take(f0), seq![sid]);
    assert forall|u: u128| #[trigger] (pf.take(f0) + seq![sid]).contains(u) implies !without(
        pf.skip(f0),
        tids,
    ).contains(u) by {
        if u == sid {
            assert(!pf.contains(sid));
        }
    }
    lemma_concat_no_dup(pf.take(f0) + seq![sid], without(pf.skip(f0), tids));
    assert forall|u: u128| #[trigger] nf.contains(u) <==> ((pf.contains(u) && !tids.contains(u)) || u
        == sid) by {
        assert(seq![sid].contains(u) <==> u == sid) by {
            if u == sid {
                assert(seq![sid][0] == sid);
            }
        }
    }
    // the focus order of the stack
    lemma_filter_no_dup(pf, in_tids);
    assert forall|u: u128| #[trigger] sf.contains(u) <==> tids.contains(u) by {
        lemma_filter_contains_iff(pf, in_tids, u);
    }
    // per-container facts
    assert forall|x: int| 0 <= x < o.len() implies #[trigger] w[x].kind == o[x].kind && w[x].id
        == o[x].id && w[x].parent == (if ts.contains(x as usize) {
        Some(st)
    } else if x == st as int {
        Some(p)
    } else {
        o[x].parent
    }) && w[x].children@ == (if x == p as int {
        np
    } else if x == st as int {
        ts
    } else {
        o[x].children@
    }) && w[x].child_focus_order@ == (if x == p as int {
        nf
    } else if x == st as int {
        sf
    } else {
        o[x].child_focus_order@
    }) by {
        assert(same_identity(o[x], w[x]));
    }
    assert(ids_unique(w)) by {
        assert forall|a: int, b: int| 0 <= a < w.len() && 0 <= b < w.len() && a != b implies #[trigger] w[a].id
            != #[trigger] w[b].id by {
            assert(w[a].kind == o[a].kind);
            assert(w[b].kind == o[b].kind);
        }
    }
    assert(parent_links(w)) by {
        assert forall|x: int| 0 <= x < w.len() && (#[trigger] w[x].parent) is Some implies {
            let q = w[x].parent.unwrap();
            &&& q < w.len()
            &&& w[q as int].children@.contains(x as usize)
        } by {
            assert(w[x].kind == o[x].kind);
            if ts.contains(x as usize) {
                assert(w[st as int].kind == o[st as int].kind);
            } else if x == st as int {
                assert(w[p as int].kind == o[p as int].kind);
                assert(np.contains(st));
            } else {
                let q = o[x].parent.unwrap();
                assert(o[x].parent is Some);
                assert(o[q as int].children@.contains(x as usize));
                assert(w[q as int].kind == o[q as int].kind);
                if q == st {
                    assert(o[st as int].children@.len() == 0);
                } else if q == p {
                    assert(np.contains(x as usize));
                }
            }
        }
    }
    assert(child_links(w)) by {
        assert forall|j: int, k: int| 0 <= j < w.len() && 0 <= k < w[j].children@.len() implies {
            let c = #[trigger] w[j].children@[k];
            &&& c < w.len()
            &&& w[c as int].parent == Some(j as usize)
        } by {
            let c = w[j].children@[k];
            assert(w[j].kind == o[j].kind);
            assert(w[j].children@.contains(c));
            if j == p as int {
                assert(np.contains(c));
                if c != st {
                    assert(pc.contains(c));
                    let m = choose|m: int| 0 <= m < pc.len() && pc[m] == c;
                    assert(o[p as int].children@[m] == c);
                }
                assert(w[c as int].kind == o[c as int].kind);
            } else if j == st as int {
                let m = choose|m: int| 0 <= m < ts.len() && ts[m] == c;
                assert(ts[m] < o.len());
                assert(w[c as int].kind == o[c as int].kind);
            } else {
                assert(o[j].children@[k] == c);
                assert(o[c as int].parent == Some(j as usize));
                if ts.contains(c) {
                    let m = choose|m: int| 0 <= m < ts.len() && ts[m] == c;
                    assert(o[ts[m] as int].parent == Some(p));
                }
                assert(w[c as int].kind == o[c as int].kind);
            }
        }
    }
    assert(children_unique(w)) by {
        assert forall|j: int| 0 <= j < w.len() implies (#[trigger] w[j].children@).no_duplicates() by {
            assert(w[j].kind == o[j].kind);
            assert(o[j].children@.no_duplicates());
        }
    }
    assert(focus_orders(w)) by {
        assert forall|j: int| 0 <= j < w.len() implies #[trigger] focus_matches(w, j) by {
            assert(w[j].kind == o[j].kind);
            assert(focus_matches(o, j));
            lemma_child_ids_members(w, j);
            if j == p as int {
                assert forall|u: u128| nf.contains(u) <==> child_ids(w, j).contains(u) by {
                    if child_ids(w, j).contains(u) {
                        let c = choose|c: usize| #[trigger] w[j].children@.contains(c) && w[c as int].id == u;
                        assert(np.contains(c));
                        if c != st {
                            assert(pc.contains(c));
                            let m = choose|m: int| 0 <= m < pc.len() && pc[m] == c;
                            assert(c < o.len());
                            assert(w[c as int].kind == o[c as int].kind);
                            assert(child_ids(o, p as int)[m] == u);
                            assert(!tids.contains(u));
                        } else {
                            assert(w[st as int].kind == o[st as int].kind);
                        }
                    }
                    if nf.contains(u) {
                        if u == sid {
                            assert(w[j].children@.contains(st));
                            assert(w[st as int].kind == o[st as int].kind);
                        } else {
                            assert(child_ids(o, p as int).contains(u));
                            let m = choose|m: int| 0 <= m < pc.len() && child_ids(o, p as int)[m] == u;
                            let c = pc[m];
                            assert(o[p as int].children@[m] == c);
                            assert(c < o.len());
                            assert(!ts.contains(c));
                            assert(np.contains(c));
                            assert(w[c as int].kind == o[c as int].kind);
                        }
                    }
                }
                lemma_same_members_multiset(nf, child_ids(w, j));
            } else if j == st as int {
                assert forall|u: u128| sf.contains(u) <==> child_ids(w, j).contains(u) by {
                    if child_ids(w, j).contains(u) {
                        let c = choose|c: usize| #[trigger] w[j].children@.contains(c) && w[c as int].id == u;
                        assert(ts.contains(c));
                        let m = choose|m: int| 0 <= m < ts.len() && ts[m] == c;
                        assert(ts[m] < o.len());
                        assert(w[c as int].kind == o[c as int].kind);
                    }
                    if sf.contains(u) {
                        let c = choose|c: usize| #[trigger] ts.contains(c) && o[c as int].id == u;
                        let m = choose|m: int| 0 <= m < ts.len() && ts[m] == c;
                        assert(ts[m] < o.len());
                        assert(w[c as int].kind == o[c as int].kind);
                        assert(w[j].children@.contains(c));
                    }
                }
                lemma_same_members_multiset(sf, child_ids(w, j));
            } else {
                assert(child_ids(w, j) =~= child_ids(o, j)) by {
                    assert forall|k: int| 0 <= k < o[j].children@.len() implies w[o[j].children@[k] as int].id
                        == o[o[j].children@[k] as int].id by {
                        assert(o[j].children@[k] < o.len());
                        assert(w[o[j].children@[k] as int].kind == o[o[j].children@[k] as int].kind);
                    }
                }
                if ts.contains(j as usize) {
                    let m = choose|m: int| 0 <= m < ts.len() && ts[m] == j as usize;
                    assert(o[ts[m] as int].parent == Some(p));
                }
            }
        }
    }
    assert(kinds_fit(w)) by {
        assert forall|j: int, k: int|
            0 <= j < w.len() && (w[j].kind is Split || w[j].kind is Stack) && 0 <= k
                < w[j].children@.len() implies (#[trigger] w[w[j].children@[k] as int]).kind.tiling() by {
            let c = w[j].children@[k];
            assert(w[j].kind == o[j].kind);
            assert(w[j].children@.contains(c));
            if j == p as int {
                assert(np.contains(c));
                if c != st {
                    let m = choose|m: int| 0 <= m < pc.len() && pc[m] == c;
                    assert(o[p as int].children@[m] == c);
                    assert(o[c as int].kind.tiling());
                }
            } else if j == st as int {
                let m = choose|m: int| 0 <= m < ts.len() && ts[m] == c;
                assert(ts[m] < o.len());
            } else {
                assert(o[j].children@[k] == c);
            }
            assert(w[c as int].kind == o[c as int].kind);
        }
        assert forall|j: int| 0 <= j < w.len() && (#[trigger] w[j].kind).window() implies w[j].children@.len()
            == 0 by {
            assert(w[j].kind == o[j].kind);
            if j == p as int {
                assert(pc.contains(ts[0]));
            }
        }
    }
}


impl ContainerTree {
    /// The smallest index among their parent's children, and the smallest
    /// index in their parent's focus order, of the containers `ts`.
    fn min_indices(&self, ts: &Vec<usize>) -> (r: (usize, usize))
        requires
            self.wf(),
            ts@.len() > 0,
            forall|k: int| 0 <= k < ts@.len() ==> #[trigger] ts@[k] < self@.len(),
        ensures
            r.0 == min_index(self@, ts@),
            r.1 == min_focus_index(self@, ts@),
    {
        let mut i0 = self.index(ts[0]);
        let mut f0 = self.focus_index(ts[0]);
        proof {
            assert(ts@.take(1).len() == 1);
            assert(ts@.take(1)[0] == ts@[0]);
        }
        let mut k: usize = 1;
        while k < ts.len()
            invariant
                self.wf(),
                1 <= k <= ts@.len(),
                forall|m: int| 0 <= m < ts@.len() ==> #[trigger] ts@[m] < self@.len(),
                i0 == min_index(self@, ts@.take(k as int)),
                f0 == min_focus_index(self@, ts@.take(k as int)),
            decreases ts@.len() - k,
        {
            let x = self.index(ts[k]);
            let f = self.focus_index(ts[k]);
            proof {
                let t1 = ts@.take(k + 1);
                assert(t1.drop_last() =~= ts@.take(k as int));
                assert(t1.last() == ts@[k as int]);
                assert(t1.len() > 1);
            }
            if x < i0 {
                i0 = x;
            }
            if f < f0 {
                f0 = f;
            }
            k = k + 1;
        }
        proof {
            assert(ts@.take(k as int) =~= ts@);
        }
        (i0, f0)
    }

    /// Ids of the containers `ts`.
    fn ids_of_vec(&self, ts: &Vec<usize>) -> (r: Vec<u128>)
        requires
            forall|k: int| 0 <= k < ts@.len() ==> #[trigger] ts@[k] < self@.len(),
        ensures
            r@ == ids_of(self@, ts@),
    {
        let mut r: Vec<u128> = Vec::new();
        let mut k: usize = 0;
        while k < ts.len()
            invariant
                k <= ts@.len(),
                forall|m: int| 0 <= m < ts@.len() ==> #[trigger] ts@[m] < self@.len(),
                r@ == ids_of(self@, ts@.take(k as int)),
            decreases ts@.len() - k,
        {
            let t = ts[k];
            r.push(self.nodes[t].id);
            k = k + 1;
            proof {
                assert(r@ =~= ids_of(self@, ts@.take(k as int)));
            }
        }
        proof {
            assert(ts@.take(k as int) =~= ts@);
        }
        r
    }
}

/// Moves the tiling containers `target_children`, children of
/// `target_parent`, into the empty stack `stack_container`, which takes
/// their place (that of the first of them) in the parent's children and
/// focus order; the stack keeps their focus order.
///
/// The stack takes their summed size and its children are resized for the
/// stack (logged as `SizeEffect::Wrap`).
#[verifier::spinoff_prover]
#[verifier::rlimit(40)]
pub fn wrap_in_stack_container(
    tree: &mut ContainerTree,
    stack_container: usize,
    target_parent: usize,
    target_children: &Vec<usize>,
    effects: &mut Vec<SizeEffect>,
) -> (r: Result<(), TreeError>)
    requires
        old(tree).wf(),
        wrappable(old(tree)@, stack_container, target_parent, target_children@),
    ensures
        final(tree).wf(),
        target_children@.len() == 0 ==> {
            &&& r == Err::<(), TreeError>(TreeError::NoTargets)
            &&& final(tree)@ == old(tree)@
            &&& final(effects)@ == old(effects)@
        },
        target_children@.len() > 0 ==> {
            &&& r == Ok::<(), TreeError>(())
            &&& wrapped(old(tree)@, final(tree)@, stack_container, target_parent, target_children@)
            &&& pushed_one(old(effects)@, final(effects)@)
            &&& final(effects)@.last() matches SizeEffect::Wrap { stack, children }
            &&& stack == stack_container
            &&& children@ == target_children@
        },
{
    if target_children.len() == 0 {
        return Err(TreeError::NoTargets);
    }
    let st = stack_container;
    let p = target_parent;
    let n = tree.nodes.len();
    let ghost o = tree@;
    let (i0, f0) = tree.min_indices(target_children);
    let tids = tree.ids_of_vec(target_children);
    proof {
        lemma_wrap_targets(o, st, p, target_children@);
    }
    let mut np: Vec<usize> = Vec::new();
    push_prefix(&mut np, &tree.nodes[p].children, i0);
    np.push(st);
    push_without_usize(&mut np, &tree.nodes[p].children, i0, target_children);
    let sid = tree.nodes[st].id;
    let mut nf: Vec<u128> = Vec::new();
    push_prefix(&mut nf, &tree.nodes[p].child_focus_order, f0);
    nf.push(sid);
    push_without_u128(&mut nf, &tree.nodes[p].child_focus_order, f0, &tids);
    let sf = keep_u128(&tree.nodes[p].child_focus_order, &tids);
    let moved = copy_vec(target_children);
    proof {
        let pc = o[p as int].children@;
        let pf = o[p as int].child_focus_order@;
        assert(np@ =~= pc.take(i0 as int) + seq![st] + without(pc.skip(i0 as int), target_children@));
        assert(nf@ =~= pf.take(f0 as int) + seq![sid] + without(pf.skip(f0 as int), tids@));
    }
    // the targets move under the stack
    let mut k: usize = 0;
    while k < moved.len()
        invariant
            tree.rank == old(tree).rank,
            o == old(tree)@,
            old(tree).wf(),
            n == o.len(),
            moved@ == target_children@,
            wrappable(o, st, p, moved@),
            k <= moved@.len(),
            reparented(o, tree@, moved@.take(k as int), st),
        decreases moved@.len() - k,
    {
        let c = moved[k];
        proof {
            assert(moved@[k as int] < o.len());
        }
        let ghost prev = tree@;
        tree.nodes[c].parent = Some(st);
        proof {
            lemma_reparent_step(o, prev, tree@, moved@, k as int, st);
        }
        k = k + 1;
    }
    proof {
        assert(moved@.take(k as int) =~= moved@);
    }
    let ghost mid = tree@;
    tree.nodes[p].children = np;
    tree.nodes[p].child_focus_order = nf;
    tree.nodes[st].parent = Some(p);
    tree.nodes[st].children = moved;
    tree.nodes[st].child_focus_order = sf;
    proof {
        let w = tree@;
        let ts = target_children@;
        assert(!ts.contains(st)) by {
            if ts.contains(st) {
                let m = choose|m: int| 0 <= m < ts.len() && ts[m] == st;
                assert(o[ts[m] as int].parent == Some(p));
            }
        }
        assert forall|x: int| 0 <= x < o.len() implies #[trigger] w[x].id == o[x].id && same_identity(o[x], w[x])
            && (x != p && x != st ==> w[x].children@ == o[x].children@ && w[x].child_focus_order@
            == o[x].child_focus_order@ && w[x].parent == mid[x].parent) by {
            assert(reparented(o, mid, ts, st));
            assert(same_identity(o[x], mid[x]));
        }
        assert(wrapped(o, w, st, p, ts)) by {
            assert forall|x: int| 0 <= x < o.len() implies #[trigger] same_identity(o[x], w[x]) by {
                assert(w[x].id == o[x].id);
            }
            assert forall|x: int| 0 <= x < o.len() implies #[trigger] w[x].parent == if ts.contains(
                x as usize,
            ) {
                Some(st)
            } else if x == st as int {
                Some(p)
            } else {
                o[x].parent
            } by {
                assert(w[x].id == o[x].id);
                assert(reparented(o, mid, ts, st));
                assert(same_identity(o[x], mid[x]));
                if x == p as int {
                    assert(!ts.contains(p)) by {
                        if ts.contains(p) {
                            let m = choose|m: int| 0 <= m < ts.len() && ts[m] == p;
                            assert(o[ts[m] as int].parent == Some(p));
                            assert(o[p as int].children@.contains(p));
                        }
                    }
                }
            }
            assert forall|x: int| 0 <= x < o.len() implies #[trigger] w[x].children@ == if x
                == p as int {
                o[p as int].children@.take(min_index(o, ts)) + seq![st] + without(
                    o[p as int].children@.skip(min_index(o, ts)),
                    ts,
                )
            } else if x == st as int {
                ts
            } else {
                o[x].children@
            } by {
                assert(w[x].id == o[x].id);
            }
            assert forall|x: int| 0 <= x < o.len() implies #[trigger] w[x].child_focus_order@
                == if x == p as int {
                o[p as int].child_focus_order@.take(min_focus_index(o, ts)) + seq![o[st as int].id]
                    + without(o[p as int].child_focus_order@.skip(min_focus_index(o, ts)), ids_of(o, ts))
            } else if x == st as int {
                o[p as int].child_focus_order@.filter(|u: u128| ids_of(o, ts).contains(u))
            } else {
                o[x].child_focus_order@
            } by {
                assert(w[x].id == o[x].id);
            }
        }
        lemma_wrapped_wf(o, w, st, p, ts);
        let nr = Seq::new(
            n as nat,
            |x: int|
                if x == st as int {
                    2 * tree.rank@[p as int] + 1
                } else {
                    2 * tree.rank@[x]
                },
        );
        assert forall|x: int| 0 <= x < w.len() && (#[trigger] w[x].parent) is Some implies nr[w[x].parent.unwrap() as int]
            < nr[x] by {
            assert(w[x].id == o[x].id);
            if ts.contains(x as usize) {
                let m = choose|m: int| 0 <= m < ts.len() && ts[m] == x as usize;
                assert(o[ts[m] as int].parent == Some(p));
                assert(o[x].parent is Some);
            } else if x != st as int {
                assert(o[x].parent is Some);
            }
        }
        tree.rank@ = nr;
        assert(tree.ranked());
    }
    effects.push(SizeEffect::Wrap { stack: st, children: copy_vec(target_children) });
    proof {
        assert(effects@.take(old(effects)@.len() as int) =~= old(effects)@);
    }
    Ok(())
}


/// `g` is `o` with one more container at its end: an empty, detached,
/// vertical stack with the gaps `gaps` and an id no container of `o` has.
pub open spec fn stack_added(o: Seq<ContainerNode>, g: Seq<ContainerNode>, gaps: GapsConfig) -> bool {
    let n = o.len() as int;
    &&& g.len() == o.len() + 1
    &&& g.take(n) == o
    &&& g[n].kind is Stack
    &&& g[n].parent is None
    &&& g[n].children@.len() == 0
    &&& g[n].child_focus_order@.len() == 0
    &&& g[n].tiling_direction is Vertical
    &&& g[n].gaps_config == Some(gaps)
    &&& forall|x: int| 0 <= x < n ==> o[x].id != #[trigger] g[n].id
}

/// A stack container, named by its index in the tree.
pub struct StackContainer(pub usize);

impl StackContainer {
    /// Adds an empty, detached stack container with a random id; should the
    /// drawn id be in use, the smallest free id is taken instead.
    pub fn new(
        tree: &mut ContainerTree,
        tiling_direction: TilingDirection,
        gaps_config: GapsConfig,
    ) -> (st: StackContainer)
        requires
            old(tree).wf(),
        ensures
            final(tree).wf(),
            stack_made(old(tree)@, final(tree)@, st.0, tiling_direction, gaps_config),
    {
        let drawn = new_container_id();
        StackContainer::with_fresh_id(tree, tiling_direction, gaps_config, drawn)
    }

    /// Adds an empty, detached stack container whose id is `drawn` when that
    /// is free, and otherwise the smallest free id.
    pub fn with_fresh_id(
        tree: &mut ContainerTree,
        tiling_direction: TilingDirection,
        gaps_config: GapsConfig,
        drawn: u128,
    ) -> (st: StackContainer)
        requires
            old(tree).wf(),
        ensures
            final(tree).wf(),
            stack_made(old(tree)@, final(tree)@, st.0, tiling_direction, gaps_config),
            fresh_choice(old(tree)@, drawn, final(tree)@[st.0 as int].id),
    {
        let id = tree.fresh_id(drawn);
        let n = tree.len();
        match StackContainer::with_id(tree, tiling_direction, gaps_config, id) {
            Ok(st) => st,
            Err(_) => {
                // `id` is free, so adding the stack cannot fail.
                proof {
                    assert(false);
                }
                StackContainer(n)
            },
        }
    }

    /// Adds an empty, detached stack container with the id `id`.
    ///
    /// Fails with `IdCollision` exactly when `id` is already in use.
    pub fn with_id(
        tree: &mut ContainerTree,
        tiling_direction: TilingDirection,
        gaps_config: GapsConfig,
        id: u128,
    ) -> (r: Result<StackContainer, TreeError>)
        requires
            old(tree).wf(),
        ensures
            final(tree).wf(),
            r is Err <==> exists|x: int| 0 <= x < old(tree)@.len() && old(tree)@[x].id == id,
            r is Err ==> r == Err::<StackContainer, TreeError>(TreeError::IdCollision)
                && final(tree)@ == old(tree)@,
            r matches Ok(st) ==> stack_made(old(tree)@, final(tree)@, st.0, tiling_direction, gaps_config)
                && final(tree)@[st.0 as int].id == id,
    {
        match tree.add_detached(id, ContainerKind::Stack, tiling_direction, Some(gaps_config)) {
            Ok(n) => Ok(StackContainer(n)),
            Err(e) => Err(e),
        }
    }
}

/// `w` is `o` with the stack `st` added at its end: empty, detached, with
/// the given direction and gaps, and an id no container of `o` has.
pub open spec fn stack_made(
    o: Seq<ContainerNode>,
    w: Seq<ContainerNode>,
    st: usize,
    tiling_direction: TilingDirection,
    gaps_config: GapsConfig,
) -> bool {
    let n = o.len() as int;
    &&& st == n
    &&& w.len() == n + 1
    &&& w.take(n) == o
    &&& w[n].kind is Stack
    &&& w[n].parent is None
    &&& w[n].children@.len() == 0
    &&& w[n].child_focus_order@.len() == 0
    &&& w[n].tiling_direction == tiling_direction
    &&& w[n].gaps_config == Some(gaps_config)
    &&& forall|x: int| 0 <= x < n ==> o[x].id != #[trigger] w[n].id
}

/// Where the toggle of `win` in `o` makes a new stack, the stack, at the
/// end of `t`, takes its id from `drawn` (see `fresh_choice`).
pub open spec fn wraps_with_id(
    o: Seq<ContainerNode>,
    t: Seq<ContainerNode>,
    win: usize,
    drawn: u128,
) -> bool {
    (o[win as int].parent matches Some(p) && !(o[p as int].kind is Stack)) ==> fresh_choice(
        o,
        drawn,
        t[o.len() as int].id,
    )
}

/// The outcome of toggling the stack around the tiling window `win` of
/// `o`, giving `t`, the log going from `e0` to `e1`, with result `r`: a
/// window whose parent is a stack leaves it (the stack is flattened);
/// otherwise a new vertical stack with the gaps `gaps` wraps it.
pub open spec fn window_stack_toggled(
    o: ContainerTree,
    t: ContainerTree,
    e0: Seq<SizeEffect>,
    e1: Seq<SizeEffect>,
    win: usize,
    gaps: GapsConfig,
    r: Result<usize, TreeError>,
) -> bool {
    let v = o@;
    let p = v[win as int].parent.unwrap();
    let g = v[p as int].parent.unwrap();
    if v[win as int].parent is None {
        &&& r == Err::<usize, TreeError>(TreeError::NoDirectionContainer)
        &&& t@ == v
        &&& e1 == e0
    } else if v[p as int].kind is Stack {
        if v[p as int].parent is None {
            &&& r == Err::<usize, TreeError>(TreeError::NoParent)
            &&& t@ == v
            &&& e1 == e0
        } else {
            &&& flattened(v, t@, p)
            &&& pushed_one(e0, e1)
            &&& inherit_logged(e1, v, p)
            &&& r == match nearest_direction(t@, g as int, (t.height(g as int) + 1) as nat) {
                Some(d) => Ok::<usize, TreeError>(d),
                None => Err::<usize, TreeError>(TreeError::ParentNotDirectionContainer),
            }
        }
    } else {
        &&& r == Ok::<usize, TreeError>(v.len() as usize)
        &&& pushed_one(e0, e1)
        &&& e1.last() matches SizeEffect::Wrap { stack, children }
        &&& stack == v.len() as usize
        &&& children@ == seq![win]
        &&& exists|gr: Seq<ContainerNode>|
            #[trigger] stack_added(v, gr, gaps) && wrapped(gr, t@, v.len() as usize, p, seq![win])
    }
}

/// Puts a tiling window into a new stack in its place, or, when it already
/// sits in a stack, flattens that stack. Gives the direction container to
/// redraw.
#[verifier::spinoff_prover]
pub(crate) fn toggle_window_stack(
    tree: &mut ContainerTree,
    tiling_window: usize,
    gaps: GapsConfig,
    effects: &mut Vec<SizeEffect>,
) -> (r: Result<usize, TreeError>)
    requires
        old(tree).wf(),
        old(tree).valid(tiling_window as int),
        old(tree)@[tiling_window as int].kind is TilingWindow,
    ensures
        final(tree).wf(),
        window_stack_toggled(*old(tree), *final(tree), old(effects)@, final(effects)@, tiling_window, gaps, r),
{
    let id = new_container_id();
    toggle_window_stack_with_id(tree, tiling_window, gaps, id, effects)
}

/// `toggle_window_stack` with `id` drawn for the stack it may make (see
/// `wraps_with_id`).
#[verifier::spinoff_prover]
pub(crate) fn toggle_window_stack_with_id(
    tree: &mut ContainerTree,
    tiling_window: usize,
    gaps: GapsConfig,
    id: u128,
    effects: &mut Vec<SizeEffect>,
) -> (r: Result<usize, TreeError>)
    requires
        old(tree).wf(),
        old(tree).valid(tiling_window as int),
        old(tree)@[tiling_window as int].kind is TilingWindow,
    ensures
        final(tree).wf(),
        window_stack_toggled(*old(tree), *final(tree), old(effects)@, final(effects)@, tiling_window, gaps, r),
        wraps_with_id(old(tree)@, final(tree)@, tiling_window, id),
{
    let ghost o = tree@;
    let parent = match tree.direction_container(tiling_window) {
        Some(d) => d,
        None => {
            proof {
                if let Some(p) = o[tiling_window as int].parent {
                    assert(o[p as int].kind.direction());
                    tree.lemma_enough_fuel(p as int, tree.height(tiling_window as int));
                    assert(tree.rank@[p as int] < tree.rank@[tiling_window as int]);
                }
            }
            return Err(TreeError::NoDirectionContainer);
        },
    };
    proof {
        if let Some(p) = o[tiling_window as int].parent {
            assert(o[p as int].kind.direction());
            assert(tree.rank@[p as int] < tree.rank@[tiling_window as int]);
            tree.lemma_enough_fuel(p as int, tree.height(tiling_window as int));
        }
        assert(o[tiling_window as int].parent == Some(parent));
    }
    if tree.kind(parent).is_stack() {
        return flatten_tiling_container(tree, parent, effects);
    }
    let stack = StackContainer::with_fresh_id(tree, TilingDirection::Vertical, gaps, id);
    let ghost gr = tree@;
    let n = stack.0;
    proof {
        assert(gr.take(n as int) == o);
        assert(gr[tiling_window as int] == o[tiling_window as int]);
        assert(gr[parent as int] == o[parent as int]);
    }
    let mut targets: Vec<usize> = Vec::new();
    targets.push(tiling_window);
    proof {
        assert(targets@ =~= seq![tiling_window]);
        assert(wrappable(gr, n, parent, targets@)) by {
            assert forall|k: int| 0 <= k < targets@.len() implies #[trigger] targets@[k] < gr.len()
                && gr[targets@[k] as int].parent == Some(parent) && gr[targets@[k] as int].kind.tiling() by {
                assert(targets@[k] == tiling_window);
            }
        }
    }
    let res = wrap_in_stack_container(tree, n, parent, &targets, effects);
    proof {
        assert(stack_added(o, gr, gaps));
        assert(wrapped(gr, tree@, n, parent, seq![tiling_window]));
        assert(same_identity(gr[n as int], tree@[n as int]));
        assert(targets@.len() > 0);
    }
    match res {
        Ok(()) => Ok(n),
        Err(e) => Err(e),
    }
}


/// The containers whose id moves to the front of their parent's focus order
/// when focus goes to `t` up to `end`: `t` and its ancestors, each while it
/// has a parent, stopping after the one whose id is that of `end` (looking
/// at no more than `fuel` containers).
pub open spec fn focus_path(v: Seq<ContainerNode>, t: int, end: Option<usize>, fuel: nat) -> Seq<
    usize,
>
    decreases fuel,
{
    if fuel == 0 || v[t].parent is None {
        Seq::empty()
    } else if end matches Some(e) && v[t].id == v[e as int].id {
        seq![t as usize]
    } else {
        seq![t as usize] + focus_path(v, v[t].parent.unwrap() as int, end, (fuel - 1) as nat)
    }
}

/// The focus order of `x` after the containers of `path`, one after the
/// other, move to the front of their parent's focus order.
pub open spec fn refocused(o: Seq<ContainerNode>, path: Seq<usize>, x: int) -> Seq<u128>
    decreases path.len(),
{
    if path.len() == 0 {
        o[x].child_focus_order@
    } else {
        let t = path.last();
        let f = refocused(o, path.drop_last(), x);
        if o[t as int].parent == Some(x as usize) {
            move_to_front(f, o[t as int].id)
        } else {
            f
        }
    }
}

/// The size work of moving focus along `path`: each container of `path`
/// whose parent is a stack fills the stack.
pub open spec fn fills(o: Seq<ContainerNode>, path: Seq<usize>) -> Seq<SizeEffect>
    decreases path.len(),
{
    if path.len() == 0 {
        Seq::empty()
    } else {
        let t = path.last();
        let rest = fills(o, path.drop_last());
        if o[o[t as int].parent.unwrap() as int].kind is Stack {
            rest.push(SizeEffect::Fill { target: t })
        } else {
            rest
        }
    }
}

/// `w` is `o` with the focus orders moved along `path`.
pub open spec fn focus_moved(o: Seq<ContainerNode>, w: Seq<ContainerNode>, path: Seq<usize>) -> bool {
    &&& w.len() == o.len()
    &&& forall|x: int|
        0 <= x < o.len() ==> {
            &&& #[trigger] same_identity(o[x], w[x])
            &&& w[x].parent == o[x].parent
            &&& w[x].children@ == o[x].children@
            &&& w[x].child_focus_order@ == refocused(o, path, x)
        }
}

/// Moving an id of a focus order to its front keeps a tree well formed.
#[verifier::spinoff_prover]
proof fn lemma_shift_wf(v: Seq<ContainerNode>, w: Seq<ContainerNode>, x: int, u: u128)
    requires
        tree_wf(v),
        0 <= x < v.len(),
        v[x].child_focus_order@.contains(u),
        w.len() == v.len(),
        forall|y: int|
            0 <= y < v.len() ==> {
                &&& #[trigger] same_identity(v[y], w[y])
                &&& w[y].parent == v[y].parent
                &&& w[y].children@ == v[y].children@
                &&& y != x ==> w[y].child_focus_order@ == v[y].child_focus_order@
            },
        w[x].child_focus_order@ == move_to_front(v[x].child_focus_order@, u),
    ensures
        tree_wf(w),
{
    assert forall|y: int| 0 <= y < v.len() implies #[trigger] w[y].kind == v[y].kind && w[y].id
        == v[y].id by {
        assert(same_identity(v[y], w[y]));
    }
    assert(ids_unique(w)) by {
        assert forall|a: int, b: int| 0 <= a < w.len() && 0 <= b < w.len() && a != b implies #[trigger] w[a].id
            != #[trigger] w[b].id by {
            assert(same_identity(v[a], w[a]));
            assert(same_identity(v[b], w[b]));
        }
    }
    assert(parent_links(w)) by {
        assert forall|y: int| 0 <= y < w.len() && (#[trigger] w[y].parent) is Some implies {
            let p = w[y].parent.unwrap();
            &&& p < w.len()
            &&& w[p as int].children@.contains(y as usize)
        } by {
            assert(same_identity(v[y], w[y]));
            assert(v[y].parent is Some);
            assert(same_identity(v[v[y].parent.unwrap() as int], w[v[y].parent.unwrap() as int]));
        }
    }
    assert(child_links(w)) by {
        assert forall|j: int, k: int| 0 <= j < w.len() && 0 <= k < w[j].children@.len() implies {
            let c = #[trigger] w[j].children@[k];
            &&& c < w.len()
            &&& w[c as int].parent == Some(j as usize)
        } by {
            assert(same_identity(v[j], w[j]));
            assert(v[j].children@[k] == w[j].children@[k]);
            assert(same_identity(v[w[j].children@[k] as int], w[w[j].children@[k] as int]));
        }
    }
    assert(children_unique(w)) by {
        assert forall|j: int| 0 <= j < w.len() implies (#[trigger] w[j].children@).no_duplicates() by {
            assert(same_identity(v[j], w[j]));
        }
    }
    assert(focus_orders(w)) by {
        assert forall|j: int| 0 <= j < w.len() implies #[trigger] focus_matches(w, j) by {
            assert(same_identity(v[j], w[j]));
            assert(focus_matches(v, j));
            assert(child_ids(w, j) =~= child_ids(v, j)) by {
                assert forall|k: int| 0 <= k < v[j].children@.len() implies w[v[j].children@[k] as int].id
                    == v[v[j].children@[k] as int].id by {
                    assert(v[j].children@[k] < v.len());
                    assert(same_identity(v[v[j].children@[k] as int], w[v[j].children@[k] as int]));
                }
            }
            if j == x {
                let f = v[x].child_focus_order@;
                let i = f.index_of(u);
                assert(0 <= i < f.len() && f[i] == u);
                assert(f.remove(i).to_multiset() =~= f.to_multiset().remove(u));
                vstd::seq_lib::lemma_multiset_commutative(seq![u], f.remove(i));
                assert(seq![u].to_multiset() =~= vstd::multiset::Multiset::<u128>::empty().insert(u)) by {
                    assert(seq![u] =~= Seq::<u128>::empty().push(u));
                }
                assert(move_to_front(f, u).to_multiset() =~= f.to_multiset());
            }
        }
    }
    assert(kinds_fit(w)) by {
        assert forall|j: int, k: int|
            0 <= j < w.len() && (w[j].kind is Split || w[j].kind is Stack) && 0 <= k
                < w[j].children@.len() implies (#[trigger] w[w[j].children@[k] as int]).kind.tiling() by {
            assert(same_identity(v[j], w[j]));
            assert(v[j].children@[k] == w[j].children@[k]);
            assert(v[j].children@[k] < v.len());
            assert(same_identity(v[w[j].children@[k] as int], w[w[j].children@[k] as int]));
        }
        assert forall|j: int| 0 <= j < w.len() && (#[trigger] w[j].kind).window() implies w[j].children@.len()
            == 0 by {
            assert(same_identity(v[j], w[j]));
        }
        assert forall|j: int|
            0 <= j < w.len() && (w[j].kind.tiling() || w[j].kind.window()) && (#[trigger] w[j].parent) is Some
                implies w[w[j].parent.unwrap() as int].kind.direction() by {
            assert(same_identity(v[j], w[j]));
            assert(v[j].parent is Some);
            assert(same_identity(v[v[j].parent.unwrap() as int], w[v[j].parent.unwrap() as int]));
        }
    }
}

impl ContainerTree {
    /// Fuel of `height + 1` walks a focus path as far as any larger fuel.
    pub proof fn lemma_focus_path_fuel(&self, t: int, end: Option<usize>, fuel: nat)
        requires
            self.wf(),
            self.valid(t),
            fuel >= self.height(t) + 1,
        ensures
            focus_path(self@, t, end, fuel) == focus_path(
                self@,
                t,
                end,
                (self.height(t) + 1) as nat,
            ),
        decreases self.height(t),
    {
        let v = self@;
        if let Some(p) = v[t].parent {
            assert(self.rank@[p as int] < self.rank@[t]);
            self.lemma_focus_path_fuel(p as int, end, (fuel - 1) as nat);
            self.lemma_focus_path_fuel(p as int, end, self.height(t));
        }
    }
}

/// Sets a container as the focused container up to and including the end
/// ancestor: walking up from it, each container moves to the front of its
/// parent's focus order, and stops after the end ancestor. A container
/// whose parent is a stack is resized to fill the stack (logged as
/// `SizeEffect::Fill`).
#[verifier::spinoff_prover]
pub fn set_focused_descendant(
    tree: &mut ContainerTree,
    focused_descendant: usize,
    end_ancestor: Option<usize>,
    effects: &mut Vec<SizeEffect>,
)
    requires
        old(tree).wf(),
        old(tree).valid(focused_descendant as int),
        end_ancestor matches Some(e) ==> old(tree).valid(e as int),
    ensures
        final(tree).wf(),
        focus_moved(
            old(tree)@,
            final(tree)@,
            focus_path(
                old(tree)@,
                focused_descendant as int,
                end_ancestor,
                (old(tree).height(focused_descendant as int) + 1) as nat,
            ),
        ),
        final(effects)@ == old(effects)@ + fills(
            old(tree)@,
            focus_path(
                old(tree)@,
                focused_descendant as int,
                end_ancestor,
                (old(tree).height(focused_descendant as int) + 1) as nat,
            ),
        ),
{
    let n = tree.nodes.len();
    let ghost o = tree@;
    let ghost full = focus_path(
        o,
        focused_descendant as int,
        end_ancestor,
        (tree.height(focused_descendant as int) + 1) as nat,
    );
    let ghost mut done: Seq<usize> = Seq::empty();
    let mut target = focused_descendant;
    proof {
        assert(done + full =~= full);
        assert forall|x: int| 0 <= x < o.len() implies #[trigger] same_identity(o[x], tree@[x]) by {}
    }
    loop
        invariant_except_break
            done + focus_path(o, target as int, end_ancestor, (tree.height(target as int) + 1) as nat)
                == full,
        invariant
            tree.wf(),
            tree.valid(target as int),
            tree.rank == old(tree).rank,
            o == old(tree)@,
            old(tree).wf(),
            n == o.len(),
            end_ancestor matches Some(e) ==> tree.valid(e as int),
            focus_moved(o, tree@, done),
            effects@ == old(effects)@ + fills(o, done),
            full == focus_path(
                o,
                focused_descendant as int,
                end_ancestor,
                (old(tree).height(focused_descendant as int) + 1) as nat,
            ),
        ensures
            tree.wf(),
            focus_moved(o, tree@, full),
            effects@ == old(effects)@ + fills(o, full),
        decreases tree.height(target as int),
    {
        let ghost before = tree@;
        let ghost old_done = done;
        proof {
            assert(same_identity(o[target as int], before[target as int]));
        }
        let parent = match tree.nodes[target].parent {
            None => {
                proof {
                    assert(o[target as int].parent is None);
                    assert(done =~= full);
                }
                break;
            },
            Some(p) => p,
        };
        proof {
            assert(o[target as int].parent == Some(parent));
            assert(same_identity(o[parent as int], before[parent as int]));
            assert(tree.rank@[parent as int] < tree.rank@[target as int]);
        }
        let ghost e_before = effects@;
        if tree.nodes[parent].kind.is_stack() {
            effects.push(SizeEffect::Fill { target });
        }
        let id = tree.nodes[target].id;
        proof {
            tree.lemma_focus_facts(parent as int);
            assert(tree@[parent as int].children@.contains(target));
            let k = choose|k: int| 0 <= k < tree@[parent as int].children@.len() && tree@[parent as int].children@[k] == target;
            assert(tree@[parent as int].child_focus_order@.contains(tree@[tree@[parent as int].children@[k] as int].id));
        }
        let pos = position_u128(&tree.nodes[parent].child_focus_order, id).unwrap();
        proof {
            lemma_index_of_unique(tree@[parent as int].child_focus_order@, pos as int);
        }
        tree.nodes[parent].child_focus_order.remove(pos);
        tree.nodes[parent].child_focus_order.insert(0, id);
        let ghost new_done = done.push(target);
        proof {
            let w = tree@;
            let f = before[parent as int].child_focus_order@;
            assert(w[parent as int].child_focus_order@ =~= seq![id] + f.remove(pos as int));
            assert(w[parent as int].child_focus_order@ == move_to_front(f, id));
            lemma_shift_wf(before, w, parent as int, id);
            assert(new_done.drop_last() =~= done);
            assert(new_done.last() == target);
            assert forall|x: int| 0 <= x < o.len() implies {
                &&& #[trigger] same_identity(o[x], w[x])
                &&& w[x].parent == o[x].parent
                &&& w[x].children@ == o[x].children@
                &&& w[x].child_focus_order@ == refocused(o, new_done, x)
            } by {
                assert(same_identity(o[x], before[x]));
                if x != parent as int {
                    assert(w[x] == before[x]);
                } else {
                    assert(refocused(o, new_done, x) == move_to_front(refocused(o, done, x), o[target as int].id));
                }
            }
            assert(focus_moved(o, w, new_done));
            assert(tree.ranked()) by {
                assert forall|x: int| 0 <= x < w.len() && (#[trigger] w[x].parent) is Some implies tree.rank@[w[x].parent.unwrap() as int]
                    < tree.rank@[x] by {
                    assert(same_identity(o[x], w[x]));
                    assert(o[x].parent is Some);
                }
            }
            assert(fills(o, new_done) =~= if o[parent as int].kind is Stack {
                fills(o, done).push(SizeEffect::Fill { target })
            } else {
                fills(o, done)
            });
            assert(effects@ =~= old(effects)@ + fills(o, new_done));
        }
        let reached = match end_ancestor {
            Some(e) => tree.nodes[target].id == tree.nodes[e].id,
            None => false,
        };
        proof {
            done = new_done;
            let h = tree.height(target as int);
            if let Some(e) = end_ancestor {
                assert(same_identity(o[target as int], tree@[target as int]));
                assert(same_identity(o[e as int], tree@[e as int]));
            }
        }
        if reached {
            proof {
                assert(focus_path(o, target as int, end_ancestor, (tree.height(target as int) + 1) as nat)
                    == seq![target]);
                assert(done =~= old_done + seq![target]);
                assert(done =~= full);
            }
            break;
        }
        proof {
            old(tree).lemma_focus_path_fuel(parent as int, end_ancestor, tree.height(target as int));
            let rest = focus_path(o, parent as int, end_ancestor, tree.height(target as int));
            assert(focus_path(o, target as int, end_ancestor, (tree.height(target as int) + 1) as nat)
                == seq![target] + rest);
            assert(old_done + (seq![target] + rest) =~= done + rest);
            assert(rest == focus_path(o, parent as int, end_ancestor, (tree.height(parent as int) + 1) as nat));
        }
        target = parent;
    }
}

} // verus!
