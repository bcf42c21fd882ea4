//! Properties that span several tree commands.

use vstd::prelude::*;
use super::{
    child_ids, focus_index_in_parent, index_in_parent, nearest_direction, same_identity, tree_wf,
    ContainerNode, ContainerTree, GapsConfig, TreeError,
};
use super::commands::{
    detach_logged, removed, tiling_children, focus_moved, focus_path, refocused, flattened, ids_of, min_focus_index, min_index, stack_added, window_stack_toggled, wrapped,
    SizeEffect, lemma_focus_members,
};
use crate::seq_util::{
    move_to_front, lemma_index_of_unique, lemma_keep_single, lemma_without_first, splice, without,
};

verus! {

/// Where a single container sits among its parent's children and in its
/// parent's focus order, as `wrapped` measures it.
proof fn lemma_single_indices(gr: Seq<ContainerNode>, win: usize, p: usize, k: int, f: int)
    requires
        0 <= win < gr.len(),
        0 <= p < gr.len(),
        gr[win as int].parent == Some(p),
        0 <= k < gr[p as int].children@.len(),
        gr[p as int].children@[k] == win,
        0 <= f < gr[p as int].child_focus_order@.len(),
        gr[p as int].child_focus_order@[f] == gr[win as int].id,
        gr[p as int].children@.no_duplicates(),
        gr[p as int].child_focus_order@.no_duplicates(),
    ensures
        min_index(gr, seq![win]) == k,
        min_focus_index(gr, seq![win]) == f,
        ids_of(gr, seq![win]) == seq![gr[win as int].id],
{
    lemma_index_of_unique(gr[p as int].children@, k);
    lemma_index_of_unique(gr[p as int].child_focus_order@, f);
    assert(index_in_parent(gr, win as int) == k);
    assert(focus_index_in_parent(gr, win as int) == f);
    assert(ids_of(gr, seq![win]) =~= seq![gr[win as int].id]);
}

/// The parent's and the new stack's lists after one window is wrapped.
#[verifier::spinoff_prover]
proof fn lemma_wrap_single_lists(
    gr: Seq<ContainerNode>,
    w1: Seq<ContainerNode>,
    n: usize,
    win: usize,
    p: usize,
    k: int,
    f: int,
)
    requires
        n < gr.len(),
        p < gr.len(),
        p != n,
        wrapped(gr, w1, n, p, seq![win]),
        min_index(gr, seq![win]) == k,
        min_focus_index(gr, seq![win]) == f,
        ids_of(gr, seq![win]) == seq![gr[win as int].id],
        0 <= k < gr[p as int].children@.len(),
        gr[p as int].children@[k] == win,
        0 <= f < gr[p as int].child_focus_order@.len(),
        gr[p as int].child_focus_order@[f] == gr[win as int].id,
        gr[p as int].children@.no_duplicates(),
        gr[p as int].child_focus_order@.no_duplicates(),
    ensures
        ({
            let pc = gr[p as int].children@;
            let pf = gr[p as int].child_focus_order@;
            &&& w1[p as int].children@ == pc.take(k) + seq![n] + pc.skip(k + 1)
            &&& w1[p as int].child_focus_order@ == pf.take(f) + seq![gr[n as int].id] + pf.skip(f + 1)
            &&& w1[n as int].children@ == seq![win]
            &&& w1[n as int].child_focus_order@ == seq![gr[win as int].id]
        }),
{
    let pc = gr[p as int].children@;
    let pf = gr[p as int].child_focus_order@;
    let wid = gr[win as int].id;
    assert(w1[p as int].children@ == pc.take(k) + seq![n] + without(pc.skip(k), seq![win]));
    assert(w1[n as int].children@ == seq![win]);
    lemma_without_first(pc, k);
    lemma_without_first(pf, f);
    assert(pf.contains(wid)) by {
        lemma_index_of_unique(pf, f);
    }
    lemma_keep_single(pf, wid);
}

/// `w1` is `v` with the window `win`, the `k`-th child of `p` and the
/// `f`-th in its focus order, moved into a new stack at index `v.len()`.
pub open spec fn wrapped_one(
    v: Seq<ContainerNode>,
    w1: Seq<ContainerNode>,
    win: usize,
    p: usize,
    k: int,
    f: int,
) -> bool {
    let n = v.len() as usize;
    let pc = v[p as int].children@;
    let pf = v[p as int].child_focus_order@;
    &&& w1.len() == v.len() + 1
    &&& w1[p as int].children@ == pc.take(k) + seq![n] + pc.skip(k + 1)
    &&& w1[p as int].child_focus_order@ == pf.take(f) + seq![w1[n as int].id] + pf.skip(f + 1)
    &&& w1[n as int].children@ == seq![win]
    &&& w1[n as int].child_focus_order@ == seq![v[win as int].id]
    &&& w1[n as int].parent == Some(p)
    &&& w1[n as int].kind is Stack
    &&& forall|x: int| 0 <= x < v.len() ==> #[trigger] same_identity(v[x], w1[x])
    &&& forall|x: int|
        0 <= x < v.len() && x != p as int ==> #[trigger] w1[x].children@ == v[x].children@
            && w1[x].child_focus_order@ == v[x].child_focus_order@
    &&& forall|x: int| 0 <= x < v.len() && x != win as int ==> #[trigger] w1[x].parent == v[x].parent
    &&& w1[win as int].parent == Some(n)
}

/// What wrapping one window in a fresh stack does, in terms of the tree
/// before the stack was added.
#[verifier::spinoff_prover]
#[verifier::rlimit(40)]
proof fn lemma_wrap_single(
    v: Seq<ContainerNode>,
    gr: Seq<ContainerNode>,
    w1: Seq<ContainerNode>,
    gaps: GapsConfig,
    win: usize,
    p: usize,
    k: int,
    f: int,
)
    requires
        tree_wf(v),
        v.len() < usize::MAX,
        0 <= win < v.len(),
        v[win as int].parent == Some(p),
        stack_added(v, gr, gaps),
        wrapped(gr, w1, v.len() as usize, p, seq![win]),
        0 <= k < v[p as int].children@.len(),
        v[p as int].children@[k] == win,
        0 <= f < v[p as int].child_focus_order@.len(),
        v[p as int].child_focus_order@[f] == v[win as int].id,
        v[p as int].children@.no_duplicates(),
        v[p as int].child_focus_order@.no_duplicates(),
    ensures
        wrapped_one(v, w1, win, p, k, f),
{
    let n = v.len() as usize;
    let ts = seq![win];
    assert forall|x: int| 0 <= x < v.len() implies #[trigger] gr[x] == v[x] by {
        assert(gr.take(v.len() as int)[x] == gr[x]);
    }
    assert(gr[win as int] == v[win as int]);
    assert(gr[p as int] == v[p as int]);
    lemma_single_indices(gr, win, p, k, f);
    lemma_wrap_single_lists(gr, w1, n, win, p, k, f);
    assert(same_identity(gr[n as int], w1[n as int]));
    assert(ts.contains(win)) by {
        assert(ts[0] == win);
    }
    assert forall|x: int| 0 <= x < v.len() implies #[trigger] same_identity(v[x], w1[x]) by {
        assert(same_identity(gr[x], w1[x]));
    }
    assert forall|x: int| 0 <= x < v.len() && x != p as int implies #[trigger] w1[x].children@
        == v[x].children@ && w1[x].child_focus_order@ == v[x].child_focus_order@ by {
        assert(w1[x].children@ == gr[x].children@);
        assert(w1[x].child_focus_order@ == gr[x].child_focus_order@);
    }
    assert forall|x: int| 0 <= x < v.len() && x != win as int implies #[trigger] w1[x].parent
        == v[x].parent by {
        if ts.contains(x as usize) {
            assert(ts[0] == win);
        }
        assert(w1[x].parent == gr[x].parent);
    }
}

/// The first toggle around a window whose parent is no stack wraps it.
#[verifier::spinoff_prover]
#[verifier::rlimit(40)]
proof fn lemma_toggle_wraps(
    o: ContainerTree,
    t1: ContainerTree,
    e0: Seq<SizeEffect>,
    e1: Seq<SizeEffect>,
    win: usize,
    gaps: GapsConfig,
    r1: Result<usize, TreeError>,
) -> (kf: (int, int))
    requires
        o.wf(),
        t1.wf(),
        o.valid(win as int),
        o@[win as int].parent is Some,
        !(o@[o@[win as int].parent.unwrap() as int].kind is Stack),
        window_stack_toggled(o, t1, e0, e1, win, gaps, r1),
        r1 is Ok,
    ensures
        ({
            let p = o@[win as int].parent.unwrap();
            &&& wrapped_one(o@, t1@, win, p, kf.0, kf.1)
            &&& 0 <= kf.0 < o@[p as int].children@.len()
            &&& o@[p as int].children@[kf.0] == win
            &&& 0 <= kf.1 < o@[p as int].child_focus_order@.len()
            &&& o@[p as int].child_focus_order@[kf.1] == o@[win as int].id
        }),
{
    let v = o@;
    t1.lemma_len_bound();
    let n = v.len() as usize;
    let p = v[win as int].parent.unwrap();
    assert(v[p as int].children@.contains(win));
    let gr = choose|gr: Seq<ContainerNode>|
        #[trigger] stack_added(v, gr, gaps) && wrapped(gr, t1@, n, p, seq![win]);
    let pc = v[p as int].children@;
    let pf = v[p as int].child_focus_order@;
    let wid = v[win as int].id;
    let k = choose|k: int| 0 <= k < pc.len() && pc[k] == win;
    lemma_focus_members(v, p as int);
    assert(child_ids(v, p as int)[k] == wid);
    assert(pf.contains(wid));
    let f = choose|f: int| 0 <= f < pf.len() && pf[f] == wid;
    lemma_wrap_single(v, gr, t1@, gaps, win, p, k, f);
    (k, f)
}

/// Flattening the new stack again restores every container of `v`.
#[verifier::spinoff_prover]
#[verifier::rlimit(40)]
proof fn lemma_unwrap_single(
    v: Seq<ContainerNode>,
    w1: Seq<ContainerNode>,
    w2: Seq<ContainerNode>,
    win: usize,
    p: usize,
    k: int,
    f: int,
)
    requires
        v.len() < usize::MAX,
        0 <= win < v.len(),
        0 <= p < v.len(),
        p != win,
        v[win as int].parent == Some(p),
        0 <= k < v[p as int].children@.len(),
        v[p as int].children@[k] == win,
        0 <= f < v[p as int].child_focus_order@.len(),
        v[p as int].child_focus_order@[f] == v[win as int].id,
        wrapped_one(v, w1, win, p, k, f),
        w1[p as int].children@.no_duplicates(),
        w1[p as int].child_focus_order@.no_duplicates(),
        flattened(w1, w2, v.len() as usize),
    ensures
        forall|x: int|
            0 <= x < v.len() ==> {
                &&& #[trigger] w2[x].parent == v[x].parent
                &&& w2[x].children@ == v[x].children@
                &&& w2[x].child_focus_order@ == v[x].child_focus_order@
                &&& same_identity(v[x], w2[x])
            },
        w2[v.len() as int].parent is None,
        w2[v.len() as int].children@.len() == 0,
{
    let n = v.len() as usize;
    let pc = v[p as int].children@;
    let pf = v[p as int].child_focus_order@;
    let wid = v[win as int].id;
    let sid = w1[n as int].id;
    let c1 = pc.take(k) + seq![n] + pc.skip(k + 1);
    let f1 = pf.take(f) + seq![sid] + pf.skip(f + 1);
    assert(c1[k] == n);
    assert(f1[f] == sid);
    lemma_index_of_unique(c1, k);
    lemma_index_of_unique(f1, f);
    assert(index_in_parent(w1, n as int) == k);
    assert(focus_index_in_parent(w1, n as int) == f);
    assert(splice(c1, k, seq![win]) =~= pc);
    assert(splice(f1, f, seq![wid]) =~= pf);
    assert(seq![win].contains(win)) by {
        assert(seq![win][0] == win);
    }
    assert forall|x: int| 0 <= x < v.len() implies {
        &&& #[trigger] w2[x].parent == v[x].parent
        &&& w2[x].children@ == v[x].children@
        &&& w2[x].child_focus_order@ == v[x].child_focus_order@
        &&& same_identity(v[x], w2[x])
    } by {
        assert(same_identity(w1[x], w2[x]));
        assert(same_identity(v[x], w1[x]));
        if seq![win].contains(x as usize) {
            assert(seq![win][0] == win);
        }
    }
}

/// Toggling the stack around a tiling window twice gives back the tree it
/// started from: every container has its parent, children and focus order
/// again, the window is back in its place, and the stack that was made for
/// it is left detached and empty. The second toggle names the window's
/// parent for redrawing.
#[verifier::spinoff_prover]
#[verifier::rlimit(40)]
pub proof fn lemma_toggle_twice_restores(
    o: ContainerTree,
    t1: ContainerTree,
    t2: ContainerTree,
    e0: Seq<SizeEffect>,
    e1: Seq<SizeEffect>,
    e2: Seq<SizeEffect>,
    win: usize,
    gaps: GapsConfig,
    r1: Result<usize, TreeError>,
    r2: Result<usize, TreeError>,
)
    requires
        o.wf(),
        t1.wf(),
        o.valid(win as int),
        o@[win as int].kind is TilingWindow,
        o@[win as int].parent is Some,
        !(o@[o@[win as int].parent.unwrap() as int].kind is Stack),
        window_stack_toggled(o, t1, e0, e1, win, gaps, r1),
        r1 is Ok,
        window_stack_toggled(t1, t2, e1, e2, win, gaps, r2),
    ensures
        r2 == Ok::<usize, TreeError>(o@[win as int].parent.unwrap()),
        t2@.len() == o@.len() + 1,
        forall|x: int|
            0 <= x < o@.len() ==> {
                &&& #[trigger] t2@[x].parent == o@[x].parent
                &&& t2@[x].children@ == o@[x].children@
                &&& t2@[x].child_focus_order@ == o@[x].child_focus_order@
                &&& same_identity(o@[x], t2@[x])
            },
        t2@[o@.len() as int].parent is None,
        t2@[o@.len() as int].children@.len() == 0,
{
    let v = o@;
    let w1 = t1@;
    let n = v.len() as usize;
    let p = v[win as int].parent.unwrap();
    let kf = lemma_toggle_wraps(o, t1, e0, e1, win, gaps, r1);
    let k = kf.0;
    let f = kf.1;
    t1.lemma_len_bound();
    assert(w1[p as int].children@[k] == n);
    lemma_focus_members(w1, p as int);
    assert(w1[win as int].parent == Some(n));
    assert(w1[n as int].kind is Stack);
    assert(flattened(w1, t2@, n));
    lemma_unwrap_single(v, w1, t2@, win, p, k, f);
    assert(v[p as int].kind.direction());
    assert(same_identity(w1[p as int], t2@[p as int]));
    assert(same_identity(v[p as int], w1[p as int]));
    assert(t2@[p as int].kind.direction());
}


/// The containers on a focus path are valid and have parents, each is the
/// child of the next, and they come in strictly falling height.
#[verifier::spinoff_prover]
proof fn lemma_path_chain(o: ContainerTree, t: int, end: Option<usize>, fuel: nat)
    requires
        o.wf(),
        o.valid(t),
    ensures
        ({
            let v = o@;
            let path = focus_path(v, t, end, fuel);
            &&& path.len() > 0 ==> path[0] == t
            &&& forall|i: int|
                0 <= i < path.len() ==> {
                    &&& #[trigger] path[i] < v.len()
                    &&& v[path[i] as int].parent is Some
                    &&& o.height(path[i] as int) <= o.height(t)
                    &&& o.height(v[path[i] as int].parent.unwrap() as int) < o.height(path[i] as int)
                }
            &&& forall|i: int|
                0 <= i && i + 1 < path.len() ==> v[#[trigger] path[i] as int].parent == Some(path[i + 1])
            &&& forall|i: int, j: int|
                0 <= i < j < path.len() ==> o.height(#[trigger] path[j] as int) < o.height(
                    #[trigger] path[i] as int,
                )
        }),
    decreases fuel,
{
    let v = o@;
    let path = focus_path(v, t, end, fuel);
    if fuel == 0 || v[t].parent is None {
    } else if end matches Some(e) && v[t].id == v[e as int].id {
        assert(path =~= seq![t as usize]);
        assert(o.rank@[v[t].parent.unwrap() as int] < o.rank@[t]);
    } else {
        let p = v[t].parent.unwrap() as int;
        assert(o.rank@[p] < o.rank@[t]);
        lemma_path_chain(o, p, end, (fuel - 1) as nat);
        let rest = focus_path(v, p, end, (fuel - 1) as nat);
        assert(path =~= seq![t as usize] + rest);
        assert forall|i: int| 0 <= i < path.len() implies {
            &&& #[trigger] path[i] < v.len()
            &&& v[path[i] as int].parent is Some
            &&& o.height(path[i] as int) <= o.height(t)
            &&& o.height(v[path[i] as int].parent.unwrap() as int) < o.height(path[i] as int)
        } by {
            if i > 0 {
                assert(path[i] == rest[i - 1]);
            } else {
                assert(o.rank@[p] < o.rank@[t]);
            }
        }
        assert forall|i: int| 0 <= i && i + 1 < path.len() implies v[#[trigger] path[i] as int].parent
            == Some(path[i + 1]) by {
            if i > 0 {
                assert(path[i] == rest[i - 1]);
                assert(path[i + 1] == rest[i]);
            } else {
                assert(path[1] == rest[0]);
            }
        }
        assert forall|i: int, j: int| 0 <= i < j < path.len() implies o.height(
            #[trigger] path[j] as int,
        ) < o.height(#[trigger] path[i] as int) by {
            assert(path[j] == rest[j - 1]);
            if i > 0 {
                assert(path[i] == rest[i - 1]);
            }
        }
    }
}

/// A focus order that no container of `path` has its parent in stays as
/// it was.
proof fn lemma_refocused_untouched(o: Seq<ContainerNode>, path: Seq<usize>, x: int)
    requires
        forall|j: int| 0 <= j < path.len() ==> o[#[trigger] path[j] as int].parent != Some(x as usize),
    ensures
        refocused(o, path, x) == o[x].child_focus_order@,
    decreases path.len(),
{
    if path.len() > 0 {
        let r = path.drop_last();
        assert forall|j: int| 0 <= j < r.len() implies o[#[trigger] r[j] as int].parent != Some(
            x as usize,
        ) by {
            assert(r[j] == path[j]);
        }
        lemma_refocused_untouched(o, r, x);
        assert(path.last() == path[path.len() - 1]);
    }
}

/// A focus order that exactly one container of `path` has its parent in
/// ends with that container's id moved to its front.
proof fn lemma_refocused_once(o: Seq<ContainerNode>, path: Seq<usize>, x: int, i: int)
    requires
        0 <= i < path.len(),
        o[path[i] as int].parent == Some(x as usize),
        forall|j: int|
            0 <= j < path.len() && j != i ==> o[#[trigger] path[j] as int].parent != Some(x as usize),
    ensures
        refocused(o, path, x) == move_to_front(o[x].child_focus_order@, o[path[i] as int].id),
    decreases path.len(),
{
    let r = path.drop_last();
    assert(path.last() == path[path.len() - 1]);
    if i == path.len() - 1 {
        assert forall|j: int| 0 <= j < r.len() implies o[#[trigger] r[j] as int].parent != Some(
            x as usize,
        ) by {
            assert(r[j] == path[j]);
        }
        lemma_refocused_untouched(o, r, x);
    } else {
        assert forall|j: int| 0 <= j < r.len() && j != i implies o[#[trigger] r[j] as int].parent
            != Some(x as usize) by {
            assert(r[j] == path[j]);
        }
        assert(r[i] == path[i]);
        lemma_refocused_once(o, r, x, i);
    }
}

/// Focusing a container brings it and each ancestor it passes to the front
/// of its parent's focus order: after `set_focused_descendant`, every
/// container on the focus path leads the focus order of its parent, and
/// the focused container itself is first on that path whenever it has a
/// parent.
#[verifier::spinoff_prover]
pub proof fn lemma_focus_path_leads(
    o: ContainerTree,
    w: Seq<ContainerNode>,
    t: usize,
    end: Option<usize>,
)
    requires
        o.wf(),
        o.valid(t as int),
        focus_moved(o@, w, focus_path(o@, t as int, end, (o.height(t as int) + 1) as nat)),
    ensures
        ({
            let path = focus_path(o@, t as int, end, (o.height(t as int) + 1) as nat);
            &&& o@[t as int].parent is Some ==> path.len() > 0 && path[0] == t
            &&& forall|i: int|
                0 <= i < path.len() ==> {
                    let x = o@[path[i] as int].parent.unwrap() as int;
                    &&& 0 <= x < w.len()
                    &&& w[x].child_focus_order@.len() > 0
                    &&& w[x].child_focus_order@[0] == o@[#[trigger] path[i] as int].id
                }
        }),
{
    let v = o@;
    let path = focus_path(v, t as int, end, (o.height(t as int) + 1) as nat);
    lemma_path_chain(o, t as int, end, (o.height(t as int) + 1) as nat);
    assert forall|i: int| 0 <= i < path.len() implies {
        let x = v[path[i] as int].parent.unwrap() as int;
        &&& 0 <= x < w.len()
        &&& w[x].child_focus_order@.len() > 0
        &&& w[x].child_focus_order@[0] == v[#[trigger] path[i] as int].id
    } by {
        let c = path[i] as int;
        let x = v[c].parent.unwrap() as int;
        assert(path[i] < v.len());
        assert forall|j: int| 0 <= j < path.len() && j != i implies v[#[trigger] path[j] as int].parent
            != Some(x as usize) by {
            let pj = v[path[j] as int].parent.unwrap() as int;
            assert(path[j] < v.len());
            if j < i {
                assert(o.height(path[i] as int) < o.height(path[j] as int));
                assert(v[path[j] as int].parent == Some(path[j + 1]));
                if j + 1 < i {
                    assert(o.height(path[i] as int) < o.height(path[j + 1] as int));
                }
            } else {
                assert(o.height(path[j] as int) < o.height(path[i] as int));
                assert(v[path[i] as int].parent == Some(path[i + 1]));
                if i + 1 < j {
                    assert(o.height(path[j] as int) < o.height(path[i + 1] as int));
                }
            }
        }
        lemma_refocused_once(v, path, x, i);
        assert(v[x].children@.contains(c as usize));
        o.lemma_focus_facts(x);
        let k = v[x].children@.index_of(c as usize);
        assert(v[x].child_focus_order@.contains(v[v[x].children@[k] as int].id));
        assert(same_identity(v[x], w[x]));
        assert(w[x].child_focus_order@ == refocused(v, path, x));
        assert(move_to_front(v[x].child_focus_order@, v[c].id)[0] == v[c].id);
    }
}


/// Focus paths only look at parents and ids.
proof fn lemma_path_same_links(
    v: Seq<ContainerNode>,
    w: Seq<ContainerNode>,
    t: int,
    end: Option<usize>,
    fuel: nat,
)
    requires
        w.len() == v.len(),
        0 <= t < v.len(),
        end matches Some(e) ==> e < v.len(),
        forall|x: int|
            0 <= x < v.len() ==> (#[trigger] w[x]).parent == v[x].parent && w[x].id == v[x].id,
        forall|x: int| 0 <= x < v.len() && (#[trigger] v[x].parent) is Some ==> v[x].parent.unwrap() < v.len(),
    ensures
        focus_path(w, t, end, fuel) == focus_path(v, t, end, fuel),
    decreases fuel,
{
    assert(w[t].parent == v[t].parent);
    if let Some(e) = end {
        assert(w[e as int].id == v[e as int].id);
    }
    if fuel > 0 && v[t].parent is Some {
        lemma_path_same_links(v, w, v[t].parent.unwrap() as int, end, (fuel - 1) as nat);
    }
}

/// Moving an entry to the front twice is moving it once.
proof fn lemma_move_to_front_twice(s: Seq<u128>, u: u128)
    requires
        s.no_duplicates(),
    ensures
        move_to_front(move_to_front(s, u), u) == move_to_front(s, u),
{
    if s.contains(u) {
        let m = move_to_front(s, u);
        let r = s.remove(s.index_of(u));
        assert(m == seq![u] + r);
        assert(m.no_duplicates()) by {
            assert forall|a: int, b: int| 0 <= a < b < m.len() implies m[a] != m[b] by {
                if a == 0 {
                    assert(m[b] == r[b - 1]);
                    assert(!r.contains(u)) by {
                        if r.contains(u) {
                            let j = choose|j: int| 0 <= j < r.len() && r[j] == u;
                            let k = s.index_of(u);
                            if j < k {
                                assert(s[j] == u);
                            } else {
                                assert(s[j + 1] == u);
                            }
                        }
                    }
                } else {
                    let k = s.index_of(u);
                    let sa = if a - 1 < k { a - 1 } else { a };
                    let sb = if b - 1 < k { b - 1 } else { b };
                    assert(m[a] == s[sa]);
                    assert(m[b] == s[sb]);
                }
            }
        }
        lemma_index_of_unique(m, 0);
        assert(seq![u] + m.remove(0) =~= m);
    }
}

/// One container's lists after focusing twice along the same path.
#[verifier::spinoff_prover]
proof fn lemma_focus_twice_at(
    o: ContainerTree,
    w: Seq<ContainerNode>,
    w2: Seq<ContainerNode>,
    path: Seq<usize>,
    t: usize,
    end: Option<usize>,
    x: int,
)
    requires
        o.wf(),
        o.valid(t as int),
        0 <= x < o@.len(),
        path == focus_path(o@, t as int, end, (o.height(t as int) + 1) as nat),
        focus_moved(o@, w, path),
        focus_moved(w, w2, path),
    ensures
        same_identity(w[x], w2[x]),
        w2[x].parent == w[x].parent,
        w2[x].children@ == w[x].children@,
        w2[x].child_focus_order@ == w[x].child_focus_order@,
{
    let v = o@;
    lemma_path_chain(o, t as int, end, (o.height(t as int) + 1) as nat);
    assert(same_identity(v[x], w[x]));
    assert(same_identity(w[x], w2[x]));
    if exists|i: int| 0 <= i < path.len() && v[path[i] as int].parent == Some(x as usize) {
        let i = choose|i: int| 0 <= i < path.len() && v[path[i] as int].parent == Some(x as usize);
        let c = path[i] as int;
        assert(path[i] < v.len());
        assert forall|j: int| 0 <= j < path.len() && j != i implies v[#[trigger] path[j] as int].parent
            != Some(x as usize) by {
            assert(path[j] < v.len());
            if j < i {
                assert(o.height(path[i] as int) < o.height(path[j] as int));
                assert(v[path[j] as int].parent == Some(path[j + 1]));
                if j + 1 < i {
                    assert(o.height(path[i] as int) < o.height(path[j + 1] as int));
                }
            } else {
                assert(o.height(path[j] as int) < o.height(path[i] as int));
                assert(v[path[i] as int].parent == Some(path[i + 1]));
                if i + 1 < j {
                    assert(o.height(path[j] as int) < o.height(path[i + 1] as int));
                }
            }
        }
        lemma_refocused_once(v, path, x, i);
        assert forall|j: int| 0 <= j < path.len() && j != i implies w[#[trigger] path[j] as int].parent
            != Some(x as usize) by {
            assert(path[j] < v.len());
            assert(same_identity(v[path[j] as int], w[path[j] as int]));
            assert(v[path[j] as int].parent != Some(x as usize));
        }
        assert(same_identity(v[c], w[c]));
        assert(w[c].parent == Some(x as usize));
        assert(w[c].id == v[c].id);
        lemma_refocused_once(w, path, x, i);
        assert(v[x].children@.contains(c as usize));
        o.lemma_focus_facts(x);
        lemma_move_to_front_twice(v[x].child_focus_order@, v[c].id);
    } else {
        assert forall|j: int| 0 <= j < path.len() implies v[#[trigger] path[j] as int].parent != Some(
            x as usize,
        ) by {}
        lemma_refocused_untouched(v, path, x);
        assert forall|j: int| 0 <= j < path.len() implies w[#[trigger] path[j] as int].parent != Some(
            x as usize,
        ) by {
            assert(path[j] < v.len());
            assert(same_identity(v[path[j] as int], w[path[j] as int]));
        }
        lemma_refocused_untouched(w, path, x);
    }
}

/// Focusing is idempotent: focusing the same container up to the same end
/// ancestor a second time leaves every focus order, parent and child list
/// as the first time left it.
#[verifier::spinoff_prover]
pub proof fn lemma_focus_twice(
    o: ContainerTree,
    t1: ContainerTree,
    t2: ContainerTree,
    t: usize,
    end: Option<usize>,
)
    requires
        o.wf(),
        t1.wf(),
        o.valid(t as int),
        end matches Some(e) ==> o.valid(e as int),
        focus_moved(o@, t1@, focus_path(o@, t as int, end, (o.height(t as int) + 1) as nat)),
        focus_moved(t1@, t2@, focus_path(t1@, t as int, end, (t1.height(t as int) + 1) as nat)),
    ensures
        t2@.len() == t1@.len(),
        forall|x: int|
            0 <= x < t1@.len() ==> {
                &&& #[trigger] same_identity(t1@[x], t2@[x])
                &&& t2@[x].parent == t1@[x].parent
                &&& t2@[x].children@ == t1@[x].children@
                &&& t2@[x].child_focus_order@ == t1@[x].child_focus_order@
            },
{
    let v = o@;
    let w = t1@;
    let ho = (o.height(t as int) + 1) as nat;
    let hw = (t1.height(t as int) + 1) as nat;
    let path = focus_path(v, t as int, end, ho);
    assert forall|x: int| 0 <= x < v.len() implies (#[trigger] w[x]).parent == v[x].parent && w[x].id
        == v[x].id by {
        assert(same_identity(v[x], w[x]));
    }
    let big = if ho >= hw { ho } else { hw };
    lemma_path_same_links(v, w, t as int, end, big);
    o.lemma_focus_path_fuel(t as int, end, big);
    t1.lemma_focus_path_fuel(t as int, end, big);
    assert(focus_path(w, t as int, end, hw) == path);
    assert forall|x: int| 0 <= x < w.len() implies {
        &&& #[trigger] same_identity(w[x], t2@[x])
        &&& t2@[x].parent == w[x].parent
        &&& t2@[x].children@ == w[x].children@
        &&& t2@[x].child_focus_order@ == w[x].child_focus_order@
    } by {
        lemma_focus_twice_at(o, w, t2@, path, t, end, x);
    }
}


/// Taking a container out of a stack that keeps other children resizes the
/// stack's remaining children for their new count, and logs nothing else:
/// the one effect appended is `ResizeStack` of that stack.
pub proof fn lemma_detach_from_stack(
    o: Seq<ContainerNode>,
    w: Seq<ContainerNode>,
    e0: Seq<SizeEffect>,
    e1: Seq<SizeEffect>,
    c: usize,
    q: usize,
)
    requires
        0 <= c < o.len(),
        0 <= q < o.len(),
        o[c as int].parent == Some(q),
        o[q as int].kind is Stack,
        removed(o, w, c),
        detach_logged(e0, e1, w, q, c),
    ensures
        e1 == e0.push(SizeEffect::ResizeStack { stack: q }),
{
    assert(same_identity(o[q as int], w[q as int]));
    assert(e1 =~= e0.push(SizeEffect::ResizeStack { stack: q })) by {
        assert(e1.take(e0.len() as int) == e0);
        assert forall|i: int| 0 <= i < e0.len() implies e1[i] == e0[i] by {
            assert(e1.take(e0.len() as int)[i] == e1[i]);
        }
    }
}


/// Taking a tiling container out of a parent that is no stack shares its
/// space out among the parent's remaining tiling children, and logs nothing
/// else; taking out any other container from such a parent logs nothing.
pub proof fn lemma_detach_from_non_stack(
    o: Seq<ContainerNode>,
    w: Seq<ContainerNode>,
    e0: Seq<SizeEffect>,
    e1: Seq<SizeEffect>,
    c: usize,
    q: usize,
)
    requires
        0 <= c < o.len(),
        0 <= q < o.len(),
        o[c as int].parent == Some(q),
        !(o[q as int].kind is Stack),
        removed(o, w, c),
        detach_logged(e0, e1, w, q, c),
    ensures
        o[c as int].kind.tiling() ==> {
            &&& e1.len() == e0.len() + 1
            &&& e1.take(e0.len() as int) == e0
            &&& e1.last() matches SizeEffect::Redistribute { removed, siblings }
            &&& removed == c
            &&& siblings@ == w[q as int].children@.filter(|x: usize| w[x as int].kind.tiling())
        },
        !o[c as int].kind.tiling() ==> e1 == e0,
{
    assert(same_identity(o[q as int], w[q as int]));
    assert(same_identity(o[c as int], w[c as int]));
    assert(tiling_children(w, q as int) == w[q as int].children@.filter(|x: usize| w[x as int].kind.tiling()));
}

} // verus!
