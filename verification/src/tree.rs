//! The container tree: root, monitors, workspaces, split and stack
//! containers, and windows, with each container's children in display order
//! and its focus order (children's ids, most recently focused first).
//!
//! Containers live in an arena and are named by their index there; a
//! container that leaves the tree keeps its slot.

pub mod commands;
pub mod laws;

use vstd::prelude::*;
use crate::seq_util::{lemma_free_value, lemma_index_of_unique, lemma_same_multiset_contains, lemma_same_multiset_no_dup, position_u128, position_usize};

verus! {

broadcast use vstd::seq_lib::group_to_multiset_ensures;

/// The kinds of container.
#[derive(Clone, Copy, Debug, PartialEq, Eq, Structural)]
pub enum ContainerKind {
    Root,
    Monitor,
    Workspace,
    Split,
    Stack,
    TilingWindow,
    NonTilingWindow,
}

impl ContainerKind {
    /// Split and stack containers and tiling windows take part in tiling.
    pub open spec fn tiling(self) -> bool {
        self is Split || self is Stack || self is TilingWindow
    }

    /// Workspaces, split and stack containers lay out their children along
    /// a tiling direction.
    pub open spec fn direction(self) -> bool {
        self is Workspace || self is Split || self is Stack
    }

    pub open spec fn window(self) -> bool {
        self is TilingWindow || self is NonTilingWindow
    }

    pub fn is_tiling(&self) -> (r: bool)
        ensures
            r == self.tiling(),
    {
        match self {
            ContainerKind::Split | ContainerKind::Stack | ContainerKind::TilingWindow => true,
            _ => false,
        }
    }

    pub fn is_direction(&self) -> (r: bool)
        ensures
            r == self.direction(),
    {
        match self {
            ContainerKind::Workspace | ContainerKind::Split | ContainerKind::Stack => true,
            _ => false,
        }
    }

    pub fn is_window(&self) -> (r: bool)
        ensures
            r == self.window(),
    {
        match self {
            ContainerKind::TilingWindow | ContainerKind::NonTilingWindow => true,
            _ => false,
        }
    }

    pub fn is_stack(&self) -> (r: bool)
        ensures
            r == (*self is Stack),
    {
        match self {
            ContainerKind::Stack => true,
            _ => false,
        }
    }
}

/// The axis along which a direction container places its children.
#[derive(Clone, Copy, Debug, PartialEq, Eq, Structural)]
pub enum TilingDirection {
    Horizontal,
    Vertical,
}

/// Gaps between tiled windows, in pixels.
#[derive(Clone, Copy, Debug, PartialEq, Eq, Structural)]
pub struct GapsConfig {
    pub scale_with_dpi: bool,
    pub inner_gap: i32,
    pub outer_gap: i32,
}

/// Errors of the tree operations.
#[derive(Clone, Copy, Debug, PartialEq, Eq, Structural)]
pub enum TreeError {
    /// The container has no parent.
    NoParent,
    /// The parent of a flattened container lays out nothing.
    ParentNotDirectionContainer,
    /// No container above a window lays out its children.
    NoDirectionContainer,
    /// Nothing was given to wrap.
    NoTargets,
    /// A freshly drawn container id is already in use.
    IdCollision,
    /// A container index outside the arena.
    UnknownContainer,
    /// A container cannot take a child of this kind.
    InvalidParent,
}

/// One container.
pub struct ContainerNode {
    pub id: u128,
    pub kind: ContainerKind,
    pub parent: Option<usize>,
    pub children: Vec<usize>,
    pub child_focus_order: Vec<u128>,
    pub tiling_direction: TilingDirection,
    pub gaps_config: Option<GapsConfig>,
}

/// The arena of containers.
pub struct ContainerTree {
    nodes: Vec<ContainerNode>,
    /// Strictly smaller for a parent than for its children.
    rank: Ghost<Seq<nat>>,
}

impl View for ContainerTree {
    type V = Seq<ContainerNode>;

    closed spec fn view(&self) -> Seq<ContainerNode> {
        self.nodes@
    }
}

/// Ids of the children of `j`, in display order.
pub open spec fn child_ids(v: Seq<ContainerNode>, j: int) -> Seq<u128> {
    v[j].children@.map_values(|c: usize| v[c as int].id)
}

pub open spec fn ids_unique(v: Seq<ContainerNode>) -> bool {
    forall|a: int, b: int|
        0 <= a < v.len() && 0 <= b < v.len() && a != b ==> #[trigger] v[a].id != #[trigger] v[b].id
}

/// A parent lists its child.
pub open spec fn parent_links(v: Seq<ContainerNode>) -> bool {
    forall|x: int|
        0 <= x < v.len() && (#[trigger] v[x].parent) is Some ==> {
            let p = v[x].parent.unwrap();
            &&& p < v.len()
            &&& v[p as int].children@.contains(x as usize)
        }
}

/// A child names its parent.
pub open spec fn child_links(v: Seq<ContainerNode>) -> bool {
    forall|j: int, k: int|
        0 <= j < v.len() && 0 <= k < v[j].children@.len() ==> {
            let c = #[trigger] v[j].children@[k];
            &&& c < v.len()
            &&& v[c as int].parent == Some(j as usize)
        }
}

pub open spec fn children_unique(v: Seq<ContainerNode>) -> bool {
    forall|j: int| 0 <= j < v.len() ==> (#[trigger] v[j].children@).no_duplicates()
}

/// The focus order holds the ids of the children, each once. A container
/// that has left the tree and holds nothing is exempt.
pub open spec fn focus_matches(v: Seq<ContainerNode>, j: int) -> bool {
    ||| (v[j].parent is None && v[j].children@.len() == 0)
    ||| v[j].child_focus_order@.to_multiset() == child_ids(v, j).to_multiset()
}

pub open spec fn focus_orders(v: Seq<ContainerNode>) -> bool {
    forall|j: int| 0 <= j < v.len() ==> #[trigger] focus_matches(v, j)
}

/// Split and stack containers hold tiling containers; windows hold
/// nothing; tiling containers and windows sit in direction containers.
pub open spec fn kinds_fit(v: Seq<ContainerNode>) -> bool {
    &&& forall|j: int, k: int|
        0 <= j < v.len() && (v[j].kind is Split || v[j].kind is Stack) && 0 <= k
            < v[j].children@.len() ==> (#[trigger] v[v[j].children@[k] as int]).kind.tiling()
    &&& forall|j: int| 0 <= j < v.len() && (#[trigger] v[j].kind).window() ==> v[j].children@.len() == 0
    &&& forall|j: int|
        0 <= j < v.len() && (v[j].kind.tiling() || v[j].kind.window()) && (#[trigger] v[j].parent) is Some
            ==> v[v[j].parent.unwrap() as int].kind.direction()
}

/// Well-formed tree.
pub open spec fn tree_wf(v: Seq<ContainerNode>) -> bool {
    &&& ids_unique(v)
    &&& parent_links(v)
    &&& child_links(v)
    &&& children_unique(v)
    &&& focus_orders(v)
    &&& kinds_fit(v)
}

/// Some container of `v` has the id `id`.
pub open spec fn id_used(v: Seq<ContainerNode>, id: u128) -> bool {
    exists|x: int| 0 <= x < v.len() && v[x].id == id
}

/// `id` is the id taken for a new container of `v` when `drawn` was drawn:
/// `drawn` itself when it is free, and otherwise the smallest free id.
pub open spec fn fresh_choice(v: Seq<ContainerNode>, drawn: u128, id: u128) -> bool {
    &&& !id_used(v, id)
    &&& !id_used(v, drawn) ==> id == drawn
    &&& id_used(v, drawn) ==> forall|c: u128| c < id ==> #[trigger] id_used(v, c)
}

/// Id, kind, direction and gaps of `b` are those of `a`.
pub open spec fn same_identity(a: ContainerNode, b: ContainerNode) -> bool {
    &&& a.id == b.id
    &&& a.kind == b.kind
    &&& a.tiling_direction == b.tiling_direction
    &&& a.gaps_config == b.gaps_config
}

/// The nearest of `i` and its ancestors that is a direction container,
/// looking at no more than `fuel` containers.
pub open spec fn nearest_direction(v: Seq<ContainerNode>, i: int, fuel: nat) -> Option<usize>
    decreases fuel,
{
    if fuel == 0 {
        None
    } else if v[i].kind.direction() {
        Some(i as usize)
    } else {
        match v[i].parent {
            None => None,
            Some(p) => nearest_direction(v, p as int, (fuel - 1) as nat),
        }
    }
}

/// Index of `i` among its parent's children (0 without a parent).
pub open spec fn index_in_parent(v: Seq<ContainerNode>, i: int) -> int {
    match v[i].parent {
        None => 0,
        Some(p) => v[p as int].children@.index_of(i as usize),
    }
}

/// Index of `i`'s id in its parent's focus order (0 without a parent).
pub open spec fn focus_index_in_parent(v: Seq<ContainerNode>, i: int) -> int {
    match v[i].parent {
        None => 0,
        Some(p) => v[p as int].child_focus_order@.index_of(v[i].id),
    }
}

impl ContainerTree {
    pub closed spec fn ranked(&self) -> bool {
        &&& self.rank@.len() == self.nodes@.len()
        &&& self.nodes@.len() <= usize::MAX
        &&& forall|x: int|
            0 <= x < self.nodes@.len() && (#[trigger] self.nodes@[x].parent) is Some
                ==> self.rank@[self.nodes@[x].parent.unwrap() as int] < self.rank@[x]
    }

    pub open spec fn wf(&self) -> bool {
        &&& tree_wf(self@)
        &&& self.ranked()
    }

    /// Bounds how many containers lie on the way from `i` to the top of its
    /// tree (see `lemma_enough_fuel`).
    pub closed spec fn height(&self, i: int) -> nat {
        self.rank@[i]
    }

    /// No container is its own parent.
    pub proof fn lemma_parent_not_self(&self, x: int)
        requires
            self.wf(),
            self.valid(x),
        ensures
            self@[x].parent != Some(x as usize),
    {
        if self.nodes@[x].parent is Some {
            assert(self.rank@[self.nodes@[x].parent.unwrap() as int] < self.rank@[x]);
        }
    }

    pub proof fn lemma_len_bound(&self)
        requires
            self.wf(),
        ensures
            self@.len() <= usize::MAX,
    {
    }

    pub open spec fn valid(&self, i: int) -> bool {
        0 <= i < self@.len()
    }

    /// Fuel of `height + 1` reaches as far as any larger fuel.
    pub proof fn lemma_enough_fuel(&self, i: int, fuel: nat)
        requires
            self.wf(),
            self.valid(i),
            fuel >= self.height(i) + 1,
        ensures
            nearest_direction(self@, i, fuel) == nearest_direction(
                self@,
                i,
                (self.height(i) + 1) as nat,
            ),
        decreases self.height(i),
    {
        let v = self@;
        if !v[i].kind.direction() {
            if let Some(p) = v[i].parent {
                assert(self.rank@[p as int] < self.rank@[i]);
                self.lemma_enough_fuel(p as int, (fuel - 1) as nat);
                self.lemma_enough_fuel(p as int, self.height(i));
            }
        }
    }

    /// An empty arena.
    pub fn new() -> (t: Self)
        ensures
            t.wf(),
            t@.len() == 0,
    {
        ContainerTree { nodes: Vec::new(), rank: Ghost(Seq::empty()) }
    }

    pub fn len(&self) -> (r: usize)
        ensures
            r == self@.len(),
    {
        self.nodes.len()
    }

    pub fn id(&self, i: usize) -> (r: u128)
        requires
            self.valid(i as int),
        ensures
            r == self@[i as int].id,
    {
        self.nodes[i].id
    }

    pub fn kind(&self, i: usize) -> (r: ContainerKind)
        requires
            self.valid(i as int),
        ensures
            r == self@[i as int].kind,
    {
        self.nodes[i].kind
    }

    pub fn parent(&self, i: usize) -> (r: Option<usize>)
        requires
            self.valid(i as int),
        ensures
            r == self@[i as int].parent,
    {
        self.nodes[i].parent
    }

    pub fn tiling_direction(&self, i: usize) -> (r: TilingDirection)
        requires
            self.valid(i as int),
        ensures
            r == self@[i as int].tiling_direction,
    {
        self.nodes[i].tiling_direction
    }

    pub fn gaps_config(&self, i: usize) -> (r: Option<GapsConfig>)
        requires
            self.valid(i as int),
        ensures
            r == self@[i as int].gaps_config,
    {
        self.nodes[i].gaps_config
    }

    pub fn children(&self, i: usize) -> (r: &Vec<usize>)
        requires
            self.valid(i as int),
        ensures
            r@ == self@[i as int].children@,
    {
        &self.nodes[i].children
    }

    pub fn child_focus_order(&self, i: usize) -> (r: &Vec<u128>)
        requires
            self.valid(i as int),
        ensures
            r@ == self@[i as int].child_focus_order@,
    {
        &self.nodes[i].child_focus_order
    }

    pub fn child_count(&self, i: usize) -> (r: usize)
        requires
            self.valid(i as int),
        ensures
            r == self@[i as int].children@.len(),
    {
        self.nodes[i].children.len()
    }

    /// The id `drawn` when no container has it; otherwise the smallest id
    /// that no container has.
    pub fn fresh_id(&self, drawn: u128) -> (id: u128)
        requires
            self.wf(),
        ensures
            fresh_choice(self@, drawn, id),
    {
        if self.find_by_id(drawn).is_none() {
            return drawn;
        }
        let n = self.nodes.len();
        let mut c: u128 = 0;
        while c <= n as u128
            invariant
                n == self@.len(),
                c <= n + 1,
                id_used(self@, drawn),
                forall|d: u128| d < c ==> #[trigger] id_used(self@, d),
            decreases n + 1 - c,
        {
            match self.find_by_id(c) {
                None => {
                    return c;
                },
                Some(_) => {},
            }
            c = c + 1;
        }
        proof {
            let ids = self@.map_values(|nd: ContainerNode| nd.id as int);
            lemma_free_value(ids);
            let k = choose|k: int| 0 <= k <= ids.len() && !ids.contains(k);
            assert(id_used(self@, k as u128));
            let x = choose|x: int| 0 <= x < self@.len() && self@[x].id == k as u128;
            assert(ids[x] == k);
        }
        c
    }

    /// The container whose id is `id`, if any.
    pub fn find_by_id(&self, id: u128) -> (r: Option<usize>)
        ensures
            r matches Some(i) ==> self.valid(i as int) && self@[i as int].id == id,
            r is None ==> forall|i: int| 0 <= i < self@.len() ==> self@[i].id != id,
    {
        let mut i: usize = 0;
        while i < self.nodes.len()
            invariant
                i <= self@.len(),
                forall|k: int| 0 <= k < i ==> self@[k].id != id,
            decreases self@.len() - i,
        {
            if self.nodes[i].id == id {
                return Some(i);
            }
            i = i + 1;
        }
        None
    }

    pub proof fn lemma_child_ids_no_dup(&self, j: int)
        requires
            self.wf(),
            self.valid(j),
        ensures
            child_ids(self@, j).no_duplicates(),
            child_ids(self@, j).len() == self@[j].children@.len(),
    {
        let v = self@;
        let ids = child_ids(v, j);
        assert forall|a: int, b: int| 0 <= a < ids.len() && 0 <= b < ids.len() && a != b implies ids[a]
            != ids[b] by {
            let ca = v[j].children@[a];
            let cb = v[j].children@[b];
            assert(ca != cb);
            assert(ca < v.len() && cb < v.len());
            assert(v[ca as int].id != v[cb as int].id);
        }
    }

    /// The focus order of an attached or non-empty container is duplicate
    /// free and holds exactly the children's ids.
    pub proof fn lemma_focus_facts(&self, j: int)
        requires
            self.wf(),
            self.valid(j),
            !(self@[j].parent is None && self@[j].children@.len() == 0),
        ensures
            self@[j].child_focus_order@.no_duplicates(),
            self@[j].child_focus_order@.len() == self@[j].children@.len(),
            forall|k: int|
                0 <= k < self@[j].children@.len() ==> self@[j].child_focus_order@.contains(
                    #[trigger] self@[self@[j].children@[k] as int].id,
                ),
            forall|u: u128|
                #[trigger] self@[j].child_focus_order@.contains(u) ==> child_ids(self@, j).contains(u),
    {
        let v = self@;
        assert(focus_matches(v, j));
        self.lemma_child_ids_no_dup(j);
        lemma_same_multiset_no_dup(v[j].child_focus_order@, child_ids(v, j));
        assert(v[j].child_focus_order@.len() == v[j].child_focus_order@.to_multiset().len());
        assert(child_ids(v, j).len() == child_ids(v, j).to_multiset().len());
        assert forall|k: int| 0 <= k < v[j].children@.len() implies v[j].child_focus_order@.contains(
            #[trigger] v[v[j].children@[k] as int].id,
        ) by {
            assert(child_ids(v, j)[k] == v[v[j].children@[k] as int].id);
            lemma_same_multiset_contains(
                v[j].child_focus_order@,
                child_ids(v, j),
                v[v[j].children@[k] as int].id,
            );
        }
        assert forall|u: u128| #[trigger] v[j].child_focus_order@.contains(u) implies child_ids(
            v,
            j,
        ).contains(u) by {
            lemma_same_multiset_contains(v[j].child_focus_order@, child_ids(v, j), u);
        }
    }

    /// Index of `i` among its parent's children (0 without a parent).
    pub fn index(&self, i: usize) -> (r: usize)
        requires
            self.wf(),
            self.valid(i as int),
        ensures
            r == index_in_parent(self@, i as int),
            self@[i as int].parent matches Some(p) ==> r < self@[p as int].children@.len()
                && self@[p as int].children@[r as int] == i,
    {
        match self.nodes[i].parent {
            None => 0,
            Some(p) => {
                let pos = position_usize(&self.nodes[p].children, i);
                proof {
                    assert(v_contains(self@, p as int, i as int));
                }
                let r = pos.unwrap();
                proof {
                    lemma_index_of_unique(self@[p as int].children@, r as int);
                }
                r
            },
        }
    }

    /// Index of `i`'s id in its parent's focus order (0 without a parent).
    pub fn focus_index(&self, i: usize) -> (r: usize)
        requires
            self.wf(),
            self.valid(i as int),
        ensures
            r == focus_index_in_parent(self@, i as int),
            self@[i as int].parent matches Some(p) ==> r < self@[p as int].child_focus_order@.len()
                && self@[p as int].child_focus_order@[r as int] == self@[i as int].id,
    {
        match self.nodes[i].parent {
            None => 0,
            Some(p) => {
                proof {
                    let v = self@;
                    assert(v_contains(v, p as int, i as int));
                    let k = v[p as int].children@.index_of(i as usize);
                    self.lemma_focus_facts(p as int);
                    assert(v[p as int].child_focus_order@.contains(
                        v[v[p as int].children@[k] as int].id,
                    ));
                }
                let pos = position_u128(&self.nodes[p].child_focus_order, self.nodes[i].id);
                let r = pos.unwrap();
                proof {
                    lemma_index_of_unique(self@[p as int].child_focus_order@, r as int);
                }
                r
            },
        }
    }

    /// The nearest of `i` and its ancestors that lays out its children.
    pub fn direction_container(&self, i: usize) -> (r: Option<usize>)
        requires
            self.wf(),
            self.valid(i as int),
        ensures
            r == nearest_direction(self@, i as int, (self.height(i as int) + 1) as nat),
            r matches Some(d) ==> self.valid(d as int) && self@[d as int].kind.direction(),
    {
        let mut cur = i;
        loop
            invariant
                self.wf(),
                self.valid(cur as int),
                nearest_direction(self@, cur as int, (self.height(cur as int) + 1) as nat)
                    == nearest_direction(self@, i as int, (self.height(i as int) + 1) as nat),
            decreases self.height(cur as int),
        {
            if self.nodes[cur].kind.is_direction() {
                return Some(cur);
            }
            match self.nodes[cur].parent {
                None => {
                    return None;
                },
                Some(p) => {
                    proof {
                        assert(self.rank@[p as int] < self.rank@[cur as int]);
                        self.lemma_enough_fuel(p as int, self.height(cur as int));
                    }
                    cur = p;
                },
            }
        }
    }

    /// Adds a container without a parent.
    pub fn add_detached(
        &mut self,
        id: u128,
        kind: ContainerKind,
        tiling_direction: TilingDirection,
        gaps_config: Option<GapsConfig>,
    ) -> (r: Result<usize, TreeError>)
        requires
            old(self).wf(),
        ensures
            final(self).wf(),
            r is Err <==> exists|x: int| 0 <= x < old(self)@.len() && old(self)@[x].id == id,
            r is Err ==> final(self)@ == old(self)@ && r == Err::<usize, TreeError>(
                TreeError::IdCollision,
            ),
            r matches Ok(n) ==> {
                &&& n == old(self)@.len()
                &&& final(self)@.len() == old(self)@.len() + 1
                &&& final(self)@.take(n as int) == old(self)@
                &&& final(self)@[n as int].id == id
                &&& final(self)@[n as int].kind == kind
                &&& final(self)@[n as int].parent is None
                &&& final(self)@[n as int].children@.len() == 0
                &&& final(self)@[n as int].child_focus_order@.len() == 0
                &&& final(self)@[n as int].tiling_direction == tiling_direction
                &&& final(self)@[n as int].gaps_config == gaps_config
            },
    {
        if let Some(_) = self.find_by_id(id) {
            return Err(TreeError::IdCollision);
        }
        let n = self.nodes.len();
        let node = ContainerNode {
            id,
            kind,
            parent: None,
            children: Vec::new(),
            child_focus_order: Vec::new(),
            tiling_direction,
            gaps_config,
        };
        self.nodes.push(node);
        let _len = self.nodes.len();
        proof {
            self.rank@ = self.rank@.push(0);
            let v = self@;
            let o = old(self)@;
            assert(v.take(n as int) =~= o);
            assert forall|j: int| 0 <= j < v.len() implies #[trigger] focus_matches(v, j) by {
                if j < n {
                    assert(focus_matches(o, j));
                    assert(child_ids(v, j) =~= child_ids(o, j));
                }
            }
            assert(kinds_fit(v));
            assert(child_links(v));
            assert(parent_links(v)) by {
                assert forall|x: int| 0 <= x < v.len() && (#[trigger] v[x].parent) is Some implies {
                    let p = v[x].parent.unwrap();
                    &&& p < v.len()
                    &&& v[p as int].children@.contains(x as usize)
                } by {
                    assert(x < n);
                }
            }
        }
        Ok(n)
    }

    /// Adds a container as the last child of `parent`, last in its focus
    /// order.
    #[verifier::spinoff_prover]
    #[verifier::rlimit(40)]
    pub fn add_child(
        &mut self,
        parent: usize,
        id: u128,
        kind: ContainerKind,
        tiling_direction: TilingDirection,
        gaps_config: Option<GapsConfig>,
    ) -> (r: Result<usize, TreeError>)
        requires
            old(self).wf(),
        ensures
            final(self).wf(),
            r == Err::<usize, TreeError>(TreeError::UnknownContainer) <==> parent >= old(self)@.len(),
            r == Err::<usize, TreeError>(TreeError::InvalidParent) <==> {
                &&& parent < old(self)@.len()
                &&& {
                    ||| old(self)@[parent as int].kind.window()
                    ||| ((old(self)@[parent as int].kind is Split || old(self)@[parent as int].kind is Stack)
                        && !kind.tiling())
                    ||| ((kind.tiling() || kind.window()) && !old(self)@[parent as int].kind.direction())
                    ||| (old(self)@[parent as int].parent is None && old(self)@[parent as int].children@.len() == 0
                        && old(self)@[parent as int].child_focus_order@.len() != 0)
                }
            },
            r == Err::<usize, TreeError>(TreeError::IdCollision) <==> {
                &&& parent < old(self)@.len()
                &&& !(r == Err::<usize, TreeError>(TreeError::InvalidParent))
                &&& exists|x: int| 0 <= x < old(self)@.len() && old(self)@[x].id == id
            },
            r is Err ==> final(self)@ == old(self)@,
            r matches Ok(n) ==> {
                &&& n == old(self)@.len()
                &&& final(self)@.len() == old(self)@.len() + 1
                &&& final(self)@[n as int].id == id
                &&& final(self)@[n as int].kind == kind
                &&& final(self)@[n as int].parent == Some(parent)
                &&& final(self)@[n as int].children@.len() == 0
                &&& final(self)@[n as int].child_focus_order@.len() == 0
                &&& final(self)@[n as int].tiling_direction == tiling_direction
                &&& final(self)@[n as int].gaps_config == gaps_config
                &&& final(self)@[parent as int].children@ == old(self)@[parent as int].children@.push(n)
                &&& final(self)@[parent as int].child_focus_order@
                    == old(self)@[parent as int].child_focus_order@.push(id)
                &&& forall|x: int|
                    0 <= x < old(self)@.len() && x != parent ==> #[trigger] final(self)@[x] == old(
                        self,
                    )@[x]
                &&& same_identity(old(self)@[parent as int], final(self)@[parent as int])
                &&& final(self)@[parent as int].parent == old(self)@[parent as int].parent
            },
    {
        if parent >= self.nodes.len() {
            return Err(TreeError::UnknownContainer);
        }
        let pk = self.nodes[parent].kind;
        if pk.is_window() || ((matches!(pk, ContainerKind::Split) || pk.is_stack())
            && !kind.is_tiling()) || ((kind.is_tiling() || kind.is_window()) && !pk.is_direction()) || (self.nodes[parent].parent.is_none()
            && self.nodes[parent].children.len() == 0 && self.nodes[parent].child_focus_order.len()
            != 0) {
            return Err(TreeError::InvalidParent);
        }
        if let Some(_) = self.find_by_id(id) {
            return Err(TreeError::IdCollision);
        }
        let n = self.nodes.len();
        let node = ContainerNode {
            id,
            kind,
            parent: Some(parent),
            children: Vec::new(),
            child_focus_order: Vec::new(),
            tiling_direction,
            gaps_config,
        };
        self.nodes.push(node);
        let _len = self.nodes.len();
        self.nodes[parent].children.push(n);
        self.nodes[parent].child_focus_order.push(id);
        proof {
            let o = old(self)@;
            let v = self@;
            self.rank@ = self.rank@.push(self.rank@[parent as int] + 1);
            assert forall|a: int, b: int| 0 <= a < v.len() && 0 <= b < v.len() && a != b implies #[trigger] v[a].id
                != #[trigger] v[b].id by {
                if a < n && b < n {
                    assert(o[a].id == v[a].id && o[b].id == v[b].id);
                } else if a < n {
                    assert(o[a].id == v[a].id);
                } else {
                    assert(o[b].id == v[b].id);
                }
            }
            assert(parent_links(v)) by {
                assert forall|x: int| 0 <= x < v.len() && (#[trigger] v[x].parent) is Some implies {
                    let p = v[x].parent.unwrap();
                    &&& p < v.len()
                    &&& v[p as int].children@.contains(x as usize)
                } by {
                    if x < n {
                        let p = o[x].parent.unwrap();
                        assert(o[p as int].children@.contains(x as usize));
                        if p == parent {
                            let k = choose|k: int|
                                0 <= k < o[p as int].children@.len() && o[p as int].children@[k]
                                    == x as usize;
                            assert(v[p as int].children@[k] == x as usize);
                        }
                    } else {
                        assert(v[parent as int].children@.last() == n);
                    }
                }
            }
            assert(child_links(v)) by {
                assert forall|j: int, k: int| 0 <= j < v.len() && 0 <= k < v[j].children@.len() implies {
                    let c = #[trigger] v[j].children@[k];
                    &&& c < v.len()
                    &&& v[c as int].parent == Some(j as usize)
                } by {
                    if j != parent || k < o[j].children@.len() {
                        assert(v[j].children@[k] == o[j].children@[k]);
                    }
                }
            }
            assert(children_unique(v)) by {
                assert forall|j: int| 0 <= j < v.len() implies (#[trigger] v[j].children@).no_duplicates() by {
                    if j == parent {
                        assert forall|a: int| 0 <= a < o[j].children@.len() implies o[j].children@[a] != n by {
                            assert(o[j].children@[a] < o.len());
                        }
                    }
                }
            }
            assert forall|j: int| 0 <= j < v.len() implies #[trigger] focus_matches(v, j) by {
                if j < n {
                    assert(focus_matches(o, j));
                    if j == parent {
                        assert(child_ids(v, j) =~= child_ids(o, j).push(id)) by {
                            assert forall|k: int| 0 <= k < o[j].children@.len() implies v[o[j].children@[k] as int].id
                                == o[o[j].children@[k] as int].id by {
                                assert(o[j].children@[k] < n);
                            }
                        }
                        if o[j].parent is None && o[j].children@.len() == 0 {
                            assert(o[j].child_focus_order@ =~= Seq::<u128>::empty());
                            assert(child_ids(o, j) =~= Seq::<u128>::empty());
                        }
                        assert(v[j].child_focus_order@ =~= o[j].child_focus_order@.push(id));
                        assert(v[j].child_focus_order@.to_multiset() =~= o[j].child_focus_order@.to_multiset().insert(id));
                        assert(child_ids(v, j).to_multiset() =~= child_ids(o, j).to_multiset().insert(id));
                    } else {
                        assert(child_ids(v, j) =~= child_ids(o, j)) by {
                            assert forall|k: int| 0 <= k < o[j].children@.len() implies v[o[j].children@[k] as int].id
                                == o[o[j].children@[k] as int].id by {
                                assert(o[j].children@[k] < n);
                            }
                        }
                    }
                } else {
                    assert(child_ids(v, j) =~= Seq::<u128>::empty());
                    assert(v[j].child_focus_order@ =~= Seq::<u128>::empty());
                }
            }
            assert(kinds_fit(v)) by {
                assert forall|j: int, k: int|
                    0 <= j < v.len() && (v[j].kind is Split || v[j].kind is Stack) && 0 <= k
                        < v[j].children@.len() implies (#[trigger] v[v[j].children@[k] as int]).kind.tiling() by {
                    if j != parent || k < o[j].children@.len() {
                        assert(v[j].children@[k] == o[j].children@[k]);
                        assert(o[j].children@[k] < n);
                    }
                }
                assert forall|j: int|
                    0 <= j < v.len() && (v[j].kind.tiling() || v[j].kind.window()) && (#[trigger] v[j].parent) is Some
                        implies v[v[j].parent.unwrap() as int].kind.direction() by {
                    if j < n {
                        assert(o[j].parent is Some);
                    }
                }
            }
        }
        Ok(n)
    }
}

pub open spec fn v_contains(v: Seq<ContainerNode>, p: int, i: int) -> bool {
    v[p].children@.contains(i as usize)
}

} // verus!

