//! The scene graph: component records addressed by [`ComponentId`], each
//! with a name, a stable identifier, an optional parent and ordered children.
use vstd::prelude::*;
use crate::components::{Component, ComponentRef};
use crate::ids::ComponentId;

verus! {

/// Why a scene-graph edit was refused.
#[derive(Debug, Clone, Copy, PartialEq, Eq, Structural)]
pub enum WorldError {
    /// A named component is not live.
    MissingComponent,
    /// The edit would make a component its own ancestor.
    WouldCreateCycle,
    /// A leaf removal was asked of a component that has children.
    HasChildren,
}

/// One live component and its place in the graph.
#[derive(Debug)]
pub struct ComponentRecord {
    pub name: String,
    pub guid: u64,
    pub parent: Option<ComponentId>,
    pub children: Vec<ComponentId>,
    pub component: Component,
}

/// The view of a component reference.
pub enum RefView {
    Guid(u64),
    Query(Seq<char>),
}

impl View for ComponentRef {
    type V = RefView;

    open spec fn view(&self) -> RefView {
        match self {
            ComponentRef::Guid(g) => RefView::Guid(*g),
            ComponentRef::Query(q) => RefView::Query(q@),
        }
    }
}

/// Copies a component reference.
pub fn clone_ref(r: &ComponentRef) -> (c: ComponentRef)
    ensures
        c@ == r@,
{
    match r {
        ComponentRef::Guid(g) => ComponentRef::Guid(*g),
        ComponentRef::Query(q) => ComponentRef::Query(q.clone()),
    }
}

/// The scene graph. Identities are never reused: a removed component's slot
/// stays empty.
#[derive(Debug)]
pub struct World {
    records: Vec<Option<ComponentRecord>>,
    next_guid: u64,
}

/// The predicate "is not `x`".
pub open spec fn ne_pred(x: ComponentId) -> spec_fn(ComponentId) -> bool {
    |c: ComponentId| c != x
}

/// `s` with every occurrence of `x` taken out, order kept.
pub open spec fn without(s: Seq<ComponentId>, x: ComponentId) -> Seq<ComponentId> {
    s.filter(ne_pred(x))
}

/// The name a `#name` selector asks for; other selectors name nothing.
pub open spec fn selector_name(selector: Seq<char>) -> Option<Seq<char>> {
    if selector.len() > 0 && selector[0] == '#' {
        Some(selector.drop_first())
    } else {
        None
    }
}

/// The first element of `s` that satisfies `pred`.
pub open spec fn first_where(s: Seq<ComponentId>, pred: spec_fn(ComponentId) -> bool) -> Option<ComponentId>
    decreases s.len(),
{
    if s.len() == 0 {
        None
    } else {
        match first_where(s.drop_last(), pred) {
            Some(x) => Some(x),
            None => if pred(s.last()) {
                Some(s.last())
            } else {
                None
            },
        }
    }
}

/// A search that found something in a prefix has found the first match of
/// the whole sequence.
pub proof fn lemma_first_where_prefix(s: Seq<ComponentId>, k: int, pred: spec_fn(ComponentId) -> bool)
    requires
        0 <= k <= s.len(),
        first_where(s.take(k), pred) is Some,
    ensures
        first_where(s, pred) == first_where(s.take(k), pred),
    decreases s.len(),
{
    if k == s.len() {
        assert(s.take(k) =~= s);
    } else {
        assert(s.drop_last().take(k) =~= s.take(k));
        lemma_first_where_prefix(s.drop_last(), k, pred);
    }
}

/// One more step of a front-to-back search.
pub proof fn lemma_first_where_step(s: Seq<ComponentId>, i: int, pred: spec_fn(ComponentId) -> bool)
    requires
        0 <= i < s.len(),
        first_where(s.take(i), pred) is None,
    ensures
        first_where(s.take(i + 1), pred) == if pred(s[i]) { Some(s[i]) } else { None::<ComponentId> },
{
    assert(s.take(i + 1).drop_last() =~= s.take(i));
}

/// Removing an element other than the first match keeps the first match.
pub proof fn lemma_first_where_without(s: Seq<ComponentId>, x: ComponentId, pred: spec_fn(ComponentId) -> bool)
    requires
        first_where(s, pred) != Some(x),
    ensures
        first_where(without(s, x), pred) == first_where(s, pred),
    decreases s.len(),
{
    reveal(Seq::filter);
    if s.len() > 0 {
        let sd = s.drop_last();
        if first_where(sd, pred) == Some(x) {
            assert(first_where(s, pred) == Some(x));
        }
        lemma_first_where_without(sd, x, pred);
        if s.last() != x {
            assert(without(s, x) == without(sd, x).push(s.last()));
            assert(without(s, x).drop_last() =~= without(sd, x));
        } else {
            assert(without(s, x) == without(sd, x));
        }
    }
}

/// A search over a sequence in which nothing matches finds nothing.
pub proof fn lemma_first_where_none(s: Seq<ComponentId>, pred: spec_fn(ComponentId) -> bool)
    requires
        forall|i: int| 0 <= i < s.len() ==> !pred(#[trigger] s[i]),
    ensures
        first_where(s, pred) is None,
    decreases s.len(),
{
    if s.len() > 0 {
        lemma_first_where_none(s.drop_last(), pred);
        assert(!pred(s[s.len() - 1]));
    }
}

/// When `b` is the only match in `s`, the search finds `b`.
pub proof fn lemma_first_where_unique(s: Seq<ComponentId>, pred: spec_fn(ComponentId) -> bool, b: ComponentId)
    requires
        s.contains(b),
        pred(b),
        forall|i: int| 0 <= i < s.len() && pred(#[trigger] s[i]) ==> s[i] == b,
    ensures
        first_where(s, pred) == Some(b),
    decreases s.len(),
{
    let sd = s.drop_last();
    if sd.contains(b) {
        lemma_first_where_unique(sd, pred, b);
    } else {
        assert forall|i: int| 0 <= i < sd.len() implies !pred(#[trigger] sd[i]) by {
            assert(s[i] == sd[i]);
        }
        lemma_first_where_none(sd, pred);
        let k = choose|k: int| 0 <= k < s.len() && s[k] == b;
        if k < s.len() - 1 {
            assert(sd[k] == b);
        }
    }
}

/// What `without` removes from a sequence with no elements leaves it empty.
pub proof fn lemma_without_empty(s: Seq<ComponentId>, x: ComponentId)
    requires
        s.len() == 0,
    ensures
        without(s, x).len() == 0,
{
    reveal(Seq::filter);
}

/// What `without` keeps comes from `s` and is not `x`.
pub proof fn lemma_without_subset(s: Seq<ComponentId>, x: ComponentId)
    ensures
        forall|i: int| 0 <= i < without(s, x).len() ==> s.contains(#[trigger] without(s, x)[i]) && without(s, x)[i] != x,
    decreases s.len(),
{
    reveal(Seq::filter);
    if s.len() > 0 {
        let sd = s.drop_last();
        lemma_without_subset(sd, x);
        assert forall|i: int| 0 <= i < without(s, x).len() implies s.contains(#[trigger] without(s, x)[i]) && without(s, x)[i] != x by {
            if s.last() != x {
                assert(without(s, x) == without(sd, x).push(s.last()));
                if i < without(sd, x).len() {
                    let e = without(sd, x)[i];
                    assert(sd.contains(e));
                    let k = choose|k: int| 0 <= k < sd.len() && sd[k] == e;
                    assert(s[k] == e);
                } else {
                    assert(s[s.len() - 1] == s.last());
                }
            } else {
                assert(without(s, x) == without(sd, x));
                let e = without(sd, x)[i];
                assert(sd.contains(e));
                let k = choose|k: int| 0 <= k < sd.len() && sd[k] == e;
                assert(s[k] == e);
            }
        }
    }
}

/// Copies a list of identities.
pub fn copy_ids(v: &Vec<ComponentId>) -> (r: Vec<ComponentId>)
    ensures
        r@ == v@,
{
    let mut r: Vec<ComponentId> = Vec::new();
    let mut i: usize = 0;
    while i < v.len()
        invariant
            i <= v.len(),
            r@ == v@.take(i as int),
        decreases v.len() - i,
    {
        r.push(v[i]);
        i += 1;
        proof {
            assert(r@ =~= v@.take(i as int));
        }
    }
    proof {
        assert(v@.take(v@.len() as int) =~= v@);
    }
    r
}

/// `v` with every occurrence of `x` taken out, order kept.
pub fn remove_all(v: &Vec<ComponentId>, x: ComponentId) -> (r: Vec<ComponentId>)
    ensures
        r@ == without(v@, x),
{
    let mut r: Vec<ComponentId> = Vec::new();
    let mut i: usize = 0;
    while i < v.len()
        invariant
            i <= v.len(),
            r@ == without(v@.take(i as int), x),
        decreases v.len() - i,
    {
        proof {
            assert(v@.take(i + 1) =~= v@.take(i as int).push(v@[i as int]));
            v@.take(i as int).lemma_filter_push(v@[i as int], ne_pred(x));
        }
        if v[i].index != x.index {
            r.push(v[i]);
        }
        i += 1;
    }
    proof {
        assert(v@.take(v@.len() as int) =~= v@);
    }
    r
}

/// Whether `x` occurs in `v`.
pub fn contains_id(v: &Vec<ComponentId>, x: ComponentId) -> (b: bool)
    ensures
        b <==> v@.contains(x),
{
    let mut i: usize = 0;
    while i < v.len()
        invariant
            i <= v.len(),
            forall|j: int| 0 <= j < i ==> v@[j] != x,
        decreases v.len() - i,
    {
        if v[i].index == x.index {
            return true;
        }
        i += 1;
    }
    false
}

impl World {
    /// Number of identities ever issued; every walk of the graph is bounded by it.
    pub closed spec fn slots(&self) -> nat {
        self.records@.len()
    }

    /// The record of `id`, if it is live.
    pub closed spec fn rec(&self, id: ComponentId) -> Option<ComponentRecord> {
        if id.index < self.records@.len() {
            self.records@[id.index as int]
        } else {
            None
        }
    }

    pub open spec fn live(&self, id: ComponentId) -> bool {
        self.rec(id) is Some
    }

    pub open spec fn parent_spec(&self, id: ComponentId) -> Option<ComponentId> {
        match self.rec(id) {
            Some(r) => r.parent,
            None => None,
        }
    }

    pub open spec fn children_spec(&self, id: ComponentId) -> Seq<ComponentId> {
        match self.rec(id) {
            Some(r) => r.children@,
            None => Seq::empty(),
        }
    }

    pub open spec fn name_spec(&self, id: ComponentId) -> Seq<char> {
        match self.rec(id) {
            Some(r) => r.name@,
            None => Seq::empty(),
        }
    }

    pub open spec fn guid_spec(&self, id: ComponentId) -> Option<u64> {
        match self.rec(id) {
            Some(r) => Some(r.guid),
            None => None,
        }
    }

    pub open spec fn component_spec(&self, id: ComponentId) -> Option<Component> {
        match self.rec(id) {
            Some(r) => Some(r.component),
            None => None,
        }
    }

    /// The identity at slot `i`.
    pub open spec fn id_at(i: int) -> ComponentId {
        ComponentId { index: i as u64 }
    }

    /// Identities of the first `n` slots that satisfy `pred`, in slot order.
    pub open spec fn ids_where(n: int, pred: spec_fn(ComponentId) -> bool) -> Seq<ComponentId>
        decreases n,
    {
        if n <= 0 {
            Seq::empty()
        } else if pred(Self::id_at(n - 1)) {
            Self::ids_where(n - 1, pred).push(Self::id_at(n - 1))
        } else {
            Self::ids_where(n - 1, pred)
        }
    }

    pub open spec fn live_pred(&self) -> spec_fn(ComponentId) -> bool {
        |x: ComponentId| self.live(x)
    }

    pub open spec fn root_pred(&self) -> spec_fn(ComponentId) -> bool {
        |x: ComponentId| self.live(x) && self.parent_spec(x) is None
    }

    pub open spec fn named(&self, name: Seq<char>) -> spec_fn(ComponentId) -> bool {
        |x: ComponentId| self.live(x) && self.name_spec(x) == name
    }

    /// Live identities in slot order.
    pub open spec fn all_ids(&self) -> Seq<ComponentId> {
        Self::ids_where(self.slots() as int, self.live_pred())
    }

    /// Live components without a parent, in slot order.
    pub open spec fn root_ids(&self) -> Seq<ComponentId> {
        Self::ids_where(self.slots() as int, self.root_pred())
    }

    /// The first component reached from `start` by following parent links,
    /// in at most `fuel` steps, whose component satisfies `pred`.
    pub open spec fn first_up(&self, start: Option<ComponentId>, fuel: nat, pred: spec_fn(Component) -> bool) -> Option<ComponentId>
        decreases fuel,
    {
        match start {
            None => None,
            Some(id) => if fuel == 0 || !self.live(id) {
                None
            } else if pred(self.component_spec(id).unwrap()) {
                Some(id)
            } else {
                self.first_up(self.parent_spec(id), (fuel - 1) as nat, pred)
            },
        }
    }

    /// Whether `target` is `start` or is reached from it by following parent
    /// links in at most `fuel` steps.
    pub open spec fn reaches_up(&self, start: ComponentId, target: ComponentId, fuel: nat) -> bool
        decreases fuel,
    {
        if start == target {
            true
        } else if fuel == 0 {
            false
        } else {
            match self.parent_spec(start) {
                None => false,
                Some(p) => self.reaches_up(p, target, (fuel - 1) as nat),
            }
        }
    }

    /// `id` and its descendants in depth-first preorder, `fuel` levels deep.
    pub open spec fn subtree(&self, id: ComponentId, fuel: nat) -> Seq<ComponentId>
        decreases fuel, 0nat,
    {
        if fuel == 0 || !self.live(id) {
            Seq::empty()
        } else {
            seq![id] + self.forest(self.children_spec(id), (fuel - 1) as nat)
        }
    }

    /// The subtrees of `roots`, concatenated in order.
    pub open spec fn forest(&self, roots: Seq<ComponentId>, fuel: nat) -> Seq<ComponentId>
        decreases fuel, roots.len(),
    {
        if roots.len() == 0 {
            Seq::empty()
        } else {
            self.forest(roots.drop_last(), fuel) + self.subtree(roots.last(), fuel)
        }
    }

    /// The whole subtree under `id`: no path in a graph of `slots` records is longer.
    pub open spec fn descendants_or_self(&self, id: ComponentId) -> Seq<ComponentId> {
        self.subtree(id, self.slots())
    }

    /// `x` has the same liveness, component, name, stable identifier and
    /// parent in `self` as in `other`.
    pub open spec fn same_data(&self, other: &World, x: ComponentId) -> bool {
        &&& self.live(x) == other.live(x)
        &&& self.component_spec(x) == other.component_spec(x)
        &&& self.name_spec(x) == other.name_spec(x)
        &&& self.guid_spec(x) == other.guid_spec(x)
        &&& self.parent_spec(x) == other.parent_spec(x)
    }

    /// `x` has the same liveness, name, stable identifier, parent and
    /// children in `self` as in `other`; only its component may differ.
    pub open spec fn same_place(&self, other: &World, x: ComponentId) -> bool {
        &&& self.live(x) == other.live(x)
        &&& self.name_spec(x) == other.name_spec(x)
        &&& self.guid_spec(x) == other.guid_spec(x)
        &&& self.parent_spec(x) == other.parent_spec(x)
        &&& self.children_spec(x) == other.children_spec(x)
    }

    /// Every parent and child link names a slot that has been issued.
    pub open spec fn links_ok(&self) -> bool {
        &&& forall|x: ComponentId| #[trigger] self.parent_spec(x) is Some ==> self.parent_spec(x).unwrap().index < self.slots()
        &&& forall|x: ComponentId, j: int| 0 <= j < self.children_spec(x).len()
            ==> #[trigger] self.children_spec(x)[j].index < self.slots()
    }

    /// What `find_all_components(root, selector)` returns.
    pub open spec fn find_all_spec(&self, root: ComponentId, selector: Seq<char>) -> Seq<ComponentId> {
        match selector_name(selector) {
            Some(name) => self.descendants_or_self(root).filter(self.named(name)),
            None => Seq::empty(),
        }
    }

    pub proof fn lemma_forest_step(&self, roots: Seq<ComponentId>, i: int, fuel: nat)
        requires
            0 <= i < roots.len(),
        ensures
            self.forest(roots.take(i + 1), fuel) == self.forest(roots.take(i), fuel) + self.subtree(roots[i], fuel),
    {
        assert(roots.take(i + 1).drop_last() =~= roots.take(i));
    }

    /// A live identity has been issued.
    pub proof fn lemma_live_in_range(&self, x: ComponentId)
        ensures
            self.live(x) ==> x.index < self.slots(),
    {
    }

    /// With every link in range, an identity not yet issued is nobody's child
    /// and nobody's ancestor.
    pub proof fn lemma_fresh_unlinked(&self, n: ComponentId)
        requires
            self.links_ok(),
            n.index >= self.slots(),
        ensures
            forall|x: ComponentId| !#[trigger] self.children_spec(x).contains(n),
            forall|x: ComponentId, fuel: nat| x.index < self.slots() ==> !#[trigger] self.reaches_up(x, n, fuel),
    {
        assert forall|x: ComponentId| !#[trigger] self.children_spec(x).contains(n) by {
            if self.children_spec(x).contains(n) {
                let j = choose|j: int| 0 <= j < self.children_spec(x).len() && self.children_spec(x)[j] == n;
                assert(self.children_spec(x)[j].index < self.slots());
            }
        }
        assert forall|x: ComponentId, fuel: nat| x.index < self.slots() implies !#[trigger] self.reaches_up(x, n, fuel) by {
            self.lemma_not_reaches_fresh(x, n, fuel);
        }
    }

    /// When every parent link out of the first `m` slots stays inside them,
    /// nothing inside reaches an identity outside.
    pub proof fn lemma_not_reaches_outside(&self, x: ComponentId, n: ComponentId, m: nat, fuel: nat)
        requires
            forall|y: ComponentId| y.index < m && #[trigger] self.parent_spec(y) is Some ==> self.parent_spec(y).unwrap().index < m,
            n.index >= m,
            x.index < m,
        ensures
            !self.reaches_up(x, n, fuel),
        decreases fuel,
    {
        if fuel > 0 {
            match self.parent_spec(x) {
                None => {},
                Some(p) => {
                    self.lemma_not_reaches_outside(p, n, m, (fuel - 1) as nat);
                },
            }
        }
    }

    proof fn lemma_not_reaches_fresh(&self, x: ComponentId, n: ComponentId, fuel: nat)
        requires
            self.links_ok(),
            n.index >= self.slots(),
            x.index < self.slots(),
        ensures
            !self.reaches_up(x, n, fuel),
        decreases fuel,
    {
        if fuel > 0 {
            match self.parent_spec(x) {
                None => {},
                Some(p) => {
                    self.lemma_not_reaches_fresh(p, n, (fuel - 1) as nat);
                },
            }
        }
    }

    /// The stable identifier the next added component receives.
    pub closed spec fn next_guid_spec(&self) -> u64 {
        self.next_guid
    }

    /// An empty world; the first component added receives stable
    /// identifier 1.
    pub fn new() -> (w: Self)
        ensures
            w.slots() == 0,
            w.links_ok(),
            w.all_ids().len() == 0,
            w.next_guid_spec() == 1,
    {
        World { records: Vec::new(), next_guid: 1 }
    }

    pub fn slot_count(&self) -> (n: usize)
        ensures
            n == self.slots(),
    {
        self.records.len()
    }

    /// Whether `id` names a live component.
    pub fn contains(&self, id: ComponentId) -> (b: bool)
        ensures
            b <==> self.live(id),
    {
        id.index < self.records.len() as u64 && self.records[id.index as usize].is_some()
    }

    /// The record of a live component.
    pub fn record(&self, id: ComponentId) -> (r: Option<&ComponentRecord>)
        ensures
            match r {
                Some(rec) => self.rec(id) == Some(*rec),
                None => !self.live(id),
            },
    {
        if id.index < self.records.len() as u64 {
            match &self.records[id.index as usize] {
                Some(rec) => Some(rec),
                None => None,
            }
        } else {
            None
        }
    }

    /// The parent of `id`, if it is live and has one.
    pub fn parent_of(&self, id: ComponentId) -> (p: Option<ComponentId>)
        ensures
            p == self.parent_spec(id),
    {
        match self.record(id) {
            Some(r) => r.parent,
            None => None,
        }
    }

    /// The children of `id` in order; none when it is not live.
    pub fn children_of(&self, id: ComponentId) -> (c: Vec<ComponentId>)
        ensures
            c@ == self.children_spec(id),
    {
        match self.record(id) {
            Some(r) => copy_ids(&r.children),
            None => Vec::new(),
        }
    }

    /// The component of `id`.
    pub fn component(&self, id: ComponentId) -> (c: Option<&Component>)
        ensures
            match c {
                Some(c) => self.component_spec(id) == Some(*c),
                None => !self.live(id),
            },
    {
        match self.record(id) {
            Some(r) => Some(&r.component),
            None => None,
        }
    }

    /// The stable identifier of `id`.
    pub fn guid(&self, id: ComponentId) -> (g: Option<u64>)
        ensures
            g == self.guid_spec(id),
    {
        match self.record(id) {
            Some(r) => Some(r.guid),
            None => None,
        }
    }

    /// A copy of the name of `id`.
    pub fn component_label(&self, id: ComponentId) -> (n: Option<String>)
        ensures
            match n {
                Some(n) => self.live(id) && n@ == self.name_spec(id),
                None => !self.live(id),
            },
    {
        match self.record(id) {
            Some(r) => Some(r.name.clone()),
            None => None,
        }
    }

    /// Whether `id` is live and named `name`.
    pub fn has_name(&self, id: ComponentId, name: &str) -> (b: bool)
        ensures
            b <==> self.live(id) && self.name_spec(id) == name@,
    {
        match self.record(id) {
            Some(r) => r.name == name.to_owned(),
            None => false,
        }
    }

    /// Whether `id` is live and the `#name` selector `selector` names it.
    pub open spec fn selects(&self, id: ComponentId, selector: Seq<char>) -> bool {
        match selector_name(selector) {
            Some(name) => self.live(id) && self.name_spec(id) == name,
            None => false,
        }
    }

    /// Whether `id` is live and the `#name` selector `selector` names it.
    pub fn matches_selector(&self, id: ComponentId, selector: &str) -> (b: bool)
        ensures
            b == self.selects(id, selector@),
    {
        let len = selector.unicode_len();
        if len == 0 || selector.get_char(0) != '#' {
            return false;
        }
        let wanted = selector.substring_char(1, len);
        proof {
            assert(wanted@ =~= selector@.drop_first());
        }
        self.has_name(id, wanted)
    }

    /// The live component with stable identifier `guid` that comes first in
    /// slot order.
    pub open spec fn guid_owner(&self, guid: u64) -> Option<ComponentId> {
        if exists|x: ComponentId| #[trigger] self.guid_spec(x) == Some(guid) {
            Some(
                choose|x: ComponentId|
                    #![trigger self.guid_spec(x)]
                    self.guid_spec(x) == Some(guid) && forall|j: int|
                        0 <= j < x.index ==> #[trigger] self.guid_spec(Self::id_at(j)) != Some(guid),
            )
        } else {
            None
        }
    }

    /// The live component with stable identifier `guid` that comes first in
    /// slot order.
    pub fn component_with_guid(&self, guid: u64) -> (r: Option<ComponentId>)
        ensures
            r == self.guid_owner(guid),
    {
        let r = self.component_id_by_guid(guid);
        proof {
            if let Some(id) = r {
                assert(self.guid_spec(id) == Some(guid));
                let c = choose|x: ComponentId|
                    #![trigger self.guid_spec(x)]
                    self.guid_spec(x) == Some(guid) && forall|j: int|
                        0 <= j < x.index ==> #[trigger] self.guid_spec(Self::id_at(j)) != Some(guid);
                if c.index < id.index {
                    assert(self.guid_spec(Self::id_at(c.index as int)) != Some(guid));
                    assert(Self::id_at(c.index as int) == c);
                } else if id.index < c.index {
                    assert(self.guid_spec(Self::id_at(id.index as int)) != Some(guid));
                    assert(Self::id_at(id.index as int) == id);
                }
                assert(c == id);
            }
        }
        r
    }

    /// Live identities in slot order.
    pub fn all_components(&self) -> (ids: Vec<ComponentId>)
        ensures
            ids@ == self.all_ids(),
    {
        let mut ids: Vec<ComponentId> = Vec::new();
        let mut i: usize = 0;
        while i < self.records.len()
            invariant
                i <= self.records@.len(),
                ids@ == Self::ids_where(i as int, self.live_pred()),
            decreases self.records@.len() - i,
        {
            if self.records[i].is_some() {
                ids.push(ComponentId { index: i as u64 });
            }
            i += 1;
        }
        ids
    }

    /// Live components without a parent, in slot order.
    pub fn world_roots(&self) -> (ids: Vec<ComponentId>)
        ensures
            ids@ == self.root_ids(),
    {
        let mut ids: Vec<ComponentId> = Vec::new();
        let mut i: usize = 0;
        while i < self.records.len()
            invariant
                i <= self.records@.len(),
                ids@ == Self::ids_where(i as int, self.root_pred()),
            decreases self.records@.len() - i,
        {
            match &self.records[i] {
                Some(r) => {
                    if r.parent.is_none() {
                        ids.push(ComponentId { index: i as u64 });
                    }
                },
                None => {},
            }
            i += 1;
        }
        ids
    }

    /// The first live component, in slot order, whose stable identifier is `guid`.
    pub fn component_id_by_guid(&self, guid: u64) -> (r: Option<ComponentId>)
        ensures
            match r {
                Some(id) => self.guid_spec(id) == Some(guid) && forall|j: int|
                    0 <= j < id.index ==> #[trigger] self.guid_spec(Self::id_at(j)) != Some(guid),
                None => forall|x: ComponentId| #[trigger] self.guid_spec(x) != Some(guid),
            },
    {
        let mut i: usize = 0;
        while i < self.records.len()
            invariant
                i <= self.records@.len(),
                forall|j: int| 0 <= j < i ==> #[trigger] self.guid_spec(Self::id_at(j)) != Some(guid),
            decreases self.records@.len() - i,
        {
            match &self.records[i] {
                Some(r) => {
                    if r.guid == guid {
                        return Some(ComponentId { index: i as u64 });
                    }
                },
                None => {},
            }
            i += 1;
        }
        proof {
            assert forall|x: ComponentId| #[trigger] self.guid_spec(x) != Some(guid) by {
                if x.index < self.records@.len() {
                    assert(Self::id_at(x.index as int) == x);
                }
            }
        }
        None
    }

    /// Appends the subtree of `id`, `fuel` levels deep, to `out`.
    fn collect_subtree(&self, id: ComponentId, fuel: usize, out: &mut Vec<ComponentId>)
        ensures
            final(out)@ == old(out)@ + self.subtree(id, fuel as nat),
        decreases fuel,
    {
        if fuel == 0 {
            return;
        }
        match self.record(id) {
            None => {},
            Some(r) => {
                let ghost start = out@;
                out.push(id);
                let children = &r.children;
                let mut i: usize = 0;
                while i < children.len()
                    invariant
                        i <= children@.len(),
                        children@ == self.children_spec(id),
                        fuel > 0,
                        out@ == start + seq![id] + self.forest(children@.take(i as int), (fuel - 1) as nat),
                    decreases children@.len() - i,
                {
                    proof {
                        self.lemma_forest_step(children@, i as int, (fuel - 1) as nat);
                    }
                    self.collect_subtree(children[i], fuel - 1, out);
                    i += 1;
                    proof {
                        assert(out@ =~= start + seq![id] + self.forest(children@.take(i as int), (fuel - 1) as nat));
                    }
                }
                proof {
                    assert(children@.take(children@.len() as int) =~= children@);
                    assert(out@ =~= start + self.subtree(id, fuel as nat));
                }
            },
        }
    }

    /// `id` and all its descendants in depth-first preorder.
    pub fn subtree_of(&self, id: ComponentId) -> (ids: Vec<ComponentId>)
        ensures
            ids@ == self.descendants_or_self(id),
    {
        let mut ids: Vec<ComponentId> = Vec::new();
        let n = self.records.len();
        self.collect_subtree(id, n, &mut ids);
        proof {
            assert(ids@ =~= self.descendants_or_self(id));
        }
        ids
    }

    /// Every component in the subtree of `root` (root included) that a
    /// `#name` selector names, in depth-first preorder.
    pub fn find_all_components(&self, root: ComponentId, selector: &str) -> (ids: Vec<ComponentId>)
        ensures
            ids@ == self.find_all_spec(root, selector@),
    {
        let len = selector.unicode_len();
        if len == 0 || selector.get_char(0) != '#' {
            return Vec::new();
        }
        let wanted = selector.substring_char(1, len).to_owned();
        proof {
            assert(wanted@ =~= selector@.drop_first());
        }
        let candidates = self.subtree_of(root);
        let ghost pred = self.named(wanted@);
        let mut ids: Vec<ComponentId> = Vec::new();
        let mut i: usize = 0;
        while i < candidates.len()
            invariant
                i <= candidates@.len(),
                pred == self.named(wanted@),
                ids@ == candidates@.take(i as int).filter(pred),
            decreases candidates@.len() - i,
        {
            proof {
                assert(candidates@.take(i + 1) =~= candidates@.take(i as int).push(candidates@[i as int]));
                candidates@.take(i as int).lemma_filter_push(candidates@[i as int], pred);
            }
            let c = candidates[i];
            if self.has_name(c, wanted.as_str()) {
                ids.push(c);
            }
            i += 1;
        }
        proof {
            assert(candidates@.take(candidates@.len() as int) =~= candidates@);
        }
        ids
    }

    /// The first component that `find_all_components` returns.
    pub fn find_component(&self, root: ComponentId, selector: &str) -> (r: Option<ComponentId>)
        ensures
            r == (if self.find_all_spec(root, selector@).len() > 0 {
                Some(self.find_all_spec(root, selector@)[0])
            } else {
                None::<ComponentId>
            }),
    {
        let all = self.find_all_components(root, selector);
        if all.len() > 0 {
            Some(all[0])
        } else {
            None
        }
    }

    /// The slot of a live `id`.
    fn slot_index(&self, id: ComponentId) -> (r: Option<usize>)
        ensures
            r is Some <==> self.live(id),
            r is Some ==> r.unwrap() == id.index && r.unwrap() < self.records@.len(),
    {
        let n = self.records.len();
        if id.index < n as u64 && self.records[id.index as usize].is_some() {
            Some(id.index as usize)
        } else {
            None
        }
    }

    fn take_slot(&mut self, i: usize) -> (r: Option<ComponentRecord>)
        requires
            i < old(self).records@.len(),
        ensures
            r == old(self).records@[i as int],
            final(self).records@ == old(self).records@.update(i as int, None),
            final(self).next_guid == old(self).next_guid,
            old(self).links_ok() ==> final(self).links_ok(),
    {
        let mut tmp: Option<ComponentRecord> = None;
        self.records.set_and_swap(i, &mut tmp);
        proof {
            if old(self).links_ok() {
                assert forall|x: ComponentId| #[trigger] self.parent_spec(x) is Some implies self.parent_spec(x).unwrap().index < self.slots() by {
                    if x.index != i && x.index < self.records@.len() {
                        assert(self.records@[x.index as int] == old(self).records@[x.index as int]);
                        assert(old(self).parent_spec(x) == self.parent_spec(x));
                    }
                }
                assert forall|x: ComponentId, j: int| 0 <= j < self.children_spec(x).len()
                    implies #[trigger] self.children_spec(x)[j].index < self.slots() by {
                    if x.index != i && x.index < self.records@.len() {
                        assert(self.records@[x.index as int] == old(self).records@[x.index as int]);
                        assert(old(self).children_spec(x) == self.children_spec(x));
                    }
                }
            }
        }
        tmp
    }

    fn put_slot(&mut self, i: usize, r: ComponentRecord)
        requires
            i < old(self).records@.len(),
        ensures
            final(self).records@ == old(self).records@.update(i as int, Some(r)),
            final(self).next_guid == old(self).next_guid,
    {
        self.records.set(i, Some(r));
    }

    /// Replaces the component of a live `id` and hands back the previous one;
    /// none, with nothing changed, when `id` is not live.
    pub fn replace_component(&mut self, id: ComponentId, component: Component) -> (previous: Option<Component>)
        ensures
            previous == old(self).component_spec(id),
            final(self).slots() == old(self).slots(),
            previous is Some ==> final(self).live(id) && final(self).component_spec(id) == Some(component)
                && final(self).parent_spec(id) == old(self).parent_spec(id)
                && final(self).children_spec(id) == old(self).children_spec(id)
                && final(self).name_spec(id) == old(self).name_spec(id)
                && final(self).guid_spec(id) == old(self).guid_spec(id),
            forall|x: ComponentId| x != id ==> #[trigger] final(self).rec(x) == old(self).rec(x),
            previous is None ==> final(self).rec(id) == old(self).rec(id),
            old(self).links_ok() ==> final(self).links_ok(),
    {
        let i = match self.slot_index(id) {
            Some(i) => i,
            None => {
                return None;
            },
        };
        let mut r = self.take_slot(i).unwrap();
        let mut c = component;
        std::mem::swap(&mut r.component, &mut c);
        self.put_slot(i, r);
        proof {
            if old(self).links_ok() {
                assert forall|x: ComponentId| #[trigger] self.parent_spec(x) is Some implies self.parent_spec(x).unwrap().index < self.slots() by {
                    if x.index != i && x.index < self.records@.len() {
                        assert(self.records@[x.index as int] == old(self).records@[x.index as int]);
                    }
                    assert(old(self).parent_spec(x) == self.parent_spec(x));
                }
                assert forall|x: ComponentId, j: int| 0 <= j < self.children_spec(x).len()
                    implies #[trigger] self.children_spec(x)[j].index < self.slots() by {
                    if x.index != i && x.index < self.records@.len() {
                        assert(self.records@[x.index as int] == old(self).records@[x.index as int]);
                    }
                    assert(old(self).children_spec(x) == self.children_spec(x));
                }
            }
        }
        Some(c)
    }

    /// Replaces the component of a live `id`; false when `id` is not live.
    pub fn set_component(&mut self, id: ComponentId, component: Component) -> (done: bool)
        ensures
            done <==> old(self).live(id),
            final(self).slots() == old(self).slots(),
            done ==> final(self).live(id) && final(self).component_spec(id) == Some(component)
                && final(self).parent_spec(id) == old(self).parent_spec(id)
                && final(self).children_spec(id) == old(self).children_spec(id)
                && final(self).name_spec(id) == old(self).name_spec(id)
                && final(self).guid_spec(id) == old(self).guid_spec(id),
            forall|x: ComponentId| x != id ==> #[trigger] final(self).rec(x) == old(self).rec(x),
            !done ==> final(self).rec(id) == old(self).rec(id),
            old(self).links_ok() ==> final(self).links_ok(),
    {
        let i = match self.slot_index(id) {
            Some(i) => i,
            None => {
                return false;
            },
        };
        let mut r = self.take_slot(i).unwrap();
        r.component = component;
        self.put_slot(i, r);
        proof {
            if old(self).links_ok() {
                assert forall|x: ComponentId| #[trigger] self.parent_spec(x) is Some implies self.parent_spec(x).unwrap().index < self.slots() by {
                    if x.index != i && x.index < self.records@.len() {
                        assert(self.records@[x.index as int] == old(self).records@[x.index as int]);
                    }
                    assert(old(self).parent_spec(x) == self.parent_spec(x));
                }
                assert forall|x: ComponentId, j: int| 0 <= j < self.children_spec(x).len()
                    implies #[trigger] self.children_spec(x)[j].index < self.slots() by {
                    if x.index != i && x.index < self.records@.len() {
                        assert(self.records@[x.index as int] == old(self).records@[x.index as int]);
                    }
                    assert(old(self).children_spec(x) == self.children_spec(x));
                }
            }
        }
        true
    }

    /// Renames a live `id`; false when `id` is not live.
    pub fn set_name(&mut self, id: ComponentId, name: &str) -> (done: bool)
        ensures
            done <==> old(self).live(id),
            final(self).slots() == old(self).slots(),
            done ==> final(self).live(id) && final(self).name_spec(id) == name@
                && final(self).component_spec(id) == old(self).component_spec(id)
                && final(self).parent_spec(id) == old(self).parent_spec(id)
                && final(self).children_spec(id) == old(self).children_spec(id)
                && final(self).guid_spec(id) == old(self).guid_spec(id),
            forall|x: ComponentId| x != id ==> #[trigger] final(self).rec(x) == old(self).rec(x),
            !done ==> final(self).rec(id) == old(self).rec(id),
            old(self).links_ok() ==> final(self).links_ok(),
    {
        let i = match self.slot_index(id) {
            Some(i) => i,
            None => {
                return false;
            },
        };
        let mut r = self.take_slot(i).unwrap();
        r.name = name.to_owned();
        self.put_slot(i, r);
        proof {
            if old(self).links_ok() {
                assert forall|x: ComponentId| #[trigger] self.parent_spec(x) is Some implies self.parent_spec(x).unwrap().index < self.slots() by {
                    if x.index != i && x.index < self.records@.len() {
                        assert(self.records@[x.index as int] == old(self).records@[x.index as int]);
                    }
                    assert(old(self).parent_spec(x) == self.parent_spec(x));
                }
                assert forall|x: ComponentId, j: int| 0 <= j < self.children_spec(x).len()
                    implies #[trigger] self.children_spec(x)[j].index < self.slots() by {
                    if x.index != i && x.index < self.records@.len() {
                        assert(self.records@[x.index as int] == old(self).records@[x.index as int]);
                    }
                    assert(old(self).children_spec(x) == self.children_spec(x));
                }
            }
        }
        true
    }

    /// Gives a live `id` another stable identifier; false when `id` is not live.
    pub fn set_guid(&mut self, id: ComponentId, guid: u64) -> (done: bool)
        ensures
            done <==> old(self).live(id),
            final(self).slots() == old(self).slots(),
            done ==> final(self).live(id) && final(self).guid_spec(id) == Some(guid)
                && final(self).component_spec(id) == old(self).component_spec(id)
                && final(self).parent_spec(id) == old(self).parent_spec(id)
                && final(self).children_spec(id) == old(self).children_spec(id)
                && final(self).name_spec(id) == old(self).name_spec(id),
            forall|x: ComponentId| x != id ==> #[trigger] final(self).rec(x) == old(self).rec(x),
            !done ==> final(self).rec(id) == old(self).rec(id),
            old(self).links_ok() ==> final(self).links_ok(),
    {
        let i = match self.slot_index(id) {
            Some(i) => i,
            None => {
                return false;
            },
        };
        let mut r = self.take_slot(i).unwrap();
        r.guid = guid;
        self.put_slot(i, r);
        proof {
            if old(self).links_ok() {
                assert forall|x: ComponentId| #[trigger] self.parent_spec(x) is Some implies self.parent_spec(x).unwrap().index < self.slots() by {
                    if x.index != i && x.index < self.records@.len() {
                        assert(self.records@[x.index as int] == old(self).records@[x.index as int]);
                    }
                    assert(old(self).parent_spec(x) == self.parent_spec(x));
                }
                assert forall|x: ComponentId, j: int| 0 <= j < self.children_spec(x).len()
                    implies #[trigger] self.children_spec(x)[j].index < self.slots() by {
                    if x.index != i && x.index < self.records@.len() {
                        assert(self.records@[x.index as int] == old(self).records@[x.index as int]);
                    }
                    assert(old(self).children_spec(x) == self.children_spec(x));
                }
            }
        }
        true
    }

    /// Whether `target` is `start` or one of its ancestors, walking at most
    /// `fuel` parent links.
    fn is_ancestor_or_self(&self, start: ComponentId, target: ComponentId, fuel: usize) -> (b: bool)
        ensures
            b == self.reaches_up(start, target, fuel as nat),
        decreases fuel,
    {
        if start.index == target.index {
            return true;
        }
        if fuel == 0 {
            return false;
        }
        match self.parent_of(start) {
            None => false,
            Some(p) => self.is_ancestor_or_self(p, target, fuel - 1),
        }
    }

    /// Takes `child` out of the children of `parent`, when `parent` is live.
    fn unlink_child(&mut self, parent: ComponentId, child: ComponentId)
        ensures
            final(self).slots() == old(self).slots(),
            forall|x: ComponentId| x != parent ==> #[trigger] final(self).rec(x) == old(self).rec(x),
            final(self).live(parent) == old(self).live(parent),
            final(self).parent_spec(parent) == old(self).parent_spec(parent),
            final(self).name_spec(parent) == old(self).name_spec(parent),
            final(self).guid_spec(parent) == old(self).guid_spec(parent),
            final(self).component_spec(parent) == old(self).component_spec(parent),
            final(self).children_spec(parent) == without(old(self).children_spec(parent), child),
            old(self).links_ok() ==> final(self).links_ok(),
    {
        let i = match self.slot_index(parent) {
            Some(i) => i,
            None => {
                proof {
                    assert(without(Seq::<ComponentId>::empty(), child) =~= Seq::<ComponentId>::empty()) by {
                        reveal(Seq::filter);
                    }
                }
                return;
            },
        };
        let mut r = self.take_slot(i).unwrap();
        r.children = remove_all(&r.children, child);
        self.put_slot(i, r);
        proof {
            lemma_without_subset(old(self).children_spec(parent), child);
            if old(self).links_ok() {
                assert forall|x: ComponentId| #[trigger] self.parent_spec(x) is Some implies self.parent_spec(x).unwrap().index < self.slots() by {
                    if x.index != i && x.index < self.records@.len() {
                        assert(self.records@[x.index as int] == old(self).records@[x.index as int]);
                    }
                    assert(old(self).parent_spec(x) == self.parent_spec(x));
                }
                assert forall|x: ComponentId, j: int| 0 <= j < self.children_spec(x).len()
                    implies #[trigger] self.children_spec(x)[j].index < self.slots() by {
                    if x.index != i && x.index < self.records@.len() {
                        assert(self.records@[x.index as int] == old(self).records@[x.index as int]);
                        assert(old(self).children_spec(x) == self.children_spec(x));
                    } else if x.index == i {
                        let c = self.children_spec(x)[j];
                        assert(old(self).children_spec(parent).contains(c));
                        let k = choose|k: int| 0 <= k < old(self).children_spec(parent).len() && old(self).children_spec(parent)[k] == c;
                        assert(old(self).children_spec(parent)[k].index < old(self).slots());
                    }
                }
            }
        }
    }

    /// Makes `child` the last child of `parent`, detaching it from its
    /// previous parent. Refused when either is not live, or when `child` is
    /// `parent` or one of its ancestors. Nothing changes when `child` is
    /// already a child of `parent`.
    pub fn add_child(&mut self, parent: ComponentId, child: ComponentId) -> (r: Result<(), WorldError>)
        ensures
            r == Err::<(), WorldError>(WorldError::MissingComponent) <==> !(old(self).live(parent) && old(self).live(child)),
            r == Err::<(), WorldError>(WorldError::WouldCreateCycle) <==> old(self).live(parent) && old(self).live(child)
                && old(self).reaches_up(parent, child, old(self).slots()),
            r is Ok <==> old(self).live(parent) && old(self).live(child) && !old(self).reaches_up(parent, child, old(self).slots()),
            r is Err ==> *final(self) == *old(self),
            final(self).slots() == old(self).slots(),
            old(self).links_ok() ==> final(self).links_ok(),
            r is Ok ==> {
                let old_parent = old(self).parent_spec(child);
                &&& forall|x: ComponentId| x != parent && x != child && Some(x) != old_parent
                    ==> #[trigger] final(self).rec(x) == old(self).rec(x)
                &&& forall|x: ComponentId| #[trigger] final(self).live(x) == old(self).live(x)
                &&& forall|x: ComponentId| #![trigger final(self).name_spec(x)] final(self).name_spec(x) == old(self).name_spec(x)
                    && final(self).guid_spec(x) == old(self).guid_spec(x)
                    && final(self).component_spec(x) == old(self).component_spec(x)
                &&& forall|x: ComponentId| #[trigger] final(self).parent_spec(x)
                    == if x == child { Some(parent) } else { old(self).parent_spec(x) }
                &&& forall|x: ComponentId| #[trigger] final(self).children_spec(x) == if old_parent == Some(parent) {
                        old(self).children_spec(x)
                    } else if x == parent {
                        old(self).children_spec(parent).push(child)
                    } else if Some(x) == old_parent && x != child {
                        without(old(self).children_spec(x), child)
                    } else {
                        old(self).children_spec(x)
                    }
            },
    {
        let (pi, ci) = match (self.slot_index(parent), self.slot_index(child)) {
            (Some(pi), Some(ci)) => (pi, ci),
            _ => {
                return Err(WorldError::MissingComponent);
            },
        };
        let n = self.records.len();
        if self.is_ancestor_or_self(parent, child, n) {
            return Err(WorldError::WouldCreateCycle);
        }
        let old_parent = self.parent_of(child);
        match old_parent {
            Some(op) => {
                if op.index == parent.index {
                    return Ok(());
                }
            },
            None => {},
        }
        let ghost before = *self;
        match old_parent {
            Some(op) => {
                if op.index != child.index {
                    self.unlink_child(op, child);
                }
            },
            None => {},
        }
        let ghost mid = *self;
        assert(mid.rec(child) == before.rec(child));
        assert(mid.rec(parent) == before.rec(parent));
        assert(self.records@[ci as int] is Some);
        let mut cr = self.take_slot(ci).unwrap();
        cr.parent = Some(parent);
        self.put_slot(ci, cr);
        assert(self.records@[pi as int] == mid.records@[pi as int]);
        let mut pr = self.take_slot(pi).unwrap();
        pr.children.push(child);
        self.put_slot(pi, pr);
        proof {
            if before.links_ok() {
                assert(mid.links_ok());
                assert forall|x: ComponentId| #[trigger] self.parent_spec(x) is Some implies self.parent_spec(x).unwrap().index < self.slots() by {
                    if x.index != ci && x.index != pi && x.index < self.records@.len() {
                        assert(self.records@[x.index as int] == mid.records@[x.index as int]);
                        assert(mid.parent_spec(x) == self.parent_spec(x));
                    } else if x.index == pi {
                        assert(mid.parent_spec(x) == self.parent_spec(x));
                    }
                }
                assert forall|x: ComponentId, j: int| 0 <= j < self.children_spec(x).len()
                    implies #[trigger] self.children_spec(x)[j].index < self.slots() by {
                    if x.index != ci && x.index != pi && x.index < self.records@.len() {
                        assert(self.records@[x.index as int] == mid.records@[x.index as int]);
                        assert(mid.children_spec(x) == self.children_spec(x));
                    } else if x.index == ci {
                        assert(mid.children_spec(x) == self.children_spec(x));
                        assert(mid.children_spec(x)[j].index < mid.slots());
                    } else if x.index == pi {
                        assert(self.children_spec(x) == mid.children_spec(x).push(child));
                        if j < mid.children_spec(x).len() {
                            assert(mid.children_spec(x)[j].index < mid.slots());
                        }
                    }
                }
            }
            assert forall|x: ComponentId| x != parent && x != child && Some(x) != old_parent
                implies #[trigger] self.rec(x) == before.rec(x) by {
                assert(mid.rec(x) == before.rec(x));
                if x.index < self.records@.len() {
                    assert(x.index != ci && x.index != pi);
                }
            }
            assert forall|x: ComponentId| #[trigger] self.live(x) == before.live(x) by {
                if x != parent && x != child && Some(x) != old_parent {
                    assert(self.rec(x) == before.rec(x));
                }
            }
        }
        Ok(())
    }

    /// Removes a live component that has no children, detaching it from its parent.
    pub fn remove_component_leaf(&mut self, id: ComponentId) -> (r: Result<(), WorldError>)
        ensures
            r == Err::<(), WorldError>(WorldError::MissingComponent) <==> !old(self).live(id),
            r == Err::<(), WorldError>(WorldError::HasChildren) <==> old(self).live(id)
                && old(self).children_spec(id).len() > 0,
            r is Ok <==> old(self).live(id) && old(self).children_spec(id).len() == 0,
            r is Err ==> *final(self) == *old(self),
            final(self).slots() == old(self).slots(),
            old(self).links_ok() ==> final(self).links_ok(),
            r is Ok ==> {
                let p = old(self).parent_spec(id);
                &&& !final(self).live(id)
                &&& forall|x: ComponentId| x != id && Some(x) != p ==> #[trigger] final(self).rec(x) == old(self).rec(x)
                &&& forall|x: ComponentId| x != id && Some(x) == p ==> {
                    &&& #[trigger] final(self).live(x) == old(self).live(x)
                    &&& final(self).parent_spec(x) == old(self).parent_spec(x)
                    &&& final(self).name_spec(x) == old(self).name_spec(x)
                    &&& final(self).guid_spec(x) == old(self).guid_spec(x)
                    &&& final(self).component_spec(x) == old(self).component_spec(x)
                    &&& final(self).children_spec(x) == without(old(self).children_spec(x), id)
                }
            },
    {
        match self.record(id) {
            None => {
                return Err(WorldError::MissingComponent);
            },
            Some(r) => {
                if r.children.len() > 0 {
                    return Err(WorldError::HasChildren);
                }
            },
        }
        let ghost before = *self;
        let p = self.parent_of(id);
        let i = self.slot_index(id).unwrap();
        let _ = self.take_slot(i);
        let ghost mid = *self;
        match p {
            Some(pp) => {
                if pp.index != id.index {
                    self.unlink_child(pp, id);
                }
            },
            None => {},
        }
        proof {
            assert forall|x: ComponentId| x != id && Some(x) != p implies #[trigger] self.rec(x) == before.rec(x) by {
                assert(mid.rec(x) == before.rec(x));
            }
        }
        Ok(())
    }

    /// Removes each of `ids` that is live and has no children, in order.
    pub fn remove_leaves(&mut self, ids: &Vec<ComponentId>)
        ensures
            final(self).slots() == old(self).slots(),
            old(self).links_ok() ==> final(self).links_ok(),
            forall|x: ComponentId| ids@.contains(x) && old(self).live(x) && old(self).children_spec(x).len() == 0
                ==> !#[trigger] final(self).live(x),
            forall|x: ComponentId| !ids@.contains(x) ==> {
                &&& #[trigger] final(self).live(x) == old(self).live(x)
                &&& final(self).component_spec(x) == old(self).component_spec(x)
                &&& final(self).name_spec(x) == old(self).name_spec(x)
                &&& final(self).guid_spec(x) == old(self).guid_spec(x)
                &&& final(self).parent_spec(x) == old(self).parent_spec(x)
                &&& (old(self).children_spec(x).len() == 0 ==> final(self).children_spec(x).len() == 0)
            },
            forall|x: ComponentId, c: ComponentId| #[trigger] final(self).children_spec(x).contains(c)
                ==> old(self).children_spec(x).contains(c),
            forall|x: ComponentId, c: ComponentId| old(self).children_spec(x).contains(c) && !ids@.contains(c)
                && !ids@.contains(x) ==> #[trigger] final(self).children_spec(x).contains(c),
    {
        let ghost start = *self;
        let mut k: usize = 0;
        while k < ids.len()
            invariant
                k <= ids@.len(),
                self.slots() == start.slots(),
                start.links_ok() ==> self.links_ok(),
                forall|x: ComponentId| ids@.take(k as int).contains(x) && start.live(x) && start.children_spec(x).len() == 0
                    ==> !#[trigger] self.live(x),
                forall|x: ComponentId| !ids@.take(k as int).contains(x) ==> {
                    &&& #[trigger] self.live(x) == start.live(x)
                    &&& self.component_spec(x) == start.component_spec(x)
                    &&& self.name_spec(x) == start.name_spec(x)
                    &&& self.guid_spec(x) == start.guid_spec(x)
                    &&& self.parent_spec(x) == start.parent_spec(x)
                    &&& (start.children_spec(x).len() == 0 ==> self.children_spec(x).len() == 0)
                },
                forall|x: ComponentId, c: ComponentId| #[trigger] self.children_spec(x).contains(c)
                    ==> start.children_spec(x).contains(c),
                forall|x: ComponentId, c: ComponentId| start.children_spec(x).contains(c) && !ids@.take(k as int).contains(c)
                    && !ids@.take(k as int).contains(x) ==> #[trigger] self.children_spec(x).contains(c),
            decreases ids@.len() - k,
        {
            let d = ids[k];
            let ghost prev = *self;
            let res = self.remove_component_leaf(d);
            proof {
                assert(ids@.take(k + 1) =~= ids@.take(k as int).push(d));
                assert(ids@.take(k + 1)[k as int] == d);
                if res is Err {
                    assert(*self == prev);
                }
                assert forall|x: ComponentId| ids@.take(k + 1).contains(x) && start.live(x) && start.children_spec(x).len() == 0
                    implies !#[trigger] self.live(x) by {
                    if x == d {
                        if prev.live(x) && ids@.take(k as int).contains(x) {
                            assert(!prev.live(x));
                        }
                        if prev.live(x) {
                            assert(prev.children_spec(x).len() == 0);
                            assert(res is Ok);
                        }
                    } else {
                        assert(ids@.take(k as int).contains(x));
                        assert(!prev.live(x));
                        if res is Ok {
                            if Some(x) != prev.parent_spec(d) {
                                assert(self.rec(x) == prev.rec(x));
                            } else {
                                assert(self.live(x) == prev.live(x));
                            }
                        }
                    }
                }
                assert forall|x: ComponentId| !ids@.take(k + 1).contains(x) implies {
                    &&& #[trigger] self.live(x) == start.live(x)
                    &&& self.component_spec(x) == start.component_spec(x)
                    &&& self.name_spec(x) == start.name_spec(x)
                    &&& self.guid_spec(x) == start.guid_spec(x)
                    &&& self.parent_spec(x) == start.parent_spec(x)
                    &&& (start.children_spec(x).len() == 0 ==> self.children_spec(x).len() == 0)
                } by {
                    assert(x != d);
                    assert(!ids@.take(k as int).contains(x));
                    assert(prev.live(x) == start.live(x));
                    if res is Ok {
                        if Some(x) != prev.parent_spec(d) {
                            assert(self.rec(x) == prev.rec(x));
                        } else {
                            assert(self.live(x) == prev.live(x));
                            assert(self.children_spec(x) == without(prev.children_spec(x), d));
                            if prev.children_spec(x).len() == 0 {
                                lemma_without_empty(prev.children_spec(x), d);
                            }
                        }
                    }
                }
                assert forall|x: ComponentId, c: ComponentId| #[trigger] self.children_spec(x).contains(c)
                    implies start.children_spec(x).contains(c) by {
                    if res is Ok && x != d && Some(x) == prev.parent_spec(d) {
                        assert(self.live(x) == prev.live(x));
                        assert(self.children_spec(x) == without(prev.children_spec(x), d));
                        lemma_without_subset(prev.children_spec(x), d);
                        let i = choose|i: int| 0 <= i < self.children_spec(x).len() && self.children_spec(x)[i] == c;
                        assert(prev.children_spec(x).contains(without(prev.children_spec(x), d)[i]));
                    } else if res is Ok && x != d {
                        assert(self.rec(x) == prev.rec(x));
                    } else if res is Ok {
                        assert(!self.live(x));
                    }
                    assert(prev.children_spec(x).contains(c));
                }
                assert forall|x: ComponentId, c: ComponentId| start.children_spec(x).contains(c) && !ids@.take(k + 1).contains(c)
                    && !ids@.take(k + 1).contains(x) implies #[trigger] self.children_spec(x).contains(c) by {
                    assert(!ids@.take(k as int).contains(c));
                    assert(!ids@.take(k as int).contains(x));
                    assert(prev.children_spec(x).contains(c));
                    assert(c != d && x != d);
                    if res is Ok && Some(x) == prev.parent_spec(d) {
                        assert(self.live(x) == prev.live(x));
                        assert(self.children_spec(x) == without(prev.children_spec(x), d));
                        let i = choose|i: int| 0 <= i < prev.children_spec(x).len() && prev.children_spec(x)[i] == c;
                        prev.children_spec(x).lemma_filter_contains(ne_pred(d), i);
                    } else if res is Ok {
                        assert(self.rec(x) == prev.rec(x));
                    }
                }
            }
            k += 1;
        }
        proof {
            assert(ids@.take(ids@.len() as int) =~= ids@);
        }
    }

    /// Removes `id` and all its descendants, detaching `id` from its parent.
    pub fn remove_component_subtree(&mut self, id: ComponentId) -> (r: Result<(), WorldError>)
        ensures
            r is Err <==> !old(self).live(id),
            r is Err ==> r == Err::<(), WorldError>(WorldError::MissingComponent) && *final(self) == *old(self),
            final(self).slots() == old(self).slots(),
            old(self).links_ok() ==> final(self).links_ok(),
            r is Ok ==> {
                let p = old(self).parent_spec(id);
                let gone = old(self).descendants_or_self(id);
                &&& forall|x: ComponentId| gone.contains(x) ==> !#[trigger] final(self).live(x)
                &&& forall|x: ComponentId| !gone.contains(x) && Some(x) != p ==> #[trigger] final(self).rec(x) == old(self).rec(x)
                &&& forall|x: ComponentId| !gone.contains(x) && Some(x) == p ==> {
                    &&& #[trigger] final(self).live(x) == old(self).live(x)
                    &&& final(self).parent_spec(x) == old(self).parent_spec(x)
                    &&& final(self).name_spec(x) == old(self).name_spec(x)
                    &&& final(self).guid_spec(x) == old(self).guid_spec(x)
                    &&& final(self).component_spec(x) == old(self).component_spec(x)
                    &&& final(self).children_spec(x) == without(old(self).children_spec(x), id)
                }
            },
    {
        if !self.contains(id) {
            return Err(WorldError::MissingComponent);
        }
        let ghost before = *self;
        let p = self.parent_of(id);
        let gone = self.subtree_of(id);
        let mut k: usize = 0;
        while k < gone.len()
            invariant
                k <= gone@.len(),
                gone@ == before.descendants_or_self(id),
                self.records@.len() == before.records@.len(),
                before.links_ok() ==> self.links_ok(),
                forall|x: ComponentId| gone@.take(k as int).contains(x) ==> !#[trigger] self.live(x),
                forall|x: ComponentId| !gone@.take(k as int).contains(x) ==> #[trigger] self.rec(x) == before.rec(x),
            decreases gone@.len() - k,
        {
            let g = gone[k];
            let ghost prev = *self;
            let n = self.records.len();
            if g.index < n as u64 {
                let _ = self.take_slot(g.index as usize);
            }
            proof {
                assert(gone@.take(k + 1)[k as int] == g);
                assert forall|x: ComponentId| gone@.take(k + 1).contains(x) implies !#[trigger] self.live(x) by {
                    if x != g {
                        let j = choose|j: int| 0 <= j < k + 1 && #[trigger] gone@.take(k + 1)[j] == x;
                        assert(j != k);
                        assert(gone@.take(k as int)[j] == x);
                        assert(gone@.take(k as int).contains(x));
                        assert(!prev.live(x));
                        assert(x.index != g.index);
                    }
                }
                assert forall|x: ComponentId| !gone@.take(k + 1).contains(x) implies #[trigger] self.rec(x) == before.rec(x) by {
                    if x == g {
                        assert(gone@.take(k + 1).contains(x));
                    }
                    if gone@.take(k as int).contains(x) {
                        let j = choose|j: int| 0 <= j < k && #[trigger] gone@.take(k as int)[j] == x;
                        assert(gone@.take(k + 1)[j] == x);
                    }
                    assert(prev.rec(x) == before.rec(x));
                    assert(x.index != g.index);
                }
            }
            k += 1;
        }
        proof {
            assert(gone@.take(gone@.len() as int) =~= gone@);
        }
        let ghost mid = *self;
        match p {
            Some(pp) => {
                if !contains_id(&gone, pp) {
                    self.unlink_child(pp, id);
                }
            },
            None => {},
        }
        proof {
            assert forall|x: ComponentId| gone@.contains(x) implies !#[trigger] self.live(x) by {
                assert(!mid.live(x));
                if Some(x) == p {
                } else {
                    assert(self.rec(x) == mid.rec(x));
                }
            }
            assert forall|x: ComponentId| !gone@.contains(x) && Some(x) != p implies #[trigger] self.rec(x) == before.rec(x) by {
                assert(mid.rec(x) == before.rec(x));
                assert(self.rec(x) == mid.rec(x));
            }
        }
        Ok(())
    }

    /// Adds an unnamed root component.
    pub fn add_component(&mut self, component: Component) -> (id: ComponentId)
        requires
            old(self).slots() < u64::MAX,
        ensures
            id == World::id_at(old(self).slots() as int),
            final(self).slots() == old(self).slots() + 1,
            final(self).live(id),
            final(self).parent_spec(id) is None,
            final(self).children_spec(id).len() == 0,
            final(self).name_spec(id).len() == 0,
            final(self).component_spec(id) == Some(component),
            final(self).guid_spec(id) == Some(old(self).next_guid_spec()),
            final(self).next_guid_spec() == if old(self).next_guid_spec() < u64::MAX {
                (old(self).next_guid_spec() + 1) as u64
            } else {
                old(self).next_guid_spec()
            },
            forall|x: ComponentId| x != id ==> #[trigger] final(self).rec(x) == old(self).rec(x),
            old(self).links_ok() ==> final(self).links_ok(),
    {
        proof {
            reveal_strlit("");
        }
        self.add_component_named("", component)
    }

    /// Adds a named root component with a fresh stable identifier.
    pub fn add_component_named(&mut self, name: &str, component: Component) -> (id: ComponentId)
        requires
            old(self).slots() < u64::MAX,
        ensures
            id == World::id_at(old(self).slots() as int),
            final(self).slots() == old(self).slots() + 1,
            final(self).live(id),
            final(self).parent_spec(id) is None,
            final(self).children_spec(id).len() == 0,
            final(self).name_spec(id) == name@,
            final(self).component_spec(id) == Some(component),
            final(self).guid_spec(id) == Some(old(self).next_guid_spec()),
            final(self).next_guid_spec() == if old(self).next_guid_spec() < u64::MAX {
                (old(self).next_guid_spec() + 1) as u64
            } else {
                old(self).next_guid_spec()
            },
            forall|x: ComponentId| x != id ==> #[trigger] final(self).rec(x) == old(self).rec(x),
            old(self).links_ok() ==> final(self).links_ok(),
    {
        proof {
            reveal_strlit("");
        }
        let index = self.records.len() as u64;
        let guid = self.next_guid;
        self.next_guid = if self.next_guid < u64::MAX { self.next_guid + 1 } else { self.next_guid };
        self.records.push(Some(ComponentRecord {
            name: name.to_owned(),
            guid,
            parent: None,
            children: Vec::new(),
            component,
        }));
        let id = ComponentId { index };
        proof {
            assert forall|x: ComponentId| x != id implies #[trigger] self.rec(x) == old(self).rec(x) by {
                if x.index < old(self).records@.len() {
                    assert(self.records@[x.index as int] == old(self).records@[x.index as int]);
                }
            }
            if old(self).links_ok() {
                assert forall|x: ComponentId| #[trigger] self.parent_spec(x) is Some implies self.parent_spec(x).unwrap().index < self.slots() by {
                    if x != id {
                        assert(self.rec(x) == old(self).rec(x));
                        assert(old(self).parent_spec(x) == self.parent_spec(x));
                    }
                }
                assert forall|x: ComponentId, j: int| 0 <= j < self.children_spec(x).len()
                    implies #[trigger] self.children_spec(x)[j].index < self.slots() by {
                    if x != id {
                        assert(self.rec(x) == old(self).rec(x));
                        assert(old(self).children_spec(x) == self.children_spec(x));
                        assert(old(self).children_spec(x)[j].index < old(self).slots());
                    }
                }
            }
        }
        id
    }

}

} // verus!
