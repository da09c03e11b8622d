//! Scoped component queries: `../#name` climbs one parent per `../`, a
//! leading `/` searches from every world root, anything else searches the
//! owner's own subtree.
use vstd::prelude::*;
use crate::components::ComponentRef;
use crate::ids::ComponentId;
use crate::world::{RefView, World};

verus! {

/// Where a scoped query starts its search.
#[derive(Debug, Clone, Copy, PartialEq, Eq, Structural)]
pub enum QueryRootMode {
    /// The owner's own subtree.
    SelfSubtree,
    /// The subtree of the owner's ancestor `levels_up` parents up.
    ParentScope { levels_up: u64 },
    /// Every world root.
    WorldRoot,
}

/// A query split into its root mode and its selector.
#[derive(Debug)]
pub struct ScopedQuery {
    pub root_mode: QueryRootMode,
    pub selector: String,
}

/// Number of leading `../` steps of `q`.
pub open spec fn up_steps(q: Seq<char>) -> nat
    decreases q.len(),
{
    if q.len() >= 3 && q[0] == '.' && q[1] == '.' && q[2] == '/' {
        1 + up_steps(q.skip(3))
    } else {
        0
    }
}

/// `q` after its leading `../` steps.
pub open spec fn after_up_steps(q: Seq<char>) -> Seq<char>
    decreases q.len(),
{
    if q.len() >= 3 && q[0] == '.' && q[1] == '.' && q[2] == '/' {
        after_up_steps(q.skip(3))
    } else {
        q
    }
}

/// The root mode a query text asks for.
pub open spec fn root_mode_spec(q: Seq<char>) -> QueryRootMode {
    if up_steps(q) > 0 {
        QueryRootMode::ParentScope { levels_up: up_steps(q) as u64 }
    } else if q.len() > 0 && q[0] == '/' {
        QueryRootMode::WorldRoot
    } else {
        QueryRootMode::SelfSubtree
    }
}

/// The selector part of a query text.
pub open spec fn selector_spec(q: Seq<char>) -> Seq<char> {
    if up_steps(q) > 0 {
        after_up_steps(q)
    } else if q.len() > 0 && q[0] == '/' {
        q.drop_first()
    } else {
        q
    }
}

/// Splits a query into root mode and selector.
pub fn parse_scoped_query(query: &str) -> (r: ScopedQuery)
    ensures
        r.root_mode == root_mode_spec(query@),
        r.selector@ == selector_spec(query@),
{
    let len = query.unicode_len();
    let mut start: usize = 0;
    let mut levels: u64 = 0;
    proof {
        assert(query@.skip(0) =~= query@);
    }
    while len >= 3 && start <= len - 3 && query.get_char(start) == '.' && query.get_char(start + 1) == '.'
        && query.get_char(start + 2) == '/'
        invariant
            len == query@.len(),
            start <= len,
            start == 3 * levels,
            len <= usize::MAX,
            up_steps(query@) == levels + up_steps(query@.skip(start as int)),
            after_up_steps(query@) == after_up_steps(query@.skip(start as int)),
        decreases len - start,
    {
        proof {
            let q = query@.skip(start as int);
            assert(q.skip(3) =~= query@.skip(start + 3));
        }
        start = start + 3;
        levels = levels + 1;
    }
    proof {
        let q = query@.skip(start as int);
        assert(up_steps(q) == 0);
        assert(after_up_steps(q) == q);
    }
    if levels > 0 {
        let selector = query.substring_char(start, len).to_owned();
        proof {
            assert(selector@ =~= query@.skip(start as int));
        }
        return ScopedQuery { root_mode: QueryRootMode::ParentScope { levels_up: levels }, selector };
    }
    proof {
        assert(query@.skip(0) =~= query@);
    }
    if len > 0 && query.get_char(0) == '/' {
        let selector = query.substring_char(1, len).to_owned();
        proof {
            assert(selector@ =~= query@.drop_first());
        }
        ScopedQuery { root_mode: QueryRootMode::WorldRoot, selector }
    } else {
        let selector = query.to_owned();
        ScopedQuery { root_mode: QueryRootMode::SelfSubtree, selector }
    }
}

/// The root mode of `q` when an unprefixed query searches from `default`.
pub open spec fn root_mode_or(q: Seq<char>, default: QueryRootMode) -> QueryRootMode {
    match root_mode_spec(q) {
        QueryRootMode::SelfSubtree => default,
        m => m,
    }
}

/// The ancestor `levels` parents above `start`.
pub open spec fn ancestor_at(w: &World, start: ComponentId, levels: nat) -> Option<ComponentId>
    decreases levels,
{
    if levels == 0 {
        Some(start)
    } else {
        match w.parent_spec(start) {
            None => None,
            Some(p) => ancestor_at(w, p, (levels - 1) as nat),
        }
    }
}

/// The roots a query with `mode` searches from, relative to `owner`.
pub open spec fn query_roots(w: &World, owner: ComponentId, mode: QueryRootMode) -> Option<Seq<ComponentId>> {
    match mode {
        QueryRootMode::SelfSubtree => Some(seq![owner]),
        QueryRootMode::ParentScope { levels_up } => match ancestor_at(w, owner, levels_up as nat) {
            Some(r) => Some(seq![r]),
            None => None,
        },
        QueryRootMode::WorldRoot => Some(w.root_ids()),
    }
}

/// Every match of `selector` under each of `roots`, concatenated in order.
pub open spec fn matches_under(w: &World, roots: Seq<ComponentId>, selector: Seq<char>) -> Seq<ComponentId>
    decreases roots.len(),
{
    if roots.len() == 0 {
        Seq::empty()
    } else {
        matches_under(w, roots.drop_last(), selector) + w.find_all_spec(roots.last(), selector)
    }
}

/// The one identity that `s` holds, however often; none when `s` is empty
/// or holds two different identities.
pub open spec fn sole(s: Seq<ComponentId>) -> Option<ComponentId> {
    if s.len() > 0 && forall|i: int| 0 <= i < s.len() ==> #[trigger] s[i] == s[0] {
        Some(s[0])
    } else {
        None
    }
}

/// What a query resolves to from `owner`: the single component it matches.
pub open spec fn resolve_query_spec(w: &World, owner: ComponentId, q: Seq<char>) -> Option<ComponentId> {
    match query_roots(w, owner, root_mode_spec(q)) {
        Some(roots) => sole(matches_under(w, roots, selector_spec(q))),
        None => None,
    }
}

/// What a query resolves to from `owner` when unprefixed queries search from `default`.
pub open spec fn resolve_query_or_spec(w: &World, owner: ComponentId, q: Seq<char>, default: QueryRootMode) -> Option<ComponentId> {
    match query_roots(w, owner, root_mode_or(q, default)) {
        Some(roots) => sole(matches_under(w, roots, selector_spec(q))),
        None => None,
    }
}

/// The first live component whose stable identifier is `guid`.
pub open spec fn by_guid_spec(w: &World, guid: u64) -> Option<ComponentId> {
    if exists|x: ComponentId| #[trigger] w.guid_spec(x) == Some(guid) {
        Some(choose|x: ComponentId| w.guid_spec(x) == Some(guid) && forall|j: int|
            0 <= j < x.index ==> #[trigger] w.guid_spec(World::id_at(j)) != Some(guid))
    } else {
        None
    }
}

/// What a component reference resolves to from `owner` when unprefixed
/// queries search from `default`.
pub open spec fn resolve_ref_or_spec(w: &World, owner: ComponentId, r: RefView, default: QueryRootMode) -> Option<ComponentId> {
    match r {
        RefView::Guid(g) => by_guid_spec(w, g),
        RefView::Query(q) => resolve_query_or_spec(w, owner, q, default),
    }
}

/// What a component reference resolves to from `owner`.
pub open spec fn resolve_ref_spec(w: &World, owner: ComponentId, r: RefView) -> Option<ComponentId> {
    match r {
        RefView::Guid(g) => by_guid_spec(w, g),
        RefView::Query(q) => resolve_query_spec(w, owner, q),
    }
}

proof fn lemma_first_guid_unique(w: &World, guid: u64, a: ComponentId, b: ComponentId)
    requires
        w.guid_spec(a) == Some(guid),
        w.guid_spec(b) == Some(guid),
        forall|j: int| 0 <= j < a.index ==> #[trigger] w.guid_spec(World::id_at(j)) != Some(guid),
        forall|j: int| 0 <= j < b.index ==> #[trigger] w.guid_spec(World::id_at(j)) != Some(guid),
    ensures
        a == b,
{
    if a.index < b.index {
        assert(World::id_at(a.index as int) == a);
        assert(w.guid_spec(World::id_at(a.index as int)) != Some(guid));
    } else if b.index < a.index {
        assert(World::id_at(b.index as int) == b);
        assert(w.guid_spec(World::id_at(b.index as int)) != Some(guid));
    }
}

/// The first live component whose stable identifier is `guid`.
pub fn find_by_guid(w: &World, guid: u64) -> (r: Option<ComponentId>)
    ensures
        r == by_guid_spec(w, guid),
{
    let r = w.component_id_by_guid(guid);
    proof {
        match r {
            Some(id) => {
                assert(exists|x: ComponentId| #[trigger] w.guid_spec(x) == Some(guid));
                let c = choose|x: ComponentId| w.guid_spec(x) == Some(guid) && forall|j: int|
                    0 <= j < x.index ==> #[trigger] w.guid_spec(World::id_at(j)) != Some(guid);
                lemma_first_guid_unique(w, guid, id, c);
            },
            None => {},
        }
    }
    r
}

fn ancestor_at_exec(w: &World, start: ComponentId, levels: u64) -> (r: Option<ComponentId>)
    ensures
        r == ancestor_at(w, start, levels as nat),
{
    let mut current = start;
    let mut left = levels;
    while left > 0
        invariant
            ancestor_at(w, current, left as nat) == ancestor_at(w, start, levels as nat),
        decreases left,
    {
        match w.parent_of(current) {
            None => {
                return None;
            },
            Some(p) => {
                current = p;
            },
        }
        left = left - 1;
    }
    Some(current)
}

/// Resolves a query from `owner` to the single component it matches.
pub fn resolve_query(w: &World, owner: ComponentId, query: &str) -> (r: Option<ComponentId>)
    ensures
        r == resolve_query_spec(w, owner, query@),
{
    let r = resolve_query_or(w, owner, query, QueryRootMode::SelfSubtree);
    proof {
        assert(root_mode_or(query@, QueryRootMode::SelfSubtree) == root_mode_spec(query@));
    }
    r
}

/// Resolves a query from `owner` to the single component it matches, an
/// unprefixed query searching from `default_mode`.
pub fn resolve_query_or(w: &World, owner: ComponentId, query: &str, default_mode: QueryRootMode) -> (r: Option<ComponentId>)
    ensures
        r == resolve_query_or_spec(w, owner, query@, default_mode),
{
    let scoped = parse_scoped_query(query);
    let mode = match scoped.root_mode {
        QueryRootMode::SelfSubtree => default_mode,
        m => m,
    };
    let roots: Vec<ComponentId> = match mode {
        QueryRootMode::SelfSubtree => vec![owner],
        QueryRootMode::ParentScope { levels_up } => match ancestor_at_exec(w, owner, levels_up) {
            Some(root) => vec![root],
            None => {
                return None;
            },
        },
        QueryRootMode::WorldRoot => w.world_roots(),
    };
    proof {
        assert(query_roots(w, owner, root_mode_or(query@, default_mode)) == Some(roots@));
    }
    let mut matches: Vec<ComponentId> = Vec::new();
    let mut i: usize = 0;
    while i < roots.len()
        invariant
            i <= roots@.len(),
            query_roots(w, owner, root_mode_or(query@, default_mode)) == Some(roots@),
            scoped.selector@ == selector_spec(query@),
            matches@ == matches_under(w, roots@.take(i as int), scoped.selector@),
        decreases roots@.len() - i,
    {
        proof {
            assert(roots@.take(i + 1).drop_last() =~= roots@.take(i as int));
        }
        let mut found = w.find_all_components(roots[i], scoped.selector.as_str());
        matches.append(&mut found);
        i += 1;
    }
    proof {
        assert(roots@.take(roots@.len() as int) =~= roots@);
    }
    if matches.len() == 0 {
        return None;
    }
    let first = matches[0];
    let mut k: usize = 1;
    while k < matches.len()
        invariant
            1 <= k <= matches@.len(),
            first == matches@[0],
            query_roots(w, owner, root_mode_or(query@, default_mode)) == Some(roots@),
            matches@ == matches_under(w, roots@, selector_spec(query@)),
            forall|j: int| 0 <= j < k ==> #[trigger] matches@[j] == first,
        decreases matches@.len() - k,
    {
        if matches[k].index != first.index {
            proof {
                assert(matches@[k as int] != matches@[0]);
                assert(sole(matches@) is None);
            }
            return None;
        }
        k += 1;
    }
    Some(first)
}

/// Resolves a component reference from `owner`, an unprefixed query
/// searching from `default_mode`.
pub fn resolve_component_ref_or(w: &World, owner: ComponentId, reference: &ComponentRef, default_mode: QueryRootMode) -> (r: Option<ComponentId>)
    ensures
        r == resolve_ref_or_spec(w, owner, reference@, default_mode),
{
    match reference {
        ComponentRef::Guid(g) => find_by_guid(w, *g),
        ComponentRef::Query(q) => resolve_query_or(w, owner, q.as_str(), default_mode),
    }
}

/// Resolves a component reference from `owner`: a stable identifier names
/// the first live component carrying it, a query the single component it
/// matches.
pub fn resolve_component_ref(w: &World, owner: ComponentId, reference: &ComponentRef) -> (r: Option<ComponentId>)
    ensures
        r == resolve_ref_spec(w, owner, reference@),
{
    match reference {
        ComponentRef::Guid(g) => find_by_guid(w, *g),
        ComponentRef::Query(q) => resolve_query(w, owner, q.as_str()),
    }
}

/// The components that reference `r` picks: the one holding its stable
/// identifier, or those its selector names.
pub open spec fn ref_pred(w: &World, r: ComponentRef) -> spec_fn(ComponentId) -> bool {
    match r {
        ComponentRef::Guid(g) => |id: ComponentId| w.guid_owner(g) == Some(id),
        ComponentRef::Query(q) => |id: ComponentId| w.selects(id, q@),
    }
}

/// How reference `r` reads in diagnostics.
pub open spec fn ref_surface(r: ComponentRef) -> Seq<char> {
    match r {
        ComponentRef::Guid(g) => "@uuid:"@ + crate::text::decimal(g as nat),
        ComponentRef::Query(q) => q@,
    }
}

/// The elements of `ids`, in order, that reference `r` picks.
pub fn ref_hits(w: &World, ids: &Vec<ComponentId>, r: &ComponentRef) -> (hits: Vec<ComponentId>)
    ensures
        hits@ == ids@.filter(ref_pred(w, *r)),
{
    let guid_match = match r {
        ComponentRef::Guid(g) => w.component_with_guid(*g),
        ComponentRef::Query(_) => None,
    };
    let ghost pred = ref_pred(w, *r);
    let mut hits: Vec<ComponentId> = Vec::new();
    let mut i: usize = 0;
    while i < ids.len()
        invariant
            i <= ids@.len(),
            pred == ref_pred(w, *r),
            *r matches ComponentRef::Guid(g) ==> guid_match == w.guid_owner(g),
            hits@ == ids@.take(i as int).filter(pred),
        decreases ids@.len() - i,
    {
        let id = ids[i];
        let hit = match r {
            ComponentRef::Guid(_) => guid_match == Some(id),
            ComponentRef::Query(q) => w.matches_selector(id, q.as_str()),
        };
        proof {
            assert(ids@.take(i + 1) =~= ids@.take(i as int).push(id));
            ids@.take(i as int).lemma_filter_push(id, pred);
        }
        if hit {
            hits.push(id);
        }
        i += 1;
    }
    proof {
        assert(ids@.take(ids@.len() as int) =~= ids@);
    }
    hits
}

} // verus!
