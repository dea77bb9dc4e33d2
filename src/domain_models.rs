use std::collections::HashMap;
use std::collections::HashSet;
use vstd::prelude::*;

verus! {

broadcast use vstd::std_specs::hash::group_hash_axioms;

/// Errors raised by the galaxy's data structures.
#[derive(Debug, PartialEq, Eq, Structural, Clone, Copy)]
pub enum DomainError {
    /// A query names a planet that has no entry in the routes.
    UnknownLocation,
    /// A route exists in one direction without its reciprocal.
    AsymmetricRoute,
    /// A planet name is registered twice.
    DuplicateLocation,
}

/// Identity of a planet. Only a `PlanetCatalog` mints them, so that ids
/// that belong to one catalog cannot be forged from an arbitrary integer.
#[derive(Debug, PartialEq, Eq, Structural, Hash, PartialOrd, Ord, Clone, Copy)]
pub struct PlanetId(usize);

impl PlanetId {
    /// The dense index of the planet in its catalog.
    pub closed spec fn index(self) -> usize {
        self.0
    }

    fn new(id: usize) -> (r: PlanetId)
        ensures
            r.index() == id,
    {
        PlanetId(id)
    }

    pub fn as_index(&self) -> (r: usize)
        ensures
            r == self.index(),
    {
        self.0
    }

    /// Two planet ids are equal exactly when their indices are.
    pub broadcast proof fn lemma_index_injective(p: PlanetId, q: PlanetId)
        ensures
            #[trigger] p.index() == #[trigger] q.index() <==> p == q,
    {
    }
}

/// Registry of planet names: the planet at position `i` has the id of index `i`.
#[derive(Debug, PartialEq, Eq, Clone)]
pub struct PlanetCatalog(Vec<String>);

pub open spec fn distinct_names(names: Seq<Seq<char>>) -> bool {
    forall|i: int, j: int|
        0 <= i < names.len() && 0 <= j < names.len() && i != j ==> #[trigger] names[i]
            != #[trigger] names[j]
}

impl View for PlanetCatalog {
    type V = Seq<Seq<char>>;

    closed spec fn view(&self) -> Seq<Seq<char>> {
        self.0@.map_values(|s: String| s@)
    }
}

impl PlanetCatalog {
    pub open spec fn wf(&self) -> bool {
        distinct_names(self@)
    }

    /// What `get` returns for `name`.
    pub open spec fn lookup(&self, name: Seq<char>, r: Option<PlanetId>) -> bool {
        match r {
            Some(id) => id.index() < self@.len() && self@[id.index() as int] == name,
            None => !self@.contains(name),
        }
    }

    pub fn get(&self, k: &str) -> (r: Option<PlanetId>)
        requires
            self.wf(),
        ensures
            self.lookup(k@, r),
    {
        let key = k.to_owned();
        let mut i: usize = 0;
        while i < self.0.len()
            invariant
                i <= self.0@.len(),
                key@ == k@,
                forall|j: int| 0 <= j < i ==> self@[j] != k@,
            decreases self.0@.len() - i,
        {
            if self.0[i] == key {
                return Some(PlanetId::new(i));
            }
            i = i + 1;
        }
        proof {
            assert forall|j: int| 0 <= j < self@.len() implies self@[j] != k@ by {}
        }
        None
    }

    pub fn insert(&mut self, planet_name: String) -> (r: Result<PlanetId, DomainError>)
        requires
            old(self).wf(),
        ensures
            final(self).wf(),
            match r {
                Ok(id) => {
                    &&& !old(self)@.contains(planet_name@)
                    &&& id.index() == old(self)@.len()
                    &&& final(self)@ == old(self)@.push(planet_name@)
                },
                Err(e) => {
                    &&& e == DomainError::DuplicateLocation
                    &&& old(self)@.contains(planet_name@)
                    &&& final(self)@ == old(self)@
                },
            },
    {
        if self.get(planet_name.as_str()).is_some() {
            return Err(DomainError::DuplicateLocation);
        }
        let planet_id = PlanetId::new(self.0.len());
        let ghost before = self@;
        self.0.push(planet_name);
        proof {
            assert(self@ =~= before.push(planet_name@));
        }
        Ok(planet_id)
    }

    pub fn get_or_insert(&mut self, planet_name: String) -> (r: PlanetId)
        requires
            old(self).wf(),
        ensures
            final(self).wf(),
            final(self).lookup(planet_name@, Some(r)),
            old(self)@.contains(planet_name@) ==> final(self)@ == old(self)@,
            !old(self)@.contains(planet_name@) ==> final(self)@ == old(self)@.push(planet_name@),
    {
        if let Some(v) = self.get(planet_name.as_str()) {
            return v;
        }
        self.insert(planet_name).unwrap()
    }

    pub fn new() -> (r: Self)
        ensures
            r.wf(),
            r@ == Seq::<Seq<char>>::empty(),
    {
        let r = PlanetCatalog(Vec::new());
        proof {
            assert(r@ =~= Seq::<Seq<char>>::empty());
        }
        r
    }

    pub fn from_vec(planet_names: Vec<String>) -> (r: Result<PlanetCatalog, DomainError>)
        ensures
            match r {
                Ok(c) => c.wf() && c@ == planet_names@.map_values(|s: String| s@),
                Err(e) => e == DomainError::DuplicateLocation && !distinct_names(
                    planet_names@.map_values(|s: String| s@),
                ),
            },
    {
        let ghost names = planet_names@.map_values(|s: String| s@);
        let mut planet_id_map = PlanetCatalog::new();
        let mut i: usize = 0;
        while i < planet_names.len()
            invariant
                i <= planet_names@.len(),
                names == planet_names@.map_values(|s: String| s@),
                planet_id_map.wf(),
                planet_id_map@ == names.take(i as int),
            decreases planet_names@.len() - i,
        {
            let name = planet_names[i].clone();
            match planet_id_map.insert(name) {
                Ok(_) => {},
                Err(e) => {
                    proof {
                        let k = choose|k: int|
                            0 <= k < names.take(i as int).len() && names.take(i as int)[k]
                                == names[i as int];
                        assert(names[k] == names[i as int]);
                    }
                    return Err(e);
                },
            }
            proof {
                assert(names.take(i as int + 1) =~= names.take(i as int).push(names[i as int]));
            }
            i = i + 1;
        }
        proof {
            assert(names.take(i as int) =~= names);
        }
        Ok(planet_id_map)
    }
}

/// The neighbours of `a` in `m`, empty where `a` has no entry.
pub open spec fn adjacency(m: Map<PlanetId, Seq<(PlanetId, u64)>>, a: PlanetId) -> Seq<(PlanetId, u64)> {
    if m.contains_key(a) {
        m[a]
    } else {
        Seq::empty()
    }
}

/// A list of origins with their routes, as values.
pub open spec fn route_list_view(list: Seq<(PlanetId, Vec<(PlanetId, u64)>)>) -> Seq<
    (PlanetId, Seq<(PlanetId, u64)>),
> {
    list.map_values(|e: (PlanetId, Vec<(PlanetId, u64)>)| (e.0, e.1@))
}

/// Every route has its reciprocal, with the same travel time.
pub open spec fn routes_symmetric(m: Map<PlanetId, Seq<(PlanetId, u64)>>) -> bool {
    forall|a: PlanetId, i: int|
        #![trigger m[a][i]]
        m.contains_key(a) && 0 <= i < m[a].len() ==> {
            &&& m.contains_key(m[a][i].0)
            &&& m[m[a][i].0].contains((a, m[a][i].1))
        }
}

/// Every route takes at least one day.
pub open spec fn positive_routes(routes: Map<PlanetId, Seq<(PlanetId, u64)>>) -> bool {
    forall|u: PlanetId, i: int|
        #![trigger routes[u][i]]
        routes.contains_key(u) && 0 <= i < routes[u].len() ==> routes[u][i].1 >= 1
}

/// Adding a route that takes at least one day keeps every route at least one day long.
pub proof fn lemma_with_route_positive(
    m: Map<PlanetId, Seq<(PlanetId, u64)>>,
    a: PlanetId,
    b: PlanetId,
    t: u64,
)
    requires
        positive_routes(m),
        t >= 1,
    ensures
        positive_routes(with_route(m, a, b, t)),
{
    let m1 = m.insert(a, adjacency(m, a).push((b, t)));
    let m2 = with_route(m, a, b, t);
    assert forall|u: PlanetId, i: int| m2.contains_key(u) && 0 <= i < m2[u].len() implies #[trigger] m2[u][i].1 >= 1 by {
        if u == b {
            if i < m2[u].len() - 1 {
                assert(m2[u][i] == adjacency(m1, b)[i]);
                if b == a {
                    if i < m1[a].len() - 1 {
                        assert(m1[a][i] == m[a][i]);
                    }
                } else if m.contains_key(b) {
                    assert(m1[b][i] == m[b][i]);
                }
            }
        } else if u == a {
            if i < m1[a].len() - 1 {
                assert(m1[a][i] == m[a][i]);
            }
        }
    }
}

/// The routes after a route of `t` days between `a` and `b` is added in both directions.
pub open spec fn with_route(
    m: Map<PlanetId, Seq<(PlanetId, u64)>>,
    a: PlanetId,
    b: PlanetId,
    t: u64,
) -> Map<PlanetId, Seq<(PlanetId, u64)>> {
    let m1 = m.insert(a, adjacency(m, a).push((b, t)));
    m1.insert(b, adjacency(m1, b).push((a, t)))
}

/// The routes built by adding each `(a, b, t)` of `edges` in turn to an empty galaxy.
pub open spec fn routes_from_edges(edges: Seq<(PlanetId, PlanetId, u64)>) -> Map<
    PlanetId,
    Seq<(PlanetId, u64)>,
>
    decreases edges.len(),
{
    if edges.len() == 0 {
        Map::empty()
    } else {
        let e = edges.last();
        with_route(routes_from_edges(edges.drop_last()), e.0, e.1, e.2)
    }
}

/// The map whose entry for each origin is the last list of routes given for it.
pub open spec fn routes_from_list(list: Seq<(PlanetId, Seq<(PlanetId, u64)>)>) -> Map<
    PlanetId,
    Seq<(PlanetId, u64)>,
>
    decreases list.len(),
{
    if list.len() == 0 {
        Map::empty()
    } else {
        routes_from_list(list.drop_last()).insert(list.last().0, list.last().1)
    }
}

/// Adding a route in both directions keeps the routes symmetric.
pub proof fn lemma_with_route_symmetric(
    m: Map<PlanetId, Seq<(PlanetId, u64)>>,
    a: PlanetId,
    b: PlanetId,
    t: u64,
)
    requires
        routes_symmetric(m),
    ensures
        routes_symmetric(with_route(m, a, b, t)),
{
    let m1 = m.insert(a, adjacency(m, a).push((b, t)));
    let m2 = with_route(m, a, b, t);
    assert forall|x: PlanetId, i: int|
        m2.contains_key(x) && 0 <= i < m2[x].len() implies {
        &&& m2.contains_key(#[trigger] m2[x][i].0)
        &&& m2[m2[x][i].0].contains((x, m2[x][i].1))
    } by {
        let e = m2[x][i];
        if x == b && i == m2[x].len() - 1 {
            assert(m2[a].contains((b, t))) by {
                if a == b {
                    assert(m2[a][m2[a].len() - 1] == (a, t));
                } else {
                    assert(m2[a] == m1[a]);
                    assert(m1[a][m1[a].len() - 1] == (b, t));
                }
            }
        } else if x == a && ((a != b && i == m2[x].len() - 1) || (a == b && i
            == m2[x].len() - 2)) {
            assert(e == (b, t));
            assert(m2[b][m2[b].len() - 1] == (a, t));
        } else {
            assert(m.contains_key(x) && i < m[x].len() && m[x][i] == e) by {
                if x == a && x == b {
                    assert(m1[x][i] == e);
                } else if x == a {
                    assert(m1[x][i] == e);
                }
            }
            let y = e.0;
            assert(m.contains_key(y) && m[y].contains((x, e.1)));
            let k = choose|k: int| 0 <= k < m[y].len() && m[y][k] == (x, e.1);
            if y == a && y == b {
                assert(m2[y][k] == (x, e.1));
            } else if y == a {
                assert(m1[y][k] == (x, e.1));
                assert(m2[y][k] == (x, e.1));
            } else if y == b {
                assert(m2[y][k] == (x, e.1));
            } else {
                assert(m2[y] == m[y]);
            }
        }
    }
}

/// A galaxy built by adding routes one by one is always symmetric.
pub proof fn lemma_built_routes_symmetric(edges: Seq<(PlanetId, PlanetId, u64)>)
    ensures
        routes_symmetric(routes_from_edges(edges)),
    decreases edges.len(),
{
    if edges.len() > 0 {
        let e = edges.last();
        lemma_built_routes_symmetric(edges.drop_last());
        lemma_with_route_symmetric(routes_from_edges(edges.drop_last()), e.0, e.1, e.2);
    }
}

/// A galaxy built by adding routes one by one passes the validator: whatever
/// list of origins with their routes describes it, that list is symmetric, so
/// `from_hashmap` accepts it.
pub proof fn lemma_validator_accepts_built_routes(
    edges: Seq<(PlanetId, PlanetId, u64)>,
    list: Seq<(PlanetId, Seq<(PlanetId, u64)>)>,
)
    requires
        routes_from_list(list) == routes_from_edges(edges),
    ensures
        routes_symmetric(routes_from_list(list)),
{
    lemma_built_routes_symmetric(edges);
}

fn contains_route(routes: &Vec<(PlanetId, u64)>, planet: PlanetId, travel_time: u64) -> (r: bool)
    ensures
        r == routes@.contains((planet, travel_time)),
{
    let mut i: usize = 0;
    while i < routes.len()
        invariant
            i <= routes@.len(),
            forall|k: int| 0 <= k < i ==> routes@[k] != (planet, travel_time),
        decreases routes@.len() - i,
    {
        if routes[i].0 == planet && routes[i].1 == travel_time {
            assert(routes@[i as int] == (planet, travel_time));
            return true;
        }
        i = i + 1;
    }
    false
}

impl Default for PlanetCatalog {
    fn default() -> (r: Self)
        ensures
            r.wf(),
            r@ == Seq::<Seq<char>>::empty(),
    {
        Self::new()
    }
}

/// All routes of the galaxy, by origin planet.
#[derive(Debug, PartialEq, Eq, Clone)]
pub struct GalaxyRoutes(HashMap<usize, Vec<(PlanetId, u64)>>);

impl View for GalaxyRoutes {
    type V = Map<PlanetId, Seq<(PlanetId, u64)>>;

    closed spec fn view(&self) -> Map<PlanetId, Seq<(PlanetId, u64)>> {
        Map::new(|p: PlanetId| self.0@.contains_key(p.0), |p: PlanetId| self.0@[p.0]@)
    }
}

impl GalaxyRoutes {
    pub open spec fn wf(&self) -> bool {
        routes_symmetric(self@)
    }

    /// The indices of the planets that have an entry.
    pub closed spec fn indices(&self) -> Set<usize> {
        self.0@.dom()
    }

    /// Finitely many planets have an entry, and `indices` holds exactly theirs.
    pub proof fn lemma_finite(&self)
        ensures
            self@.dom().finite(),
            self.indices().finite(),
            forall|p: PlanetId| #[trigger] self@.contains_key(p) <==> self.indices().contains(p.index()),
    {
        let f = |k: usize| PlanetId(k);
        self.0@.dom().lemma_map_finite(f);
        assert(self@.dom() =~= self.0@.dom().map(f)) by {
            assert forall|p: PlanetId| #[trigger] self@.dom().contains(p) implies self.0@.dom().map(f).contains(p) by {
                assert(f(p.0) == p);
            }
        }
    }

    pub fn get(&self, planet_id: &PlanetId) -> (r: Result<&Vec<(PlanetId, u64)>, DomainError>)
        ensures
            match r {
                Ok(v) => self@.contains_key(*planet_id) && v@ == self@[*planet_id],
                Err(e) => e == DomainError::UnknownLocation && !self@.contains_key(*planet_id),
            },
    {
        match self.0.get(&planet_id.0) {
            Some(v) => Ok(v),
            None => Err(DomainError::UnknownLocation),
        }
    }

    pub fn new() -> (r: GalaxyRoutes)
        ensures
            r.wf(),
            r@ == Map::<PlanetId, Seq<(PlanetId, u64)>>::empty(),
    {
        let r = GalaxyRoutes(HashMap::new());
        proof {
            assert(r@ =~= Map::<PlanetId, Seq<(PlanetId, u64)>>::empty());
        }
        r
    }

    fn push_route(&mut self, from: PlanetId, to: PlanetId, travel_time: u64)
        ensures
            final(self)@ == old(self)@.insert(from, adjacency(old(self)@, from).push((to, travel_time))),
    {
        let ghost before = self@;
        let mut routes = match self.0.remove(&from.0) {
            Some(v) => v,
            None => Vec::new(),
        };
        proof {
            assert(routes@ == adjacency(before, from));
        }
        routes.push((to, travel_time));
        self.0.insert(from.0, routes);
        proof {
            assert(self@ =~= before.insert(from, adjacency(before, from).push((to, travel_time))));
        }
    }

    pub fn add_route(&mut self, planet_id1: PlanetId, planet_id2: PlanetId, travel_time: u64)
        ensures
            final(self)@ == with_route(old(self)@, planet_id1, planet_id2, travel_time),
            old(self).wf() ==> final(self).wf(),
    {
        self.push_route(planet_id1, planet_id2, travel_time);
        self.push_route(planet_id2, planet_id1, travel_time);
        proof {
            if old(self).wf() {
                lemma_with_route_symmetric(old(self)@, planet_id1, planet_id2, travel_time);
            }
        }
    }

    /// Builds the galaxy from a list of origins with their routes, after checking
    /// that every route has its reciprocal. Where an origin appears twice, its
    /// last list of routes is the one kept.
    pub fn from_hashmap(galaxy_routes: Vec<(PlanetId, Vec<(PlanetId, u64)>)>) -> (r: Result<
        GalaxyRoutes,
        DomainError,
    >)
        ensures
            ({
                let m = routes_from_list(route_list_view(galaxy_routes@));
                match r {
                    Ok(g) => routes_symmetric(m) && g.wf() && g@ == m,
                    Err(e) => e == DomainError::AsymmetricRoute && !routes_symmetric(m),
                }
            }),
    {
        let ghost list = route_list_view(galaxy_routes@);
        let ghost n = galaxy_routes@.len();
        let mut remaining = galaxy_routes;
        let mut routes = GalaxyRoutes(HashMap::new());
        let mut origins: Vec<PlanetId> = Vec::new();
        proof {
            assert(list.take(n as int) =~= list);
            assert(routes_from_list(list.take(n as int)).union_prefer_right(routes@)
                =~= routes_from_list(list));
        }
        // Taken from the end, the first list seen for an origin is the one kept.
        while remaining.len() > 0
            invariant
                remaining@.len() <= n,
                list.len() == n,
                route_list_view(remaining@) == list.take(remaining@.len() as int),
                list == route_list_view(galaxy_routes@),
                routes_from_list(list.take(remaining@.len() as int)).union_prefer_right(
                    routes@,
                ) == routes_from_list(list),
                forall|p: PlanetId| routes@.contains_key(p) <==> origins@.contains(p),
            decreases remaining@.len(),
        {
            let ghost j = remaining@.len() as int;
            let ghost before = routes@;
            let (origin, destinations) = remaining.pop().unwrap();
            proof {
                assert(list.take(j)[j - 1] == (origin, destinations@));
                assert(list.take(j - 1) =~= list.take(j).drop_last());
                assert(route_list_view(remaining@) =~= list.take(j - 1));
            }
            if !routes.0.contains_key(&origin.0) {
                let ghost old_origins = origins@;
                routes.0.insert(origin.0, destinations);
                origins.push(origin);
                proof {
                    assert(routes@ =~= before.insert(origin, destinations@));
                    assert(routes_from_list(list.take(j - 1)).union_prefer_right(routes@)
                        =~= routes_from_list(list.take(j)).union_prefer_right(before));
                    assert forall|p: PlanetId| routes@.contains_key(p) <==> origins@.contains(
                        p,
                    ) by {
                        assert(origins@ == old_origins.push(origin));
                        if origins@.contains(p) && p != origin {
                            let k = choose|k: int| 0 <= k < origins@.len() && origins@[k] == p;
                            assert(old_origins[k] == p);
                        }
                        if old_origins.contains(p) {
                            let k = choose|k: int| 0 <= k < old_origins.len() && old_origins[k] == p;
                            assert(origins@[k] == p);
                        }
                        assert(origins@[origins@.len() - 1] == origin);
                    }
                }
            } else {
                proof {
                    assert(routes_from_list(list.take(j - 1)).union_prefer_right(routes@)
                        =~= routes_from_list(list.take(j)).union_prefer_right(before));
                }
            }
        }
        proof {
            assert(routes_from_list(list.take(0)) =~= Map::empty());
            assert(routes@ =~= routes_from_list(list));
        }
        let ghost m = routes@;
        let mut a: usize = 0;
        while a < origins.len()
            invariant
                routes@ == m,
                m == routes_from_list(list),
                list == route_list_view(galaxy_routes@),
                forall|p: PlanetId| m.contains_key(p) <==> origins@.contains(p),
                a <= origins@.len(),
                forall|x: int, i: int|
                    #![trigger m[origins@[x]][i]]
                    0 <= x < a && 0 <= i < m[origins@[x]].len() ==> {
                        &&& m.contains_key(m[origins@[x]][i].0)
                        &&& m[m[origins@[x]][i].0].contains((origins@[x], m[origins@[x]][i].1))
                    },
            decreases origins@.len() - a,
        {
            let origin = origins[a];
            assert(origins@.contains(origin));
            let destinations = routes.get(&origin).unwrap();
            let mut i: usize = 0;
            while i < destinations.len()
                invariant
                    routes@ == m,
                    m == routes_from_list(list),
                    list == route_list_view(galaxy_routes@),
                    m.contains_key(origin),
                    destinations@ == m[origin],
                    i <= destinations@.len(),
                    forall|k: int|
                        #![trigger m[origin][k]]
                        0 <= k < i ==> {
                            &&& m.contains_key(m[origin][k].0)
                            &&& m[m[origin][k].0].contains((origin, m[origin][k].1))
                        },
                decreases destinations@.len() - i,
            {
                let (destination, distance) = destinations[i];
                let reciprocal_ok = match routes.get(&destination) {
                    Ok(back) => contains_route(back, origin, distance),
                    Err(_) => false,
                };
                if !reciprocal_ok {
                    proof {
                        assert(m[origin][i as int] == (destination, distance));
                        assert(!routes_symmetric(m));
                    }
                    return Err(DomainError::AsymmetricRoute);
                }
                i = i + 1;
            }
            a = a + 1;
        }
        proof {
            assert forall|x: PlanetId, i: int|
                m.contains_key(x) && 0 <= i < m[x].len() implies {
                &&& m.contains_key(#[trigger] m[x][i].0)
                &&& m[m[x][i].0].contains((x, m[x][i].1))
            } by {
                let k = choose|k: int| 0 <= k < origins@.len() && origins@[k] == x;
                assert(m[origins@[k]][i] == m[x][i]);
            }
        }
        Ok(routes)
    }
}

impl Default for GalaxyRoutes {
    fn default() -> (r: Self)
        ensures
            r.wf(),
            r@ == Map::<PlanetId, Seq<(PlanetId, u64)>>::empty(),
    {
        Self::new()
    }
}

/// Days on which bounty hunters wait on each planet.
#[derive(Debug, PartialEq, Eq)]
pub struct BountyHunterPlanning(Vec<(PlanetId, HashSet<u64>)>);

impl View for BountyHunterPlanning {
    type V = Seq<(PlanetId, Set<u64>)>;

    closed spec fn view(&self) -> Seq<(PlanetId, Set<u64>)> {
        days_view(self.0@)
    }
}

/// Planets with their days, as values.
pub open spec fn days_view(entries: Seq<(PlanetId, HashSet<u64>)>) -> Seq<(PlanetId, Set<u64>)> {
    entries.map_values(|e: (PlanetId, HashSet<u64>)| (e.0, e.1@))
}

/// No planet has two entries.
pub open spec fn distinct_planets(entries: Seq<(PlanetId, Set<u64>)>) -> bool {
    forall|a: int, b: int|
        0 <= a < entries.len() && 0 <= b < entries.len() && a != b ==> #[trigger] entries[a].0
            != #[trigger] entries[b].0
}

/// Whether a hunter is on `planet` on day `day`, for a planning given as a list of
/// planets with their days.
pub open spec fn hunter_present(planning: Seq<(PlanetId, Set<u64>)>, planet: PlanetId, day: u64) -> bool {
    exists|i: int| 0 <= i < planning.len() && planning[i].0 == planet && #[trigger] planning[i].1.contains(day)
}

impl BountyHunterPlanning {
    /// Whether a hunter is on `planet` on day `day`.
    pub open spec fn present(&self, planet: PlanetId, day: u64) -> bool {
        hunter_present(self@, planet, day)
    }

    /// Returns 1 if a hunter is on `planet` on day `elapsed_time`, else 0.
    pub fn meet_with_hunter(&self, planet: &PlanetId, elapsed_time: &u64) -> (r: u64)
        ensures
            r == (if self.present(*planet, *elapsed_time) { 1u64 } else { 0u64 }),
    {
        let mut i: usize = 0;
        while i < self.0.len()
            invariant
                i <= self@.len(),
                forall|k: int| 0 <= k < i ==> !(self@[k].0 == *planet && #[trigger] self@[k].1.contains(*elapsed_time)),
            decreases self@.len() - i,
        {
            if self.0[i].0 == *planet && self.0[i].1.contains(elapsed_time) {
                assert(self@[i as int].1.contains(*elapsed_time));
                return 1;
            }
            i = i + 1;
        }
        0
    }

    /// A planning from planets with their days. A planet listed twice has the
    /// days of both entries.
    pub fn new(planet_to_days: Vec<(PlanetId, HashSet<u64>)>) -> (r: BountyHunterPlanning)
        ensures
            r@ == days_view(planet_to_days@),
    {
        BountyHunterPlanning(planet_to_days)
    }
}

} // verus!
