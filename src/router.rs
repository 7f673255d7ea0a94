//! The routing table: exact path to handler.

use vstd::prelude::*;

verus! {

/// The abstract table: paths with their handlers, in order of first
/// registration.
pub type Routes<H> = Seq<(Seq<char>, H)>;

/// Where `p` stands in `m`, or -1.
pub open spec fn route_index<H>(m: Routes<H>, p: Seq<char>) -> int
    decreases m.len(),
{
    if m.len() == 0 {
        -1
    } else if m.last().0 == p {
        m.len() - 1
    } else {
        route_index(m.drop_last(), p)
    }
}

/// The handler of path `p`.
pub open spec fn route<H>(m: Routes<H>, p: Seq<char>) -> Option<H> {
    let i = route_index(m, p);
    if i >= 0 {
        Some(m[i].1)
    } else {
        None
    }
}

/// `m` with `p` served by `f`, replacing an earlier handler of `p`.
pub open spec fn register_spec<H>(m: Routes<H>, p: Seq<char>, f: H) -> Routes<H> {
    let i = route_index(m, p);
    if i >= 0 {
        m.update(i, (p, f))
    } else {
        m.push((p, f))
    }
}

pub open spec fn paths_unique<H>(m: Routes<H>) -> bool {
    forall|i: int, j: int| 0 <= i < j < m.len() ==> m[i].0 != m[j].0
}

/// `route_index` finds `p` where it stands, and with unique paths exactly there.
pub proof fn lemma_route_index<H>(m: Routes<H>, p: Seq<char>)
    ensures
        -1 <= route_index(m, p) < m.len(),
        route_index(m, p) >= 0 ==> m[route_index(m, p)].0 == p,
        route_index(m, p) == -1 <==> forall|j: int| 0 <= j < m.len() ==> m[j].0 != p,
        paths_unique(m) ==> forall|j: int|
            0 <= j < m.len() && m[j].0 == p ==> route_index(m, p) == j,
    decreases m.len(),
{
    if m.len() > 0 {
        let q = m.drop_last();
        lemma_route_index(q, p);
        assert forall|j: int| 0 <= j < q.len() implies q[j] == m[j] by {}
        if paths_unique(m) {
            assert(paths_unique(q));
        }
        if m.last().0 != p {
            if route_index(m, p) == -1 {
                assert forall|j: int| 0 <= j < m.len() implies m[j].0 != p by {
                    if j < q.len() {
                        assert(q[j].0 != p);
                    }
                }
            }
        }
    }
}

/// Registering keeps paths unique; afterwards `p` is served by `f` and
/// every other path as before.
pub proof fn lemma_register<H>(m: Routes<H>, p: Seq<char>, f: H)
    requires
        paths_unique(m),
    ensures
        paths_unique(register_spec(m, p, f)),
        forall|q: Seq<char>|
            route(register_spec(m, p, f), q) == if q == p {
                Some(f)
            } else {
                route(m, q)
            },
{
    let r = register_spec(m, p, f);
    lemma_route_index(m, p);
    assert(paths_unique(r));
    assert forall|q: Seq<char>|
        route(r, q) == if q == p {
            Some(f)
        } else {
            route(m, q)
        } by {
        lemma_route_index(m, q);
        lemma_route_index(r, q);
        if q != p {
            if route_index(m, q) >= 0 {
                assert(r[route_index(m, q)].0 == q);
            } else {
                assert forall|j: int| 0 <= j < r.len() implies r[j].0 != q by {
                    if j < m.len() && j != route_index(m, p) {
                        assert(m[j].0 != q);
                    }
                }
            }
        } else {
            let i = if route_index(m, p) >= 0 {
                route_index(m, p)
            } else {
                m.len() as int
            };
            assert(r[i].0 == p);
        }
    }
}

/// Registering `b` for a path after `a` leaves `b` alone serving it, and
/// every other path as before `a` was registered.
pub proof fn lemma_reregister_replaces<H>(m: Routes<H>, p: Seq<char>, a: H, b: H)
    requires
        paths_unique(m),
    ensures
        route(register_spec(register_spec(m, p, a), p, b), p) == Some(b),
        forall|q: Seq<char>|
            q != p ==> route(register_spec(register_spec(m, p, a), p, b), q) == route(m, q),
{
    lemma_register(m, p, a);
    lemma_register(register_spec(m, p, a), p, b);
}

/// The routing table of a server: each path served by one handler.
pub struct App<H> {
    routes: Vec<(String, H)>,
}

impl<H> View for App<H> {
    type V = Routes<H>;

    closed spec fn view(&self) -> Routes<H> {
        self.routes@.map_values(|e: (String, H)| (e.0@, e.1))
    }
}

impl<H> App<H> {
    pub open spec fn wf(&self) -> bool {
        paths_unique(self@)
    }

    /// An empty table.
    pub fn new() -> (r: App<H>)
        ensures
            r@.len() == 0,
            r.wf(),
    {
        let r = App { routes: Vec::new() };
        assert(r@ =~= Seq::<(Seq<char>, H)>::empty());
        r
    }

    /// The table with `path` served by `f`, replacing an earlier handler
    /// of `path`.
    pub fn register(self, path: &str, f: H) -> (r: App<H>)
        requires
            self.wf(),
        ensures
            r@ == register_spec(self@, path@, f),
            r.wf(),
    {
        let ghost m = self@;
        proof {
            lemma_register(m, path@, f);
            lemma_route_index(m, path@);
        }
        let mut routes = self.routes;
        let key = path.to_owned();
        let mut i: usize = 0;
        while i < routes.len()
            invariant
                i <= routes@.len(),
                routes@.map_values(|e: (String, H)| (e.0@, e.1)) == m,
                paths_unique(m),
                m == self@,
                key@ == path@,
                forall|j: int| 0 <= j < i ==> m[j].0 != path@,
            decreases routes@.len() - i,
        {
            assert(m[i as int].0 == routes@[i as int].0@);
            if routes[i].0 == key {
                assert(m[i as int].0 == path@);
                proof {
                    lemma_route_index(m, path@);
                }
                assert(route_index(m, path@) == i as int);
                routes.set(i, (key, f));
                let r = App { routes };
                assert(r@ =~= m.update(i as int, (path@, f)));
                return r;
            }
            i = i + 1;
        }
        proof {
            lemma_route_index(m, path@);
        }
        routes.push((key, f));
        let r = App { routes };
        assert(r@ =~= m.push((path@, f)));
        r
    }

    /// The handler of `path`, where one is registered.
    pub fn handler(&self, path: &str) -> (r: Option<&H>)
        requires
            self.wf(),
        ensures
            r matches Some(h) ==> route(self@, path@) == Some(*h),
            r is None ==> route(self@, path@) is None,
    {
        proof {
            lemma_route_index(self@, path@);
        }
        let key = path.to_owned();
        let mut i: usize = 0;
        while i < self.routes.len()
            invariant
                i <= self@.len(),
                key@ == path@,
                self.wf(),
                forall|j: int| 0 <= j < i ==> self@[j].0 != path@,
            decreases self@.len() - i,
        {
            assert(self@[i as int] == (self.routes@[i as int].0@, self.routes@[i as int].1));
            if self.routes[i].0 == key {
                assert(self@[i as int].0 == path@);
                proof {
                    lemma_route_index(self@, path@);
                }
                return Some(&self.routes[i].1);
            }
            i = i + 1;
        }
        proof {
            lemma_route_index(self@, path@);
        }
        None
    }
}

} // verus!
