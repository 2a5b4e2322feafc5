use vstd::prelude::*;
use crate::ioc::bean_definition::{BeanDefinition, BeanScope};
use crate::ioc::bean_factory::{BeanDefinitionRegistry, BeanFactory};

verus! {

/// The value under `n` in a list of named pairs, if any (one of them, where names repeat).
pub open spec fn lookup<T>(s: Seq<(String, T)>, n: Seq<char>) -> Option<T> {
    if exists|i: int| 0 <= i < s.len() && s[i].0@ == n {
        Some(s[choose|i: int| 0 <= i < s.len() && s[i].0@ == n].1)
    } else {
        None
    }
}

/// No name occurs twice.
pub open spec fn distinct_names<T>(s: Seq<(String, T)>) -> bool {
    forall|i: int, j: int| 0 <= i < j < s.len() ==> #[trigger] s[i].0@ != #[trigger] s[j].0@
}

/// The names of a list of strings.
pub open spec fn name_views(s: Seq<String>) -> Seq<Seq<char>> {
    s.map_values(|x: String| x@)
}

/// The environment as pairs of texts.
pub open spec fn env_view(s: Seq<(String, String)>) -> Seq<(Seq<char>, Seq<char>)> {
    s.map_values(|p: (String, String)| (p.0@, p.1@))
}

/// `got` is what a definition with dependencies `deps` is handed: for each dependency in
/// order that `singleton` holds, its name and a clone of that singleton.
pub open spec fn deps_resolved<B: Clone>(
    got: Seq<(String, B)>,
    deps: Seq<Seq<char>>,
    singleton: spec_fn(Seq<char>) -> Option<B>,
) -> bool
    decreases deps.len(),
{
    if deps.len() == 0 {
        got.len() == 0
    } else {
        match singleton(deps.last()) {
            Some(b) => got.len() > 0 && got.last().0@ == deps.last() && cloned(b, got.last().1)
                && deps_resolved(got.drop_last(), deps.drop_last(), singleton),
            None => deps_resolved(got, deps.drop_last(), singleton),
        }
    }
}

/// Singletons that agree on the dependencies resolve them alike.
pub proof fn lemma_deps_resolved_agree<B: Clone>(
    got: Seq<(String, B)>,
    deps: Seq<Seq<char>>,
    f: spec_fn(Seq<char>) -> Option<B>,
    g: spec_fn(Seq<char>) -> Option<B>,
)
    requires
        deps_resolved(got, deps, f),
        forall|j: int| 0 <= j < deps.len() ==> f(#[trigger] deps[j]) == g(deps[j]),
    ensures
        deps_resolved(got, deps, g),
    decreases deps.len(),
{
    if deps.len() > 0 {
        assert(f(deps[deps.len() - 1]) == g(deps[deps.len() - 1]));
        let d2 = deps.drop_last();
        assert forall|j: int| 0 <= j < d2.len() implies f(#[trigger] d2[j]) == g(d2[j]) by {
            assert(d2[j] == deps[j]);
        }
        match f(deps.last()) {
            Some(b) => lemma_deps_resolved_agree(got.drop_last(), d2, f, g),
            None => lemma_deps_resolved_agree(got, d2, f, g),
        }
    }
}

/// `b` is what definition `d` made, handed the dependency beans that `singleton` holds
/// (see `deps_resolved`) and the environment `env`.
pub open spec fn made_by<D: BeanDefinition>(
    d: D,
    singleton: spec_fn(Seq<char>) -> Option<D::Bean>,
    env: Seq<(Seq<char>, Seq<char>)>,
    b: D::Bean,
) -> bool where D::Bean: Clone {
    exists|dv: Vec<(String, D::Bean)>, ev: Vec<(String, String)>|
        #[trigger] call_ensures(D::create_instance, (&d, &dv, &ev), b) && deps_resolved(dv@, d.deps_spec(), singleton)
            && env_view(ev@) == env
}

/// A dependency `n` with definition `def`, made while `creating` are being made, is a
/// singleton that passes its own cycle check, so making it keeps a singleton.
pub open spec fn dep_made<D: BeanDefinition>(def: Option<D>, creating: Seq<Seq<char>>, n: Seq<char>) -> bool {
    match def {
        Some(dd) => dd.scope_spec() == BeanScope::Singleton && !(exists|k: int|
            0 <= k < dd.deps_spec().len() && (dd.deps_spec()[k] == n || creating.contains(
                #[trigger] dd.deps_spec()[k],
            ))),
        None => false,
    }
}

/// Whether two names are the same.
fn same_name(a: &String, b: &str) -> (r: bool)
    ensures
        r == (a@ == b@),
{
    String::eq(a, &b.to_owned())
}

/// Where `name` is in a list of named pairs.
fn find_named<T>(s: &Vec<(String, T)>, name: &str) -> (r: Option<usize>)
    requires
        distinct_names(s@),
    ensures
        match r {
            Some(i) => i < s@.len() && s@[i as int].0@ == name@ && lookup(s@, name@) == Some(
                s@[i as int].1,
            ),
            None => lookup(s@, name@) is None,
        },
{
    let mut i: usize = 0;
    while i < s.len()
        invariant
            i <= s@.len(),
            distinct_names(s@),
            forall|j: int| 0 <= j < i ==> (#[trigger] s@[j]).0@ != name@,
        decreases s@.len() - i,
    {
        if same_name(&s[i].0, name) {
            proof {
                let c = choose|c: int| 0 <= c < s@.len() && s@[c].0@ == name@;
                assert(c == i as int) by {
                    if c != i as int {
                        if c < i {
                        } else {
                            assert(s@[i as int].0@ != s@[c].0@);
                        }
                    }
                }
            }
            return Some(i);
        }
        i = i + 1;
    }
    None
}

/// Whether `name` is in a list of strings.
fn contains_name(s: &Vec<String>, name: &str) -> (r: bool)
    ensures
        r == name_views(s@).contains(name@),
{
    let mut i: usize = 0;
    while i < s.len()
        invariant
            i <= s@.len(),
            forall|j: int| 0 <= j < i ==> (#[trigger] s@[j])@ != name@,
        decreases s@.len() - i,
    {
        if same_name(&s[i], name) {
            proof {
                assert(name_views(s@)[i as int] == name@);
            }
            return true;
        }
        i = i + 1;
    }
    proof {
        if name_views(s@).contains(name@) {
            let j = choose|j: int| 0 <= j < name_views(s@).len() && name_views(s@)[j] == name@;
            assert(s@[j]@ == name@);
        }
    }
    false
}

/// Definitions by name, the singletons made, and the names of the beans being made.
pub struct BeanStore<D: BeanDefinition> where D::Bean: Clone {
    definitions: Vec<(String, D)>,
    names: Vec<String>,
    singletons: Vec<(String, D::Bean)>,
    creating: Vec<String>,
    environment: Vec<(String, String)>,
}

impl<D: BeanDefinition> BeanStore<D> where D::Bean: Clone {
    pub closed spec fn wf(&self) -> bool {
        &&& distinct_names(self.definitions@)
        &&& distinct_names(self.singletons@)
        &&& name_views(self.creating@).no_duplicates()
        &&& forall|i: int|
            0 <= i < self.creating@.len() ==> (lookup(self.definitions@, #[trigger] self.creating@[i]@) is Some)
    }

    /// The definition registered under `n`.
    pub closed spec fn definition(&self, n: Seq<char>) -> Option<D> {
        lookup(self.definitions@, n)
    }

    /// The definitions, in the order they are held.
    pub closed spec fn definitions_spec(&self) -> Seq<(String, D)> {
        self.definitions@
    }

    /// The names in the order they were registered.
    pub closed spec fn names_spec(&self) -> Seq<Seq<char>> {
        name_views(self.names@)
    }

    /// The singleton made under `n`, if any.
    pub closed spec fn singleton(&self, n: Seq<char>) -> Option<D::Bean> {
        lookup(self.singletons@, n)
    }

    /// The names of the beans being made.
    pub closed spec fn creating_spec(&self) -> Seq<Seq<char>> {
        name_views(self.creating@)
    }

    pub closed spec fn environment_spec(&self) -> Seq<(Seq<char>, Seq<char>)> {
        self.environment@.map_values(|p: (String, String)| (p.0@, p.1@))
    }

    /// An empty factory.
    pub fn new() -> (r: Self)
        ensures
            r.wf(),
            forall|n: Seq<char>| r.definition(n) is None && r.singleton(n) is None,
            r.names_spec().len() == 0,
            r.creating_spec().len() == 0,
            r.environment_spec().len() == 0,
    {
        let r = BeanStore {
            definitions: Vec::new(),
            names: Vec::new(),
            singletons: Vec::new(),
            creating: Vec::new(),
            environment: Vec::new(),
        };
        proof {
            assert(name_views(r.creating@) =~= Seq::<Seq<char>>::empty());
            assert(r.environment_spec() =~= Seq::<(Seq<char>, Seq<char>)>::empty());
            assert(name_views(r.names@) =~= Seq::<Seq<char>>::empty());
        }
        r
    }

    /// Replaces the environment.
    pub fn set_environment(&mut self, env: Vec<(String, String)>)
        requires
            old(self).wf(),
        ensures
            final(self).wf(),
            final(self).environment_spec() == env@.map_values(|p: (String, String)| (p.0@, p.1@)),
            final(self).definitions_spec() == old(self).definitions_spec(),
            final(self).names_spec() == old(self).names_spec(),
            forall|n: Seq<char>| final(self).singleton(n) == old(self).singleton(n),
            final(self).creating_spec() == old(self).creating_spec(),
    {
        self.environment = env;
    }

    /// A copy of the environment.
    pub fn get_environment(&self) -> (r: Vec<(String, String)>)
        ensures
            r@.map_values(|p: (String, String)| (p.0@, p.1@)) == self.environment_spec(),
    {
        let mut out: Vec<(String, String)> = Vec::new();
        let mut i: usize = 0;
        while i < self.environment.len()
            invariant
                i <= self.environment@.len(),
                out@.len() == i,
                out@.map_values(|p: (String, String)| (p.0@, p.1@)) == self.environment_spec().take(
                    i as int,
                ),
            decreases self.environment@.len() - i,
        {
            let (k, v) = &self.environment[i];
            let ghost prev = out@;
            out.push((k.clone(), v.clone()));
            proof {
                assert forall|t: int| 0 <= t < i implies out@[t] == prev[t] by {}
                assert(prev.map_values(|p: (String, String)| (p.0@, p.1@)) == self.environment_spec().take(i as int));
                assert forall|t: int| 0 <= t < i implies (out@[t].0@, out@[t].1@) == self.environment_spec()[t] by {
                    assert(prev.map_values(|p: (String, String)| (p.0@, p.1@))[t] == self.environment_spec().take(i as int)[t]);
                }
                assert(out@.map_values(|p: (String, String)| (p.0@, p.1@)) =~= self.environment_spec().take(
                    i + 1,
                ));
            }
            i = i + 1;
        }
        proof {
            assert(self.environment_spec().take(self.environment@.len() as int) =~= self.environment_spec());
        }
        out
    }

    /// Forgets every singleton made.
    pub fn destroy_singletons(&mut self)
        requires
            old(self).wf(),
        ensures
            final(self).wf(),
            forall|n: Seq<char>| final(self).singleton(n) is None,
            final(self).definitions_spec() == old(self).definitions_spec(),
            final(self).names_spec() == old(self).names_spec(),
            final(self).creating_spec() == old(self).creating_spec(),
            final(self).environment_spec() == old(self).environment_spec(),
    {
        self.singletons = Vec::new();
    }

    /// The beans being made are at most as many as the definitions.
    proof fn lemma_creating_bound(&self)
        requires
            self.wf(),
        ensures
            self.creating@.len() <= self.definitions@.len(),
    {
        broadcast use vstd::seq_lib::seq_to_set_is_finite;
        let cs = name_views(self.creating@);
        let ds = self.definitions@.map_values(|p: (String, D)| p.0@);
        cs.unique_seq_to_set();
        ds.lemma_cardinality_of_set();
        assert(cs.to_set().subset_of(ds.to_set())) by {
            assert forall|x: Seq<char>| cs.to_set().contains(x) implies ds.to_set().contains(x) by {
                let i = choose|i: int| 0 <= i < cs.len() && cs[i] == x;
                assert(lookup(self.definitions@, self.creating@[i]@) is Some);
                let j = choose|j: int| 0 <= j < self.definitions@.len() && self.definitions@[j].0@ == x;
                assert(ds[j] == x);
            }
        }
        vstd::set_lib::lemma_len_subset(cs.to_set(), ds.to_set());
    }

    /// Sets the singleton under `name`.
    fn put_singleton(&mut self, name: &str, bean: D::Bean)
        requires
            old(self).wf(),
        ensures
            final(self).wf(),
            final(self).singleton(name@) == Some(bean),
            forall|n: Seq<char>| n != name@ ==> final(self).singleton(n) == old(self).singleton(n),
            final(self).definitions_spec() == old(self).definitions_spec(),
            final(self).names_spec() == old(self).names_spec(),
            final(self).creating_spec() == old(self).creating_spec(),
            final(self).environment_spec() == old(self).environment_spec(),
    {
        let ghost s0 = self.singletons@;
        match find_named(&self.singletons, name) {
            Some(j) => {
                self.singletons.set(j, (name.to_owned(), bean));
                proof {
                    let s1 = self.singletons@;
                    assert forall|a: int, b: int| 0 <= a < b < s1.len() implies #[trigger] s1[a].0@ != #[trigger] s1[b].0@ by {
                        assert(s1[a].0@ == s0[a].0@ && s1[b].0@ == s0[b].0@);
                    }
                    assert forall|n: Seq<char>| n != name@ implies lookup(s1, n) == lookup(s0, n) by {
                        if exists|i: int| 0 <= i < s0.len() && s0[i].0@ == n {
                            let i = choose|i: int| 0 <= i < s0.len() && s0[i].0@ == n;
                            assert(s1[i].0@ == n);
                            let c = choose|c: int| 0 <= c < s1.len() && s1[c].0@ == n;
                            assert(c == i) by {
                                if c != i {
                                    if c < i { assert(s1[c].0@ != s1[i].0@); } else { assert(s1[i].0@ != s1[c].0@); }
                                }
                            }
                        }
                        if exists|i: int| 0 <= i < s1.len() && s1[i].0@ == n {
                            let i = choose|i: int| 0 <= i < s1.len() && s1[i].0@ == n;
                            assert(s0[i].0@ == n);
                        }
                    }
                    assert(s1[j as int].0@ == name@);
                    let c = choose|c: int| 0 <= c < s1.len() && s1[c].0@ == name@;
                    assert(c == j as int) by {
                        if c != j as int {
                            if c < j { assert(s1[c].0@ != s1[j as int].0@); } else { assert(s1[j as int].0@ != s1[c].0@); }
                        }
                    }
                }
            },
            None => {
                self.singletons.push((name.to_owned(), bean));
                proof {
                    let s1 = self.singletons@;
                    assert forall|a: int, b: int| 0 <= a < b < s1.len() implies #[trigger] s1[a].0@ != #[trigger] s1[b].0@ by {
                        if b == s1.len() - 1 {
                            assert(s1[a] == s0[a]);
                        } else {
                            assert(s1[a] == s0[a] && s1[b] == s0[b]);
                        }
                    }
                    assert forall|n: Seq<char>| n != name@ implies lookup(s1, n) == lookup(s0, n) by {
                        if exists|i: int| 0 <= i < s1.len() && s1[i].0@ == n {
                            let i = choose|i: int| 0 <= i < s1.len() && s1[i].0@ == n;
                            assert(i < s0.len());
                            assert(s0[i].0@ == n);
                        }
                        if exists|i: int| 0 <= i < s0.len() && s0[i].0@ == n {
                            let i = choose|i: int| 0 <= i < s0.len() && s0[i].0@ == n;
                            assert(s1[i].0@ == n);
                        }
                    }
                    let last = s1.len() - 1;
                    assert(s1[last].0@ == name@);
                    let c = choose|c: int| 0 <= c < s1.len() && s1[c].0@ == name@;
                    assert(c == last) by {
                        if c != last { assert(s1[c].0@ != s1[last].0@); }
                    }
                }
            },
        }
    }

    /// Makes the bean `name` (see `DefaultListableBeanFactory::do_create_bean`).
    fn do_create(&mut self, name: &str) -> (r: Option<D::Bean>)
        requires
            old(self).wf(),
        ensures
            final(self).wf(),
            final(self).definitions_spec() == old(self).definitions_spec(),
            final(self).names_spec() == old(self).names_spec(),
            final(self).creating_spec() == old(self).creating_spec(),
            final(self).environment_spec() == old(self).environment_spec(),
            forall|n: Seq<char>|
                #[trigger] old(self).singleton(n) is Some ==> final(self).singleton(n) == old(self).singleton(n),
            match old(self).definition(name@) {
                None => r is None,
                Some(d) => if d.scope_spec() == BeanScope::Singleton && old(self).singleton(name@) is Some {
                    r matches Some(b) && cloned(old(self).singleton(name@).unwrap(), b)
                } else if old(self).creating_spec().contains(name@) || exists|i: int|
                    0 <= i < d.deps_spec().len() && (d.deps_spec()[i] == name@
                        || old(self).creating_spec().contains(#[trigger] d.deps_spec()[i])) {
                    r is None
                } else {
                    &&& r is Some
                    &&& d.scope_spec() == BeanScope::Singleton ==> (final(self).singleton(name@) matches Some(c)
                        && cloned(r.unwrap(), c))
                    &&& made_by(d, |n: Seq<char>| final(self).singleton(n), old(self).environment_spec(), r.unwrap())
                    &&& forall|j: int|
                        0 <= j < d.deps_spec().len() && dep_made(
                            old(self).definition(d.deps_spec()[j]),
                            old(self).creating_spec().push(name@),
                            d.deps_spec()[j],
                        ) ==> #[trigger] final(self).singleton(d.deps_spec()[j]) is Some
                },
            },
        decreases old(self).definitions@.len() - old(self).creating@.len(),
    {
        let (deps, scope) = match find_named(&self.definitions, name) {
            None => {
                return None;
            },
            Some(i) => (self.definitions[i].1.get_dependencies(), self.definitions[i].1.get_scope()),
        };
        let ghost d = self.definition(name@).unwrap();
        if scope == BeanScope::Singleton {
            match find_named(&self.singletons, name) {
                Some(j) => {
                    return Some(self.singletons[j].1.clone());
                },
                None => {},
            }
        }
        if contains_name(&self.creating, name) {
            return None;
        }
        let ghost c0 = name_views(self.creating@);
        self.creating.push(name.to_owned());
        proof {
            assert(name_views(self.creating@) =~= c0.push(name@));
            assert forall|i: int| 0 <= i < self.creating@.len() implies (lookup(self.definitions@, #[trigger] self.creating@[i]@) is Some) by {
                if i < self.creating@.len() - 1 {
                    assert(self.creating@[i] == old(self).creating@[i]);
                }
            }
            assert(name_views(self.creating@).no_duplicates()) by {
                let cs = name_views(self.creating@);
                assert forall|a: int, b: int| 0 <= a < cs.len() && 0 <= b < cs.len() && a != b implies cs[a] != cs[b] by {
                    if a == cs.len() - 1 {
                        assert(cs[b] == c0[b]);
                    } else if b == cs.len() - 1 {
                        assert(cs[a] == c0[a]);
                    } else {
                        assert(cs[a] == c0[a] && cs[b] == c0[b]);
                    }
                }
            }
            self.lemma_creating_bound();
        }
        let mut i: usize = 0;
        while i < deps.len()
            invariant
                i <= deps@.len(),
                self.wf(),
                deps@.len() == d.deps_spec().len(),
                forall|j: int| 0 <= j < deps@.len() ==> #[trigger] deps@[j]@ == d.deps_spec()[j],
                self.definitions_spec() == old(self).definitions_spec(),
                self.definitions@.len() == old(self).definitions@.len(),
                self.names_spec() == old(self).names_spec(),
                self.environment_spec() == old(self).environment_spec(),
                name_views(self.creating@) == c0.push(name@),
                c0 == old(self).creating_spec(),
                self.creating@.len() <= self.definitions@.len(),
                self.creating@.len() == old(self).creating@.len() + 1,
                old(self).definition(name@) == Some(d),
                !(d.scope_spec() == BeanScope::Singleton && old(self).singleton(name@) is Some),
                !old(self).creating_spec().contains(name@),
                forall|n: Seq<char>|
                    #[trigger] old(self).singleton(n) is Some ==> self.singleton(n) == old(self).singleton(n),
                forall|j: int| 0 <= j < i ==> !(d.deps_spec()[j] == name@ || c0.contains(#[trigger] d.deps_spec()[j])),
                forall|j: int|
                    0 <= j < i && dep_made(old(self).definition(d.deps_spec()[j]), c0.push(name@), d.deps_spec()[j])
                        ==> #[trigger] self.singleton(d.deps_spec()[j]) is Some,
            decreases deps@.len() - i,
        {
            if contains_name(&self.creating, deps[i].as_str()) {
                proof {
                    assert(c0.push(name@).contains(deps@[i as int]@));
                    let t = choose|t: int| 0 <= t < c0.push(name@).len() && c0.push(name@)[t] == deps@[i as int]@;
                    if t < c0.len() {
                        assert(c0.contains(d.deps_spec()[i as int]));
                    } else {
                        assert(d.deps_spec()[i as int] == name@);
                    }
                    assert(0 <= i < d.deps_spec().len() && (d.deps_spec()[i as int] == name@
                        || old(self).creating_spec().contains(d.deps_spec()[i as int])));
                }
                let ghost pre = self.creating@;
                self.creating.pop();
                proof {
                    assert(self.creating@ =~= pre.drop_last());
                    assert(name_views(self.creating@) =~= name_views(pre).drop_last());
                    assert(name_views(self.creating@) =~= c0);
                    assert forall|k: int| 0 <= k < self.creating@.len() implies (lookup(self.definitions@, #[trigger] self.creating@[k]@) is Some) by {
                        assert(name_views(self.creating@)[k] == self.creating@[k]@);
                    }
                }
                return None;
            }
            proof {
                assert(!c0.push(name@).contains(d.deps_spec()[i as int]));
                assert(!(d.deps_spec()[i as int] == name@)) by {
                    assert(c0.push(name@)[c0.len() as int] == name@);
                }
                assert(!c0.contains(d.deps_spec()[i as int])) by {
                    if c0.contains(d.deps_spec()[i as int]) {
                        let t = choose|t: int| 0 <= t < c0.len() && c0[t] == d.deps_spec()[i as int];
                        assert(c0.push(name@)[t] == c0[t]);
                    }
                }
            }
            let ghost si = *self;
            let _ = self.do_create(deps[i].as_str());
            proof {
                let dep = d.deps_spec()[i as int];
                assert(deps@[i as int]@ == dep);
                assert(si.definition(dep) == old(self).definition(dep));
                assert(si.creating_spec() == c0.push(name@));
                assert forall|j: int|
                    0 <= j < i + 1 && dep_made(old(self).definition(d.deps_spec()[j]), c0.push(name@), d.deps_spec()[j])
                        implies #[trigger] self.singleton(d.deps_spec()[j]) is Some by {
                    if j < i {
                        assert(si.singleton(d.deps_spec()[j]) is Some);
                    } else {
                        assert(j == i);
                        if si.singleton(dep) is None {
                            assert(!si.creating_spec().contains(dep));
                        }
                    }
                }
            }
            i = i + 1;
        }
        let mut snapshot: Vec<(String, D::Bean)> = Vec::new();
        let mut j: usize = 0;
        let ghost st = *self;
        proof {
            assert(d.deps_spec().take(0) =~= Seq::<Seq<char>>::empty());
        }
        while j < deps.len()
            invariant
                j <= deps@.len(),
                self.wf(),
                st == *self,
                deps@.len() == d.deps_spec().len(),
                forall|t: int| 0 <= t < deps@.len() ==> #[trigger] deps@[t]@ == d.deps_spec()[t],
                deps_resolved(snapshot@, d.deps_spec().take(j as int), |n: Seq<char>| st.singleton(n)),
            decreases deps@.len() - j,
        {
            let ghost prev = snapshot@;
            let ghost dep = d.deps_spec()[j as int];
            proof {
                assert(d.deps_spec().take(j + 1).drop_last() =~= d.deps_spec().take(j as int));
                assert(d.deps_spec().take(j + 1).last() == dep);
                assert(deps@[j as int]@ == dep);
            }
            match find_named(&self.singletons, deps[j].as_str()) {
                Some(k) => {
                    let nm = deps[j].clone();
                    let b = self.singletons[k].1.clone();
                    snapshot.push((nm, b));
                    proof {
                        assert(st.singleton(dep) == Some(self.singletons@[k as int].1));
                        assert(snapshot@.drop_last() =~= prev);
                        assert(snapshot@.last() == (nm, b));
                    }
                },
                None => {
                    proof {
                        assert(st.singleton(dep) is None);
                    }
                },
            }
            j = j + 1;
        }
        proof {
            assert(d.deps_spec().take(deps@.len() as int) =~= d.deps_spec());
        }
        let env = self.get_environment();
        let bean = match find_named(&self.definitions, name) {
            None => {
                self.creating.pop();
                proof {
                    assert(false);
                }
                return None;
            },
            Some(k) => {
                let create = D::create_instance;
                let b = create(&self.definitions[k].1, &snapshot, &env);
                proof {
                    assert(self.definitions@[k as int].1 == d);
                    assert(call_ensures(D::create_instance, (&d, &snapshot, &env), b));
                    assert(made_by(d, |n: Seq<char>| st.singleton(n), old(self).environment_spec(), b));
                }
                b
            },
        };
        if scope == BeanScope::Singleton {
            let ghost before = *self;
            self.put_singleton(name, bean.clone());
            proof {
                assert forall|n: Seq<char>| #[trigger] old(self).singleton(n) is Some implies self.singleton(n) == old(self).singleton(n) by {
                    if n == name@ {
                        assert(before.singleton(name@) == old(self).singleton(name@));
                    }
                }
            }
        }
        let ghost pre = self.creating@;
        self.creating.pop();
        proof {
            assert(self.creating@ =~= pre.drop_last());
            assert(name_views(self.creating@) =~= name_views(pre).drop_last());
            assert(name_views(self.creating@) =~= c0);
            assert forall|k: int| 0 <= k < self.creating@.len() implies (lookup(self.definitions@, #[trigger] self.creating@[k]@) is Some) by {
                assert(name_views(self.creating@)[k] == self.creating@[k]@);
            }
            let f = |n: Seq<char>| st.singleton(n);
            let g = |n: Seq<char>| self.singleton(n);
            assert forall|t: int| 0 <= t < d.deps_spec().len() implies f(#[trigger] d.deps_spec()[t]) == g(d.deps_spec()[t]) by {
                assert(d.deps_spec()[t] != name@);
            }
            let (dv, ev) = choose|dv: Vec<(String, D::Bean)>, ev: Vec<(String, String)>|
                #[trigger] call_ensures(D::create_instance, (&d, &dv, &ev), bean) && deps_resolved(dv@, d.deps_spec(), f)
                    && env_view(ev@) == old(self).environment_spec();
            lemma_deps_resolved_agree(dv@, d.deps_spec(), f, g);
            assert(call_ensures(D::create_instance, (&d, &dv, &ev), bean));
            assert(made_by(d, g, old(self).environment_spec(), bean));
        }
        Some(bean)
    }

    /// Registers `def` under `name`, replacing any definition there; the name is appended
    /// to the registration order.
    fn register(&mut self, name: &str, def: D)
        requires
            old(self).wf(),
        ensures
            final(self).wf(),
            forall|n: Seq<char>| final(self).definition(n) == if n == name@ {
                Some(def)
            } else {
                old(self).definition(n)
            },
            final(self).names_spec() == old(self).names_spec().push(name@),
            forall|n: Seq<char>| final(self).singleton(n) == old(self).singleton(n),
            final(self).creating_spec() == old(self).creating_spec(),
            final(self).environment_spec() == old(self).environment_spec(),
    {
        let ghost s0 = self.definitions@;
        let found = find_named(&self.definitions, name);
        let ghost at: int = match found {
            Some(j) => j as int,
            None => s0.len() as int,
        };
        match found {
            Some(j) => {
                self.definitions.set(j, (name.to_owned(), def));
            },
            None => {
                self.definitions.push((name.to_owned(), def));
            },
        }
        let ghost n0 = self.names@;
        self.names.push(name.to_owned());
        proof {
            let s1 = self.definitions@;
            assert(name_views(self.names@) =~= name_views(n0).push(name@));
            assert(s1[at].0@ == name@ && s1[at].1 == def);
            assert forall|i: int| 0 <= i < s1.len() && i != at implies s1[i] == s0[i] by {}
            assert forall|i: int| 0 <= i < s0.len() && i != at implies s0[i].0@ != name@ by {
                if found is Some {
                    if i < at { assert(s0[i].0@ != s0[at].0@); } else { assert(s0[at].0@ != s0[i].0@); }
                }
            }
            assert forall|a: int, b: int| 0 <= a < b < s1.len() implies #[trigger] s1[a].0@ != #[trigger] s1[b].0@ by {
                if a != at && b != at {
                    assert(s1[a] == s0[a] && s1[b] == s0[b]);
                } else if a == at {
                    assert(s1[b] == s0[b]);
                } else {
                    assert(s1[a] == s0[a]);
                }
            }
            assert forall|n: Seq<char>| lookup(s1, n) == if n == name@ { Some(def) } else { lookup(s0, n) } by {
                if n == name@ {
                    let c = choose|c: int| 0 <= c < s1.len() && s1[c].0@ == n;
                    assert(c == at) by {
                        if c != at {
                            if c < at { assert(s1[c].0@ != s1[at].0@); } else { assert(s1[at].0@ != s1[c].0@); }
                        }
                    }
                } else {
                    if exists|i: int| 0 <= i < s1.len() && s1[i].0@ == n {
                        let c1 = choose|c: int| 0 <= c < s1.len() && s1[c].0@ == n;
                        assert(c1 != at);
                        assert(s0[c1].0@ == n);
                        let c0 = choose|c: int| 0 <= c < s0.len() && s0[c].0@ == n;
                        assert(c0 == c1) by {
                            if c0 != c1 {
                                if c0 < c1 { assert(s0[c0].0@ != s0[c1].0@); } else { assert(s0[c1].0@ != s0[c0].0@); }
                            }
                        }
                    }
                    if exists|i: int| 0 <= i < s0.len() && s0[i].0@ == n {
                        let i = choose|i: int| 0 <= i < s0.len() && s0[i].0@ == n;
                        assert(i != at);
                        assert(s1[i].0@ == n);
                    }
                }
            }
            assert forall|k: int| 0 <= k < self.creating@.len() implies (lookup(self.definitions@, #[trigger] self.creating@[k]@) is Some) by {
                assert(lookup(s0, self.creating@[k]@) is Some);
            }
        }
    }

    /// Removes the definition under `name` and the name from the registration order.
    fn unregister(&mut self, name: &str)
        requires
            old(self).wf(),
            !old(self).creating_spec().contains(name@),
        ensures
            final(self).wf(),
            forall|n: Seq<char>| final(self).definition(n) == if n == name@ {
                None
            } else {
                old(self).definition(n)
            },
            final(self).names_spec() == old(self).names_spec().filter(|x: Seq<char>| x != name@),
            forall|n: Seq<char>| final(self).singleton(n) == old(self).singleton(n),
            final(self).creating_spec() == old(self).creating_spec(),
            final(self).environment_spec() == old(self).environment_spec(),
    {
        let ghost s0 = self.definitions@;
        match find_named(&self.definitions, name) {
            Some(j) => {
                let _ = self.definitions.remove(j);
                proof {
                    let s1 = self.definitions@;
                    assert forall|a: int, b: int| 0 <= a < b < s1.len() implies #[trigger] s1[a].0@ != #[trigger] s1[b].0@ by {
                        let a2 = if a < j { a } else { a + 1 };
                        let b2 = if b < j { b } else { b + 1 };
                        assert(s1[a] == s0[a2] && s1[b] == s0[b2]);
                    }
                    assert forall|n: Seq<char>| lookup(s1, n) == if n == name@ { None } else { lookup(s0, n) } by {
                        if exists|i: int| 0 <= i < s1.len() && s1[i].0@ == n {
                            let i = choose|i: int| 0 <= i < s1.len() && s1[i].0@ == n;
                            let i2 = if i < j { i } else { i + 1 };
                            assert(s1[i] == s0[i2]);
                            assert(i2 != j);
                            if n == name@ {
                                assert(s0[j as int].0@ == n);
                                if i2 < j { assert(s0[i2].0@ != s0[j as int].0@); } else { assert(s0[j as int].0@ != s0[i2].0@); }
                            } else {
                                let c = choose|c: int| 0 <= c < s0.len() && s0[c].0@ == n;
                                assert(i2 == c) by {
                                    if i2 != c {
                                        if i2 < c { assert(s0[i2].0@ != s0[c].0@); } else { assert(s0[c].0@ != s0[i2].0@); }
                                    }
                                }
                            }
                        }
                        if n != name@ && exists|i: int| 0 <= i < s0.len() && s0[i].0@ == n {
                            let i = choose|i: int| 0 <= i < s0.len() && s0[i].0@ == n;
                            assert(i != j);
                            let i1 = if i < j { i } else { i - 1 };
                            assert(s1[i1] == s0[i]);
                        }
                    }
                }
            },
            None => {},
        }
        let ghost pred = |x: Seq<char>| x != name@;
        let ghost nv = name_views(self.names@);
        let mut kept: Vec<String> = Vec::new();
        let mut i: usize = 0;
        while i < self.names.len()
            invariant
                i <= self.names@.len(),
                nv == name_views(self.names@),
                pred == (|x: Seq<char>| x != name@),
                name_views(kept@) == nv.take(i as int).filter(pred),
            decreases self.names@.len() - i,
        {
            let ghost prev = kept@;
            if !same_name(&self.names[i], name) {
                kept.push(self.names[i].clone());
            }
            proof {
                reveal(Seq::filter);
                assert(nv.take(i + 1).drop_last() =~= nv.take(i as int));
                assert(nv.take(i + 1).last() == self.names@[i as int]@);
                assert(name_views(kept@) =~= nv.take(i + 1).filter(pred));
            }
            i = i + 1;
        }
        proof {
            assert(nv.take(self.names@.len() as int) =~= nv);
        }
        self.names = kept;
        proof {
            assert forall|k: int| 0 <= k < self.creating@.len() implies (lookup(self.definitions@, #[trigger] self.creating@[k]@) is Some) by {
                assert(lookup(s0, self.creating@[k]@) is Some);
                assert(name_views(self.creating@)[k] == self.creating@[k]@);
                if self.creating@[k]@ == name@ {
                    assert(old(self).creating_spec().contains(name@));
                }
            }
        }
    }

    /// The bean `name`: the singleton made, else a new one (see `do_create`).
    fn get(&mut self, name: &str) -> (r: Option<D::Bean>)
        requires
            old(self).wf(),
        ensures
            final(self).wf(),
            final(self).definitions_spec() == old(self).definitions_spec(),
            final(self).names_spec() == old(self).names_spec(),
            final(self).creating_spec() == old(self).creating_spec(),
            final(self).environment_spec() == old(self).environment_spec(),
            forall|n: Seq<char>|
                #[trigger] old(self).singleton(n) is Some ==> final(self).singleton(n) == old(self).singleton(n),
            old(self).singleton(name@) is Some ==> (r matches Some(b) && cloned(old(self).singleton(name@).unwrap(), b)),
            old(self).singleton(name@) is None ==> match old(self).definition(name@) {
                None => r is None,
                Some(d) => if old(self).creating_spec().contains(name@) || exists|i: int|
                    0 <= i < d.deps_spec().len() && (d.deps_spec()[i] == name@
                        || old(self).creating_spec().contains(#[trigger] d.deps_spec()[i])) {
                    r is None
                } else {
                    &&& r is Some
                    &&& d.scope_spec() == BeanScope::Singleton ==> (final(self).singleton(name@) matches Some(c)
                        && cloned(r.unwrap(), c))
                    &&& made_by(d, |n: Seq<char>| final(self).singleton(n), old(self).environment_spec(), r.unwrap())
                },
            },
    {
        match find_named(&self.singletons, name) {
            Some(j) => Some(self.singletons[j].1.clone()),
            None => self.do_create(name),
        }
    }
}

/// The bean factory that holds definitions by name, keeps the singletons it made, and
/// refuses to make a bean while that bean is being made (a dependency cycle).
pub struct DefaultListableBeanFactory<D: BeanDefinition> where D::Bean: Clone {
    store: BeanStore<D>,
}

impl<D: BeanDefinition> DefaultListableBeanFactory<D> where D::Bean: Clone {
    #[verifier::type_invariant]
    spec fn inv(self) -> bool {
        self.store.wf() && self.store.creating@.len() == 0
    }

    pub closed spec fn definition(&self, n: Seq<char>) -> Option<D> {
        self.store.definition(n)
    }

    pub closed spec fn names_spec(&self) -> Seq<Seq<char>> {
        self.store.names_spec()
    }

    pub closed spec fn singleton(&self, n: Seq<char>) -> Option<D::Bean> {
        self.store.singleton(n)
    }

    pub closed spec fn environment_spec(&self) -> Seq<(Seq<char>, Seq<char>)> {
        self.store.environment_spec()
    }

    /// The number of names that hold a definition.
    pub closed spec fn count_spec(&self) -> nat {
        self.store.definitions@.len()
    }

    fn take_store(&mut self) -> (s: BeanStore<D>)
        ensures
            s == old(self).store,
            s.wf(),
            s.creating_spec().len() == 0,
    {
        proof {
            use_type_invariant(&*self);
        }
        let mut s = BeanStore::new();
        std::mem::swap(&mut s, &mut self.store);
        s
    }

    /// An empty factory.
    pub fn new() -> (r: Self)
        ensures
            forall|n: Seq<char>| r.definition(n) is None && r.singleton(n) is None,
            r.names_spec().len() == 0,
            r.environment_spec().len() == 0,
    {
        DefaultListableBeanFactory { store: BeanStore::new() }
    }

    /// Replaces the environment.
    pub fn set_environment(&mut self, env: Vec<(String, String)>)
        ensures
            final(self).environment_spec() == env@.map_values(|p: (String, String)| (p.0@, p.1@)),
            forall|n: Seq<char>| final(self).definition(n) == old(self).definition(n),
            forall|n: Seq<char>| final(self).singleton(n) == old(self).singleton(n),
            final(self).names_spec() == old(self).names_spec(),
    {
        let mut s = self.take_store();
        s.set_environment(env);
        self.store = s;
    }

    /// A copy of the environment.
    pub fn get_environment(&self) -> (r: Vec<(String, String)>)
        ensures
            r@.map_values(|p: (String, String)| (p.0@, p.1@)) == self.environment_spec(),
    {
        self.store.get_environment()
    }

    /// Forgets every singleton made.
    pub fn destroy_singletons(&mut self)
        ensures
            forall|n: Seq<char>| final(self).singleton(n) is None,
            forall|n: Seq<char>| final(self).definition(n) == old(self).definition(n),
            final(self).names_spec() == old(self).names_spec(),
            final(self).environment_spec() == old(self).environment_spec(),
    {
        let mut s = self.take_store();
        s.destroy_singletons();
        self.store = s;
    }
}

impl<D: BeanDefinition> BeanDefinitionRegistry for DefaultListableBeanFactory<D> where D::Bean: Clone {
    type Definition = D;

    fn register_bean_definition(&mut self, name: &str, bean_definition: D)
        ensures
            forall|n: Seq<char>| final(self).definition(n) == if n == name@ {
                Some(bean_definition)
            } else {
                old(self).definition(n)
            },
            final(self).names_spec() == old(self).names_spec().push(name@),
            forall|n: Seq<char>| final(self).singleton(n) == old(self).singleton(n),
            final(self).environment_spec() == old(self).environment_spec(),
    {
        let mut s = self.take_store();
        s.register(name, bean_definition);
        self.store = s;
    }

    fn remove_bean_definition(&mut self, bean_name: &str)
        ensures
            forall|n: Seq<char>| final(self).definition(n) == if n == bean_name@ {
                None
            } else {
                old(self).definition(n)
            },
            final(self).names_spec() == old(self).names_spec().filter(|x: Seq<char>| x != bean_name@),
            forall|n: Seq<char>| final(self).singleton(n) == old(self).singleton(n),
            final(self).environment_spec() == old(self).environment_spec(),
    {
        let mut s = self.take_store();
        s.unregister(bean_name);
        self.store = s;
    }

    fn contains_bean_definition(&self, bean_name: &str) -> (r: bool)
        ensures
            r == self.definition(bean_name@) is Some,
    {
        proof {
            use_type_invariant(self);
        }
        find_named(&self.store.definitions, bean_name).is_some()
    }

    fn get_bean_definition(&self, bean_name: &str) -> (r: Option<&D>)
        ensures
            match r {
                Some(d) => self.definition(bean_name@) == Some(*d),
                None => self.definition(bean_name@) is None,
            },
    {
        proof {
            use_type_invariant(self);
        }
        match find_named(&self.store.definitions, bean_name) {
            Some(i) => Some(&self.store.definitions[i].1),
            None => None,
        }
    }

    fn get_bean_definition_names(&self) -> (r: Vec<String>)
        ensures
            name_views(r@) == self.names_spec(),
    {
        let mut out: Vec<String> = Vec::new();
        let mut i: usize = 0;
        while i < self.store.names.len()
            invariant
                i <= self.store.names@.len(),
                out@.len() == i,
                name_views(out@) == name_views(self.store.names@).take(i as int),
            decreases self.store.names@.len() - i,
        {
            let ghost prev = out@;
            out.push(self.store.names[i].clone());
            proof {
                assert forall|t: int| 0 <= t < i implies name_views(out@)[t] == name_views(self.store.names@).take(i + 1)[t] by {
                    assert(out@[t] == prev[t]);
                    assert(name_views(prev)[t] == name_views(self.store.names@).take(i as int)[t]);
                }
                assert(name_views(out@) =~= name_views(self.store.names@).take(i + 1));
            }
            i = i + 1;
        }
        proof {
            assert(name_views(self.store.names@).take(self.store.names@.len() as int) =~= name_views(self.store.names@));
        }
        out
    }

    fn get_bean_definition_count(&self) -> (r: usize)
        ensures
            r == self.count_spec(),
    {
        self.store.definitions.len()
    }

    fn is_bean_name_in_use(&self, bean_name: &str) -> (r: bool)
        ensures
            r == (self.definition(bean_name@) is Some || self.singleton(bean_name@) is Some),
    {
        proof {
            use_type_invariant(self);
        }
        find_named(&self.store.definitions, bean_name).is_some() || find_named(&self.store.singletons, bean_name).is_some()
            || contains_name(&self.store.creating, bean_name)
    }
}

impl<D: BeanDefinition> BeanFactory for DefaultListableBeanFactory<D> where D::Bean: Clone {
    type Bean = D::Bean;

    /// The singleton made under `name`, else a bean made now.
    fn get_bean(&mut self, name: &str) -> (r: Option<D::Bean>)
        ensures
            forall|n: Seq<char>| final(self).definition(n) == old(self).definition(n),
            forall|n: Seq<char>|
                #[trigger] old(self).singleton(n) is Some ==> final(self).singleton(n) == old(self).singleton(n),
            old(self).singleton(name@) is Some ==> (r matches Some(b) && cloned(old(self).singleton(name@).unwrap(), b)),
            old(self).singleton(name@) is None ==> match old(self).definition(name@) {
                None => r is None,
                Some(d) => if exists|i: int|
                    0 <= i < d.deps_spec().len() && #[trigger] d.deps_spec()[i] == name@ {
                    r is None
                } else {
                    &&& r is Some
                    &&& d.scope_spec() == BeanScope::Singleton ==> (final(self).singleton(name@) matches Some(c)
                        && cloned(r.unwrap(), c))
                    &&& made_by(d, |n: Seq<char>| final(self).singleton(n), old(self).environment_spec(), r.unwrap())
                },
            },
    {
        let mut s = self.take_store();
        let r = s.get(name);
        self.store = s;
        proof {
            assert((|n: Seq<char>| self.singleton(n)) =~= (|n: Seq<char>| s.singleton(n)));
        }
        r
    }

    /// Whether `name` is a singleton: by its definition, else by a singleton made.
    fn is_singleton(&self, name: &str) -> (r: bool)
        ensures
            r == match self.definition(name@) {
                Some(d) => d.scope_spec() == BeanScope::Singleton,
                None => self.singleton(name@) is Some,
            },
    {
        proof {
            use_type_invariant(self);
        }
        match find_named(&self.store.definitions, name) {
            Some(i) => self.store.definitions[i].1.get_scope() == BeanScope::Singleton,
            None => find_named(&self.store.singletons, name).is_some(),
        }
    }

    fn contains_bean(&self, name: &str) -> (r: bool)
        ensures
            r == (self.definition(name@) is Some || self.singleton(name@) is Some),
    {
        proof {
            use_type_invariant(self);
        }
        find_named(&self.store.definitions, name).is_some() || find_named(&self.store.singletons, name).is_some()
    }

    /// Makes the bean `name`: none without a definition; the singleton made, for a
    /// singleton; none when a dependency is `name` itself (a cycle); else a new instance
    /// from the beans of its dependencies, made first, and the environment. A singleton made
    /// is kept.
    fn do_create_bean(&mut self, name: &str) -> (r: Option<D::Bean>)
        ensures
            forall|n: Seq<char>| final(self).definition(n) == old(self).definition(n),
            forall|n: Seq<char>|
                #[trigger] old(self).singleton(n) is Some ==> final(self).singleton(n) == old(self).singleton(n),
            match old(self).definition(name@) {
                None => r is None,
                Some(d) => if d.scope_spec() == BeanScope::Singleton && old(self).singleton(name@) is Some {
                    r matches Some(b) && cloned(old(self).singleton(name@).unwrap(), b)
                } else if exists|i: int| 0 <= i < d.deps_spec().len() && #[trigger] d.deps_spec()[i] == name@ {
                    r is None
                } else {
                    &&& r is Some
                    &&& d.scope_spec() == BeanScope::Singleton ==> (final(self).singleton(name@) matches Some(c)
                        && cloned(r.unwrap(), c))
                    &&& made_by(d, |n: Seq<char>| final(self).singleton(n), old(self).environment_spec(), r.unwrap())
                    &&& forall|j: int|
                        0 <= j < d.deps_spec().len() && dep_made(
                            old(self).definition(d.deps_spec()[j]),
                            seq![name@],
                            d.deps_spec()[j],
                        ) ==> #[trigger] final(self).singleton(d.deps_spec()[j]) is Some
                },
            },
    {
        let mut s = self.take_store();
        proof {
            assert(s.creating_spec() =~= Seq::<Seq<char>>::empty());
            assert(s.creating_spec().push(name@) =~= seq![name@]);
        }
        let r = s.do_create(name);
        self.store = s;
        proof {
            assert((|n: Seq<char>| self.singleton(n)) =~= (|n: Seq<char>| s.singleton(n)));
        }
        r
    }
}

} // verus!
