use vstd::prelude::*;
use crate::ioc::application_context::{ApplicationContext, ConfigurableApplicationContext};
use crate::ioc::bean_definition::{BeanDefinition, BeanScope};
use crate::ioc::bean_factory::{BeanDefinitionRegistry, BeanFactory};
use crate::ioc::default_listable_bean_factory::{dep_made, made_by, name_views, DefaultListableBeanFactory};

verus! {

/// A context over a `DefaultListableBeanFactory`: refreshing makes every eager singleton,
/// closing forgets the singletons.
pub struct AbstractApplicationContext<D: BeanDefinition> where D::Bean: Clone {
    bean_factory: DefaultListableBeanFactory<D>,
}

/// A singleton that refreshing makes: registered, not lazy, and not depending on itself.
pub open spec fn eager_singleton<D: BeanDefinition>(def: Option<D>, n: Seq<char>) -> bool {
    match def {
        Some(d) => !d.lazy_spec() && d.scope_spec() == BeanScope::Singleton && !d.deps_spec().contains(n),
        None => false,
    }
}

impl<D: BeanDefinition> AbstractApplicationContext<D> where D::Bean: Clone {
    pub closed spec fn factory(&self) -> DefaultListableBeanFactory<D> {
        self.bean_factory
    }

    /// A context with an empty factory.
    pub fn new() -> (r: Self)
        ensures
            forall|n: Seq<char>| r.factory().definition(n) is None && r.factory().singleton(n) is None,
            r.factory().names_spec().len() == 0,
            r.factory().environment_spec().len() == 0,
    {
        AbstractApplicationContext { bean_factory: DefaultListableBeanFactory::new() }
    }

    pub fn set_environment(&mut self, environment: Vec<(String, String)>)
        ensures
            final(self).factory().environment_spec() == environment@.map_values(
                |p: (String, String)| (p.0@, p.1@),
            ),
            forall|n: Seq<char>| final(self).factory().definition(n) == old(self).factory().definition(n),
            forall|n: Seq<char>| final(self).factory().singleton(n) == old(self).factory().singleton(n),
            final(self).factory().names_spec() == old(self).factory().names_spec(),
    {
        self.bean_factory.set_environment(environment);
    }

    pub fn get_environment(&self) -> (r: Vec<(String, String)>)
        ensures
            r@.map_values(|p: (String, String)| (p.0@, p.1@)) == self.factory().environment_spec(),
    {
        self.bean_factory.get_environment()
    }
}

impl<D: BeanDefinition> ConfigurableApplicationContext for AbstractApplicationContext<D> where
    D::Bean: Clone,
 {
    /// Makes every registered singleton that is not lazy, in the order of registration.
    fn refresh(&mut self)
        ensures
            forall|n: Seq<char>| final(self).factory().definition(n) == old(self).factory().definition(n),
            forall|n: Seq<char>|
                #[trigger] old(self).factory().singleton(n) is Some ==> final(self).factory().singleton(n)
                    == old(self).factory().singleton(n),
            forall|i: int|
                0 <= i < old(self).factory().names_spec().len() && eager_singleton(
                    old(self).factory().definition(#[trigger] old(self).factory().names_spec()[i]),
                    old(self).factory().names_spec()[i],
                ) ==> final(self).factory().singleton(old(self).factory().names_spec()[i]) is Some,
    {
        let names = self.bean_factory.get_bean_definition_names();
        let ghost f0 = self.bean_factory;
        let mut i: usize = 0;
        while i < names.len()
            invariant
                i <= names@.len(),
                name_views(names@) == f0.names_spec(),
                forall|n: Seq<char>| self.bean_factory.definition(n) == f0.definition(n),
                f0 == old(self).bean_factory,
                forall|n: Seq<char>|
                    #[trigger] f0.singleton(n) is Some ==> self.bean_factory.singleton(n) == f0.singleton(n),
                forall|j: int|
                    0 <= j < i && eager_singleton(f0.definition(#[trigger] name_views(names@)[j]), name_views(names@)[j])
                        ==> self.bean_factory.singleton(name_views(names@)[j]) is Some,
            decreases names@.len() - i,
        {
            let eager = match self.bean_factory.get_bean_definition(names[i].as_str()) {
                Some(definition) => !definition.is_lazy_init() && definition.get_scope() == BeanScope::Singleton,
                None => false,
            };
            if eager {
                let _ = self.bean_factory.do_create_bean(names[i].as_str());
                proof {
                    let n = names@[i as int]@;
                    assert(name_views(names@)[i as int] == n);
                    if eager_singleton(f0.definition(n), n) {
                        let d = f0.definition(n).unwrap();
                        assert(!(exists|k: int| 0 <= k < d.deps_spec().len() && #[trigger] d.deps_spec()[k] == n));
                    }
                }
            }
            proof {
                let n = names@[i as int]@;
                assert(name_views(names@)[i as int] == n);
            }
            i = i + 1;
        }
    }

    /// Forgets every singleton.
    fn close(&mut self)
        ensures
            forall|n: Seq<char>| final(self).factory().singleton(n) is None,
            forall|n: Seq<char>| final(self).factory().definition(n) == old(self).factory().definition(n),
    {
        self.bean_factory.destroy_singletons();
    }

    fn is_active(&self) -> (r: bool)
        ensures
            r,
    {
        true
    }
}

impl<D: BeanDefinition> ApplicationContext for AbstractApplicationContext<D> where D::Bean: Clone {
    type Bean = D::Bean;

    fn get_bean(&mut self, name: &str) -> (r: Option<D::Bean>)
        ensures
            forall|n: Seq<char>| final(self).factory().definition(n) == old(self).factory().definition(n),
            forall|n: Seq<char>|
                #[trigger] old(self).factory().singleton(n) is Some ==> final(self).factory().singleton(n)
                    == old(self).factory().singleton(n),
            old(self).factory().singleton(name@) is Some ==> (r matches Some(b) && cloned(
                old(self).factory().singleton(name@).unwrap(),
                b,
            )),
            old(self).factory().singleton(name@) is None ==> match old(self).factory().definition(name@) {
                None => r is None,
                Some(d) => if exists|i: int|
                    0 <= i < d.deps_spec().len() && #[trigger] d.deps_spec()[i] == name@ {
                    r is None
                } else {
                    &&& r is Some
                    &&& d.scope_spec() == BeanScope::Singleton ==> (final(self).factory().singleton(name@) matches Some(c)
                        && cloned(r.unwrap(), c))
                    &&& made_by(
                        d,
                        |n: Seq<char>| final(self).factory().singleton(n),
                        old(self).factory().environment_spec(),
                        r.unwrap(),
                    )
                },
            },
    {
        let r = self.bean_factory.get_bean(name);
        proof {
            assert((|n: Seq<char>| self.factory().singleton(n)) =~= (|n: Seq<char>| self.bean_factory.singleton(n)));
        }
        r
    }

    fn is_singleton(&self, name: &str) -> (r: bool)
        ensures
            r == match self.factory().definition(name@) {
                Some(d) => d.scope_spec() == BeanScope::Singleton,
                None => self.factory().singleton(name@) is Some,
            },
    {
        self.bean_factory.is_singleton(name)
    }

    fn contains_bean(&self, name: &str) -> (r: bool)
        ensures
            r == (self.factory().definition(name@) is Some || self.factory().singleton(name@) is Some),
    {
        self.bean_factory.contains_bean(name)
    }

    /// Makes the bean `name` (see `DefaultListableBeanFactory::do_create_bean`): none without
    /// a definition or when it depends on itself; the kept instance of a made singleton; else
    /// a new instance, kept when a singleton.
    fn do_create_bean(&mut self, name: &str) -> (r: Option<D::Bean>)
        ensures
            forall|n: Seq<char>| final(self).factory().definition(n) == old(self).factory().definition(n),
            forall|n: Seq<char>|
                #[trigger] old(self).factory().singleton(n) is Some ==> final(self).factory().singleton(n)
                    == old(self).factory().singleton(n),
            match old(self).factory().definition(name@) {
                None => r is None,
                Some(d) => if d.scope_spec() == BeanScope::Singleton && old(self).factory().singleton(name@) is Some {
                    r matches Some(b) && cloned(old(self).factory().singleton(name@).unwrap(), b)
                } else if exists|i: int| 0 <= i < d.deps_spec().len() && #[trigger] d.deps_spec()[i] == name@ {
                    r is None
                } else {
                    &&& r is Some
                    &&& d.scope_spec() == BeanScope::Singleton ==> (final(self).factory().singleton(name@) matches Some(c)
                        && cloned(r.unwrap(), c))
                    &&& made_by(
                        d,
                        |n: Seq<char>| final(self).factory().singleton(n),
                        old(self).factory().environment_spec(),
                        r.unwrap(),
                    )
                    &&& forall|j: int|
                        0 <= j < d.deps_spec().len() && dep_made(
                            old(self).factory().definition(d.deps_spec()[j]),
                            seq![name@],
                            d.deps_spec()[j],
                        ) ==> #[trigger] final(self).factory().singleton(d.deps_spec()[j]) is Some
                },
            },
    {
        let r = self.bean_factory.do_create_bean(name);
        proof {
            assert((|n: Seq<char>| self.factory().singleton(n)) =~= (|n: Seq<char>| self.bean_factory.singleton(n)));
        }
        r
    }
}

impl<D: BeanDefinition> BeanDefinitionRegistry for AbstractApplicationContext<D> where D::Bean: Clone {
    type Definition = D;

    fn register_bean_definition(&mut self, name: &str, bean_definition: D)
        ensures
            final(self).factory().definition(name@) == Some(bean_definition),
            final(self).factory().names_spec() == old(self).factory().names_spec().push(name@),
    {
        self.bean_factory.register_bean_definition(name, bean_definition);
    }

    fn remove_bean_definition(&mut self, bean_name: &str)
        ensures
            final(self).factory().definition(bean_name@) is None,
    {
        self.bean_factory.remove_bean_definition(bean_name);
    }

    fn contains_bean_definition(&self, bean_name: &str) -> (r: bool)
        ensures
            r == self.factory().definition(bean_name@) is Some,
    {
        self.bean_factory.contains_bean_definition(bean_name)
    }

    fn get_bean_definition(&self, bean_name: &str) -> (r: Option<&D>)
        ensures
            match r {
                Some(d) => self.factory().definition(bean_name@) == Some(*d),
                None => self.factory().definition(bean_name@) is None,
            },
    {
        self.bean_factory.get_bean_definition(bean_name)
    }

    fn get_bean_definition_names(&self) -> (r: Vec<String>)
        ensures
            name_views(r@) == self.factory().names_spec(),
    {
        self.bean_factory.get_bean_definition_names()
    }

    fn get_bean_definition_count(&self) -> (r: usize)
        ensures
            r == self.factory().count_spec(),
    {
        self.bean_factory.get_bean_definition_count()
    }

    fn is_bean_name_in_use(&self, bean_name: &str) -> (r: bool)
        ensures
            r == (self.factory().definition(bean_name@) is Some || self.factory().singleton(bean_name@) is Some),
    {
        self.bean_factory.is_bean_name_in_use(bean_name)
    }
}

} // verus!
