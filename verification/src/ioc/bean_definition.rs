use vstd::prelude::*;

verus! {

/// How many instances a definition makes: one, kept; or a new one per request.
#[derive(Debug, Clone, Copy, PartialEq, Eq, Structural)]
pub enum BeanScope {
    Singleton,
    Prototype,
}

/// What makes a bean's instance from the instances of its dependencies and the
/// environment. Users implement it.
pub trait BeanSupplier {
    type Bean;

    fn supply(&self, deps: &Vec<(String, Self::Bean)>, env: &Vec<(String, String)>) -> Self::Bean;
}

/// A bean definition: its name, scope, laziness, dependencies and condition, and how its
/// instance is made.
pub trait BeanDefinition {
    type Bean;

    spec fn name_spec(&self) -> Seq<char>;

    spec fn scope_spec(&self) -> BeanScope;

    spec fn lazy_spec(&self) -> bool;

    spec fn deps_spec(&self) -> Seq<Seq<char>>;

    fn get_bean_class_name(&self) -> (r: &str)
        ensures
            r@ == self.name_spec(),
    ;

    fn set_scope(&mut self, scope: BeanScope)
        ensures
            final(self).scope_spec() == scope,
            final(self).name_spec() == old(self).name_spec(),
            final(self).lazy_spec() == old(self).lazy_spec(),
            final(self).deps_spec() == old(self).deps_spec(),
    ;

    fn get_scope(&self) -> (r: BeanScope)
        ensures
            r == self.scope_spec(),
    ;

    fn is_lazy_init(&self) -> (r: bool)
        ensures
            r == self.lazy_spec(),
    ;

    fn set_lazy_init(&mut self, lazy: bool)
        ensures
            final(self).lazy_spec() == lazy,
            final(self).name_spec() == old(self).name_spec(),
            final(self).scope_spec() == old(self).scope_spec(),
            final(self).deps_spec() == old(self).deps_spec(),
    ;

    fn get_type_id(&self) -> std::any::TypeId;

    fn has_annotation(&self, annotation: &str) -> bool;

    fn create_instance(&self, deps: &Vec<(String, Self::Bean)>, env: &Vec<(String, String)>) -> Self::Bean;

    fn get_dependencies(&self) -> (r: Vec<String>)
        ensures
            r@.len() == self.deps_spec().len(),
            forall|i: int| 0 <= i < r@.len() ==> #[trigger] r@[i]@ == self.deps_spec()[i],
    ;

    fn get_condition(&self) -> Option<(&str, &str)>;
}

} // verus!
