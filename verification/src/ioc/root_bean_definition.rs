use vstd::prelude::*;
use crate::ioc::bean_definition::{BeanDefinition, BeanScope, BeanSupplier};

verus! {

/// `std::any::TypeId`, carried through unread.
#[verifier::external_type_specification]
#[verifier::external_body]
pub struct ExTypeId(std::any::TypeId);

/// A bean definition held as plain fields, its instance made by a supplier.
pub struct RootBeanDefinition<S: BeanSupplier> {
    name: String,
    type_id: std::any::TypeId,
    scope: BeanScope,
    is_lazy: bool,
    dependencies: Vec<String>,
    supplier: S,
    condition: Option<(String, String)>,
}

impl<S: BeanSupplier> RootBeanDefinition<S> {
    /// The type of the beans it makes.
    pub closed spec fn type_id_spec(&self) -> std::any::TypeId {
        self.type_id
    }

    /// What makes its beans.
    pub closed spec fn supplier_spec(&self) -> S {
        self.supplier
    }

    pub closed spec fn condition_spec(&self) -> Option<(Seq<char>, Seq<char>)> {
        match self.condition {
            Some((k, v)) => Some((k@, v@)),
            None => None,
        }
    }

    pub fn new(
        name: String,
        type_id: std::any::TypeId,
        scope: BeanScope,
        is_lazy: bool,
        dependencies: Vec<String>,
        supplier: S,
        condition: Option<(String, String)>,
    ) -> (r: Self)
        ensures
            r.name_spec() == name@,
            r.scope_spec() == scope,
            r.lazy_spec() == is_lazy,
            r.type_id_spec() == type_id,
            r.deps_spec() == dependencies@.map_values(|d: String| d@),
            r.condition_spec() == match condition {
                Some((k, v)) => Some((k@, v@)),
                None => None,
            },
    {
        RootBeanDefinition { name, type_id, scope, is_lazy, dependencies, supplier, condition }
    }

    pub fn get_name(&self) -> (r: &str)
        ensures
            r@ == self.name_spec(),
    {
        self.name.as_str()
    }
}

impl<S: BeanSupplier> BeanDefinition for RootBeanDefinition<S> {
    type Bean = S::Bean;

    closed spec fn name_spec(&self) -> Seq<char> {
        self.name@
    }

    closed spec fn scope_spec(&self) -> BeanScope {
        self.scope
    }

    closed spec fn lazy_spec(&self) -> bool {
        self.is_lazy
    }

    closed spec fn deps_spec(&self) -> Seq<Seq<char>> {
        self.dependencies@.map_values(|d: String| d@)
    }

    fn get_bean_class_name(&self) -> (r: &str) {
        self.name.as_str()
    }

    fn set_scope(&mut self, scope: BeanScope) {
        self.scope = scope;
    }

    fn get_scope(&self) -> (r: BeanScope) {
        self.scope
    }

    fn is_lazy_init(&self) -> (r: bool) {
        self.is_lazy
    }

    fn set_lazy_init(&mut self, lazy: bool) {
        self.is_lazy = lazy;
    }

    /// The type it was made with.
    fn get_type_id(&self) -> (r: std::any::TypeId)
        ensures
            r == self.type_id_spec(),
    {
        self.type_id
    }

    /// Whether `annotation` is `RootBeanDefinition`.
    fn has_annotation(&self, annotation: &str) -> (r: bool)
        ensures
            r == (annotation@ == "RootBeanDefinition"@),
    {
        let own = "RootBeanDefinition".to_owned();
        String::eq(&annotation.to_owned(), &own)
    }

    /// What its supplier makes of `deps` and `env`.
    fn create_instance(&self, deps: &Vec<(String, S::Bean)>, env: &Vec<(String, String)>) -> (r: S::Bean)
        ensures
            call_ensures(S::supply, (&self.supplier_spec(), deps, env), r),
    {
        let supply = S::supply;
        supply(&self.supplier, deps, env)
    }

    fn get_dependencies(&self) -> (r: Vec<String>) {
        let mut out: Vec<String> = Vec::new();
        let mut i: usize = 0;
        while i < self.dependencies.len()
            invariant
                i <= self.dependencies@.len(),
                out@.len() == i,
                forall|j: int| 0 <= j < i ==> #[trigger] out@[j]@ == self.dependencies@[j]@,
            decreases self.dependencies@.len() - i,
        {
            out.push(self.dependencies[i].clone());
            i = i + 1;
        }
        out
    }

    fn get_condition(&self) -> (r: Option<(&str, &str)>)
        ensures
            match r {
                Some((k, v)) => self.condition_spec() == Some((k@, v@)),
                None => self.condition_spec() is None,
            },
    {
        match &self.condition {
            Some((k, v)) => Some((k.as_str(), v.as_str())),
            None => None,
        }
    }
}

} // verus!
