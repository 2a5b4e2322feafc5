use vstd::prelude::*;

verus! {

/// An application context: it gives out beans by name.
pub trait ApplicationContext {
    type Bean;

    fn get_bean(&mut self, name: &str) -> Option<Self::Bean>;

    fn is_singleton(&self, name: &str) -> bool;

    fn contains_bean(&self, name: &str) -> bool;

    fn do_create_bean(&mut self, name: &str) -> Option<Self::Bean>;
}

/// An application context that can be started and closed.
pub trait ConfigurableApplicationContext: ApplicationContext {
    fn refresh(&mut self);

    fn close(&mut self);

    fn is_active(&self) -> bool;
}

} // verus!
