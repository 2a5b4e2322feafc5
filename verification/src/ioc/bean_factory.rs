use vstd::prelude::*;

verus! {

/// Gives out beans by name.
pub trait BeanFactory {
    type Bean;

    fn get_bean(&mut self, name: &str) -> Option<Self::Bean>;

    fn is_singleton(&self, name: &str) -> bool;

    fn contains_bean(&self, name: &str) -> bool;

    fn do_create_bean(&mut self, name: &str) -> Option<Self::Bean>;
}

/// Holds bean definitions by name.
pub trait BeanDefinitionRegistry {
    type Definition;

    fn register_bean_definition(&mut self, name: &str, bean_definition: Self::Definition);

    fn remove_bean_definition(&mut self, bean_name: &str);

    fn contains_bean_definition(&self, bean_name: &str) -> bool;

    fn get_bean_definition(&self, bean_name: &str) -> Option<&Self::Definition>;

    fn get_bean_definition_names(&self) -> Vec<String>;

    fn get_bean_definition_count(&self) -> usize;

    fn is_bean_name_in_use(&self, bean_name: &str) -> bool;
}

} // verus!
