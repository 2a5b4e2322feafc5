use std::any::TypeId;
use std::cell::Cell;
use std::rc::Rc;

use arookieofcdb::ioc::{
    AbstractApplicationContext, ApplicationContext, BeanDefinition, BeanDefinitionRegistry,
    BeanFactory, BeanScope, BeanSupplier, ConfigurableApplicationContext,
    DefaultListableBeanFactory, RootBeanDefinition,
};

/// Makes a text naming its label, how many instances it has made, and its dependencies.
struct Make {
    label: &'static str,
    calls: Rc<Cell<u32>>,
}

impl BeanSupplier for Make {
    type Bean = String;

    fn supply(&self, deps: &Vec<(String, String)>, env: &Vec<(String, String)>) -> String {
        self.calls.set(self.calls.get() + 1);
        let mut out = format!("{}#{}", self.label, self.calls.get());
        for (name, bean) in deps {
            out.push_str(&format!("[{name}={bean}]"));
        }
        for (k, v) in env {
            if k == "suffix" {
                out.push_str(v);
            }
        }
        out
    }
}

fn definition(
    name: &str,
    scope: BeanScope,
    lazy: bool,
    deps: &[&str],
    calls: &Rc<Cell<u32>>,
) -> RootBeanDefinition<Make> {
    RootBeanDefinition::new(
        name.to_string(),
        TypeId::of::<String>(),
        scope,
        lazy,
        deps.iter().map(|d| d.to_string()).collect(),
        Make {
            label: if name == "a" { "A" } else { "B" },
            calls: Rc::clone(calls),
        },
        None,
    )
}

type Factory = DefaultListableBeanFactory<RootBeanDefinition<Make>>;

#[test]
fn singletons_are_made_once_and_dependencies_first() {
    let calls = Rc::new(Cell::new(0));
    let mut factory: Factory = DefaultListableBeanFactory::new();
    factory.register_bean_definition("a", definition("a", BeanScope::Singleton, false, &[], &calls));
    factory.register_bean_definition("b", definition("b", BeanScope::Singleton, false, &["a"], &calls));

    assert_eq!(factory.get_bean("b"), Some("B#2[a=A#1]".to_string()));
    assert_eq!(factory.get_bean("a"), Some("A#1".to_string()));
    assert_eq!(factory.get_bean("b"), Some("B#2[a=A#1]".to_string()));
    assert_eq!(calls.get(), 2);
    assert!(factory.is_singleton("a"));
    assert!(factory.contains_bean("b"));
    assert!(!factory.contains_bean("c"));
    assert_eq!(factory.get_bean("c"), None);
}

#[test]
fn prototypes_are_made_anew() {
    let calls = Rc::new(Cell::new(0));
    let mut factory: Factory = DefaultListableBeanFactory::new();
    factory.register_bean_definition("p", definition("p", BeanScope::Prototype, false, &[], &calls));
    assert_eq!(factory.get_bean("p"), Some("B#1".to_string()));
    assert_eq!(factory.get_bean("p"), Some("B#2".to_string()));
    assert!(!factory.is_singleton("p"));
}

#[test]
fn a_bean_that_depends_on_itself_is_not_made() {
    let calls = Rc::new(Cell::new(0));
    let mut factory: Factory = DefaultListableBeanFactory::new();
    factory.register_bean_definition("c", definition("c", BeanScope::Singleton, false, &["c"], &calls));
    assert_eq!(factory.get_bean("c"), None);
    assert_eq!(factory.do_create_bean("c"), None);
    assert_eq!(calls.get(), 0);
}

#[test]
fn registry_lists_names_in_order_and_removes() {
    let calls = Rc::new(Cell::new(0));
    let mut factory: Factory = DefaultListableBeanFactory::new();
    factory.register_bean_definition("x", definition("x", BeanScope::Singleton, true, &[], &calls));
    factory.register_bean_definition("y", definition("y", BeanScope::Singleton, true, &[], &calls));
    assert_eq!(factory.get_bean_definition_names(), vec!["x".to_string(), "y".to_string()]);
    assert_eq!(factory.get_bean_definition_count(), 2);
    assert!(factory.is_bean_name_in_use("x"));
    let def = factory.get_bean_definition("y").expect("definition of y");
    assert_eq!(def.get_bean_class_name(), "y");
    assert!(def.is_lazy_init());
    assert!(def.has_annotation("RootBeanDefinition"));
    assert!(!def.has_annotation("Other"));
    factory.remove_bean_definition("x");
    assert!(!factory.contains_bean_definition("x"));
    assert_eq!(factory.get_bean_definition_names(), vec!["y".to_string()]);
}

#[test]
fn environment_reaches_the_supplier() {
    let calls = Rc::new(Cell::new(0));
    let mut factory: Factory = DefaultListableBeanFactory::new();
    factory.set_environment(vec![("suffix".to_string(), "!".to_string())]);
    assert_eq!(factory.get_environment(), vec![("suffix".to_string(), "!".to_string())]);
    factory.register_bean_definition("a", definition("a", BeanScope::Prototype, false, &[], &calls));
    assert_eq!(factory.get_bean("a"), Some("A#1!".to_string()));
}

#[test]
fn refresh_makes_eager_singletons_and_close_forgets_them() {
    let calls = Rc::new(Cell::new(0));
    let mut context: AbstractApplicationContext<RootBeanDefinition<Make>> =
        AbstractApplicationContext::new();
    context.register_bean_definition("a", definition("a", BeanScope::Singleton, false, &[], &calls));
    context.register_bean_definition("b", definition("b", BeanScope::Singleton, true, &[], &calls));
    context.register_bean_definition("p", definition("p", BeanScope::Prototype, false, &[], &calls));
    context.refresh();
    assert_eq!(calls.get(), 1);
    assert!(context.is_active());
    assert_eq!(context.get_bean("a"), Some("A#1".to_string()));
    assert_eq!(calls.get(), 1);
    context.close();
    assert_eq!(context.get_bean("a"), Some("A#2".to_string()));
}

#[test]
fn destroyed_singletons_are_made_again() {
    let calls = Rc::new(Cell::new(0));
    let mut factory: Factory = DefaultListableBeanFactory::new();
    factory.register_bean_definition("a", definition("a", BeanScope::Singleton, false, &[], &calls));
    assert_eq!(factory.get_bean("a"), Some("A#1".to_string()));
    factory.destroy_singletons();
    assert!(factory.contains_bean("a"));
    assert_eq!(factory.get_bean_definition_count(), 1);
    assert_eq!(factory.get_bean("a"), Some("A#2".to_string()));
    assert_eq!(factory.get_bean("a"), Some("A#2".to_string()));
}
