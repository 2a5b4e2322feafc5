pub mod abstract_application_context;
pub mod application;
pub mod application_context;
pub mod bean_definition;
pub mod bean_factory;
pub mod default_listable_bean_factory;
pub mod root_bean_definition;

pub use abstract_application_context::AbstractApplicationContext;
pub use application_context::{ApplicationContext, ConfigurableApplicationContext};
pub use bean_definition::{BeanDefinition, BeanScope, BeanSupplier};
pub use bean_factory::{BeanDefinitionRegistry, BeanFactory};
pub use default_listable_bean_factory::{BeanStore, DefaultListableBeanFactory};
pub use root_bean_definition::RootBeanDefinition;
