//! Core data structures of a reactive constraint runtime: a stable vector,
//! the typed and erased handles of the runtime, and the constraint planner.
use crate::constraints::ConstraintBuilder;
use crate::world::{Component, Task, TaskData, TaskDyn, Variable, VariableDyn};
use std::any::TypeId;
use vstd::prelude::*;

pub mod constraints;
pub mod stable_vec;
pub mod world;

verus! {

/// What a runtime offers to create its data: variables, resources, effects,
/// events, and constraints from tasks.
pub trait WorldDataCreator {
    fn variable<T: Component>(&self, t: T) -> Variable<T>;

    fn variable_named<T: Component>(&self, t: T, name: String) -> Variable<T>;

    fn resource<T: Component>(&self, t: T) -> Result<(), T>;

    fn resource_named<T: Component>(&self, t: T, name: String) -> Result<(), T>;

    fn register_effect<T: Component + Default>(&self);

    fn register_effect_named<T: Component + Default>(&self, name: String);

    fn register_event<T: Component>(&self, t: T) -> Result<(), T>;

    fn register_event_named<T: Component>(&self, t: T, name: String) -> Result<(), T>;

    fn constraint<T: TaskData>(&self, task: Task<T>) -> ConstraintBuilder;
}

/// What a runtime offers to look up the names given to its data.
pub trait WorldNameAccess {
    fn variable_name<T: Component>(&self, var: Variable<T>) -> Option<String>;

    fn variable_name_dyn(&self, var: VariableDyn) -> Option<String>;

    fn task_name<T: TaskData>(&self, task: Task<T>) -> Option<String>;

    fn task_name_dyn(&self, task: TaskDyn) -> Option<String>;

    fn event_name<T: Component>(&self) -> Option<String>;

    fn event_name_dyn(&self, event: TypeId) -> Option<String>;

    fn effect_name<T: Component>(&self) -> Option<String>;

    fn effect_name_dyn(&self, effect: TypeId) -> Option<String>;

    fn resource_name<T: Component>(&self) -> Option<String>;

    fn resource_name_dyn(&self, resource: TypeId) -> Option<String>;
}

} // verus!
