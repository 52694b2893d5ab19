use crustivity_core::world::{
    Effect, Event, Mut, Ref, RefKind, RefKindVariant, Resource, Task, TaskData, TaskDataInternal,
    TaskDyn, TaskParameter, TaskParameterDyn, Variable, VariableDyn, VariableRegister,
};
use std::any::TypeId;

struct Clicked;

#[derive(Clone)]
struct NoVars;

impl TaskDataInternal for NoVars {
    fn register_vars(&self, _register: &mut dyn VariableRegister) {}
}

struct Job;

impl TaskData for Job {
    type Vars = NoVars;
}

#[test]
fn variable_erases_and_downcasts_back() {
    let v: Variable<u32> = Variable::from_index(7);
    let d = v.erase();
    assert_eq!(d.index(), 7);
    assert_eq!(d.tid(), TypeId::of::<u32>());
    assert_eq!(d.downcast::<u32>().map(|v| v.index()), Some(7));
    assert!(d.downcast::<i32>().is_none());
}

#[test]
fn erased_variables_compare_by_index_and_type() {
    let a = VariableDyn::new(1, TypeId::of::<u8>());
    assert!(a == VariableDyn::new(1, TypeId::of::<u8>()));
    assert!(a != VariableDyn::new(2, TypeId::of::<u8>()));
    assert!(a != VariableDyn::new(1, TypeId::of::<u16>()));
}

#[test]
fn task_erases_and_downcasts_back() {
    let t: Task<Job> = Task::from_index(3);
    let d = t.erase();
    assert_eq!(d.index(), 3);
    assert_eq!(d.tid(), TypeId::of::<Job>());
    assert_eq!(d.downcast::<Job>().map(|t| t.index()), Some(3));
    let other = TaskDyn::new(3, TypeId::of::<u8>());
    assert!(other.downcast::<Job>().is_none());
    assert!(d != other);
}

#[test]
fn markers_become_parameters_of_their_kind() {
    assert!(matches!(TaskParameter::<u8>::from(Event::<u8>()), TaskParameter::Event));
    assert!(matches!(TaskParameter::<u8>::from(Effect::<u8>()), TaskParameter::Effect));
    assert!(matches!(TaskParameter::<u8>::from(Resource::<u8>()), TaskParameter::Resource));
    assert!(matches!(TaskParameter::<u8>::from(Event::<u8>), TaskParameter::Event));
    let v: Variable<u8> = Variable::from_index(5);
    assert!(matches!(TaskParameter::from(v), TaskParameter::Variable(w) if w.index() == 5));
}

#[test]
fn parameters_erase_with_their_type() {
    assert!(TaskParameter::<Clicked>::Event.erase() == TaskParameterDyn::Event(TypeId::of::<Clicked>()));
    assert!(TaskParameter::<u8>::Effect.erase() == TaskParameterDyn::Effect(TypeId::of::<u8>()));
    assert!(TaskParameter::<u8>::Resource.erase() != TaskParameterDyn::Effect(TypeId::of::<u8>()));
    let v: Variable<u8> = Variable::from_index(2);
    assert!(
        TaskParameter::Variable(v).erase()
            == TaskParameterDyn::Variable(VariableDyn::new(2, TypeId::of::<u8>()))
    );
}

#[test]
fn ref_kinds_mark_their_parameters() {
    assert_eq!(<Ref<'static, u8> as RefKind<u8>>::variant(), RefKindVariant::Ref);
    assert_eq!(<Mut<'static, u8> as RefKind<u8>>::variant(), RefKindVariant::Mut);
    let marked = <Mut<'static, u8> as RefKind<u8>>::variant_for(TaskParameter::<u16>::Effect);
    assert_eq!(marked.ref_kind(), RefKindVariant::Mut);
    assert!(matches!(marked.param(), TaskParameter::Effect));
}

#[test]
fn ref_and_mut_give_access_to_the_value() {
    let x = 4u32;
    let r = Ref::new(&x);
    assert_eq!(*r, 4);
    let mut y = String::from("a");
    {
        let mut m = Mut::new(&mut y);
        m.push('b');
        assert_eq!(m.len(), 2);
    }
    assert_eq!(y, "ab");
}
