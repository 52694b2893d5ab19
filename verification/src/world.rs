//! Typed and erased handles of the runtime's variables, tasks and parameters.
//! A typed handle carries its component type in its type; erasing it keeps
//! its index and records the type as a `TypeId`, and downcasting an erased
//! handle gives the typed handle back only for the recorded type.
use std::any::TypeId;
use std::marker::PhantomData;
use vstd::prelude::*;

verus! {

#[verifier::external_type_specification]
#[verifier::external_body]
pub struct ExTypeId(TypeId);

/// Calls `TypeId::of::<T>()`. Nothing is claimed of the result.
#[verifier::external_body]
fn type_id_of<T: ?Sized + 'static>() -> TypeId {
    TypeId::of::<T>()
}

/// Compares two `TypeId`s with `==`. Claimed: the comparison is the equality
/// of the two values, as the documentation of `TypeId` says that two ids are
/// equal exactly when they belong to the same type.
#[verifier::external_body]
fn type_id_eq(a: &TypeId, b: &TypeId) -> (r: bool)
    ensures
        r == (*a == *b),
{
    *a == *b
}

/// A value that the runtime can store and hand to tasks.
pub trait Component: Send + Sync + 'static {}

impl<T: Send + Sync + 'static> Component for T {}

/// A typed handle to a variable of type `T`.
pub struct Variable<T> {
    pub(crate) index: usize,
    pub(crate) _t: PhantomData<T>,
}

impl<T> View for Variable<T> {
    type V = usize;

    /// The index of the variable in the table of its type.
    closed spec fn view(&self) -> usize {
        self.index
    }
}

impl<T> Clone for Variable<T> {
    fn clone(&self) -> (r: Self)
        ensures
            r == *self,
    {
        Self { index: self.index, _t: PhantomData }
    }
}

impl<T> Copy for Variable<T> {}

/// A variable handle whose type is recorded as a `TypeId`.
#[derive(Clone, Copy, PartialOrd, Ord, Hash, Debug)]
pub struct VariableDyn {
    pub(crate) index: usize,
    pub(crate) tid: TypeId,
}

impl View for VariableDyn {
    type V = (usize, TypeId);

    /// The index and the type of the variable.
    closed spec fn view(&self) -> (usize, TypeId) {
        (self.index, self.tid)
    }
}

impl PartialEq for VariableDyn {
    fn eq(&self, other: &Self) -> (r: bool) {
        self.index == other.index && type_id_eq(&self.tid, &other.tid)
    }
}

impl vstd::std_specs::cmp::PartialEqSpecImpl for VariableDyn {
    open spec fn obeys_eq_spec() -> bool {
        true
    }

    open spec fn eq_spec(&self, other: &Self) -> bool {
        self@ == other@
    }
}

impl Eq for VariableDyn {}

/// The vars of a task: registers each parameter with the way the task uses it.
pub trait TaskDataInternal: Clone + Component {
    fn register_vars(&self, register: &mut dyn VariableRegister);
}

/// The tuple of component types that a task works on.
pub trait TaskData: 'static {
    type Vars: TaskDataInternal;
}

/// A typed handle to a task.
pub struct Task<D: TaskData> {
    pub(crate) index: usize,
    pub(crate) _t: PhantomData<D::Vars>,
}

impl<D: TaskData> View for Task<D> {
    type V = usize;

    /// The index of the task in the table of its type.
    closed spec fn view(&self) -> usize {
        self.index
    }
}

impl<D: TaskData> Clone for Task<D> {
    fn clone(&self) -> (r: Self)
        ensures
            r == *self,
    {
        Self { index: self.index, _t: PhantomData }
    }
}

impl<D: TaskData> Copy for Task<D> {}

/// A task handle whose type is recorded as a `TypeId`.
#[derive(Clone, Copy, PartialOrd, Ord, Hash, Debug)]
pub struct TaskDyn {
    pub(crate) index: usize,
    pub(crate) tid: TypeId,
}

impl View for TaskDyn {
    type V = (usize, TypeId);

    /// The index and the type of the task.
    closed spec fn view(&self) -> (usize, TypeId) {
        (self.index, self.tid)
    }
}

impl PartialEq for TaskDyn {
    fn eq(&self, other: &Self) -> (r: bool) {
        self.index == other.index && type_id_eq(&self.tid, &other.tid)
    }
}

impl vstd::std_specs::cmp::PartialEqSpecImpl for TaskDyn {
    open spec fn obeys_eq_spec() -> bool {
        true
    }

    open spec fn eq_spec(&self, other: &Self) -> bool {
        self@ == other@
    }
}

impl Eq for TaskDyn {}

/// Where a task finds a value of type `T`: a variable, the current event,
/// the pending effect or the resource of that type.
pub enum TaskParameter<T> {
    Variable(Variable<T>),
    Event,
    Effect,
    Resource,
}

impl<T> Clone for TaskParameter<T> {
    fn clone(&self) -> (r: Self)
        ensures
            r == *self,
    {
        match self {
            TaskParameter::Variable(v) => TaskParameter::Variable(*v),
            TaskParameter::Event => TaskParameter::Event,
            TaskParameter::Effect => TaskParameter::Effect,
            TaskParameter::Resource => TaskParameter::Resource,
        }
    }
}

impl<T> Copy for TaskParameter<T> {}

/// A task parameter whose type is recorded as a `TypeId`.
#[derive(Clone, Copy, PartialOrd, Ord, Hash, Debug)]
pub enum TaskParameterDyn {
    Variable(VariableDyn),
    Event(TypeId),
    Effect(TypeId),
    Resource(TypeId),
}

impl PartialEq for TaskParameterDyn {
    fn eq(&self, other: &Self) -> (r: bool) {
        match (self, other) {
            (TaskParameterDyn::Variable(a), TaskParameterDyn::Variable(b)) => a == b,
            (TaskParameterDyn::Event(a), TaskParameterDyn::Event(b)) => type_id_eq(a, b),
            (TaskParameterDyn::Effect(a), TaskParameterDyn::Effect(b)) => type_id_eq(a, b),
            (TaskParameterDyn::Resource(a), TaskParameterDyn::Resource(b)) => type_id_eq(a, b),
            _ => false,
        }
    }
}

impl vstd::std_specs::cmp::PartialEqSpecImpl for TaskParameterDyn {
    open spec fn obeys_eq_spec() -> bool {
        true
    }

    open spec fn eq_spec(&self, other: &Self) -> bool {
        *self == *other
    }
}

impl Eq for TaskParameterDyn {}

/// Whether a task reads (`Ref`) or writes (`Mut`) a parameter.
#[derive(Clone, Copy, PartialEq, Eq, Hash, Debug, Structural)]
pub enum RefKindVariant {
    Ref,
    Mut,
}

/// Collects the parameters of a task with the way the task uses each.
pub trait VariableRegister {
    fn register_var(&mut self, ref_kind: RefKindVariant, var: TaskParameterDyn);
}

impl<T: Component> Variable<T> {
    /// The erased handle with this index and the type `tid`.
    pub closed spec fn erased_with(self, tid: TypeId) -> VariableDyn {
        VariableDyn { index: self.index, tid }
    }

    /// The handle of the variable at `index` in the table of `T`.
    pub fn from_index(index: usize) -> (r: Self)
        ensures
            r@ == index,
    {
        Variable { index, _t: PhantomData }
    }

    /// The index of the variable in the table of `T`.
    pub fn index(&self) -> (r: usize)
        ensures
            r == self@,
    {
        self.index
    }

    /// The erased handle with this index and the type `tid`.
    pub fn erase_with(self, tid: TypeId) -> (r: VariableDyn)
        ensures
            r == self.erased_with(tid),
            r@ == (self@, tid),
    {
        VariableDyn { index: self.index, tid }
    }

    /// The erased handle with this index and the type of `T`.
    pub fn erase(self) -> (r: VariableDyn)
        ensures
            r@.0 == self@,
    {
        self.erase_with(type_id_of::<T>())
    }
}

impl VariableDyn {
    /// The typed handle, when `tid` is the recorded type.
    pub closed spec fn downcast_spec<T>(self, tid: TypeId) -> Option<Variable<T>> {
        if self.tid == tid {
            Some(Variable { index: self.index, _t: PhantomData })
        } else {
            None
        }
    }

    /// The handle of the variable at `index` in the table of the type `tid`.
    pub fn new(index: usize, tid: TypeId) -> (r: Self)
        ensures
            r@ == (index, tid),
    {
        VariableDyn { index, tid }
    }

    /// The index of the variable in the table of its type.
    pub fn index(&self) -> (r: usize)
        ensures
            r == self@.0,
    {
        self.index
    }

    /// The type of the variable.
    pub fn tid(&self) -> (r: TypeId)
        ensures
            r == self@.1,
    {
        self.tid
    }

    /// The typed handle, when `tid` is the recorded type.
    pub fn downcast_with<T: Component>(self, tid: TypeId) -> (r: Option<Variable<T>>)
        ensures
            r == self.downcast_spec::<T>(tid),
            r is Some <==> self@.1 == tid,
            r matches Some(v) ==> v@ == self@.0,
    {
        if type_id_eq(&self.tid, &tid) {
            Some(Variable { index: self.index, _t: PhantomData })
        } else {
            None
        }
    }

    /// The typed handle, when `T` is the recorded type.
    pub fn downcast<T: Component>(self) -> (r: Option<Variable<T>>)
        ensures
            r matches Some(v) ==> v@ == self@.0,
            exists|tid: TypeId| r == self.downcast_spec::<T>(tid),
    {
        self.downcast_with(type_id_of::<T>())
    }
}

impl<T: TaskData> Task<T> {
    /// The erased handle with this index and the type `tid`.
    pub closed spec fn erased_with(self, tid: TypeId) -> TaskDyn {
        TaskDyn { index: self.index, tid }
    }

    /// The handle of the task at `index` in the table of `T`.
    pub fn from_index(index: usize) -> (r: Self)
        ensures
            r@ == index,
    {
        Task { index, _t: PhantomData }
    }

    /// The index of the task in the table of `T`.
    pub fn index(&self) -> (r: usize)
        ensures
            r == self@,
    {
        self.index
    }

    /// The erased handle with this index and the type `tid`.
    pub fn erase_with(self, tid: TypeId) -> (r: TaskDyn)
        ensures
            r == self.erased_with(tid),
            r@ == (self@, tid),
    {
        TaskDyn { index: self.index, tid }
    }

    /// The erased handle with this index and the type of `T`.
    pub fn erase(self) -> (r: TaskDyn)
        ensures
            r@.0 == self@,
    {
        self.erase_with(type_id_of::<T>())
    }
}

impl TaskDyn {
    /// The typed handle, when `tid` is the recorded type.
    pub closed spec fn downcast_spec<T: TaskData>(self, tid: TypeId) -> Option<Task<T>> {
        if self.tid == tid {
            Some(Task { index: self.index, _t: PhantomData })
        } else {
            None
        }
    }

    /// The handle of the task at `index` in the table of the type `tid`.
    pub fn new(index: usize, tid: TypeId) -> (r: Self)
        ensures
            r@ == (index, tid),
    {
        TaskDyn { index, tid }
    }

    /// The index of the task in the table of its type.
    pub fn index(&self) -> (r: usize)
        ensures
            r == self@.0,
    {
        self.index
    }

    /// The type of the task.
    pub fn tid(&self) -> (r: TypeId)
        ensures
            r == self@.1,
    {
        self.tid
    }

    /// The typed handle, when `tid` is the recorded type.
    pub fn downcast_with<T: TaskData>(self, tid: TypeId) -> (r: Option<Task<T>>)
        ensures
            r == self.downcast_spec::<T>(tid),
            r is Some <==> self@.1 == tid,
            r matches Some(t) ==> t@ == self@.0,
    {
        if type_id_eq(&self.tid, &tid) {
            Some(Task { index: self.index, _t: PhantomData })
        } else {
            None
        }
    }

    /// The typed handle, when `T` is the recorded type.
    pub fn downcast<T: TaskData>(self) -> (r: Option<Task<T>>)
        ensures
            r matches Some(t) ==> t@ == self@.0,
            exists|tid: TypeId| r == self.downcast_spec::<T>(tid),
    {
        self.downcast_with(type_id_of::<T>())
    }
}

impl<T: Component> TaskParameter<T> {
    /// The erased parameter of the same kind, with the type `tid`.
    pub closed spec fn erased(self, tid: TypeId) -> TaskParameterDyn {
        match self {
            TaskParameter::Variable(v) => TaskParameterDyn::Variable(
                VariableDyn { index: v.index, tid },
            ),
            TaskParameter::Event => TaskParameterDyn::Event(tid),
            TaskParameter::Effect => TaskParameterDyn::Effect(tid),
            TaskParameter::Resource => TaskParameterDyn::Resource(tid),
        }
    }

    /// The erased parameter of the same kind, with the type `tid`.
    pub fn erase_with(self, tid: TypeId) -> (r: TaskParameterDyn)
        ensures
            r == self.erased(tid),
    {
        match self {
            TaskParameter::Variable(v) => TaskParameterDyn::Variable(v.erase_with(tid)),
            TaskParameter::Event => TaskParameterDyn::Event(tid),
            TaskParameter::Effect => TaskParameterDyn::Effect(tid),
            TaskParameter::Resource => TaskParameterDyn::Resource(tid),
        }
    }

    /// The erased parameter of the same kind, with the type of `T`.
    pub fn erase(self) -> (r: TaskParameterDyn)
        ensures
            exists|tid: TypeId| r == self.erased(tid),
    {
        self.erase_with(type_id_of::<T>())
    }
}

/// The marker of the current event of type `T` as a task parameter.
pub struct EventValue<T>(PhantomData<T>);

/// The marker of the pending effect of type `T` as a task parameter.
pub struct EffectValue<T>(PhantomData<T>);

/// The marker of the resource of type `T` as a task parameter.
pub struct ResourceValue<T: Component>(PhantomData<T>);

/// The current event of type `T`.
#[allow(non_snake_case)]
pub fn Event<T: Component>() -> EventValue<T> {
    EventValue(PhantomData)
}

/// The pending effect of type `T`.
#[allow(non_snake_case)]
pub fn Effect<T: Component>() -> EffectValue<T> {
    EffectValue(PhantomData)
}

/// The resource of type `T`.
#[allow(non_snake_case)]
pub fn Resource<T: Component>() -> ResourceValue<T> {
    ResourceValue(PhantomData)
}

impl<T: Component> From<Variable<T>> for TaskParameter<T> {
    fn from(variable: Variable<T>) -> (r: Self) {
        Self::Variable(variable)
    }
}

impl<T: Component> vstd::std_specs::convert::FromSpecImpl<Variable<T>> for TaskParameter<T> {
    open spec fn obeys_from_spec() -> bool {
        true
    }

    open spec fn from_spec(v: Variable<T>) -> Self {
        TaskParameter::Variable(v)
    }
}

impl<T: Component> From<EventValue<T>> for TaskParameter<T> {
    fn from(_e: EventValue<T>) -> (r: Self) {
        Self::Event
    }
}

impl<T: Component> vstd::std_specs::convert::FromSpecImpl<EventValue<T>> for TaskParameter<T> {
    open spec fn obeys_from_spec() -> bool {
        true
    }

    open spec fn from_spec(e: EventValue<T>) -> Self {
        TaskParameter::Event
    }
}

impl<T: Component> From<EffectValue<T>> for TaskParameter<T> {
    fn from(_e: EffectValue<T>) -> (r: Self) {
        Self::Effect
    }
}

impl<T: Component> vstd::std_specs::convert::FromSpecImpl<EffectValue<T>> for TaskParameter<T> {
    open spec fn obeys_from_spec() -> bool {
        true
    }

    open spec fn from_spec(e: EffectValue<T>) -> Self {
        TaskParameter::Effect
    }
}

impl<T: Component> From<ResourceValue<T>> for TaskParameter<T> {
    fn from(_r: ResourceValue<T>) -> (r: Self) {
        Self::Resource
    }
}

impl<T: Component> vstd::std_specs::convert::FromSpecImpl<ResourceValue<T>> for TaskParameter<T> {
    open spec fn obeys_from_spec() -> bool {
        true
    }

    open spec fn from_spec(r: ResourceValue<T>) -> Self {
        TaskParameter::Resource
    }
}

/// The parameter that a marker function such as `Event::<T>` stands for.
pub trait FnRetOverload<T> {
    spec fn spec_param() -> TaskParameter<T>;

    fn param() -> (r: TaskParameter<T>)
        ensures
            r == Self::spec_param(),
    ;
}

impl<T: Component> FnRetOverload<T> for EventValue<T> {
    open spec fn spec_param() -> TaskParameter<T> {
        TaskParameter::Event
    }

    fn param() -> (r: TaskParameter<T>) {
        TaskParameter::Event
    }
}

impl<T: Component> FnRetOverload<T> for EffectValue<T> {
    open spec fn spec_param() -> TaskParameter<T> {
        TaskParameter::Effect
    }

    fn param() -> (r: TaskParameter<T>) {
        TaskParameter::Effect
    }
}

impl<T: Component> FnRetOverload<T> for ResourceValue<T> {
    open spec fn spec_param() -> TaskParameter<T> {
        TaskParameter::Resource
    }

    fn param() -> (r: TaskParameter<T>) {
        TaskParameter::Resource
    }
}

impl<T: Component, R: FnRetOverload<T>, F: Fn() -> R> From<F> for TaskParameter<T> {
    fn from(_f: F) -> (r: Self) {
        R::param()
    }
}

impl<T: Component, R: FnRetOverload<T>, F: Fn() -> R> vstd::std_specs::convert::FromSpecImpl<F> for TaskParameter<T> {
    open spec fn obeys_from_spec() -> bool {
        true
    }

    open spec fn from_spec(f: F) -> Self {
        R::spec_param()
    }
}

/// A parameter together with the way the task uses it.
pub struct RefKindParameter<T> {
    pub(crate) param: TaskParameter<T>,
    pub(crate) ref_kind: RefKindVariant,
}

impl<T> RefKindParameter<T> {
    /// The parameter.
    pub closed spec fn spec_param(self) -> TaskParameter<T> {
        self.param
    }

    /// The way the task uses the parameter.
    pub closed spec fn spec_ref_kind(self) -> RefKindVariant {
        self.ref_kind
    }

    /// The parameter.
    pub fn param(&self) -> (r: TaskParameter<T>)
        ensures
            r == self.spec_param(),
    {
        self.param
    }

    /// The way the task uses the parameter.
    pub fn ref_kind(&self) -> (r: RefKindVariant)
        ensures
            r == self.spec_ref_kind(),
    {
        self.ref_kind
    }
}

impl<T> Clone for RefKindParameter<T> {
    fn clone(&self) -> (r: Self)
        ensures
            r == *self,
    {
        Self { param: self.param, ref_kind: self.ref_kind }
    }
}

/// The way a task takes a parameter: shared (`Ref`) or exclusive (`Mut`).
pub trait RefKind<T: Component> {
    spec fn spec_variant() -> RefKindVariant;

    fn variant() -> (r: RefKindVariant)
        ensures
            r == Self::spec_variant(),
    ;

    /// The parameter marked with this way of use.
    fn variant_for<V>(param: TaskParameter<V>) -> (r: RefKindParameter<V>)
        ensures
            r.spec_param() == param,
            r.spec_ref_kind() == Self::spec_variant(),
    {
        RefKindParameter { param, ref_kind: Self::variant() }
    }
}

/// Shared access to a parameter of type `T` during a task.
pub struct Ref<'a, T: Component>(&'a T);

/// Exclusive access to a parameter of type `T` during a task.
pub struct Mut<'a, T: Component>(&'a mut T);

impl<'a, T: Component> View for Ref<'a, T> {
    type V = T;

    /// The value the access reads.
    closed spec fn view(&self) -> T {
        *self.0
    }
}

impl<'a, T: Component> View for Mut<'a, T> {
    type V = T;

    /// The value the access holds now.
    closed spec fn view(&self) -> T {
        *self.0
    }
}

impl<'a, T: Component> Ref<'a, T> {
    /// Shared access through `t`.
    pub fn new(t: &'a T) -> (r: Self)
        ensures
            r@ == *t,
    {
        Ref(t)
    }
}

impl<'a, T: Component> Mut<'a, T> {
    /// Exclusive access through `t`.
    pub fn new(t: &'a mut T) -> (r: Self)
        ensures
            r@ == *old(t),
    {
        Mut(t)
    }
}

impl<'a, T: Component> RefKind<T> for Ref<'a, T> {
    open spec fn spec_variant() -> RefKindVariant {
        RefKindVariant::Ref
    }

    fn variant() -> (r: RefKindVariant) {
        RefKindVariant::Ref
    }
}

impl<'a, T: Component> RefKind<T> for Mut<'a, T> {
    open spec fn spec_variant() -> RefKindVariant {
        RefKindVariant::Mut
    }

    fn variant() -> (r: RefKindVariant) {
        RefKindVariant::Mut
    }
}

impl<'a, T: Component> core::ops::Deref for Ref<'a, T> {
    type Target = T;

    fn deref(&self) -> (r: &T)
        ensures
            *r == self@,
    {
        self.0
    }
}

impl<'a, T: Component> core::ops::Deref for Mut<'a, T> {
    type Target = T;

    fn deref(&self) -> (r: &T)
        ensures
            *r == self@,
    {
        self.0
    }
}

impl<'a, T: Component> core::ops::DerefMut for Mut<'a, T> {
    fn deref_mut(&mut self) -> (r: &mut T)
        ensures
            *r == old(self)@,
            final(self)@ == *final(r),
    {
        self.0
    }
}

/// Erasing a parameter with a type keeps its kind, and the index of a
/// variable, and records the type.
pub proof fn lemma_erased_kind<T: Component>(p: TaskParameter<T>, tid: TypeId)
    ensures
        p matches TaskParameter::Variable(v) ==> p.erased(tid) == TaskParameterDyn::Variable(v.erased_with(tid))
            && v.erased_with(tid)@ == (v@, tid),
        p matches TaskParameter::Event ==> p.erased(tid) == TaskParameterDyn::Event(tid),
        p matches TaskParameter::Effect ==> p.erased(tid) == TaskParameterDyn::Effect(tid),
        p matches TaskParameter::Resource ==> p.erased(tid) == TaskParameterDyn::Resource(tid),
{
}

/// A downcast with a type id gives the typed handle with the same index when
/// the type id is the recorded one, and nothing otherwise: it gives nothing
/// only for a type id other than the recorded one.
pub proof fn lemma_downcast_outcome<T: TaskData, U: Component>(t: TaskDyn, v: VariableDyn, tid: TypeId)
    ensures
        t.downcast_spec::<T>(tid) is None <==> tid != t@.1,
        t.downcast_spec::<T>(tid) matches Some(x) ==> x@ == t@.0,
        v.downcast_spec::<U>(tid) is None <==> tid != v@.1,
        v.downcast_spec::<U>(tid) matches Some(x) ==> x@ == v@.0,
{
}

/// Erasing a variable handle with a type and downcasting the erased handle
/// with the same type gives the handle back; with another type, nothing.
pub proof fn lemma_variable_erase_downcast<T: Component>(v: Variable<T>, tid: TypeId, other: TypeId)
    ensures
        v.erased_with(tid).downcast_spec::<T>(tid) == Some(v),
        other != tid ==> v.erased_with(tid).downcast_spec::<T>(other) is None,
{
}

/// Downcasting an erased variable handle and erasing the result with the same
/// type gives the erased handle back.
pub proof fn lemma_variable_downcast_erase<T: Component>(d: VariableDyn, tid: TypeId)
    ensures
        d.downcast_spec::<T>(tid) matches Some(v) ==> v.erased_with(tid) == d,
{
}

/// Erasing a task handle with a type and downcasting the erased handle with
/// the same type gives the handle back; with another type, nothing.
pub proof fn lemma_task_erase_downcast<T: TaskData>(t: Task<T>, tid: TypeId, other: TypeId)
    ensures
        t.erased_with(tid).downcast_spec::<T>(tid) == Some(t),
        other != tid ==> t.erased_with(tid).downcast_spec::<T>(other) is None,
{
}

/// Downcasting an erased task handle and erasing the result with the same
/// type gives the erased handle back.
pub proof fn lemma_task_downcast_erase<T: TaskData>(d: TaskDyn, tid: TypeId)
    ensures
        d.downcast_spec::<T>(tid) matches Some(t) ==> t.erased_with(tid) == d,
{
}

} // verus!
