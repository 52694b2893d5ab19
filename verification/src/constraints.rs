//! The constraint system: constraints over task parameters, each with one or
//! more methods (tasks that compute some parameters from the others), and the
//! planner that picks, for each constraint reached from an event, the method
//! to run.
use crate::world::{RefKindVariant, TaskDyn, TaskParameterDyn, VariableRegister};
use slotmap::{DefaultKey, Key, SlotMap};
use std::collections::VecDeque;
use vstd::prelude::*;

verus! {

#[verifier::external_type_specification]
#[verifier::external_body]
pub struct ExDefaultKey(DefaultKey);

/// The slot map that holds the constraints of a system, in a private field;
/// what it holds is given by `slots`.
#[verifier::external_body]
pub struct ConstraintSlots {
    map: SlotMap<DefaultKey, Constraint>,
}

/// The constraints that a slot map of constraints holds, by key id.
pub uninterp spec fn slots(m: ConstraintSlots) -> Map<u64, Constraint>;

/// The id of a key, as `KeyData::as_ffi` gives it.
pub uninterp spec fn key_id(k: DefaultKey) -> u64;

/// The most constraints a system holds, so that twice their number, the
/// largest strength of a parameter, fits in an `i32` with room to spare for
/// the steps of planning.
pub const MAX_CONSTRAINTS: usize = 0x3fff_fff0;

/// Calls `SlotMap::new`: an empty slot map.
#[verifier::external_body]
fn slot_map_new() -> (m: ConstraintSlots)
    ensures
        slots(m).is_empty(),
{
    ConstraintSlots { map: SlotMap::new() }
}

/// Calls `key.data().as_ffi()`. Claimed: the id is a function of the key, and
/// no other key has it (`KeyData::from_ffi` gives the key back from its id).
#[verifier::external_body]
fn key_as_id(key: DefaultKey) -> (id: u64)
    ensures
        id == key_id(key),
        forall|other: DefaultKey| key_id(other) == id ==> other == key,
{
    key.data().as_ffi()
}

/// Calls `SlotMap::insert`, which panics only when the map has `u32::MAX`
/// slots. Claimed: the key is new to the map, and the map then holds `value`
/// under it besides what it held.
#[verifier::external_body]
fn slot_map_insert(m: &mut ConstraintSlots, value: Constraint) -> (key: DefaultKey)
    requires
        slots(*old(m)).dom().finite(),
        slots(*old(m)).len() < MAX_CONSTRAINTS,
    ensures
        !slots(*old(m)).contains_key(key_id(key)),
        slots(*final(m)) == slots(*old(m)).insert(key_id(key), value),
{
    m.map.insert(value)
}

/// Calls `Index::index` of the slot map, which panics on a key it does not hold.
/// Claimed: the reference is to the value held under the key.
#[verifier::external_body]
fn slot_map_get(m: &ConstraintSlots, key: DefaultKey) -> (value: &Constraint)
    requires
        slots(*m).contains_key(key_id(key)),
    ensures
        *value == slots(*m)[key_id(key)],
{
    &m.map[key]
}

/// Calls `IndexMut::index_mut` of the slot map, which panics on a key it does
/// not hold. Claimed: the reference is to the value held under the key, and
/// what is written through it is what the map holds there afterwards.
#[verifier::external_body]
fn slot_map_get_mut(m: &mut ConstraintSlots, key: DefaultKey) -> (value: &mut Constraint)
    requires
        slots(*old(m)).contains_key(key_id(key)),
    ensures
        *value == slots(*old(m))[key_id(key)],
        slots(*final(m)) == slots(*old(m)).insert(key_id(key), *final(value)),
{
    &mut m.map[key]
}

/// Calls `SlotMap::len`. Claimed: the number of values the map holds.
#[verifier::external_body]
fn slot_map_len(m: &ConstraintSlots) -> (n: usize)
    ensures
        n == slots(*m).len(),
{
    m.map.len()
}

/// The slot of the key with id `id`: its lower 32 bits, as `KeyData::as_ffi`
/// puts the slot index there.
pub open spec fn slot_of(id: u64) -> int {
    (id % 0x1_0000_0000) as int
}

/// Calls `SlotMap::keys` and collects the keys. Claimed: each key the map holds
/// comes once, and no other, in the order of their slots (the iterator walks
/// the slots from the first on and yields the occupied ones).
#[verifier::external_body]
fn slot_map_keys(m: &ConstraintSlots) -> (keys: Vec<DefaultKey>)
    ensures
        keys@.map_values(|k: DefaultKey| key_id(k)).no_duplicates(),
        forall|i: int, j: int| 0 <= i < j < keys@.len() ==> slot_of(key_id(#[trigger] keys@[i])) < slot_of(key_id(#[trigger] keys@[j])),
        forall|i: int| 0 <= i < keys@.len() ==> slots(*m).contains_key(key_id(#[trigger] keys@[i])),
        forall|id: u64| slots(*m).contains_key(id) ==> exists|i: int| 0 <= i < keys@.len() && key_id(#[trigger] keys@[i]) == id,
{
    m.map.keys().collect()
}

/// The most parameters of one constraint, so that the sums of their
/// strengths that choosing a method takes fit in an `i64`.
pub const MAX_VARIABLES: usize = 0x7fff_ffff;

/// Whether `p` occurs in `params`.
fn contains_param(params: &Vec<TaskParameterDyn>, p: &TaskParameterDyn) -> (r: bool)
    ensures
        r == params@.contains(*p),
{
    let mut i: usize = 0;
    while i < params.len()
        invariant
            i <= params@.len(),
            forall|j: int| 0 <= j < i ==> params@[j] != *p,
        decreases params@.len() - i,
    {
        if params[i] == *p {
            return true;
        }
        i = i + 1;
    }
    false
}

/// Adds `p` to the set `params` unless it is there already.
fn insert_param(params: &mut Vec<TaskParameterDyn>, p: TaskParameterDyn)
    ensures
        final(params)@.to_set() == old(params)@.to_set().insert(p),
        old(params)@.no_duplicates() ==> final(params)@.no_duplicates(),
        final(params)@.len() <= old(params)@.len() + 1,
{
    if !contains_param(params, &p) {
        params.push(p);
        proof {
            assert(final(params)@.to_set() =~= old(params)@.to_set().insert(p)) by {
                assert forall|x: TaskParameterDyn| final(params)@.to_set().contains(x) == old(params)@.to_set().insert(p).contains(x) by {
                    if x != p && final(params)@.contains(x) {
                        let i = choose|i: int| 0 <= i < final(params)@.len() && final(params)@[i] == x;
                        assert(old(params)@[i] == x);
                    }
                    if old(params)@.contains(x) {
                        let i = choose|i: int| 0 <= i < old(params)@.len() && old(params)@[i] == x;
                        assert(final(params)@[i] == x);
                    }
                    if x == p {
                        assert(final(params)@[old(params)@.len() as int] == x);
                    }
                }
            }
        }
    } else {
        proof {
            assert(old(params)@.to_set().insert(p) =~= old(params)@.to_set());
        }
    }
}

/// The parameters that a task reads (`ins`) and writes (`outs`), each once.
pub struct Register {
    ins: Vec<TaskParameterDyn>,
    outs: Vec<TaskParameterDyn>,
}

impl Register {
    /// The parameters read.
    pub closed spec fn spec_ins(self) -> Set<TaskParameterDyn> {
        self.ins@.to_set()
    }

    /// The parameters written.
    pub closed spec fn spec_outs(self) -> Set<TaskParameterDyn> {
        self.outs@.to_set()
    }

    /// Each parameter is listed once.
    pub closed spec fn wf(self) -> bool {
        &&& self.ins@.no_duplicates()
        &&& self.outs@.no_duplicates()
    }

    /// The number of registered parameters, reads and writes together.
    pub closed spec fn size(self) -> nat {
        self.ins@.len() + self.outs@.len()
    }

    /// An empty register.
    pub fn new() -> (r: Self)
        ensures
            r.wf(),
            r.spec_ins() == Set::<TaskParameterDyn>::empty(),
            r.spec_outs() == Set::<TaskParameterDyn>::empty(),
            r.size() == 0,
    {
        let r = Register { ins: Vec::new(), outs: Vec::new() };
        assert(r.spec_ins() =~= Set::<TaskParameterDyn>::empty());
        assert(r.spec_outs() =~= Set::<TaskParameterDyn>::empty());
        r
    }

    /// Whether a constraint can take the registered parameters: no more
    /// than `MAX_VARIABLES` of them, reads and writes together.
    pub fn fits_in_constraint(&self) -> (r: bool)
        ensures
            r == (self.size() <= MAX_VARIABLES),
    {
        self.ins.len() <= MAX_VARIABLES && self.outs.len() <= MAX_VARIABLES - self.ins.len()
    }

    /// Whether no parameter is both read and written.
    pub fn is_disjoint(&self) -> (r: bool)
        ensures
            r == self.spec_ins().disjoint(self.spec_outs()),
    {
        let mut i: usize = 0;
        while i < self.ins.len()
            invariant
                i <= self.ins@.len(),
                forall|j: int| 0 <= j < i ==> !self.outs@.contains(#[trigger] self.ins@[j]),
            decreases self.ins@.len() - i,
        {
            if contains_param(&self.outs, &self.ins[i]) {
                proof {
                    assert(self.spec_ins().contains(self.ins@[i as int]));
                    assert(self.spec_outs().contains(self.ins@[i as int]));
                }
                return false;
            }
            i = i + 1;
        }
        proof {
            assert forall|x: TaskParameterDyn| self.spec_ins().contains(x) implies !self.spec_outs().contains(x) by {
                let j = choose|j: int| 0 <= j < self.ins@.len() && self.ins@[j] == x;
                assert(!self.outs@.contains(self.ins@[j]));
            }
        }
        true
    }
}

impl Default for Register {
    fn default() -> (r: Self)
        ensures
            r.wf(),
            r.spec_ins() == Set::<TaskParameterDyn>::empty(),
            r.spec_outs() == Set::<TaskParameterDyn>::empty(),
    {
        Register::new()
    }
}

impl VariableRegister for Register {
    /// Records `var` as read for `Ref` and as written for `Mut`.
    fn register_var(&mut self, ref_kind: RefKindVariant, var: TaskParameterDyn)
        ensures
            ref_kind == RefKindVariant::Ref ==> final(self).spec_ins() == old(self).spec_ins().insert(var)
                && final(self).spec_outs() == old(self).spec_outs(),
            ref_kind == RefKindVariant::Mut ==> final(self).spec_outs() == old(self).spec_outs().insert(var)
                && final(self).spec_ins() == old(self).spec_ins(),
            old(self).wf() ==> final(self).wf(),
            final(self).size() <= old(self).size() + 1,
    {
        match ref_kind {
            RefKindVariant::Ref => insert_param(&mut self.ins, var),
            RefKindVariant::Mut => insert_param(&mut self.outs, var),
        }
    }
}

/// A way to satisfy a constraint: a task that writes `outputs` from `inputs`.
pub struct Method {
    task: TaskDyn,
    outputs: Vec<TaskParameterDyn>,
    inputs: Vec<TaskParameterDyn>,
}

impl Method {
    pub closed spec fn spec_task(self) -> TaskDyn {
        self.task
    }

    pub closed spec fn spec_outputs(self) -> Seq<TaskParameterDyn> {
        self.outputs@
    }

    pub closed spec fn spec_inputs(self) -> Seq<TaskParameterDyn> {
        self.inputs@
    }

    /// Inputs and outputs are listed once each, apart, and make up `variables`.
    pub closed spec fn wf(self, variables: Set<TaskParameterDyn>) -> bool {
        &&& self.inputs@.no_duplicates()
        &&& self.outputs@.no_duplicates()
        &&& self.inputs@.to_set().disjoint(self.outputs@.to_set())
        &&& self.inputs@.to_set() + self.outputs@.to_set() == variables
    }
}

/// A relation among parameters, kept by running one of its methods.
pub struct Constraint {
    name: Option<String>,
    variables: Vec<TaskParameterDyn>,
    methods: Vec<Method>,
    selected_method: Option<usize>,
    last_input: Option<TaskParameterDyn>,
}

impl Constraint {
    pub closed spec fn spec_name(self) -> Option<Seq<char>> {
        match self.name {
            Some(n) => Some(n@),
            None => None,
        }
    }

    pub closed spec fn spec_variables(self) -> Seq<TaskParameterDyn> {
        self.variables@
    }

    pub closed spec fn spec_methods(self) -> Seq<Method> {
        self.methods@
    }

    pub closed spec fn spec_selected(self) -> Option<usize> {
        self.selected_method
    }

    pub closed spec fn spec_last_input(self) -> Option<TaskParameterDyn> {
        self.last_input
    }

    /// The parameters are listed once each, every method works on exactly
    /// them, and a selected method exists.
    pub closed spec fn wf(self) -> bool {
        &&& self.variables@.no_duplicates()
        &&& self.variables@.len() <= MAX_VARIABLES
        &&& 1 <= self.methods@.len()
        &&& forall|m: int| 0 <= m < self.methods@.len() ==> (#[trigger] self.methods@[m]).wf(self.variables@.to_set())
        &&& self.selected_method matches Some(s) ==> s < self.methods@.len()
    }
}

/// What `Method::wf`, `Constraint::wf` and `ConstraintBuilder::wf` say, in
/// terms of the parts of a method and of a constraint.
pub proof fn lemma_wf_defs(m: Method, vs: Set<TaskParameterDyn>, c: Constraint, b: ConstraintBuilder)
    ensures
        m.wf(vs) == {
            &&& m.spec_inputs().no_duplicates()
            &&& m.spec_outputs().no_duplicates()
            &&& m.spec_inputs().to_set().disjoint(m.spec_outputs().to_set())
            &&& m.spec_inputs().to_set() + m.spec_outputs().to_set() == vs
        },
        c.wf() == {
            &&& c.spec_variables().no_duplicates()
            &&& c.spec_variables().len() <= MAX_VARIABLES
            &&& 1 <= c.spec_methods().len()
            &&& forall|k: int| 0 <= k < c.spec_methods().len() ==> (#[trigger] c.spec_methods()[k]).wf(c.spec_variables().to_set())
            &&& c.spec_selected() matches Some(s) ==> s < c.spec_methods().len()
        },
        b.wf() == {
            &&& b.spec_constraint().wf()
            &&& b.spec_constraint().spec_selected() is None
            &&& b.spec_constraint().spec_last_input() is None
        },
{
}

/// Builds a constraint from its first method, then further methods and a name.
pub struct ConstraintBuilder {
    constraint: Constraint,
}

impl ConstraintBuilder {
    /// The constraint built so far.
    pub closed spec fn spec_constraint(self) -> Constraint {
        self.constraint
    }

    /// The constraint built so far is well formed and has no selected method.
    pub closed spec fn wf(self) -> bool {
        &&& self.constraint.wf()
        &&& self.constraint.selected_method is None
        &&& self.constraint.last_input is None
    }

    /// A constraint whose only method is `task`, reading and writing what
    /// `register` holds.
    pub fn new(task: TaskDyn, register: Register) -> (b: Self)
        requires
            register.wf(),
            register.spec_ins().disjoint(register.spec_outs()),
            register.size() <= MAX_VARIABLES,
        ensures
            b.wf(),
            b.spec_constraint().spec_name() is None,
            b.spec_constraint().spec_variables().to_set() == register.spec_ins() + register.spec_outs(),
            b.spec_constraint().spec_methods().len() == 1,
            b.spec_constraint().spec_methods()[0].spec_task() == task,
            b.spec_constraint().spec_methods()[0].spec_inputs().to_set() == register.spec_ins(),
            b.spec_constraint().spec_methods()[0].spec_outputs().to_set() == register.spec_outs(),
    {
        let Register { ins, outs } = register;
        let mut all_vars: Vec<TaskParameterDyn> = Vec::new();
        let mut i: usize = 0;
        while i < ins.len()
            invariant
                i <= ins@.len(),
                all_vars@ == ins@.take(i as int),
            decreases ins@.len() - i,
        {
            all_vars.push(ins[i]);
            i = i + 1;
            proof {
                assert(all_vars@ =~= ins@.take(i as int));
            }
        }
        let mut j: usize = 0;
        while j < outs.len()
            invariant
                j <= outs@.len(),
                ins@.len() + outs@.len() <= MAX_VARIABLES,
                all_vars@ == ins@ + outs@.take(j as int),
            decreases outs@.len() - j,
        {
            all_vars.push(outs[j]);
            j = j + 1;
            proof {
                assert(all_vars@ =~= ins@ + outs@.take(j as int));
            }
        }
        proof {
            assert(ins@.take(ins@.len() as int) =~= ins@);
            assert(outs@.take(outs@.len() as int) =~= outs@);
            vstd::seq_lib::seq_to_set_distributes_over_add(ins@, outs@);
            assert(ins@.to_set().disjoint(outs@.to_set()));
            assert forall|i: int, j: int| 0 <= i < ins@.len() && 0 <= j < outs@.len() implies ins@[i] != outs@[j] by {
                assert(ins@.to_set().contains(ins@[i]));
                assert(outs@.to_set().contains(outs@[j]));
            }
            vstd::seq_lib::lemma_no_dup_in_concat(ins@, outs@);
        }
        let method = Method { task, outputs: outs, inputs: ins };
        let mut methods: Vec<Method> = Vec::new();
        methods.push(method);
        let b = ConstraintBuilder {
            constraint: Constraint {
                name: None,
                variables: all_vars,
                methods,
                selected_method: None,
                last_input: None,
            },
        };
        proof {
            assert(b.constraint.methods@[0].wf(b.constraint.variables@.to_set()));
        }
        b
    }

    /// Whether `register` holds exactly the parameters of the constraint.
    pub fn has_variables(&self, register: &Register) -> (r: bool)
        ensures
            r == (register.spec_ins() + register.spec_outs() == self.spec_constraint().spec_variables().to_set()),
    {
        let vars = &self.constraint.variables;
        assert(self.spec_constraint().spec_variables() == vars@);
        let mut i: usize = 0;
        while i < vars.len()
            invariant
                i <= vars@.len(),
                vars@ == self.spec_constraint().spec_variables(),
                forall|j: int| 0 <= j < i ==> (register.ins@.contains(#[trigger] vars@[j]) || register.outs@.contains(vars@[j])),
            decreases vars@.len() - i,
        {
            if !contains_param(&register.ins, &vars[i]) && !contains_param(&register.outs, &vars[i]) {
                proof {
                    assert(vars@.to_set().contains(vars@[i as int]));
                    assert(!(register.spec_ins() + register.spec_outs()).contains(vars@[i as int]));
                    assert(!(register.spec_ins() + register.spec_outs() =~= vars@.to_set()));
                }
                return false;
            }
            i = i + 1;
        }
        let mut k: usize = 0;
        while k < register.ins.len()
            invariant
                k <= register.ins@.len(),
                vars@ == self.spec_constraint().spec_variables(),
                forall|j: int| 0 <= j < k ==> vars@.contains(#[trigger] register.ins@[j]),
            decreases register.ins@.len() - k,
        {
            if !contains_param(vars, &register.ins[k]) {
                proof {
                    assert((register.spec_ins() + register.spec_outs()).contains(register.ins@[k as int]));
                    assert(!vars@.to_set().contains(register.ins@[k as int]));
                    assert(!(register.spec_ins() + register.spec_outs() =~= vars@.to_set()));
                }
                return false;
            }
            k = k + 1;
        }
        let mut l: usize = 0;
        while l < register.outs.len()
            invariant
                l <= register.outs@.len(),
                vars@ == self.spec_constraint().spec_variables(),
                forall|j: int| 0 <= j < l ==> vars@.contains(#[trigger] register.outs@[j]),
            decreases register.outs@.len() - l,
        {
            if !contains_param(vars, &register.outs[l]) {
                proof {
                    assert((register.spec_ins() + register.spec_outs()).contains(register.outs@[l as int]));
                    assert(!vars@.to_set().contains(register.outs@[l as int]));
                    assert(!(register.spec_ins() + register.spec_outs() =~= vars@.to_set()));
                }
                return false;
            }
            l = l + 1;
        }
        proof {
            assert forall|x: TaskParameterDyn| (register.spec_ins() + register.spec_outs()).contains(x)
                == vars@.to_set().contains(x) by {
                if register.ins@.contains(x) {
                    let j = choose|j: int| 0 <= j < register.ins@.len() && register.ins@[j] == x;
                    assert(vars@.contains(register.ins@[j]));
                }
                if register.outs@.contains(x) {
                    let j = choose|j: int| 0 <= j < register.outs@.len() && register.outs@[j] == x;
                    assert(vars@.contains(register.outs@[j]));
                }
                if vars@.contains(x) {
                    let j = choose|j: int| 0 <= j < vars@.len() && vars@[j] == x;
                    assert(register.ins@.contains(vars@[j]) || register.outs@.contains(vars@[j]));
                }
            }
            assert(register.spec_ins() + register.spec_outs() =~= vars@.to_set());
        }
        true
    }

    /// Adds `task` as a further method, reading and writing what `register` holds.
    pub fn add_method(self, task: TaskDyn, register: Register) -> (b: Self)
        requires
            self.wf(),
            register.wf(),
            register.spec_ins().disjoint(register.spec_outs()),
            register.spec_ins() + register.spec_outs() == self.spec_constraint().spec_variables().to_set(),
        ensures
            b.wf(),
            b.spec_constraint().spec_name() == self.spec_constraint().spec_name(),
            b.spec_constraint().spec_variables() == self.spec_constraint().spec_variables(),
            b.spec_constraint().spec_methods().len() == self.spec_constraint().spec_methods().len() + 1,
            forall|m: int| 0 <= m < self.spec_constraint().spec_methods().len() ==>
                #[trigger] b.spec_constraint().spec_methods()[m] == self.spec_constraint().spec_methods()[m],
            ({
                let m = b.spec_constraint().spec_methods().last();
                &&& m.spec_task() == task
                &&& m.spec_inputs().to_set() == register.spec_ins()
                &&& m.spec_outputs().to_set() == register.spec_outs()
            }),
    {
        let ghost old_c = self.constraint;
        let mut this = self;
        let Register { ins, outs } = register;
        let method = Method { task, outputs: outs, inputs: ins };
        this.constraint.methods.push(method);
        proof {
            let c = this.constraint;
            assert forall|m: int| 0 <= m < c.methods@.len() implies (#[trigger] c.methods@[m]).wf(c.variables@.to_set()) by {
                if m < c.methods@.len() - 1 {
                    assert(old_c.methods@[m].wf(c.variables@.to_set()));
                }
            }
        }
        this
    }

    /// Gives the constraint the name `n`.
    pub fn name(self, n: String) -> (b: Self)
        requires
            self.wf(),
        ensures
            b.wf(),
            b.spec_constraint().spec_name() == Some(n@),
            b.spec_constraint().spec_variables() == self.spec_constraint().spec_variables(),
            b.spec_constraint().spec_methods() == self.spec_constraint().spec_methods(),
    {
        let mut this = self;
        this.constraint.name = Some(n);
        this
    }
}


/// The ids of `keys`.
pub open spec fn ids_of(keys: Seq<DefaultKey>) -> Seq<u64> {
    keys.map_values(|k: DefaultKey| key_id(k))
}

/// What constraint `c` adds to the strength of its parameter `v`: nothing
/// when it has a single method; otherwise one, plus one when its selected
/// method writes `v`, minus one when that method reads `v` and `v` is not
/// the input the selection was made for.
pub open spec fn contribution(c: Constraint, v: TaskParameterDyn) -> int {
    if c.spec_methods().len() <= 1 {
        0
    } else {
        match c.spec_selected() {
            None => 1,
            Some(m) => 1 + (if c.spec_methods()[m as int].spec_outputs().contains(v) {
                1int
            } else {
                0int
            }) - (if c.spec_methods()[m as int].spec_inputs().contains(v) && c.spec_last_input() != Some(v) {
                1int
            } else {
                0int
            }),
        }
    }
}

/// The strength of `v` that the constraints `ids` of `cs` make up.
pub open spec fn strength_sum(ids: Seq<u64>, cs: Map<u64, Constraint>, v: TaskParameterDyn) -> int
    decreases ids.len(),
{
    if ids.len() == 0 {
        0
    } else {
        strength_sum(ids.drop_last(), cs, v) + contribution(cs[ids.last()], v)
    }
}

proof fn lemma_contribution_bounds(c: Constraint, v: TaskParameterDyn)
    ensures
        0 <= contribution(c, v) <= 2,
{
}

proof fn lemma_strength_sum_bounds(ids: Seq<u64>, cs: Map<u64, Constraint>, v: TaskParameterDyn)
    ensures
        0 <= strength_sum(ids, cs, v) <= 2 * ids.len(),
    decreases ids.len(),
{
    if ids.len() > 0 {
        lemma_strength_sum_bounds(ids.drop_last(), cs, v);
        lemma_contribution_bounds(cs[ids.last()], v);
    }
}

/// Replacing constraint `id` changes the sum by the change of its contribution,
/// when `id` is among `ids` (once), and not at all otherwise.
proof fn lemma_strength_sum_update(
    ids: Seq<u64>,
    cs: Map<u64, Constraint>,
    id: u64,
    c: Constraint,
    v: TaskParameterDyn,
)
    requires
        ids.no_duplicates(),
    ensures
        strength_sum(ids, cs.insert(id, c), v) == strength_sum(ids, cs, v) + if ids.contains(id) {
            contribution(c, v) - contribution(cs[id], v)
        } else {
            0
        },
    decreases ids.len(),
{
    if ids.len() > 0 {
        let init = ids.drop_last();
        assert(init.no_duplicates());
        lemma_strength_sum_update(init, cs, id, c, v);
        if ids.last() == id {
            assert(!init.contains(id)) by {
                if init.contains(id) {
                    let j = choose|j: int| 0 <= j < init.len() && init[j] == id;
                    assert(ids[j] == ids[ids.len() - 1]);
                }
            }
        } else {
            assert(ids.contains(id) == init.contains(id)) by {
                if ids.contains(id) {
                    let j = choose|j: int| 0 <= j < ids.len() && ids[j] == id;
                    assert(init[j] == id);
                }
                if init.contains(id) {
                    let j = choose|j: int| 0 <= j < init.len() && init[j] == id;
                    assert(ids[j] == id);
                }
            }
        }
    }
}

proof fn lemma_strength_sum_push(ids: Seq<u64>, id: u64, cs: Map<u64, Constraint>, v: TaskParameterDyn)
    ensures
        strength_sum(ids.push(id), cs, v) == strength_sum(ids, cs, v) + contribution(cs[id], v),
{
    assert(ids.push(id).drop_last() =~= ids);
}

/// Distinct ids of a finite map are no more than its entries.
proof fn lemma_ids_within(ids: Seq<u64>, cs: Map<u64, Constraint>)
    requires
        ids.no_duplicates(),
        cs.dom().finite(),
        forall|j: int| 0 <= j < ids.len() ==> cs.contains_key(#[trigger] ids[j]),
    ensures
        ids.len() <= cs.len(),
{
    ids.unique_seq_to_set();
    assert(ids.to_set().subset_of(cs.dom()));
    vstd::set_lib::lemma_len_subset(ids.to_set(), cs.dom());
}

/// A parameter of the system with the constraints on it and its strength.
struct Variable {
    constraints: Vec<DefaultKey>,
    strength: i32,
    value: TaskParameterDyn,
}

/// Constraints over task parameters, with the strength of each parameter.
pub struct System {
    vars: Vec<Variable>,
    constraints: ConstraintSlots,
}

/// Whether some variable of `vars` has the value `p`.
spec fn has_var(vars: Seq<Variable>, p: TaskParameterDyn) -> bool {
    exists|i: int| 0 <= i < vars.len() && (#[trigger] vars[i]).value == p
}

/// The position of the variable with value `p`.
spec fn var_index(vars: Seq<Variable>, p: TaskParameterDyn) -> int {
    choose|i: int| 0 <= i < vars.len() && (#[trigger] vars[i]).value == p
}

/// Well-formedness of the variables `vars` and the constraints `cs` of a
/// system: the constraints are well formed; a single-method constraint has its
/// method selected; each parameter has one variable; a variable lists the
/// constraints on it, each once, and only those; and its strength is what
/// those constraints contribute.
spec fn parts_wf(vars: Seq<Variable>, cs: Map<u64, Constraint>) -> bool {
    &&& cs.dom().finite()
    &&& cs.len() < MAX_CONSTRAINTS
    &&& forall|id: u64| #[trigger] cs.contains_key(id) ==> {
        &&& cs[id].wf()
        &&& cs[id].methods@.len() == 1 ==> cs[id].selected_method == Some(0usize)
    }
    &&& forall|i: int, j: int|
        0 <= i < vars.len() && 0 <= j < vars.len() && i != j ==> (#[trigger] vars[i]).value
            != (#[trigger] vars[j]).value
    &&& forall|i: int| 0 <= i < vars.len() ==> {
        let var = #[trigger] vars[i];
        &&& ids_of(var.constraints@).no_duplicates()
        &&& forall|k: int| 0 <= k < var.constraints@.len() ==> {
            let id = #[trigger] key_id(var.constraints@[k]);
            &&& cs.contains_key(id)
            &&& cs[id].variables@.contains(var.value)
        }
        &&& var.strength == strength_sum(ids_of(var.constraints@), cs, var.value)
    }
    &&& forall|id: u64, p: TaskParameterDyn| #[trigger] cs.contains_key(id) && #[trigger] cs[id].variables@.contains(p) ==> {
        &&& has_var(vars, p)
        &&& ids_of(vars[var_index(vars, p)].constraints@).contains(id)
    }
}

impl System {
    /// The constraints, by key id.
    pub closed spec fn constraint_map(self) -> Map<u64, Constraint> {
        slots(self.constraints)
    }

    /// The number of constraints.
    pub closed spec fn constraint_count(self) -> nat {
        slots(self.constraints).len()
    }

    /// The parameters that some constraint works on.
    pub closed spec fn params(self) -> Set<TaskParameterDyn> {
        Set::new(|p: TaskParameterDyn| has_var(self.vars@, p))
    }

    /// The ids of the constraints on `p`, in the order they were added.
    pub closed spec fn constraints_on(self, p: TaskParameterDyn) -> Seq<u64> {
        if has_var(self.vars@, p) {
            ids_of(self.vars@[var_index(self.vars@, p)].constraints@)
        } else {
            Seq::empty()
        }
    }

    /// The strength of `p`.
    pub closed spec fn strength(self, p: TaskParameterDyn) -> int {
        if has_var(self.vars@, p) {
            self.vars@[var_index(self.vars@, p)].strength as int
        } else {
            0
        }
    }

    /// Well-formedness: the constraints are well formed; a single-method
    /// constraint has its method selected; each parameter has one variable;
    /// a variable lists the constraints on it, each once, and only those; and
    /// its strength is what those constraints contribute.
    pub closed spec fn wf(self) -> bool {
        parts_wf(self.vars@, slots(self.constraints))
    }

    /// An empty system.
    pub fn new() -> (s: Self)
        ensures
            s.wf(),
            s.constraint_map() == Map::<u64, Constraint>::empty(),
            s.params() == Set::<TaskParameterDyn>::empty(),
    {
        let s = System { vars: Vec::new(), constraints: slot_map_new() };
        assert(s.constraint_map() =~= Map::<u64, Constraint>::empty());
        assert(s.params() =~= Set::<TaskParameterDyn>::empty());
        s
    }
}

impl System {
    /// The number of constraints.
    pub fn len(&self) -> (n: usize)
        ensures
            n == self.constraint_count(),
    {
        slot_map_len(&self.constraints)
    }
}

impl Default for System {
    fn default() -> (s: Self)
        ensures
            s.wf(),
            s.constraint_map() == Map::<u64, Constraint>::empty(),
            s.params() == Set::<TaskParameterDyn>::empty(),
    {
        System::new()
    }
}

/// The position of the variable with value `p`, if there is one.
fn find_var(vars: &Vec<Variable>, p: &TaskParameterDyn) -> (r: Option<usize>)
    ensures
        match r {
            Some(i) => i < vars@.len() && vars@[i as int].value == *p,
            None => !has_var(vars@, *p),
        },
{
    let mut i: usize = 0;
    while i < vars.len()
        invariant
            i <= vars@.len(),
            forall|j: int| 0 <= j < i ==> (#[trigger] vars@[j]).value != *p,
        decreases vars@.len() - i,
    {
        if vars[i].value == *p {
            return Some(i);
        }
        i = i + 1;
    }
    None
}

/// `c` as a system stores it: a single method comes selected.
pub closed spec fn stored(c: Constraint) -> Constraint {
    Constraint {
        name: c.name,
        variables: c.variables,
        methods: c.methods,
        selected_method: if c.methods@.len() == 1 {
            Some(0usize)
        } else {
            None
        },
        last_input: c.last_input,
    }
}

/// After adding the constraint `key` over `cvars` to the variables
/// `old_vars` for the first `j` parameters: those parameters have the key
/// appended to their variable, a new variable when there was none, and their
/// strength raised by one unless the constraint has a single method.
spec fn added_upto(
    old_vars: Seq<Variable>,
    vars: Seq<Variable>,
    cvars: Seq<TaskParameterDyn>,
    j: int,
    key: DefaultKey,
    simple: bool,
) -> bool {
    &&& vars.len() >= old_vars.len()
    &&& forall|i: int| 0 <= i < old_vars.len() ==> {
        let done = cvars.take(j).contains((#[trigger] old_vars[i]).value);
        &&& vars[i].value == old_vars[i].value
        &&& vars[i].constraints@ == if done {
            old_vars[i].constraints@.push(key)
        } else {
            old_vars[i].constraints@
        }
        &&& vars[i].strength == old_vars[i].strength + if done && !simple {
            1int
        } else {
            0int
        }
    }
    &&& forall|i: int| old_vars.len() <= i < vars.len() ==> {
        &&& cvars.take(j).contains((#[trigger] vars[i]).value)
        &&& !has_var(old_vars, vars[i].value)
        &&& vars[i].constraints@ == seq![key]
        &&& vars[i].strength == if simple {
            0int
        } else {
            1int
        }
    }
    &&& forall|a: int, b: int|
        0 <= a < vars.len() && 0 <= b < vars.len() && a != b ==> (#[trigger] vars[a]).value != (#[trigger] vars[b]).value
    &&& forall|p: TaskParameterDyn| #[trigger] cvars.take(j).contains(p) ==> has_var(vars, p)
}

impl System {
    /// Adds a constraint. A constraint with a single method gets it selected;
    /// every parameter of the constraint lists it, and a parameter that the
    /// system did not know yet gets a variable; with more than one method the
    /// constraint raises the strength of each of its parameters by one.
    pub fn add_constraint(&mut self, constraint: ConstraintBuilder)
        requires
            old(self).wf(),
            constraint.wf(),
            old(self).constraint_count() + 1 < MAX_CONSTRAINTS,
        ensures
            final(self).wf(),
            exists|id: u64|
                {
                    &&& !old(self).constraint_map().contains_key(id)
                    &&& final(self).constraint_map() == old(self).constraint_map().insert(
                        id,
                        stored(constraint.spec_constraint()),
                    )
                    &&& forall|p: TaskParameterDyn| #[trigger] final(self).constraints_on(p) == if constraint.spec_constraint().spec_variables().contains(p) {
                        old(self).constraints_on(p).push(id)
                    } else {
                        old(self).constraints_on(p)
                    }
                },
            final(self).params() == old(self).params() + constraint.spec_constraint().spec_variables().to_set(),
            forall|p: TaskParameterDyn| #[trigger] final(self).strength(p) == old(self).strength(p) + if constraint.spec_constraint().spec_variables().contains(p)
                && constraint.spec_constraint().spec_methods().len() != 1 {
                1int
            } else {
                0int
            },
    {
        let ghost old_self = *self;
        let ghost bc = constraint.spec_constraint();
        let mut c = constraint.constraint;
        let is_simple = c.methods.len() == 1;
        if is_simple {
            c.selected_method = Some(0);
        }
        let ghost stored_c = c;
        let key = slot_map_insert(&mut self.constraints, c);
        let ghost cs = slots(self.constraints);
        let added = slot_map_get(&self.constraints, key);
        proof {
            assert forall|i: int| 0 <= i < old_self.vars@.len() implies (#[trigger] old_self.vars@[i]).strength <= 2 * MAX_CONSTRAINTS by {
                let var = old_self.vars@[i];
                lemma_strength_sum_bounds(ids_of(var.constraints@), slots(old_self.constraints), var.value);
                assert forall|k: int| 0 <= k < ids_of(var.constraints@).len() implies slots(old_self.constraints).contains_key(#[trigger] ids_of(var.constraints@)[k]) by {
                    assert(key_id(var.constraints@[k]) == ids_of(var.constraints@)[k]);
                }
                lemma_ids_within(ids_of(var.constraints@), slots(old_self.constraints));
            }
            assert(added.variables@.take(0) =~= Seq::<TaskParameterDyn>::empty());
        }
        let mut j: usize = 0;
        while j < added.variables.len()
            invariant
                *added == stored_c,
                slots(self.constraints) == cs,
                stored_c.variables@.no_duplicates(),
                j <= stored_c.variables@.len(),
                is_simple == (stored_c.methods@.len() == 1),
                forall|i: int| 0 <= i < old_self.vars@.len() ==> (#[trigger] old_self.vars@[i]).strength <= 2 * MAX_CONSTRAINTS,
                forall|a: int, b: int|
                    0 <= a < old_self.vars@.len() && 0 <= b < old_self.vars@.len() && a != b ==> (#[trigger] old_self.vars@[a]).value != (#[trigger] old_self.vars@[b]).value,
                added_upto(old_self.vars@, self.vars@, stored_c.variables@, j as int, key, is_simple),
            decreases stored_c.variables@.len() - j,
        {
            let param = added.variables[j];
            let ghost vars0 = self.vars@;
            proof {
                let pre = stored_c.variables@.take(j as int);
                assert(!pre.contains(param)) by {
                    if pre.contains(param) {
                        let k = choose|k: int| 0 <= k < pre.len() && pre[k] == param;
                        assert(stored_c.variables@[k] == stored_c.variables@[j as int]);
                    }
                }
                let pre0 = stored_c.variables@.take(j as int);
                let pre1 = stored_c.variables@.take(j + 1);
                assert forall|p: TaskParameterDyn| #[trigger] pre1.contains(p) == (pre0.contains(p) || p == param) by {
                    if pre1.contains(p) {
                        let k = choose|k: int| 0 <= k < pre1.len() && pre1[k] == p;
                        if k < j {
                            assert(pre0[k] == p);
                        }
                    }
                    if pre0.contains(p) {
                        let k = choose|k: int| 0 <= k < pre0.len() && pre0[k] == p;
                        assert(pre1[k] == p);
                    }
                    if p == param {
                        assert(pre1[j as int] == p);
                    }
                }
            }
            match find_var(&self.vars, &param) {
                Some(i) => {
                    proof {
                        if i >= old_self.vars@.len() {
                            assert(stored_c.variables@.take(j as int).contains(vars0[i as int].value));
                        }
                        assert(vars0[i as int].strength == old_self.vars@[i as int].strength);
                    }
                    self.vars[i].constraints.push(key);
                    if !is_simple {
                        self.vars[i].strength = self.vars[i].strength + 1;
                    }
                    proof {
                        assert forall|a: int, b: int|
                            0 <= a < self.vars@.len() && 0 <= b < self.vars@.len() && a != b implies (#[trigger] self.vars@[a]).value != (#[trigger] self.vars@[b]).value by {
                            assert(vars0[a].value != vars0[b].value);
                        }
                        assert forall|p: TaskParameterDyn| #[trigger] stored_c.variables@.take(j + 1).contains(p) implies has_var(self.vars@, p) by {
                            if p != param {
                                assert(has_var(vars0, p));
                                let w = choose|w: int| 0 <= w < vars0.len() && (#[trigger] vars0[w]).value == p;
                                assert(self.vars@[w].value == p);
                            } else {
                                assert(self.vars@[i as int].value == p);
                            }
                        }
                    }
                },
                None => {
                    let mut keys: Vec<DefaultKey> = Vec::new();
                    keys.push(key);
                    self.vars.push(
                        Variable {
                            constraints: keys,
                            strength: if is_simple {
                                0
                            } else {
                                1
                            },
                            value: param,
                        },
                    );
                    proof {
                        assert(self.vars@[vars0.len() as int].constraints@ =~= seq![key]);
                        assert(!has_var(old_self.vars@, param)) by {
                            if has_var(old_self.vars@, param) {
                                let w = choose|w: int| 0 <= w < old_self.vars@.len() && (#[trigger] old_self.vars@[w]).value == param;
                                assert(vars0[w].value == param);
                            }
                        }
                        assert forall|a: int, b: int|
                            0 <= a < self.vars@.len() && 0 <= b < self.vars@.len() && a != b implies (#[trigger] self.vars@[a]).value != (#[trigger] self.vars@[b]).value by {
                            if a < vars0.len() && b < vars0.len() {
                                assert(vars0[a].value != vars0[b].value);
                            } else if a < vars0.len() {
                                assert(vars0[a].value != param);
                            } else if b < vars0.len() {
                                assert(vars0[b].value != param);
                            }
                        }
                        assert forall|p: TaskParameterDyn| #[trigger] stored_c.variables@.take(j + 1).contains(p) implies has_var(self.vars@, p) by {
                            if p != param {
                                assert(has_var(vars0, p));
                                let w = choose|w: int| 0 <= w < vars0.len() && (#[trigger] vars0[w]).value == p;
                                assert(self.vars@[w].value == p);
                            } else {
                                assert(self.vars@[vars0.len() as int].value == p);
                            }
                        }
                    }
                },
            }
            j = j + 1;
        }
        proof {
            assert(stored_c.variables@.take(stored_c.variables@.len() as int) =~= stored_c.variables@);
            assert(stored_c == stored(bc));
            lemma_add_constraint(old_self, *self, bc, stored_c, key, is_simple);
        }
    }
}

proof fn lemma_add_constraint(
    old: System,
    new: System,
    c: Constraint,
    stored_c: Constraint,
    key: DefaultKey,
    simple: bool,
)
    requires
        old.wf(),
        c.wf(),
        c.selected_method is None,
        stored_c == stored(c),
        simple == (stored_c.methods@.len() == 1),
        !slots(old.constraints).contains_key(key_id(key)),
        slots(new.constraints) == slots(old.constraints).insert(key_id(key), stored_c),
        slots(old.constraints).len() + 1 < MAX_CONSTRAINTS,
        added_upto(old.vars@, new.vars@, stored_c.variables@, stored_c.variables@.len() as int, key, simple),
        stored_c.variables@.take(stored_c.variables@.len() as int) == stored_c.variables@,
    ensures
        new.wf(),
        ({
            let id = key_id(key);
            &&& !old.constraint_map().contains_key(id)
            &&& new.constraint_map() == old.constraint_map().insert(id, stored(c))
            &&& forall|p: TaskParameterDyn| #[trigger] new.constraints_on(p) == if c.spec_variables().contains(p) {
                old.constraints_on(p).push(id)
            } else {
                old.constraints_on(p)
            }
        }),
        new.params() == old.params() + c.spec_variables().to_set(),
        forall|p: TaskParameterDyn| #[trigger] new.strength(p) == old.strength(p) + if c.spec_variables().contains(p)
            && c.spec_methods().len() != 1 {
            1int
        } else {
            0int
        },
{
    let id = key_id(key);
    let cs = slots(old.constraints);
    let ncs = slots(new.constraints);
    let cvars = stored_c.variables@;
    // the ids of an old variable are old keys, so not `id`
    assert forall|i: int| 0 <= i < old.vars@.len() implies !ids_of((#[trigger] old.vars@[i]).constraints@).contains(id) by {
        let var = old.vars@[i];
        if ids_of(var.constraints@).contains(id) {
            let k = choose|k: int| 0 <= k < ids_of(var.constraints@).len() && ids_of(var.constraints@)[k] == id;
            assert(key_id(var.constraints@[k]) == id);
        }
    }
    assert forall|v: TaskParameterDyn| #[trigger] contribution(stored_c, v) == if simple { 0int } else { 1int } by {}
    // each variable of `new`
    assert forall|i: int| 0 <= i < new.vars@.len() implies {
        let var = #[trigger] new.vars@[i];
        &&& ids_of(var.constraints@).no_duplicates()
        &&& forall|k: int| 0 <= k < var.constraints@.len() ==> {
            let x = #[trigger] key_id(var.constraints@[k]);
            &&& ncs.contains_key(x)
            &&& ncs[x].variables@.contains(var.value)
        }
        &&& var.strength == strength_sum(ids_of(var.constraints@), ncs, var.value)
    } by {
        let var = new.vars@[i];
        if i < old.vars@.len() {
            let ov = old.vars@[i];
            let oids = ids_of(ov.constraints@);
            assert(oids.no_duplicates());
            assert(ov.strength == strength_sum(oids, cs, ov.value));
            assert(!oids.contains(id));
            lemma_strength_sum_update(oids, cs, id, stored_c, ov.value);
            assert(strength_sum(oids, ncs, ov.value) == strength_sum(oids, cs, ov.value));
            assert forall|k: int| 0 <= k < ov.constraints@.len() implies {
                let x = #[trigger] key_id(ov.constraints@[k]);
                &&& ncs.contains_key(x)
                &&& ncs[x].variables@.contains(var.value)
            } by {
                let x = key_id(ov.constraints@[k]);
                assert(oids[k] == x);
                assert(cs.contains_key(x) && cs[x].variables@.contains(ov.value));
                assert(x != id);
            }
            if cvars.contains(ov.value) {
                assert(ids_of(var.constraints@) =~= oids.push(id));
                lemma_strength_sum_push(oids, id, ncs, ov.value);
                assert(contribution(ncs[id], ov.value) == if simple { 0int } else { 1int });
                assert(ids_of(var.constraints@).no_duplicates()) by {
                    assert forall|a: int, b: int| 0 <= a < oids.len() + 1 && 0 <= b < oids.len() + 1 && a != b implies
                        ids_of(var.constraints@)[a] != ids_of(var.constraints@)[b] by {
                        if a < oids.len() && b < oids.len() {
                            assert(oids[a] != oids[b]);
                        } else if a < oids.len() {
                            assert(oids[a] != id);
                        } else {
                            assert(oids[b] != id);
                        }
                    }
                }
                assert forall|k: int| 0 <= k < var.constraints@.len() implies {
                    let x = #[trigger] key_id(var.constraints@[k]);
                    &&& ncs.contains_key(x)
                    &&& ncs[x].variables@.contains(var.value)
                } by {
                    if k < ov.constraints@.len() {
                        assert(var.constraints@[k] == ov.constraints@[k]);
                    } else {
                        assert(var.constraints@[k] == key);
                    }
                }
            } else {
                assert(ids_of(var.constraints@) =~= oids);
                assert(var.constraints@ == ov.constraints@);
            }
        } else {
            assert(ids_of(var.constraints@) =~= seq![id]);
            assert(seq![id].drop_last() =~= Seq::<u64>::empty());
            assert(cvars.contains(var.value));
            assert(contribution(ncs[id], var.value) == if simple { 0int } else { 1int });
            assert(strength_sum(seq![id], ncs, var.value) == strength_sum(Seq::<u64>::empty(), ncs, var.value) + contribution(ncs[id], var.value));
            assert forall|k: int| 0 <= k < var.constraints@.len() implies {
                let x = #[trigger] key_id(var.constraints@[k]);
                &&& ncs.contains_key(x)
                &&& ncs[x].variables@.contains(var.value)
            } by {
                assert(var.constraints@[k] == key);
            }
        }
    }
    // each parameter of each constraint has a variable that lists the constraint
    assert forall|x: u64, p: TaskParameterDyn| #[trigger] ncs.contains_key(x) && #[trigger] ncs[x].variables@.contains(p) implies {
        &&& has_var(new.vars@, p)
        &&& ids_of(new.vars@[var_index(new.vars@, p)].constraints@).contains(x)
    } by {
        if x == id {
            assert(cvars.contains(p));
            assert(has_var(new.vars@, p));
            let w = var_index(new.vars@, p);
            if w < old.vars@.len() {
                assert(ids_of(new.vars@[w].constraints@) =~= ids_of(old.vars@[w].constraints@).push(id));
            } else {
                assert(ids_of(new.vars@[w].constraints@) =~= seq![id]);
            }
            assert(ids_of(new.vars@[w].constraints@).last() == id);
        } else {
            assert(cs.contains_key(x) && cs[x].variables@.contains(p));
            let w = var_index(old.vars@, p);
            assert(old.vars@[w].value == p);
            assert(new.vars@[w].value == p);
            assert(var_index(new.vars@, p) == w);
            let oids = ids_of(old.vars@[w].constraints@);
            assert(oids.contains(x));
            let k = choose|k: int| 0 <= k < oids.len() && oids[k] == x;
            assert(ids_of(new.vars@[w].constraints@)[k] == x);
        }
    }
    assert forall|x: u64| #[trigger] ncs.contains_key(x) implies {
        &&& ncs[x].wf()
        &&& ncs[x].methods@.len() == 1 ==> ncs[x].selected_method == Some(0usize)
    } by {
        if x == id {
            assert forall|m: int| 0 <= m < stored_c.methods@.len() implies (#[trigger] stored_c.methods@[m]).wf(stored_c.variables@.to_set()) by {
                assert(c.methods@[m].wf(c.variables@.to_set()));
            }
        }
    }
    assert(new.constraint_map() =~= old.constraint_map().insert(id, stored(c)));
    // the views of a parameter
    assert forall|p: TaskParameterDyn| #[trigger] new.constraints_on(p) == if c.spec_variables().contains(p) {
        old.constraints_on(p).push(id)
    } else {
        old.constraints_on(p)
    } by {
        if has_var(old.vars@, p) {
            let w = var_index(old.vars@, p);
            assert(new.vars@[w].value == p);
            assert(var_index(new.vars@, p) == w);
        } else if has_var(new.vars@, p) {
            let w = var_index(new.vars@, p);
            if w < old.vars@.len() {
                assert(old.vars@[w].value == p);
            }
            assert(ids_of(new.vars@[w].constraints@) =~= seq![id]);
            assert(old.constraints_on(p).push(id) =~= seq![id]);
        }
    }
    assert forall|p: TaskParameterDyn| #[trigger] new.strength(p) == old.strength(p) + if c.spec_variables().contains(p)
        && c.spec_methods().len() != 1 {
        1int
    } else {
        0int
    } by {
        if has_var(old.vars@, p) {
            let w = var_index(old.vars@, p);
            assert(new.vars@[w].value == p);
            assert(var_index(new.vars@, p) == w);
        } else if has_var(new.vars@, p) {
            let w = var_index(new.vars@, p);
            if w < old.vars@.len() {
                assert(old.vars@[w].value == p);
            }
        }
    }
    assert forall|p: TaskParameterDyn| #[trigger] new.params().contains(p) == (old.params() + c.spec_variables().to_set()).contains(p) by {
        if has_var(old.vars@, p) {
            let w = var_index(old.vars@, p);
            assert(new.vars@[w].value == p);
        }
        if has_var(new.vars@, p) {
            let w = var_index(new.vars@, p);
            if w < old.vars@.len() {
                assert(old.vars@[w].value == p);
            }
        }
    }
    assert(new.params() =~= old.params() + c.spec_variables().to_set());
}

/// The strength of the variable with value `p` in `vars`, or 0 without one.
spec fn var_strength(vars: Seq<Variable>, p: TaskParameterDyn) -> int {
    if has_var(vars, p) {
        vars[var_index(vars, p)].strength as int
    } else {
        0
    }
}

/// The sum of the strengths of `params`.
spec fn strength_total(vars: Seq<Variable>, params: Seq<TaskParameterDyn>) -> int
    decreases params.len(),
{
    if params.len() == 0 {
        0
    } else {
        strength_total(vars, params.drop_last()) + var_strength(vars, params.last())
    }
}

/// The score of method `m`: the strengths of what it reads minus the
/// strengths of what it writes.
spec fn score(vars: Seq<Variable>, m: Method) -> int {
    strength_total(vars, m.inputs@) - strength_total(vars, m.outputs@)
}

/// The largest strength a planning step meets.
pub const STRENGTH_BOUND: i32 = 0x7fff_ffff;

/// The variables have distinct values and bounded strengths.
spec fn vars_ok(vars: Seq<Variable>) -> bool {
    &&& forall|a: int, b: int|
        0 <= a < vars.len() && 0 <= b < vars.len() && a != b ==> (#[trigger] vars[a]).value != (#[trigger] vars[b]).value
    &&& forall|i: int| 0 <= i < vars.len() ==> -STRENGTH_BOUND <= (#[trigger] vars[i]).strength <= STRENGTH_BOUND
}

proof fn lemma_var_index<'a>(vars: Seq<Variable>, i: int)
    requires
        vars_ok(vars),
        0 <= i < vars.len(),
    ensures
        has_var(vars, vars[i].value),
        var_index(vars, vars[i].value) == i,
        var_strength(vars, vars[i].value) == vars[i].strength,
{
    let p = vars[i].value;
    assert(has_var(vars, p));
    let w = var_index(vars, p);
    if w != i {
        assert(vars[w].value != vars[i].value);
    }
}

/// The sum of the strengths of `params`, each of which has a variable.
fn total_strength(vars: &Vec<Variable>, params: &Vec<TaskParameterDyn>) -> (r: i64)
    requires
        vars_ok(vars@),
        params@.len() <= MAX_VARIABLES,
        forall|j: int| 0 <= j < params@.len() ==> has_var(vars@, #[trigger] params@[j]),
    ensures
        r == strength_total(vars@, params@),
        -0x3fff_ffff_0000_0001 <= r <= 0x3fff_ffff_0000_0001,
{
    let mut total: i64 = 0;
    let mut j: usize = 0;
    while j < params.len()
        invariant
            vars_ok(vars@),
            params@.len() <= MAX_VARIABLES,
            forall|k: int| 0 <= k < params@.len() ==> has_var(vars@, #[trigger] params@[k]),
            j <= params@.len(),
            total == strength_total(vars@, params@.take(j as int)),
            -0x7fff_ffff * j <= total <= 0x7fff_ffff * j,
        decreases params@.len() - j,
    {
        let i = find_var(vars, &params[j]).unwrap();
        proof {
            lemma_var_index(vars@, i as int);
            assert(params@.take(j + 1).drop_last() =~= params@.take(j as int));
            assert(0x7fff_ffff * (j + 1) == 0x7fff_ffff * j + 0x7fff_ffff) by (nonlinear_arith);
            assert(0x7fff_ffff * j <= 0x7fff_ffff * 0x7fff_ffff) by (nonlinear_arith)
                requires
                    j <= 0x7fff_ffff,
            ;
        }
        total = total + vars[i].strength as i64;
        j = j + 1;
    }
    proof {
        assert(params@.take(params@.len() as int) =~= params@);
        assert(0x7fff_ffff * j <= 0x7fff_ffff * 0x7fff_ffff) by (nonlinear_arith)
            requires
                j <= 0x7fff_ffff,
        ;
    }
    total
}

/// Among the methods that read `input`, the one with the highest score; the
/// last of several with the same score.
fn choose_method(methods: &Vec<Method>, input: &TaskParameterDyn, vars: &Vec<Variable>) -> (r: usize)
    requires
        vars_ok(vars@),
        exists|m: int| 0 <= m < methods@.len() && (#[trigger] methods@[m]).inputs@.contains(*input),
        forall|m: int| 0 <= m < methods@.len() ==> {
            &&& (#[trigger] methods@[m]).inputs@.len() <= MAX_VARIABLES
            &&& methods@[m].outputs@.len() <= MAX_VARIABLES
            &&& forall|j: int| 0 <= j < methods@[m].inputs@.len() ==> has_var(vars@, #[trigger] methods@[m].inputs@[j])
            &&& forall|j: int| 0 <= j < methods@[m].outputs@.len() ==> has_var(vars@, #[trigger] methods@[m].outputs@[j])
        },
    ensures
        r < methods@.len(),
        methods@[r as int].inputs@.contains(*input),
        forall|m: int| 0 <= m < methods@.len() && (#[trigger] methods@[m]).inputs@.contains(*input) ==> score(vars@, methods@[m]) <= score(vars@, methods@[r as int]),
        forall|m: int| r < m < methods@.len() && (#[trigger] methods@[m]).inputs@.contains(*input) ==> score(vars@, methods@[m]) < score(vars@, methods@[r as int]),
{
    let mut best: Option<(usize, i64)> = None;
    let mut i: usize = 0;
    while i < methods.len()
        invariant
            vars_ok(vars@),
            i <= methods@.len(),
            forall|m: int| 0 <= m < methods@.len() ==> {
                &&& (#[trigger] methods@[m]).inputs@.len() <= MAX_VARIABLES
                &&& methods@[m].outputs@.len() <= MAX_VARIABLES
                &&& forall|j: int| 0 <= j < methods@[m].inputs@.len() ==> has_var(vars@, #[trigger] methods@[m].inputs@[j])
                &&& forall|j: int| 0 <= j < methods@[m].outputs@.len() ==> has_var(vars@, #[trigger] methods@[m].outputs@[j])
            },
            match best {
                None => forall|m: int| 0 <= m < i ==> !(#[trigger] methods@[m]).inputs@.contains(*input),
                Some((b, sc)) => {
                    &&& b < i
                    &&& methods@[b as int].inputs@.contains(*input)
                    &&& sc == score(vars@, methods@[b as int])
                    &&& forall|m: int| 0 <= m < i && (#[trigger] methods@[m]).inputs@.contains(*input) ==> score(vars@, methods@[m]) <= sc
                    &&& forall|m: int| b < m < i && (#[trigger] methods@[m]).inputs@.contains(*input) ==> score(vars@, methods@[m]) < sc
                },
            },
        decreases methods@.len() - i,
    {
        let method = &methods[i];
        if contains_param(&method.inputs, input) {
            let sc = total_strength(vars, &method.inputs) - total_strength(vars, &method.outputs);
            match best {
                Some((_, best_score)) => {
                    if sc >= best_score {
                        best = Some((i, sc));
                    }
                },
                None => {
                    best = Some((i, sc));
                },
            }
        }
        i = i + 1;
    }
    match best {
        Some((b, _)) => b,
        None => {
            proof {
                let m = choose|m: int| 0 <= m < methods@.len() && (#[trigger] methods@[m]).inputs@.contains(*input);
                assert(!methods@[m].inputs@.contains(*input));
            }
            0
        },
    }
}

/// Adds `delta` to the strength of each of `params` other than `skip`.
fn adjust_strengths(
    vars: &mut Vec<Variable>,
    params: &Vec<TaskParameterDyn>,
    skip: Option<TaskParameterDyn>,
    delta: i32,
)
    requires
        delta == 1 || delta == -1,
        params@.no_duplicates(),
        forall|j: int| 0 <= j < params@.len() ==> has_var(old(vars)@, #[trigger] params@[j]),
        forall|a: int, b: int|
            0 <= a < old(vars)@.len() && 0 <= b < old(vars)@.len() && a != b ==> (#[trigger] old(vars)@[a]).value
                != (#[trigger] old(vars)@[b]).value,
        forall|i: int| 0 <= i < old(vars)@.len() ==> -STRENGTH_BOUND < (#[trigger] old(vars)@[i]).strength < STRENGTH_BOUND,
    ensures
        final(vars)@.len() == old(vars)@.len(),
        forall|i: int| 0 <= i < old(vars)@.len() ==> {
            &&& (#[trigger] final(vars)@[i]).value == old(vars)@[i].value
            &&& final(vars)@[i].constraints == old(vars)@[i].constraints
            &&& final(vars)@[i].strength == old(vars)@[i].strength + if params@.contains(old(vars)@[i].value) && skip != Some(old(vars)@[i].value) {
                delta as int
            } else {
                0int
            }
        },
{
    let ghost old_vars = vars@;
    let mut j: usize = 0;
    while j < params.len()
        invariant
            delta == 1 || delta == -1,
            params@.no_duplicates(),
            forall|k: int| 0 <= k < params@.len() ==> has_var(old_vars, #[trigger] params@[k]),
            forall|a: int, b: int|
                0 <= a < old_vars.len() && 0 <= b < old_vars.len() && a != b ==> (#[trigger] old_vars[a]).value != (#[trigger] old_vars[b]).value,
            forall|i: int| 0 <= i < old_vars.len() ==> -STRENGTH_BOUND < (#[trigger] old_vars[i]).strength < STRENGTH_BOUND,
            j <= params@.len(),
            vars@.len() == old_vars.len(),
            forall|i: int| 0 <= i < old_vars.len() ==> {
                &&& (#[trigger] vars@[i]).value == old_vars[i].value
                &&& vars@[i].constraints == old_vars[i].constraints
                &&& vars@[i].strength == old_vars[i].strength + if params@.take(j as int).contains(old_vars[i].value) && skip != Some(old_vars[i].value) {
                    delta as int
                } else {
                    0int
                }
            },
        decreases params@.len() - j,
    {
        let p = params[j];
        let ghost pre0 = params@.take(j as int);
        let ghost pre1 = params@.take(j + 1);
        proof {
            assert forall|x: TaskParameterDyn| #[trigger] pre1.contains(x) == (pre0.contains(x) || x == p) by {
                if pre1.contains(x) {
                    let k = choose|k: int| 0 <= k < pre1.len() && pre1[k] == x;
                    if k < j {
                        assert(pre0[k] == x);
                    }
                }
                if pre0.contains(x) {
                    let k = choose|k: int| 0 <= k < pre0.len() && pre0[k] == x;
                    assert(pre1[k] == x);
                }
                if x == p {
                    assert(pre1[j as int] == x);
                }
            }
            assert(!pre0.contains(p)) by {
                if pre0.contains(p) {
                    let k = choose|k: int| 0 <= k < pre0.len() && pre0[k] == p;
                    assert(params@[k] == params@[j as int]);
                }
            }
        }
        let skipped = match skip {
            Some(s) => s == p,
            None => false,
        };
        if !skipped {
            proof {
                let w = choose|w: int| 0 <= w < old_vars.len() && (#[trigger] old_vars[w]).value == p;
                assert(vars@[w].value == p);
            }
            let i = find_var(vars, &p).unwrap();
            vars[i].strength = vars[i].strength + delta;
        }
        j = j + 1;
    }
    proof {
        assert(params@.take(params@.len() as int) =~= params@);
    }
}

/// `vp` and `q` after adding, in order, each of `params` that `vp` does not
/// hold yet to the end of both.
spec fn enqueued(params: Seq<TaskParameterDyn>, vp: Seq<TaskParameterDyn>, q: Seq<TaskParameterDyn>) -> (Seq<TaskParameterDyn>, Seq<TaskParameterDyn>)
    decreases params.len(),
{
    if params.len() == 0 {
        (vp, q)
    } else {
        let prev = enqueued(params.drop_last(), vp, q);
        if prev.0.contains(params.last()) {
            prev
        } else {
            (prev.0.push(params.last()), prev.1.push(params.last()))
        }
    }
}

/// Adds each of `params` that `visited` does not hold to the end of it and to
/// the back of `queue`.
fn enqueue_new(
    params: &Vec<TaskParameterDyn>,
    visited: &mut Vec<TaskParameterDyn>,
    queue: &mut VecDeque<TaskParameterDyn>,
)
    requires
        old(visited)@.no_duplicates(),
    ensures
        final(visited)@.no_duplicates(),
        final(visited)@.to_set() == old(visited)@.to_set() + params@.to_set(),
        final(visited)@.len() >= old(visited)@.len(),
        final(visited)@.subrange(0, old(visited)@.len() as int) == old(visited)@,
        final(queue)@ == old(queue)@ + final(visited)@.skip(old(visited)@.len() as int),
        (final(visited)@, final(queue)@) == enqueued(params@, old(visited)@, old(queue)@),
{
    let ghost v_start = visited@;
    let ghost q_start = queue@;
    let mut j: usize = 0;
    proof {
        assert(params@.take(0).len() == 0);
    }
    while j < params.len()
        invariant
            j <= params@.len(),
            (visited@, queue@) == enqueued(params@.take(j as int), v_start, q_start),
            visited@.no_duplicates(),
            visited@.to_set() == v_start.to_set() + params@.take(j as int).to_set(),
            visited@.len() >= v_start.len(),
            visited@.subrange(0, v_start.len() as int) == v_start,
            queue@ == q_start + visited@.skip(v_start.len() as int),
        decreases params@.len() - j,
    {
        let p = params[j];
        let ghost v0 = visited@;
        proof {
            assert(params@.take(j + 1) =~= params@.take(j as int).push(p));
            assert(params@.take(j + 1).drop_last() =~= params@.take(j as int));
            params@.take(j as int).lemma_push_to_set_commute(p);
        }
        if !contains_param(visited, &p) {
            visited.push(p);
            queue.push_back(p);
            proof {
                v0.lemma_push_to_set_commute(p);
                assert forall|a: int, b: int| 0 <= a < visited@.len() && 0 <= b < visited@.len() && a != b implies visited@[a] != visited@[b] by {
                    if a < v0.len() && b < v0.len() {
                        assert(v0[a] != v0[b]);
                    } else if a < v0.len() {
                        assert(v0.contains(v0[a]));
                    } else {
                        assert(v0.contains(v0[b]));
                    }
                }
                assert(visited@.subrange(0, v_start.len() as int) =~= v0.subrange(0, v_start.len() as int));
                assert(visited@.skip(v_start.len() as int) =~= v0.skip(v_start.len() as int).push(p));
                assert(queue@ =~= q_start + visited@.skip(v_start.len() as int));
            }
        } else {
            proof {
                assert(v0.to_set().insert(p) =~= v0.to_set());
            }
        }
        proof {
            assert(visited@.to_set() =~= v_start.to_set() + params@.take(j + 1).to_set());
        }
        j = j + 1;
    }
    proof {
        assert(params@.take(params@.len() as int) =~= params@);
    }
}

/// The variables `b` are `a` with at most their strengths changed.
spec fn vars_same(a: Seq<Variable>, b: Seq<Variable>) -> bool {
    &&& b.len() == a.len()
    &&& forall|i: int| 0 <= i < a.len() ==> {
        &&& (#[trigger] b[i]).value == a[i].value
        &&& b[i].constraints == a[i].constraints
    }
}

proof fn lemma_vars_same_has_var(a: Seq<Variable>, b: Seq<Variable>)
    requires
        vars_same(a, b),
    ensures
        forall|p: TaskParameterDyn| #[trigger] has_var(b, p) == has_var(a, p),
{
    assert forall|p: TaskParameterDyn| #[trigger] has_var(b, p) == has_var(a, p) by {
        if has_var(a, p) {
            let w = choose|w: int| 0 <= w < a.len() && (#[trigger] a[w]).value == p;
            assert(b[w].value == p);
        }
        if has_var(b, p) {
            let w = choose|w: int| 0 <= w < b.len() && (#[trigger] b[w]).value == p;
            assert(a[w].value == p);
        }
    }
}

/// The strengths of a well-formed system lie between 0 and twice the
/// number of its constraints.
proof fn lemma_parts_bounds(vars: Seq<Variable>, cs: Map<u64, Constraint>)
    requires
        parts_wf(vars, cs),
    ensures
        forall|i: int| 0 <= i < vars.len() ==> 0 <= (#[trigger] vars[i]).strength <= 2 * MAX_CONSTRAINTS,
{
    assert forall|i: int| 0 <= i < vars.len() implies 0 <= (#[trigger] vars[i]).strength <= 2 * MAX_CONSTRAINTS by {
        let var = vars[i];
        let ids = ids_of(var.constraints@);
        lemma_strength_sum_bounds(ids, cs, var.value);
        assert forall|k: int| 0 <= k < ids.len() implies cs.contains_key(#[trigger] ids[k]) by {
            assert(key_id(var.constraints@[k]) == ids[k]);
        }
        lemma_ids_within(ids, cs);
    }
}

/// A sequence without duplicates whose items all occur in `t` is no longer than `t`.
proof fn lemma_len_within(s: Seq<TaskParameterDyn>, t: Seq<TaskParameterDyn>)
    requires
        s.no_duplicates(),
        forall|j: int| 0 <= j < s.len() ==> t.contains(#[trigger] s[j]),
    ensures
        s.len() <= t.len(),
{
    s.unique_seq_to_set();
    t.lemma_cardinality_of_set();
    vstd::seq_lib::seq_to_set_is_finite(t);
    assert forall|x: TaskParameterDyn| s.to_set().contains(x) implies t.to_set().contains(x) by {
        let j = choose|j: int| 0 <= j < s.len() && s[j] == x;
        assert(t.contains(s[j]));
    }
    vstd::set_lib::lemma_len_subset(s.to_set(), t.to_set());
}

/// What the methods of a constraint of a well-formed system read and write
/// are parameters of the system, and there are not too many of them.
proof fn lemma_method_facts(vars: Seq<Variable>, cs: Map<u64, Constraint>, id: u64)
    requires
        parts_wf(vars, cs),
        cs.contains_key(id),
    ensures
        forall|m: int| 0 <= m < cs[id].methods@.len() ==> {
            &&& (#[trigger] cs[id].methods@[m]).inputs@.len() <= MAX_VARIABLES
            &&& cs[id].methods@[m].outputs@.len() <= MAX_VARIABLES
            &&& forall|j: int| 0 <= j < cs[id].methods@[m].inputs@.len() ==> has_var(vars, #[trigger] cs[id].methods@[m].inputs@[j])
            &&& forall|j: int| 0 <= j < cs[id].methods@[m].outputs@.len() ==> has_var(vars, #[trigger] cs[id].methods@[m].outputs@[j])
            &&& forall|p: TaskParameterDyn| #[trigger] cs[id].methods@[m].inputs@.contains(p) ==> cs[id].variables@.contains(p)
            &&& forall|p: TaskParameterDyn| #[trigger] cs[id].methods@[m].outputs@.contains(p) ==> cs[id].variables@.contains(p)
        },
{
    let c = cs[id];
    assert(c.wf());
    assert forall|m: int| 0 <= m < c.methods@.len() implies {
        &&& (#[trigger] cs[id].methods@[m]).inputs@.len() <= MAX_VARIABLES
        &&& cs[id].methods@[m].outputs@.len() <= MAX_VARIABLES
        &&& forall|j: int| 0 <= j < cs[id].methods@[m].inputs@.len() ==> has_var(vars, #[trigger] cs[id].methods@[m].inputs@[j])
        &&& forall|j: int| 0 <= j < cs[id].methods@[m].outputs@.len() ==> has_var(vars, #[trigger] cs[id].methods@[m].outputs@[j])
        &&& forall|p: TaskParameterDyn| #[trigger] cs[id].methods@[m].inputs@.contains(p) ==> cs[id].variables@.contains(p)
        &&& forall|p: TaskParameterDyn| #[trigger] cs[id].methods@[m].outputs@.contains(p) ==> cs[id].variables@.contains(p)
    } by {
        let me = c.methods@[m];
        assert(me.wf(c.variables@.to_set()));
        assert forall|p: TaskParameterDyn| #[trigger] me.inputs@.contains(p) implies c.variables@.contains(p) by {
            assert(me.inputs@.to_set().contains(p));
            assert(c.variables@.to_set().contains(p));
        }
        assert forall|p: TaskParameterDyn| #[trigger] me.outputs@.contains(p) implies c.variables@.contains(p) by {
            assert(me.outputs@.to_set().contains(p));
            assert(c.variables@.to_set().contains(p));
        }
        assert forall|j: int| 0 <= j < me.inputs@.len() implies has_var(vars, #[trigger] me.inputs@[j]) by {
            assert(me.inputs@.contains(me.inputs@[j]));
            assert(cs.contains_key(id) && cs[id].variables@.contains(me.inputs@[j]));
        }
        assert forall|j: int| 0 <= j < me.outputs@.len() implies has_var(vars, #[trigger] me.outputs@[j]) by {
            assert(me.outputs@.contains(me.outputs@[j]));
            assert(cs.contains_key(id) && cs[id].variables@.contains(me.outputs@[j]));
        }
        assert forall|j: int| 0 <= j < me.inputs@.len() implies c.variables@.contains(#[trigger] me.inputs@[j]) by {
            assert(me.inputs@.contains(me.inputs@[j]));
        }
        assert forall|j: int| 0 <= j < me.outputs@.len() implies c.variables@.contains(#[trigger] me.outputs@[j]) by {
            assert(me.outputs@.contains(me.outputs@[j]));
        }
        lemma_len_within(me.inputs@, c.variables@);
        lemma_len_within(me.outputs@, c.variables@);
    }
}

/// Replacing constraint `id` by `c_new`, over the same parameters and
/// methods, keeps a system well formed when each strength moves by the change
/// of what the constraint contributes to it.
proof fn lemma_change_constraint(
    vars_a: Seq<Variable>,
    vars_b: Seq<Variable>,
    cs: Map<u64, Constraint>,
    id: u64,
    c_new: Constraint,
)
    requires
        parts_wf(vars_a, cs),
        cs.contains_key(id),
        c_new.variables == cs[id].variables,
        c_new.methods == cs[id].methods,
        c_new.selected_method matches Some(s) ==> s < c_new.methods@.len(),
        c_new.methods@.len() == 1 ==> c_new.selected_method == Some(0usize),
        vars_same(vars_a, vars_b),
        forall|i: int| 0 <= i < vars_a.len() ==> (#[trigger] vars_b[i]).strength == vars_a[i].strength + if cs[id].variables@.contains(vars_a[i].value) {
            contribution(c_new, vars_a[i].value) - contribution(cs[id], vars_a[i].value)
        } else {
            0int
        },
    ensures
        parts_wf(vars_b, cs.insert(id, c_new)),
{
    let ncs = cs.insert(id, c_new);
    assert(cs[id].wf());
    assert(c_new.wf());
    assert(ncs.dom() =~= cs.dom());
    assert forall|x: u64| #[trigger] ncs.contains_key(x) implies {
        &&& ncs[x].wf()
        &&& ncs[x].methods@.len() == 1 ==> ncs[x].selected_method == Some(0usize)
    } by {
        if x != id {
            assert(cs.contains_key(x));
        }
    }
    assert forall|i: int| 0 <= i < vars_b.len() implies {
        let var = #[trigger] vars_b[i];
        &&& ids_of(var.constraints@).no_duplicates()
        &&& forall|k: int| 0 <= k < var.constraints@.len() ==> {
            let x = #[trigger] key_id(var.constraints@[k]);
            &&& ncs.contains_key(x)
            &&& ncs[x].variables@.contains(var.value)
        }
        &&& var.strength == strength_sum(ids_of(var.constraints@), ncs, var.value)
    } by {
        let va = vars_a[i];
        let vb = vars_b[i];
        let ids = ids_of(va.constraints@);
        assert(vb.constraints@ == va.constraints@);
        assert forall|k: int| 0 <= k < vb.constraints@.len() implies {
            let x = #[trigger] key_id(vb.constraints@[k]);
            &&& ncs.contains_key(x)
            &&& ncs[x].variables@.contains(vb.value)
        } by {
            assert(key_id(va.constraints@[k]) == key_id(vb.constraints@[k]));
        }
        lemma_strength_sum_update(ids, cs, id, c_new, va.value);
        if cs[id].variables@.contains(va.value) {
            assert(has_var(vars_a, va.value));
            let w = var_index(vars_a, va.value);
            if w != i {
                assert(vars_a[w].value != vars_a[i].value);
            }
            assert(ids.contains(id));
        } else {
            if ids.contains(id) {
                let k = choose|k: int| 0 <= k < ids.len() && ids[k] == id;
                assert(key_id(va.constraints@[k]) == id);
            }
        }
    }
    assert forall|x: u64, p: TaskParameterDyn| #[trigger] ncs.contains_key(x) && #[trigger] ncs[x].variables@.contains(p) implies {
        &&& has_var(vars_b, p)
        &&& ids_of(vars_b[var_index(vars_b, p)].constraints@).contains(x)
    } by {
        assert(cs.contains_key(x) && cs[x].variables@.contains(p));
        lemma_vars_same_has_var(vars_a, vars_b);
        let w = var_index(vars_a, p);
        let wb = var_index(vars_b, p);
        assert(vars_b[w].value == p);
        if wb != w {
            assert(vars_a[wb].value == p);
            assert(vars_a[wb].value != vars_a[w].value);
        }
    }
    assert forall|a: int, b: int| 0 <= a < vars_b.len() && 0 <= b < vars_b.len() && a != b implies (#[trigger] vars_b[a]).value != (#[trigger] vars_b[b]).value by {
        assert(vars_a[a].value != vars_a[b].value);
    }
}

/// Whether `r` is the method that planning picks among `methods` for the
/// input `v` under the strengths of `vars`: one that reads `v`, with the
/// highest score, the last of equal ones.
spec fn is_choice(vars: Seq<Variable>, methods: Seq<Method>, v: TaskParameterDyn, r: int) -> bool {
    &&& 0 <= r < methods.len()
    &&& methods[r].inputs@.contains(v)
    &&& forall|m: int| 0 <= m < methods.len() && (#[trigger] methods[m]).inputs@.contains(v) ==> score(vars, methods[m]) <= score(vars, methods[r])
    &&& forall|m: int| r < m < methods.len() && (#[trigger] methods[m]).inputs@.contains(v) ==> score(vars, methods[m]) < score(vars, methods[r])
}

/// The method that planning picks among `methods` for the input `v`.
spec fn choice(vars: Seq<Variable>, methods: Seq<Method>, v: TaskParameterDyn) -> int {
    choose|r: int| is_choice(vars, methods, v, r)
}

proof fn lemma_choice_unique(vars: Seq<Variable>, methods: Seq<Method>, v: TaskParameterDyn, r: int)
    requires
        is_choice(vars, methods, v, r),
    ensures
        choice(vars, methods, v) == r,
{
    let c = choice(vars, methods, v);
    assert(is_choice(vars, methods, v, c));
    if c < r {
        assert(methods[r].inputs@.contains(v));
    }
    if r < c {
        assert(methods[c].inputs@.contains(v));
    }
}

/// `vars` with `delta` added to the strength of each of `params` other than `skip`.
spec fn adjusted(vars: Seq<Variable>, params: Seq<TaskParameterDyn>, skip: Option<TaskParameterDyn>, delta: int) -> Seq<Variable> {
    Seq::new(
        vars.len(),
        |i: int|
            Variable {
                constraints: vars[i].constraints,
                strength: (vars[i].strength + if params.contains(vars[i].value) && skip != Some(vars[i].value) {
                    delta
                } else {
                    0int
                }) as i32,
                value: vars[i].value,
            },
    )
}

/// The variables after planning selects, for constraint `c` and input `v`,
/// the method `choice` gives: the strengths move from the method selected
/// before, if any, to the new one.
spec fn replanned_vars(vars: Seq<Variable>, c: Constraint, v: TaskParameterDyn) -> Seq<Variable> {
    let sel = choice(vars, c.methods@, v);
    let vars1 = match c.selected_method {
        Some(prev) => adjusted(
            adjusted(vars, c.methods@[prev as int].inputs@, c.last_input, 1),
            c.methods@[prev as int].outputs@,
            None,
            -1,
        ),
        None => vars,
    };
    adjusted(adjusted(vars1, c.methods@[sel].inputs@, Some(v), -1), c.methods@[sel].outputs@, None, 1)
}

/// What `adjust_strengths` ensures of `a` and `b` is `b == adjusted(a, ..)`.
proof fn lemma_adjusted(
    a: Seq<Variable>,
    b: Seq<Variable>,
    params: Seq<TaskParameterDyn>,
    skip: Option<TaskParameterDyn>,
    delta: int,
)
    requires
        b.len() == a.len(),
        forall|i: int| 0 <= i < a.len() ==> {
            &&& (#[trigger] b[i]).value == a[i].value
            &&& b[i].constraints == a[i].constraints
            &&& b[i].strength == a[i].strength + if params.contains(a[i].value) && skip != Some(a[i].value) {
                delta
            } else {
                0int
            }
        },
    ensures
        b == adjusted(a, params, skip, delta),
{
    let r = adjusted(a, params, skip, delta);
    assert forall|i: int| 0 <= i < a.len() implies b[i] == r[i] by {
        assert(b[i].value == r[i].value);
        assert(b[i].constraints == r[i].constraints);
        assert(b[i].strength == r[i].strength);
    }
    assert(b =~= r);
}

/// `c` with no method selected.
spec fn deselected(c: Constraint) -> Constraint {
    Constraint {
        name: c.name,
        variables: c.variables,
        methods: c.methods,
        selected_method: None,
        last_input: c.last_input,
    }
}

/// `c` with method `sel` selected for the input `v`.
spec fn with_selection(c: Constraint, sel: usize, v: TaskParameterDyn) -> Constraint {
    Constraint {
        name: c.name,
        variables: c.variables,
        methods: c.methods,
        selected_method: Some(sel),
        last_input: Some(v),
    }
}

impl System {
    /// Selects, for the constraint `key` with several methods, the method
    /// that `choose_method` picks for the input `v` under the present
    /// strengths, and moves the strengths from the method selected before to
    /// the new one.
    #[verifier::spinoff_prover]
    #[verifier::rlimit(80)]
    fn replan_constraint(&mut self, key: DefaultKey, v: TaskParameterDyn) -> (sel: usize)
        requires
            old(self).wf(),
            slots(old(self).constraints).contains_key(key_id(key)),
            slots(old(self).constraints)[key_id(key)].methods@.len() > 1,
            exists|m: int|
                0 <= m < slots(old(self).constraints)[key_id(key)].methods@.len()
                    && (#[trigger] slots(old(self).constraints)[key_id(key)].methods@[m]).inputs@.contains(v),
        ensures
            final(self).wf(),
            vars_same(old(self).vars@, final(self).vars@),
            sel < slots(old(self).constraints)[key_id(key)].methods@.len(),
            slots(old(self).constraints)[key_id(key)].methods@[sel as int].inputs@.contains(v),
            slots(final(self).constraints) == slots(old(self).constraints).insert(
                key_id(key),
                with_selection(slots(old(self).constraints)[key_id(key)], sel, v),
            ),
            sel == choice(old(self).vars@, slots(old(self).constraints)[key_id(key)].methods@, v),
            final(self).vars@ == replanned_vars(old(self).vars@, slots(old(self).constraints)[key_id(key)], v),
    {
        let ghost cs0 = slots(self.constraints);
        let ghost vars0 = self.vars@;
        let ghost id = key_id(key);
        let ghost c0 = cs0[id];
        proof {
            lemma_parts_bounds(vars0, cs0);
            lemma_method_facts(vars0, cs0, id);
            assert(c0.wf());
        }
        let c = slot_map_get(&self.constraints, key);
        let sel = choose_method(&c.methods, &v, &self.vars);
        proof {
            assert(c0.methods@[sel as int].wf(c0.variables@.to_set()));
            lemma_choice_unique(vars0, c0.methods@, v, sel as int);
        }
        match c.selected_method {
            Some(prev) => {
                proof {
                    assert(c0.methods@[prev as int].wf(c0.variables@.to_set()));
                }
                adjust_strengths(&mut self.vars, &c.methods[prev].inputs, c.last_input, 1);
                proof {
                    lemma_vars_same_has_var(vars0, self.vars@);
                    lemma_adjusted(vars0, self.vars@, c0.methods@[prev as int].inputs@, c0.last_input, 1);
                }
                let ghost va = self.vars@;
                adjust_strengths(&mut self.vars, &c.methods[prev].outputs, None, -1);
                proof {
                    lemma_adjusted(va, self.vars@, c0.methods@[prev as int].outputs@, None, -1);
                }
            },
            None => {},
        }
        let ghost vars1 = self.vars@;
        let ghost cs1 = cs0.insert(id, deselected(c0));
        proof {
            lemma_vars_same_has_var(vars0, vars1);
            assert forall|i: int| 0 <= i < vars0.len() implies (#[trigger] vars1[i]).strength == vars0[i].strength + if c0.variables@.contains(vars0[i].value) {
                contribution(deselected(c0), vars0[i].value) - contribution(c0, vars0[i].value)
            } else {
                0int
            } by {
                let p = vars0[i].value;
                if let Some(prev) = c0.selected_method {
                    let pm = c0.methods@[prev as int];
                    if !c0.variables@.contains(p) {
                        assert(!pm.inputs@.contains(p));
                        assert(!pm.outputs@.contains(p));
                    }
                }
            }
            lemma_change_constraint(vars0, vars1, cs0, id, deselected(c0));
            lemma_parts_bounds(vars1, cs1);
        }
        adjust_strengths(&mut self.vars, &c.methods[sel].inputs, Some(v), -1);
        proof {
            lemma_vars_same_has_var(vars0, self.vars@);
            lemma_adjusted(vars1, self.vars@, c0.methods@[sel as int].inputs@, Some(v), -1);
        }
        let ghost vb = self.vars@;
        adjust_strengths(&mut self.vars, &c.methods[sel].outputs, None, 1);
        let ghost vars2 = self.vars@;
        proof {
            lemma_adjusted(vb, vars2, c0.methods@[sel as int].outputs@, None, 1);
            assert(vars2 == replanned_vars(vars0, c0, v));
            assert forall|i: int| 0 <= i < vars1.len() implies (#[trigger] vars2[i]).strength == vars1[i].strength + if cs1[id].variables@.contains(vars1[i].value) {
                contribution(with_selection(c0, sel, v), vars1[i].value) - contribution(cs1[id], vars1[i].value)
            } else {
                0int
            } by {
                let p = vars1[i].value;
                let sm = c0.methods@[sel as int];
                if !c0.variables@.contains(p) {
                    assert(!sm.inputs@.contains(p));
                    assert(!sm.outputs@.contains(p));
                }
            }
            lemma_change_constraint(vars1, vars2, cs1, id, with_selection(c0, sel, v));
            assert(cs1.insert(id, with_selection(c0, sel, v)) =~= cs0.insert(id, with_selection(c0, sel, v)));
        }
        let cm = slot_map_get_mut(&mut self.constraints, key);
        cm.selected_method = Some(sel);
        cm.last_input = Some(v);
        sel
    }
}

/// Whether `ids` holds `id`.
fn contains_id(ids: &Vec<u64>, id: u64) -> (r: bool)
    ensures
        r == ids@.contains(id),
{
    let mut i: usize = 0;
    while i < ids.len()
        invariant
            i <= ids@.len(),
            forall|j: int| 0 <= j < i ==> ids@[j] != id,
        decreases ids@.len() - i,
    {
        if ids[i] == id {
            return true;
        }
        i = i + 1;
    }
    false
}

/// Whether the selected method of `c` writes `q`.
pub open spec fn selected_writes(c: Constraint, q: TaskParameterDyn) -> bool {
    &&& c.spec_selected() is Some
    &&& c.spec_selected()->0 < c.spec_methods().len()
    &&& c.spec_methods()[c.spec_selected()->0 as int].spec_outputs().contains(q)
}

/// What visiting the constraint `before` from the parameter `v` makes of it:
/// one with a single method stays as it is; another gets a method selected
/// that reads `v`, with `v` as the input it was selected for.
spec fn stepped(before: Constraint, after: Constraint, v: TaskParameterDyn) -> bool {
    if before.methods@.len() == 1 {
        after == before
    } else {
        exists|sel: usize|
            sel < before.methods@.len() && before.methods@[sel as int].inputs@.contains(v) && after == #[trigger] with_selection(before, sel, v)
    }
}

/// Whether `x` is a constraint on `v` that `cs0` holds and `vc0` does not
/// list, and whose selected method in `cs` writes `q`.
spec fn new_writer(
    cs: Map<u64, Constraint>,
    cs0: Map<u64, Constraint>,
    vc0: Seq<u64>,
    v: TaskParameterDyn,
    q: TaskParameterDyn,
    x: u64,
) -> bool {
    &&& cs0.contains_key(x)
    &&& cs0[x].variables@.contains(v)
    &&& !vc0.contains(x)
    &&& selected_writes(cs[x], q)
}

/// Whether some constraint among `ids` is a `new_writer` of `q`.
spec fn written_by(
    ids: Seq<u64>,
    cs: Map<u64, Constraint>,
    cs0: Map<u64, Constraint>,
    vc0: Seq<u64>,
    v: TaskParameterDyn,
    q: TaskParameterDyn,
) -> bool {
    exists|x: u64| ids.contains(x) && #[trigger] new_writer(cs, cs0, vc0, v, q, x)
}

/// Whether some constraint is a `new_writer` of `q`.
spec fn written_new(
    cs: Map<u64, Constraint>,
    cs0: Map<u64, Constraint>,
    vc0: Seq<u64>,
    v: TaskParameterDyn,
    q: TaskParameterDyn,
) -> bool {
    exists|x: u64| #[trigger] new_writer(cs, cs0, vc0, v, q, x)
}

/// A state of planning: the variables, the constraints, the parameters
/// visited, the constraints visited, the queue of parameters to visit, and
/// whether planning could go on so far.
struct PlanState {
    vars: Seq<Variable>,
    cs: Map<u64, Constraint>,
    vp: Seq<TaskParameterDyn>,
    vc: Seq<u64>,
    q: Seq<TaskParameterDyn>,
    ok: bool,
}

/// The state of planning made of these parts, planning going on.
spec fn state_of(
    vars: Seq<Variable>,
    cs: Map<u64, Constraint>,
    vp: Seq<TaskParameterDyn>,
    vc: Seq<u64>,
    q: Seq<TaskParameterDyn>,
) -> PlanState {
    PlanState { vars, cs, vp, vc, q, ok: true }
}

/// Whether some method of `c` reads `v`.
spec fn has_reader_spec(c: Constraint, v: TaskParameterDyn) -> bool {
    exists|m: int| 0 <= m < c.methods@.len() && #[trigger] c.methods@[m].inputs@.contains(v)
}

/// Planning visits constraint `id` from parameter `v`: a constraint visited
/// before stays as it is; one with a single method has what it writes
/// queued; one with several methods and none that reads `v` stops planning;
/// otherwise the method `choice` gives is selected for `v`, the strengths move
/// to it, and what it writes is queued.
spec fn visit(st: PlanState, v: TaskParameterDyn, id: u64) -> PlanState {
    if !st.ok || st.vc.contains(id) {
        st
    } else {
        let c = st.cs[id];
        if c.methods@.len() == 1 {
            let e = enqueued(c.methods@[0].outputs@, st.vp, st.q);
            PlanState { vars: st.vars, cs: st.cs, vp: e.0, vc: st.vc.push(id), q: e.1, ok: true }
        } else if !has_reader_spec(c, v) {
            PlanState { vars: st.vars, cs: st.cs, vp: st.vp, vc: st.vc, q: st.q, ok: false }
        } else {
            let sel = choice(st.vars, c.methods@, v);
            let e = enqueued(c.methods@[sel].outputs@, st.vp, st.q);
            PlanState {
                vars: replanned_vars(st.vars, c, v),
                cs: st.cs.insert(id, with_selection(c, sel as usize, v)),
                vp: e.0,
                vc: st.vc.push(id),
                q: e.1,
                ok: true,
            }
        }
    }
}

/// Planning visits the constraints `ids`, in order, from parameter `v`.
spec fn visit_all(st: PlanState, v: TaskParameterDyn, ids: Seq<u64>) -> PlanState
    decreases ids.len(),
{
    if ids.len() == 0 {
        st
    } else {
        visit(visit_all(st, v, ids.drop_last()), v, ids.last())
    }
}

/// The constraints on `v` in the order they were added, as `vars` lists them.
spec fn ids_on(vars: Seq<Variable>, v: TaskParameterDyn) -> Seq<u64> {
    ids_of(vars[var_index(vars, v)].constraints@)
}

/// Planning takes up to `fuel` parameters from the front of the queue and
/// visits the constraints on each.
spec fn run(st: PlanState, fuel: nat) -> PlanState
    decreases fuel,
{
    if fuel == 0 || !st.ok || st.q.len() == 0 {
        st
    } else {
        let v = st.q[0];
        let popped = PlanState { vars: st.vars, cs: st.cs, vp: st.vp, vc: st.vc, q: st.q.drop_first(), ok: true };
        run(visit_all(popped, v, ids_on(st.vars, v)), (fuel - 1) as nat)
    }
}

/// Planning from `event`, from its first step to its end.
spec fn plan_run(s: System, event: TaskParameterDyn) -> PlanState {
    run(
        state_of(s.vars@, slots(s.constraints), Seq::empty(), Seq::empty(), seq![event]),
        (2 * s.vars@.len() + 2) as nat,
    )
}

proof fn lemma_visit_all_stuck(st: PlanState, v: TaskParameterDyn, ids: Seq<u64>, k: int)
    requires
        0 <= k <= ids.len(),
        !visit_all(st, v, ids.take(k)).ok,
    ensures
        !visit_all(st, v, ids).ok,
    decreases ids.len(),
{
    if k < ids.len() {
        assert(ids.drop_last().take(k) =~= ids.take(k));
        lemma_visit_all_stuck(st, v, ids.drop_last(), k);
    } else {
        assert(ids.take(k) =~= ids);
    }
}

impl System {
    /// Whether planning from `event` goes through: `event` is a parameter of
    /// the system, and at each constraint with several methods that planning
    /// visits, some method reads the parameter it is visited from.
    ///
    /// Planning starts with `event` in a queue of parameters; it takes the
    /// parameter at the front of the queue and visits each constraint on it
    /// that it has not visited yet, in the order they were added. At a
    /// constraint with a single method it queues what that method writes. At
    /// a constraint with several methods it selects, among those that read the
    /// parameter, the one with the highest score (the strengths of what it
    /// reads minus the strengths of what it writes), the last of equal ones;
    /// it takes back what the method selected before added to the strengths
    /// and adds what the new one does; and it queues what the new method
    /// writes. A parameter is queued once, the event aside.
    pub closed spec fn plan_succeeds(self, event: TaskParameterDyn) -> bool {
        has_var(self.vars@, event) && plan_run(self, event).ok
    }

    /// The constraints as planning from `event` leaves them.
    pub closed spec fn planned_constraints(self, event: TaskParameterDyn) -> Map<u64, Constraint> {
        plan_run(self, event).cs
    }

    /// The strength of `p` as planning from `event` leaves it.
    pub closed spec fn planned_strength(self, event: TaskParameterDyn, p: TaskParameterDyn) -> int {
        var_strength(plan_run(self, event).vars, p)
    }

    /// The constraints that planning from `event` visits, in the order it
    /// visits them.
    pub closed spec fn planned_visits(self, event: TaskParameterDyn) -> Seq<u64> {
        plan_run(self, event).vc
    }

    /// The parameters that planning from `event` queues after `event`, in the
    /// order it queues them; planning takes each from the queue once, after
    /// `event`.
    pub closed spec fn planned_reached(self, event: TaskParameterDyn) -> Seq<TaskParameterDyn> {
        plan_run(self, event).vp
    }

    /// The parameters in the order planning from `event` takes them from its
    /// queue: `event`, then those it reached.
    pub open spec fn planned_order(self, event: TaskParameterDyn) -> Seq<TaskParameterDyn> {
        seq![event] + self.planned_reached(event)
    }

    /// The number of parameters that planning from `event` takes from its
    /// queue.
    pub closed spec fn planned_pops(self, event: TaskParameterDyn) -> nat {
        run_pops(
            state_of(self.vars@, slots(self.constraints), Seq::empty(), Seq::empty(), seq![event]),
            (2 * self.vars@.len() + 2) as nat,
        )
    }
}

/// The sum of `f` over `ps`.
pub open spec fn total_by(ps: Seq<TaskParameterDyn>, f: spec_fn(TaskParameterDyn) -> int) -> int
    decreases ps.len(),
{
    if ps.len() == 0 {
        0
    } else {
        total_by(ps.drop_last(), f) + f(ps.last())
    }
}

/// The score of method `m` under the strengths `f`: the strengths of what it
/// reads minus the strengths of what it writes.
pub open spec fn method_score(m: Method, f: spec_fn(TaskParameterDyn) -> int) -> int {
    total_by(m.spec_inputs(), f) - total_by(m.spec_outputs(), f)
}

proof fn lemma_total_by(vars: Seq<Variable>, ps: Seq<TaskParameterDyn>, f: spec_fn(TaskParameterDyn) -> int)
    requires
        forall|p: TaskParameterDyn| #[trigger] f(p) == var_strength(vars, p),
    ensures
        total_by(ps, f) == strength_total(vars, ps),
    decreases ps.len(),
{
    if ps.len() > 0 {
        lemma_total_by(vars, ps.drop_last(), f);
    }
}

/// The best of the first `n` methods for the input `v`, where one of them reads it.
proof fn lemma_best_upto(vars: Seq<Variable>, methods: Seq<Method>, v: TaskParameterDyn, n: int) -> (r: int)
    requires
        0 <= n <= methods.len(),
        exists|m: int| 0 <= m < n && #[trigger] methods[m].inputs@.contains(v),
    ensures
        0 <= r < n,
        methods[r].inputs@.contains(v),
        forall|m: int| 0 <= m < n && (#[trigger] methods[m]).inputs@.contains(v) ==> score(vars, methods[m]) <= score(vars, methods[r]),
        forall|m: int| r < m < n && (#[trigger] methods[m]).inputs@.contains(v) ==> score(vars, methods[m]) < score(vars, methods[r]),
    decreases n,
{
    let last = n - 1;
    if exists|m: int| 0 <= m < last && #[trigger] methods[m].inputs@.contains(v) {
        let r0 = lemma_best_upto(vars, methods, v, last);
        if methods[last].inputs@.contains(v) && score(vars, methods[last]) >= score(vars, methods[r0]) {
            last
        } else {
            r0
        }
    } else {
        let m = choose|m: int| 0 <= m < n && #[trigger] methods[m].inputs@.contains(v);
        assert(m == last);
        last
    }
}

/// Where some method reads `v`, `choice` picks as `is_choice` says.
proof fn lemma_choice_exists(vars: Seq<Variable>, methods: Seq<Method>, v: TaskParameterDyn)
    requires
        exists|m: int| 0 <= m < methods.len() && #[trigger] methods[m].inputs@.contains(v),
    ensures
        is_choice(vars, methods, v, choice(vars, methods, v)),
{
    let r = lemma_best_upto(vars, methods, v, methods.len() as int);
    assert(is_choice(vars, methods, v, r));
}

proof fn lemma_visit_facts(st: PlanState, v: TaskParameterDyn, x: u64, id: u64)
    ensures
        visit(st, v, x).ok ==> st.ok,
        !st.ok ==> visit(st, v, x) == st,
        visit(st, v, x).vc.contains(id) ==> st.vc.contains(id) || id == x,
        st.vc.contains(id) ==> visit(st, v, x).vc.contains(id) && visit(st, v, x).cs[id] == st.cs[id],
        x != id ==> visit(st, v, x).cs[id] == st.cs[id],
{
    let r = visit(st, v, x);
    if st.ok && !st.vc.contains(x) && r.vc == st.vc.push(x) {
        if r.vc.contains(id) {
            let k = choose|k: int| 0 <= k < r.vc.len() && r.vc[k] == id;
            if k < st.vc.len() {
                assert(st.vc[k] == id);
            }
        }
        if st.vc.contains(id) {
            let k = choose|k: int| 0 <= k < st.vc.len() && st.vc[k] == id;
            assert(r.vc[k] == id);
        }
    }
}

proof fn lemma_visit_all_facts(st: PlanState, v: TaskParameterDyn, ids: Seq<u64>, id: u64)
    ensures
        visit_all(st, v, ids).ok ==> st.ok,
        !st.ok ==> visit_all(st, v, ids) == st,
        visit_all(st, v, ids).vc.contains(id) ==> st.vc.contains(id) || ids.contains(id),
        st.vc.contains(id) ==> visit_all(st, v, ids).vc.contains(id) && visit_all(st, v, ids).cs[id] == st.cs[id],
        !ids.contains(id) ==> visit_all(st, v, ids).cs[id] == st.cs[id],
    decreases ids.len(),
{
    if ids.len() > 0 {
        let init = ids.drop_last();
        lemma_visit_all_facts(st, v, init, id);
        lemma_visit_facts(visit_all(st, v, init), v, ids.last(), id);
        if init.contains(id) {
            let k = choose|k: int| 0 <= k < init.len() && init[k] == id;
            assert(ids[k] == id);
        }
        if !ids.contains(id) {
            assert(!init.contains(id)) by {
                if init.contains(id) {
                    let k = choose|k: int| 0 <= k < init.len() && init[k] == id;
                    assert(ids[k] == id);
                }
            }
            assert(ids[ids.len() - 1] != id);
        }
        if ids.last() == id {
            assert(ids[ids.len() - 1] == id);
        }
    }
}

/// Visiting `ids` is visiting its first `k`, then the rest.
proof fn lemma_visit_all_split(st: PlanState, v: TaskParameterDyn, ids: Seq<u64>, k: int)
    requires
        0 <= k <= ids.len(),
    ensures
        visit_all(st, v, ids) == visit_all(visit_all(st, v, ids.take(k)), v, ids.skip(k)),
    decreases ids.len(),
{
    if k == ids.len() {
        assert(ids.take(k) =~= ids);
        assert(ids.skip(k) =~= Seq::<u64>::empty());
    } else {
        let init = ids.drop_last();
        lemma_visit_all_split(st, v, init, k);
        assert(init.take(k) =~= ids.take(k));
        assert(ids.skip(k).drop_last() =~= init.skip(k));
        assert(ids.skip(k).last() == ids.last());
    }
}

proof fn lemma_run_facts(st: PlanState, fuel: nat, id: u64)
    ensures
        run(st, fuel).ok ==> st.ok,
        st.vc.contains(id) ==> run(st, fuel).vc.contains(id) && run(st, fuel).cs[id] == st.cs[id],
    decreases fuel,
{
    if !(fuel == 0 || !st.ok || st.q.len() == 0) {
        let v = st.q[0];
        let popped = PlanState { vars: st.vars, cs: st.cs, vp: st.vp, vc: st.vc, q: st.q.drop_first(), ok: true };
        let mid = visit_all(popped, v, ids_on(st.vars, v));
        lemma_visit_all_facts(popped, v, ids_on(st.vars, v), id);
        lemma_run_facts(mid, (fuel - 1) as nat, id);
    }
}

/// The first position of `id` in `ids`.
spec fn first_pos(ids: Seq<u64>, id: u64) -> int {
    choose|k: int| 0 <= k < ids.len() && ids[k] == id && !ids.take(k).contains(id)
}

proof fn lemma_first_pos(ids: Seq<u64>, id: u64)
    requires
        ids.contains(id),
    ensures
        0 <= first_pos(ids, id) < ids.len(),
        ids[first_pos(ids, id)] == id,
        !ids.take(first_pos(ids, id)).contains(id),
    decreases ids.len(),
{
    let j = choose|j: int| 0 <= j < ids.len() && ids[j] == id;
    if ids.take(j).contains(id) {
        lemma_first_pos(ids.take(j), id);
        let k = first_pos(ids.take(j), id);
        assert(ids.take(j).take(k) =~= ids.take(k));
        assert(ids[k] == id);
    } else {
        assert(0 <= j < ids.len() && ids[j] == id && !ids.take(j).contains(id));
    }
}

/// The state in which planning comes to constraint `id`, before it visits
/// it, and the parameter it comes from.
spec fn run_before(st: PlanState, fuel: nat, id: u64) -> (PlanState, TaskParameterDyn)
    decreases fuel,
{
    if fuel == 0 || !st.ok || st.q.len() == 0 {
        (st, st.q[0])
    } else {
        let v = st.q[0];
        let popped = PlanState { vars: st.vars, cs: st.cs, vp: st.vp, vc: st.vc, q: st.q.drop_first(), ok: true };
        let ids = ids_on(st.vars, v);
        if ids.contains(id) {
            (visit_all(popped, v, ids.take(first_pos(ids, id))), v)
        } else {
            run_before(visit_all(popped, v, ids), (fuel - 1) as nat, id)
        }
    }
}

/// Where planning goes through and visits constraint `id` with several
/// methods, it selects for it the method `choice` gives under the strengths
/// of the state in which it comes to it, for the parameter it comes from.
proof fn lemma_run_selects(st: PlanState, fuel: nat, id: u64)
    requires
        run(st, fuel).ok,
        run(st, fuel).vc.contains(id),
        !st.vc.contains(id),
        st.cs[id].methods@.len() > 1,
    ensures
        run_before(st, fuel, id).0.cs[id] == st.cs[id],
        has_reader_spec(st.cs[id], run_before(st, fuel, id).1),
        run(st, fuel).cs[id] == with_selection(
            st.cs[id],
            choice(run_before(st, fuel, id).0.vars, st.cs[id].methods@, run_before(st, fuel, id).1) as usize,
            run_before(st, fuel, id).1,
        ),
    decreases fuel,
{
    if fuel == 0 || !st.ok || st.q.len() == 0 {
        assert(run(st, fuel) == st);
    } else {
        let v = st.q[0];
        let popped = PlanState { vars: st.vars, cs: st.cs, vp: st.vp, vc: st.vc, q: st.q.drop_first(), ok: true };
        let ids = ids_on(st.vars, v);
        let mid = visit_all(popped, v, ids);
        assert(run(st, fuel) == run(mid, (fuel - 1) as nat));
        lemma_run_facts(mid, (fuel - 1) as nat, id);
        if ids.contains(id) {
            lemma_first_pos(ids, id);
            let k = first_pos(ids, id);
            let b = visit_all(popped, v, ids.take(k));
            let a1 = visit(b, v, id);
            assert(ids.take(k + 1).drop_last() =~= ids.take(k));
            assert(ids.take(k + 1).last() == id);
            assert(visit_all(popped, v, ids.take(k + 1)) == a1);
            lemma_visit_all_split(popped, v, ids, k + 1);
            lemma_visit_all_facts(popped, v, ids.take(k), id);
            lemma_visit_all_facts(a1, v, ids.skip(k + 1), id);
            lemma_visit_facts(b, v, id, id);
            assert(b.ok);
            assert(!b.vc.contains(id));
            assert(b.cs[id] == st.cs[id]);
            if a1.vc.contains(id) {
                lemma_run_facts(mid, (fuel - 1) as nat, id);
            }
            assert(a1.ok);
            assert(has_reader_spec(st.cs[id], v));
            assert(a1.vc.contains(id)) by {
                assert(a1.vc == b.vc.push(id));
                assert(a1.vc[b.vc.len() as int] == id);
            }
            assert(mid.cs[id] == a1.cs[id]);
        } else {
            lemma_visit_all_facts(popped, v, ids, id);
            lemma_run_selects(mid, (fuel - 1) as nat, id);
        }
    }
}

/// Queuing `params` appends the same new parameters, those of `params` not
/// yet visited, to `vp` and to `q`.
proof fn lemma_enqueued(params: Seq<TaskParameterDyn>, vp: Seq<TaskParameterDyn>, q: Seq<TaskParameterDyn>)
    ensures
        enqueued(params, vp, q).0.len() >= vp.len(),
        enqueued(params, vp, q).0 == vp + enqueued(params, vp, q).0.skip(vp.len() as int),
        enqueued(params, vp, q).1 == q + enqueued(params, vp, q).0.skip(vp.len() as int),
        forall|j: int| vp.len() <= j < enqueued(params, vp, q).0.len() ==> params.contains(#[trigger] enqueued(params, vp, q).0[j]),
    decreases params.len(),
{
    let e = enqueued(params, vp, q);
    if params.len() == 0 {
        assert(vp.skip(vp.len() as int) =~= Seq::<TaskParameterDyn>::empty());
        assert(vp =~= vp + vp.skip(vp.len() as int));
        assert(q =~= q + vp.skip(vp.len() as int));
    } else {
        let init = params.drop_last();
        lemma_enqueued(init, vp, q);
        let prev = enqueued(init, vp, q);
        assert forall|j: int| vp.len() <= j < prev.0.len() implies params.contains(#[trigger] prev.0[j]) by {
            assert(init.contains(prev.0[j]));
            let k = choose|k: int| 0 <= k < init.len() && init[k] == prev.0[j];
            assert(params[k] == prev.0[j]);
        }
        if !prev.0.contains(params.last()) {
            assert(e.0 == prev.0.push(params.last()));
            assert(e.0.skip(vp.len() as int) =~= prev.0.skip(vp.len() as int).push(params.last()));
            assert(e.0 =~= vp + e.0.skip(vp.len() as int));
            assert(e.1 =~= q + e.0.skip(vp.len() as int));
            assert(params[params.len() - 1] == params.last());
        }
    }
}

/// `adjusted` keeps what `vars_same` compares.
proof fn lemma_adjusted_same(
    vars0: Seq<Variable>,
    a: Seq<Variable>,
    params: Seq<TaskParameterDyn>,
    skip: Option<TaskParameterDyn>,
    delta: int,
)
    requires
        vars_same(vars0, a),
    ensures
        vars_same(vars0, adjusted(a, params, skip, delta)),
{
}

proof fn lemma_replanned_same(vars0: Seq<Variable>, a: Seq<Variable>, c: Constraint, v: TaskParameterDyn)
    requires
        vars_same(vars0, a),
    ensures
        vars_same(vars0, replanned_vars(a, c, v)),
{
    let sel = choice(a, c.methods@, v);
    let vars1 = match c.selected_method {
        Some(prev) => adjusted(
            adjusted(a, c.methods@[prev as int].inputs@, c.last_input, 1),
            c.methods@[prev as int].outputs@,
            None,
            -1,
        ),
        None => a,
    };
    match c.selected_method {
        Some(prev) => {
            lemma_adjusted_same(vars0, a, c.methods@[prev as int].inputs@, c.last_input, 1);
            lemma_adjusted_same(
                vars0,
                adjusted(a, c.methods@[prev as int].inputs@, c.last_input, 1),
                c.methods@[prev as int].outputs@,
                None,
                -1,
            );
        },
        None => {},
    }
    lemma_adjusted_same(vars0, vars1, c.methods@[sel].inputs@, Some(v), -1);
    lemma_adjusted_same(vars0, adjusted(vars1, c.methods@[sel].inputs@, Some(v), -1), c.methods@[sel].outputs@, None, 1);
}

/// With distinct values, the constraints on `v` are the same in `vars0` and
/// in variables that `vars_same` relates to it.
proof fn lemma_ids_on_same(vars0: Seq<Variable>, cs0: Map<u64, Constraint>, vars: Seq<Variable>, v: TaskParameterDyn)
    requires
        parts_wf(vars0, cs0),
        vars_same(vars0, vars),
        has_var(vars0, v),
    ensures
        ids_on(vars, v) == ids_on(vars0, v),
{
    let w = var_index(vars0, v);
    assert(has_var(vars, v)) by {
        assert(vars[w].value == v);
    }
    let w2 = var_index(vars, v);
    assert(vars0[w2].value == v);
    if w2 != w {
        assert(vars0[w2].value != vars0[w].value);
    }
}

/// What a state of planning from `event` keeps, relative to the system
/// `vars0`, `cs0` it started from, where `pc` parameters have been taken from
/// the queue: the queue holds the rest of the event and the reached
/// parameters, in order.
spec fn bfs_shape(st: PlanState, vars0: Seq<Variable>, cs0: Map<u64, Constraint>, event: TaskParameterDyn, pc: int) -> bool {
    let l = seq![event] + st.vp;
    &&& st.ok
    &&& vars_same(vars0, st.vars)
    &&& st.cs.dom() == cs0.dom()
    &&& forall|id: u64| #[trigger] st.cs.contains_key(id) ==> st.cs[id].variables == cs0[id].variables && st.cs[id].methods == cs0[id].methods
    &&& 0 <= pc <= l.len()
    &&& st.q == l.skip(pc)
    &&& forall|j: int| 0 <= j < l.len() ==> has_var(vars0, #[trigger] l[j])
}

proof fn lemma_visit_bfs(
    st: PlanState,
    v: TaskParameterDyn,
    x: u64,
    vars0: Seq<Variable>,
    cs0: Map<u64, Constraint>,
    event: TaskParameterDyn,
    pc: int,
)
    requires
        parts_wf(vars0, cs0),
        bfs_shape(st, vars0, cs0, event, pc),
        visit(st, v, x).ok,
        cs0.contains_key(x),
    ensures
        bfs_shape(visit(st, v, x), vars0, cs0, event, pc),
        visit(st, v, x).vp.len() >= st.vp.len(),
        visit(st, v, x).vp.take(st.vp.len() as int) == st.vp,
        forall|id: u64| #[trigger] visit(st, v, x).vc.contains(id) == (st.vc.contains(id) || id == x),
{
    let r = visit(st, v, x);
    lemma_visit_facts(st, v, x, x);
    assert forall|id: u64| #[trigger] r.vc.contains(id) == (st.vc.contains(id) || id == x) by {
        lemma_visit_facts(st, v, x, id);
        if !st.vc.contains(x) && id == x {
            assert(r.vc == st.vc.push(x));
            assert(r.vc[st.vc.len() as int] == x);
        }
    }
    if !st.vc.contains(x) {
        let c = st.cs[x];
        lemma_method_facts(vars0, cs0, x);
        let outs = if c.methods@.len() == 1 {
            c.methods@[0].outputs@
        } else {
            lemma_choice_exists(st.vars, c.methods@, v);
            c.methods@[choice(st.vars, c.methods@, v)].outputs@
        };
        assert(c.methods == cs0[x].methods);
        assert forall|p: TaskParameterDyn| #[trigger] outs.contains(p) implies has_var(vars0, p) by {
            let j = choose|j: int| 0 <= j < outs.len() && outs[j] == p;
            if c.methods@.len() == 1 {
                assert(has_var(vars0, cs0[x].methods@[0].outputs@[j]));
            } else {
                let sel = choice(st.vars, c.methods@, v);
                assert(has_var(vars0, cs0[x].methods@[sel].outputs@[j]));
            }
        }
        lemma_enqueued(outs, st.vp, st.q);
        let e = enqueued(outs, st.vp, st.q);
        let new = e.0.skip(st.vp.len() as int);
        assert(r.vp == e.0 && r.q == e.1);
        let l = seq![event] + st.vp;
        let l2 = seq![event] + r.vp;
        assert(l2 =~= l + new);
        assert(r.q =~= l2.skip(pc)) by {
            assert(st.q == l.skip(pc));
            assert(r.q == st.q + new);
        }
        assert forall|j: int| 0 <= j < l2.len() implies has_var(vars0, #[trigger] l2[j]) by {
            if j >= l.len() {
                assert(l2[j] == r.vp[j - 1]);
                assert(outs.contains(r.vp[j - 1]));
            } else {
                assert(l2[j] == l[j]);
            }
        }
        assert(r.vp.take(st.vp.len() as int) =~= st.vp);
        if c.methods@.len() == 1 {
        } else {
            lemma_replanned_same(vars0, st.vars, c, v);
            let sel = choice(st.vars, c.methods@, v);
            assert(r.cs == st.cs.insert(x, with_selection(c, sel as usize, v)));
            assert(r.cs.dom() =~= cs0.dom());
        }
    } else {
        assert(st.vp.take(st.vp.len() as int) =~= st.vp);
    }
}

proof fn lemma_visit_all_bfs(
    st: PlanState,
    v: TaskParameterDyn,
    ids: Seq<u64>,
    vars0: Seq<Variable>,
    cs0: Map<u64, Constraint>,
    event: TaskParameterDyn,
    pc: int,
)
    requires
        parts_wf(vars0, cs0),
        bfs_shape(st, vars0, cs0, event, pc),
        visit_all(st, v, ids).ok,
        forall|k: int| 0 <= k < ids.len() ==> cs0.contains_key(#[trigger] ids[k]),
    ensures
        bfs_shape(visit_all(st, v, ids), vars0, cs0, event, pc),
        visit_all(st, v, ids).vp.len() >= st.vp.len(),
        visit_all(st, v, ids).vp.take(st.vp.len() as int) == st.vp,
        forall|id: u64| #[trigger] visit_all(st, v, ids).vc.contains(id) == (st.vc.contains(id) || ids.contains(id)),
    decreases ids.len(),
{
    if ids.len() == 0 {
        assert(st.vp.take(st.vp.len() as int) =~= st.vp);
    } else {
        let init = ids.drop_last();
        let mid = visit_all(st, v, init);
        lemma_visit_facts(mid, v, ids.last(), ids.last());
        lemma_visit_all_bfs(st, v, init, vars0, cs0, event, pc);
        assert(cs0.contains_key(ids[ids.len() - 1]));
        lemma_visit_bfs(mid, v, ids.last(), vars0, cs0, event, pc);
        let r = visit_all(st, v, ids);
        assert(r.vp.take(st.vp.len() as int) =~= st.vp) by {
            assert(r.vp.take(mid.vp.len() as int) == mid.vp);
            assert forall|k: int| 0 <= k < st.vp.len() implies r.vp[k] == st.vp[k] by {
                assert(r.vp.take(mid.vp.len() as int)[k] == mid.vp[k]);
                assert(mid.vp.take(st.vp.len() as int)[k] == st.vp[k]);
            }
        }
        assert forall|id: u64| #[trigger] r.vc.contains(id) == (st.vc.contains(id) || ids.contains(id)) by {
            assert(mid.vc.contains(id) == (st.vc.contains(id) || init.contains(id)));
            if init.contains(id) {
                let k = choose|k: int| 0 <= k < init.len() && init[k] == id;
                assert(ids[k] == id);
            }
            if ids.contains(id) && id != ids.last() {
                let k = choose|k: int| 0 <= k < ids.len() && ids[k] == id;
                assert(k != ids.len() - 1);
                assert(init[k] == id);
            }
        }
    }
}

/// Planning comes to constraint `id` from the first parameter, in the order
/// of the queue, that `id` works on.
proof fn lemma_run_before_first(
    st: PlanState,
    fuel: nat,
    id: u64,
    vars0: Seq<Variable>,
    cs0: Map<u64, Constraint>,
    event: TaskParameterDyn,
    pc: int,
)
    requires
        parts_wf(vars0, cs0),
        bfs_shape(st, vars0, cs0, event, pc),
        forall|x: u64| #[trigger] st.vc.contains(x) == exists|j: int|
            0 <= j < pc && #[trigger] ids_on(vars0, (seq![event] + st.vp)[j]).contains(x),
        run(st, fuel).ok,
        run(st, fuel).vc.contains(id),
        !st.vc.contains(id),
        cs0.contains_key(id),
    ensures
        ({
            let l = seq![event] + run(st, fuel).vp;
            let v = run_before(st, fuel, id).1;
            &&& cs0[id].variables@.contains(v)
            &&& exists|k: int| 0 <= k < l.len() && l[k] == v && forall|j: int| 0 <= j < k ==> !cs0[id].variables@.contains(#[trigger] l[j])
        }),
    decreases fuel,
{
    if fuel == 0 || !st.ok || st.q.len() == 0 {
        assert(run(st, fuel) == st);
    } else {
        let l = seq![event] + st.vp;
        let v = st.q[0];
        assert(v == l[pc]);
        let popped = PlanState { vars: st.vars, cs: st.cs, vp: st.vp, vc: st.vc, q: st.q.drop_first(), ok: true };
        lemma_ids_on_same(vars0, cs0, st.vars, v);
        let ids = ids_on(st.vars, v);
        let mid = visit_all(popped, v, ids);
        assert(run(st, fuel) == run(mid, (fuel - 1) as nat));
        lemma_run_facts(mid, (fuel - 1) as nat, id);
        lemma_run_vp_prefix(mid, (fuel - 1) as nat);
        let w = var_index(vars0, v);
        assert(vars0[w].value == v);
        assert forall|k: int| 0 <= k < ids.len() implies cs0.contains_key(#[trigger] ids[k]) && cs0[ids[k]].variables@.contains(v) by {
            assert(ids[k] == key_id(vars0[w].constraints@[k]));
        }
        assert(popped.q =~= l.skip(pc + 1));
        assert(bfs_shape(popped, vars0, cs0, event, pc + 1));
        lemma_visit_all_bfs(popped, v, ids, vars0, cs0, event, pc + 1);
        let l2 = seq![event] + mid.vp;
        assert forall|j: int| 0 <= j < l.len() implies l2[j] == l[j] by {
            if j > 0 {
                assert(mid.vp.take(st.vp.len() as int)[j - 1] == st.vp[j - 1]);
            }
        }
        let lf = seq![event] + run(st, fuel).vp;
        assert forall|j: int| 0 <= j < l2.len() implies lf[j] == l2[j] by {
            if j > 0 {
                assert(run(mid, (fuel - 1) as nat).vp.take(mid.vp.len() as int)[j - 1] == mid.vp[j - 1]);
            }
        }
        if ids.contains(id) {
            let k = choose|k: int| 0 <= k < ids.len() && ids[k] == id;
            assert(cs0[id].variables@.contains(v));
            assert forall|j: int| 0 <= j < pc implies !cs0[id].variables@.contains(#[trigger] lf[j]) by {
                assert(lf[j] == l[j]);
                if cs0[id].variables@.contains(l[j]) {
                    assert(ids_on(vars0, l[j]).contains(id));
                    assert(st.vc.contains(id));
                }
            }
            assert(lf[pc] == v);
        } else {
            assert forall|x: u64| #[trigger] mid.vc.contains(x) == exists|j: int|
                0 <= j < pc + 1 && #[trigger] ids_on(vars0, l2[j]).contains(x) by {
                if mid.vc.contains(x) {
                    if st.vc.contains(x) {
                        let j = choose|j: int| 0 <= j < pc && #[trigger] ids_on(vars0, l[j]).contains(x);
                        assert(l2[j] == l[j]);
                    } else {
                        assert(ids.contains(x));
                        assert(l2[pc] == v);
                        assert(ids_on(vars0, l2[pc]).contains(x));
                    }
                }
                if exists|j: int| 0 <= j < pc + 1 && #[trigger] ids_on(vars0, l2[j]).contains(x) {
                    let j = choose|j: int| 0 <= j < pc + 1 && #[trigger] ids_on(vars0, l2[j]).contains(x);
                    assert(l2[j] == l[j]);
                    if j < pc {
                        assert(st.vc.contains(x));
                    } else {
                        assert(ids.contains(x));
                    }
                }
            }
            lemma_run_before_first(mid, (fuel - 1) as nat, id, vars0, cs0, event, pc + 1);
        }
    }
}

proof fn lemma_visit_vp_prefix(st: PlanState, v: TaskParameterDyn, x: u64)
    ensures
        visit(st, v, x).vp.len() >= st.vp.len(),
        visit(st, v, x).vp.take(st.vp.len() as int) == st.vp,
{
    let r = visit(st, v, x);
    if st.ok && !st.vc.contains(x) && r.ok {
        let c = st.cs[x];
        let outs = if c.methods@.len() == 1 {
            c.methods@[0].outputs@
        } else {
            c.methods@[choice(st.vars, c.methods@, v)].outputs@
        };
        lemma_enqueued(outs, st.vp, st.q);
    }
    assert(r.vp.take(st.vp.len() as int) =~= st.vp);
}

proof fn lemma_visit_all_vp_prefix(st: PlanState, v: TaskParameterDyn, ids: Seq<u64>)
    ensures
        visit_all(st, v, ids).vp.len() >= st.vp.len(),
        visit_all(st, v, ids).vp.take(st.vp.len() as int) == st.vp,
    decreases ids.len(),
{
    if ids.len() == 0 {
        assert(st.vp.take(st.vp.len() as int) =~= st.vp);
    } else {
        let mid = visit_all(st, v, ids.drop_last());
        lemma_visit_all_vp_prefix(st, v, ids.drop_last());
        lemma_visit_vp_prefix(mid, v, ids.last());
        let r = visit_all(st, v, ids);
        assert forall|k: int| 0 <= k < st.vp.len() implies r.vp[k] == st.vp[k] by {
            assert(r.vp.take(mid.vp.len() as int)[k] == mid.vp[k]);
            assert(mid.vp.take(st.vp.len() as int)[k] == st.vp[k]);
        }
        assert(r.vp.take(st.vp.len() as int) =~= st.vp);
    }
}

proof fn lemma_run_vp_prefix(st: PlanState, fuel: nat)
    ensures
        run(st, fuel).vp.len() >= st.vp.len(),
        run(st, fuel).vp.take(st.vp.len() as int) == st.vp,
    decreases fuel,
{
    if fuel == 0 || !st.ok || st.q.len() == 0 {
        assert(st.vp.take(st.vp.len() as int) =~= st.vp);
    } else {
        let v = st.q[0];
        let popped = PlanState { vars: st.vars, cs: st.cs, vp: st.vp, vc: st.vc, q: st.q.drop_first(), ok: true };
        let mid = visit_all(popped, v, ids_on(st.vars, v));
        lemma_visit_all_vp_prefix(popped, v, ids_on(st.vars, v));
        lemma_run_vp_prefix(mid, (fuel - 1) as nat);
        let r = run(st, fuel);
        assert forall|k: int| 0 <= k < st.vp.len() implies r.vp[k] == st.vp[k] by {
            assert(r.vp.take(mid.vp.len() as int)[k] == mid.vp[k]);
            assert(mid.vp.take(st.vp.len() as int)[k] == st.vp[k]);
        }
        assert(r.vp.take(st.vp.len() as int) =~= st.vp);
    }
}

/// The number of parameters planning takes from the queue, from `st` on.
spec fn run_pops(st: PlanState, fuel: nat) -> nat
    decreases fuel,
{
    if fuel == 0 || !st.ok || st.q.len() == 0 {
        0
    } else {
        let v = st.q[0];
        let popped = PlanState { vars: st.vars, cs: st.cs, vp: st.vp, vc: st.vc, q: st.q.drop_first(), ok: true };
        1 + run_pops(visit_all(popped, v, ids_on(st.vars, v)), (fuel - 1) as nat)
    }
}

/// Where planning ends with its queue empty, it has taken each parameter of
/// the queue order once.
proof fn lemma_run_pops(
    st: PlanState,
    fuel: nat,
    vars0: Seq<Variable>,
    cs0: Map<u64, Constraint>,
    event: TaskParameterDyn,
    pc: int,
)
    requires
        parts_wf(vars0, cs0),
        bfs_shape(st, vars0, cs0, event, pc),
        run(st, fuel).ok,
        run(st, fuel).q.len() == 0,
    ensures
        pc + run_pops(st, fuel) == (seq![event] + run(st, fuel).vp).len(),
    decreases fuel,
{
    let l = seq![event] + st.vp;
    if fuel == 0 || !st.ok || st.q.len() == 0 {
        assert(run(st, fuel) == st);
        assert(l.skip(pc).len() == l.len() - pc);
    } else {
        let v = st.q[0];
        assert(v == l[pc]);
        let popped = PlanState { vars: st.vars, cs: st.cs, vp: st.vp, vc: st.vc, q: st.q.drop_first(), ok: true };
        lemma_ids_on_same(vars0, cs0, st.vars, v);
        let ids = ids_on(st.vars, v);
        let mid = visit_all(popped, v, ids);
        assert(run(st, fuel) == run(mid, (fuel - 1) as nat));
        lemma_run_facts(mid, (fuel - 1) as nat, 0);
        let w = var_index(vars0, v);
        assert(vars0[w].value == v);
        assert forall|k: int| 0 <= k < ids.len() implies cs0.contains_key(#[trigger] ids[k]) by {
            assert(ids[k] == key_id(vars0[w].constraints@[k]));
        }
        assert(popped.q =~= l.skip(pc + 1));
        lemma_visit_all_bfs(popped, v, ids, vars0, cs0, event, pc + 1);
        lemma_run_pops(mid, (fuel - 1) as nat, vars0, cs0, event, pc + 1);
    }
}

/// Some method of a constraint of `cs` on `p` writes `q`.
pub open spec fn may_step(cs: Map<u64, Constraint>, p: TaskParameterDyn, q: TaskParameterDyn) -> bool {
    exists|id: u64, m: int|
        #![trigger cs[id].spec_methods()[m]]
        cs.contains_key(id) && cs[id].spec_variables().contains(p) && 0 <= m < cs[id].spec_methods().len()
            && cs[id].spec_methods()[m].spec_outputs().contains(q)
}

/// A chain of parameters in which each one after the first is written by
/// some method of a constraint of `cs` on the one before.
pub open spec fn may_path(cs: Map<u64, Constraint>, path: Seq<TaskParameterDyn>) -> bool {
    &&& path.len() >= 1
    &&& forall|i: int, j: int| 0 <= i && j == i + 1 && j < path.len() ==> #[trigger] may_step(cs, path[i], path[j])
}

impl System {
    /// `p` may be reached from `event` through the methods of the constraints,
    /// whichever of them get selected.
    pub open spec fn may_reach(self, event: TaskParameterDyn, p: TaskParameterDyn) -> bool {
        exists|path: Seq<TaskParameterDyn>| #[trigger] may_path(self.constraint_map(), path) && path[0] == event && path.last() == p
    }

    /// Every constraint with several methods has, for each of its parameters
    /// that may be reached from `event`, a method that reads that parameter.
    pub open spec fn plannable_from(self, event: TaskParameterDyn) -> bool {
        forall|id: u64, p: TaskParameterDyn|
            self.constraint_map().contains_key(id) && self.constraint_map()[id].spec_methods().len() > 1
                && #[trigger] self.constraint_map()[id].spec_variables().contains(p) && self.may_reach(event, p) ==> exists|m: int|
                0 <= m < self.constraint_map()[id].spec_methods().len()
                    && #[trigger] self.constraint_map()[id].spec_methods()[m].spec_inputs().contains(p)
    }
}

proof fn lemma_may_path_push(cs: Map<u64, Constraint>, path: Seq<TaskParameterDyn>, x: TaskParameterDyn)
    requires
        may_path(cs, path),
        may_step(cs, path.last(), x),
    ensures
        may_path(cs, path.push(x)),
{
    let np = path.push(x);
    assert forall|i: int, j: int| 0 <= i && j == i + 1 && j < np.len() implies #[trigger] may_step(cs, np[i], np[j]) by {
        if j < path.len() {
            assert(np[i] == path[i] && np[j] == path[j]);
            assert(may_step(cs, path[i], path[j]));
        } else {
            assert(np[i] == path.last());
        }
    }
}

/// A state of planning from `event` on `s0` in which planning has not
/// stopped, the constraints keep their shape, and each queued parameter is a
/// parameter of `s0` that may be reached from `event`.
spec fn reach_shape(st: PlanState, s0: System, event: TaskParameterDyn) -> bool {
    &&& st.ok
    &&& vars_same(s0.vars@, st.vars)
    &&& st.cs.dom() == slots(s0.constraints).dom()
    &&& forall|id: u64| #[trigger] st.cs.contains_key(id) ==> st.cs[id].variables == slots(s0.constraints)[id].variables
        && st.cs[id].methods == slots(s0.constraints)[id].methods
    &&& forall|k: int| 0 <= k < st.q.len() ==> has_var(s0.vars@, #[trigger] st.q[k]) && s0.may_reach(event, st.q[k])
}

proof fn lemma_visit_reach(st: PlanState, v: TaskParameterDyn, x: u64, s0: System, event: TaskParameterDyn)
    requires
        s0.wf(),
        s0.plannable_from(event),
        reach_shape(st, s0, event),
        has_var(s0.vars@, v),
        s0.may_reach(event, v),
        slots(s0.constraints).contains_key(x),
        slots(s0.constraints)[x].variables@.contains(v),
    ensures
        reach_shape(visit(st, v, x), s0, event),
{
    let cs0 = slots(s0.constraints);
    let vars0 = s0.vars@;
    let r = visit(st, v, x);
    if !st.vc.contains(x) {
        let c = st.cs[x];
        assert(c.methods == cs0[x].methods && c.variables == cs0[x].variables);
        lemma_method_facts(vars0, cs0, x);
        if c.methods@.len() != 1 {
            assert(cs0[x].methods@.len() > 1);
            assert(s0.constraint_map()[x].spec_variables().contains(v));
            let m = choose|m: int|
                0 <= m < s0.constraint_map()[x].spec_methods().len()
                    && #[trigger] s0.constraint_map()[x].spec_methods()[m].spec_inputs().contains(v);
            assert(c.methods@[m].inputs@.contains(v));
            assert(has_reader_spec(c, v));
            lemma_choice_exists(st.vars, c.methods@, v);
            lemma_replanned_same(vars0, st.vars, c, v);
        }
        let sel: int = if c.methods@.len() == 1 { 0 } else { choice(st.vars, c.methods@, v) };
        assert(0 <= sel < c.methods@.len());
        let outs = c.methods@[sel].outputs@;
        lemma_enqueued(outs, st.vp, st.q);
        let e = enqueued(outs, st.vp, st.q);
        let new = e.0.skip(st.vp.len() as int);
        assert(r.q == e.1);
        assert(r.q == st.q + new);
        let path = choose|path: Seq<TaskParameterDyn>| #[trigger] may_path(s0.constraint_map(), path) && path[0] == event && path.last() == v;
        assert forall|k: int| 0 <= k < r.q.len() implies has_var(vars0, #[trigger] r.q[k]) && s0.may_reach(event, r.q[k]) by {
            if k >= st.q.len() {
                let p = r.q[k];
                assert(p == e.0[st.vp.len() + k - st.q.len()]);
                assert(outs.contains(p));
                let j = choose|j: int| 0 <= j < outs.len() && outs[j] == p;
                assert(has_var(vars0, cs0[x].methods@[sel].outputs@[j]));
                assert(cs0[x].spec_methods()[sel].spec_outputs().contains(p));
                assert(may_step(cs0, v, p));
                lemma_may_path_push(cs0, path, p);
                assert(path.push(p)[0] == event);
            } else {
                assert(r.q[k] == st.q[k]);
            }
        }
        if c.methods@.len() != 1 {
            assert(r.cs.dom() =~= cs0.dom());
        }
    }
}

proof fn lemma_visit_all_reach(st: PlanState, v: TaskParameterDyn, ids: Seq<u64>, s0: System, event: TaskParameterDyn)
    requires
        s0.wf(),
        s0.plannable_from(event),
        reach_shape(st, s0, event),
        has_var(s0.vars@, v),
        s0.may_reach(event, v),
        forall|k: int| 0 <= k < ids.len() ==> slots(s0.constraints).contains_key(#[trigger] ids[k])
            && slots(s0.constraints)[ids[k]].variables@.contains(v),
    ensures
        reach_shape(visit_all(st, v, ids), s0, event),
    decreases ids.len(),
{
    if ids.len() > 0 {
        lemma_visit_all_reach(st, v, ids.drop_last(), s0, event);
        assert(slots(s0.constraints).contains_key(ids[ids.len() - 1]));
        lemma_visit_reach(visit_all(st, v, ids.drop_last()), v, ids.last(), s0, event);
    }
}

proof fn lemma_run_reach(st: PlanState, fuel: nat, s0: System, event: TaskParameterDyn)
    requires
        s0.wf(),
        s0.plannable_from(event),
        reach_shape(st, s0, event),
    ensures
        run(st, fuel).ok,
    decreases fuel,
{
    if !(fuel == 0 || !st.ok || st.q.len() == 0) {
        let cs0 = slots(s0.constraints);
        let vars0 = s0.vars@;
        let v = st.q[0];
        assert(has_var(vars0, st.q[0]) && s0.may_reach(event, st.q[0]));
        let popped = PlanState { vars: st.vars, cs: st.cs, vp: st.vp, vc: st.vc, q: st.q.drop_first(), ok: true };
        assert forall|k: int| 0 <= k < popped.q.len() implies has_var(vars0, #[trigger] popped.q[k]) && s0.may_reach(event, popped.q[k]) by {
            assert(popped.q[k] == st.q[k + 1]);
        }
        lemma_ids_on_same(vars0, cs0, st.vars, v);
        let ids = ids_on(st.vars, v);
        let w = var_index(vars0, v);
        assert(vars0[w].value == v);
        assert forall|k: int| 0 <= k < ids.len() implies cs0.contains_key(#[trigger] ids[k]) && cs0[ids[k]].variables@.contains(v) by {
            assert(ids[k] == key_id(vars0[w].constraints@[k]));
        }
        lemma_visit_all_reach(popped, v, ids, s0, event);
        lemma_run_reach(visit_all(popped, v, ids), (fuel - 1) as nat, s0, event);
    }
}

/// Planning from a parameter of the system goes through wherever every
/// constraint with several methods has, for each of its parameters that may
/// be reached from the event, a method that reads it: whichever methods were
/// selected before, and whatever the scores of the methods.
pub proof fn lemma_plannable_succeeds(s: System, event: TaskParameterDyn)
    requires
        s.wf(),
        s.params().contains(event),
        s.plannable_from(event),
    ensures
        s.plan_succeeds(event),
{
    let st0 = state_of(s.vars@, slots(s.constraints), Seq::empty(), Seq::empty(), seq![event]);
    assert(may_path(s.constraint_map(), seq![event]));
    assert(seq![event].last() == event);
    assert(s.may_reach(event, event));
    assert(has_var(s.vars@, event));
    assert(reach_shape(st0, s, event));
    lemma_run_reach(st0, (2 * s.vars@.len() + 2) as nat, s, event);
}

/// Planning from `event` fails where a constraint with several methods works
/// on `event` and none of its methods reads it.
pub proof fn lemma_unread_event_fails(s: System, event: TaskParameterDyn, id: u64)
    requires
        s.wf(),
        s.constraint_map().contains_key(id),
        s.constraint_map()[id].spec_methods().len() > 1,
        s.constraint_map()[id].spec_variables().contains(event),
        forall|m: int|
            0 <= m < s.constraint_map()[id].spec_methods().len() ==> !(#[trigger] s.constraint_map()[id].spec_methods()[m]).spec_inputs().contains(event),
    ensures
        !s.plan_succeeds(event),
{
    let cs0 = slots(s.constraints);
    let vars0 = s.vars@;
    if has_var(vars0, event) {
        let st0 = state_of(vars0, cs0, Seq::empty(), Seq::empty(), seq![event]);
        let fuel = (2 * vars0.len() + 2) as nat;
        let popped = PlanState { vars: vars0, cs: cs0, vp: Seq::empty(), vc: Seq::empty(), q: seq![event].drop_first(), ok: true };
        let ids = ids_on(vars0, event);
        assert(st0.q[0] == event);
        let mid = visit_all(popped, event, ids);
        assert(run(st0, fuel) == run(mid, (fuel - 1) as nat));
        assert(ids.contains(id));
        lemma_first_pos(ids, id);
        let k = first_pos(ids, id);
        let b = visit_all(popped, event, ids.take(k));
        if b.ok {
            lemma_visit_all_facts(popped, event, ids.take(k), id);
            assert(!b.vc.contains(id));
            assert(b.cs[id] == cs0[id]);
            assert(!has_reader_spec(cs0[id], event)) by {
                if has_reader_spec(cs0[id], event) {
                    let m = choose|m: int| 0 <= m < cs0[id].methods@.len() && #[trigger] cs0[id].methods@[m].inputs@.contains(event);
                    assert(s.constraint_map()[id].spec_methods()[m].spec_inputs().contains(event));
                }
            }
            assert(ids.take(k + 1).drop_last() =~= ids.take(k));
            assert(ids.take(k + 1).last() == id);
            assert(!visit_all(popped, event, ids.take(k + 1)).ok);
            lemma_visit_all_stuck(popped, event, ids, k + 1);
        } else {
            lemma_visit_all_stuck(popped, event, ids, k);
        }
        assert(!mid.ok);
        assert(run(mid, (fuel - 1) as nat) == mid);
    }
}

impl System {
    /// The strengths as planning from `event` finds them when it comes to the
    /// constraint `id`, before it selects a method for it.
    pub closed spec fn strengths_at_visit(self, event: TaskParameterDyn, id: u64) -> spec_fn(TaskParameterDyn) -> int {
        let b = run_before(
            state_of(self.vars@, slots(self.constraints), Seq::empty(), Seq::empty(), seq![event]),
            (2 * self.vars@.len() + 2) as nat,
            id,
        ).0;
        |p: TaskParameterDyn| var_strength(b.vars, p)
    }
}

/// Where planning from `event` goes through, it records at each constraint
/// with several methods that it visits, as the input, the first parameter of
/// the constraint in the order planning takes parameters from its queue, and
/// selects, among the methods that read that input, the one with the highest
/// score under the strengths it finds when it comes to the constraint, the
/// last of equal ones; the constraint keeps its name, parameters and methods.
pub proof fn lemma_planned_selection(s: System, event: TaskParameterDyn, id: u64)
    requires
        s.wf(),
        s.plan_succeeds(event),
        s.planned_visits(event).contains(id),
        s.constraint_map().contains_key(id),
        s.constraint_map()[id].spec_methods().len() > 1,
    ensures
        ({
            let c = s.constraint_map()[id];
            let d = s.planned_constraints(event)[id];
            let f = s.strengths_at_visit(event, id);
            let ms = c.spec_methods();
            let sel = d.spec_selected()->0 as int;
            let input = d.spec_last_input()->0;
            &&& d.spec_name() == c.spec_name()
            &&& d.spec_variables() == c.spec_variables()
            &&& d.spec_methods() == ms
            &&& d.spec_selected() is Some
            &&& d.spec_last_input() is Some
            &&& c.spec_variables().contains(input)
            &&& exists|k: int|
                0 <= k < s.planned_order(event).len() && s.planned_order(event)[k] == input && forall|j: int|
                    0 <= j < k ==> !c.spec_variables().contains(#[trigger] s.planned_order(event)[j])
            &&& 0 <= sel < ms.len()
            &&& ms[sel].spec_inputs().contains(input)
            &&& forall|m: int|
                0 <= m < ms.len() && (#[trigger] ms[m]).spec_inputs().contains(input) ==> method_score(ms[m], f)
                    <= method_score(ms[sel], f)
            &&& forall|m: int|
                sel < m < ms.len() && (#[trigger] ms[m]).spec_inputs().contains(input) ==> method_score(ms[m], f)
                    < method_score(ms[sel], f)
        }),
{
    let st0 = state_of(s.vars@, slots(s.constraints), Seq::empty(), Seq::empty(), seq![event]);
    let fuel = (2 * s.vars@.len() + 2) as nat;
    assert(plan_run(s, event) == run(st0, fuel));
    lemma_run_selects(st0, fuel, id);
    assert(st0.q =~= (seq![event] + st0.vp).skip(0));
    assert(bfs_shape(st0, s.vars@, slots(s.constraints), event, 0));
    lemma_run_before_first(st0, fuel, id, s.vars@, slots(s.constraints), event, 0);
    let (b, v) = run_before(st0, fuel, id);
    let c = slots(s.constraints)[id];
    lemma_choice_exists(b.vars, c.methods@, v);
    let r = choice(b.vars, c.methods@, v);
    let f = s.strengths_at_visit(event, id);
    assert forall|p: TaskParameterDyn| #[trigger] f(p) == var_strength(b.vars, p) by {}
    assert forall|m: int| 0 <= m < c.methods@.len() implies method_score(#[trigger] c.methods@[m], f) == score(b.vars, c.methods@[m]) by {
        lemma_total_by(b.vars, c.methods@[m].inputs@, f);
        lemma_total_by(b.vars, c.methods@[m].outputs@, f);
    }
    let d = s.planned_constraints(event)[id];
    assert(d == with_selection(c, r as usize, v));
    let order = s.planned_order(event);
    let l = seq![event] + run(st0, fuel).vp;
    assert(order == l);
    let k = choose|k: int| 0 <= k < l.len() && l[k] == v && forall|j: int| 0 <= j < k ==> !c.variables@.contains(#[trigger] l[j]);
    assert(c.spec_variables() == c.variables@);
    assert(0 <= k < order.len() && order[k] == v && forall|j: int| 0 <= j < k ==> !c.spec_variables().contains(#[trigger] order[j]));
    assert(is_choice(b.vars, c.methods@, v, r));
    assert(c.methods@.len() == c.methods.len());
    assert(d.spec_selected()->0 as int == r);
    assert(d.spec_last_input()->0 == v);
    let ms = c.spec_methods();
    assert(ms == c.methods@);
    assert forall|m: int| 0 <= m < ms.len() && (#[trigger] ms[m]).spec_inputs().contains(v) implies method_score(ms[m], f) <= method_score(ms[r], f) by {
        assert(c.methods@[m].inputs@.contains(v));
        assert(method_score(c.methods@[m], f) == score(b.vars, c.methods@[m]));
        assert(method_score(c.methods@[r], f) == score(b.vars, c.methods@[r]));
    }
    assert forall|m: int| r < m < ms.len() && (#[trigger] ms[m]).spec_inputs().contains(v) implies method_score(ms[m], f) < method_score(ms[r], f) by {
        assert(c.methods@[m].inputs@.contains(v));
        assert(method_score(c.methods@[m], f) == score(b.vars, c.methods@[m]));
        assert(method_score(c.methods@[r], f) == score(b.vars, c.methods@[r]));
    }
}

impl System {
    /// Visits, from the parameter `v`, each constraint on it that is not in
    /// `visited_cs` yet: marks it visited, selects a method for it when it has
    /// several, and adds what the selected method writes, where new, to
    /// `visited_params` and to the back of `queue`.
    fn plan_step(
        &mut self,
        v: TaskParameterDyn,
        visited_params: &mut Vec<TaskParameterDyn>,
        visited_cs: &mut Vec<u64>,
        queue: &mut VecDeque<TaskParameterDyn>,
    ) -> (done: bool)
        requires
            old(self).wf(),
            has_var(old(self).vars@, v),
            old(visited_params)@.no_duplicates(),
            old(visited_cs)@.no_duplicates(),
        ensures
            final(self).wf(),
            vars_same(old(self).vars@, final(self).vars@),
            slots(final(self).constraints).dom() == slots(old(self).constraints).dom(),
            done == visit_all(
                state_of(old(self).vars@, slots(old(self).constraints), old(visited_params)@, old(visited_cs)@, old(queue)@),
                v,
                ids_on(old(self).vars@, v),
            ).ok,
            done ==> visit_all(
                state_of(old(self).vars@, slots(old(self).constraints), old(visited_params)@, old(visited_cs)@, old(queue)@),
                v,
                ids_on(old(self).vars@, v),
            ) == state_of(final(self).vars@, slots(final(self).constraints), final(visited_params)@, final(visited_cs)@, final(queue)@),
            done ==> final(visited_cs)@.no_duplicates(),
            done ==> forall|id: u64| #[trigger] final(visited_cs)@.contains(id) == (old(visited_cs)@.contains(id) || (
                slots(old(self).constraints).contains_key(id) && slots(old(self).constraints)[id].variables@.contains(v))),
            done ==> forall|id: u64| #[trigger] slots(old(self).constraints).contains_key(id) ==> if slots(old(self).constraints)[id].variables@.contains(v)
                && !old(visited_cs)@.contains(id) {
                &&& stepped(slots(old(self).constraints)[id], slots(final(self).constraints)[id], v)
                &&& forall|q: TaskParameterDyn| #[trigger] selected_writes(slots(final(self).constraints)[id], q) ==> final(visited_params)@.contains(q)
            } else {
                slots(final(self).constraints)[id] == slots(old(self).constraints)[id]
            },
            done ==> final(visited_params)@.no_duplicates(),
            done ==> final(visited_params)@.len() >= old(visited_params)@.len(),
            done ==> final(visited_params)@.subrange(0, old(visited_params)@.len() as int) == old(visited_params)@,
            done ==> final(queue)@ == old(queue)@ + final(visited_params)@.skip(old(visited_params)@.len() as int),
            done ==> forall|j: int| old(visited_params)@.len() <= j < final(visited_params)@.len() ==> written_new(
                slots(final(self).constraints),
                slots(old(self).constraints),
                old(visited_cs)@,
                v,
                #[trigger] final(visited_params)@[j],
            ),
    {
        let ghost cs0 = slots(self.constraints);
        let ghost vars0 = self.vars@;
        let ghost vp0 = visited_params@;
        let ghost vc0 = visited_cs@;
        let ghost q0 = queue@;
        let vi = find_var(&self.vars, &v).unwrap();
        let ghost keys = vars0[vi as int].constraints@;
        let ghost kids = ids_of(keys);
        proof {
            assert(kids.no_duplicates());
            assert forall|k: int| 0 <= k < keys.len() implies cs0.contains_key(#[trigger] kids[k]) && cs0[kids[k]].variables@.contains(v) by {
                assert(key_id(keys[k]) == kids[k]);
            }
            assert forall|id: u64| #[trigger] cs0.contains_key(id) && cs0[id].variables@.contains(v) implies kids.contains(id) by {
                let w = var_index(vars0, v);
                if w != vi {
                    assert(vars0[w].value != vars0[vi as int].value);
                }
            }
            assert(kids.take(0) =~= Seq::<u64>::empty());
            assert(visited_params@.skip(vp0.len() as int) =~= Seq::<TaskParameterDyn>::empty());
            assert(queue@ =~= q0 + visited_params@.skip(vp0.len() as int));
            assert(visited_params@.subrange(0, vp0.len() as int) =~= vp0);
            let w = var_index(vars0, v);
            if w != vi {
                assert(vars0[w].value != vars0[vi as int].value);
            }
            assert(ids_on(vars0, v) == kids);
            assert(visit_all(state_of(vars0, cs0, vp0, vc0, q0), v, kids.take(0)) == state_of(vars0, cs0, vp0, vc0, q0));
        }
        let mut i: usize = 0;
        while i < self.vars[vi].constraints.len()
            invariant
                vars0 == old(self).vars@,
                cs0 == slots(old(self).constraints),
                vp0 == old(visited_params)@,
                vc0 == old(visited_cs)@,
                q0 == old(queue)@,
                self.wf(),
                vars_same(vars0, self.vars@),
                slots(self.constraints).dom() == cs0.dom(),
                parts_wf(vars0, cs0),
                vi < vars0.len(),
                vars0[vi as int].value == v,
                keys == vars0[vi as int].constraints@,
                kids == ids_of(keys),
                kids.no_duplicates(),
                forall|k: int| 0 <= k < keys.len() ==> cs0.contains_key(#[trigger] kids[k]) && cs0[kids[k]].variables@.contains(v),
                forall|id: u64| #[trigger] cs0.contains_key(id) && cs0[id].variables@.contains(v) ==> kids.contains(id),
                i <= keys.len(),
                visited_cs@.no_duplicates(),
                forall|id: u64| #[trigger] visited_cs@.contains(id) == (vc0.contains(id) || kids.take(i as int).contains(id)),
                forall|id: u64| #[trigger] cs0.contains_key(id) ==> if kids.take(i as int).contains(id) && !vc0.contains(id) {
                    &&& stepped(cs0[id], slots(self.constraints)[id], v)
                    &&& forall|q: TaskParameterDyn| #[trigger] selected_writes(slots(self.constraints)[id], q) ==> visited_params@.contains(q)
                } else {
                    slots(self.constraints)[id] == cs0[id]
                },
                visited_params@.no_duplicates(),
                visited_params@.len() >= vp0.len(),
                visited_params@.subrange(0, vp0.len() as int) == vp0,
                queue@ == q0 + visited_params@.skip(vp0.len() as int),
                forall|j: int| vp0.len() <= j < visited_params@.len() ==> written_by(
                    kids.take(i as int),
                    slots(self.constraints),
                    cs0,
                    vc0,
                    v,
                    #[trigger] visited_params@[j],
                ),
                visit_all(state_of(vars0, cs0, vp0, vc0, q0), v, kids.take(i as int)) == state_of(
                    self.vars@,
                    slots(self.constraints),
                    visited_params@,
                    visited_cs@,
                    queue@,
                ),
            decreases keys.len() - i,
        {
            let key = self.vars[vi].constraints[i];
            let id = key_as_id(key);
            let ghost cs1 = slots(self.constraints);
            let ghost vp1 = visited_params@;
            let ghost vc1 = visited_cs@;
            let ghost q1 = queue@;
            let ghost t0 = kids.take(i as int);
            let ghost t1 = kids.take(i + 1);
            proof {
                assert(id == kids[i as int]);
                assert(!kids.take(i as int).contains(id)) by {
                    if kids.take(i as int).contains(id) {
                        let k = choose|k: int| 0 <= k < i && kids.take(i as int)[k] == id;
                        assert(kids[k] == kids[i as int]);
                    }
                }
                assert forall|x: u64| #[trigger] t1.contains(x) == (t0.contains(x) || x == id) by {
                    if t1.contains(x) {
                        let k = choose|k: int| 0 <= k < t1.len() && t1[k] == x;
                        if k < i {
                            assert(t0[k] == x);
                        }
                    }
                    if t0.contains(x) {
                        let k = choose|k: int| 0 <= k < t0.len() && t0[k] == x;
                        assert(t1[k] == x);
                    }
                    if x == id {
                        assert(t1[i as int] == x);
                    }
                }
                assert(cs0.contains_key(id) && cs0[id].variables@.contains(v));
                assert(cs1[id] == cs0[id]);
                assert(t1.drop_last() =~= t0);
                assert(t1.last() == id);
            }
            if !contains_id(visited_cs, id) {
                visited_cs.push(id);
                proof {
                    assert forall|a: int, b: int| 0 <= a < visited_cs@.len() && 0 <= b < visited_cs@.len() && a != b implies visited_cs@[a] != visited_cs@[b] by {
                        if a < vc1.len() && b < vc1.len() {
                            assert(vc1[a] != vc1[b]);
                        } else if a < vc1.len() {
                            assert(vc1.contains(vc1[a]));
                        } else {
                            assert(vc1.contains(vc1[b]));
                        }
                    }
                    assert forall|x: u64| #[trigger] visited_cs@.contains(x) == (vc1.contains(x) || x == id) by {
                        if visited_cs@.contains(x) {
                            let k = choose|k: int| 0 <= k < visited_cs@.len() && visited_cs@[k] == x;
                            if k < vc1.len() {
                                assert(vc1[k] == x);
                            }
                        }
                        if vc1.contains(x) {
                            let k = choose|k: int| 0 <= k < vc1.len() && vc1[k] == x;
                            assert(visited_cs@[k] == x);
                        }
                        if x == id {
                            assert(visited_cs@[vc1.len() as int] == x);
                        }
                    }
                    assert(!vc0.contains(id));
                    lemma_method_facts(vars0, cs0, id);
                }
                let c = slot_map_get(&self.constraints, key);
                if c.methods.len() == 1 {
                    enqueue_new(&c.methods[0].outputs, visited_params, queue);
                    proof {
                        assert(visit_all(state_of(vars0, cs0, vp0, vc0, q0), v, t1) == state_of(
                            self.vars@,
                            slots(self.constraints),
                            visited_params@,
                            visited_cs@,
                            queue@,
                        ));
                        assert(cs0[id].selected_method == Some(0usize));
                        assert forall|q: TaskParameterDyn| #[trigger] selected_writes(cs1[id], q) implies visited_params@.contains(q) by {
                            assert(cs0[id].methods@[0].outputs@.to_set().contains(q));
                            assert(visited_params@.to_set().contains(q));
                        }
                    }
                } else {
                    if !has_reader(c, &v) {
                        proof {
                            assert(!has_reader_spec(cs1[id], v));
                            assert(!visit_all(state_of(vars0, cs0, vp0, vc0, q0), v, t1).ok);
                            lemma_visit_all_stuck(state_of(vars0, cs0, vp0, vc0, q0), v, kids, i + 1);
                        }
                        return false;
                    }
                    let sel = self.replan_constraint(key, v);
                    let c2 = slot_map_get(&self.constraints, key);
                    enqueue_new(&c2.methods[sel].outputs, visited_params, queue);
                    proof {
                        assert(visit_all(state_of(vars0, cs0, vp0, vc0, q0), v, t1) == state_of(
                            self.vars@,
                            slots(self.constraints),
                            visited_params@,
                            visited_cs@,
                            queue@,
                        ));
                        assert(stepped(cs0[id], with_selection(cs0[id], sel, v), v));
                        assert forall|q: TaskParameterDyn| #[trigger] selected_writes(slots(self.constraints)[id], q) implies visited_params@.contains(q) by {
                            assert(cs0[id].methods@[sel as int].outputs@.to_set().contains(q));
                            assert(visited_params@.to_set().contains(q));
                        }
                    }
                }
                proof {
                    let cs2 = slots(self.constraints);
                    let vp2 = visited_params@;
                    assert forall|x: u64| #[trigger] cs0.contains_key(x) && x != id implies cs2[x] == cs1[x] by {}
                    assert forall|q: TaskParameterDyn| vp1.contains(q) implies vp2.contains(q) by {
                        let k = choose|k: int| 0 <= k < vp1.len() && vp1[k] == q;
                        assert(vp2.subrange(0, vp1.len() as int)[k] == q);
                    }
                    assert(vp2.subrange(0, vp0.len() as int) =~= vp0) by {
                        assert(vp2.subrange(0, vp1.len() as int) == vp1);
                        assert forall|k: int| 0 <= k < vp0.len() implies vp2[k] == vp0[k] by {
                            assert(vp2.subrange(0, vp1.len() as int)[k] == vp1[k]);
                            assert(vp1.subrange(0, vp0.len() as int)[k] == vp0[k]);
                        }
                    }
                    assert(vp2.skip(vp0.len() as int) =~= vp1.skip(vp0.len() as int) + vp2.skip(vp1.len() as int)) by {
                        assert forall|k: int| 0 <= k < vp1.len() implies vp2[k] == vp1[k] by {
                            assert(vp2.subrange(0, vp1.len() as int)[k] == vp1[k]);
                        }
                    }
                    assert(queue@ =~= q0 + vp2.skip(vp0.len() as int));
                    assert forall|j: int| vp0.len() <= j < vp2.len() implies written_by(t1, cs2, cs0, vc0, v, #[trigger] vp2[j]) by {
                        if j < vp1.len() {
                            assert(vp2[j] == vp1[j]) by {
                                assert(vp2.subrange(0, vp1.len() as int)[j] == vp1[j]);
                            }
                            assert(written_by(t0, cs1, cs0, vc0, v, vp1[j]));
                            let x = choose|x: u64| t0.contains(x) && #[trigger] new_writer(cs1, cs0, vc0, v, vp1[j], x);
                            assert(x != id);
                            assert(new_writer(cs2, cs0, vc0, v, vp2[j], x));
                        } else {
                            assert(!vp1.contains(vp2[j])) by {
                                if vp1.contains(vp2[j]) {
                                    let k = choose|k: int| 0 <= k < vp1.len() && vp1[k] == vp2[j];
                                    assert(vp2.subrange(0, vp1.len() as int)[k] == vp2[k]);
                                }
                            }
                            assert(vp2.to_set().contains(vp2[j]));
                            assert(new_writer(cs2, cs0, vc0, v, vp2[j], id));
                        }
                    }
                }
            } else {
                proof {
                    assert(vc0.contains(id));
                    assert(visit_all(state_of(vars0, cs0, vp0, vc0, q0), v, t1) == state_of(
                        self.vars@,
                        slots(self.constraints),
                        visited_params@,
                        visited_cs@,
                        queue@,
                    ));
                    assert forall|j: int| vp0.len() <= j < vp1.len() implies written_by(t1, cs1, cs0, vc0, v, #[trigger] vp1[j]) by {
                        assert(written_by(t0, cs1, cs0, vc0, v, vp1[j]));
                        let x = choose|x: u64| t0.contains(x) && #[trigger] new_writer(cs1, cs0, vc0, v, vp1[j], x);
                        assert(t1.contains(x));
                    }
                }
            }
            i = i + 1;
        }
        proof {
            assert(kids.take(keys.len() as int) =~= kids);
            assert forall|id: u64| #[trigger] kids.contains(id) implies cs0.contains_key(id) && cs0[id].variables@.contains(v) by {
                let k = choose|k: int| 0 <= k < kids.len() && kids[k] == id;
            }
            let vpf = visited_params@;
            let csf = slots(self.constraints);
            assert forall|j: int| vp0.len() <= j < vpf.len() implies written_new(csf, cs0, vc0, v, #[trigger] vpf[j]) by {
                assert(written_by(kids.take(i as int), csf, cs0, vc0, v, vpf[j]));
                let x = choose|x: u64| kids.take(i as int).contains(x) && #[trigger] new_writer(csf, cs0, vc0, v, vpf[j], x);
                assert(new_writer(csf, cs0, vc0, v, vpf[j], x));
            }
        }
        true
    }
}

/// One step of a plan through the constraints `ids` of `cs`: a constraint
/// on `p` whose selected method writes `q`.
pub open spec fn plan_step_in(cs: Map<u64, Constraint>, ids: Set<u64>, p: TaskParameterDyn, q: TaskParameterDyn) -> bool {
    exists|id: u64|
        #[trigger] ids.contains(id) && cs.contains_key(id) && cs[id].spec_variables().contains(p) && selected_writes(cs[id], q)
}

/// A chain of parameters in which each one after the first is reached from
/// the one before by a step of a plan through the constraints `ids` of `cs`.
pub open spec fn plan_path_in(cs: Map<u64, Constraint>, ids: Set<u64>, path: Seq<TaskParameterDyn>) -> bool {
    &&& path.len() >= 1
    &&& forall|i: int, j: int| 0 <= i && j == i + 1 && j < path.len() ==> #[trigger] plan_step_in(cs, ids, path[i], path[j])
}

impl System {
    /// `p` lies downstream of `event`: a chain of constraints leads from
    /// `event` to `p`, each on the parameter before and with a selected
    /// method that writes the next one.
    pub open spec fn downstream(self, event: TaskParameterDyn, p: TaskParameterDyn) -> bool {
        exists|path: Seq<TaskParameterDyn>|
            #[trigger] plan_path_in(self.constraint_map(), self.constraint_map().dom(), path) && path[0] == event && path.last() == p
    }
}

/// What planning from `event` makes of a constraint, from `before` to
/// `after`, in the system `s` that results: a constraint with several methods
/// that works on a parameter downstream of `event` has a method selected that
/// reads a parameter of it downstream of `event` (`event` itself when it works
/// on `event`), and records that parameter as its input; every other
/// constraint stays as it was.
pub open spec fn replanned(before: Constraint, after: Constraint, s: System, event: TaskParameterDyn) -> bool {
    if before.spec_methods().len() > 1 && exists|p: TaskParameterDyn| #[trigger] before.spec_variables().contains(p) && s.downstream(event, p) {
        &&& after.spec_name() == before.spec_name()
        &&& after.spec_variables() == before.spec_variables()
        &&& after.spec_methods() == before.spec_methods()
        &&& after.spec_selected() is Some
        &&& after.spec_last_input() is Some
        &&& after.spec_selected()->0 < before.spec_methods().len()
        &&& before.spec_methods()[after.spec_selected()->0 as int].spec_inputs().contains(after.spec_last_input()->0)
        &&& before.spec_variables().contains(after.spec_last_input()->0)
        &&& s.downstream(event, after.spec_last_input()->0)
        &&& before.spec_variables().contains(event) ==> after.spec_last_input()->0 == event
    } else {
        after == before
    }
}

/// Whether a path through the constraints `ids` of `cs` leads from `event` to `p`.
spec fn has_path(cs: Map<u64, Constraint>, ids: Set<u64>, event: TaskParameterDyn, p: TaskParameterDyn) -> bool {
    exists|path: Seq<TaskParameterDyn>| #[trigger] plan_path_in(cs, ids, path) && path[0] == event && path.last() == p
}

proof fn lemma_path_push(cs: Map<u64, Constraint>, ids: Set<u64>, path: Seq<TaskParameterDyn>, x: TaskParameterDyn)
    requires
        plan_path_in(cs, ids, path),
        plan_step_in(cs, ids, path.last(), x),
    ensures
        plan_path_in(cs, ids, path.push(x)),
{
    let np = path.push(x);
    assert forall|i: int, j: int| 0 <= i && j == i + 1 && j < np.len() implies #[trigger] plan_step_in(cs, ids, np[i], np[j]) by {
        if j < path.len() {
            assert(np[i] == path[i] && np[j] == path[j]);
            assert(plan_step_in(cs, ids, path[i], path[j]));
        } else {
            assert(np[i] == path.last());
        }
    }
}

proof fn lemma_path_lift(
    cs: Map<u64, Constraint>,
    cs2: Map<u64, Constraint>,
    ids: Set<u64>,
    ids2: Set<u64>,
    path: Seq<TaskParameterDyn>,
)
    requires
        plan_path_in(cs, ids, path),
        forall|id: u64| #[trigger] ids.contains(id) ==> ids2.contains(id),
        forall|id: u64| #[trigger] ids.contains(id) && cs.contains_key(id) ==> cs2.contains_key(id) && cs2[id] == cs[id],
    ensures
        plan_path_in(cs2, ids2, path),
{
    assert forall|i: int, j: int| 0 <= i && j == i + 1 && j < path.len() implies #[trigger] plan_step_in(cs2, ids2, path[i], path[j]) by {
        assert(plan_step_in(cs, ids, path[i], path[j]));
        let id = choose|id: u64|
            #[trigger] ids.contains(id) && cs.contains_key(id) && cs[id].spec_variables().contains(path[i]) && selected_writes(cs[id], path[j]);
        assert(ids2.contains(id));
    }
}

/// A path that starts in a set closed under the steps of a plan stays in it.
proof fn lemma_path_closed(cs: Map<u64, Constraint>, path: Seq<TaskParameterDyn>, rs: Set<TaskParameterDyn>)
    requires
        plan_path_in(cs, cs.dom(), path),
        rs.contains(path[0]),
        forall|p: TaskParameterDyn, q: TaskParameterDyn| #[trigger] rs.contains(p) && #[trigger] plan_step_in(cs, cs.dom(), p, q) ==> rs.contains(q),
    ensures
        rs.contains(path.last()),
    decreases path.len(),
{
    if path.len() > 1 {
        let init = path.drop_last();
        assert forall|i: int, j: int| 0 <= i && j == i + 1 && j < init.len() implies #[trigger] plan_step_in(cs, cs.dom(), init[i], init[j]) by {
            assert(plan_step_in(cs, cs.dom(), path[i], path[j]));
        }
        lemma_path_closed(cs, init, rs);
        let k = path.len() - 1;
        assert(plan_step_in(cs, cs.dom(), path[k - 1], path[k]));
        assert(init.last() == path[k - 1]);
    }
}

/// Whether planning from `event` has reached `p`: the event itself, or a
/// parameter among `vp`.
spec fn in_reach(vp: Seq<TaskParameterDyn>, event: TaskParameterDyn, p: TaskParameterDyn) -> bool {
    p == event || vp.contains(p)
}

/// Whether visiting `before` from some reached parameter of it made `after`
/// of it; from `event` when it has several methods and works on `event`.
spec fn visited_ok(before: Constraint, after: Constraint, vp: Seq<TaskParameterDyn>, event: TaskParameterDyn) -> bool {
    exists|v: TaskParameterDyn|
        {
            &&& in_reach(vp, event, v)
            &&& before.variables@.contains(v)
            &&& #[trigger] stepped(before, after, v)
            &&& before.methods@.len() > 1 && before.variables@.contains(event) ==> v == event
        }
}

impl System {
    /// Plans from `event`, as `plan_succeeds` describes, and says whether
    /// planning went through. Planning visits the parameters from `event` on,
    /// breadth first, and at each constraint on a visited parameter that is not
    /// visited yet selects, when it has several methods, the one that
    /// `choose_method` picks for that parameter as input under the strengths
    /// of the moment (moving the strengths from the method selected before to
    /// it), then visits what the selected method writes. Where `event` is no
    /// parameter of the system, nothing is planned; where planning meets a
    /// constraint with several methods none of which reads the parameter it is
    /// visited from, it stops there, with what it did so far left in place.
    pub fn try_plan_with_event(&mut self, event: TaskParameterDyn) -> (planned: bool)
        requires
            old(self).wf(),
        ensures
            final(self).wf(),
            planned == old(self).plan_succeeds(event),
            planned ==> final(self).constraint_map() == old(self).planned_constraints(event),
            planned ==> forall|p: TaskParameterDyn| #[trigger] final(self).strength(p) == old(self).planned_strength(event, p),
            planned ==> old(self).planned_visits(event).no_duplicates(),
            planned ==> old(self).planned_pops(event) == old(self).planned_order(event).len(),
            planned ==> old(self).planned_reached(event).no_duplicates(),
            planned ==> forall|p: TaskParameterDyn| #[trigger] old(self).planned_reached(event).contains(p) ==> old(self).params().contains(p),
            planned ==> final(self).params() == old(self).params(),
            planned ==> forall|p: TaskParameterDyn| #[trigger] final(self).constraints_on(p) == old(self).constraints_on(p),
            planned ==> final(self).constraint_map().dom() == old(self).constraint_map().dom(),
            planned ==> forall|id: u64| #[trigger] old(self).constraint_map().contains_key(id) ==> replanned(
                old(self).constraint_map()[id],
                final(self).constraint_map()[id],
                *final(self),
                event,
            ),
    {
        let ghost cs0 = slots(self.constraints);
        let ghost vars0 = self.vars@;
        let ghost s0 = *self;
        if find_var(&self.vars, &event).is_none() {
            return false;
        }
        let mut queue: VecDeque<TaskParameterDyn> = VecDeque::new();
        queue.push_back(event);
        let mut visited_params: Vec<TaskParameterDyn> = Vec::new();
        let mut visited_cs: Vec<u64> = Vec::new();
        let ghost mut fuel: nat = (2 * vars0.len() + 2) as nat;
        proof {
            assert(queue@ =~= seq![event]);
            assert(plan_path_in(cs0, visited_cs@.to_set(), seq![event]));
            assert(has_path(cs0, visited_cs@.to_set(), event, event));
            assert(queue@[0] == event);
            assert forall|p: TaskParameterDyn| #[trigger] in_reach(visited_params@, event, p) implies queue@.contains(p) by {
                assert(!visited_params@.contains(p));
            }
            assert(visited_params@ =~= Seq::<TaskParameterDyn>::empty());
            assert(visited_cs@ =~= Seq::<u64>::empty());
        }
        while queue.len() > 0
            invariant
                self.wf(),
                parts_wf(vars0, cs0),
                cs0 == s0.constraint_map(),
                vars0 == s0.vars@,
                s0 == *old(self),
                s0.wf(),
                has_var(vars0, event),
                vars_same(vars0, self.vars@),
                slots(self.constraints).dom() == cs0.dom(),
                forall|id: u64| #[trigger] cs0.contains_key(id) ==> {
                    &&& slots(self.constraints)[id].name == cs0[id].name
                    &&& slots(self.constraints)[id].variables == cs0[id].variables
                    &&& slots(self.constraints)[id].methods == cs0[id].methods
                },
                visited_cs@.no_duplicates(),
                forall|id: u64| #[trigger] visited_cs@.contains(id) ==> cs0.contains_key(id),
                forall|id: u64| #[trigger] cs0.contains_key(id) ==> if visited_cs@.contains(id) {
                    &&& visited_ok(cs0[id], slots(self.constraints)[id], visited_params@, event)
                    &&& forall|q: TaskParameterDyn| #[trigger] selected_writes(slots(self.constraints)[id], q) ==> visited_params@.contains(q)
                } else {
                    slots(self.constraints)[id] == cs0[id]
                },
                visited_params@.no_duplicates(),
                forall|j: int| 0 <= j < visited_params@.len() ==> has_var(vars0, #[trigger] visited_params@[j]),
                visited_params@.len() <= vars0.len(),
                forall|p: TaskParameterDyn| #[trigger] in_reach(visited_params@, event, p) ==> has_path(
                    slots(self.constraints),
                    visited_cs@.to_set(),
                    event,
                    p,
                ),
                forall|p: TaskParameterDyn| #[trigger] in_reach(visited_params@, event, p) ==> queue@.contains(p) || forall|id: u64|
                    #[trigger] cs0.contains_key(id) && cs0[id].variables@.contains(p) ==> visited_cs@.contains(id),
                (queue@ == seq![event] && visited_cs@.len() == 0 && visited_params@.len() == 0) || forall|id: u64|
                    #[trigger] cs0.contains_key(id) && cs0[id].variables@.contains(event) ==> visited_cs@.contains(id),
                forall|k: int| 0 <= k < queue@.len() ==> in_reach(visited_params@, event, #[trigger] queue@[k]),
                fuel >= 2 * (vars0.len() - visited_params@.len()) + queue@.len(),
                run(state_of(self.vars@, slots(self.constraints), visited_params@, visited_cs@, queue@), fuel) == plan_run(s0, event),
            decreases 2 * (vars0.len() - visited_params@.len()) + queue@.len(),
        {
            let ghost cs1 = slots(self.constraints);
            let ghost vars1 = self.vars@;
            let ghost vp1 = visited_params@;
            let ghost vc1 = visited_cs@;
            let ghost q1 = queue@;
            let var = queue.pop_front().unwrap();
            proof {
                assert(var == q1[0]);
                assert(in_reach(vp1, event, q1[0]));
                lemma_vars_same_has_var(vars0, vars1);
                if var != event {
                    let j = choose|j: int| 0 <= j < vp1.len() && vp1[j] == var;
                    assert(has_var(vars0, vp1[j]));
                }
                assert(has_var(vars1, var));
                assert(queue@ == q1.drop_first());
                assert(run(state_of(vars1, cs1, vp1, vc1, q1), fuel) == run(
                    visit_all(state_of(vars1, cs1, vp1, vc1, queue@), var, ids_on(vars1, var)),
                    (fuel - 1) as nat,
                ));
            }
            let done = self.plan_step(var, &mut visited_params, &mut visited_cs, &mut queue);
            if !done {
                proof {
                    let st = visit_all(state_of(vars1, cs1, vp1, vc1, q1.drop_first()), var, ids_on(vars1, var));
                    assert(!st.ok);
                    assert(run(st, (fuel - 1) as nat) == st);
                }
                return false;
            }
            proof {
                lemma_plan_progress(
                    cs0, vars0, event, var, cs1, slots(self.constraints), vp1, visited_params@, vc1, visited_cs@, q1, queue@,
                );
                fuel = (fuel - 1) as nat;
            }
        }
        proof {
            lemma_plan_done(s0, *self, event, visited_params@, visited_cs@, queue@);
            let st = state_of(self.vars@, slots(self.constraints), visited_params@, visited_cs@, queue@);
            assert(run(st, fuel) == st);
            let st0 = state_of(vars0, cs0, Seq::empty(), Seq::empty(), seq![event]);
            let fuel0 = (2 * vars0.len() + 2) as nat;
            assert(plan_run(s0, event) == run(st0, fuel0));
            assert(st0.q =~= (seq![event] + st0.vp).skip(0));
            assert(bfs_shape(st0, vars0, cs0, event, 0));
            lemma_run_pops(st0, fuel0, vars0, cs0, event, 0);
            assert forall|p: TaskParameterDyn| #[trigger] self.strength(p) == s0.planned_strength(event, p) by {}
            assert forall|p: TaskParameterDyn| #[trigger] s0.planned_reached(event).contains(p) implies s0.params().contains(p) by {
                let j = choose|j: int| 0 <= j < visited_params@.len() && visited_params@[j] == p;
                assert(has_var(vars0, visited_params@[j]));
            }
        }
        true
    }

    /// Plans from `event`, on a system for which planning from it goes
    /// through (`plan_succeeds`); see `try_plan_with_event`.
    pub fn plan_with_event(&mut self, event: TaskParameterDyn)
        requires
            old(self).wf(),
            old(self).plan_succeeds(event),
        ensures
            final(self).wf(),
            final(self).constraint_map() == old(self).planned_constraints(event),
            forall|p: TaskParameterDyn| #[trigger] final(self).strength(p) == old(self).planned_strength(event, p),
            old(self).planned_visits(event).no_duplicates(),
            old(self).planned_pops(event) == old(self).planned_order(event).len(),
            old(self).planned_reached(event).no_duplicates(),
            forall|p: TaskParameterDyn| #[trigger] old(self).planned_reached(event).contains(p) ==> old(self).params().contains(p),
            final(self).params() == old(self).params(),
            forall|p: TaskParameterDyn| #[trigger] final(self).constraints_on(p) == old(self).constraints_on(p),
            final(self).constraint_map().dom() == old(self).constraint_map().dom(),
            forall|id: u64| #[trigger] old(self).constraint_map().contains_key(id) ==> replanned(
                old(self).constraint_map()[id],
                final(self).constraint_map()[id],
                *final(self),
                event,
            ),
    {
        let _ = self.try_plan_with_event(event);
    }
}

/// One turn of the planning loop keeps what the loop relies on.
proof fn lemma_plan_progress(
    cs0: Map<u64, Constraint>,
    vars0: Seq<Variable>,
    event: TaskParameterDyn,
    var: TaskParameterDyn,
    cs1: Map<u64, Constraint>,
    cs2: Map<u64, Constraint>,
    vp1: Seq<TaskParameterDyn>,
    vp2: Seq<TaskParameterDyn>,
    vc1: Seq<u64>,
    vc2: Seq<u64>,
    q1: Seq<TaskParameterDyn>,
    q2: Seq<TaskParameterDyn>,
)
    requires
        parts_wf(vars0, cs0),
        cs1.dom() == cs0.dom(),
        forall|id: u64| #[trigger] cs0.contains_key(id) ==> {
            &&& cs1[id].name == cs0[id].name
            &&& cs1[id].variables == cs0[id].variables
            &&& cs1[id].methods == cs0[id].methods
        },
        vc1.no_duplicates(),
        forall|id: u64| #[trigger] vc1.contains(id) ==> cs0.contains_key(id),
        forall|id: u64| #[trigger] cs0.contains_key(id) ==> if vc1.contains(id) {
            &&& visited_ok(cs0[id], cs1[id], vp1, event)
            &&& forall|q: TaskParameterDyn| #[trigger] selected_writes(cs1[id], q) ==> vp1.contains(q)
        } else {
            cs1[id] == cs0[id]
        },
        vp1.no_duplicates(),
        forall|j: int| 0 <= j < vp1.len() ==> has_var(vars0, #[trigger] vp1[j]),
        forall|p: TaskParameterDyn| #[trigger] in_reach(vp1, event, p) ==> has_path(cs1, vc1.to_set(), event, p),
        forall|p: TaskParameterDyn| #[trigger] in_reach(vp1, event, p) ==> q1.contains(p) || forall|id: u64|
            #[trigger] cs0.contains_key(id) && cs0[id].variables@.contains(p) ==> vc1.contains(id),
        (q1 == seq![event] && vc1.len() == 0 && vp1.len() == 0) || forall|id: u64|
            #[trigger] cs0.contains_key(id) && cs0[id].variables@.contains(event) ==> vc1.contains(id),
        forall|k: int| 0 <= k < q1.len() ==> in_reach(vp1, event, #[trigger] q1[k]),
        q1.len() > 0,
        var == q1[0],
        cs2.dom() == cs1.dom(),
        vc2.no_duplicates(),
        forall|id: u64| #[trigger] vc2.contains(id) == (vc1.contains(id) || (cs1.contains_key(id) && cs1[id].variables@.contains(var))),
        forall|id: u64| #[trigger] cs1.contains_key(id) ==> if cs1[id].variables@.contains(var) && !vc1.contains(id) {
            &&& stepped(cs1[id], cs2[id], var)
            &&& forall|q: TaskParameterDyn| #[trigger] selected_writes(cs2[id], q) ==> vp2.contains(q)
        } else {
            cs2[id] == cs1[id]
        },
        vp2.no_duplicates(),
        vp2.len() >= vp1.len(),
        vp2.subrange(0, vp1.len() as int) == vp1,
        q2 == q1.subrange(1, q1.len() as int) + vp2.skip(vp1.len() as int),
        forall|j: int| vp1.len() <= j < vp2.len() ==> written_new(cs2, cs1, vc1, var, #[trigger] vp2[j]),
    ensures
        forall|id: u64| #[trigger] cs0.contains_key(id) ==> {
            &&& cs2[id].name == cs0[id].name
            &&& cs2[id].variables == cs0[id].variables
            &&& cs2[id].methods == cs0[id].methods
        },
        forall|id: u64| #[trigger] vc2.contains(id) ==> cs0.contains_key(id),
        forall|id: u64| #[trigger] cs0.contains_key(id) ==> if vc2.contains(id) {
            &&& visited_ok(cs0[id], cs2[id], vp2, event)
            &&& forall|q: TaskParameterDyn| #[trigger] selected_writes(cs2[id], q) ==> vp2.contains(q)
        } else {
            cs2[id] == cs0[id]
        },
        forall|j: int| 0 <= j < vp2.len() ==> has_var(vars0, #[trigger] vp2[j]),
        vp2.len() <= vars0.len(),
        forall|p: TaskParameterDyn| #[trigger] in_reach(vp2, event, p) ==> has_path(cs2, vc2.to_set(), event, p),
        forall|p: TaskParameterDyn| #[trigger] in_reach(vp2, event, p) ==> q2.contains(p) || forall|id: u64|
            #[trigger] cs0.contains_key(id) && cs0[id].variables@.contains(p) ==> vc2.contains(id),
        (q2 == seq![event] && vc2.len() == 0 && vp2.len() == 0) || forall|id: u64|
            #[trigger] cs0.contains_key(id) && cs0[id].variables@.contains(event) ==> vc2.contains(id),
        forall|k: int| 0 <= k < q2.len() ==> in_reach(vp2, event, #[trigger] q2[k]),
        2 * (vars0.len() - vp2.len()) + q2.len() < 2 * (vars0.len() - vp1.len()) + q1.len(),
{
    let added = vp2.skip(vp1.len() as int);
    // what `vp1` holds, `vp2` holds at the same place
    assert forall|k: int| 0 <= k < vp1.len() implies vp2[k] == vp1[k] by {
        assert(vp2.subrange(0, vp1.len() as int)[k] == vp1[k]);
    }
    assert forall|p: TaskParameterDyn| #[trigger] in_reach(vp1, event, p) implies in_reach(vp2, event, p) by {
        if vp1.contains(p) {
            let k = choose|k: int| 0 <= k < vp1.len() && vp1[k] == p;
            assert(vp2[k] == p);
        }
    }
    assert(in_reach(vp1, event, var));
    // a new parameter is written by a newly visited constraint on `var`
    assert forall|j: int| vp1.len() <= j < vp2.len() implies {
        &&& has_var(vars0, #[trigger] vp2[j])
        &&& exists|x: u64| vc2.contains(x) && cs2.contains_key(x) && cs2[x].spec_variables().contains(var) && selected_writes(cs2[x], vp2[j])
    } by {
        assert(written_new(cs2, cs1, vc1, var, vp2[j]));
        let x = choose|x: u64| #[trigger] new_writer(cs2, cs1, vc1, var, vp2[j], x);
        assert(cs0.contains_key(x));
        assert(vc2.contains(x));
        lemma_method_facts(vars0, cs0, x);
        let sel = cs2[x].selected_method->0 as int;
        assert(cs2[x].methods@[sel].outputs@.contains(vp2[j]));
        assert(cs0[x].methods@[sel].outputs@.contains(vp2[j]));
        assert(cs0[x].variables@.contains(vp2[j]));
    }
    assert forall|j: int| 0 <= j < vp2.len() implies has_var(vars0, #[trigger] vp2[j]) by {
        if j < vp1.len() {
            assert(vp2[j] == vp1[j]);
        }
    }
    // the visited parameters are parameters of the system, each once
    let vals = vars0.map_values(|x: Variable| x.value);
    assert forall|j: int| 0 <= j < vp2.len() implies vals.contains(#[trigger] vp2[j]) by {
        assert(has_var(vars0, vp2[j]));
        let w = choose|w: int| 0 <= w < vars0.len() && (#[trigger] vars0[w]).value == vp2[j];
        assert(vals[w] == vp2[j]);
    }
    lemma_len_within(vp2, vals);
    // the constraints keep their shape
    assert forall|id: u64| #[trigger] cs0.contains_key(id) implies {
        &&& cs2[id].name == cs0[id].name
        &&& cs2[id].variables == cs0[id].variables
        &&& cs2[id].methods == cs0[id].methods
    } by {
        assert(cs1.contains_key(id));
        if cs1[id].variables@.contains(var) && !vc1.contains(id) && cs1[id].methods@.len() != 1 {
            let sel = choose|sel: usize|
                sel < cs1[id].methods@.len() && cs1[id].methods@[sel as int].inputs@.contains(var) && cs2[id] == #[trigger] with_selection(cs1[id], sel, var);
        }
    }
    assert forall|id: u64| #[trigger] vc2.contains(id) implies cs0.contains_key(id) by {
        if !vc1.contains(id) {
            assert(cs1.contains_key(id));
        }
    }
    // the visited constraints
    assert forall|id: u64| #[trigger] cs0.contains_key(id) implies if vc2.contains(id) {
        &&& visited_ok(cs0[id], cs2[id], vp2, event)
        &&& forall|q: TaskParameterDyn| #[trigger] selected_writes(cs2[id], q) ==> vp2.contains(q)
    } else {
        cs2[id] == cs0[id]
    } by {
        assert(cs1.contains_key(id));
        if vc1.contains(id) {
            assert(cs2[id] == cs1[id]);
            assert(visited_ok(cs0[id], cs1[id], vp1, event));
            let v = choose|v: TaskParameterDyn|
                {
                    &&& in_reach(vp1, event, v)
                    &&& cs0[id].variables@.contains(v)
                    &&& #[trigger] stepped(cs0[id], cs1[id], v)
                    &&& cs0[id].methods@.len() > 1 && cs0[id].variables@.contains(event) ==> v == event
                };
            assert(in_reach(vp2, event, v));
            assert forall|q: TaskParameterDyn| #[trigger] selected_writes(cs2[id], q) implies vp2.contains(q) by {
                assert(vp1.contains(q));
                let k = choose|k: int| 0 <= k < vp1.len() && vp1[k] == q;
                assert(vp2[k] == q);
            }
        } else if cs1[id].variables@.contains(var) {
            assert(cs1[id] == cs0[id]);
            assert(in_reach(vp2, event, var));
            if cs0[id].methods@.len() > 1 && cs0[id].variables@.contains(event) && var != event {
                assert(!(q1 == seq![event] && vc1.len() == 0 && vp1.len() == 0));
                assert(vc1.contains(id));
            }
            assert(stepped(cs0[id], cs2[id], var));
        }
    }
    // each parameter reached has a path through the visited constraints
    let ids1 = vc1.to_set();
    let ids2 = vc2.to_set();
    assert forall|id: u64| #[trigger] ids1.contains(id) implies ids2.contains(id) by {
        assert(vc1.contains(id));
        assert(vc2.contains(id));
    }
    assert forall|id: u64| #[trigger] ids1.contains(id) && cs1.contains_key(id) implies cs2.contains_key(id) && cs2[id] == cs1[id] by {
        assert(vc1.contains(id));
    }
    assert forall|p: TaskParameterDyn| #[trigger] in_reach(vp2, event, p) implies has_path(cs2, ids2, event, p) by {
        if in_reach(vp1, event, p) {
            let path = choose|path: Seq<TaskParameterDyn>| #[trigger] plan_path_in(cs1, ids1, path) && path[0] == event && path.last() == p;
            lemma_path_lift(cs1, cs2, ids1, ids2, path);
        } else {
            let j = choose|j: int| 0 <= j < vp2.len() && vp2[j] == p;
            if j < vp1.len() {
                assert(vp1.contains(p));
            }
            let x = choose|x: u64| vc2.contains(x) && cs2.contains_key(x) && cs2[x].spec_variables().contains(var) && selected_writes(cs2[x], vp2[j]);
            let path = choose|path: Seq<TaskParameterDyn>| #[trigger] plan_path_in(cs1, ids1, path) && path[0] == event && path.last() == var;
            lemma_path_lift(cs1, cs2, ids1, ids2, path);
            assert(ids2.contains(x));
            assert(plan_step_in(cs2, ids2, path.last(), p));
            lemma_path_push(cs2, ids2, path, p);
            assert(path.push(p)[0] == event);
            assert(has_path(cs2, ids2, event, p));
        }
    }
    // each parameter reached is queued or has all its constraints visited
    let rest = q1.subrange(1, q1.len() as int);
    assert forall|k: int| 0 <= k < added.len() implies q2[rest.len() + k] == #[trigger] added[k] by {}
    assert forall|p: TaskParameterDyn| #[trigger] in_reach(vp2, event, p) implies q2.contains(p) || forall|id: u64|
        #[trigger] cs0.contains_key(id) && cs0[id].variables@.contains(p) ==> vc2.contains(id) by {
        if p == var {
            assert forall|id: u64| #[trigger] cs0.contains_key(id) && cs0[id].variables@.contains(p) implies vc2.contains(id) by {
                assert(cs1.contains_key(id));
            }
        } else if in_reach(vp1, event, p) {
            if q1.contains(p) {
                let k = choose|k: int| 0 <= k < q1.len() && q1[k] == p;
                assert(k != 0);
                assert(q2[k - 1] == p);
            } else {
                assert forall|id: u64| #[trigger] cs0.contains_key(id) && cs0[id].variables@.contains(p) implies vc2.contains(id) by {
                    assert(vc1.contains(id));
                }
            }
        } else {
            let j = choose|j: int| 0 <= j < vp2.len() && vp2[j] == p;
            if j < vp1.len() {
                assert(vp1.contains(p));
            }
            assert(added[j - vp1.len()] == p);
            assert(q2[rest.len() + j - vp1.len()] == p);
        }
    }
    // after the first turn every constraint on `event` is visited
    assert((q2 == seq![event] && vc2.len() == 0 && vp2.len() == 0) || forall|id: u64|
        #[trigger] cs0.contains_key(id) && cs0[id].variables@.contains(event) ==> vc2.contains(id)) by {
        if q1 == seq![event] && vc1.len() == 0 && vp1.len() == 0 {
            assert(var == event);
            assert forall|id: u64| #[trigger] cs0.contains_key(id) && cs0[id].variables@.contains(event) implies vc2.contains(id) by {
                assert(cs1.contains_key(id));
            }
        } else {
            assert forall|id: u64| #[trigger] cs0.contains_key(id) && cs0[id].variables@.contains(event) implies vc2.contains(id) by {
                assert(vc1.contains(id));
            }
        }
    }
    // the queue holds reached parameters only
    assert forall|k: int| 0 <= k < q2.len() implies in_reach(vp2, event, #[trigger] q2[k]) by {
        if k < rest.len() {
            assert(q2[k] == q1[k + 1]);
            assert(in_reach(vp1, event, q1[k + 1]));
        } else {
            assert(q2[k] == vp2[vp1.len() + k - rest.len()]);
        }
    }
}

/// What the planning loop leaves, once its queue is empty, is what
/// `plan_with_event` promises.
proof fn lemma_plan_done(
    s0: System,
    s: System,
    event: TaskParameterDyn,
    vp: Seq<TaskParameterDyn>,
    vc: Seq<u64>,
    q: Seq<TaskParameterDyn>,
)
    requires
        s0.wf(),
        s.wf(),
        vars_same(s0.vars@, s.vars@),
        slots(s.constraints).dom() == slots(s0.constraints).dom(),
        forall|id: u64| #[trigger] slots(s0.constraints).contains_key(id) ==> {
            &&& slots(s.constraints)[id].name == slots(s0.constraints)[id].name
            &&& slots(s.constraints)[id].variables == slots(s0.constraints)[id].variables
            &&& slots(s.constraints)[id].methods == slots(s0.constraints)[id].methods
        },
        forall|id: u64| #[trigger] vc.contains(id) ==> slots(s0.constraints).contains_key(id),
        forall|id: u64| #[trigger] slots(s0.constraints).contains_key(id) ==> if vc.contains(id) {
            &&& visited_ok(slots(s0.constraints)[id], slots(s.constraints)[id], vp, event)
            &&& forall|q: TaskParameterDyn| #[trigger] selected_writes(slots(s.constraints)[id], q) ==> vp.contains(q)
        } else {
            slots(s.constraints)[id] == slots(s0.constraints)[id]
        },
        forall|p: TaskParameterDyn| #[trigger] in_reach(vp, event, p) ==> has_path(slots(s.constraints), vc.to_set(), event, p),
        forall|p: TaskParameterDyn| #[trigger] in_reach(vp, event, p) ==> q.contains(p) || forall|id: u64|
            #[trigger] slots(s0.constraints).contains_key(id) && slots(s0.constraints)[id].variables@.contains(p) ==> vc.contains(id),
        q.len() == 0,
    ensures
        s.params() == s0.params(),
        forall|p: TaskParameterDyn| #[trigger] s.constraints_on(p) == s0.constraints_on(p),
        s.constraint_map().dom() == s0.constraint_map().dom(),
        forall|id: u64| #[trigger] s0.constraint_map().contains_key(id) ==> replanned(
            s0.constraint_map()[id],
            s.constraint_map()[id],
            s,
            event,
        ),
{
    let cs0 = slots(s0.constraints);
    let cs = slots(s.constraints);
    let vars0 = s0.vars@;
    let vars = s.vars@;
    // the parameters and the constraints on each
    lemma_vars_same_has_var(vars0, vars);
    assert(s.params() =~= s0.params());
    assert forall|p: TaskParameterDyn| #[trigger] s.constraints_on(p) == s0.constraints_on(p) by {
        if has_var(vars0, p) {
            let w = var_index(vars0, p);
            let wn = var_index(vars, p);
            assert(vars[w].value == p);
            if wn != w {
                assert(vars0[wn].value == p);
                assert(vars0[wn].value != vars0[w].value);
            }
        }
    }
    // what is reached is exactly what lies downstream of the event
    let rs = vp.to_set().insert(event);
    assert forall|p: TaskParameterDyn, q2: TaskParameterDyn| #[trigger] rs.contains(p) && #[trigger] plan_step_in(cs, cs.dom(), p, q2) implies rs.contains(q2) by {
        assert(in_reach(vp, event, p));
        let id = choose|id: u64|
            #[trigger] cs.dom().contains(id) && cs.contains_key(id) && cs[id].spec_variables().contains(p) && selected_writes(cs[id], q2);
        assert(cs0.contains_key(id));
        assert(!q.contains(p));
        assert(vc.contains(id));
        assert(vp.contains(q2));
    }
    assert forall|p: TaskParameterDyn| #[trigger] s.downstream(event, p) implies in_reach(vp, event, p) by {
        let path = choose|path: Seq<TaskParameterDyn>|
            #[trigger] plan_path_in(s.constraint_map(), s.constraint_map().dom(), path) && path[0] == event && path.last() == p;
        lemma_path_closed(cs, path, rs);
    }
    assert forall|id: u64| #[trigger] vc.to_set().contains(id) implies cs.dom().contains(id) by {
        assert(vc.contains(id));
    }
    assert forall|p: TaskParameterDyn| #[trigger] in_reach(vp, event, p) implies s.downstream(event, p) by {
        let path = choose|path: Seq<TaskParameterDyn>| #[trigger] plan_path_in(cs, vc.to_set(), path) && path[0] == event && path.last() == p;
        lemma_path_lift(cs, cs, vc.to_set(), cs.dom(), path);
    }
    // each constraint
    assert forall|id: u64| #[trigger] s0.constraint_map().contains_key(id) implies replanned(
        s0.constraint_map()[id],
        s.constraint_map()[id],
        s,
        event,
    ) by {
        let before = cs0[id];
        let after = cs[id];
        if vc.contains(id) {
            let v = choose|v: TaskParameterDyn|
                {
                    &&& in_reach(vp, event, v)
                    &&& before.variables@.contains(v)
                    &&& #[trigger] stepped(before, after, v)
                    &&& before.methods@.len() > 1 && before.variables@.contains(event) ==> v == event
                };
            assert(s.downstream(event, v));
            if before.methods@.len() > 1 {
                assert(before.spec_variables().contains(v) && s.downstream(event, v));
                let sel = choose|sel: usize|
                    sel < before.methods@.len() && before.methods@[sel as int].inputs@.contains(v) && after == #[trigger] with_selection(before, sel, v);
                assert(after.spec_last_input()->0 == v);
                assert(after.spec_selected()->0 == sel);
            }
        } else {
            assert(after == before);
            if before.methods@.len() > 1 && exists|p: TaskParameterDyn| #[trigger] before.spec_variables().contains(p) && s.downstream(event, p) {
                let p = choose|p: TaskParameterDyn| #[trigger] before.spec_variables().contains(p) && s.downstream(event, p);
                assert(in_reach(vp, event, p));
                assert(!q.contains(p));
                assert(vc.contains(id));
            }
        }
    }
}

/// The strength of a parameter is what the constraints on it contribute:
/// nothing from one with a single method; from one with several, one, plus
/// one when its selected method writes the parameter, minus one when that
/// method reads it and it is not the input the method was selected for.
pub proof fn lemma_strength_is_contribution_sum(s: System, p: TaskParameterDyn)
    requires
        s.wf(),
    ensures
        s.strength(p) == strength_sum(s.constraints_on(p), s.constraint_map(), p),
{
}

/// The strength of a parameter lies between zero and twice the number of
/// constraints on it.
pub proof fn lemma_strength_bounds(s: System, p: TaskParameterDyn)
    requires
        s.wf(),
    ensures
        0 <= s.strength(p) <= 2 * s.constraints_on(p).len(),
{
    lemma_strength_sum_bounds(s.constraints_on(p), s.constraint_map(), p);
}

/// A constraint as a cluster of the graph of a system: a node for each of its
/// methods, and the node at `point` standing for the constraint.
pub struct GraphCluster {
    pub constraint: u64,
    pub name: Option<String>,
    pub methods: Vec<TaskDyn>,
    pub point: usize,
}

/// A parameter as a node of the graph of a system, with its strength.
pub struct GraphVar {
    pub param: TaskParameterDyn,
    pub strength: i32,
}

/// Which way an edge between a parameter and a constraint runs.
#[derive(Clone, Copy, PartialEq, Eq, Debug, Structural)]
pub enum EdgeKind {
    /// From the parameter to the selected method, which reads it.
    IntoMethod,
    /// From the selected method, which writes the parameter, to it.
    OutOfMethod,
    /// From the parameter to the cluster of a constraint with no method selected.
    IntoCluster,
}

/// An edge between a parameter and a method node of a constraint; `bold`
/// when the parameter is the input the method was selected for.
pub struct GraphEdge {
    pub param: TaskParameterDyn,
    pub constraint: u64,
    pub method: usize,
    pub kind: EdgeKind,
    pub bold: bool,
}

/// The graph of a system: its constraints, its parameters, and an edge for
/// each parameter and each constraint on it.
pub struct SystemGraph {
    pub clusters: Vec<GraphCluster>,
    pub vars: Vec<GraphVar>,
    pub edges: Vec<GraphEdge>,
}

/// The edge between the parameter `p` and the constraint `c` under the id `id`.
pub open spec fn graph_edge(c: Constraint, id: u64, p: TaskParameterDyn) -> GraphEdge {
    match c.spec_selected() {
        Some(m) => GraphEdge {
            param: p,
            constraint: id,
            method: m,
            kind: if c.spec_methods()[m as int].spec_outputs().contains(p) {
                EdgeKind::OutOfMethod
            } else {
                EdgeKind::IntoMethod
            },
            bold: c.spec_last_input() == Some(p),
        },
        None => GraphEdge {
            param: p,
            constraint: id,
            method: (c.spec_methods().len() / 2) as usize,
            kind: EdgeKind::IntoCluster,
            bold: false,
        },
    }
}

/// The edges of the parameters `params` of `s`, parameter after parameter,
/// each with the constraints on it in the order they were added.
pub open spec fn graph_edges(s: System, params: Seq<TaskParameterDyn>) -> Seq<GraphEdge>
    decreases params.len(),
{
    if params.len() == 0 {
        Seq::empty()
    } else {
        graph_edges(s, params.drop_last()) + s.constraints_on(params.last()).map_values(
            |id: u64| graph_edge(s.constraint_map()[id], id, params.last()),
        )
    }
}

/// Whether `cl` shows the constraint `c` under the id `id`.
pub open spec fn shows_constraint(cl: GraphCluster, id: u64, c: Constraint) -> bool {
    &&& cl.constraint == id
    &&& c.spec_name() == match cl.name {
        Some(n) => Some(n@),
        None => None::<Seq<char>>,
    }
    &&& cl.methods@.len() == c.spec_methods().len()
    &&& forall|m: int| 0 <= m < cl.methods@.len() ==> cl.methods@[m] == #[trigger] c.spec_methods()[m].spec_task()
    &&& cl.point == c.spec_methods().len() / 2
}

impl System {
    /// The parameters of the system, in the order they first got a constraint.
    pub closed spec fn param_seq(self) -> Seq<TaskParameterDyn> {
        self.vars@.map_values(|v: Variable| v.value)
    }

    /// The graph of the system: a cluster for each constraint, in the order
    /// of their slots, a node for each parameter with its strength, and an
    /// edge for each parameter and each constraint on it.
    pub fn graph(&self) -> (g: SystemGraph)
        requires
            self.wf(),
        ensures
            self.param_seq().no_duplicates(),
            forall|p: TaskParameterDyn| #[trigger] self.params().contains(p) == self.param_seq().contains(p),
            g.vars@.len() == self.param_seq().len(),
            forall|i: int| 0 <= i < g.vars@.len() ==> {
                &&& (#[trigger] g.vars@[i]).param == self.param_seq()[i]
                &&& g.vars@[i].strength == self.strength(self.param_seq()[i])
            },
            g.edges@ == graph_edges(*self, self.param_seq()),
            g.clusters@.map_values(|cl: GraphCluster| cl.constraint).no_duplicates(),
            forall|i: int, j: int|
                0 <= i < j < g.clusters@.len() ==> slot_of((#[trigger] g.clusters@[i]).constraint) < slot_of(
                    (#[trigger] g.clusters@[j]).constraint,
                ),
            forall|i: int| 0 <= i < g.clusters@.len() ==> {
                &&& self.constraint_map().contains_key((#[trigger] g.clusters@[i]).constraint)
                &&& shows_constraint(g.clusters@[i], g.clusters@[i].constraint, self.constraint_map()[g.clusters@[i].constraint])
            },
            forall|id: u64| #[trigger] self.constraint_map().contains_key(id) ==> exists|i: int|
                0 <= i < g.clusters@.len() && (#[trigger] g.clusters@[i]).constraint == id,
    {
        let ghost cs = slots(self.constraints);
        let ghost ps = self.param_seq();
        // the clusters
        let keys = slot_map_keys(&self.constraints);
        let mut clusters: Vec<GraphCluster> = Vec::new();
        let mut i: usize = 0;
        while i < keys.len()
            invariant
                self.wf(),
                cs == slots(self.constraints),
                ids_of(keys@).no_duplicates(),
                forall|a: int, b: int| 0 <= a < b < keys@.len() ==> slot_of(key_id(#[trigger] keys@[a])) < slot_of(key_id(#[trigger] keys@[b])),
                forall|k: int| 0 <= k < keys@.len() ==> cs.contains_key(key_id(#[trigger] keys@[k])),
                i <= keys@.len(),
                clusters@.len() == i,
                forall|k: int| 0 <= k < i ==> {
                    &&& (#[trigger] clusters@[k]).constraint == key_id(keys@[k])
                    &&& shows_constraint(clusters@[k], key_id(keys@[k]), cs[key_id(keys@[k])])
                },
            decreases keys@.len() - i,
        {
            let key = keys[i];
            let id = key_as_id(key);
            let c = slot_map_get(&self.constraints, key);
            let mut tasks: Vec<TaskDyn> = Vec::new();
            let mut m: usize = 0;
            while m < c.methods.len()
                invariant
                    m <= c.methods@.len(),
                    tasks@.len() == m,
                    forall|k: int| 0 <= k < m ==> tasks@[k] == (#[trigger] c.methods@[k]).task,
                decreases c.methods@.len() - m,
            {
                tasks.push(c.methods[m].task);
                m = m + 1;
            }
            let name = match &c.name {
                Some(n) => Some(n.clone()),
                None => None,
            };
            clusters.push(GraphCluster { constraint: id, name, methods: tasks, point: c.methods.len() / 2 });
            proof {
                assert(keys@[i as int] == key);
                assert(shows_constraint(clusters@[i as int], id, cs[id]));
            }
            i = i + 1;
        }
        proof {
            assert(clusters@.map_values(|cl: GraphCluster| cl.constraint) =~= ids_of(keys@));
            assert forall|id: u64| #[trigger] cs.contains_key(id) implies exists|k: int| 0 <= k < clusters@.len() && (#[trigger] clusters@[k]).constraint == id by {
                let k = choose|k: int| 0 <= k < keys@.len() && key_id(#[trigger] keys@[k]) == id;
                assert(clusters@[k].constraint == id);
            }
        }
        // the parameters and their edges
        let mut vars: Vec<GraphVar> = Vec::new();
        let mut edges: Vec<GraphEdge> = Vec::new();
        let mut i: usize = 0;
        proof {
            assert(ps.take(0) =~= Seq::<TaskParameterDyn>::empty());
            assert(graph_edges(*self, ps.take(0)) =~= Seq::<GraphEdge>::empty());
        }
        while i < self.vars.len()
            invariant
                self.wf(),
                cs == slots(self.constraints),
                ps == self.param_seq(),
                i <= self.vars@.len(),
                vars@.len() == i,
                forall|k: int| 0 <= k < i ==> {
                    &&& (#[trigger] vars@[k]).param == ps[k]
                    &&& vars@[k].strength == self.strength(ps[k])
                },
                edges@ == graph_edges(*self, ps.take(i as int)),
            decreases self.vars@.len() - i,
        {
            let p = self.vars[i].value;
            let ghost ids = ids_of(self.vars@[i as int].constraints@);
            proof {
                assert(ps[i as int] == p);
                assert(has_var(self.vars@, p));
                let w = var_index(self.vars@, p);
                if w != i {
                    assert(self.vars@[w].value != self.vars@[i as int].value);
                }
                assert(self.constraints_on(p) == ids);
                assert(self.strength(p) == self.vars@[i as int].strength);
            }
            vars.push(GraphVar { param: p, strength: self.vars[i].strength });
            let ghost start = edges@;
            let mut k: usize = 0;
            while k < self.vars[i].constraints.len()
                invariant
                    self.wf(),
                    cs == slots(self.constraints),
                    i < self.vars@.len(),
                    p == self.vars@[i as int].value,
                    ids == ids_of(self.vars@[i as int].constraints@),
                    k <= ids.len(),
                    edges@ == start + ids.take(k as int).map_values(|id: u64| graph_edge(cs[id], id, p)),
                decreases ids.len() - k,
            {
                let key = self.vars[i].constraints[k];
                let id = key_as_id(key);
                proof {
                    assert(ids[k as int] == id);
                    assert(cs.contains_key(key_id(self.vars@[i as int].constraints@[k as int])));
                    assert(cs[id].wf());
                }
                let c = slot_map_get(&self.constraints, key);
                let e = match c.selected_method {
                    Some(m) => {
                        let writes = contains_param(&c.methods[m].outputs, &p);
                        let bold = match c.last_input {
                            Some(l) => l == p,
                            None => false,
                        };
                        GraphEdge {
                            param: p,
                            constraint: id,
                            method: m,
                            kind: if writes {
                                EdgeKind::OutOfMethod
                            } else {
                                EdgeKind::IntoMethod
                            },
                            bold,
                        }
                    },
                    None => GraphEdge {
                        param: p,
                        constraint: id,
                        method: c.methods.len() / 2,
                        kind: EdgeKind::IntoCluster,
                        bold: false,
                    },
                };
                edges.push(e);
                proof {
                    assert(e == graph_edge(cs[id], id, p));
                    assert(ids.take(k + 1).map_values(|id: u64| graph_edge(cs[id], id, p)) =~= ids.take(k as int).map_values(
                        |id: u64| graph_edge(cs[id], id, p),
                    ).push(e));
                    assert(edges@ =~= start + ids.take(k + 1).map_values(|id: u64| graph_edge(cs[id], id, p)));
                }
                k = k + 1;
            }
            proof {
                assert(ids.take(ids.len() as int) =~= ids);
                assert(ps.take(i + 1).drop_last() =~= ps.take(i as int));
                assert(ps.take(i + 1).last() == p);
                assert(edges@ =~= graph_edges(*self, ps.take(i + 1)));
            }
            i = i + 1;
        }
        proof {
            assert(ps.take(ps.len() as int) =~= ps);
            assert forall|a: int, b: int| 0 <= a < ps.len() && 0 <= b < ps.len() && a != b implies ps[a] != ps[b] by {
                assert(self.vars@[a].value != self.vars@[b].value);
            }
            assert forall|p: TaskParameterDyn| #[trigger] self.params().contains(p) == ps.contains(p) by {
                if has_var(self.vars@, p) {
                    let w = choose|w: int| 0 <= w < self.vars@.len() && (#[trigger] self.vars@[w]).value == p;
                    assert(ps[w] == p);
                }
                if ps.contains(p) {
                    let w = choose|w: int| 0 <= w < ps.len() && ps[w] == p;
                    assert(self.vars@[w].value == p);
                }
            }
        }
        SystemGraph { clusters, vars, edges }
    }
}

/// Whether some method of `c` reads `p`.
fn has_reader(c: &Constraint, p: &TaskParameterDyn) -> (r: bool)
    ensures
        r == exists|m: int| 0 <= m < c.methods@.len() && #[trigger] c.methods@[m].inputs@.contains(*p),
{
    let mut m: usize = 0;
    while m < c.methods.len()
        invariant
            m <= c.methods@.len(),
            forall|m2: int| 0 <= m2 < m ==> !(#[trigger] c.methods@[m2]).inputs@.contains(*p),
        decreases c.methods@.len() - m,
    {
        if contains_param(&c.methods[m].inputs, p) {
            return true;
        }
        m = m + 1;
    }
    false
}

} // verus!
