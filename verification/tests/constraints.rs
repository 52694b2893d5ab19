use crustivity_core::constraints::{ConstraintBuilder, EdgeKind, Register, System, SystemGraph};
use crustivity_core::world::{
    RefKindVariant, TaskDyn, TaskParameterDyn, VariableDyn, VariableRegister,
};
use std::any::TypeId;

struct IncrementW;
struct IncrementH;
struct IncrementT;
struct PrintEffect;
struct Demo;

fn num(i: usize) -> TaskParameterDyn {
    TaskParameterDyn::Variable(VariableDyn::new(i, TypeId::of::<f64>()))
}

fn text(i: usize) -> TaskParameterDyn {
    TaskParameterDyn::Variable(VariableDyn::new(i, TypeId::of::<String>()))
}

fn task(i: usize) -> TaskDyn {
    TaskDyn::new(i, TypeId::of::<Demo>())
}

fn register(writes: &[TaskParameterDyn], reads: &[TaskParameterDyn]) -> Register {
    let mut r = Register::new();
    for w in writes {
        r.register_var(RefKindVariant::Mut, *w);
    }
    for p in reads {
        r.register_var(RefKindVariant::Ref, *p);
    }
    r
}

struct Params {
    w: TaskParameterDyn,
    h: TaskParameterDyn,
    t: TaskParameterDyn,
    ws: TaskParameterDyn,
    hs: TaskParameterDyn,
    ts: TaskParameterDyn,
    ew: TaskParameterDyn,
    eh: TaskParameterDyn,
    et: TaskParameterDyn,
    print: TaskParameterDyn,
}

fn params() -> Params {
    Params {
        w: num(0),
        h: num(1),
        t: num(2),
        ws: text(0),
        hs: text(1),
        ts: text(2),
        ew: TaskParameterDyn::Event(TypeId::of::<IncrementW>()),
        eh: TaskParameterDyn::Event(TypeId::of::<IncrementH>()),
        et: TaskParameterDyn::Event(TypeId::of::<IncrementT>()),
        print: TaskParameterDyn::Effect(TypeId::of::<PrintEffect>()),
    }
}

fn simple(id: usize, writes: &[TaskParameterDyn], reads: &[TaskParameterDyn], name: &str) -> ConstraintBuilder {
    ConstraintBuilder::new(task(id), register(writes, reads)).name(name.to_string())
}

/// The system of width, height and total with their text forms, the events
/// that increment them and the effect that prints them.
fn demo_system() -> System {
    let p = params();
    let mut system = System::default();
    let area = ConstraintBuilder::new(task(0), register(&[p.w], &[p.t, p.h]))
        .add_method(task(1), register(&[p.h], &[p.t, p.w]))
        .add_method(task(2), register(&[p.t], &[p.w, p.h]))
        .name("total = width · height".to_string());
    system.add_constraint(area);
    system.add_constraint(simple(3, &[p.ws], &[p.w], "width_to_str"));
    system.add_constraint(simple(4, &[p.hs], &[p.h], "height_to_str"));
    system.add_constraint(simple(5, &[p.ts], &[p.t], "total_to_str"));
    system.add_constraint(simple(6, &[p.w], &[p.ew], "inc_event_w"));
    system.add_constraint(simple(7, &[p.h], &[p.eh], "inc_event_h"));
    system.add_constraint(simple(8, &[p.t], &[p.et], "inc_event_t"));
    system.add_constraint(simple(9, &[p.print], &[p.ws, p.hs, p.ts], "print"));
    system
}

fn strength_of(g: &SystemGraph, p: TaskParameterDyn) -> i32 {
    g.vars.iter().find(|v| v.param == p).map(|v| v.strength).expect("a parameter of the system")
}

fn cluster_id(g: &SystemGraph, name: &str) -> u64 {
    g.clusters
        .iter()
        .find(|c| c.name.as_deref() == Some(name))
        .map(|c| c.constraint)
        .expect("a constraint of that name")
}

fn edge_of(g: &SystemGraph, p: TaskParameterDyn, constraint: u64) -> (usize, EdgeKind, bool) {
    let e = g
        .edges
        .iter()
        .find(|e| e.param == p && e.constraint == constraint)
        .expect("an edge between them");
    (e.method, e.kind, e.bold)
}

#[test]
fn register_collects_reads_and_writes() {
    let p = params();
    let r = register(&[p.w], &[p.t, p.h, p.t]);
    assert!(r.is_disjoint());
    let overlapping = register(&[p.w], &[p.w]);
    assert!(!overlapping.is_disjoint());
}

#[test]
fn builder_checks_the_parameters_of_a_method() {
    let p = params();
    let b = ConstraintBuilder::new(task(0), register(&[p.w], &[p.t, p.h]));
    assert!(b.has_variables(&register(&[p.h], &[p.t, p.w])));
    assert!(!b.has_variables(&register(&[p.h], &[p.t])));
    assert!(!b.has_variables(&register(&[p.h], &[p.t, p.w, p.ws])));
}

#[test]
fn added_constraints_appear_in_the_graph() {
    let system = demo_system();
    let g = system.graph();
    assert_eq!(g.clusters.len(), 8);
    let mut ids: Vec<u64> = g.clusters.iter().map(|c| c.constraint).collect();
    ids.sort();
    ids.dedup();
    assert_eq!(ids.len(), 8);
    let area = g.clusters.iter().find(|c| c.name.as_deref() == Some("total = width · height")).unwrap();
    assert_eq!(area.methods, vec![task(0), task(1), task(2)]);
    assert_eq!(area.point, 1);
    let p = params();
    let order: Vec<TaskParameterDyn> = g.vars.iter().map(|v| v.param).collect();
    assert_eq!(order, vec![p.t, p.h, p.w, p.ws, p.hs, p.ts, p.ew, p.eh, p.et, p.print]);
}

#[test]
fn several_methods_raise_the_strength_of_their_parameters() {
    let system = demo_system();
    let g = system.graph();
    let p = params();
    assert_eq!(strength_of(&g, p.w), 1);
    assert_eq!(strength_of(&g, p.h), 1);
    assert_eq!(strength_of(&g, p.t), 1);
    assert_eq!(strength_of(&g, p.ws), 0);
    assert_eq!(strength_of(&g, p.ew), 0);
    assert_eq!(strength_of(&g, p.print), 0);
}

#[test]
fn unplanned_constraint_points_at_its_cluster() {
    let system = demo_system();
    let g = system.graph();
    let p = params();
    let area = cluster_id(&g, "total = width · height");
    assert_eq!(edge_of(&g, p.w, area), (1, EdgeKind::IntoCluster, false));
    let to_str = cluster_id(&g, "width_to_str");
    assert_eq!(edge_of(&g, p.w, to_str), (0, EdgeKind::IntoMethod, false));
    assert_eq!(edge_of(&g, p.ws, to_str), (0, EdgeKind::OutOfMethod, false));
    assert_eq!(g.edges.len(), 3 + 2 + 2 + 2 + 2 + 2 + 2 + 4);
}

#[test]
fn planning_from_width_event_selects_total_method() {
    let mut system = demo_system();
    let p = params();
    system.plan_with_event(p.ew);
    let g = system.graph();
    let area = cluster_id(&g, "total = width · height");
    assert_eq!(edge_of(&g, p.t, area), (2, EdgeKind::OutOfMethod, false));
    assert_eq!(edge_of(&g, p.w, area), (2, EdgeKind::IntoMethod, true));
    assert_eq!(edge_of(&g, p.h, area), (2, EdgeKind::IntoMethod, false));
    assert_eq!(strength_of(&g, p.w), 1);
    assert_eq!(strength_of(&g, p.h), 0);
    assert_eq!(strength_of(&g, p.t), 2);
}

#[test]
fn planning_from_height_event_after_width_event() {
    let mut system = demo_system();
    let p = params();
    system.plan_with_event(p.ew);
    system.plan_with_event(p.eh);
    let g = system.graph();
    let area = cluster_id(&g, "total = width · height");
    assert_eq!(edge_of(&g, p.w, area), (0, EdgeKind::OutOfMethod, false));
    assert_eq!(edge_of(&g, p.h, area), (0, EdgeKind::IntoMethod, true));
    assert_eq!(edge_of(&g, p.t, area), (0, EdgeKind::IntoMethod, false));
    assert_eq!(strength_of(&g, p.w), 2);
    assert_eq!(strength_of(&g, p.h), 1);
    assert_eq!(strength_of(&g, p.t), 0);
}

#[test]
fn planning_from_total_event_selects_a_method_reading_total() {
    let mut system = demo_system();
    let p = params();
    system.plan_with_event(p.et);
    let g = system.graph();
    let area = cluster_id(&g, "total = width · height");
    // width and height score alike; the later method wins the tie
    assert_eq!(edge_of(&g, p.t, area), (1, EdgeKind::IntoMethod, true));
    assert_eq!(edge_of(&g, p.h, area), (1, EdgeKind::OutOfMethod, false));
    assert_eq!(strength_of(&g, p.t), 1);
    assert_eq!(strength_of(&g, p.h), 2);
    assert_eq!(strength_of(&g, p.w), 0);
}

#[test]
fn planning_twice_from_width_event_moves_to_height_method() {
    let mut system = demo_system();
    let p = params();
    system.plan_with_event(p.ew);
    system.plan_with_event(p.ew);
    let g = system.graph();
    let area = cluster_id(&g, "total = width · height");
    // total now weighs more than height, so the method that writes height wins
    assert_eq!(edge_of(&g, p.w, area), (1, EdgeKind::IntoMethod, true));
    assert_eq!(edge_of(&g, p.h, area), (1, EdgeKind::OutOfMethod, false));
    assert_eq!(edge_of(&g, p.t, area), (1, EdgeKind::IntoMethod, false));
    assert_eq!(strength_of(&g, p.w), 1);
    assert_eq!(strength_of(&g, p.h), 2);
    assert_eq!(strength_of(&g, p.t), 0);
}

#[test]
fn planning_from_print_effect_leaves_the_area_alone() {
    let mut system = demo_system();
    let p = params();
    system.plan_with_event(p.print);
    let g = system.graph();
    let area = cluster_id(&g, "total = width · height");
    assert_eq!(edge_of(&g, p.w, area), (1, EdgeKind::IntoCluster, false));
    assert_eq!(strength_of(&g, p.w), 1);
}

#[test]
fn demo_system_plans_from_its_events() {
    let p = params();
    for event in [p.ew, p.eh, p.et, p.w, p.print] {
        let mut system = demo_system();
        assert!(system.try_plan_with_event(event));
    }
}

#[test]
fn unknown_parameter_is_not_planned_from() {
    let mut system = demo_system();
    assert!(!system.try_plan_with_event(TaskParameterDyn::Resource(TypeId::of::<u8>())));
    let g = system.graph();
    let area = cluster_id(&g, "total = width · height");
    assert_eq!(edge_of(&g, params().w, area), (1, EdgeKind::IntoCluster, false));
    let mut empty = System::new();
    assert!(!empty.try_plan_with_event(params().ew));
}

#[test]
fn constraint_without_reader_of_reached_parameter_stops_planning() {
    let a = num(10);
    let b = num(11);
    let e = TaskParameterDyn::Event(TypeId::of::<IncrementW>());
    let mut system = System::new();
    let both_write_b = ConstraintBuilder::new(task(0), register(&[b], &[a])).add_method(task(1), register(&[b], &[a]));
    system.add_constraint(both_write_b);
    system.add_constraint(ConstraintBuilder::new(task(2), register(&[b], &[e])));
    assert!(!system.try_plan_with_event(e));
}

#[test]
fn planning_goes_only_where_the_selected_methods_write() {
    // the event writes x; of the two methods of "m" that read x, the one that
    // writes u scores higher, so y, on which "n" has no reader, is never reached
    let x = num(20);
    let y = num(21);
    let u = num(22);
    let w = num(23);
    let e = TaskParameterDyn::Event(TypeId::of::<IncrementH>());
    let mut system = System::new();
    system.add_constraint(simple(0, &[x], &[e], "s"));
    let m = ConstraintBuilder::new(task(1), register(&[y], &[x, u]))
        .add_method(task(2), register(&[u], &[x, y]))
        .name("m".to_string());
    system.add_constraint(m);
    let n = ConstraintBuilder::new(task(3), register(&[y], &[w]))
        .add_method(task(4), register(&[y], &[w]))
        .name("n".to_string());
    system.add_constraint(n);
    let before = system.graph();
    assert_eq!(strength_of(&before, x), 1);
    assert_eq!(strength_of(&before, y), 2);
    assert_eq!(strength_of(&before, u), 1);
    assert!(system.try_plan_with_event(e));
    let g = system.graph();
    let mc = cluster_id(&g, "m");
    assert_eq!(edge_of(&g, x, mc), (1, EdgeKind::IntoMethod, true));
    assert_eq!(edge_of(&g, y, mc), (1, EdgeKind::IntoMethod, false));
    assert_eq!(edge_of(&g, u, mc), (1, EdgeKind::OutOfMethod, false));
    let nc = cluster_id(&g, "n");
    assert_eq!(edge_of(&g, w, nc).1, EdgeKind::IntoCluster);
    assert_eq!(strength_of(&g, x), 1);
    assert_eq!(strength_of(&g, y), 1);
    assert_eq!(strength_of(&g, u), 2);
    assert_eq!(strength_of(&g, w), 1);
}

#[test]
fn system_counts_its_constraints() {
    assert_eq!(System::new().len(), 0);
    assert_eq!(demo_system().len(), 8);
}

#[test]
fn register_fits_in_a_constraint() {
    let p = params();
    assert!(register(&[p.w], &[p.t, p.h]).fits_in_constraint());
    assert!(Register::new().fits_in_constraint());
}

#[test]
fn strengths_are_what_the_constraints_contribute() {
    // after planning from the total event, the area constraint selects the
    // method that writes height for the input total
    let mut system = demo_system();
    let p = params();
    system.plan_with_event(p.et);
    let g = system.graph();
    // width: read, not the input: 1 + 0 - 1; height: written: 1 + 1;
    // total: read, the input: 1 + 0 - 0; single-method constraints add nothing
    assert_eq!(strength_of(&g, p.w), 0);
    assert_eq!(strength_of(&g, p.h), 2);
    assert_eq!(strength_of(&g, p.t), 1);
    for v in &g.vars {
        if v.param != p.w && v.param != p.h && v.param != p.t {
            assert_eq!(v.strength, 0);
        }
    }
}

#[test]
fn graph_lists_constraints_in_slot_order() {
    let g = demo_system().graph();
    let names: Vec<Option<String>> = g.clusters.iter().map(|c| c.name.clone()).collect();
    let expected: Vec<Option<String>> = [
        "total = width · height",
        "width_to_str",
        "height_to_str",
        "total_to_str",
        "inc_event_w",
        "inc_event_h",
        "inc_event_t",
        "print",
    ]
    .iter()
    .map(|n| Some(n.to_string()))
    .collect();
    assert_eq!(names, expected);
}
