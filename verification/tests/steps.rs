use std::collections::HashSet;

use logic_sim::{Component, ComponentID, ComponentType, Input, Output, Scene};

fn not(input: bool, output: Option<Output>) -> Component<()> {
    Component { typ: ComponentType::Not { input: Input { state: input }, output }, position: () }
}

fn or(a: bool, b: bool, output: Option<Output>) -> Component<()> {
    Component {
        typ: ComponentType::Or { inputs: [Input { state: a }, Input { state: b }], output },
        position: (),
    }
}

fn delay(input: bool, held: bool, output: Option<Output>) -> Component<()> {
    Component {
        typ: ComponentType::Delay {
            input: Input { state: input },
            output,
            state_last_frame: held,
        },
        position: (),
    }
}

fn to(component: ComponentID, index: usize) -> Option<Output> {
    Some(Output { component, index })
}

fn input(scene: &Scene<()>, id: ComponentID, slot: usize) -> bool {
    scene.get_component(id).get_inputs()[slot].state
}

fn held(scene: &Scene<()>, id: ComponentID) -> bool {
    *scene.get_component(id).typ.as_delay().unwrap().2
}

/// One tick in which the components are recomputed in the given order.
fn tick_in_order(scene: &mut Scene<()>, order: &[ComponentID]) {
    let mut latched = HashSet::new();
    for id in order {
        scene.recompute(*id, &mut latched);
    }
    scene.requeue(&latched);
}

#[test]
fn recomputed_not_writes_only_a_differing_input() {
    let mut scene: Scene<()> = Scene::new();
    let sink = scene.add_component(or(true, false, None));
    let gate = scene.add_component(not(false, to(sink, 0)));
    assert!(scene.update());
    assert!(!scene.update());
    let mut latched = HashSet::new();
    scene.recompute(gate, &mut latched);
    assert!(latched.is_empty());
    assert!(input(&scene, sink, 0));
    assert!(!scene.update());
}

#[test]
fn recomputed_not_makes_the_driven_component_pending() {
    let mut scene: Scene<()> = Scene::new();
    let sink = scene.add_component(or(false, false, None));
    let gate = scene.add_component(not(false, to(sink, 0)));
    let mut latched = HashSet::new();
    scene.recompute(sink, &mut latched);
    scene.recompute(gate, &mut latched);
    assert!(input(&scene, sink, 0));
    assert!(latched.is_empty());
    assert!(scene.update());
    assert!(!scene.update());
}

#[test]
fn recomputed_delay_captures_and_joins_the_latched() {
    let mut scene: Scene<()> = Scene::new();
    let sink = scene.add_component(not(true, None));
    let register = scene.add_component(delay(true, false, to(sink, 0)));
    let mut latched = HashSet::new();
    scene.recompute(register, &mut latched);
    assert!(held(&scene, register));
    assert!(!input(&scene, sink, 0));
    assert_eq!(latched.iter().copied().collect::<Vec<usize>>(), vec![register.index()]);

    scene.get_component_mut(register).get_inputs_mut()[0].state = false;
    scene.recompute(register, &mut latched);
    assert!(held(&scene, register));
    assert!(!input(&scene, sink, 0));
    assert_eq!(latched.len(), 1);
}

#[test]
fn recomputed_delay_with_settled_input_stays_out_of_the_latched() {
    let mut scene: Scene<()> = Scene::new();
    let sink = scene.add_component(not(false, None));
    let register = scene.add_component(delay(true, true, to(sink, 0)));
    let mut latched = HashSet::new();
    scene.recompute(register, &mut latched);
    assert!(latched.is_empty());
    assert!(held(&scene, register));
    assert!(input(&scene, sink, 0));
}

#[test]
fn requeue_marks_the_latched_delays_pending() {
    let mut scene: Scene<()> = Scene::new();
    let register = scene.add_component(delay(false, false, None));
    assert!(scene.update());
    assert!(!scene.update());
    let mut latched = HashSet::new();
    scene.requeue(&latched);
    assert!(!scene.update());
    latched.insert(register.index());
    scene.requeue(&latched);
    assert!(scene.update());
    assert!(!scene.update());
}

#[test]
fn steps_in_either_order_agree_with_a_tick() {
    for flip in [false, true] {
        let mut by_tick: Scene<()> = Scene::new();
        let gate = by_tick.add_component(or(false, false, None));
        let register = by_tick.add_component(delay(true, false, to(gate, 1)));
        let mut by_steps = by_tick.clone();

        assert!(by_tick.update());
        let order = if flip { [register, gate] } else { [gate, register] };
        tick_in_order(&mut by_steps, &order);
        for scene in [&by_tick, &by_steps] {
            assert!(!input(scene, gate, 1));
            assert!(held(scene, register));
        }

        assert!(by_tick.update());
        tick_in_order(&mut by_steps, &[register, gate]);
        for scene in [&by_tick, &by_steps] {
            assert!(input(scene, gate, 1));
            assert!(!input(scene, gate, 0));
            assert!(held(scene, register));
        }
        assert!(!by_tick.update());
        assert!(!by_steps.update());
    }
}

#[test]
fn chain_of_gates_settles_alike_in_any_order() {
    let orders: [[usize; 3]; 6] =
        [[0, 1, 2], [0, 2, 1], [1, 0, 2], [1, 2, 0], [2, 0, 1], [2, 1, 0]];
    for order in orders {
        let mut scene: Scene<()> = Scene::new();
        let last = scene.add_component(or(false, false, None));
        let middle = scene.add_component(not(false, to(last, 1)));
        let first = scene.add_component(not(false, to(middle, 0)));
        let ids = [last, middle, first];
        let mut latched = HashSet::new();
        for position in order {
            scene.recompute(ids[position], &mut latched);
        }
        scene.requeue(&latched);
        while scene.update() {}
        assert!(!input(&scene, first, 0));
        assert!(input(&scene, middle, 0));
        assert!(!input(&scene, last, 1));
        assert!(!input(&scene, last, 0));
    }
}

#[test]
fn delay_with_a_stale_input_depends_on_who_goes_first() {
    let build = || {
        let mut scene: Scene<()> = Scene::new();
        let register = scene.add_component(delay(true, false, None));
        let gate = scene.add_component(not(true, to(register, 0)));
        (scene, register, gate)
    };

    let (mut scene, register, gate) = build();
    let mut latched = HashSet::new();
    scene.recompute(register, &mut latched);
    scene.recompute(gate, &mut latched);
    scene.recompute(register, &mut latched);
    scene.requeue(&latched);
    assert!(held(&scene, register));
    assert!(!input(&scene, register, 0));
    assert!(scene.update());

    let (mut scene, register, gate) = build();
    let mut latched = HashSet::new();
    scene.recompute(gate, &mut latched);
    scene.recompute(register, &mut latched);
    scene.requeue(&latched);
    assert!(!held(&scene, register));
    assert!(!input(&scene, register, 0));
    assert!(!scene.update());
}

#[test]
fn two_drivers_of_one_input_leave_what_the_last_one_wrote() {
    for flip in [false, true] {
        let mut scene: Scene<()> = Scene::new();
        let sink = scene.add_component(or(false, false, None));
        let high = scene.add_component(not(false, to(sink, 0)));
        let low = scene.add_component(not(true, to(sink, 0)));
        let order = if flip { [sink, low, high] } else { [sink, high, low] };
        tick_in_order(&mut scene, &order);
        assert_eq!(input(&scene, sink, 0), flip);
        assert!(scene.is_wired());
        assert!(!scene.has_cyclic_dependency());
    }
}
