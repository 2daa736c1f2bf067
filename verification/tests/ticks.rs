use logic_sim::{Component, ComponentID, ComponentType, Input, Output, Scene};

fn not(input: bool, output: Option<Output>) -> Component<()> {
    Component { typ: ComponentType::Not { input: Input { state: input }, output }, position: () }
}

fn or(a: bool, b: bool, output: Option<Output>) -> Component<()> {
    Component {
        typ: ComponentType::Or { inputs: [Input { state: a }, Input { state: b }], output },
        position: (),
    }
}

fn delay(input: bool, held: bool, output: Option<Output>) -> Component<()> {
    Component {
        typ: ComponentType::Delay {
            input: Input { state: input },
            output,
            state_last_frame: held,
        },
        position: (),
    }
}

fn to(component: ComponentID, index: usize) -> Option<Output> {
    Some(Output { component, index })
}

fn input(scene: &Scene<()>, id: ComponentID, slot: usize) -> bool {
    scene.get_component(id).get_inputs()[slot].state
}

fn held(scene: &Scene<()>, id: ComponentID) -> bool {
    match scene.get_component(id).typ {
        ComponentType::Delay { state_last_frame, .. } => state_last_frame,
        _ => panic!("not a delay"),
    }
}

#[test]
fn tick_on_empty_scene_does_nothing() {
    let mut scene: Scene<()> = Scene::new();
    assert!(!scene.update());
    assert!(!scene.update());
    assert_eq!(scene.ids().len(), 0);
}

#[test]
fn tick_on_settled_scene_changes_nothing() {
    let mut scene: Scene<()> = Scene::new();
    let sink = scene.add_component(or(false, true, None));
    let gate = scene.add_component(not(true, to(sink, 0)));
    assert!(scene.update());
    let inputs_before = (input(&scene, sink, 0), input(&scene, sink, 1), input(&scene, gate, 0));
    assert!(!scene.update());
    assert_eq!(
        (input(&scene, sink, 0), input(&scene, sink, 1), input(&scene, gate, 0)),
        inputs_before
    );
    assert!(!scene.update());
}

#[test]
fn not_with_false_input_drives_true() {
    let mut scene: Scene<()> = Scene::new();
    let sink = scene.add_component(or(false, false, None));
    let gate = scene.add_component(not(false, to(sink, 0)));
    assert!(scene.update());
    assert!(input(&scene, sink, 0));
    assert!(!input(&scene, sink, 1));
    assert!(!input(&scene, gate, 0));
}

#[test]
fn not_with_true_input_drives_false() {
    let mut scene: Scene<()> = Scene::new();
    let sink = scene.add_component(or(true, false, None));
    scene.add_component(not(true, to(sink, 0)));
    assert!(scene.update());
    assert!(!input(&scene, sink, 0));
}

#[test]
fn or_of_false_inputs_drives_false() {
    let mut scene: Scene<()> = Scene::new();
    let sink = scene.add_component(not(true, None));
    scene.add_component(or(false, false, to(sink, 0)));
    assert!(scene.update());
    assert!(!input(&scene, sink, 0));
}

#[test]
fn or_with_a_true_input_drives_true() {
    for (a, b) in [(true, false), (false, true), (true, true)] {
        let mut scene: Scene<()> = Scene::new();
        let sink = scene.add_component(not(false, None));
        scene.add_component(or(a, b, to(sink, 0)));
        assert!(scene.update());
        assert!(input(&scene, sink, 0));
    }
}

#[test]
fn or_reaches_its_second_input_slot() {
    let mut scene: Scene<()> = Scene::new();
    let sink = scene.add_component(or(false, false, None));
    scene.add_component(not(false, to(sink, 1)));
    assert!(scene.update());
    assert!(!input(&scene, sink, 0));
    assert!(input(&scene, sink, 1));
}

#[test]
fn change_runs_down_a_chain_in_one_tick() {
    let mut scene: Scene<()> = Scene::new();
    let last = scene.add_component(not(false, None));
    let third = scene.add_component(not(false, to(last, 0)));
    let second = scene.add_component(not(false, to(third, 0)));
    let first = scene.add_component(not(false, to(second, 0)));
    assert!(scene.update());
    assert!(!input(&scene, first, 0));
    assert!(input(&scene, second, 0));
    assert!(!input(&scene, third, 0));
    assert!(input(&scene, last, 0));
    assert!(!scene.update());
}

#[test]
fn delay_shows_what_it_held_not_what_it_captures() {
    let mut scene: Scene<()> = Scene::new();
    let sink = scene.add_component(not(true, None));
    let register = scene.add_component(delay(true, false, to(sink, 0)));
    assert!(scene.update());
    assert!(!input(&scene, sink, 0));
    assert!(held(&scene, register));
    assert!(scene.update());
    assert!(input(&scene, sink, 0));
    assert!(held(&scene, register));
    assert!(!scene.update());
}

#[test]
fn delay_with_unchanged_input_is_not_pending_again() {
    let mut scene: Scene<()> = Scene::new();
    let sink = scene.add_component(not(false, None));
    let register = scene.add_component(delay(true, true, to(sink, 0)));
    assert!(scene.update());
    assert!(input(&scene, sink, 0));
    assert!(held(&scene, register));
    assert!(!scene.update());
}

#[test]
fn delay_feeding_or_takes_two_ticks() {
    let mut scene: Scene<()> = Scene::new();
    let gate = scene.add_component(or(false, false, None));
    let register = scene.add_component(delay(true, false, to(gate, 1)));

    assert!(scene.update());
    assert!(!input(&scene, gate, 0));
    assert!(!input(&scene, gate, 1));
    assert!(held(&scene, register));
    assert!(input(&scene, register, 0));

    assert!(scene.update());
    assert!(!input(&scene, gate, 0));
    assert!(input(&scene, gate, 1));
    assert!(held(&scene, register));

    assert!(!scene.update());
    assert!(input(&scene, gate, 1));
}

#[test]
fn delay_follows_an_input_that_is_switched_off() {
    let mut scene: Scene<()> = Scene::new();
    let gate = scene.add_component(or(false, false, None));
    let register = scene.add_component(delay(true, false, to(gate, 1)));
    assert!(scene.update());
    assert!(scene.update());
    assert!(!scene.update());

    scene.get_component_mut(register).get_inputs_mut()[0].state = false;
    assert!(scene.update());
    assert!(input(&scene, gate, 1));
    assert!(!held(&scene, register));
    assert!(scene.update());
    assert!(!input(&scene, gate, 1));
    assert!(!held(&scene, register));
    assert!(!scene.update());
}

#[test]
fn two_delays_in_a_row_lag_two_ticks() {
    let mut scene: Scene<()> = Scene::new();
    let sink = scene.add_component(not(false, None));
    let second = scene.add_component(delay(false, false, to(sink, 0)));
    let first = scene.add_component(delay(true, false, to(second, 0)));
    assert!(scene.update());
    assert!(!input(&scene, second, 0));
    assert!(!input(&scene, sink, 0));
    assert!(held(&scene, first));
    assert!(scene.update());
    assert!(input(&scene, second, 0));
    assert!(!input(&scene, sink, 0));
    assert!(held(&scene, second));
    assert!(scene.update());
    assert!(input(&scene, sink, 0));
    assert!(!scene.update());
}

#[test]
fn delay_that_feeds_itself_swaps_once() {
    let mut scene: Scene<()> = Scene::new();
    let register = scene.add_component(delay(true, false, None));
    scene.connect(register, 0, register, 0);
    assert!(scene.update());
    assert!(!input(&scene, register, 0));
    assert!(held(&scene, register));
    assert!(scene.update());
    assert!(!held(&scene, register));
    assert!(input(&scene, register, 0));
}

#[test]
fn inverter_behind_a_delay_oscillates() {
    let mut scene: Scene<()> = Scene::new();
    let register = scene.add_component(delay(false, false, None));
    let gate = scene.add_component(not(false, to(register, 0)));
    scene.connect(register, 0, gate, 0);
    assert!(!scene.has_cyclic_dependency());
    let mut seen = Vec::new();
    for _ in 0..8 {
        assert!(scene.update());
        seen.push(held(&scene, register));
    }
    assert_eq!(seen, vec![true, false, true, false, true, false, true, false]);
}

#[test]
fn network_without_delays_is_settled_after_one_tick() {
    let mut scene: Scene<()> = Scene::new();
    let sink = scene.add_component(or(false, false, None));
    let left = scene.add_component(not(false, to(sink, 0)));
    let right = scene.add_component(not(true, to(sink, 1)));
    let source = scene.add_component(or(true, false, to(right, 0)));
    assert!(scene.update());
    assert!(!scene.update());
    assert!(input(&scene, sink, 0));
    assert!(!input(&scene, sink, 1));
    assert!(input(&scene, right, 0));
    assert!(!input(&scene, left, 0));
    assert!(input(&scene, source, 0));
}

#[test]
fn ticks_stop_after_the_delays_have_passed_the_change_on() {
    let mut scene: Scene<()> = Scene::new();
    let sink = scene.add_component(not(false, None));
    let third = scene.add_component(delay(false, false, to(sink, 0)));
    let second = scene.add_component(delay(false, false, to(third, 0)));
    let first = scene.add_component(delay(true, false, to(second, 0)));
    let mut ticks = 0;
    while scene.update() {
        ticks += 1;
        assert!(ticks <= 2 * 4 + 1);
    }
    assert_eq!(ticks, 4);
    assert!(input(&scene, sink, 0));
    assert!(held(&scene, first) && held(&scene, second) && held(&scene, third));
}

#[test]
fn get_component_mut_marks_the_component_pending() {
    let mut scene: Scene<()> = Scene::new();
    let sink = scene.add_component(not(false, None));
    let gate = scene.add_component(not(false, to(sink, 0)));
    assert!(scene.update());
    assert!(!scene.update());
    scene.get_component_mut(gate);
    assert!(scene.update());
    assert!(input(&scene, sink, 0));
    scene.get_component_mut(gate).get_inputs_mut()[0].state = true;
    assert!(scene.update());
    assert!(!input(&scene, sink, 0));
    assert!(!scene.update());
}

#[test]
fn payload_is_carried_along_untouched() {
    let mut scene: Scene<(i32, i32)> = Scene::new();
    let sink = scene.add_component(Component {
        typ: ComponentType::Not { input: Input { state: false }, output: None },
        position: (100, -50),
    });
    let gate = scene.add_component(Component {
        typ: ComponentType::Not {
            input: Input { state: false },
            output: Some(Output { component: sink, index: 0 }),
        },
        position: (7, 9),
    });
    assert!(scene.update());
    assert_eq!(scene.get_component(sink).position, (100, -50));
    assert_eq!(scene.get_component(gate).position, (7, 9));
    scene.get_component_mut(gate).position = (8, 10);
    assert_eq!(scene.get_component(gate).position, (8, 10));
}
