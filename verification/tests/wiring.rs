use logic_sim::{Component, ComponentID, ComponentType, Input, Output, Scene};

fn not(input: bool) -> Component<()> {
    Component {
        typ: ComponentType::Not { input: Input { state: input }, output: None },
        position: (),
    }
}

fn or(a: bool, b: bool) -> Component<()> {
    Component {
        typ: ComponentType::Or { inputs: [Input { state: a }, Input { state: b }], output: None },
        position: (),
    }
}

fn delay(input: bool, held: bool) -> Component<()> {
    Component {
        typ: ComponentType::Delay {
            input: Input { state: input },
            output: None,
            state_last_frame: held,
        },
        position: (),
    }
}

fn input(scene: &Scene<()>, id: ComponentID, slot: usize) -> bool {
    scene.get_component(id).get_inputs()[slot].state
}

fn output(scene: &Scene<()>, id: ComponentID) -> Option<(usize, usize)> {
    scene.get_component(id).get_outputs()[0].map(|o| (o.component.index(), o.index))
}

#[test]
fn handles_count_up_from_zero() {
    let mut scene: Scene<()> = Scene::new();
    let a = scene.add_component(not(false));
    let b = scene.add_component(or(false, false));
    let c = scene.add_component(delay(false, false));
    assert_eq!((a.index(), b.index(), c.index()), (0, 1, 2));
    let ids: Vec<usize> = scene.ids().iter().map(|id| id.index()).collect();
    assert_eq!(ids, vec![0, 1, 2]);
    assert!(a == a && a != b);
}

#[test]
fn default_scene_is_empty() {
    let mut scene: Scene<()> = Scene::default();
    assert!(scene.ids().is_empty());
    assert!(scene.is_wired());
    assert!(!scene.has_cyclic_dependency());
    assert!(!scene.update());
}

#[test]
fn new_component_is_pending() {
    let mut scene: Scene<()> = Scene::new();
    scene.add_component(not(false));
    assert!(scene.update());
    assert!(!scene.update());
    scene.add_component(or(false, false));
    assert!(scene.update());
    assert!(!scene.update());
}

#[test]
fn names_of_the_variants() {
    assert_eq!(not(false).get_name(), "Not");
    assert_eq!(or(false, false).get_name(), "Or");
    assert_eq!(delay(false, false).get_name(), "Delay");
}

#[test]
fn only_a_delay_stops_the_cycle_search() {
    assert!(!not(false).ignore_cyclic());
    assert!(!or(false, false).ignore_cyclic());
    assert!(delay(false, false).ignore_cyclic());
}

#[test]
fn slots_of_the_variants() {
    assert_eq!(not(true).get_inputs().len(), 1);
    assert_eq!(or(true, false).get_inputs().len(), 2);
    assert_eq!(delay(true, false).get_inputs().len(), 1);
    assert_eq!(not(true).get_outputs().len(), 1);
    assert_eq!(or(true, false).get_outputs().len(), 1);
    assert_eq!(delay(true, false).get_outputs().len(), 1);
    let gate = or(true, false);
    assert!(gate.get_inputs()[0].state);
    assert!(!gate.get_inputs()[1].state);
    assert!(gate.get_outputs()[0].is_none());
}

#[test]
fn slots_can_be_written() {
    let mut gate = or(false, false);
    gate.get_inputs_mut()[1].state = true;
    assert!(!gate.get_inputs()[0].state);
    assert!(gate.get_inputs()[1].state);
    let mut scene: Scene<()> = Scene::new();
    let sink = scene.add_component(not(false));
    let mut register = delay(true, true);
    register.get_outputs_mut()[0] = Some(Output { component: sink, index: 0 });
    register.get_inputs_mut()[0].state = false;
    assert_eq!(register.get_outputs()[0].map(|o| (o.component.index(), o.index)), Some((0, 0)));
    match register.typ {
        ComponentType::Delay { input, state_last_frame, .. } => {
            assert!(!input.state);
            assert!(state_last_frame);
        },
        _ => panic!("variant changed"),
    }
}

#[test]
fn connect_sets_the_wire_and_marks_the_source() {
    let mut scene: Scene<()> = Scene::new();
    let sink = scene.add_component(or(false, false));
    let gate = scene.add_component(not(false));
    assert!(scene.update());
    assert!(!scene.update());
    scene.connect(gate, 0, sink, 1);
    assert_eq!(output(&scene, gate), Some((sink.index(), 1)));
    assert!(scene.is_wired());
    assert!(!input(&scene, sink, 1));
    assert!(scene.update());
    assert!(input(&scene, sink, 1));
    assert!(!input(&scene, sink, 0));
}

#[test]
fn connect_elsewhere_resets_the_input_driven_before() {
    let mut scene: Scene<()> = Scene::new();
    let first = scene.add_component(or(false, false));
    let second = scene.add_component(or(false, false));
    let gate = scene.add_component(not(false));
    scene.connect(gate, 0, first, 0);
    assert!(scene.update());
    assert!(input(&scene, first, 0));
    scene.connect(gate, 0, second, 1);
    assert!(!input(&scene, first, 0));
    assert_eq!(output(&scene, gate), Some((second.index(), 1)));
    assert!(scene.update());
    assert!(!input(&scene, first, 0));
    assert!(input(&scene, second, 1));
}

#[test]
fn disconnect_resets_the_driven_input_and_marks_its_owner() {
    let mut scene: Scene<()> = Scene::new();
    let far = scene.add_component(or(false, false));
    let sink = scene.add_component(not(false));
    let gate = scene.add_component(not(false));
    scene.connect(sink, 0, far, 0);
    scene.connect(gate, 0, sink, 0);
    assert!(scene.update());
    assert!(input(&scene, sink, 0));
    assert!(!input(&scene, far, 0));
    assert!(!scene.update());

    scene.disconnect(gate, 0);
    assert_eq!(output(&scene, gate), None);
    assert!(!input(&scene, sink, 0));
    assert!(scene.update());
    assert!(input(&scene, far, 0));
    assert!(!input(&scene, sink, 0));
    assert!(!scene.update());
}

#[test]
fn disconnect_of_an_unconnected_output_marks_only_the_source() {
    let mut scene: Scene<()> = Scene::new();
    let gate = scene.add_component(not(true));
    assert!(scene.update());
    assert!(!scene.update());
    scene.disconnect(gate, 0);
    assert_eq!(output(&scene, gate), None);
    assert!(input(&scene, gate, 0));
    assert!(scene.update());
    assert!(!scene.update());
}

#[test]
fn wiring_check_finds_a_missing_target() {
    let mut scene: Scene<()> = Scene::new();
    let sink = scene.add_component(not(false));
    let gate = scene.add_component(not(false));
    assert!(scene.is_wired());
    let mut other: Scene<()> = Scene::new();
    other.add_component(not(false));
    other.add_component(not(false));
    let beyond = other.add_component(not(false));
    scene.get_component_mut(gate).get_outputs_mut()[0] =
        Some(Output { component: beyond, index: 0 });
    assert!(!scene.is_wired());
    scene.get_component_mut(gate).get_outputs_mut()[0] = Some(Output { component: sink, index: 0 });
    assert!(scene.is_wired());
}

#[test]
fn wiring_check_finds_a_missing_slot() {
    let mut scene: Scene<()> = Scene::new();
    let sink = scene.add_component(not(false));
    let wide = scene.add_component(or(false, false));
    let gate = scene.add_component(not(false));
    scene.get_component_mut(gate).get_outputs_mut()[0] = Some(Output { component: sink, index: 1 });
    assert!(!scene.is_wired());
    scene.get_component_mut(gate).get_outputs_mut()[0] = Some(Output { component: wide, index: 1 });
    assert!(scene.is_wired());
    scene.get_component_mut(gate).get_outputs_mut()[0] = Some(Output { component: wide, index: 2 });
    assert!(!scene.is_wired());
}
