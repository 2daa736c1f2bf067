use logic_sim::{Component, ComponentType, Input, Scene};

fn not() -> Component<()> {
    Component {
        typ: ComponentType::Not { input: Input { state: false }, output: None },
        position: (),
    }
}

fn or() -> Component<()> {
    Component {
        typ: ComponentType::Or {
            inputs: [Input { state: false }, Input { state: false }],
            output: None,
        },
        position: (),
    }
}

fn delay() -> Component<()> {
    Component {
        typ: ComponentType::Delay {
            input: Input { state: false },
            output: None,
            state_last_frame: false,
        },
        position: (),
    }
}

#[test]
fn unconnected_components_have_no_cycle() {
    let mut scene: Scene<()> = Scene::new();
    assert!(!scene.has_cyclic_dependency());
    scene.add_component(not());
    scene.add_component(or());
    scene.add_component(delay());
    assert!(!scene.has_cyclic_dependency());
}

#[test]
fn inverter_that_feeds_itself_is_a_cycle() {
    let mut scene: Scene<()> = Scene::new();
    let gate = scene.add_component(not());
    scene.connect(gate, 0, gate, 0);
    assert!(scene.has_cyclic_dependency());
}

#[test]
fn delay_that_feeds_itself_is_no_cycle() {
    let mut scene: Scene<()> = Scene::new();
    let register = scene.add_component(delay());
    scene.connect(register, 0, register, 0);
    assert!(!scene.has_cyclic_dependency());
}

#[test]
fn loop_of_gates_is_a_cycle() {
    let mut scene: Scene<()> = Scene::new();
    let a = scene.add_component(not());
    let b = scene.add_component(or());
    let c = scene.add_component(not());
    scene.connect(a, 0, b, 1);
    scene.connect(b, 0, c, 0);
    assert!(!scene.has_cyclic_dependency());
    scene.connect(c, 0, a, 0);
    assert!(scene.has_cyclic_dependency());
}

#[test]
fn same_loop_through_a_delay_is_no_cycle() {
    let mut scene: Scene<()> = Scene::new();
    let a = scene.add_component(not());
    let b = scene.add_component(or());
    let c = scene.add_component(delay());
    scene.connect(a, 0, b, 1);
    scene.connect(b, 0, c, 0);
    scene.connect(c, 0, a, 0);
    assert!(!scene.has_cyclic_dependency());
}

#[test]
fn cycle_is_found_from_a_tail_that_leads_into_it() {
    let mut scene: Scene<()> = Scene::new();
    let tail = scene.add_component(not());
    let entry = scene.add_component(or());
    let back = scene.add_component(not());
    scene.connect(tail, 0, entry, 0);
    scene.connect(entry, 0, back, 0);
    scene.connect(back, 0, entry, 1);
    assert!(scene.has_cyclic_dependency());
}

#[test]
fn cycle_is_found_wherever_it_lies_in_the_scene() {
    for place in 0..6 {
        let mut scene: Scene<()> = Scene::new();
        let mut ids = Vec::new();
        for i in 0..6 {
            ids.push(scene.add_component(if i % 2 == 0 { not() } else { or() }));
        }
        assert!(!scene.has_cyclic_dependency());
        let next = (place + 1) % 6;
        scene.connect(ids[place], 0, ids[next], 0);
        assert!(!scene.has_cyclic_dependency());
        scene.connect(ids[next], 0, ids[place], 0);
        assert!(scene.has_cyclic_dependency());
        scene.disconnect(ids[next], 0);
        assert!(!scene.has_cyclic_dependency());
    }
}

#[test]
fn two_paths_that_meet_are_no_cycle() {
    let mut scene: Scene<()> = Scene::new();
    let sink = scene.add_component(or());
    let left = scene.add_component(not());
    let right = scene.add_component(not());
    let tail = scene.add_component(not());
    scene.connect(sink, 0, tail, 0);
    scene.connect(left, 0, sink, 0);
    scene.connect(right, 0, sink, 1);
    assert!(!scene.has_cyclic_dependency());
}

#[test]
fn long_chain_is_no_cycle_until_it_is_closed() {
    let mut scene: Scene<()> = Scene::new();
    let mut ids = Vec::new();
    for _ in 0..50 {
        ids.push(scene.add_component(not()));
    }
    for i in 0..49 {
        scene.connect(ids[i], 0, ids[i + 1], 0);
    }
    assert!(!scene.has_cyclic_dependency());
    scene.connect(ids[49], 0, ids[17], 0);
    assert!(scene.has_cyclic_dependency());
    scene.disconnect(ids[30], 0);
    assert!(!scene.has_cyclic_dependency());
}

#[test]
fn delay_in_the_middle_of_two_loops() {
    let mut scene: Scene<()> = Scene::new();
    let a = scene.add_component(not());
    let register = scene.add_component(delay());
    let b = scene.add_component(not());
    scene.connect(a, 0, register, 0);
    scene.connect(register, 0, b, 0);
    scene.connect(b, 0, a, 0);
    assert!(!scene.has_cyclic_dependency());
    assert!(scene.update());
}
