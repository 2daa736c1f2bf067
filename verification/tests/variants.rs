use logic_sim::{Component, ComponentType, Input, Output, Scene};

fn not(input: bool) -> ComponentType {
    ComponentType::Not { input: Input { state: input }, output: None }
}

fn or(a: bool, b: bool) -> ComponentType {
    ComponentType::Or { inputs: [Input { state: a }, Input { state: b }], output: None }
}

fn delay(input: bool, held: bool) -> ComponentType {
    ComponentType::Delay { input: Input { state: input }, output: None, state_last_frame: held }
}

#[test]
fn variant_is_told_apart() {
    assert!(not(false).is_not() && !not(false).is_or() && !not(false).is_delay());
    assert!(!or(false, true).is_not() && or(false, true).is_or() && !or(false, true).is_delay());
    assert!(!delay(true, false).is_not() && !delay(true, false).is_or());
    assert!(delay(true, false).is_delay());
}

#[test]
fn fields_of_the_matching_variant_are_handed_out() {
    let gate = not(true);
    let (input, output) = gate.as_not().unwrap();
    assert!(input.state);
    assert!(output.is_none());
    assert!(gate.as_or().is_none());
    assert!(gate.as_delay().is_none());

    let gate = or(false, true);
    let (inputs, output) = gate.as_or().unwrap();
    assert!(!inputs[0].state && inputs[1].state);
    assert!(output.is_none());
    assert!(gate.as_not().is_none());

    let register = delay(true, false);
    let (input, output, held) = register.as_delay().unwrap();
    assert!(input.state);
    assert!(output.is_none());
    assert!(!*held);
    assert!(register.as_not().is_none());
}

#[test]
fn fields_can_be_written_through_the_accessors() {
    let mut scene: Scene<()> = Scene::new();
    let sink = scene.add_component(Component { typ: not(false), position: () });

    let mut gate = not(false);
    {
        let (input, output) = gate.as_not_mut().unwrap();
        input.state = true;
        *output = Some(Output { component: sink, index: 0 });
    }
    assert!(gate.as_not().unwrap().0.state);
    assert_eq!(gate.as_not().unwrap().1.map(|o| o.index), Some(0));
    assert!(gate.as_or_mut().is_none());
    assert!(gate.as_delay_mut().is_none());

    let mut gate = or(false, false);
    gate.as_or_mut().unwrap().0[1].state = true;
    assert!(!gate.as_or().unwrap().0[0].state);
    assert!(gate.as_or().unwrap().0[1].state);

    let mut register = delay(true, false);
    {
        let (input, _, held) = register.as_delay_mut().unwrap();
        input.state = false;
        *held = true;
    }
    let (input, _, held) = register.as_delay().unwrap();
    assert!(!input.state);
    assert!(*held);
}

#[test]
fn variant_is_taken_apart() {
    let (input, output) = not(true).into_not().ok().unwrap();
    assert!(input.state && output.is_none());
    assert!(not(true).into_or().is_err());
    assert!(not(true).into_delay().is_err());

    let (inputs, _) = or(true, false).into_or().ok().unwrap();
    assert!(inputs[0].state && !inputs[1].state);
    let back = or(true, false).into_not().err().unwrap();
    assert!(back.is_or());

    let (input, _, held) = delay(false, true).into_delay().ok().unwrap();
    assert!(!input.state && held);
    assert!(delay(false, true).into_or().err().unwrap().is_delay());
}

#[test]
fn clone_of_a_component_is_the_same_component() {
    let first = Component { typ: or(true, false), position: (3, 4) };
    let copy = first.clone();
    assert_eq!(copy.position, (3, 4));
    assert!(copy.get_inputs()[0].state && !copy.get_inputs()[1].state);
    assert_eq!(copy.get_name(), "Or");
    let register = delay(true, false).clone();
    assert!(register.as_delay().unwrap().0.state);
    assert!(!*register.as_delay().unwrap().2);
    assert!(not(true).clone().as_not().unwrap().0.state);
}

#[test]
fn clone_of_a_scene_runs_on_its_own() {
    let mut scene: Scene<u8> = Scene::new();
    let sink = scene.add_component(Component { typ: not(false), position: 1 });
    let gate = scene.add_component(Component {
        typ: ComponentType::Not {
            input: Input { state: false },
            output: Some(Output { component: sink, index: 0 }),
        },
        position: 2,
    });
    let mut copy = scene.clone();
    assert!(copy.update());
    assert!(copy.get_component(sink).get_inputs()[0].state);
    assert_eq!(copy.get_component(gate).position, 2);
    assert!(!copy.update());

    assert!(!scene.get_component(sink).get_inputs()[0].state);
    assert!(scene.update());
    assert!(scene.get_component(sink).get_inputs()[0].state);
}

#[test]
fn scene_hands_out_its_handles_in_a_for_loop() {
    let mut scene: Scene<()> = Scene::new();
    scene.add_component(Component { typ: not(false), position: () });
    scene.add_component(Component { typ: or(false, false), position: () });
    scene.add_component(Component { typ: delay(false, false), position: () });
    let mut names = Vec::new();
    for id in &scene {
        names.push(scene.get_component(id).get_name());
    }
    assert_eq!(names, vec!["Not", "Or", "Delay"]);
    let again: Vec<usize> = (&scene).into_iter().rev().map(|id| id.index()).collect();
    assert_eq!(again, vec![2, 1, 0]);
}
