use lattice_octree::action::Action;

fn double(x: u32) -> u32 {
    x * 2
}

#[test]
fn new_keeps_the_function() {
    let action = Action::new(double as fn(u32) -> u32);
    assert_eq!((action.0)(4), 8);
}

#[test]
fn run_calls_the_function() {
    let action = Action::new(double as fn(u32) -> u32);
    assert_eq!(action.run(21), 42);
}

fn bump(n: &mut u32) {
    *n += 1;
}

#[test]
fn run_hands_a_mutable_argument_on() {
    let action = Action::new(bump as fn(&mut u32));
    let mut n = 1;
    action.run(&mut n);
    assert_eq!(n, 2);
}

fn seven() -> u32 {
    7
}

fn sum(a: u32, b: u32) -> u32 {
    a + b
}

fn mix(a: u32, b: u32, c: u32) -> u32 {
    a * b + c
}

#[test]
fn run0_calls_a_function_without_arguments() {
    let action = Action::new(seven as fn() -> u32);
    assert_eq!(action.run0(), 7);
}

#[test]
fn run2_and_run3_hand_every_argument_on() {
    assert_eq!(Action::new(sum as fn(u32, u32) -> u32).run2(3, 4), 7);
    assert_eq!(Action::new(mix as fn(u32, u32, u32) -> u32).run3(3, 4, 5), 17);
}
