use ntrancerator::greeting::greet;

#[test]
fn greet_world() {
    assert_eq!(greet("world"), "Hello, world!");
}

#[test]
fn greet_custom_name() {
    assert_eq!(greet("N-Trancerator"), "Hello, N-Trancerator!");
}
