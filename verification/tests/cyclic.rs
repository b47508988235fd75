use snippets::util::cyclic::Cyclic;

fn check_add(a: usize, b: usize, modulo: usize, expected: usize) {
    let a = Cyclic::new(a, modulo);
    let actual = a.add(b);

    assert_eq!(modulo, actual.modulo());
    assert_eq!(expected, actual.value());
}

fn check_sub(a: usize, b: usize, modulo: usize, expected: usize) {
    let a = Cyclic::new(a, modulo);
    let actual = a.sub(b);

    assert_eq!(modulo, actual.modulo());
    assert_eq!(expected, actual.value());
}

#[test]
fn adding() {
    check_add(0, 0, 10, 0);
    check_add(1, 0, 10, 1);
    check_add(1, 4, 10, 5);
    check_add(1, 9, 10, 0);
    check_add(1, 9, 11, 10);
    check_add(15, 9, 20, 4);
    check_add(15, 2, 10, 7);
    check_add(5, 32, 10, 7);
}

#[test]
fn subtracting() {
    check_sub(0, 0, 10, 0);
    check_sub(1, 0, 10, 1);
    check_sub(0, 1, 10, 9);
    check_sub(0, 11, 10, 9);
    check_sub(5, 11, 10, 4);
    check_sub(9, 2, 10, 7);
    check_sub(9, 2, 5, 2);
    check_sub(9, 10, 5, 4);
}

#[test]
fn new_reduces_the_value() {
    let c = Cyclic::new(27, 10);

    assert_eq!(c.value(), 7);
    assert_eq!(c.modulo(), 10);
}

#[test]
fn set_reduces_the_value() {
    let c = Cyclic::new(3, 4).set(9);

    assert_eq!(c.value(), 1);
}

#[test]
fn adding_then_subtracting_returns() {
    let c = Cyclic::new(3, 7);

    assert_eq!(c.add(12).sub(12).value(), 3);
    assert_eq!(c.sub(12).add(12).value(), 3);
}
