use recorrelaberintos::node::step_cost;
use recorrelaberintos::pos::{key_of, Pos};
use recorrelaberintos::queue::MinQueue;

#[test]
fn pos_from_pair() {
    let q = Pos::from((3, 7));
    assert!(q.x == 3);
    assert!(q.y == 7);
}

#[test]
fn pos_describes_itself_as_a_pair() {
    assert!(Pos::from((3, 7)).describe() == "(3, 7)");
    assert!(Pos::from((0, u32::MAX)).describe() == "(0, 4294967295)");
    assert!(Pos::from((10, 205)).describe() == "(10, 205)");
}

#[test]
fn key_puts_column_high_and_row_low() {
    assert!(key_of(Pos::from((0, 0))) == 0);
    assert!(key_of(Pos::from((1, 2))) == (1u64 << 32) + 2);
    assert!(key_of(Pos::from((u32::MAX, u32::MAX))) == u64::MAX);
    assert!(key_of(Pos::from((1, 0))) != key_of(Pos::from((0, 1))));
}

#[test]
fn step_cost_is_the_corridor_length() {
    assert!(step_cost(Pos::from((1, 4)), Pos::from((1, 9))) == 5);
    assert!(step_cost(Pos::from((7, 2)), Pos::from((3, 2))) == 4);
    assert!(step_cost(Pos::from((5, 5)), Pos::from((5, 5))) == 0);
}

#[test]
fn queue_hands_out_cheapest_first() {
    let mut q: MinQueue<&str> = MinQueue::new();
    assert!(q.is_empty());
    q.push(5, "five");
    q.push(2, "two");
    q.push(9, "nine");
    q.push(2, "other two");
    assert!(q.len() == 4);
    let a = q.pop().unwrap();
    let b = q.pop().unwrap();
    assert!(a.0 == 2);
    assert!(b.0 == 2);
    assert!(a.1 != b.1);
    assert!(q.pop() == Some((5, "five")));
    assert!(q.pop() == Some((9, "nine")));
    assert!(q.pop() == None);
    assert!(q.is_empty());
}
