//! Tests of the two-atom crate's library part.

use md_ising::dimer::greeting;

#[test]
fn greeting_is_hello_world() {
    assert_eq!(greeting(), "Hello, world!");
}
