use client_core::use_once::UseOnce;

#[test]
fn the_value_comes_out_exactly_once() {
    let mut holder = UseOnce::new(String::from("cleanup"));
    assert_eq!(holder.take(), Some(String::from("cleanup")));
    assert_eq!(holder.take(), None);
    assert_eq!(holder.take(), None);
}
