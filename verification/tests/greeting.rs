use synth_core::print_hello;

#[test]
fn greeting_matches() {
    let mut buf = Vec::new();
    print_hello(&mut buf);
    assert_eq!(
        String::from_utf8(buf).unwrap(),
        "Hello World!!! I'm synth!!!\n"
    );
}
