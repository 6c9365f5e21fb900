use nitrousoxide::target::{call_shape, CallShape, JitTarget};

#[test]
fn target_compiled_once() {
    let mut t = JitTarget::new(0x1000, 1);
    assert!(t.needs_code());
    assert_eq!(t.code(), None);
    t.record_code(0x2000);
    assert!(!t.needs_code());
    assert_eq!(t.code(), Some(0x2000));
    assert_eq!(t.target_function, 0x1000);
    assert_eq!(t.num_args, 1);
}

#[test]
fn call_shapes() {
    assert_eq!(call_shape(&[]), CallShape::NoArgs);
    assert_eq!(call_shape(&[7]), CallShape::OneArg(7));
    assert_eq!(call_shape(&[u64::MAX]), CallShape::OneArg(-1));
}
