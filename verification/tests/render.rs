use markdown_core::render::{Context, MAX_OUTPUT_BYTES, MAX_RENDER_WORK};

#[test]
fn output_may_reach_but_not_pass_one_mebibyte() {
    assert_eq!((MAX_OUTPUT_BYTES, MAX_RENDER_WORK), (1_048_576, 8_388_608));
    let mut context = Context::new();
    let mut output = String::new();
    assert_eq!(context.append(&mut output, &"x".repeat(1_048_575)), Ok(()));
    assert_eq!(context.append(&mut output, "é"), Err("resource_limit"));
    assert_eq!(output.len(), 1_048_575);
    assert_eq!(context.append(&mut output, "y"), Ok(()));
    assert_eq!(output.len(), 1_048_576);
    assert_eq!(context.append(&mut output, "z"), Err("resource_limit"));
    assert_eq!(context.append(&mut output, ""), Ok(()));
}

#[test]
fn appended_bytes_count_across_outputs_of_one_render() {
    let mut context = Context::new();
    let chunk = "a".repeat(1_048_576);
    for _ in 0..8 {
        let mut output = String::new();
        assert_eq!(context.append(&mut output, &chunk), Ok(()));
    }
    let mut output = String::new();
    assert_eq!(context.append(&mut output, "a"), Err("resource_limit"));
    assert!(output.is_empty());
    assert_eq!(context.append(&mut output, ""), Ok(()));
    let mut fresh = Context::new();
    assert_eq!(fresh.append(&mut output, "a"), Ok(()));
    assert_eq!(output, "a");
}
