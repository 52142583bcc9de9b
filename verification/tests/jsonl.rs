use sequences::jsonl::JsonlFormatter;

#[test]
fn top_level_objects_end_lines() {
    let mut f = JsonlFormatter::new();
    let mut out = Vec::new();
    f.begin_object(&mut out);
    f.begin_object(&mut out);
    f.end_object(&mut out);
    assert_eq!(1, f.nesting_level());
    f.end_object(&mut out);
    f.begin_object(&mut out);
    f.end_object(&mut out);
    assert_eq!(b"{{}}\n{}\n".to_vec(), out);
    assert_eq!(0, f.nesting_level());
}
