use markdown_core::grammar::dispatch;

#[test]
fn bytes_list_the_rules_whose_markers_they_match() {
    let rules: [&[u8]; 3] = [b"*_", b"", b"*["];
    let table = dispatch(&rules);
    assert_eq!(table.len(), 256);
    assert_eq!(table[b'*' as usize], vec![0, 1, 2]);
    assert_eq!(table[b'_' as usize], vec![0, 1]);
    assert_eq!(table[b'[' as usize], vec![1, 2]);
    assert_eq!(table[b'a' as usize], vec![1]);
    assert_eq!(table[255], vec![1]);
    assert!(dispatch(&[]).iter().all(|list| list.is_empty()));
}
