use mis_counter::paths::insert_result_suffix;

fn derive(p: &[u8]) -> Vec<u8> {
    insert_result_suffix(&p.to_vec())
}

#[test]
fn extension_is_replaced() {
    assert_eq!(derive(b"tree.csv"), b"tree.result".to_vec());
}

#[test]
fn directory_part_is_kept() {
    assert_eq!(derive(b"gen/tree.csv"), b"gen/tree.result".to_vec());
    assert_eq!(derive(b"a/b/c.txt"), b"a/b/c.result".to_vec());
}

#[test]
fn only_last_extension_is_dropped() {
    assert_eq!(derive(b"a.b.c"), b"a.b.result".to_vec());
}

#[test]
fn name_without_extension_is_suffixed() {
    assert_eq!(derive(b"noext"), b"noext.result".to_vec());
}

#[test]
fn leading_dot_does_not_start_an_extension() {
    assert_eq!(derive(b".hidden"), b".hidden.result".to_vec());
}

#[test]
fn empty_name_yields_bare_marker() {
    assert_eq!(derive(b""), b".result".to_vec());
    assert_eq!(derive(b"dir/"), b"dir/.result".to_vec());
}
