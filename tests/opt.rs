use ncount::opt::{IterExt, Opt};
use std::iter;

#[test]
fn empty_source_iter() {
    let mut items = iter::empty().once_if_empty_with(|| 1);
    assert_eq!(Some(1), items.next());
    assert_eq!(None, items.next());
}

#[test]
fn non_empty_source_iter() {
    let mut items = vec![1].into_iter().once_if_empty_with(|| 2);
    assert_eq!(Some(1), items.next());
    assert_eq!(None, items.next());
}

#[test]
fn paths_default_to_current_directory() {
    let opt = Opt { paths: vec![] };
    assert_eq!(vec![".".to_string()], opt.paths());
    let opt = Opt { paths: vec!["a.md".to_string(), "b.md".to_string()] };
    assert_eq!(vec!["a.md".to_string(), "b.md".to_string()], opt.paths());
}
