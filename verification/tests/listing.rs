use tidyfile::listing::{dedup_paths, sort_paths};

fn strings(items: &[&str]) -> Vec<String> {
    items.iter().map(|item| item.to_string()).collect()
}

#[test]
fn paths_sort_component_by_component() {
    let sorted = sort_paths(&strings(&["/w/b.pdf", "/w/a/z.pdf", "/w/a-b.pdf", "/w/a.pdf"]));
    assert_eq!(sorted, strings(&["/w/a/z.pdf", "/w/a-b.pdf", "/w/a.pdf", "/w/b.pdf"]));
}

#[test]
fn sorting_keeps_every_path_and_the_order_of_equal_ones() {
    let sorted = sort_paths(&strings(&["/w/b", "/w/a/", "/w/a", "/w/b"]));
    assert_eq!(sorted, strings(&["/w/a/", "/w/a", "/w/b", "/w/b"]));
    assert!(sort_paths(&Vec::new()).is_empty());
}

#[test]
fn repeats_of_the_same_path_are_dropped() {
    let kept = dedup_paths(&strings(&["/w/a", "/w/a/", "/w//a", "/w/b", "/w/a"]));
    assert_eq!(kept, strings(&["/w/a", "/w/b", "/w/a"]));
}
