use trashd::lines::split_lines;
use trashd::mover::base_name;
use trashd::mover::plan_move;
use trashd::resolver::resolve;
use trashd::resolver::resolve_batch;

fn b(s: &str) -> Vec<u8> {
    s.as_bytes().to_vec()
}

fn bs(names: &[&str]) -> Vec<Vec<u8>> {
    names.iter().map(|s| b(s)).collect()
}

#[test]
fn free_name_is_unchanged() {
    assert_eq!(resolve(&b("b.txt"), &bs(&["a.txt"])), b("b.txt"));
    assert_eq!(resolve(&b("a.txt"), &bs(&[])), b("a.txt"));
}

#[test]
fn exact_duplicate_gets_suffix_one() {
    assert_eq!(resolve(&b("a.txt"), &bs(&["a.txt"])), b("a.txt.1"));
}

#[test]
fn next_suffix_after_highest() {
    assert_eq!(resolve(&b("a.txt"), &bs(&["a.txt", "a.txt.1"])), b("a.txt.2"));
    assert_eq!(resolve(&b("a.txt"), &bs(&["a.txt", "a.txt.7"])), b("a.txt.8"));
}

#[test]
fn non_numeric_suffix_forces_baseline() {
    assert_eq!(resolve(&b("a.txt"), &bs(&["a.txt", "a.txt.foo"])), b("a.txt.1"));
}

#[test]
fn baseline_does_not_reset_a_higher_suffix() {
    assert_eq!(
        resolve(&b("a.txt"), &bs(&["a.txt", "a.txt.5", "a.txt.foo"])),
        b("a.txt.6")
    );
}

#[test]
fn duplicate_without_extension() {
    assert_eq!(resolve(&b("notes"), &bs(&["notes"])), b("notes.1"));
}

#[test]
fn other_stems_do_not_count() {
    assert_eq!(resolve(&b("a.txt"), &bs(&["a.txt", "b.txt.5"])), b("a.txt.1"));
}

#[test]
fn suffixed_names_alone_are_no_collision() {
    assert_eq!(resolve(&b("a.txt"), &bs(&["a.txt.1"])), b("a.txt"));
}

#[test]
fn suffixed_candidate_collides_as_itself() {
    assert_eq!(resolve(&b("a.txt.1"), &bs(&["a.txt.1"])), b("a.txt.1.1"));
}

#[test]
fn negative_suffix_never_beats_the_baseline() {
    assert_eq!(resolve(&b("a.txt"), &bs(&["a.txt", "a.txt.-5"])), b("a.txt.1"));
}

#[test]
fn dot_file_has_no_extension() {
    assert_eq!(resolve(&b(".bashrc"), &bs(&[".bashrc"])), b(".bashrc.1"));
}

#[test]
fn empty_extension_is_not_numeric() {
    assert_eq!(resolve(&b("a."), &bs(&["a."])), b("a..1"));
}

#[test]
fn resolving_twice_never_reuses_a_name() {
    let mut listing = bs(&["a.txt"]);
    let first = resolve(&b("a.txt"), &listing);
    listing.push(first.clone());
    let second = resolve(&b("a.txt"), &listing);
    assert_ne!(first, second);
    assert!(!listing.contains(&second));
    assert_eq!(first, b("a.txt.1"));
    assert_eq!(second, b("a.txt.2"));
}

#[test]
fn batch_same_base_names_lose_nothing() {
    let out = resolve_batch(&bs(&["a.txt", "a.txt"]), &bs(&["a.txt"]));
    assert_eq!(out, bs(&["a.txt.1", "a.txt.2"]));
}

#[test]
fn batch_of_two_fresh_duplicates() {
    let out = resolve_batch(&bs(&["foo.txt", "foo.txt"]), &bs(&[]));
    assert_eq!(out, bs(&["foo.txt", "foo.txt.1"]));
}

#[test]
fn base_name_of_paths() {
    assert_eq!(base_name(&b("/tmp/foo.txt")), Some(b("foo.txt")));
    assert_eq!(base_name(&b("foo")), Some(b("foo")));
    assert_eq!(base_name(&b("/tmp/")), None);
    assert_eq!(base_name(&b("")), None);
}

#[test]
fn plan_move_resolves_and_formats() {
    let (dest, rec) = plan_move(&b("/tmp/foo.txt"), &bs(&["foo.txt"]), 42).unwrap();
    assert_eq!(dest, b("foo.txt.1"));
    assert_eq!(rec, b("added:42\noriginal_path:/tmp/foo.txt\n"));
    assert_eq!(plan_move(&b("/tmp/"), &bs(&[]), 42), None);
}

#[test]
fn two_equal_paths_end_to_end() {
    // the client's batch: two distinct files that share a base name
    let stream = b("/tmp/foo.txt\n/tmp/foo.txt\n");
    let mut listing: Vec<Vec<u8>> = Vec::new();
    let mut stored: Vec<Vec<u8>> = Vec::new();
    for line in split_lines(&stream) {
        let (dest, _rec) = plan_move(&line, &listing, 7).unwrap();
        listing.push(dest.clone());
        stored.push(dest);
    }
    assert_eq!(stored, bs(&["foo.txt", "foo.txt.1"]));
}
