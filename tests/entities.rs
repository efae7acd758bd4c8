use ltp::entities::get_entities;

#[test]
fn test_get_entities() {
    let example = vec!["B-PER", "I-PER", "O", "B-LOC"];
    let result = get_entities(example);
    assert_eq!(result, vec![("PER", 0, 1), ("LOC", 3, 3)]);
}

#[test]
fn all_outside_labels_give_no_chunks() {
    assert_eq!(get_entities(vec![]), vec![]);
    assert_eq!(get_entities(vec!["O"]), vec![]);
    assert_eq!(get_entities(vec!["O", "O", "O", "O", "O"]), vec![]);
}

#[test]
fn lone_inside_label_starts_a_chunk() {
    assert_eq!(get_entities(vec!["I-X"]), vec![("X", 0, 0)]);
    assert_eq!(get_entities(vec!["I-PER", "I-PER", "O"]), vec![("PER", 0, 1)]);
}

#[test]
fn bioes_labels_close_on_end_and_single() {
    let result = get_entities(vec!["B-ORG", "I-ORG", "E-ORG", "S-LOC", "O", "B-PER"]);
    assert_eq!(result, vec![("ORG", 0, 2), ("LOC", 3, 3), ("PER", 5, 5)]);
}

#[test]
fn type_change_closes_a_chunk() {
    let result = get_entities(vec!["B-PER", "I-LOC", "I-LOC"]);
    assert_eq!(result, vec![("PER", 0, 0), ("LOC", 1, 2)]);
}

#[test]
fn untyped_labels_have_underscore_type() {
    let result = get_entities(vec!["B", "I", "B", "B", "I", "I"]);
    assert_eq!(result, vec![("_", 0, 1), ("_", 2, 2), ("_", 3, 5)]);
}

#[test]
fn type_after_first_dash_is_kept_whole() {
    let result = get_entities(vec!["B-A-B", "I-A-B"]);
    assert_eq!(result, vec![("A-B", 0, 1)]);
}

#[test]
fn dot_label_leaves_the_begin_open() {
    // "." neither starts nor ends a chunk, so a later end reaches back to the old begin
    let result = get_entities(vec!["B-X", ".", "E"]);
    assert_eq!(result, vec![("X", 0, 0), ("_", 0, 2)]);
}
