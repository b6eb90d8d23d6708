use path_resolve::PathPart;
use path_resolve::resolve;

fn plain<'a>(texts: &[&'a str]) -> Vec<PathPart<'a>> {
    texts.iter().map(|t| PathPart::Part(t)).collect()
}

#[test]
fn special_path_is_returned_unchanged() {
    let base = plain(&["root", "a"]);
    let rel = plain(&["@index"]);
    assert_eq!(resolve(&base, rel.clone()), rel);
}

#[test]
fn special_path_with_empty_base() {
    let base: Vec<PathPart> = Vec::new();
    let rel = plain(&["@root"]);
    assert_eq!(resolve(&base, rel.clone()), rel);
}

#[test]
fn special_path_keeps_depth_tag() {
    let base = plain(&["root"]);
    let rel = vec![PathPart::PartDepth("@first", 4)];
    assert_eq!(resolve(&base, rel.clone()), rel);
}

#[test]
fn keyword_marker_only_counts_for_single_segments() {
    let base = plain(&["x"]);
    let rel = plain(&["@r", "y"]);
    // two segments: no short-circuit, and no overlap with the base either
    assert_eq!(resolve(&base, rel.clone()), rel);
}

#[test]
fn one_up_marker_removes_one_base_segment() {
    let base = plain(&["x", "y", "z"]);
    let rel = plain(&["./", "../", "a"]);
    assert_eq!(resolve(&base, rel), plain(&["x", "y", "a"]));
}

#[test]
fn excess_up_markers_saturate_at_the_root() {
    let base = plain(&["x"]);
    let rel = plain(&["./", "../", "../", "a"]);
    assert_eq!(resolve(&base, rel), plain(&["a"]));
}

#[test]
fn stay_markers_are_no_ops() {
    let base = plain(&["x", "y"]);
    let rel = plain(&["./", "./", "z"]);
    assert_eq!(resolve(&base, rel), plain(&["x", "y", "z"]));
}

#[test]
fn explicit_relative_with_empty_base() {
    let base: Vec<PathPart> = Vec::new();
    let rel = plain(&["./", "a"]);
    assert_eq!(resolve(&base, rel), plain(&["a"]));
}

#[test]
fn explicit_relative_with_only_markers() {
    let base = plain(&["x", "y"]);
    let rel = plain(&["./", "../"]);
    assert_eq!(resolve(&base, rel), plain(&["x"]));
}

#[test]
fn a_lone_stay_marker_resolves_to_the_base() {
    let base = plain(&["x", "y"]);
    let rel = plain(&["./"]);
    assert_eq!(resolve(&base, rel), plain(&["x", "y"]));
}

#[test]
fn a_leading_up_marker_is_the_lead_in_not_a_climb() {
    // "../" ends with "./", so a first segment "../" is discarded as the
    // lead-in; only markers after it climb the base
    let base = plain(&["x", "y"]);
    let rel = plain(&["../", "a"]);
    assert_eq!(resolve(&base, rel), plain(&["x", "y", "a"]));
}

#[test]
fn any_segment_ending_with_the_marker_is_explicit() {
    // the lead-in segment is discarded whatever text precedes its `./`
    let base = plain(&["x", "y"]);
    let rel = plain(&["a./", "b"]);
    assert_eq!(resolve(&base, rel), plain(&["x", "y", "b"]));
}

#[test]
fn suffix_match_extends_the_base() {
    let base = plain(&["root", "a", "b", "c"]);
    let rel = plain(&["b", "c", "d"]);
    assert_eq!(resolve(&base, rel), plain(&["root", "a", "b", "c", "d"]));
}

#[test]
fn rightmost_anchor_wins_ties_at_equal_length() {
    let base = plain(&["a", "b", "a", "b"]);
    let rel = plain(&["a", "b", "x"]);
    assert_eq!(resolve(&base, rel), plain(&["a", "b", "a", "b", "x"]));
}

#[test]
fn longer_match_outranks_a_rightmost_shorter_one() {
    // "a" alone would match rightmost at the last base segment, but the
    // two-segment prefix "a","b" matches earlier and wins
    let base = plain(&["a", "b", "a"]);
    let rel = plain(&["a", "b", "x"]);
    assert_eq!(resolve(&base, rel), plain(&["a", "b", "x"]));
}

#[test]
fn single_segment_match_inside_the_base() {
    let base = plain(&["a", "b", "c"]);
    let rel = plain(&["b"]);
    assert_eq!(resolve(&base, rel), plain(&["a", "b"]));
}

#[test]
fn no_match_falls_back_to_the_absolute_path() {
    let base = plain(&["root"]);
    let rel = plain(&["totally", "unrelated"]);
    assert_eq!(resolve(&base, rel.clone()), rel);
}

#[test]
fn no_match_with_empty_base() {
    let base: Vec<PathPart> = Vec::new();
    let rel = plain(&["a", "b"]);
    assert_eq!(resolve(&base, rel.clone()), rel);
}

#[test]
fn depth_tags_are_ignored_when_matching() {
    let tagged = vec![
        PathPart::PartDepth("root", 1),
        PathPart::PartDepth("a", 2),
        PathPart::PartDepth("b", 3),
        PathPart::PartDepth("c", 4),
    ];
    let rel = plain(&["b", "c", "d"]);
    let out = resolve(&tagged, rel.clone());
    let out_plain = resolve(&plain(&["root", "a", "b", "c"]), rel);
    let texts: Vec<&str> = out.iter().map(|p| p.inner()).collect();
    let plain_texts: Vec<&str> = out_plain.iter().map(|p| p.inner()).collect();
    assert_eq!(texts, plain_texts);
    assert_eq!(texts, vec!["root", "a", "b", "c", "d"]);
}

#[test]
fn depth_tags_are_preserved_in_the_result() {
    let base = vec![PathPart::PartDepth("b", 7)];
    let rel = plain(&["b", "c"]);
    let out = resolve(&base, rel);
    assert_eq!(out, vec![PathPart::PartDepth("b", 7), PathPart::Part("c")]);
}

#[test]
fn resolution_is_not_idempotent_in_general() {
    let p = plain(&["./", "../"]);
    let out = resolve(&p, p.clone());
    assert_ne!(out, p);
    assert_eq!(out, plain(&["./"]));
}

#[test]
fn inner_returns_the_text_of_either_variant() {
    assert_eq!(PathPart::Part("a").inner(), "a");
    assert_eq!(PathPart::PartDepth("a", 2).inner(), "a");
}

#[test]
fn with_depth_tags_a_plain_segment() {
    let mut part = PathPart::Part("a");
    part.with_depth(3);
    assert_eq!(part, PathPart::PartDepth("a", 3));
}

#[test]
fn with_depth_overwrites_an_existing_depth() {
    let mut part = PathPart::PartDepth("a", 3);
    part.with_depth(9);
    assert_eq!(part, PathPart::PartDepth("a", 9));
}
