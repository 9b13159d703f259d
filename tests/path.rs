use yggdrasil::concrete::ConcretePath;
use yggdrasil::error::{ConversionError, ResolutionError, SyntaxError};
use yggdrasil::script::{PathComponent, ScriptPath};
use yggdrasil::tree::TreeShape;

fn n(p: &str) -> PathComponent {
    PathComponent::Name(p.to_owned())
}

fn p(v: Vec<PathComponent>, d: bool) -> PathComponent {
    let path = ScriptPath::from_components(v);
    assert_eq!(path.is_concrete(), !d);
    PathComponent::Lookup(path)
}

fn cp(s: &str) -> ConcretePath {
    ConcretePath::parse(s).unwrap()
}

#[test]
#[should_panic]
fn test_parse_invalid_path_embedded_empty() {
    ScriptPath::from_str_at_path("/", "/foo/{/baz//bep}/bar").unwrap();
}

#[test]
#[should_panic]
fn test_parse_invalid_path_mismatched_open() {
    ScriptPath::from_str_at_path("/", "/foo/{/baz/bep").unwrap();
}

#[test]
#[should_panic]
fn test_parse_invalid_path_mismatched_close() {
    ScriptPath::from_str_at_path("/", "/foo/{/baz/bep}}").unwrap();
}

#[test]
fn test_parse_abs_deep_nest() {
    let path = ScriptPath::from_str_at_path("/", "/a/{/0/{/A/B}/2}/c").unwrap();
    assert_eq!(
        path.components,
        vec![
            n("a"),
            p(vec![n("0"), p(vec![n("A"), n("B")], false), n("2")], true),
            n("c"),
        ]
    )
}

#[test]
fn test_parse_abs_current() {
    let path = ScriptPath::from_str_at_path("/", "/foo/./bar").unwrap();
    assert_eq!(path.components, vec![n("foo"), n("bar")])
}

#[test]
fn test_parse_abs_parent() {
    let path = ScriptPath::from_str_at_path("/", "/foo/../bar").unwrap();
    assert_eq!(path.components, vec![n("bar")])
}

#[test]
fn test_parse_abs_embedded_abs_current() {
    let path = ScriptPath::from_str_at_path("/", "/foo/{/baz/./bep}/bar").unwrap();
    assert_eq!(
        path.components,
        vec![n("foo"), p(vec![n("baz"), n("bep")], false), n("bar")]
    )
}

#[test]
fn test_parse_abs_embedded_abs_parent() {
    let path = ScriptPath::from_str_at_path("/", "/foo/{/baz/../bep}/bar").unwrap();
    assert_eq!(
        path.components,
        vec![n("foo"), p(vec![n("bep")], false), n("bar")]
    )
}

#[test]
fn test_parse_rel_current() {
    let path = ScriptPath::from_str_at_path("/a/b", "./c/d").unwrap();
    assert_eq!(path.components, vec![n("a"), n("c"), n("d")])
}

#[test]
fn test_parse_rel_parent() {
    let path = ScriptPath::from_str_at_path("/a/b", "../c/d").unwrap();
    assert_eq!(path.components, vec![n("c"), n("d")])
}

#[test]
#[should_panic]
fn test_parse_rel_parent_underflow() {
    ScriptPath::from_str_at_path("/a/b", "../c/../../../d").unwrap();
}

#[test]
fn test_parse_rel_embedded_rel_parent() {
    let path = ScriptPath::from_str_at_path("/a/b", "../c/{../e}/d").unwrap();
    assert_eq!(
        path.components,
        vec![n("c"), p(vec![n("e")], false), n("d")]
    )
}

#[test]
fn relative_text_reads_as_absolute_text() {
    assert_eq!(
        ScriptPath::from_str_at_path("/a/b", "./c/d").unwrap(),
        ScriptPath::from_str_at_path("/", "/a/c/d").unwrap()
    );
    assert_eq!(
        ScriptPath::from_str_at_path("/a/b", "../c/d").unwrap(),
        ScriptPath::from_str_at_path("/", "/c/d").unwrap()
    );
}

#[test]
fn parent_underflow_is_reported() {
    assert_eq!(
        ScriptPath::from_str_at_path("/a/b", "../c/../../../d"),
        Err(SyntaxError::ParentUnderflow)
    );
    assert_eq!(
        ScriptPath::from_str_at_path("/", "/.."),
        Err(SyntaxError::ParentUnderflow)
    );
}

#[test]
fn unbalanced_braces_are_reported_anywhere() {
    for text in ["/foo/{/baz/bep", "/foo/{/baz/bep}}", "{", "/a/}", "/a//{", "../{{x}", "/a/b}"] {
        assert_eq!(
            ScriptPath::from_str_at_path("/a/b", text),
            Err(SyntaxError::MismatchedBraces),
            "{}",
            text
        );
    }
}

#[test]
fn empty_and_invalid_segments_are_reported() {
    assert_eq!(
        ScriptPath::from_str_at_path("/", "/a//b"),
        Err(SyntaxError::EmptyComponent)
    );
    assert_eq!(
        ScriptPath::from_str_at_path("/", "/a/"),
        Err(SyntaxError::EmptyComponent)
    );
    assert_eq!(
        ScriptPath::from_str_at_path("/", "/foo/{/baz//bep}/bar"),
        Err(SyntaxError::EmptyComponent)
    );
    assert_eq!(
        ScriptPath::from_str_at_path("/", "/a}b{/c"),
        Err(SyntaxError::InvalidCharacter)
    );
    assert_eq!(
        ScriptPath::from_str_at_path("/", "/x{y}"),
        Err(SyntaxError::InvalidCharacter)
    );
}

#[test]
fn dynamic_flag_follows_top_level_lookups() {
    assert!(ScriptPath::from_str_at_path("/", "/a/b").unwrap().is_concrete());
    assert!(!ScriptPath::from_str_at_path("/", "/a/{/b}").unwrap().is_concrete());
    assert!(!ScriptPath::from_str_at_path("/", "/{/x}/..").unwrap().is_concrete());
    let nested = ScriptPath::from_str_at_path("/", "/a/{/0/{/A/B}/2}/c").unwrap();
    assert!(!nested.is_concrete());
}

#[test]
fn lookups_resolve_against_the_same_base() {
    let path = ScriptPath::from_str_at_path("/p/q/r", "{./x}/y").unwrap();
    assert_eq!(
        path.components,
        vec![n("p"), n("q"), p(vec![n("p"), n("q"), n("x")], false), n("y")]
    );
}

#[test]
fn script_path_text_form() {
    let text = "/a/{/0/{/A/B}/2}/c";
    let path = ScriptPath::from_str_at_path("/", text).unwrap();
    assert_eq!(path.to_string(), text);
    assert_eq!(n("x").to_string(), "x");
    assert_eq!(p(vec![n("y"), n("z")], false).to_string(), "{/y/z}");
}

#[test]
fn as_concrete_converts_names_only() {
    let path = ScriptPath::from_str_at_path("/", "/a/b").unwrap();
    assert_eq!(path.as_concrete(), Ok(cp("/a/b")));
    let dynamic = ScriptPath::from_str_at_path("/", "/a/{/b}").unwrap();
    assert_eq!(dynamic.as_concrete(), Err(ConversionError::InvariantViolation));
}

fn sample_tree() -> TreeShape {
    let mut tree = TreeShape::new();
    tree.add_container(ConcretePath::new_root(), vec!["A".to_owned(), "B".to_owned()]);
    tree.add_container(cp("/0"), vec!["A".to_owned(), "B".to_owned()]);
    tree.add_container(cp("/A"), vec!["c".to_owned()]);
    tree.add_container(cp("/B"), vec![]);
    tree.add_leaf(cp("/A/c"));
    tree
}

#[test]
fn devirtualize_expands_lookup_by_position() {
    let tree = sample_tree();
    let path = ScriptPath::from_str_at_path("/", "/{/x}/c").unwrap();
    assert_eq!(path.devirtualize(&tree), Ok(vec![cp("/A/c"), cp("/B/c")]));
}

#[test]
fn devirtualize_concrete_is_itself() {
    let tree = TreeShape::new();
    let path = ScriptPath::from_str_at_path("/", "/q/r").unwrap();
    assert_eq!(path.devirtualize(&tree), Ok(vec![cp("/q/r")]));
}

#[test]
fn devirtualize_nested_lookups_cross_children() {
    let tree = sample_tree();
    let path = ScriptPath::from_str_at_path("/", "/{/x}/{/y}").unwrap();
    assert_eq!(path.devirtualize(&tree), Ok(vec![cp("/A/c")]));
    let path = ScriptPath::from_str_at_path("/", "/0/{/y}/z").unwrap();
    assert_eq!(path.devirtualize(&tree), Ok(vec![cp("/0/A/z"), cp("/0/B/z")]));
}

#[test]
fn devirtualize_reports_unresolvable_prefixes() {
    let tree = sample_tree();
    let missing = ScriptPath::from_str_at_path("/", "/nowhere/{/y}").unwrap();
    assert_eq!(missing.devirtualize(&tree), Err(ResolutionError::NotFound));
    let leaf = ScriptPath::from_str_at_path("/", "/A/c/{/y}").unwrap();
    assert_eq!(leaf.devirtualize(&tree), Err(ResolutionError::NotAContainer));
}

#[test]
fn literal_dependencies_keep_concrete_lookups_only() {
    let path = ScriptPath::from_str_at_path("/", "/a/{/0/{/A/B}/2}/c").unwrap();
    let mut inputs = Vec::new();
    path.find_concrete_inputs(&mut inputs);
    assert_eq!(inputs, vec![cp("/A/B")]);
}

#[test]
fn literal_dependencies_of_concrete_path_and_accumulation() {
    let mut inputs = vec![cp("/z")];
    ScriptPath::from_str_at_path("/", "/a/b").unwrap().find_concrete_inputs(&mut inputs);
    ScriptPath::from_str_at_path("/", "/{/x}/{/y/w}").unwrap().find_concrete_inputs(&mut inputs);
    assert_eq!(inputs, vec![cp("/z"), cp("/a/b"), cp("/x"), cp("/y/w")]);
}

#[test]
fn concrete_text_round_trip() {
    for text in ["/", "/a", "/a/b/c", "/x{y}/.."] {
        assert_eq!(cp(text).to_string(), text);
    }
    let built = ConcretePath::new_root().new_child("one").new_child("two");
    assert_eq!(ConcretePath::parse(&built.to_string()), Ok(built.clone()));
    assert_eq!(built.components, vec!["one".to_owned(), "two".to_owned()]);
}

#[test]
fn concrete_parse_errors() {
    assert_eq!(ConcretePath::parse("a/b"), Err(SyntaxError::NotAbsolute));
    assert_eq!(ConcretePath::parse(""), Err(SyntaxError::NotAbsolute));
    assert_eq!(ConcretePath::parse("/a//b"), Err(SyntaxError::EmptyComponent));
    assert_eq!(ConcretePath::parse("/a/"), Err(SyntaxError::EmptyComponent));
    assert_eq!(ConcretePath::parse("/").unwrap(), ConcretePath::new_root());
}

#[test]
fn concrete_parent_child_basename() {
    let a = cp("/a/b");
    assert_eq!(a.new_child("c").parent(), a);
    assert_eq!(a.new_child("c"), cp("/a/b/c"));
    assert_eq!(a, cp("/a/b"));
    assert_eq!(a.parent(), cp("/a"));
    assert_eq!(cp("/a").parent(), ConcretePath::new_root());
    assert_eq!(ConcretePath::new_root().parent(), ConcretePath::new_root());
    assert_eq!(a.basename(), "b");
    assert_eq!(ConcretePath::new_root().basename(), "");
}

#[test]
fn tree_shape_lookups() {
    let mut tree = sample_tree();
    assert!(tree.exists_and_is_container(&cp("/A")));
    assert!(!tree.exists_and_is_container(&cp("/A/c")));
    assert!(!tree.exists_and_is_container(&cp("/nowhere")));
    assert_eq!(tree.child_names(&cp("/A")), Ok(vec!["c".to_owned()]));
    assert_eq!(tree.child_names(&cp("/A/c")), Err(ResolutionError::NotAContainer));
    tree.add_container(cp("/A/c"), vec!["d".to_owned()]);
    assert_eq!(tree.child_names(&cp("/A/c")), Ok(vec!["d".to_owned()]));
}

#[test]
fn cloned_addresses_are_equal() {
    let path = ScriptPath::from_str_at_path("/", "/a/{/0/{/A/B}/2}/c").unwrap();
    let copy = path.clone();
    assert_eq!(copy, path);
    assert_eq!(copy.to_string(), "/a/{/0/{/A/B}/2}/c");
    assert_eq!(n("x").clone(), n("x"));
}

#[test]
fn slash_operator_appends_a_child() {
    let root = ConcretePath::new_root();
    let by_ref = &root / "a";
    assert_eq!(by_ref, cp("/a"));
    assert_eq!(by_ref / "b", cp("/a/b"));
}

#[test]
fn built_address_devirtualizes() {
    let path = ScriptPath::from_components(vec![p(vec![n("x")], false), n("c")]);
    assert!(!path.is_concrete());
    assert_eq!(path.devirtualize(&sample_tree()), Ok(vec![cp("/A/c"), cp("/B/c")]));
}
