use unitypkg::pathname::{
    join_for_display, normalize, resolve_pathname, sanitize_pathname, split_components,
    trim_pathname,
};

fn strings(parts: &[&str]) -> Vec<String> {
    parts.iter().map(|p| p.to_string()).collect()
}

#[test]
fn trimming_removes_surrounding_whitespace_only() {
    assert_eq!(trim_pathname("  Assets/Foo.cs \n"), "Assets/Foo.cs");
    assert_eq!(trim_pathname("Assets/Space Name.txt"), "Assets/Space Name.txt");
    assert_eq!(trim_pathname("\t\r\n"), "");
    assert_eq!(trim_pathname(""), "");
}

#[test]
fn sanitizing_replaces_each_reserved_character() {
    assert_eq!(sanitize_pathname("a<b>c:d\"e|f?g*h"), "a_b_c_d_e_f_g_h");
    assert_eq!(sanitize_pathname("Assets/Foo.cs"), "Assets/Foo.cs");
    assert_eq!(sanitize_pathname(""), "");
}

#[test]
fn splitting_keeps_empty_pieces() {
    assert_eq!(split_components("a/b/c"), strings(&["a", "b", "c"]));
    assert_eq!(split_components("a//b"), strings(&["a", "", "b"]));
    assert_eq!(split_components("a/"), strings(&["a", ""]));
    assert_eq!(split_components(""), strings(&[""]));
}

#[test]
fn normalizing_resolves_dots_and_rejects_escapes() {
    assert_eq!(normalize(&strings(&["a", ".", "b"])), Some(strings(&["a", "b"])));
    assert_eq!(normalize(&strings(&["a", "..", "b"])), Some(strings(&["b"])));
    assert_eq!(normalize(&strings(&["a", "", "b"])), Some(strings(&["a", "b"])));
    assert_eq!(normalize(&strings(&["..", "b"])), None);
    assert_eq!(normalize(&strings(&["a", "..", "..", "b"])), None);
}

#[test]
fn resolving_composes_trim_sanitize_split_and_normalize() {
    let (shown, resolved) = resolve_pathname(" Assets/Scripts/Foo.cs\n", false);
    assert_eq!(shown, "Assets/Scripts/Foo.cs");
    assert_eq!(resolved, Some(strings(&["Assets", "Scripts", "Foo.cs"])));

    let (shown, resolved) = resolve_pathname("../../etc/evil", false);
    assert_eq!(shown, "../../etc/evil");
    assert_eq!(resolved, None);

    let (shown, resolved) = resolve_pathname("/etc/passwd", false);
    assert_eq!(shown, "/etc/passwd");
    assert_eq!(resolved, None);

    let (shown, resolved) = resolve_pathname("Assets/a<b.txt", true);
    assert_eq!(shown, "Assets/a_b.txt");
    assert_eq!(resolved, Some(strings(&["Assets", "a_b.txt"])));
}

#[test]
fn display_join_puts_relative_paths_under_the_root() {
    assert_eq!(join_for_display("/dest", "../../etc/evil"), "/dest/../../etc/evil");
    assert_eq!(join_for_display("/dest", "/abs/path"), "/abs/path");
    assert_eq!(join_for_display("/dest", "a/b"), "/dest/a/b");
}
