use vostok_pdb_parser::report::{layout_tree, path_in_tree, write_stream, Report};

fn sample() -> Report {
    let mut r = Report::new();
    r.insert("b\\z.cpp".to_string(), 0x20, "two\n".to_string());
    r.insert("b\\z.cpp".to_string(), 0x10, "one\n".to_string());
    r.insert("a.cpp".to_string(), 0x30, "old\n".to_string());
    r.insert("a.cpp".to_string(), 0x30, "new\n".to_string());
    r.insert("b\\z.cpp".to_string(), 0x18, "between\n".to_string());
    r
}

#[test]
fn files_and_functions_are_in_order() {
    let r = sample();
    let names: Vec<&str> = r.files.iter().map(|f| f.name.as_str()).collect();
    assert_eq!(names, vec!["a.cpp", "b\\z.cpp"]);
    let rvas: Vec<u32> = r.files[1].functions.iter().map(|f| f.rva).collect();
    assert_eq!(rvas, vec![0x10, 0x18, 0x20]);
}

#[test]
fn a_function_replaces_the_one_at_its_address() {
    let r = sample();
    assert_eq!(r.files[0].functions.len(), 1);
    assert_eq!(r.files[0].functions[0].text, "new\n");
}

#[test]
fn the_stream_heads_each_file() {
    assert_eq!(
        write_stream(&sample()),
        "// ===== a.cpp =====\n\nnew\n// ===== b\\z.cpp =====\n\none\nbetween\ntwo\n"
    );
    assert_eq!(write_stream(&Report::new()), "");
}

#[test]
fn the_tree_has_a_file_per_source_file() {
    let tree = layout_tree(&sample());
    let files: Vec<(&str, &str)> =
        tree.iter().map(|f| (f.path.as_str(), f.contents.as_str())).collect();
    assert_eq!(files, vec![("a.cpp", "new\n"), ("b/z.cpp", "one\nbetween\ntwo\n")]);
}

#[test]
fn tree_paths_are_relative() {
    assert_eq!(path_in_tree("vostok\\core\\a.cpp"), "vostok/core/a.cpp");
    assert_eq!(path_in_tree("\\\\server\\a.cpp"), "server/a.cpp");
    assert_eq!(path_in_tree("/a.cpp"), "a.cpp");
    assert_eq!(path_in_tree("\\"), "");
}

#[test]
fn a_leading_separator_is_all_that_paths_lose() {
    assert_eq!(path_in_tree("\\a.cpp"), path_in_tree("a.cpp"));
    assert_ne!(path_in_tree("b\\a.cpp"), path_in_tree("b.a.cpp"));
}
