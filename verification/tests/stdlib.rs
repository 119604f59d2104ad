use neon_compiler::stdlib::module_prefix;

#[test]
fn module_path_from_relative() {
    assert_eq!(module_prefix("std/io.neon"), vec!["std", "io"]);
    assert_eq!(module_prefix("std/collections/list.neon"), vec!["std", "collections", "list"]);
    // The prelude declares at the root, so its short names need no `use`.
    assert_eq!(module_prefix("prelude.neon"), Vec::<String>::new());
    assert_eq!(module_prefix("std/prelude.neon"), vec!["std", "prelude"]);
}

#[test]
fn separators_of_either_kind_and_empty_pieces() {
    assert_eq!(module_prefix("std\\io.neon"), vec!["std", "io"]);
    assert_eq!(module_prefix("/std//io/"), vec!["std", "io"]);
    assert_eq!(module_prefix("std/io"), vec!["std", "io"]);
    assert_eq!(module_prefix("prelude"), Vec::<String>::new());
    assert_eq!(module_prefix(".neon"), Vec::<String>::new());
    assert_eq!(module_prefix("a.neon.neon"), vec!["a.neon"]);
}
