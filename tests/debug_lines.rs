use padify::debug_lines::strip_debug_lines;

fn run(lines: &[&str]) -> Vec<String> {
    let v: Vec<String> = lines.iter().map(|s| s.to_string()).collect();
    strip_debug_lines(&v)
}

#[test]
fn one_line_breakpoints_removed() {
    assert_eq!(
        run(&["x = 1", "import pdb; pdb.set_trace()", "  import ipdb;ipdb.set_trace()  ", "y = 2"]),
        vec!["x = 1", "y = 2"]
    );
    assert_eq!(run(&["import pdb;  ipdb.set_trace()"]), Vec::<String>::new());
}

#[test]
fn lone_set_trace_removed() {
    assert_eq!(run(&["    pdb.set_trace()", "ipdb.set_trace() ", "pdb.set_trace(1)"]), vec!["pdb.set_trace(1)"]);
}

#[test]
fn import_then_set_trace_removed_with_blanks() {
    assert_eq!(
        run(&["def f():", "    import ipdb", "", "   ", "    ipdb.set_trace()", "    return 1"]),
        vec!["def f():", "    return 1"]
    );
}

#[test]
fn import_without_set_trace_kept() {
    assert_eq!(
        run(&["import pdb", "", "x = 1"]),
        vec!["import pdb", "", "x = 1"]
    );
    assert_eq!(
        run(&["import pdb", "", "ipdb.set_trace()", "z"]),
        vec!["import pdb", "", "z"]
    );
    assert_eq!(run(&["import pdbx", "importpdb", "import  pdb  "]), vec!["import pdbx", "importpdb", "import  pdb  "]);
}
