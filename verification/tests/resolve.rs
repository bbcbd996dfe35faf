use mk::config::Config;
use mk::graph::resolve;
use mk::graph::resolve_segments;
use mk::node::Node;
use mk::printer::Printer;

#[test]
fn should_resolve_common_content() {
    let nodes = &[Node::Content("common content")];
    assert_eq!(resolve(nodes, &[]), Ok("common content".to_string()));
}

#[test]
fn should_resolve_segment_content() {
    let nodes = &[Node::Segment {
        name: "foo",
        content: "foo content",
        dependencies: Vec::new(),
        indentation: "",
    }];
    assert_eq!(resolve(nodes, &["foo"]), Ok("foo content".to_string()));
}

#[test]
fn should_resolve_all_content() {
    let nodes = &[
        Node::Content("common content\n"),
        Node::Segment {
            name: "foo",
            content: "foo content",
            dependencies: Vec::new(),
            indentation: "",
        },
    ];
    assert_eq!(
        resolve(nodes, &["foo"]),
        Ok("common content\nfoo content".to_string())
    );
}

#[test]
fn should_resolve_dependency() {
    let nodes = &[
        Node::Segment {
            name: "foo",
            content: "foo content\n",
            dependencies: Vec::new(),
            indentation: "",
        },
        Node::Segment {
            name: "bar",
            content: "bar content",
            dependencies: vec!["foo"],
            indentation: "",
        },
    ];
    assert_eq!(
        resolve(nodes, &["bar"]),
        Ok("foo content\nbar content".to_string())
    );
}

#[test]
fn should_resolve_with_indentation() {
    let nodes = &[
        Node::Segment {
            name: "foo",
            content: "\tfoo content\n",
            dependencies: Vec::new(),
            indentation: "\t",
        },
        Node::Segment {
            name: "bar",
            content: "    bar content",
            dependencies: vec!["foo"],
            indentation: "    ",
        },
    ];
    assert_eq!(
        resolve(nodes, &["bar"]),
        Ok("foo content\nbar content".to_string())
    );
}

#[test]
fn should_not_resolve() {
    let nodes = &[
        Node::Content("common content"),
        Node::Segment {
            name: "foo",
            content: "foo content",
            dependencies: Vec::new(),
            indentation: "",
        },
    ];
    assert_eq!(resolve(nodes, &["foo", "bar"]), Err("bar"));
}

#[test]
fn should_resolve_pattern_target() {
    let nodes = &[
        Node::Segment {
            name: "f/check",
            content: "check\n",
            dependencies: Vec::new(),
            indentation: "",
        },
        Node::Segment {
            name: "f/build",
            content: "build\n",
            dependencies: Vec::new(),
            indentation: "",
        },
        Node::Segment {
            name: "other",
            content: "other\n",
            dependencies: Vec::new(),
            indentation: "",
        },
    ];
    assert_eq!(resolve(nodes, &["f/*"]), Ok("check\nbuild\n".to_string()));
}

#[test]
fn should_reject_pattern_without_matches() {
    let nodes = &[Node::Segment {
        name: "foo",
        content: "",
        dependencies: Vec::new(),
        indentation: "",
    }];
    assert_eq!(resolve(nodes, &["z*"]), Err("z*"));
}

#[test]
fn should_list_reachable_segments() {
    let nodes = &[
        Node::Segment {
            name: "a",
            content: "",
            dependencies: vec!["b"],
            indentation: "",
        },
        Node::Segment {
            name: "b",
            content: "",
            dependencies: Vec::new(),
            indentation: "",
        },
        Node::Segment {
            name: "c",
            content: "",
            dependencies: Vec::new(),
            indentation: "",
        },
    ];
    let mut reached = resolve_segments(nodes, &["a"]).unwrap();
    reached.sort();
    assert_eq!(reached, vec!["a", "b"]);
}

#[test]
fn should_tolerate_dependency_cycles() {
    let nodes = &[
        Node::Segment {
            name: "a",
            content: "a\n",
            dependencies: vec!["b"],
            indentation: "",
        },
        Node::Segment {
            name: "b",
            content: "b\n",
            dependencies: vec!["a"],
            indentation: "",
        },
    ];
    assert_eq!(resolve(nodes, &["a"]), Ok("a\nb\n".to_string()));
}

#[test]
fn should_overwrite_duplicate_declarations() {
    let nodes = &[
        Node::Segment {
            name: "a",
            content: "first\n",
            dependencies: vec!["b"],
            indentation: "",
        },
        Node::Segment {
            name: "a",
            content: "second\n",
            dependencies: Vec::new(),
            indentation: "",
        },
        Node::Segment {
            name: "b",
            content: "b\n",
            dependencies: Vec::new(),
            indentation: "",
        },
    ];
    // the later declaration wins in the graph: `b` is no longer reachable,
    // while both bodies of `a` are emitted for the included name
    assert_eq!(resolve(nodes, &["a"]), Ok("first\nsecond\n".to_string()));
}

#[test]
fn should_select_executor_from_file_name() {
    let mut config = Config::new();
    assert_eq!(config.printer, Printer::Stdout);
    config.parse("mkfile");
    assert_eq!(config.printer, Printer::Stdout);
    config.parse("Mkfilex.local");
    assert_eq!(config.printer, Printer::Executor);
}

#[test]
fn should_ignore_other_file_names() {
    let mut config = Config::new();
    config.parse("makefile");
    config.parse("mkfile.x");
    assert_eq!(config.printer, Printer::Stdout);
}

#[test]
fn should_resolve_scanned_basic_segment() {
    let nodes = mk::segments_scanner::scan_all("foo:\n\tcontent");
    assert_eq!(mk::graph::resolve(&nodes, &["foo"]), Ok("content".to_string()));
}

#[test]
fn should_resolve_scanned_content_then_segment() {
    let nodes = mk::segments_scanner::scan_all("content\nfoo:\n\tcontent");
    assert_eq!(
        mk::graph::resolve(&nodes, &["foo"]),
        Ok("content\ncontent".to_string())
    );
}

#[test]
fn should_resolve_scanned_dependency_chain() {
    let nodes = mk::segments_scanner::scan_all("foo:\n\tfoo content\nbar: foo\n\tbar content");
    assert_eq!(
        mk::graph::resolve(&nodes, &["bar"]),
        Ok("foo content\nbar content".to_string())
    );
}
