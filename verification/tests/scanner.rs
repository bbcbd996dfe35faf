use mk::chars::find_new_line_index;
use mk::node::Node;
use mk::segments_scanner::SegmentsScanner;
use mk::segments_scanner::StateKind;

fn collect<'a>(mut scanner: SegmentsScanner<'a>) -> Vec<Node<'a>> {
    let mut nodes = Vec::new();
    while let Some(node) = scanner.next() {
        nodes.push(node);
    }
    nodes
}

#[test]
fn should_find_new_line() {
    assert_eq!(find_new_line_index("\ncontent"), Some(0));
}

#[test]
fn should_parse_simple_dependencies() {
    let mut scanner = SegmentsScanner::new("bar");
    let deps = scanner.dependencies();
    assert_eq!(deps, vec!["bar"]);
}

#[test]
fn should_parse_multiple_dependencies() {
    let mut scanner = SegmentsScanner::new("foo  bar    baz");
    let deps = scanner.dependencies();
    assert_eq!(deps, vec!["foo", "bar", "baz"]);
}

#[test]
fn should_parse_segments_till_newline() {
    let mut scanner = SegmentsScanner::new("foo\tbar\nbaz");
    let deps = scanner.dependencies();
    assert_eq!(deps, vec!["foo", "bar"]);
}

#[test]
fn should_start_simple_segment() {
    let mut scanner = SegmentsScanner::new("foo:");
    assert_eq!(scanner.start_segment(), true);
    assert_eq!(scanner.state.kind, StateKind::SegmentStarts);
    assert_eq!(scanner.state.segment, "foo");
    assert_eq!(scanner.state.dependencies.len(), 0);
}

#[test]
fn should_start_segment_with_dependencies() {
    let mut scanner = SegmentsScanner::new("foo: bar\nbaz");
    assert_eq!(scanner.start_segment(), true);
    assert_eq!(scanner.state.kind, StateKind::SegmentStarts);
    assert_eq!(scanner.state.segment, "foo");
    let deps = &scanner.state.dependencies;
    assert!(deps.len() == 1 && deps.contains(&"bar"));
}

#[test]
fn should_detect_indentation() {
    let mut scanner = SegmentsScanner::new("  content");
    assert_eq!(scanner.continue_segment(), true);
    assert_eq!(scanner.segment_indentation, "  ");
}

#[test]
fn should_ignore_whitespace_tail() {
    let mut scanner = SegmentsScanner::new("\t\t  \t\t");
    assert_eq!(scanner.continue_segment(), false);
}

#[test]
fn should_emit_simple_content() {
    let scanner = SegmentsScanner::new("content");
    assert!(collect(scanner) == vec![Node::Content("content")]);
}

#[test]
fn should_emit_simple_segment() {
    let scanner = SegmentsScanner::new("foo:\n\tcontent");
    assert!(
        collect(scanner)
            == vec![Node::Segment {
                name: "foo",
                content: "\tcontent",
                dependencies: Vec::new(),
                indentation: "\t",
            }]
    );
}

#[test]
fn should_emit_empty_content() {
    let scanner = SegmentsScanner::new("");
    assert!(collect(scanner) == vec![Node::Content("")]);
}

#[test]
fn should_emit_simple_content_and_segment() {
    let scanner = SegmentsScanner::new("content\nfoo:\n\tcontent");
    let collected = collect(scanner);
    assert!(
        collected
            == vec![
                Node::Content("content\n"),
                Node::Segment {
                    name: "foo",
                    content: "\tcontent",
                    dependencies: Vec::new(),
                    indentation: "\t",
                }
            ]
    );
}

#[test]
fn should_emit_content_and_segments() {
    let scanner = SegmentsScanner::new("content\nfoo:\n\tfoo 1\n\tfoo 2\ncommon");
    let collected = collect(scanner);
    println!("{:?}", collected);
    assert!(
        collected
            == vec![
                Node::Content("content\n"),
                Node::Segment {
                    name: "foo",
                    content: "\tfoo 1\n\tfoo 2\n",
                    dependencies: Vec::new(),
                    indentation: "\t",
                },
                Node::Content("common")
            ]
    );
}

#[test]
fn should_emit_empty_segment() {
    let scanner = SegmentsScanner::new("common\nfoo:\nbar:\nbaz");
    assert!(
        collect(scanner)
            == vec![
                Node::Content("common\n"),
                Node::Segment {
                    name: "foo",
                    content: "",
                    dependencies: Vec::new(),
                    indentation: "",
                },
                Node::Segment {
                    name: "bar",
                    content: "",
                    dependencies: Vec::new(),
                    indentation: "",
                },
                Node::Content("baz")
            ]
    );
}

#[test]
fn should_emit_multiple_segments() {
    let scanner = SegmentsScanner::new("common\nfoo:\n\tfoo content\nbar:\n\tbar content\ncommon");
    assert!(
        collect(scanner)
            == vec![
                Node::Content("common\n"),
                Node::Segment {
                    name: "foo",
                    content: "\tfoo content\n",
                    dependencies: Vec::new(),
                    indentation: "\t",
                },
                Node::Segment {
                    name: "bar",
                    content: "\tbar content\n",
                    dependencies: Vec::new(),
                    indentation: "\t",
                },
                Node::Content("common")
            ]
    );
}

#[test]
fn should_emit_multiple_segments2() {
    let scanner = SegmentsScanner::new(
        "pushd folder\n\nbar: /foo\n    bar content\n    \nbaz: bar\n    baz content\n    \npopd",
    );
    assert!(
        collect(scanner)
            == vec![
                Node::Content("pushd folder\n\n"),
                Node::Segment {
                    name: "bar",
                    content: "    bar content\n    \n",
                    dependencies: vec!["/foo"],
                    indentation: "    ",
                },
                Node::Segment {
                    name: "baz",
                    content: "    baz content\n    \n",
                    dependencies: vec!["bar"],
                    indentation: "    ",
                },
                Node::Content("popd")
            ]
    )
}

#[test]
fn should_skip_line_with_nonalphabetic_start() {
    let scanner = SegmentsScanner::new("9foo:\nbar:\n\tx");
    let nodes = collect(scanner);
    assert!(
        nodes
            == vec![
                Node::Content("9foo:\n"),
                Node::Segment {
                    name: "bar",
                    content: "\tx",
                    dependencies: Vec::new(),
                    indentation: "\t",
                }
            ]
    );
}

#[test]
fn should_emit_trailing_segment_after_content() {
    let scanner = SegmentsScanner::new("content\nfoo:");
    let nodes = collect(scanner);
    assert!(
        nodes
            == vec![
                Node::Content("content\n"),
                Node::Segment {
                    name: "foo",
                    content: "",
                    dependencies: Vec::new(),
                    indentation: "",
                }
            ]
    );
}

#[test]
fn should_describe_segment_body() {
    let node = Node::Segment {
        name: "foo",
        content: "\t# builds the thing\n\t#and more\n\techo hi\n",
        dependencies: Vec::new(),
        indentation: "\t",
    };
    let description = node.description();
    assert_eq!(
        description,
        Some(vec![" builds the thing", "and more"])
    );
}

#[test]
fn should_describe_nothing_for_content() {
    let node = Node::Content("# a comment\n");
    assert_eq!(node.description(), None);
}

#[test]
fn should_scan_unicode_segment_name() {
    let nodes = mk::segments_scanner::scan_all("héllo:\n\tx");
    assert!(
        nodes
            == vec![Node::Segment {
                name: "héllo",
                content: "\tx",
                dependencies: Vec::new(),
                indentation: "\t",
            }]
    );
}
