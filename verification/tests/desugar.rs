use mk::groups::Position;

#[test]
fn should_desugar_content() {
    assert_eq!(
        mk::glob_pattern::desugar("f/check:\nf/build:\nbuild: f/*"),
        "f/check:\nf/build:\nbuild: f/build f/check\n"
    );
}

#[test]
fn groups_should_find_group_start() {
    assert_eq!(
        mk::groups::find_group_start("group/:"),
        Some(Position { start: 0, length: 6 })
    );
    assert_eq!(
        mk::groups::find_group_start("skip\ngroup/:"),
        Some(Position { start: 5, length: 6 })
    );
    assert_eq!(
        mk::groups::find_group_start("skip: this\n\tcontent\ngroup/:"),
        Some(Position { start: 20, length: 6 })
    );
    assert_eq!(
        mk::groups::find_group_start("\ngroup/:"),
        Some(Position { start: 1, length: 6 })
    );
}

#[test]
fn groups_should_not_find_group_start() {
    assert_eq!(mk::groups::find_group_start("segment:"), None);
    assert_eq!(mk::groups::find_group_start("not/group:"), None);
    assert_eq!(mk::groups::find_group_start("invalid/\n"), None);
}

#[test]
fn groups_should_desugar_empty_group() {
    assert_eq!(
        mk::groups::desugar("group/: dep /root-dep"),
        "group: dep root-dep"
    )
}

#[test]
fn should_desugar_simple_group() {
    assert_eq!(mk::groups::desugar("group/:\n\tcontent"), "group:\n\tcontent")
}

#[test]
fn should_desugar_group() {
    assert_eq!(
        mk::groups::desugar(
            "\ngroup/:\n    pushd folder\n    \n    bar: /foo\n        bar content\n        \n    baz: bar\n        baz content\n        \n    popd"
        ),
        "\ngroup:\n    pushd folder\n    \ngroup/bar: group foo\n    bar content\n    \ngroup/baz: group group/bar\n    baz content\n    \ngroup:\n    popd"
    )
}

#[test]
fn should_preserve_newlines_between_group_segments() {
    assert_eq!(
        mk::groups::desugar(
            "# Artifacts
a/:
  go/:
    pushd packages/testing-go/go
    build:
      GOOS=js GOARCH=wasm go build -o ../public/compiler.wasm cmd/compiler/main.go
    popd
  build: go/build
"
        ),
        "# Artifacts
a/go: a
  pushd packages/testing-go/go
a/go/build: a a/go
  GOOS=js GOARCH=wasm go build -o ../public/compiler.wasm cmd/compiler/main.go
a/go: a
  popd
a/build: a a/go/build
"
    );
}

#[test]
fn groups_desugarer_should_find_group_start() {
    assert_eq!(mk::groups_desugarer::find_group_start("group/:", 0), Some((0, 6)));
    assert_eq!(mk::groups_desugarer::find_group_start("skip\ngroup/:", 0), Some((5, 6)));
    assert_eq!(
        mk::groups_desugarer::find_group_start("skip: this\n\tcontent\ngroup/:", 0),
        Some((20, 6))
    );
    assert_eq!(mk::groups_desugarer::find_group_start("  group/:", 2), Some((0, 8)));
}

#[test]
fn groups_desugarer_should_not_find_group_start() {
    assert_eq!(mk::groups_desugarer::find_group_start("segment:", 0), None);
    assert_eq!(mk::groups_desugarer::find_group_start("not/group:", 0), None);
    assert_eq!(mk::groups_desugarer::find_group_start("invalid/\n", 0), None);
}

#[test]
fn groups_desugarer_should_desugar_empty_group() {
    assert_eq!(
        mk::groups_desugarer::desugar("group/: dep /root-dep"),
        "group: dep root-dep"
    )
}

#[test]
fn should_compose_both_desugar_passes() {
    assert_eq!(
        mk::syntax::desugar("g/:\n\ta: x\n\t\ta body\nbuild: g/*"),
        "g/a: g g/x\n\ta body\nbuild: g/a\n"
    );
}

#[test]
fn should_keep_noncompiling_pattern_verbatim() {
    assert_eq!(
        mk::glob_pattern::desugar("foo:\nbar: fo[o\n"),
        "foo:\nbar: fo[o\n"
    );
}

#[test]
fn should_drop_pattern_without_matches() {
    assert_eq!(
        mk::glob_pattern::desugar("foo:\nbar: z*\n"),
        "foo:\nbar:\n"
    );
}

#[test]
fn should_desugar_plain_document_idempotently() {
    let once = mk::syntax::desugar("foo:\n\tx\nbar: foo\n\ty\n");
    assert_eq!(mk::syntax::desugar(once.as_str()), once);
}

#[test]
fn should_strip_one_trailing_slash_of_group_name() {
    // a group named with a doubled slash keeps one: the flattened segment
    // is named `a/`
    assert_eq!(mk::groups::desugar("a//:\n\tx\n"), "a/:\n\tx");
}
