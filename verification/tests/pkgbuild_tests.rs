use rranch::envelope::Response;
use rranch::json::JsonValue;
use rranch::pkgbuild::{create_template, join_lines, PackageBuild, PKGBuild, RecipeError};

fn sample() -> PackageBuild {
    let mut pb = PackageBuild::new();
    pb.name = "thunar".to_string();
    pb.version = "4.18.0".to_string();
    pb.real_version = "1".to_string();
    pb.description = "File manager".to_string();
    pb.source = "https://example.invalid/thunar.tar.xz".to_string();
    pb.dependencies = vec!["gtk3".to_string(), "glib".to_string()];
    pb.build_dependencies = vec!["make".to_string()];
    pb.cross_dependencies = vec!["cross-gcc".to_string()];
    pb.extra_sources = vec!["patch-1".to_string()];
    pb.build_script = vec![
        "cd $PKG_NAME-$PKG_VERSION".to_string(),
        "".to_string(),
        "make install".to_string(),
    ];
    pb
}

fn assert_same(a: &PackageBuild, b: &PackageBuild) {
    assert_eq!(a.name, b.name);
    assert_eq!(a.version, b.version);
    assert_eq!(a.real_version, b.real_version);
    assert_eq!(a.description, b.description);
    assert_eq!(a.source, b.source);
    assert_eq!(a.dependencies, b.dependencies);
    assert_eq!(a.build_dependencies, b.build_dependencies);
    assert_eq!(a.cross_dependencies, b.cross_dependencies);
    assert_eq!(a.extra_sources, b.extra_sources);
    assert_eq!(a.build_script, b.build_script);
}

#[test]
fn serialized_recipes_read_back_field_for_field() {
    let pb = sample();
    let text = join_lines(&pb.to_vec());
    let back = PackageBuild::from_str(&text).unwrap();
    assert_same(&pb, &back);
}

#[test]
fn serialization_emits_mandatory_keys_and_omits_empty_ones() {
    let pb = PackageBuild::new();
    let lines = pb.to_vec();
    assert_eq!(
        lines,
        vec![
            "name=".to_string(),
            "version=".to_string(),
            "real_version=0".to_string(),
            "build={\n}".to_string(),
        ]
    );
    let mut pb = PackageBuild::new();
    pb.name = "acl".to_string();
    pb.version = "2".to_string();
    pb.source = "src".to_string();
    pb.build_dependencies = vec!["make".to_string()];
    assert_eq!(
        pb.to_vec(),
        vec![
            "name=acl".to_string(),
            "version=2".to_string(),
            "real_version=0".to_string(),
            "source=src".to_string(),
            "builddeps=[make]".to_string(),
            "build={\n}".to_string(),
        ]
    );
}

#[test]
fn omitted_fields_read_back_empty() {
    let mut pb = PackageBuild::new();
    pb.name = "acl".to_string();
    pb.version = "2".to_string();
    pb.real_version = "1".to_string();
    let back = PackageBuild::from_str(&join_lines(&pb.to_vec())).unwrap();
    assert_same(&pb, &back);
    assert_eq!(back.description, "");
    assert!(back.dependencies.is_empty());
}

#[test]
fn empty_group_and_absent_key_both_read_as_the_empty_list() {
    let explicit = PackageBuild::from_str("dependencies=[]").unwrap();
    assert!(explicit.dependencies.is_empty());
    let absent = PackageBuild::from_str("name=x").unwrap();
    assert!(absent.dependencies.is_empty());
}

#[test]
fn bracket_groups_split_and_drop_empty_parts() {
    let pb = PackageBuild::from_str("dependencies=[a][b][c]").unwrap();
    assert_eq!(pb.dependencies, vec!["a".to_string(), "b".to_string(), "c".to_string()]);
    let pb = PackageBuild::from_str("dependencies=[][x][]").unwrap();
    assert_eq!(pb.dependencies, vec!["x".to_string()]);
}

fn expect_err(text: &str) -> RecipeError {
    match PackageBuild::from_str(text) {
        Ok(_) => panic!("expected the recipe to be rejected"),
        Err(e) => e,
    }
}

#[test]
fn a_line_without_a_separator_fails_with_its_line_index() {
    assert_eq!(expect_err("foo"), RecipeError::InvalidSyntax(0));
    assert_eq!(expect_err("name=a\nfoo\nversion=1"), RecipeError::InvalidSyntax(1));
}

#[test]
fn blank_lines_and_unknown_keys_are_skipped() {
    let pb = PackageBuild::from_str("name=a\n\nwhatever=1\nversion=2").unwrap();
    assert_eq!(pb.name, "a");
    assert_eq!(pb.version, "2");
}

#[test]
fn the_build_block_collects_lines_until_the_brace() {
    let pb = PackageBuild::from_str("name=a\nbuild={\nstep one\n\nstep two\n}\nversion=9")
        .unwrap();
    assert_eq!(
        pb.build_script,
        vec!["step one".to_string(), "".to_string(), "step two".to_string()]
    );
    assert_eq!(pb.version, "9");
}

#[test]
fn values_keep_their_equals_signs() {
    let pb = PackageBuild::from_str("source=https://x/?a=b").unwrap();
    assert_eq!(pb.source, "https://x/?a=b");
}

#[test]
fn checkout_payload_reaches_the_workdir_file_and_back() {
    let text = "{\"statuscode\":200,\"payload\":{\"name\":\"thunar\",\"version\":\"4.18.0\",\"real_version\":\"1\",\"source\":\"...\",\"dependencies\":[\"gtk3\"],\"build_dependencies\":[],\"cross_dependencies\":[],\"extra_sources\":[],\"description\":\"File manager\",\"build_script\":[\"make\",\"make install\"]}}";
    let resp = Response::parse(text).unwrap();
    let payload = resp.into_result().unwrap();
    let pb = PackageBuild::from_json(&payload).unwrap();
    assert_eq!(pb.name, "thunar");
    assert_eq!(pb.dependencies, vec!["gtk3".to_string()]);
    // the file written into the working directory reads back equal
    let file_content = join_lines(&pb.to_vec());
    let back = PackageBuild::from_str(&file_content).unwrap();
    assert_same(&pb, &back);
}

#[test]
fn recipes_submit_as_the_same_document_shape_they_arrive_in() {
    let pb = sample();
    let v = pb.to_json();
    let back = PackageBuild::from_json(&v).unwrap();
    assert_same(&sample(), &back);
}

#[test]
fn the_template_recipe_writes_the_expected_file() {
    let content = create_template();
    assert_eq!(
        content,
        "name=template\nversion=0\nreal_version=0\nextra_sources=[]\ndependencies=[]\nbuilddeps=[]\ncrossdeps=[]\nbuild={\ncd $PKG_NAME-$PKG_VERSION\nmake DESTDIR=$PKG_INSTALL_DIR install\n}"
    );
}

#[test]
fn the_template_record_exposes_its_parts() {
    let t = PKGBuild::new_template();
    assert_eq!(t.get_name(), "template");
    assert_eq!(t.get_dependencies(), vec!["".to_string()]);
    assert_eq!(t.get_build_dependencies(), vec!["".to_string()]);
    assert_eq!(t.get_cross_dependencies(), vec!["".to_string()]);
}

#[test]
fn locally_authored_recipes_leave_empty_fields_out() {
    let t = PKGBuild::new_template();
    let lines = t.to_pkgbuild();
    assert_eq!(lines[0], "name=template");
    assert_eq!(lines[1], "version=0");
    assert_eq!(lines[2], "real_version=0");
    assert_eq!(lines[3], "extra_sources=[]");
    assert_eq!(lines[4], "dependencies=[]");
    assert_eq!(lines[5], "builddeps=[]");
    assert_eq!(lines[6], "crossdeps=[]");
    assert_eq!(
        lines[7],
        "build={\ncd $PKG_NAME-$PKG_VERSION\nmake DESTDIR=$PKG_INSTALL_DIR install\n}"
    );
    assert_eq!(lines.len(), 8);
}

#[test]
fn windows_line_endings_are_tolerated() {
    let pb = PackageBuild::from_str("name=a\r\nversion=2\r\n").unwrap();
    assert_eq!(pb.name, "a");
    assert_eq!(pb.version, "2");
}

#[test]
fn checkout_responses_missing_fields_are_rejected() {
    let v = JsonValue::parse("{\"name\":\"a\"}").unwrap();
    assert!(PackageBuild::from_json(&v).is_none());
}

#[test]
fn empty_text_reads_as_an_empty_record() {
    let pb = PackageBuild::from_str("").unwrap();
    assert_eq!(pb.name, "");
    assert_eq!(pb.real_version, "");
    assert!(pb.build_script.is_empty());
}

#[test]
fn stray_brackets_are_trimmed_from_items() {
    let pb = PackageBuild::from_str("dependencies=[a]][b]").unwrap();
    assert_eq!(pb.dependencies, vec!["a".to_string(), "b".to_string()]);
}
