use ogma::input::{Directive, File, FsMap, Import, Item};
use ogma::node::Node;
use ogma::partitions::Partitions;

fn mkmap(entries: Vec<(&str, Vec<Result<&str, &str>>)>) -> FsMap {
    entries
        .into_iter()
        .map(|(p, fs)| {
            let files = fs
                .into_iter()
                .map(|f| {
                    let mut file = File::empty();
                    match f {
                        Ok(x) => file.types.push((x.to_string(), Item::dummy())),
                        Err(x) => file.impls.push((x.to_string(), Item::dummy())),
                    }
                    file
                })
                .collect();
            (p.to_string(), files)
        })
        .collect()
}

fn assert_boundary(p: &Partitions, idx: usize, name: &str) {
    match p.node_weight(idx) {
        Some(Node::Boundary { name: n, .. }) => assert_eq!(n, name),
        other => panic!("expecting Boundary node at {idx}, found: {other:?}"),
    }
}

fn assert_type(p: &Partitions, idx: usize, name: &str) {
    match p.node_weight(idx) {
        Some(Node::Type { name: n, .. }) => assert_eq!(n, name),
        other => panic!("expecting Type node at {idx}, found: {other:?}"),
    }
}

fn assert_impl(p: &Partitions, idx: usize, name: &str) {
    match p.node_weight(idx) {
        Some(Node::Impl { name: n, .. }) => assert_eq!(n, name),
        other => panic!("expecting Impl node at {idx}, found: {other:?}"),
    }
}

fn assert_roots(p: &Partitions) {
    assert_boundary(p, 0, "<root>");
    assert_boundary(p, 1, "<shell>");
    assert_boundary(p, 2, "<plugins>");
}

#[test]
fn extending_partition_graph_with_fsmap() {
    let p = Partitions::new();

    assert_eq!(p.node_count(), 3);
    assert_eq!(p.edge_count(), 0);
    assert_roots(&p);

    let p = p.extend_root(FsMap::default()).unwrap();

    assert_eq!(p.node_count(), 3);
    assert_eq!(p.edge_count(), 0);
    assert_roots(&p);

    let p = p.extend_root(mkmap(vec![("foo", vec![])])).unwrap();

    assert_eq!(p.node_count(), 4);
    assert_eq!(p.edge_count(), 1);
    assert_roots(&p);
    assert_boundary(&p, 3, "foo");
    assert!(p.contains_edge(0, 3));

    let p = p
        .extend_root(mkmap(vec![("foo", vec![Ok("TypeA"), Err("impl-a")])]))
        .unwrap();

    assert_eq!(p.node_count(), 6);
    assert_eq!(p.edge_count(), 3);
    assert_roots(&p);
    assert_boundary(&p, 3, "foo");
    assert_type(&p, 4, "TypeA");
    assert_impl(&p, 5, "impl-a");
    assert!(p.contains_edge(0, 3));
    assert!(p.contains_edge(3, 4));
    assert!(p.contains_edge(3, 5));

    let p = p
        .extend_root(mkmap(vec![("foo/bar/zog", vec![Ok("TypeA"), Err("impl-a")])]))
        .unwrap();

    assert_eq!(p.node_count(), 10);
    assert_eq!(p.edge_count(), 7);
    assert_roots(&p);
    assert_boundary(&p, 3, "foo");
    assert_type(&p, 4, "TypeA");
    assert_impl(&p, 5, "impl-a");
    assert_boundary(&p, 6, "bar");
    assert_boundary(&p, 7, "zog");
    assert_type(&p, 8, "TypeA");
    assert_impl(&p, 9, "impl-a");
    assert!(p.contains_edge(0, 3));
    assert!(p.contains_edge(3, 4));
    assert!(p.contains_edge(3, 5));
    assert!(p.contains_edge(3, 6));
    assert!(p.contains_edge(6, 7));
    assert!(p.contains_edge(7, 8));
    assert!(p.contains_edge(7, 9));
}

#[test]
fn extending_fails() {
    let x = Partitions::new()
        .extend_root(mkmap(vec![("foo", vec![Ok("TypeA"), Ok("TypeA")])]))
        .unwrap_err();

    assert_eq!(
        &x.render(),
        "Definition Error: the type 'TypeA' is already defined
"
    );

    let x = Partitions::new()
        .extend_root(mkmap(vec![
            ("foo", vec![Err("impl-a")]),
            ("foo/bar", vec![Ok("TypeA")]),
        ]))
        .unwrap()
        .extend_root(mkmap(vec![("foo", vec![Err("impl-b"), Err("impl-a")])]))
        .unwrap_err();

    assert_eq!(
        &x.render(),
        "Definition Error: the impl 'impl-a' is already defined
"
    );
}

#[test]
fn valid_partition_naming() {
    // empty path does not iterate
    assert!(Partitions::new()
        .extend_root(mkmap(vec![("", vec![])]))
        .is_ok());

    let x = Partitions::new()
        .extend_root(mkmap(vec![("🌏", vec![])]))
        .unwrap_err();

    assert_eq!(
        &x.render(),
        "Definition Error: partition name '🌏' is invalid, must start with _,a-z,A-Z
"
    );

    let x = Partitions::new()
        .extend_root(mkmap(vec![(" foo", vec![])]))
        .unwrap_err();

    assert_eq!(
        &x.render(),
        "Definition Error: partition name ' foo' is invalid, must start with _,a-z,A-Z
"
    );

    let x = Partitions::new()
        .extend_root(mkmap(vec![("1234", vec![])]))
        .unwrap_err();

    assert_eq!(
        &x.render(),
        "Definition Error: partition name '1234' is invalid, must start with _,a-z,A-Z
"
    );

    let x = Partitions::new()
        .extend_root(mkmap(vec![("Hello, 🌏", vec![])]))
        .unwrap_err();

    assert_eq!(&x.render(), "Definition Error: partition name 'Hello, 🌏' is invalid, it contains a character outside of _,-,a-z,A-Z,0-9
");
}

#[test]
fn valid_names_are_accepted() {
    let p = Partitions::new()
        .extend_root(mkmap(vec![("_x-9/B2", vec![])]))
        .unwrap();
    assert_eq!(p.node_count(), 5);
    assert_eq!(p.edge_count(), 2);
    assert_boundary(&p, 3, "_x-9");
    assert_boundary(&p, 4, "B2");
}

#[test]
fn extending_twice_reuses_boundaries() {
    let p = Partitions::new()
        .extend_root(mkmap(vec![("foo/bar", vec![])]))
        .unwrap()
        .extend_root(mkmap(vec![("foo/bar", vec![Ok("TypeA")])]))
        .unwrap();
    // no duplicate `foo` or `bar` nodes are created
    assert_eq!(p.node_count(), 6);
    assert_eq!(p.edge_count(), 3);
    assert_boundary(&p, 3, "foo");
    assert_boundary(&p, 4, "bar");
    assert_type(&p, 5, "TypeA");
    assert!(p.contains_edge(4, 5));
}

#[test]
fn type_and_impl_may_share_a_name() {
    let mut file = File::empty();
    file.types.push(("same".to_string(), Item::dummy()));
    file.impls.push(("same".to_string(), Item::dummy()));
    let p = Partitions::new()
        .extend_root(vec![("foo".to_string(), vec![file])])
        .unwrap();
    assert_eq!(p.node_count(), 6);
    assert_type(&p, 4, "same");
    assert_impl(&p, 5, "same");
}

#[test]
fn find_boundary_resolves_paths() {
    let p = Partitions::new()
        .extend_root(mkmap(vec![("foo/bar/zog", vec![])]))
        .unwrap();
    let root = p.root();
    let path = vec!["foo".to_string(), "bar".to_string()];
    let b = p.find_boundary(root, &path).unwrap();
    assert_boundary(&p, b, "bar");
    // an empty path resolves to the starting node
    assert_eq!(p.find_boundary(root, &Vec::new()).unwrap(), root);
    // resolution continues from the found node
    let rest = vec!["zog".to_string()];
    let z = p.find_boundary(b, &rest).unwrap();
    assert_boundary(&p, z, "zog");
}

#[test]
fn find_boundary_suggests_siblings() {
    let p = Partitions::new()
        .extend_root(mkmap(vec![("foo", vec![]), ("fob", vec![])]))
        .unwrap();
    let path = vec!["fo".to_string()];
    let e = p.find_boundary(p.root(), &path).unwrap_err();
    assert_eq!(
        &e.render(),
        "Definition Error: fo does not match any partitions
"
    );
    let help = e.help_msg.expect("expecting a suggestion list");
    assert!(help.starts_with("Did you mean any of these? "));
    assert!(help.contains("foo") || help.contains("fob"));
}

#[test]
fn glob_find_matches_children() {
    let p = Partitions::new()
        .extend_root(mkmap(vec![
            ("foo", vec![Ok("TypeA"), Err("impl-a")]),
            ("foo/bar", vec![]),
        ]))
        .unwrap();
    let foo = p
        .find_boundary(p.root(), &vec!["foo".to_string()])
        .unwrap();

    let names = |ids: Vec<usize>| -> Vec<String> {
        ids.into_iter()
            .map(|i| p.node_weight(i).unwrap().name().clone())
            .collect()
    };

    // `*` matches every child, boundaries included, exported or not
    let all = p.glob_find(foo, "*").unwrap();
    assert_eq!(names(all), vec!["TypeA", "impl-a", "bar"]);

    // `?` and literal runs follow shell-glob rules
    let t = p.glob_find(foo, "Type?").unwrap();
    assert_eq!(names(t), vec!["TypeA"]);

    // character classes
    let c = p.glob_find(foo, "[ib]*").unwrap();
    assert_eq!(names(c), vec!["impl-a", "bar"]);

    // zero matches is not an error
    let none = p.glob_find(foo, "zz*").unwrap();
    assert!(none.is_empty());
}

#[test]
fn glob_find_rejects_bad_patterns() {
    let p = Partitions::new()
        .extend_root(mkmap(vec![("foo", vec![])]))
        .unwrap();
    let foo = p
        .find_boundary(p.root(), &vec!["foo".to_string()])
        .unwrap();

    // a malformed pattern is a fatal parse error
    let e = p.glob_find(foo, "[").unwrap_err();
    assert_eq!(&e.render(), "Parsing Error: invalid glob pattern\n");

    // an empty pattern is a fatal parse error too
    let e = p.glob_find(foo, "").unwrap_err();
    assert_eq!(&e.render(), "Parsing Error: invalid glob pattern\n");
}

#[test]
fn exports_resolve_to_direct_children() {
    let mut file = File::empty();
    file.types.push(("TypeA".to_string(), Item::dummy()));
    file.impls.push(("impl-a".to_string(), Item::dummy()));
    file.directives.push(Directive::Export(vec![
        "TypeA".to_string(),
        "impl-a".to_string(),
        "TypeA".to_string(),
    ]));
    let p = Partitions::new()
        .extend_root(vec![("foo".to_string(), vec![file])])
        .unwrap();
    let foo = p
        .find_boundary(p.root(), &vec!["foo".to_string()])
        .unwrap();
    let exports = p.node_weight(foo).unwrap().exports().unwrap();
    // sorted by identifier and deduplicated: the type (4) and the impl (5)
    assert_eq!(exports, &vec![4usize, 5usize]);
}

#[test]
fn unresolved_export_fails() {
    let mut file = File::empty();
    file.types.push(("TypeA".to_string(), Item::dummy()));
    file.directives
        .push(Directive::Export(vec!["missing".to_string()]));
    let e = Partitions::new()
        .extend_root(vec![("foo".to_string(), vec![file])])
        .unwrap_err();
    assert_eq!(
        &e.render(),
        "Definition Error: could not find export item 'missing'\n"
    );
}

#[test]
fn imports_attach_to_declared_items() {
    let mut file = File::empty();
    file.types.push(("TypeA".to_string(), Item::dummy()));
    file.impls.push(("impl-a".to_string(), Item::dummy()));
    file.directives.push(Directive::Import(vec![Import {
        path: Vec::new(),
        glob: "*".to_string(),
    }]));
    let p = Partitions::new()
        .extend_root(vec![("foo".to_string(), vec![file])])
        .unwrap();
    // both items of the file share the resolved list: every child of `foo`
    let t = p.node_weight(4).unwrap();
    assert_eq!(t.imports().unwrap(), &vec![4usize, 5usize]);
    let i = p.node_weight(5).unwrap();
    assert_eq!(i.imports().unwrap(), &vec![4usize, 5usize]);
}

#[test]
fn imports_filter_by_glob() {
    let mut file = File::empty();
    file.types.push(("TypeA".to_string(), Item::dummy()));
    file.impls.push(("impl-a".to_string(), Item::dummy()));
    file.directives.push(Directive::Import(vec![Import {
        path: Vec::new(),
        glob: "Type*".to_string(),
    }]));
    let p = Partitions::new()
        .extend_root(vec![("foo".to_string(), vec![file])])
        .unwrap();
    assert_eq!(p.node_weight(4).unwrap().imports().unwrap(), &vec![4usize]);
}

#[test]
fn import_of_unknown_boundary_fails() {
    let mut file = File::empty();
    file.types.push(("TypeA".to_string(), Item::dummy()));
    file.directives.push(Directive::Import(vec![Import {
        path: vec!["nowhere".to_string()],
        glob: "*".to_string(),
    }]));
    let e = Partitions::new()
        .extend_root(vec![("foo".to_string(), vec![file])])
        .unwrap_err();
    assert_eq!(
        &e.render(),
        "Definition Error: nowhere does not match any partitions\n"
    );
}

#[test]
fn import_with_bad_glob_fails() {
    let mut file = File::empty();
    file.types.push(("TypeA".to_string(), Item::dummy()));
    file.directives.push(Directive::Import(vec![Import {
        path: Vec::new(),
        glob: "[".to_string(),
    }]));
    let e = Partitions::new()
        .extend_root(vec![("foo".to_string(), vec![file])])
        .unwrap_err();
    assert_eq!(&e.render(), "Parsing Error: invalid glob pattern\n");
}

#[test]
fn empty_partition_name_is_invalid() {
    let e = ogma::name::is_valid_part_name("").unwrap_err();
    assert_eq!(
        &e.render(),
        "Definition Error: partition boundary names cannot be empty\n"
    );
}

#[test]
fn partition_name_validator() {
    assert!(ogma::name::is_valid_part_name("_ok-1").is_ok());
    assert!(ogma::name::is_valid_part_name("Zz9").is_ok());
    assert!(ogma::name::is_valid_part_name("-bad").is_err());
    assert!(ogma::name::is_valid_part_name("has space").is_err());
}

#[test]
fn empty_import_list_is_a_noop() {
    let mut file = File::empty();
    file.types.push(("TypeA".to_string(), Item::dummy()));
    file.directives.push(Directive::Import(vec![Import {
        path: Vec::new(),
        glob: "*".to_string(),
    }]));
    let mut p = Partitions::new()
        .extend_root(vec![("foo".to_string(), vec![file])])
        .unwrap();
    assert_eq!(p.node_weight(4).unwrap().imports().unwrap(), &vec![4usize]);
    // attaching an empty import list changes nothing
    p.add_imports(3, &Vec::new(), &vec![4]).unwrap();
    assert_eq!(p.node_weight(4).unwrap().imports().unwrap(), &vec![4usize]);
}

#[test]
fn overlong_glob_pattern_is_rejected() {
    let p = Partitions::new()
        .extend_root(mkmap(vec![("foo", vec![])]))
        .unwrap();
    let foo = p
        .find_boundary(p.root(), &vec!["foo".to_string()])
        .unwrap();
    let long = "a".repeat(1001);
    let e = p.glob_find(foo, &long).unwrap_err();
    assert_eq!(&e.render(), "Parsing Error: invalid glob pattern\n");
    // a pattern at the bound still works
    let ok = p.glob_find(foo, &"a".repeat(1000)).unwrap();
    assert!(ok.is_empty());
}
