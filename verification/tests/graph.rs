use rpmgraph::graph::DepGraph;
use rpmgraph::rpm::RpmArch;
use rpmgraph::rpm::RPM;

fn descriptor(name: &str, deps: &[&str]) -> RPM {
    RPM {
        name: name.to_string(),
        version: "1.0".to_string(),
        release: "1.el7".to_string(),
        arch: RpmArch::Src,
        deps: deps.iter().map(|d| d.to_string()).collect(),
    }
}

#[test]
fn empty_graph_has_nothing() {
    let g = DepGraph::new();
    assert_eq!(0, g.total_pairs());
    assert!(g.get("glibc").is_none());
}

#[test]
fn record_creates_and_appends_entries() {
    let mut g = DepGraph::new();
    g.record(&descriptor("acl", &["gawk", "libattr-devel"]));
    g.record(&descriptor("firewalld", &["gawk"]));

    let gawk = g.get("gawk").unwrap();
    assert_eq!(2, gawk.len());
    assert!(gawk.iter().any(|p| p == "acl"));
    assert!(gawk.iter().any(|p| p == "firewalld"));

    let attr = g.get("libattr-devel").unwrap();
    assert_eq!(1, attr.len());
    assert!(attr.iter().any(|p| p == "acl"));

    assert!(g.get("missing").is_none());
}

#[test]
fn duplicate_dependencies_are_kept() {
    let mut g = DepGraph::new();
    g.record(&descriptor("firewalld", &["lua-devel", "lua-devel"]));
    assert_eq!(2, g.total_pairs());
    let lua = g.get("lua-devel").unwrap();
    assert_eq!(2, lua.len());
}

#[test]
fn aggregate_total_is_sum_of_dependency_counts() {
    let rpms = vec![
        descriptor("acl", &["gawk", "libattr-devel", "perl"]),
        descriptor("firewalld", &["gawk"]),
        descriptor("lua", &[]),
        descriptor("xz", &["perl", "gawk"]),
    ];
    let g = DepGraph::aggregate(&rpms);
    assert_eq!(3 + 1 + 0 + 2, g.total_pairs());

    let rpms_reordered = vec![
        descriptor("xz", &["perl", "gawk"]),
        descriptor("lua", &[]),
        descriptor("firewalld", &["gawk"]),
        descriptor("acl", &["gawk", "libattr-devel", "perl"]),
    ];
    let h = DepGraph::aggregate(&rpms_reordered);
    assert_eq!(g.total_pairs(), h.total_pairs());

    let gawk = g.get("gawk").unwrap();
    assert_eq!(3, gawk.len());
    for p in ["acl", "firewalld", "xz"] {
        assert!(gawk.iter().any(|q| q == p));
        assert!(h.get("gawk").unwrap().iter().any(|q| q == p));
    }
}

#[test]
fn aggregate_of_nothing_is_empty() {
    let rpms: Vec<RPM> = Vec::new();
    let g = DepGraph::aggregate(&rpms);
    assert_eq!(0, g.total_pairs());
}
