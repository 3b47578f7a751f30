use rpmgraph::rpm::get_nvra;
use rpmgraph::rpm::rpm_output_to_deps;
use rpmgraph::rpm::RpmArch;
use rpmgraph::rpm::RPM;

#[test]
fn get_nvra_from_filename() {
    let f = "acl-2.2.51-12.el7.x86_64.rpm";
    if let Some((n, v, r, a)) = get_nvra(f) {
        assert_eq!(n, "acl");
        assert_eq!(a, "x86_64");
        assert_eq!(v, "2.2.51");
        assert_eq!(r, "12.el7");
    }

    let f = "acl-2.2.51-12.el7.x86_64";
    assert_eq!(None, get_nvra(f));

    let f = "acl-2.2.51.12.el7.x86_64.rpm";
    assert_eq!(None, get_nvra(f));

    let f = "some-other-invalid-string.rpm";
    assert_eq!(None, get_nvra(f));
}

#[test]
fn get_nvra_is_some_for_valid_filenames() {
    assert!(get_nvra("acl-2.2.51-12.el7.x86_64.rpm").is_some());
    let parsed = get_nvra("firewalld-0.4.4.4-14.el7.noarch.rpm");
    assert_eq!(
        Some((
            "firewalld".to_string(),
            "0.4.4.4".to_string(),
            "14.el7".to_string(),
            "noarch".to_string()
        )),
        parsed
    );
}

#[test]
fn get_rpm_from_filename() {
    let name = "firewalld-0.4.4.4-14.el7.noarch.rpm";
    let rpm = RPM::new(name, "").unwrap();
    assert_eq!(rpm.name, "firewalld");
    assert_eq!(rpm.version, "0.4.4.4");
    assert_eq!(rpm.release, "14.el7");
    assert_eq!(rpm.arch, RpmArch::Noarch);
    assert!(rpm.deps.is_empty());
}

#[test]
fn get_wrong_rpm_from_filename() {
    let name = "firewalld-0.4.4.4-14.el7.noarch";
    let rpm = RPM::new(name, "");
    assert_eq!(None, rpm);
}

#[test]
fn rpm_output_to_deps_vec() {
    let output = "lua-devel >= 5.1
libcap-devel
libacl-devel
xz-devel >= 4.999.8
dbus-devel
lua-devel
nspr-devel
rpmlib(FileDigests) <= 4.6.0-1
rpmlib(CompressedFileNames) <= 3.0.4-1";

    let deps = rpm_output_to_deps(output);
    assert_eq!(7, deps.len());

    let output = "lua-devel >= 5.1";
    let deps = rpm_output_to_deps(output);
    assert_eq!("lua-devel", deps[0]);
}

#[test]
fn rpm_output_keeps_identifier_tokens_only() {
    let output = "lua-devel >= 5.1
libcap-devel
libacl-devel
xz-devel >= 4.999.8
dbus-devel
lua-devel
nspr-devel
rpmlib(FileDigests) <= 4.6.0-1
rpmlib(CompressedFileNames) <= 3.0.4-1";

    let deps = rpm_output_to_deps(output);
    let expected = vec![
        "lua-devel",
        "libcap-devel",
        "libacl-devel",
        "xz-devel",
        "dbus-devel",
        "lua-devel",
        "nspr-devel",
    ];
    assert_eq!(expected, deps);
}

#[test]
fn rpm_output_blank_lines_yield_nothing() {
    assert!(rpm_output_to_deps("").is_empty());
    assert!(rpm_output_to_deps("\n\n").is_empty());
    let deps = rpm_output_to_deps("lua-devel >= 5.1\n");
    assert_eq!(vec!["lua-devel"], deps);
    let deps = rpm_output_to_deps("a\n\nb\n");
    assert_eq!(vec!["a", "b"], deps);
}

#[test]
fn rpm_output_rpmlib_lines_excluded() {
    assert!(rpm_output_to_deps("rpmlib(FileDigests) <= 4.6.0-1").is_empty());
    let deps = rpm_output_to_deps("rpmlib(X) <= 1\nzlib-devel\n");
    assert_eq!(vec!["zlib-devel"], deps);
}

#[test]
fn rpm_new_parses_src_architecture() {
    let rpm = RPM::new("acl-2.2.51-12.el7.src.rpm", "gawk\nlibattr-devel\n").unwrap();
    assert_eq!(rpm.name, "acl");
    assert_eq!(rpm.version, "2.2.51");
    assert_eq!(rpm.release, "12.el7");
    assert_eq!(rpm.arch, RpmArch::Src);
    assert_eq!(vec!["gawk", "libattr-devel"], rpm.deps);
}

#[test]
fn rpm_new_rejects_empty_components() {
    assert_eq!(None, RPM::new("-1-2.src.rpm", ""));
    assert_eq!(None, RPM::new("a--2.src.rpm", ""));
    assert_eq!(None, RPM::new("a-1-.src.rpm", ""));
    assert_eq!(None, RPM::new(".rpm", ""));
    assert_eq!(None, RPM::new("", ""));
}
