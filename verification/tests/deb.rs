use sigma_updates::control::DebControl;
use sigma_updates::depends::{
    parse_depends_field, satisfies, DependencyClause, DependencyExpr, PackageRef, VersionConstraint,
};

#[test]
fn parses_control_with_depends() {
    let text = "\
Package: sigma-updates-depdemo
Version: 0.1.0-1
Architecture: all
Depends: sigma-updates-sample (>= 0.1.0)
Description: Demo package
 more text
";
    let c = DebControl::parse(text).unwrap();
    assert_eq!(c.package, "sigma-updates-depdemo");
    assert_eq!(c.depends.len(), 1);
    assert_eq!(
        c.depends[0].alternatives[0].package.name,
        "sigma-updates-sample"
    );
}

#[test]
fn parses_or_and_version() {
    let exprs = parse_depends_field("foo (>= 1.0) | bar, baz");
    assert_eq!(exprs.len(), 2);
    assert_eq!(exprs[0].alternatives.len(), 2);
    assert!(exprs[0].is_satisfied_by(&[("foo", "1.2")]));
    assert!(!exprs[0].is_satisfied_by(&[("foo", "0.9")]));
    assert!(exprs[0].is_satisfied_by(&[("bar", "1")]));
}

#[test]
fn displays_debian_control_syntax() {
    let exprs = parse_depends_field("foo (>= 1.0) | bar, baz");
    assert_eq!(exprs[0].to_string(), "foo (>= 1.0) | bar");
    assert_eq!(exprs[1].to_string(), "baz");
}

#[test]
fn control_keeps_description_first_line_and_pre_depends() {
    let text = "Package: a\nVersion: 2.0\nArchitecture: arm64\nPre-Depends: libc6 (>= 2.31)\nDepends: b, c (>> 3)\nProvides: virt\nDescription: Short line\n more\n";
    let c = DebControl::parse(text).unwrap();
    assert_eq!(c.version, "2.0");
    assert_eq!(c.architecture, "arm64");
    assert_eq!(c.pre_depends.len(), 1);
    assert_eq!(c.depends.len(), 2);
    assert_eq!(c.provides.len(), 1);
    assert_eq!(c.provides[0].name, "virt");
    assert_eq!(c.description.as_deref(), Some("Short line"));
    let all = c.all_depends();
    assert_eq!(all.len(), 3);
    assert_eq!(all[0].to_string(), "libc6 (>= 2.31)");
    assert_eq!(all[2].to_string(), "c (>> 3)");
}

#[test]
fn control_without_package_is_an_error() {
    assert!(DebControl::parse("Version: 1.0\n").is_err());
}

#[test]
fn debian_versions_compare_numerically() {
    // 1.10 sorts after 1.9 in Debian order, though not as text.
    let ge = VersionConstraint::Ge("1.9".to_string());
    assert!(ge.matches("1.10"));
    assert!(!ge.matches("1.8"));
    let lt = VersionConstraint::Lt("1.10".to_string());
    assert!(lt.matches("1.9"));
    assert!(!lt.matches("1.10"));
    let eq = VersionConstraint::Eq("1:2.0-1".to_string());
    assert!(eq.matches("1:2.0-1"));
    assert!(!eq.matches("2.0-1"));
}

#[test]
fn constraint_relations_are_complementary() {
    let v = "2.0";
    for x in ["1.0", "2.0", "3.0~rc1", "10"] {
        let lt = VersionConstraint::Lt(v.to_string()).matches(x);
        let ge = VersionConstraint::Ge(v.to_string()).matches(x);
        assert_ne!(lt, ge);
        let gt = VersionConstraint::Gt(v.to_string()).matches(x);
        let le = VersionConstraint::Le(v.to_string()).matches(x);
        assert_ne!(gt, le);
    }
}

#[test]
fn op_version_names_the_relation() {
    let c = VersionConstraint::Ge("1.0".to_string());
    assert_eq!(c.op_version(), Some((">=", "1.0")));
    assert_eq!(VersionConstraint::Any.op_version(), None);
}

#[test]
fn satisfies_reports_the_unsatisfied_expressions() {
    let exprs = parse_depends_field("foo (>= 1.0), bar, baz | qux");
    assert!(satisfies(&exprs, &[("foo", "1.0"), ("bar", "1"), ("qux", "9")]).is_ok());
    let unsat = satisfies(&exprs, &[("foo", "0.5"), ("qux", "1")]).unwrap_err();
    assert_eq!(unsat.len(), 2);
    assert_eq!(unsat[0].to_string(), "foo (>= 1.0)");
    assert_eq!(unsat[1].to_string(), "bar");
}

#[test]
fn build_profiles_are_dropped_but_relations_kept() {
    // A `<` outside the parentheses starts a build profile; inside them it
    // belongs to the relation.
    let exprs = parse_depends_field("c (<< 3), d <!nocheck>, e [amd64], f (>= 1) <!nocheck>");
    assert_eq!(exprs.len(), 4);
    assert_eq!(exprs[0].to_string(), "c (<< 3)");
    assert_eq!(exprs[1].to_string(), "d");
    assert_eq!(exprs[2].to_string(), "e");
    assert_eq!(exprs[3].to_string(), "f (>= 1)");
}

#[test]
fn parses_strict_less_and_less_or_equal() {
    let exprs = parse_depends_field("foo (<< 2.0) | bar (<= 1.5)");
    let expected = vec![DependencyExpr {
        alternatives: vec![
            DependencyClause {
                package: PackageRef::new("foo"),
                constraint: VersionConstraint::Lt("2.0".into()),
            },
            DependencyClause {
                package: PackageRef::new("bar"),
                constraint: VersionConstraint::Le("1.5".into()),
            },
        ],
    }];
    assert_eq!(exprs, expected);
    assert_eq!(exprs[0].to_string(), "foo (<< 2.0) | bar (<= 1.5)");
    let again = parse_depends_field(&exprs[0].to_string());
    assert_eq!(again, exprs);
}

#[test]
fn written_expressions_parse_back_to_themselves() {
    let exprs = parse_depends_field("foo (>= 1.0) | bar:any, baz (= 2:1.0-1) | qux (>> 3), x (!= 1) ");
    assert_eq!(exprs.len(), 3);
    for e in &exprs {
        let again = parse_depends_field(&e.to_string());
        assert_eq!(again.len(), 1);
        assert_eq!(&again[0], e);
    }
    assert_eq!(exprs[0].to_string(), "foo (>= 1.0) | bar");
}

#[test]
fn more_available_packages_never_add_a_missing_dependency() {
    let exprs = parse_depends_field("foo (>= 1.0), bar, baz | qux");
    let fewer = [("foo", "1.0")];
    let more = [("foo", "1.0"), ("qux", "2")];
    let m1 = satisfies(&exprs, &fewer).unwrap_err();
    let m2 = satisfies(&exprs, &more).unwrap_err();
    assert_eq!(m1.len(), 2);
    assert_eq!(m2.len(), 1);
    assert_eq!(m2[0], m1[0]);
    assert!(satisfies(&exprs, &[("foo", "1.0"), ("bar", "1"), ("qux", "1")]).is_ok());
    assert!(satisfies(&exprs, &[("foo", "1.0"), ("bar", "1"), ("qux", "1"), ("z", "0")]).is_ok());
}

#[test]
fn versions_debversion_refuses_match_nothing() {
    let ge = VersionConstraint::Ge("1.0".into());
    assert!(ge.matches("2:0.1"));
    assert!(!ge.matches("99999999999:1.0"));
    assert!(!ge.matches("1.0 beta"));
    assert!(!ge.matches(""));
    assert!(VersionConstraint::Lt("2.0".into()).matches("1.9~rc1"));
    assert!(VersionConstraint::Le("1.5".into()).matches("1.5"));
    assert!(VersionConstraint::Any.matches("anything at all"));
}
