use pkgbuild::PkgBuild;

#[test]
fn pkgname() {
    let input = "pkgname=foo\n";
    let expected = vec!["foo"];
    let (input, pkgname) = PkgBuild::parse_pkgname(input).unwrap();
    assert_eq!(input, "");
    assert_eq!(pkgname, expected);
}

#[test]
fn pkgname_quoted() {
    let input = "pkgname='foo'\n";
    let expected = vec!["foo"];
    let (input, pkgname) = PkgBuild::parse_pkgname(input).unwrap();
    assert_eq!(input, "");
    assert_eq!(pkgname, expected);
}

#[test]
fn pkgname_multi() {
    let input = "pkgname=(foo bar)\n";
    let expected = vec!["foo", "bar"];
    let (input, pkgname) = PkgBuild::parse_pkgname(input).unwrap();
    assert_eq!(input, "");
    assert_eq!(pkgname, expected);
}

#[test]
fn pkgname_multi_quoted() {
    let input = "pkgname=('foo' 'bar')\n";
    let expected = vec!["foo", "bar"];
    let (input, pkgname) = PkgBuild::parse_pkgname(input).unwrap();
    assert_eq!(input, "");
    assert_eq!(pkgname, expected);
}

#[test]
fn pkgver() {
    let input = "pkgver=1.0\n";
    let expected = "1.0";
    let (input, pkgver) = PkgBuild::parse_pkgver(input).unwrap();
    assert_eq!(input, "");
    assert_eq!(pkgver, expected);
}

#[test]
fn pkgrel() {
    let input = "pkgrel=1\n";
    let expected = "1";
    let (input, pkgrel) = PkgBuild::parse_pkgrel(input).unwrap();
    assert_eq!(input, "");
    assert_eq!(pkgrel, expected);
}

#[test]
fn arch() {
    let input = "arch=('i686' 'x86_64')\n";
    let expected = vec!["i686".to_string(), "x86_64".to_string()];
    let (input, arch) = PkgBuild::parse_arch(input).unwrap();
    assert_eq!(input, "");
    assert_eq!(arch, expected);
}

#[test]
fn pkgbuild() {
    let input = "pkgname=foo\npkgver=1.0\npkgrel=1\narch=('i686' 'x86_64')\n";
    let (input, pkgbuild) = PkgBuild::parse(input).unwrap();
    assert_eq!(input, "");
    assert_eq!(pkgbuild.pkgname(), &vec!["foo".to_string()]);
    assert_eq!(pkgbuild.pkgver(), "1.0");
    assert_eq!(pkgbuild.pkgrel(), "1");
    assert_eq!(pkgbuild.arch(), &vec!["i686".to_string(), "x86_64".to_string()]);
}

#[test]
fn fields_in_any_order() {
    let input = "arch=('any')\npkgrel=2\npkgname=(a 'b')\npkgver = 3 \nrest";
    let (rest, p) = PkgBuild::parse(input).unwrap();
    assert_eq!(rest, "rest");
    assert_eq!(p.pkgname(), &vec!["a".to_string(), "b".to_string()]);
    assert_eq!(p.pkgver(), "3 ");
    assert_eq!(p.pkgrel(), "2");
    assert_eq!(p.arch(), &vec!["any".to_string()]);
}

#[test]
fn missing_or_repeated_field_fails() {
    assert!(PkgBuild::parse("pkgname=foo\npkgver=1.0\npkgrel=1\n").is_none());
    assert!(PkgBuild::parse("pkgname=foo\npkgname=bar\npkgver=1\npkgrel=1\narch=('x')\n").is_none());
}

#[test]
fn field_value_runs_to_line_break() {
    let (rest, v) = PkgBuild::parse_pkgver("pkgver\t=\t'1.0' # x\nnext").unwrap();
    assert_eq!(v, "'1.0' # x");
    assert_eq!(rest, "next");
    assert!(PkgBuild::parse_pkgver("pkgver=1.0").is_none());
    assert!(PkgBuild::parse_pkgrel("pkgver=1\n").is_none());
}

#[test]
fn pkgname_unquotes_only_a_leading_quoted_string() {
    let (_, names) = PkgBuild::parse_pkgname("pkgname='a'b\n").unwrap();
    assert_eq!(names, vec!["a"]);
    let (_, names) = PkgBuild::parse_pkgname("pkgname=''\n").unwrap();
    assert_eq!(names, vec!["''"]);
    let (_, names) = PkgBuild::parse_pkgname("pkgname=( x\t 'y' )  \n").unwrap();
    assert_eq!(names, vec!["x", "y"]);
}

#[test]
fn arch_needs_quoted_names() {
    assert!(PkgBuild::parse_arch("arch=(x86_64)\n").is_none());
    assert!(PkgBuild::parse_arch("arch=('x86_64'\n").is_none());
    let (_, arch) = PkgBuild::parse_arch("arch=('a' 'b' c)\n").unwrap();
    assert_eq!(arch, vec!["a", "b"]);
}
