use pubgrub_debian::parse::{
    parse_alternative, parse_debian_control, parse_debian_package, parse_dependency_field,
    parse_dependency_item, parse_version_constraint, Alternative, DebianPackage, Dependency,
    ParseError, VersionConstraint, VersionRelation,
};

#[test]
fn test_parse_dependency_alternative() {
    // Test alternatives with version constraint and architecture.
    let alt_str = "libqt5core5a (>= 5.7.0) [amd64 i386]";
    let alt = parse_alternative(alt_str).unwrap();
    assert_eq!(alt.package, "libqt5core5a");
    assert!(alt.version_constraint.is_some());
    let vc = alt.version_constraint.unwrap();
    assert_eq!(vc.version, "5.7.0");
    assert_eq!(vc.relation, VersionRelation::LaterOrEqual);
    assert!(alt.arch.is_some());
    let archs = alt.arch.unwrap();
    assert_eq!(archs, vec!["amd64".to_string(), "i386".to_string()]);
}

#[test]
fn test_parse_dependency_field() {
    let s = "libc6 (>= 2.2.1), default-mta | mail-transport-agent";
    let dependencies = parse_dependency_field(s);
    assert_eq!(dependencies.len(), 2);

    let dep1 = &dependencies[0];
    assert_eq!(dep1.alternatives.len(), 1);
    let alt1 = &dep1.alternatives[0];
    assert_eq!(alt1.package, "libc6");
    assert!(alt1.version_constraint.is_some());

    let dep2 = &dependencies[1];
    assert_eq!(dep2.alternatives.len(), 2);
    let alt2a = &dep2.alternatives[0];
    assert_eq!(alt2a.package, "default-mta");
    let alt2b = &dep2.alternatives[1];
    assert_eq!(alt2b.package, "mail-transport-agent");
}

#[test]
fn test_parse_debian_package() {
    let sample = r#"Package: mutt
Version: 1.3.17-1
Depends: libc6 (>= 2.2.1), default-mta | mail-transport-agent
Maintainer: John Doe <john@example.com>
Description: Email client
"#;
    let pkg = parse_debian_package(sample).unwrap();
    assert_eq!(pkg.package, "mutt");
    assert_eq!(pkg.version, "1.3.17-1");
    assert_eq!(pkg.depends.len(), 2);
}

#[test]
fn test_openssh() {
    let sample = r#"Package: openssh-server
Source: openssh
Version: 1:7.9p1-10+deb10u2
Installed-Size: 1449
Maintainer: Debian OpenSSH Maintainers <debian-ssh@lists.debian.org>
Architecture: amd64
Replaces: openssh-client (<< 1:7.9p1-8), ssh, ssh-krb5
Provides: ssh-server
Depends: adduser (>= 3.9), dpkg (>= 1.9.0), libpam-modules (>= 0.72-9), libpam-runtime (>= 0.76-14), lsb-base (>= 4.1+Debian3), openssh-client (= 1:7.9p1-10+deb10u2), openssh-sftp-server, procps, ucf (>= 0.28), debconf (>= 0.5) | debconf-2.0, libaudit1 (>= 1:2.2.1), libc6 (>= 2.26), libcom-err2 (>= 1.43.9), libgssapi-krb5-2 (>= 1.17), libkrb5-3 (>= 1.13~alpha1+dfsg), libpam0g (>= 0.99.7.1), libselinux1 (>= 1.32), libssl1.1 (>= 1.1.1), libsystemd0, libwrap0 (>= 7.6-4~), zlib1g (>= 1:1.1.4)
Recommends: default-logind | logind | libpam-systemd, ncurses-term, xauth
Suggests: molly-guard, monkeysphere, rssh, ssh-askpass, ufw
Conflicts: sftp, ssh-socks, ssh2
Description: secure shell (SSH) server, for secure access from remote machines
Multi-Arch: foreign
Homepage: http://www.openssh.com/
Description-md5: 842cc998cae371b9d8106c1696373919
Tag: admin::login, implemented-in::c, interface::daemon, network::server,
 protocol::ssh, role::program, security::authentication,
 security::cryptography, use::login, use::transmission
Section: net
Priority: optional
Filename: pool/main/o/openssh/openssh-server_7.9p1-10+deb10u2_amd64.deb
Size: 352108
MD5sum: 8e8a6fd269cef560d319f6b32c814d63
SHA256: 65bb2ee2cfce60b83523754c3768578417bbb23af760ddd26d53999f4da0f4e6
"#;
    let pkg = parse_debian_package(sample).unwrap();
    let ge = |p: &str, v: &str| Dependency {
        alternatives: [Alternative {
            package: p.to_owned(),
            version_constraint: Some(VersionConstraint {
                relation: VersionRelation::LaterOrEqual,
                version: v.to_owned(),
            }),
            arch: None,
        }]
        .to_vec(),
    };
    let bare = |p: &str| Dependency {
        alternatives: [Alternative {
            package: p.to_owned(),
            version_constraint: None,
            arch: None,
        }]
        .to_vec(),
    };
    assert_eq!(
        pkg,
        DebianPackage {
            package: "openssh-server".to_owned(),
            version: "1:7.9p1-10+deb10u2".to_owned(),
            depends: [
                ge("adduser", "3.9"),
                ge("dpkg", "1.9.0"),
                ge("libpam-modules", "0.72-9"),
                ge("libpam-runtime", "0.76-14"),
                ge("lsb-base", "4.1+Debian3"),
                Dependency {
                    alternatives: [Alternative {
                        package: "openssh-client".to_owned(),
                        version_constraint: Some(VersionConstraint {
                            relation: VersionRelation::ExactlyEqual,
                            version: "1:7.9p1-10+deb10u2".to_owned()
                        }),
                        arch: None
                    }]
                    .to_vec()
                },
                bare("openssh-sftp-server"),
                bare("procps"),
                ge("ucf", "0.28"),
                Dependency {
                    alternatives: [
                        Alternative {
                            package: "debconf".to_owned(),
                            version_constraint: Some(VersionConstraint {
                                relation: VersionRelation::LaterOrEqual,
                                version: "0.5".to_owned()
                            }),
                            arch: None
                        },
                        Alternative {
                            package: "debconf-2.0".to_owned(),
                            version_constraint: None,
                            arch: None
                        }
                    ]
                    .to_vec()
                },
                ge("libaudit1", "1:2.2.1"),
                ge("libc6", "2.26"),
                ge("libcom-err2", "1.43.9"),
                ge("libgssapi-krb5-2", "1.17"),
                ge("libkrb5-3", "1.13~alpha1+dfsg"),
                ge("libpam0g", "0.99.7.1"),
                ge("libselinux1", "1.32"),
                ge("libssl1.1", "1.1.1"),
                bare("libsystemd0"),
                ge("libwrap0", "7.6-4~"),
                ge("zlib1g", "1:1.1.4")
            ]
            .to_vec(),
            provides: [bare("ssh-server")].to_vec()
        }
    );
}

#[test]
fn test_parse_version_constraint_errors() {
    assert_eq!(
        parse_version_constraint("").unwrap_err(),
        ParseError::InvalidVersionConstraint
    );
    assert_eq!(
        parse_version_constraint(">=").unwrap_err(),
        ParseError::InvalidVersionConstraint
    );
    assert_eq!(
        parse_version_constraint("?? 1.0").unwrap_err(),
        ParseError::UnknownVersionRelation("Unknown version relation: ??".to_string())
    );
    let c = parse_version_constraint("  >=   2.2.1 ").unwrap();
    assert_eq!(c.relation, VersionRelation::LaterOrEqual);
    assert_eq!(c.version, "2.2.1");
}

#[test]
fn test_parse_alternative_errors() {
    assert_eq!(
        parse_alternative("a (>= 1").unwrap_err(),
        ParseError::MissingClosingParen
    );
    assert_eq!(
        parse_alternative("a (>= 1) [amd64").unwrap_err(),
        ParseError::MissingClosingBracket
    );
    assert_eq!(
        parse_alternative("a (bogus)").unwrap_err(),
        ParseError::InvalidVersionConstraint
    );
}

#[test]
fn test_parse_dependency_item_alternatives() {
    let dep = parse_dependency_item("a | b (>> 2) | c").unwrap();
    assert_eq!(dep.alternatives.len(), 3);
    assert_eq!(dep.alternatives[0].package, "a");
    assert_eq!(dep.alternatives[1].package, "b");
    assert_eq!(
        dep.alternatives[1].version_constraint.as_ref().unwrap().relation,
        VersionRelation::StrictlyLater
    );
    assert_eq!(dep.alternatives[2].package, "c");
}

#[test]
fn test_parse_debian_package_errors() {
    assert_eq!(
        parse_debian_package("no colon here").unwrap_err(),
        ParseError::LineWithoutColon
    );
    assert_eq!(
        parse_debian_package("Version: 1.0").unwrap_err(),
        ParseError::MissingPackageField
    );
    assert_eq!(
        parse_debian_package("Package: a").unwrap_err(),
        ParseError::MissingVersionField
    );
}

#[test]
fn test_parse_debian_control_stanzas() {
    let content = "Package: a\nVersion: 1.0\n\nPackage: b\nVersion: 2.0\nDepends: a (>= 1.0)\n";
    let pkgs = parse_debian_control(content).unwrap();
    assert_eq!(pkgs.len(), 2);
    assert_eq!(pkgs[0].package, "a");
    assert_eq!(pkgs[1].package, "b");
    assert_eq!(pkgs[1].depends.len(), 1);
}
