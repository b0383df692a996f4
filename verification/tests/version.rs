use mr_modpack::version::{ParseError, SemanticVersion};
use std::str::FromStr;

#[test]
fn semver_simple() {
    assert_eq!(
        SemanticVersion::from_str("1.20.0"),
        Ok(SemanticVersion {
            major: 1,
            minor: 20,
            patch: 0
        })
    )
}

#[test]
fn semver_v_prefix() {
    assert_eq!(
        SemanticVersion::from_str("v10.19.15"),
        Ok(SemanticVersion {
            major: 10,
            minor: 19,
            patch: 15
        })
    )
}

#[test]
fn semver_dash_postfix() {
    assert_eq!(
        SemanticVersion::from_str("v10.19.15-1.20.0"),
        Ok(SemanticVersion {
            major: 10,
            minor: 19,
            patch: 15
        })
    )
}

#[test]
fn semver_word_postfix() {
    assert_eq!(
        SemanticVersion::from_str("101.190.230Fabric"),
        Ok(SemanticVersion {
            major: 101,
            minor: 190,
            patch: 230
        })
    )
}

#[test]
fn semver_major_only() {
    assert_eq!(
        SemanticVersion::from_str("2"),
        Ok(SemanticVersion {
            major: 2,
            minor: 0,
            patch: 0
        })
    )
}

#[test]
fn semver_major_and_patch_only() {
    assert_eq!(
        SemanticVersion::from_str("1.5"),
        Ok(SemanticVersion {
            major: 1,
            minor: 5,
            patch: 0
        })
    )
}

#[test]
fn semver_dash_prefix_and_more() {
    assert_eq!(
        SemanticVersion::from_str("-6.57-forge+fabric"),
        Ok(SemanticVersion {
            major: 6,
            minor: 57,
            patch: 0
        })
    )
}

#[test]
fn semver_plus_postfix_and_more() {
    assert_eq!(
        SemanticVersion::from_str("2.1.0+1.20.1"),
        Ok(SemanticVersion {
            major: 2,
            minor: 1,
            patch: 0
        })
    )
}

#[test]
fn semver_quilt() {
    assert_eq!(
        SemanticVersion::from_str("quilt--2.4.21"),
        Ok(SemanticVersion {
            major: 2,
            minor: 4,
            patch: 21,
        })
    )
}

#[test]
fn semver_puzzles() {
    assert_eq!(
        SemanticVersion::from_str("v8.1.20--Fabric"),
        Ok(SemanticVersion {
            major: 8,
            minor: 1,
            patch: 20,
        })
    )
}

#[test]
fn parse_agrees_with_from_str() {
    assert_eq!(
        SemanticVersion::parse("v8.1.20--Fabric"),
        SemanticVersion::from_str("v8.1.20--Fabric")
    );
    assert_eq!(SemanticVersion::parse(""), SemanticVersion::from_str(""));
}

#[test]
fn parse_empty_label() {
    assert_eq!(SemanticVersion::parse(""), Err(ParseError::Empty));
}

#[test]
fn parse_label_without_digit() {
    assert_eq!(SemanticVersion::parse("fabric"), Err(ParseError::NoMajor));
    assert_eq!(SemanticVersion::parse("."), Err(ParseError::NoMajor));
    assert_eq!(SemanticVersion::parse("v-+"), Err(ParseError::NoMajor));
}

#[test]
fn parse_component_beyond_32_bits() {
    assert_eq!(
        SemanticVersion::parse("4294967295.0.1"),
        Ok(SemanticVersion {
            major: 4294967295,
            minor: 0,
            patch: 1
        })
    );
    assert_eq!(
        SemanticVersion::parse("4294967296"),
        Err(ParseError::Overflow)
    );
    assert_eq!(
        SemanticVersion::parse("1.4294967296"),
        Err(ParseError::Overflow)
    );
    assert_eq!(
        SemanticVersion::parse("1.2.99999999999999999999999"),
        Err(ParseError::Overflow)
    );
}

#[test]
fn parse_overflow_behind_third_component_is_ignored() {
    assert_eq!(
        SemanticVersion::parse("1.2.3.99999999999999999999999"),
        Ok(SemanticVersion {
            major: 1,
            minor: 2,
            patch: 3
        })
    );
}

#[test]
fn parse_leading_zeros() {
    assert_eq!(
        SemanticVersion::parse("0001.00020.000000000000003"),
        Ok(SemanticVersion {
            major: 1,
            minor: 20,
            patch: 3
        })
    );
}

#[test]
fn parse_dot_without_digit_starts_the_suffix() {
    assert_eq!(
        SemanticVersion::parse("1."),
        Ok(SemanticVersion {
            major: 1,
            minor: 0,
            patch: 0
        })
    );
    assert_eq!(
        SemanticVersion::parse("1.x.3"),
        Ok(SemanticVersion {
            major: 1,
            minor: 0,
            patch: 0
        })
    );
    assert_eq!(
        SemanticVersion::parse("1..3"),
        Ok(SemanticVersion {
            major: 1,
            minor: 0,
            patch: 0
        })
    );
    assert_eq!(
        SemanticVersion::parse("1.2."),
        Ok(SemanticVersion {
            major: 1,
            minor: 2,
            patch: 0
        })
    );
    assert_eq!(
        SemanticVersion::parse("1.2.beta"),
        Ok(SemanticVersion {
            major: 1,
            minor: 2,
            patch: 0
        })
    );
}

#[test]
fn parse_ignores_what_follows_the_third_component() {
    for rest in ["", "-forge", "+1.20.1", ".4", " (beta)", "Fabric"] {
        let label = format!("12.34.56{rest}");
        assert_eq!(
            SemanticVersion::parse(&label),
            Ok(SemanticVersion {
                major: 12,
                minor: 34,
                patch: 56
            })
        );
    }
}

#[test]
fn parse_non_ascii_prefix() {
    assert_eq!(
        SemanticVersion::parse("版本。3.1.4"),
        Ok(SemanticVersion {
            major: 3,
            minor: 1,
            patch: 4
        })
    );
}

#[test]
fn version_to_string() {
    let v = SemanticVersion {
        major: 1,
        minor: 20,
        patch: 4,
    };
    assert_eq!(v.to_string(), "1.20.4");
    let zero = SemanticVersion {
        major: 0,
        minor: 0,
        patch: 0,
    };
    assert_eq!(zero.to_string(), "0.0.0");
    let top = SemanticVersion {
        major: 4294967295,
        minor: 10,
        patch: 907,
    };
    assert_eq!(top.to_string(), "4294967295.10.907");
}

#[test]
fn version_text_parses_back() {
    for v in [
        SemanticVersion {
            major: 0,
            minor: 0,
            patch: 0,
        },
        SemanticVersion {
            major: 1,
            minor: 20,
            patch: 4,
        },
        SemanticVersion {
            major: 4294967295,
            minor: 4294967295,
            patch: 4294967295,
        },
    ] {
        assert_eq!(SemanticVersion::parse(&v.to_string()), Ok(v));
    }
}

#[test]
fn version_order() {
    let a = SemanticVersion {
        major: 1,
        minor: 20,
        patch: 4,
    };
    let b = SemanticVersion {
        major: 1,
        minor: 21,
        patch: 0,
    };
    let c = SemanticVersion {
        major: 2,
        minor: 0,
        patch: 0,
    };
    let d = SemanticVersion {
        major: 1,
        minor: 20,
        patch: 5,
    };
    assert!(a.precedes(&b));
    assert!(b.precedes(&c));
    assert!(a.precedes(&c));
    assert!(a.precedes(&d));
    assert!(d.precedes(&b));
    assert!(!b.precedes(&a));
    assert!(!a.precedes(&a));
    assert!(a < b && b < c && a < d);
}
