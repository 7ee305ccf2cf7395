use check_versions::ecosystem::{check_status, Ecosystem, FetchError};
use check_versions::identifier::{
    parse_chart_identifier, parse_infra_identifier, qualify_image_name, split_segments, InfraTarget,
};
use check_versions::ordering::order_versions;
use check_versions::registry::{
    module_versions, npm_versions, provider_versions, unyanked_versions, CrateRelease,
};

fn strings(v: &[&str]) -> Vec<String> {
    v.iter().map(|s| s.to_string()).collect()
}

fn field_strings(list: &serde_json::Value, key: &str) -> Vec<String> {
    list.as_array()
        .unwrap()
        .iter()
        .map(|item| item[key].as_str().unwrap().to_string())
        .collect()
}

#[test]
fn test_parse_cargo_versions() {
    let json = r#"
        {
            "versions": [
                { "num": "1.0.0", "yanked": false },
                { "num": "1.0.1", "yanked": true },
                { "num": "0.9.0", "yanked": false }
            ]
        }
        "#;
    let body: serde_json::Value = serde_json::from_str(json).unwrap();
    let releases: Vec<CrateRelease> = body["versions"]
        .as_array()
        .unwrap()
        .iter()
        .map(|v| CrateRelease {
            num: v["num"].as_str().unwrap().to_string(),
            yanked: v["yanked"].as_bool().unwrap(),
        })
        .collect();
    let versions = unyanked_versions(&releases);
    assert_eq!(versions.len(), 2);
    assert!(versions.contains(&"1.0.0".to_string()));
    assert!(!versions.contains(&"1.0.1".to_string()));
    assert!(versions.contains(&"0.9.0".to_string()));
}

#[test]
fn test_parse_docker_tags() {
    let json = r#"
        {
            "results": [
                { "name": "latest" },
                { "name": "1.0.0" },
                { "name": "alpine" }
            ]
        }
        "#;
    let body: serde_json::Value = serde_json::from_str(json).unwrap();
    let versions = order_versions(&field_strings(&body["results"], "name"), 25);
    assert_eq!(versions.len(), 3);
    assert!(versions.contains(&"latest".to_string()));
}

#[test]
fn test_parse_helm_versions() {
    let json = r#"
        {
            "available_versions": [
                { "version": "1.0.0" },
                { "version": "0.9.0" }
            ]
        }
        "#;
    let body: serde_json::Value = serde_json::from_str(json).unwrap();
    let versions = order_versions(&field_strings(&body["available_versions"], "version"), 25);
    assert_eq!(versions.len(), 2);
    assert!(versions.contains(&"1.0.0".to_string()));
}

#[test]
fn test_parse_npm_versions() {
    let json = r#"
        {
            "versions": {
                "1.0.0": {},
                "1.0.1": {},
                "0.9.0": {}
            }
        }
        "#;
    let body: serde_json::Value = serde_json::from_str(json).unwrap();
    let keys: Vec<String> = body["versions"].as_object().unwrap().keys().cloned().collect();
    let versions = order_versions(&keys, 25);
    assert_eq!(versions.len(), 3);
    assert!(versions.contains(&"1.0.0".to_string()));
    assert!(versions.contains(&"1.0.1".to_string()));
    assert!(versions.contains(&"0.9.0".to_string()));
}

#[test]
fn yanked_releases_are_dropped_in_order() {
    let releases = vec![
        CrateRelease { num: "1.0.0".to_string(), yanked: false },
        CrateRelease { num: "1.0.1".to_string(), yanked: true },
        CrateRelease { num: "0.9.0".to_string(), yanked: false },
    ];
    assert_eq!(unyanked_versions(&releases), strings(&["1.0.0", "0.9.0"]));
    assert_eq!(unyanked_versions(&Vec::new()), Vec::<String>::new());
}

#[test]
fn unsupported_ecosystem_is_reported() {
    match Ecosystem::from_literal("pip") {
        Err(e @ FetchError::UnsupportedEcosystem { .. }) => {
            assert!(e.is_invalid_input());
            if let FetchError::UnsupportedEcosystem { value, supported } = e {
                assert_eq!(value, "pip");
                assert_eq!(supported, strings(&["cargo", "docker", "helm", "terraform", "npm"]));
            }
        }
        other => panic!("unexpected: {:?}", other),
    }
    assert!(matches!(Ecosystem::from_literal("Cargo"), Err(FetchError::UnsupportedEcosystem { .. })));
    assert!(matches!(Ecosystem::from_literal(""), Err(FetchError::UnsupportedEcosystem { .. })));
}

#[test]
fn supported_literals_select_ecosystems() {
    assert_eq!(Ecosystem::from_literal("cargo").unwrap(), Ecosystem::Crate);
    assert_eq!(Ecosystem::from_literal("docker").unwrap(), Ecosystem::Container);
    assert_eq!(Ecosystem::from_literal("helm").unwrap(), Ecosystem::Chart);
    assert_eq!(Ecosystem::from_literal("terraform").unwrap(), Ecosystem::InfraModule);
    assert_eq!(Ecosystem::from_literal("npm").unwrap(), Ecosystem::JsPackage);
    assert_eq!(Ecosystem::InfraModule.literal(), "terraform");
}

#[test]
fn infra_identifier_with_one_or_four_segments_is_invalid() {
    for name in ["aws", "a/b/c/d", "", "a/b/c/d/e"] {
        match parse_infra_identifier(name) {
            Err(FetchError::InvalidIdentifier(n)) => assert_eq!(n, name),
            other => panic!("unexpected: {:?}", other),
        }
    }
    assert!(parse_infra_identifier("aws").unwrap_err().is_invalid_input());
}

#[test]
fn infra_identifier_selects_provider_or_module() {
    match parse_infra_identifier("hashicorp/aws").unwrap() {
        InfraTarget::Provider { namespace, name } => {
            assert_eq!(namespace, "hashicorp");
            assert_eq!(name, "aws");
        }
        other => panic!("unexpected: {:?}", other),
    }
    match parse_infra_identifier("terraform-aws-modules/vpc/aws").unwrap() {
        InfraTarget::Module { namespace, name, provider } => {
            assert_eq!(namespace, "terraform-aws-modules");
            assert_eq!(name, "vpc");
            assert_eq!(provider, "aws");
        }
        other => panic!("unexpected: {:?}", other),
    }
}

#[test]
fn chart_identifier_needs_two_segments() {
    assert_eq!(
        parse_chart_identifier("bitnami/postgresql").unwrap(),
        ("bitnami".to_string(), "postgresql".to_string())
    );
    assert!(matches!(parse_chart_identifier("postgresql"), Err(FetchError::InvalidIdentifier(_))));
    assert!(matches!(parse_chart_identifier("a/b/c"), Err(FetchError::InvalidIdentifier(_))));
}

#[test]
fn segments_keep_empty_pieces() {
    assert_eq!(split_segments("a//b"), strings(&["a", "", "b"]));
    assert_eq!(split_segments(""), strings(&[""]));
    assert_eq!(split_segments("/x/"), strings(&["", "x", ""]));
}

#[test]
fn image_names_get_default_namespace() {
    assert_eq!(qualify_image_name("ubuntu"), ("library".to_string(), "ubuntu".to_string()));
    assert_eq!(
        qualify_image_name("bitnami/redis"),
        ("bitnami".to_string(), "redis".to_string())
    );
    assert_eq!(
        qualify_image_name("ghcr/org/img"),
        ("ghcr".to_string(), "org/img".to_string())
    );
}

#[test]
fn status_codes_map_to_errors() {
    assert!(check_status(200, "x").is_ok());
    match check_status(404, "left-pad") {
        Err(FetchError::NotFound(n)) => assert_eq!(n, "left-pad"),
        other => panic!("unexpected: {:?}", other),
    }
    let upstream = check_status(500, "x").unwrap_err();
    assert!(matches!(upstream, FetchError::UpstreamError(_)));
    assert!(!upstream.is_invalid_input());
    assert!(matches!(check_status(301, "x"), Err(FetchError::UpstreamError(_))));
}

#[test]
fn terraform_lists_are_reversed() {
    assert_eq!(provider_versions(&strings(&["1.0", "1.1", "2.0"])), strings(&["2.0", "1.1", "1.0"]));
    let modules = vec![strings(&["1.0", "1.1"]), strings(&[]), strings(&["2.0"])];
    assert_eq!(module_versions(&modules), strings(&["2.0", "1.1", "1.0"]));
    assert_eq!(module_versions(&Vec::new()), Vec::<String>::new());
}

#[test]
fn package_listing_ordered_by_code_points_descending() {
    let keys = strings(&["1.0.0", "1.0.10", "0.9.0", "1.0.2"]);
    assert_eq!(npm_versions(&keys), strings(&["1.0.2", "1.0.10", "1.0.0", "0.9.0"]));
    assert_eq!(npm_versions(&Vec::new()), Vec::<String>::new());
}
