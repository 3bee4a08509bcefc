use d3l::parser::parse;
use d3l::parser::ParseError;
use d3l::parser::Scope;
use d3l::parser::Version;

#[test]
fn parser_test_missing_root_package() {
    let example = "Test";
    let result = parse(example);
    assert!(result.is_err())
}

#[test]
fn parser_test_parse_package() {
    let example = "package Test";
    let result = parse(example).unwrap_or_else(|e| panic!("{}", e.to_string()));
    assert_eq!(&result.name, "Test")
}

#[test]
fn parser_test_parse_version() {
    let example = "package Test version 1.0.0";
    let result = parse(example).unwrap_or_else(|e| panic!("{}", e.to_string()));
    assert_eq!(&result.name, "Test");
    assert!(&result.version.is_some());
    assert_eq!(
        result.version.unwrap(),
        Version {
            major: 1,
            minor: 0,
            patch: 0
        }
    );
}

#[test]
fn mod_test_missing_root_package() {
    let example = "Test";
    let result = parse(example);
    assert!(result.is_err())
}

#[test]
fn mod_test_parse_package() {
    let example = "package Test";
    let result = parse(example).unwrap_or_else(|e| panic!("{}", e.to_string()));
    assert_eq!(&result.name, "Test")
}

#[test]
fn mod_test_parse_version() {
    let example = "package Test version 1.0.0";
    let result = parse(example).unwrap_or_else(|e| panic!("{}", e.to_string()));
    assert_eq!(&result.name, "Test");
    assert!(&result.version.is_some());
    let version = result.version.unwrap();
    assert_eq!(version.major, 1);
    assert_eq!(version.minor, 0);
    assert_eq!(version.patch, 0);
}

#[test]
fn test_parse_entities() {
    let example = "package Test version 1.0.0 {
                entity TestEntity
                }";
    let result = parse(example).unwrap_or_else(|e| panic!("{}", e.to_string()));
    assert_eq!(&result.name, "Test");
    let entities = result.entities;
    assert_eq!(entities.len(), 1);
    assert_eq!(entities[0].name, "TestEntity");

    let example = "package Test version 1.0.0 {
                public entity TestEntity
                }";
    let result = parse(example).unwrap_or_else(|e| panic!("{}", e.to_string()));
    assert_eq!(&result.name, "Test");
    let entities = result.entities;
    assert_eq!(entities.len(), 1);
    assert_eq!(entities[0].name, "TestEntity");
    assert_eq!(entities[0].scope, Scope::Public);
}

#[test]
fn test_entity_with_attributes_scope_and_method() {
    let example = "package Test version 1.0.0 {
                    public entity TestEntity {
                        (
                            name: string
                        )
                        method get_name()
                    }
                }";
    let result = parse(example).unwrap_or_else(|e| panic!("{}", e.to_string()));
    assert_eq!(&result.name, "Test");
    let entity = result.entities.first().unwrap();
    assert_eq!(entity.scope, Scope::Public);

    let attribute = entity.attributes.first().unwrap();
    assert_eq!(attribute.name, "name");
    assert_eq!(attribute.atype, "string");
    let method = entity.methods.first().unwrap();
    assert_eq!(method.name, "get_name");
}

#[test]
fn test_methods_with_parameters_and_return_types() {
    let example = "package Test version 1.0.0 {
                    public entity TestEntity {
                        method get_name() -> string
                        method set_name(name: string)
                        method get_and_set_name(name: string) -> string
                    }
                }";

    let result = parse(example).unwrap_or_else(|e| panic!("{}", e.to_string()));
    let entity = result.entities.first().unwrap();
    if let [get_name, set_name, get_and_set_name] = &entity.methods[0..=2] {
        assert_eq!(get_name.name, "get_name");
        assert_eq!(get_name.returns, "string");

        assert_eq!(set_name.name, "set_name");
        assert_eq!(set_name.parameters.len(), 1);
        assert_eq!(set_name.parameters[0].name, "name");
        assert_eq!(set_name.parameters[0].atype, "string");

        assert_eq!(get_and_set_name.name, "get_and_set_name");
        assert_eq!(get_and_set_name.returns, "string");
        assert_eq!(get_and_set_name.parameters.len(), 1);
        assert_eq!(get_and_set_name.parameters[0].name, "name");
        assert_eq!(get_and_set_name.parameters[0].atype, "string");
    } else {
        panic!("Not all methods found")
    }
}

fn rule_error(input: &str) -> String {
    match parse(input) {
        Err(ParseError::RuleError(m)) => m,
        Err(ParseError::MissingRootPackage(m)) => panic!("unexpected missing root package: {}", m),
        Ok(p) => panic!("unexpectedly parsed package {}", p.name),
    }
}

#[test]
fn errors_give_pests_position_and_expected_rules() {
    assert_eq!(
        rule_error("Test"),
        " --> 1:1\n  |\n1 | Test\n  | ^---\n  |\n  = expected package"
    );
    assert_eq!(
        rule_error(""),
        " --> 1:1\n  |\n1 | \n  | ^---\n  |\n  = expected package"
    );
    assert_eq!(
        rule_error("package"),
        " --> 1:8\n  |\n1 | package\n  |        ^---\n  |\n  = expected identifier"
    );
    assert_eq!(
        rule_error("package Test }"),
        " --> 1:14\n  |\n1 | package Test }\n  |              ^---\n  |\n  = expected EOI or version"
    );
    assert_eq!(
        rule_error("package Test version 1.0"),
        " --> 1:14\n  |\n1 | package Test version 1.0\n  |              ^---\n  |\n  = expected EOI or version"
    );
    assert_eq!(
        rule_error("package P\nversion 1.2"),
        " --> 2:1\n  |\n2 | version 1.2\n  | ^---\n  |\n  = expected EOI or version"
    );
    assert_eq!(
        rule_error("package P { entity E { method f(x) } }"),
        " --> 1:33\n  |\n1 | package P { entity E { method f(x) } }\n  |                                 ^---\n  |\n  = expected attribute"
    );
}

#[test]
fn error_text_names_the_variant() {
    let e = parse("Test").unwrap_err();
    assert_eq!(
        e.to_string(),
        "RuleError:  --> 1:1\n  |\n1 | Test\n  | ^---\n  |\n  = expected package"
    );
    let m = ParseError::MissingRootPackage("Root package not found".to_string());
    assert_eq!(m.to_string(), "MissingRootPackage: Root package not found");
}

#[test]
fn whitespace_around_the_package_is_ignored() {
    let p = parse("\n\t  package Test  \r\n").unwrap();
    assert_eq!(p.name, "Test");
    assert!(p.version.is_none());
    assert!(p.entities.is_empty());
}

#[test]
fn the_last_version_wins() {
    let p = parse("package Test version 1.2.3 version 4.5.6").unwrap();
    assert_eq!(p.version, Some(Version { major: 4, minor: 5, patch: 6 }));
}

#[test]
fn version_parts_that_are_not_a_u8_read_as_zero() {
    let p = parse("package Test version 256.007.255").unwrap();
    assert_eq!(p.version, Some(Version { major: 0, minor: 7, patch: 255 }));
    // Whitespace around the dots is allowed, but a part that holds it is no number.
    let p = parse("package Test version 1 . 2 .3").unwrap();
    assert_eq!(p.version, Some(Version { major: 0, minor: 0, patch: 3 }));
}

#[test]
fn scopes_default_to_private_and_the_last_one_wins() {
    let p = parse("package P { entity A private entity B public private entity C private public entity D }").unwrap();
    let scopes: Vec<Scope> = p.entities.iter().map(|e| e.scope).collect();
    assert_eq!(scopes, vec![Scope::Private, Scope::Private, Scope::Private, Scope::Public]);
    let names: Vec<&str> = p.entities.iter().map(|e| e.name.as_str()).collect();
    assert_eq!(names, vec!["A", "B", "C", "D"]);
}

#[test]
fn entity_blocks_are_joined_in_order() {
    let p = parse("package P {entity A} {} { entity B entity C }").unwrap();
    let names: Vec<&str> = p.entities.iter().map(|e| e.name.as_str()).collect();
    assert_eq!(names, vec!["A", "B", "C"]);
}

#[test]
fn attributes_may_end_with_commas() {
    let p = parse("package P { entity E { (a: int, b:string , c : T) } }").unwrap();
    let e = &p.entities[0];
    let attrs: Vec<(&str, &str)> = e.attributes.iter().map(|a| (a.name.as_str(), a.atype.as_str())).collect();
    assert_eq!(attrs, vec![("a", "int"), ("b", "string"), ("c", "T")]);
    assert!(e.methods.is_empty());
}

#[test]
fn method_spacing_is_strict() {
    // One space after `method`, none before the parameters, one on each side of the arrow.
    let p = parse("package P { entity E { method f( x : int , y: int ) -> r } }").unwrap();
    let m = &p.entities[0].methods[0];
    assert_eq!(m.name, "f");
    assert_eq!(m.parameters.len(), 2);
    assert_eq!(m.returns, "r");
    assert!(parse("package P { entity E { method  f() } }").is_err());
    assert!(parse("package P { entity E { method f () } }").is_err());
    assert!(parse("package P { entity E { method f()  -> r } }").is_err());
    assert!(parse("package P { entity E { method f() ->r } }").is_err());
}

#[test]
fn a_method_without_a_return_type_returns_empty_text() {
    let p = parse("package P { entity E { method f() } }").unwrap();
    assert_eq!(p.entities[0].methods[0].returns, "");
    assert!(p.entities[0].methods[0].parameters.is_empty());
}

#[test]
fn an_entity_whose_body_is_broken_fails_the_package() {
    assert!(parse("package P { entity E { method f() }").is_err());
    assert!(parse("package P { entity E { ( a: ) } }").is_err());
    assert!(parse("package P { entity }").is_err());
}

#[test]
fn non_ascii_text_is_no_identifier() {
    assert!(parse("package Tést").is_err());
    let p = parse("package T_3 { entity été_x }");
    assert!(p.is_err());
}

#[test]
fn whitespace_before_and_after_changes_nothing() {
    let texts = [
        "package Test version 1.0.0 { public entity E { (a: int) method f(x: int) -> int } }",
        "package Test {",
        "Test",
        "package T { entity E { method f() ->",
        "package T { entity E { method",
    ];
    for text in texts.iter() {
        let plain = parse(text);
        let padded = parse(&format!(" \n\t{}\r\n  ", text));
        assert_eq!(plain.is_ok(), padded.is_ok());
        if let (Ok(a), Ok(b)) = (plain, padded) {
            assert_eq!(format!("{:?}", a), format!("{:?}", b));
        }
    }
}

#[test]
fn every_name_read_is_an_identifier() {
    let p = parse("package Shop_1 version 2.10.0 { public entity Cart { (items: Item, total: Money) method add(item: Item) -> Cart method clear() } entity Item }").unwrap();
    let ok = |t: &str| !t.is_empty() && t.chars().all(|c| c.is_ascii_alphanumeric() || c == '_');
    assert!(ok(&p.name));
    for e in &p.entities {
        assert!(ok(&e.name));
        for a in &e.attributes {
            assert!(ok(&a.name) && ok(&a.atype));
        }
        for m in &e.methods {
            assert!(ok(&m.name));
            assert!(m.returns.is_empty() || ok(&m.returns));
            for a in &m.parameters {
                assert!(ok(&a.name) && ok(&a.atype));
            }
        }
    }
    assert_eq!(p.version, Some(Version { major: 2, minor: 10, patch: 0 }));
    assert_eq!(p.entities[0].methods[1].returns, "");
}

#[test]
fn shapes_read_as_written() {
    let p = parse("package Shop version 1.2.3 version 300.4.5 { private public entity Cart { method put(item: Item, count: Int) -> Cart } }").unwrap();
    assert_eq!(p.name, "Shop");
    assert_eq!(p.version, Some(Version { major: 0, minor: 4, patch: 5 }));
    let e = &p.entities[0];
    assert_eq!(e.name, "Cart");
    assert_eq!(e.scope, Scope::Public);
    let m = &e.methods[0];
    assert_eq!(m.name, "put");
    let params: Vec<(&str, &str)> = m.parameters.iter().map(|a| (a.name.as_str(), a.atype.as_str())).collect();
    assert_eq!(params, vec![("item", "Item"), ("count", "Int")]);
    assert_eq!(m.returns, "Cart");
}
