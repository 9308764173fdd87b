use cfn_clean::naming::{filename_from_parts, split_type_name, type_to_filename};
use cfn_clean::template::{
    clean_template, properties, remove_mutually_exclusive, resource_type, schema_file_for,
    schema_files, schema_for, try_clean_template,
};
use cfn_clean::parse::{documents_from_text, schema_from_text, ScanFailure};
use cfn_clean::template_text::{
    clean_template_text, required_schema_files, try_clean_template_text, CleanError,
};
use cfn_clean::yaml::YamlValue;
use yaml_rust2::YamlLoader;

fn scan_failure_of(text: &str) -> ScanFailure {
    let e = YamlLoader::load_from_str(text).unwrap_err();
    ScanFailure {
        info: e.info().to_string(),
        index: e.marker().index(),
        line: e.marker().line(),
        col: e.marker().col(),
    }
}

fn text(s: &str) -> YamlValue {
    YamlValue::Text(s.to_string())
}

fn map(entries: Vec<(&str, YamlValue)>) -> YamlValue {
    YamlValue::Mapping(entries.into_iter().map(|(k, v)| (text(k), v)).collect())
}

fn entries(v: &YamlValue) -> &Vec<(YamlValue, YamlValue)> {
    match v {
        YamlValue::Mapping(m) => m,
        _ => panic!("not a mapping"),
    }
}

fn keys(v: &Vec<(YamlValue, YamlValue)>) -> Vec<String> {
    let mut out: Vec<String> = v
        .iter()
        .map(|(k, _)| match k {
            YamlValue::Text(s) => s.clone(),
            _ => panic!("not a string key"),
        })
        .collect();
    out.sort();
    out
}

fn ec2_schema() -> YamlValue {
    map(vec![
        ("typeName", text("AWS::EC2::Instance")),
        (
            "properties",
            map(vec![
                ("ImageId", map(vec![("type", text("string"))])),
                ("SubnetId", map(vec![("type", text("string"))])),
                ("NetworkInterfaces", map(vec![("type", text("array"))])),
                ("SecurityGroups", map(vec![("type", text("array"))])),
            ]),
        ),
        (
            "dependentExcluded",
            map(vec![(
                "NetworkInterfaces",
                YamlValue::Array(vec![text("SubnetId"), text("SecurityGroups")]),
            )]),
        ),
    ])
}

fn schemas() -> Vec<(String, YamlValue)> {
    vec![("aws_ec2_instance.json".to_string(), ec2_schema())]
}

fn template() -> YamlValue {
    map(vec![
        (
            "Parameters",
            map(vec![(
                "DbSubnetIpBlocks",
                map(vec![
                    ("Description", text("Comma-delimited list of three CIDR blocks")),
                    ("Type", text("CommaDelimitedList")),
                    ("Default", text("10.0.48.0/24, 10.0.112.0/24, 10.0.176.0/24")),
                ]),
            )]),
        ),
        (
            "Resources",
            map(vec![(
                "myInstance",
                map(vec![
                    ("Type", text("AWS::EC2::Instance")),
                    (
                        "Properties",
                        map(vec![
                            ("ImageId", text("ami-0a70b9d193ae8a799")),
                            ("SubnetId", map(vec![("Ref", text("PublicSubnet"))])),
                            (
                                "NetworkInterfaces",
                                YamlValue::Array(vec![map(vec![
                                    ("AssociatePublicIpAddress", text("true")),
                                    ("DeviceIndex", text("0")),
                                    (
                                        "GroupSet",
                                        YamlValue::Array(vec![map(vec![(
                                            "Ref",
                                            text("myVPCEC2SecurityGroup"),
                                        )])]),
                                    ),
                                    ("SubnetId", map(vec![("Ref", text("PublicSubnet"))])),
                                ])]),
                            ),
                        ]),
                    ),
                ]),
            )]),
        ),
    ])
}

#[test]
fn cleans_a_template_value() {
    let doc = template();
    let result = try_clean_template(&doc, &schemas()).unwrap();
    let sections = entries(&result);
    assert_eq!(sections.len(), 2);
    assert_eq!(sections[0], entries(&doc)[0]);
    assert_eq!(sections[1].0, text("Resources"));
    let resources = entries(&sections[1].1);
    assert_eq!(resources.len(), 1);
    assert_eq!(resources[0].0, text("myInstance"));
    let cleaned = entries(&resources[0].1);
    assert_eq!(keys(cleaned), vec!["ImageId".to_string(), "NetworkInterfaces".to_string()]);
}

#[test]
fn clean_template_keeps_other_sections() {
    let doc = map(vec![
        ("AWSTemplateFormatVersion", text("2010-09-09")),
        ("Resources", map(vec![])),
        ("Outputs", map(vec![("Id", YamlValue::Integer(3))])),
    ]);
    let result = clean_template(&doc, &schemas());
    assert_eq!(result, doc);
}

#[test]
fn try_clean_template_refuses_what_cannot_be_cleaned() {
    let no_type = map(vec![(
        "Resources",
        map(vec![("r", map(vec![("Properties", map(vec![]))]))]),
    )]);
    assert_eq!(try_clean_template(&no_type, &schemas()), None);
    let unknown_schema = map(vec![(
        "Resources",
        map(vec![(
            "r",
            map(vec![("Type", text("AWS::S3::Bucket")), ("Properties", map(vec![]))]),
        )]),
    )]);
    assert_eq!(try_clean_template(&unknown_schema, &schemas()), None);
    let undeclared = map(vec![(
        "Resources",
        map(vec![(
            "r",
            map(vec![
                ("Type", text("AWS::EC2::Instance")),
                ("Properties", map(vec![("Bogus", text("x"))])),
            ]),
        )]),
    )]);
    assert_eq!(try_clean_template(&undeclared, &schemas()), None);
    assert_eq!(try_clean_template(&text("not a mapping"), &schemas()), None);
}

#[test]
fn remove_mutually_exclusive_keeps_last_of_each_set() {
    let schema = ec2_schema();
    let data = entries(&map(vec![
        ("NetworkInterfaces", text("n")),
        ("ImageId", text("i")),
        ("SecurityGroups", text("g")),
    ]))
    .clone();
    let clean = remove_mutually_exclusive(&data, entries(&schema));
    assert_eq!(keys(&clean), vec!["ImageId".to_string(), "SecurityGroups".to_string()]);
    for (k, v) in &clean {
        if *k == text("SecurityGroups") {
            assert_eq!(*v, text("g"));
        }
    }
}

#[test]
fn kept_properties_are_pairwise_compatible_and_cover_every_set() {
    let schema = ec2_schema();
    let data = entries(&map(vec![
        ("SubnetId", text("s")),
        ("ImageId", text("i")),
        ("NetworkInterfaces", text("n")),
        ("SecurityGroups", text("g")),
    ]))
    .clone();
    let clean = remove_mutually_exclusive(&data, entries(&schema));
    // Two sets are present: {SubnetId, NetworkInterfaces, SecurityGroups} and {ImageId}.
    assert_eq!(clean.len(), 2);
    assert_eq!(keys(&clean), vec!["ImageId".to_string(), "SecurityGroups".to_string()]);
}

#[test]
fn remove_mutually_exclusive_without_exclusions_keeps_everything() {
    let schema = map(vec![(
        "properties",
        map(vec![("A", map(vec![])), ("B", map(vec![]))]),
    )]);
    let data = entries(&map(vec![("B", text("b")), ("A", text("a"))])).clone();
    let clean = remove_mutually_exclusive(&data, entries(&schema));
    assert_eq!(keys(&clean), vec!["A".to_string(), "B".to_string()]);
    let empty: Vec<(YamlValue, YamlValue)> = Vec::new();
    assert_eq!(remove_mutually_exclusive(&empty, entries(&schema)), empty);
}

#[test]
fn properties_and_type_of_a_resource() {
    let doc = template();
    let resources = entries(&entries(&doc)[1].1);
    let resource = &resources[0].1;
    assert_eq!(resource_type(resource), Some("AWS::EC2::Instance"));
    assert_eq!(properties(resource).map(|p| p.len()), Some(3));
    assert_eq!(resource_type(&text("x")), None);
    assert_eq!(properties(&map(vec![("Properties", text("x"))])), None);
    assert_eq!(resource_type(&map(vec![("Type", YamlValue::Integer(1))])), None);
}

#[test]
fn schema_lookup_by_type() {
    let doc = template();
    let resources = entries(&entries(&doc)[1].1);
    let resource = &resources[0].1;
    assert_eq!(schema_file_for(resource), Some("aws_ec2_instance.json".to_string()));
    let table = schemas();
    assert_eq!(schema_for(resource, &table), Some(&ec2_schema()));
    assert_eq!(schema_for(resource, &Vec::new()), None);
    assert_eq!(schema_files(&doc), vec!["aws_ec2_instance.json".to_string()]);
    assert_eq!(schema_files(&text("x")), Vec::<String>::new());
}

#[test]
fn type_names_become_file_names() {
    assert_eq!(type_to_filename("AWS::EC2::Instance"), "aws_ec2_instance.json");
    assert_eq!(type_to_filename("AWS::S3::Bucket"), "aws_s3_bucket.json");
    assert_eq!(type_to_filename("Plain"), "plain.json");
    assert_eq!(type_to_filename(""), ".json");
}

#[test]
fn split_follows_str_split() {
    let cases = ["AWS::EC2::Instance", "", "::", "a:::b", "a::", "::b", "a:b", "x::::y"];
    for case in cases {
        let expected: Vec<String> = case.split("::").map(|s| s.to_string()).collect();
        assert_eq!(split_type_name(case), expected);
    }
}

#[test]
fn parts_are_joined_with_underscores() {
    let parts = vec!["aws".to_string(), "ec2".to_string(), "instance".to_string()];
    assert_eq!(filename_from_parts(&parts), "aws_ec2_instance.json");
    assert_eq!(filename_from_parts(&Vec::new()), ".json");
    assert_eq!(filename_from_parts(&vec!["Only".to_string()]), "Only.json");
}

#[test]
fn deep_clone_copies_the_whole_tree() {
    let doc = template();
    let copy = doc.deep_clone();
    assert_eq!(copy, doc);
    assert_eq!(doc.clone(), doc);
}

const TEMPLATE_TEXT: &str = r#"
Parameters:
  DbSubnetIpBlocks:
    Description: "Comma-delimited list of three CIDR blocks"
    Type: CommaDelimitedList
    Default: "10.0.48.0/24, 10.0.112.0/24, 10.0.176.0/24"
Resources:
   myInstance:
     Type: 'AWS::EC2::Instance'
     Properties:
        ImageId: ami-0a70b9d193ae8a799
        SubnetId:
            Ref: "PublicSubnet"
        NetworkInterfaces:
          - AssociatePublicIpAddress: "true"
            DeviceIndex: "0"
            GroupSet:
              - Ref: "myVPCEC2SecurityGroup"
            SubnetId:
              Ref: "PublicSubnet"
"#;

const EC2_SCHEMA_TEXT: &str = r#"{
  "typeName": "AWS::EC2::Instance",
  "properties": {
    "ImageId": {"type": "string"},
    "SubnetId": {"type": "string"},
    "NetworkInterfaces": {"type": "array"},
    "SecurityGroups": {"type": "array"}
  },
  "dependentExcluded": {
    "NetworkInterfaces": ["SubnetId", "SecurityGroups"]
  }
}"#;

fn schema_texts() -> Vec<(String, String)> {
    vec![("aws_ec2_instance.json".to_string(), EC2_SCHEMA_TEXT.to_string())]
}

#[test]
fn it_works() {
    let result = clean_template_text(TEMPLATE_TEXT, &schema_texts()).unwrap();
    let sections = entries(&result);
    assert_eq!(sections.len(), 2);
    assert_eq!(sections[0], entries(&template())[0]);
    assert_eq!(sections[1].0, text("Resources"));
    let resources = entries(&sections[1].1);
    assert_eq!(resources.len(), 1);
    assert_eq!(resources[0].0, text("myInstance"));
    let cleaned = entries(&resources[0].1);
    assert_eq!(keys(cleaned), vec!["ImageId".to_string(), "NetworkInterfaces".to_string()]);
}

#[test]
fn schema_text_parses_to_its_last_document() {
    assert_eq!(schema_from_text(EC2_SCHEMA_TEXT), Ok(Some(ec2_schema())));
    let two = "a: 1\n---\nb: two\n";
    assert_eq!(
        schema_from_text(two),
        Ok(Some(map(vec![("b", text("two"))])))
    );
    assert_eq!(schema_from_text(""), Ok(None));
    assert_eq!(schema_from_text("a: [1"), Err(scan_failure_of("a: [1")));
    let docs = documents_from_text(two).unwrap();
    assert_eq!(
        docs,
        vec![map(vec![("a", YamlValue::Integer(1))]), map(vec![("b", text("two"))])]
    );
    assert_eq!(documents_from_text(""), Ok(vec![]));
    assert_eq!(documents_from_text("a: [1"), Err(scan_failure_of("a: [1")));
}

#[test]
fn template_text_that_does_not_parse() {
    assert_eq!(
        clean_template_text("Resources: [1", &schema_texts()),
        Err(CleanError::TemplateNotParsed(scan_failure_of("Resources: [1")))
    );
    assert_eq!(
        try_clean_template_text("Resources: [1", &schema_texts()),
        Some(Err(CleanError::TemplateNotParsed(scan_failure_of("Resources: [1"))))
    );
}

#[test]
fn schema_text_that_does_not_parse() {
    let texts = vec![("aws_ec2_instance.json".to_string(), "{\"properties\": [".to_string())];
    assert_eq!(
        clean_template_text(TEMPLATE_TEXT, &texts),
        Err(CleanError::SchemaNotParsed(scan_failure_of("{\"properties\": [")))
    );
}

#[test]
fn template_text_that_cannot_be_cleaned() {
    // No document at all.
    assert_eq!(try_clean_template_text("", &schema_texts()), None);
    // The last document is not a mapping.
    assert_eq!(try_clean_template_text("a: 1\n---\n- 2\n", &schema_texts()), None);
    // No schema text for the resource type.
    assert_eq!(try_clean_template_text(TEMPLATE_TEXT, &vec![]), None);
    // A resource without a type.
    let untyped = "Resources:\n  r:\n    Properties:\n      A: 1\n";
    assert_eq!(try_clean_template_text(untyped, &schema_texts()), None);
    // Where it applies, it cleans as `clean_template_text` does (the kept
    // properties may come out in another order).
    let cleaned = try_clean_template_text(TEMPLATE_TEXT, &schema_texts()).unwrap().unwrap();
    let resources = entries(&entries(&cleaned)[1].1);
    assert_eq!(
        keys(entries(&resources[0].1)),
        vec!["ImageId".to_string(), "NetworkInterfaces".to_string()]
    );
}

#[test]
fn template_text_without_resources_is_kept() {
    let t = "AWSTemplateFormatVersion: \"2010-09-09\"\nOutputs:\n  Id: 3\n";
    let result = clean_template_text(t, &vec![]).unwrap();
    assert_eq!(
        result,
        map(vec![
            ("AWSTemplateFormatVersion", text("2010-09-09")),
            ("Outputs", map(vec![("Id", YamlValue::Integer(3))])),
        ])
    );
}

#[test]
fn required_schema_files_of_a_template_text() {
    assert_eq!(required_schema_files(TEMPLATE_TEXT), vec!["aws_ec2_instance.json".to_string()]);
    assert_eq!(required_schema_files("Resources: [1"), Vec::<String>::new());
    assert_eq!(required_schema_files("Outputs: {}"), Vec::<String>::new());
}

#[test]
fn a_type_prefix_adds_its_lowercased_part() {
    assert_eq!(
        type_to_filename("AWS::EC2::Instance"),
        format!("aws_{}", type_to_filename("EC2::Instance"))
    );
    assert_eq!(type_to_filename("Custom::x"), format!("custom_{}", type_to_filename("x")));
}

#[test]
fn cleaning_twice_keeps_the_same_pairs() {
    let schema = ec2_schema();
    let data = entries(&map(vec![
        ("SubnetId", text("s")),
        ("ImageId", text("i")),
        ("NetworkInterfaces", text("n")),
    ]))
    .clone();
    let once = remove_mutually_exclusive(&data, entries(&schema));
    let twice = remove_mutually_exclusive(&once, entries(&schema));
    assert_eq!(once.len(), twice.len());
    for pair in &once {
        assert!(twice.contains(pair));
    }
    let again = remove_mutually_exclusive(&data, entries(&schema));
    for pair in &again {
        assert!(once.contains(pair));
    }
}

#[test]
fn file_names_have_no_capitals_and_no_double_colon() {
    for typ in ["AWS::EC2::Instance", "a:::b", "::", "ÀB::Ÿ", "X::::Y", ""] {
        let f = type_to_filename(typ);
        assert!(f.ends_with(".json"));
        assert!(f.len() >= 5);
        assert!(!f.contains("::"));
        assert!(!f.chars().any(|c| c.is_ascii_uppercase()));
    }
    assert_eq!(type_to_filename("a:::b"), "a_:b.json");
}
