use rforests::dataset::Instance;
use rforests::svmlight::{is_data_line, parse_line, ParseError, ParsedLine};

fn text(v: &[u8]) -> String {
    String::from_utf8(v.to_vec()).unwrap()
}

fn instance(p: &ParsedLine) -> Instance {
    let label: f64 = text(&p.label).parse().unwrap();
    let features: Vec<(u64, u64)> = p
        .features
        .iter()
        .map(|(id, v)| (*id, text(v).parse::<f64>().unwrap().to_bits()))
        .collect();
    Instance::from_features(label.to_bits(), p.qid, &features)
}

fn feature(s: &str) -> Result<(u64, f64), ParseError> {
    let line = format!("0 qid:1 {}", s);
    let p = parse_line(line.as_bytes())?;
    let (id, v) = &p.features[0];
    Ok((*id, text(v).parse::<f64>().unwrap()))
}

#[test]
fn test_line_parse() {
    let s = "3.0 qid:3864 1:3.000000 2:9.000000 4:3.0 # 3:10.0";
    let p = parse_line(s.as_bytes()).unwrap();
    let inst = instance(&p);
    assert_eq!(f64::from_bits(inst.label()), 3.0);
    assert_eq!(inst.qid(), 3864);
    let values: Vec<f64> = (1..=4).map(|f| f64::from_bits(inst.value(f))).collect();
    assert_eq!(values, vec![3.0, 9.0, 0.0, 3.0]);
}

#[test]
fn feature_fields() {
    assert_eq!(feature("1:3"), Ok((1, 3.0)));
    assert_eq!(feature("1:"), Err(ParseError::BadFeature));
    assert_eq!(feature(":3"), Err(ParseError::BadFeature));
    assert_eq!(feature("1:2:3"), Err(ParseError::BadFeature));
    assert_eq!(feature("1"), Err(ParseError::BadFeature));
    assert_eq!(feature("0:1"), Err(ParseError::BadFeature));
}

#[test]
fn instance_line_with_comment() {
    let p = parse_line(b"0 qid:3864 1:3.0 2:9.0 # comment").unwrap();
    assert_eq!(p.label, b"0".to_vec());
    assert_eq!(p.qid, 3864);
    assert_eq!(p.features, vec![(1, b"3.0".to_vec()), (2, b"9.0".to_vec())]);
    let inst = instance(&p);
    assert_eq!(inst.values().len(), 2);
    assert_eq!(f64::from_bits(inst.value(2)), 9.0);
}

#[test]
fn meta_and_short_lines_fail() {
    assert_eq!(parse_line(b"@feature").err(), Some(ParseError::Meta));
    assert_eq!(parse_line(b"   @feature id:2").err(), Some(ParseError::Meta));
    assert_eq!(parse_line(b"1").err(), Some(ParseError::MissingFields));
    assert_eq!(parse_line(b"1 # qid:2").err(), Some(ParseError::MissingFields));
    assert_eq!(parse_line(b"1 qd:2").err(), Some(ParseError::BadQid));
    assert_eq!(parse_line(b"1 qid:x").err(), Some(ParseError::BadQid));
    assert_eq!(parse_line(b"1 qid:18446744073709551616").err(), Some(ParseError::BadQid));
    assert_eq!(parse_line(b"1 qid:18446744073709551615").unwrap().qid, u64::MAX);
    assert_eq!(parse_line(b"1 qid:+7\t2:1").unwrap().qid, 7);
}

#[test]
fn line_without_features() {
    let p = parse_line(b"2 qid:5").unwrap();
    assert!(p.features.is_empty());
}

#[test]
fn data_lines() {
    assert!(is_data_line(b"0 qid:1 1:2"));
    assert!(!is_data_line(b"   "));
    assert!(!is_data_line(b""));
    assert!(!is_data_line(b"  # comment"));
    assert!(is_data_line(b"@feature"));
}
