use pod_assets::entities::parse_entities;
use pod_assets::error::ParseReason;


fn expect_err<T>(r: Result<T, pod_assets::error::ParseError>) -> pod_assets::error::ParseError {
    match r {
        Ok(_) => panic!("expected an error"),
        Err(e) => e,
    }
}

fn type_block() -> Vec<String> {
    vec![
        "3,a,b,c,d,e,TENT.BIN,TENTD.BIN".to_string(),
        "1,2,3,4,5".to_string(),
        "50,7,25,-1".to_string(),
        "whatever".to_string(),
        ";NewHit".to_string(),
        "".to_string(),
        "!NewAtakRet".to_string(),
        "".to_string(),
        "A small tent".to_string(),
        "#New2ndweapon".to_string(),
        "".to_string(),
        "%SFX".to_string(),
        "a.wav".to_string(),
        "b.wav".to_string(),
    ]
}

fn doc(lines: &[String]) -> Vec<u8> {
    let mut s = String::new();
    for l in lines {
        s.push_str(l);
        s.push_str("\r\n");
    }
    s.into_bytes()
}

#[test]
fn empty_counts_give_empty_lists() {
    // a two-line-count document parses to nothing, with no error
    let (defs, places) = parse_entities(b"0\n0\n").unwrap();
    assert_eq!(defs.len(), 0);
    assert_eq!(places.len(), 0);
}

#[test]
fn one_type_and_one_placement_parse_exactly() {
    let mut lines = vec!["1".to_string()];
    lines.extend(type_block());
    lines.push("1".to_string());
    lines.push("0,5,1048576,-2097152,3145728,0,0,0".to_string());
    let text = doc(&lines);
    let (defs, places) = parse_entities(&text).unwrap();
    assert_eq!(defs.len(), 1);
    let d = &defs[0];
    assert_eq!(d.class, 3);
    assert_eq!(d.model, b"TENT.BIN".to_vec());
    assert_eq!(d.model_destroyed, b"TENTD.BIN".to_vec());
    assert_eq!(d.drop_a.percent, 50);
    assert_eq!(d.drop_a.item, 7);
    assert_eq!(d.drop_b.percent, 25);
    // item -1 stored as its two's-complement byte
    assert_eq!(d.drop_b.item, 255);
    assert_eq!(d.description, b"A small tent".to_vec());

    assert_eq!(places.len(), 1);
    let p = &places[0];
    assert_eq!(p.ty, 0);
    assert_eq!(p.flags, 5);
    // stored x and z swap; both gain the 16 * 2^23 centering offset
    assert_eq!(p.x, 3145728 + 134217728);
    assert_eq!(p.y, -2097152);
    assert_eq!(p.z, 1048576 + 134217728);
}

#[test]
fn broken_sentinel_names_its_line() {
    let mut lines = vec!["1".to_string()];
    let mut block = type_block();
    block[4] = ";NewHot".to_string();
    lines.extend(block);
    lines.push("0".to_string());
    let text = doc(&lines);
    let e = expect_err(parse_entities(&text));
    // the sentinel sits on the sixth line of the document, one-based
    assert_eq!(e.line, 6);
    assert_eq!(e.reason, ParseReason::BadSentinel);
}

#[test]
fn every_sentinel_is_checked() {
    for (at, line_no) in [(6usize, 7usize), (9, 10), (11, 12)] {
        let mut lines = vec!["1".to_string()];
        let mut block = type_block();
        block[at] = "garbage".to_string();
        lines.extend(block);
        lines.push("0".to_string());
        let e = expect_err(parse_entities(&doc(&lines)));
        assert_eq!(e.line, line_no + 1);
        assert_eq!(e.reason, ParseReason::BadSentinel);
    }
}

#[test]
fn bad_numbers_and_short_lines_are_fatal() {
    let e = expect_err(parse_entities(b"x\n"));
    assert_eq!(e.line, 1);
    assert_eq!(e.reason, ParseReason::BadNumber);

    // a type whose first line carries too few fields
    let text = doc(&["1".to_string(), "3,a,b".to_string()]);
    let e2 = expect_err(parse_entities(&text));
    assert_eq!(e2.line, 2);
    assert_eq!(e2.reason, ParseReason::MissingField);

    // a drop percentage beyond 100
    let mut lines = vec!["1".to_string()];
    let mut block = type_block();
    block[2] = "150,7,25,-1".to_string();
    lines.extend(block);
    lines.push("0".to_string());
    let e3 = expect_err(parse_entities(&doc(&lines)));
    assert_eq!(e3.line, 4);
    assert_eq!(e3.reason, ParseReason::BadNumber);
}

#[test]
fn placement_type_indices_are_checked() {
    let mut lines = vec!["1".to_string()];
    lines.extend(type_block());
    lines.push("1".to_string());
    lines.push("7,5,0,0,0,0,0,0".to_string());
    let e = expect_err(parse_entities(&doc(&lines)));
    // the placement line: 1 count + 14 type lines + 1 count + 1
    assert_eq!(e.line, 17);
    assert_eq!(e.reason, ParseReason::BadIndex);
}

#[test]
fn lines_split_on_bare_newlines_too() {
    // CRLF-insensitive: plain LF documents parse the same
    let (defs, places) = parse_entities(b"0\r\n0\r\n").unwrap();
    assert_eq!(defs.len(), 0);
    assert_eq!(places.len(), 0);
    let mut lines = vec!["1".to_string()];
    lines.extend(type_block());
    lines.push("0".to_string());
    let lf_text = lines.join("\n") + "\n";
    let (defs2, _) = parse_entities(lf_text.as_bytes()).unwrap();
    assert_eq!(defs2.len(), 1);
}

#[test]
fn missing_final_newline_still_parses() {
    let (defs, places) = parse_entities(b"0\n0").unwrap();
    assert_eq!(defs.len(), 0);
    assert_eq!(places.len(), 0);
}
