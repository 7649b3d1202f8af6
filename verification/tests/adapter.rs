use pearl_params::create_querystring;
use pearl_params::is_key;
use pearl_params::parse;
use pearl_params::ConfigMap;

#[test]
fn contains_key() {
    let key = "rec_prefix";
    let nokey = "no_key";
    assert_eq!(is_key(key), true);
    assert_eq!(is_key(nokey), false);
}

#[test]
fn parse_result_map() {
    let input = "framesize = 1920x1080 autoframesize = slicemode = on audio = audiopreset = test type = ";

    let result = parse(input);
    assert_eq!(result.len(), 6);

    let validate = vec![
        ("framesize", "1920x1080"),
        ("autoframesize", ""),
        ("slicemode", "on"),
        ("audio", ""),
        ("audiopreset", "test"),
        ("type", ""),
    ];

    for (k, v) in validate {
        assert_eq!(result.get(k).unwrap().as_str(), v);
    }
}

#[test]
fn test_querystring() {
    let mut input = ConfigMap::new();
    input.insert(String::from("slicemode"), String::from("on"));
    input.insert(String::from("audiopreset"), String::from("test"));

    assert_eq!(create_querystring(input), "?audiopreset=test&slicemode=on");
}

#[test]
fn querystring_of_empty_mapping() {
    let empty = ConfigMap::new();
    assert_eq!(create_querystring(empty), "?");
}

#[test]
fn querystring_of_single_entry() {
    let mut input = ConfigMap::new();
    input.insert(String::from("slicemode"), String::from("on"));
    assert_eq!(create_querystring(input), "?slicemode=on");
}

#[test]
fn trailing_pending_key_is_dropped() {
    let result = parse("framesize");
    assert_eq!(result.len(), 0);
    assert!(result.get("framesize").is_none());
}

#[test]
fn duplicate_key_last_write_wins() {
    let result = parse("type = 2 type = 6");
    assert_eq!(result.len(), 1);
    assert_eq!(result.get("type").unwrap().as_str(), "6");
}

#[test]
fn stray_value_is_dropped() {
    let result = parse("= 1920x1080 framesize = 1080p");
    assert_eq!(result.len(), 1);
    assert_eq!(result.get("framesize").unwrap().as_str(), "1080p");
}

#[test]
fn reencoding_a_parse_keeps_all_pairs() {
    let input = "framesize = 1920x1080 autoframesize = slicemode = on audio = audiopreset = test type = ";
    let result = parse(input);
    assert_eq!(
        create_querystring(result),
        "?audio=&audiopreset=test&autoframesize=&framesize=1920x1080&slicemode=on&type="
    );
}

#[test]
fn tokens_are_trimmed_before_classification() {
    let result = parse("framesize\t = \t1080p");
    assert_eq!(result.len(), 1);
    assert_eq!(result.get("framesize").unwrap().as_str(), "1080p");
}

#[test]
fn key_match_is_exact_and_case_sensitive() {
    assert!(is_key("framesize"));
    assert!(!is_key("Framesize"));
    assert!(!is_key(" framesize"));
    assert!(!is_key("framesize "));
    assert!(!is_key(""));
    assert!(is_key("unicast_address"));
    assert!(is_key("touchscreen_enabled"));
    assert!(is_key("rec_upnp"));
}

#[test]
fn insert_overwrites_and_orders() {
    let mut m = ConfigMap::new();
    m.insert(String::from("vbitrate"), String::from("4000"));
    m.insert(String::from("audio"), String::from("on"));
    m.insert(String::from("vbitrate"), String::from("8000"));
    assert_eq!(m.len(), 2);
    assert_eq!(m.get("vbitrate").unwrap().as_str(), "8000");
    assert_eq!(create_querystring(m), "?audio=on&vbitrate=8000");
}

#[test]
fn lookup_of_absent_key_is_none() {
    let result = parse("framesize = 1920x1080");
    assert!(result.get("vbitrate").is_none());
}
