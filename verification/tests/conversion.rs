use character_converter::is_simplified;
use character_converter::is_traditional;
use character_converter::simplified_to_traditional;
use character_converter::traditional_to_simplified;
use character_converter::Converter;
use character_converter::InitializationError;

fn pairs(entries: &[(&str, &str)]) -> Vec<(String, String)> {
    entries
        .iter()
        .map(|(k, v)| (k.to_string(), v.to_string()))
        .collect()
}

/// A converter over a dictionary that covers the vocabulary of these tests:
/// single-value keys for the common simplifications, plus one key of two
/// scalar values per direction.
fn converter() -> Converter {
    let t2s = pairs(&[
        ("嚴", "严"),
        ("權", "权"),
        ("們", "们"),
        ("賦", "赋"),
        ("並", "并"),
        ("應", "应"),
        ("關", "关"),
        ("係", "系"),
        ("對", "对"),
        ("歐", "欧"),
        ("歐洲", "欧洲"),
    ]);
    let s2t = pairs(&[
        ("严", "嚴"),
        ("权", "權"),
        ("们", "們"),
        ("赋", "賦"),
        ("并", "並"),
        ("应", "應"),
        ("关", "關"),
        ("系", "係"),
        ("对", "對"),
        ("欧", "歐"),
        ("和", "咊"),
        ("以", "㕥"),
        ("欧洲", "歐洲"),
    ]);
    Converter::new(&t2s, &s2t).unwrap()
}

#[test]
fn test_is_traditional() {
    let converter = converter();
    let simplified = "欧洲";
    let traditional = "歐洲";
    assert_eq!(true, is_traditional(&converter, traditional));
    assert_eq!(false, is_traditional(&converter, simplified));
}

#[test]
fn test_is_simplified() {
    let converter = converter();
    let simplified = "欧洲";
    let traditional = "歐洲";
    assert_eq!(true, is_simplified(&converter, simplified));
    assert_eq!(false, is_simplified(&converter, traditional));
}

#[test]
fn test_traditional_to_simplified() {
    let converter = converter();
    let simplified = "欧洲";
    let traditional = "歐洲";
    assert_eq!(simplified, traditional_to_simplified(&converter, traditional));

    let traditional = "人人生而自由﹐在尊嚴和權利上一律平等。他們賦有理性和良心﹐並應以兄弟關係的精神互相對待。";
    let simplified = "人人生而自由﹐在尊严和权利上一律平等。他们赋有理性和良心﹐并应以兄弟关系的精神互相对待。";
    assert_eq!(simplified, traditional_to_simplified(&converter, traditional));
}

#[test]
fn test_simplified_to_traditional() {
    let converter = converter();
    let simplified = "欧洲";
    let traditional = "歐洲";
    assert_eq!(traditional, simplified_to_traditional(&converter, simplified));

    let traditional = "人人生而自由﹐在尊嚴咊權利上一律平等。他們賦有理性咊良心﹐並應㕥兄弟關係的精神互相對待。";
    let simplified = "人人生而自由﹐在尊严和权利上一律平等。他们赋有理性和良心﹐并应以兄弟关系的精神互相对待。";
    assert_eq!(traditional, simplified_to_traditional(&converter, simplified));
}

#[test]
fn test_methods_match_free_functions() {
    let converter = converter();
    let traditional = "歐洲";
    assert_eq!("欧洲", converter.traditional_to_simplified(traditional));
    assert_eq!("歐洲", converter.simplified_to_traditional("欧洲"));
    assert!(converter.is_traditional(traditional));
    assert!(converter.is_simplified("欧洲"));
}

#[test]
fn test_empty_string() {
    let converter = converter();
    assert_eq!("", traditional_to_simplified(&converter, ""));
    assert_eq!("", simplified_to_traditional(&converter, ""));
}

#[test]
fn test_passthrough() {
    let converter = converter();
    let neutral = "hello, world 123";
    assert_eq!(neutral, traditional_to_simplified(&converter, neutral));
    assert_eq!(neutral, simplified_to_traditional(&converter, neutral));
}

#[test]
fn test_idempotent_on_converted_text() {
    let converter = converter();
    let traditional = "人人生而自由﹐在尊嚴和權利上一律平等。他們賦有理性和良心﹐並應以兄弟關係的精神互相對待。";
    let once = traditional_to_simplified(&converter, traditional);
    let twice = traditional_to_simplified(&converter, &once);
    assert_eq!(once, twice);
}

#[test]
fn test_longest_match_wins() {
    let t2s = pairs(&[("歐", "单"), ("歐洲", "双双")]);
    let s2t = pairs(&[]);
    let converter = Converter::new(&t2s, &s2t).unwrap();
    assert_eq!("双双", traditional_to_simplified(&converter, "歐洲"));
    assert_eq!("单", traditional_to_simplified(&converter, "歐"));
    assert_eq!("单月", traditional_to_simplified(&converter, "歐月"));
    assert_eq!("双双人", traditional_to_simplified(&converter, "歐洲人"));
}

#[test]
fn test_repeated_key_no_overlap_skipping() {
    let t2s = pairs(&[("歐洲", "欧洲")]);
    let s2t = pairs(&[]);
    let converter = Converter::new(&t2s, &s2t).unwrap();
    assert_eq!(
        "欧洲欧洲欧洲",
        traditional_to_simplified(&converter, "歐洲歐洲歐洲")
    );
}

#[test]
fn test_match_never_splits_a_scalar_value() {
    // The keys "一" and the text "且" share their first two bytes in UTF-8;
    // a byte-level prefix that is not a whole-scalar-value prefix must never
    // count as a match.
    let t2s = pairs(&[("一", "壹")]);
    let s2t = pairs(&[]);
    let converter = Converter::new(&t2s, &s2t).unwrap();
    assert_eq!("且", traditional_to_simplified(&converter, "且"));
    assert_eq!("壹且", traditional_to_simplified(&converter, "一且"));
}

#[test]
fn test_neutral_text_belongs_to_both_scripts() {
    let converter = converter();
    let neutral = "。，！？0123456789 abc";
    assert_eq!(true, is_traditional(&converter, neutral));
    assert_eq!(true, is_simplified(&converter, neutral));
}

#[test]
fn test_detection_ignores_multi_value_keys() {
    // Detection considers single-scalar-value membership only, even though
    // conversion matches keys of several scalar values.
    let t2s = pairs(&[("歐洲", "欧洲")]);
    let s2t = pairs(&[("欧洲", "歐洲")]);
    let converter = Converter::new(&t2s, &s2t).unwrap();
    assert_eq!(true, is_traditional(&converter, "欧洲"));
    assert_eq!(true, is_simplified(&converter, "歐洲"));
}

#[test]
fn test_first_violation_decides_error() {
    let t2s = pairs(&[("歐", "欧"), ("歐", "区")]);
    let s2t = pairs(&[("", "空")]);
    let r = Converter::new(&t2s, &s2t);
    assert_eq!(Some(InitializationError::DuplicateKey), r.err());
}

#[test]
fn test_duplicate_key_is_refused() {
    let t2s = pairs(&[("歐", "欧"), ("歐", "区")]);
    let s2t = pairs(&[]);
    let r = Converter::new(&t2s, &s2t);
    assert_eq!(Some(InitializationError::DuplicateKey), r.err());
}

#[test]
fn test_empty_key_is_refused() {
    let t2s = pairs(&[("歐", "欧")]);
    let s2t = pairs(&[("", "空")]);
    let r = Converter::new(&t2s, &s2t);
    assert_eq!(Some(InitializationError::EmptyKey), r.err());
}
