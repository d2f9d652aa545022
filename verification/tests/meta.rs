use speech2text::meta::{interpret, Entries, Meta, MetaError};
use std::num::ParseFloatError;

fn entries() -> Vec<(String, String)> {
    [
        ("lfr_window_size", "7"),
        ("lfr_window_shift", " 6\n"),
        ("normalize_samples", "0"),
        ("blank_id", "0"),
        ("neg_mean", "[-8.5, 1e1,\t-2]"),
        ("inv_stddev", "0.5 0.25\r\n,0.125"),
        ("with_itn", "14"),
        ("without_itn", "15"),
        ("lang_auto", "0"),
        ("lang_zh", "3"),
        ("lang_yue", "-7"),
        ("lang_fr", "9"),
    ]
    .iter()
    .map(|(k, v)| (k.to_string(), v.to_string()))
    .collect()
}

fn set(key: &str, value: &str) -> Vec<(String, String)> {
    let mut all = entries();
    for e in all.iter_mut() {
        if e.0 == key {
            e.1 = value.to_string();
        }
    }
    all
}

fn without(keys: &[&str]) -> Vec<(String, String)> {
    entries().into_iter().filter(|e| !keys.contains(&e.0.as_str())).collect()
}

fn read(all: &Vec<(String, String)>) -> Result<Meta<f32>, MetaError<ParseFloatError>> {
    interpret(&Entries::Listed(all), &|s: &str| s.parse::<f32>())
}

fn error(all: &Vec<(String, String)>) -> MetaError<ParseFloatError> {
    match read(all) {
        Err(e) => e,
        Ok(_) => panic!(),
    }
}

#[test]
fn metadata_is_read() {
    let meta = read(&entries()).unwrap();
    assert_eq!(meta.lfr_m, 7);
    assert_eq!(meta.lfr_n, 6);
    assert_eq!(meta.sample_scale, 32768.0f32.to_bits());
    assert_eq!(meta.blank_id, 0);
    assert_eq!(meta.neg_mean, vec![-8.5, 10.0, -2.0]);
    assert_eq!(meta.inv_stddev, vec![0.5, 0.25, 0.125]);
    assert_eq!(meta.with_itn, 14);
    assert_eq!(meta.without_itn, 15);
    assert_eq!(
        meta.lang_ids,
        vec![("auto".to_string(), 0), ("zh".to_string(), 3), ("yue".to_string(), -7)]
    );
}

#[test]
fn normalized_samples_are_not_scaled() {
    assert_eq!(read(&set("normalize_samples", "1")).unwrap().sample_scale, 1.0f32.to_bits());
    assert_eq!(read(&set("normalize_samples", "-3")).unwrap().sample_scale, 1.0f32.to_bits());
    assert_eq!(read(&set("normalize_samples", "x")).unwrap().sample_scale, 32768.0f32.to_bits());
    assert_eq!(read(&without(&["normalize_samples"])).unwrap().sample_scale, 32768.0f32.to_bits());
}

#[test]
fn the_blank_is_0_unless_given() {
    assert_eq!(read(&set("blank_id", " 12 ")).unwrap().blank_id, 12);
    assert_eq!(read(&set("blank_id", "-1")).unwrap().blank_id, 0);
    assert_eq!(read(&without(&["blank_id"])).unwrap().blank_id, 0);
}

#[test]
fn negative_sizes_wrap_as_machine_integers_do() {
    assert_eq!(read(&set("lfr_window_size", "-1")).unwrap().lfr_m, usize::MAX);
}

#[test]
fn a_missing_key_is_reported() {
    for key in ["lfr_window_size", "lfr_window_shift", "neg_mean", "inv_stddev", "with_itn", "without_itn"] {
        match error(&without(&[key])) {
            MetaError::Missing(k) => assert_eq!(k, key),
            _ => panic!(),
        }
    }
}

#[test]
fn the_first_fault_is_reported() {
    match error(&without(&["with_itn", "neg_mean"])) {
        MetaError::Missing(k) => assert_eq!(k, "neg_mean"),
        _ => panic!(),
    }
}

#[test]
fn a_bad_integer_is_reported() {
    for key in ["lfr_window_size", "lfr_window_shift", "with_itn", "without_itn"] {
        for value in ["", " 7.5\n", "2147483648", "seven"] {
            match error(&set(key, value)) {
                MetaError::BadInt { key: k, value: v } => {
                    assert_eq!(k, key);
                    assert_eq!(v, value.trim());
                }
                _ => panic!(),
            }
        }
    }
}

#[test]
fn a_bad_number_is_reported() {
    match error(&set("inv_stddev", "1.0, oops, 2.0, worse")) {
        MetaError::BadReal { key, token, cause } => {
            assert_eq!(key, "inv_stddev");
            assert_eq!(token, "oops");
            assert_eq!(cause, "oops".parse::<f32>().unwrap_err());
        }
        _ => panic!(),
    }
}

#[test]
fn a_model_without_languages_is_refused() {
    assert!(matches!(error(&without(&["lang_auto", "lang_zh", "lang_yue"])), MetaError::NoLanguages));
    assert!(matches!(
        error(&without(&["lang_auto", "lang_zh", "lang_yue", "without_itn"])),
        MetaError::Missing(_)
    ));
}

#[test]
fn empty_lists_are_lists() {
    assert_eq!(read(&set("neg_mean", " [ ] ")).unwrap().neg_mean, Vec::<f32>::new());
}

#[test]
fn of_a_key_listed_twice_the_first_counts() {
    let mut all = entries();
    all.push(("blank_id".to_string(), "5".to_string()));
    let listed = Entries::Listed(&all);
    assert_eq!(listed.get("blank_id"), Some("0".to_string()));
    assert_eq!(listed.get("none"), None);
}
