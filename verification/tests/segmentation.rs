use pinyin_match::convert;
use pinyin_match::match_word_pinyin;
use pinyin_match::segment;
use pinyin_match::sort_by_key_length_desc;
use pinyin_match::{BuildError, CompiledMatcher};

fn rec(key: &str, pron: &str) -> (String, String) {
    (key.to_string(), pron.to_string())
}

fn strs(items: &[&str]) -> Vec<String> {
    items.iter().map(|s| s.to_string()).collect()
}

#[test]
fn it_works() {
    println!("{:?}", convert("中国人民喜欢在中国吃饭，中国人的口味，中国饭好吃"));
}

#[test]
fn longest_match_wins() {
    let records = vec![rec("中国", "zhong guo1"), rec("中国人", "zhong guo ren2")];
    let m = CompiledMatcher::build(&records).unwrap();
    assert_eq!(segment(&m, "中国人"), strs(&["zhong guo ren2"]));
}

#[test]
fn fallback_passthrough() {
    let records = vec![rec("中国", "zhong guo1")];
    let m = CompiledMatcher::build(&records).unwrap();
    assert_eq!(segment(&m, "喜"), strs(&["喜"]));
}

#[test]
fn empty_input_yields_no_tokens() {
    let records = vec![rec("中国", "zhong guo1")];
    let m = CompiledMatcher::build(&records).unwrap();
    assert_eq!(segment(&m, ""), Vec::<String>::new());
}

#[test]
fn end_to_end_scenario() {
    let records = vec![
        rec("中国", "zhong guo1"),
        rec("中国人", "zhong guo ren2"),
        rec("中国人民", "zhong guo ren min3"),
    ];
    let m = CompiledMatcher::build(&records).unwrap();
    assert_eq!(
        segment(&m, "中国人民喜欢在中国吃饭"),
        strs(&["zhong guo ren min3", "喜", "欢", "在", "zhong guo1", "吃", "饭"])
    );
}

#[test]
fn total_coverage_on_mixed_input() {
    let records = vec![rec("中国", "zhong guo1")];
    let m = CompiledMatcher::build(&records).unwrap();
    let tokens = segment(&m, "a中国b");
    assert_eq!(tokens, strs(&["a", "zhong guo1", "b"]));
    // two literal characters and one two-character hit cover all four
    let consumed = 1 + 2 + 1;
    assert_eq!(consumed, "a中国b".chars().count());
}

#[test]
fn duplicate_key_overwrite() {
    let records = vec![rec("重", "zhòng"), rec("重", "chóng")];
    let m = CompiledMatcher::build(&records).unwrap();
    assert_eq!(segment(&m, "重"), strs(&["chóng"]));
}

#[test]
fn build_rejects_empty_records() {
    let records: Vec<(String, String)> = Vec::new();
    assert_eq!(CompiledMatcher::build(&records).err(), Some(BuildError::EmptyRecords));
}

#[test]
fn empty_key_never_matches() {
    let records = vec![rec("", "x"), rec("中", "zhōng")];
    let m = CompiledMatcher::build(&records).unwrap();
    assert_eq!(segment(&m, "中a"), strs(&["zhōng", "a"]));
}

#[test]
fn matcher_is_shareable() {
    let records = vec![rec("中国", "zhong guo1")];
    let m = CompiledMatcher::build(&records).unwrap();
    assert_eq!(segment(&m, "中国"), strs(&["zhong guo1"]));
    assert_eq!(segment(&m, "中国"), strs(&["zhong guo1"]));
}

#[test]
fn sort_orders_by_key_length_descending() {
    let entries = vec![rec("中国", "a"), rec("中国人民", "b"), rec("中国人", "c")];
    let sorted = sort_by_key_length_desc(entries);
    assert_eq!(sorted, vec![rec("中国人民", "b"), rec("中国人", "c"), rec("中国", "a")]);
}

#[test]
fn sort_is_stable_for_equal_lengths() {
    let entries = vec![rec("b", "1"), rec("aa", "2"), rec("c", "3")];
    let sorted = sort_by_key_length_desc(entries);
    assert_eq!(sorted, vec![rec("aa", "2"), rec("b", "1"), rec("c", "3")]);
}

#[test]
fn match_word_pinyin_ranks_found_words() {
    let found = match_word_pinyin("中国人民喜欢在中国吃饭");
    assert_eq!(
        found,
        vec![rec("中国人民", "zhong guo ren min3"), rec("中国", "zhong guo1")]
    );
}

#[test]
fn match_word_pinyin_empty_without_hits() {
    assert_eq!(match_word_pinyin("喜欢"), Vec::<(String, String)>::new());
}

#[test]
fn convert_with_demo_dictionary() {
    assert_eq!(
        convert("中国人民喜欢在中国吃饭"),
        strs(&["zhong guo ren min3", "喜", "欢", "在", "zhong guo1", "吃", "饭"])
    );
}

#[test]
fn convert_empty_input() {
    assert_eq!(convert(""), Vec::<String>::new());
}
