use pinyin_match::parse;
use pinyin_match::ParseError;
use pinyin_match::{compile, compile_heteronyms};

fn rec(key: &str, pron: &str) -> (String, String) {
    (key.to_string(), pron.to_string())
}

#[test]
fn skip_line_without_colon() {
    assert_eq!(parse("just some annotation"), Ok(None));
    assert_eq!(parse(""), Ok(None));
}

#[test]
fn skip_line_with_two_colons() {
    assert_eq!(parse("a: b: c"), Ok(None));
}

#[test]
fn skip_line_with_comment_key() {
    assert_eq!(parse("# heading: ignored"), Ok(None));
    assert_eq!(parse("   #x: y"), Ok(None));
}

#[test]
fn parse_plain_record() {
    assert_eq!(parse("燕: yān"), Ok(Some(rec("燕", "yān"))));
}

#[test]
fn parse_strips_trailing_comment() {
    assert_eq!(parse("顶证: dǐng zhèng # note"), Ok(Some(rec("顶证", "dǐng zhèng"))));
}

#[test]
fn parse_keeps_hash_inside_token() {
    assert_eq!(parse("a: b#c d"), Ok(Some(rec("a", "b#c d"))));
}

#[test]
fn parse_normalizes_whitespace() {
    assert_eq!(parse("  中国  :  zhong   guo1  "), Ok(Some(rec("中国", "zhong guo1"))));
}

#[test]
fn parse_decodes_codepoint_key() {
    assert_eq!(parse("U+4E2D: zhong1"), Ok(Some(rec("中", "zhong1"))));
}

#[test]
fn parse_decodes_codepoint_key_lower_hex() {
    assert_eq!(parse("U+41f8: chéng tīng  # 䇸"), Ok(Some(rec("䇸", "chéng tīng"))));
}

#[test]
fn parse_rejects_bad_hex() {
    assert_eq!(parse("U+ZZZZ: x"), Err(ParseError::BadCodepoint));
    assert_eq!(parse("U+: x"), Err(ParseError::BadCodepoint));
}

#[test]
fn parse_rejects_out_of_range_codepoint() {
    assert_eq!(parse("U+110000: x"), Err(ParseError::BadCodepoint));
    assert_eq!(parse("U+FFFFFFFFFF: x"), Err(ParseError::BadCodepoint));
}

#[test]
fn parse_rejects_surrogate_codepoint() {
    assert_eq!(parse("U+D800: x"), Err(ParseError::BadCodepoint));
}

#[test]
fn parse_rejects_empty_key() {
    assert_eq!(parse(": zhong1"), Err(ParseError::EmptyKey));
    assert_eq!(parse("   : zhong1"), Err(ParseError::EmptyKey));
}

#[test]
fn parse_rejects_empty_pronunciation() {
    assert_eq!(parse("中:"), Err(ParseError::EmptyPronunciation));
    assert_eq!(parse("中:   "), Err(ParseError::EmptyPronunciation));
    assert_eq!(parse("中: # only a comment"), Err(ParseError::EmptyPronunciation));
}

#[test]
fn compile_collects_records_in_order() {
    let sources = vec![
        "燕: yān\n# note: skipped\n顶证: dǐng zhèng # x\n".to_string(),
        "中国: zhong guo1".to_string(),
    ];
    let records = compile(&sources).unwrap();
    assert_eq!(
        records,
        vec![rec("燕", "yān"), rec("顶证", "dǐng zhèng"), rec("中国", "zhong guo1")]
    );
}

#[test]
fn compile_keeps_duplicate_keys() {
    let sources = vec!["重: zhòng\n重: chóng\n".to_string()];
    let records = compile(&sources).unwrap();
    assert_eq!(records, vec![rec("重", "zhòng"), rec("重", "chóng")]);
}

#[test]
fn compile_reports_offending_source_and_line() {
    let sources = vec!["燕: yān".to_string(), "ok: fine\nbad:\n".to_string()];
    let err = compile(&sources).unwrap_err();
    assert_eq!(err.source, 1);
    assert_eq!(err.line, 1);
    assert_eq!(err.error, ParseError::EmptyPronunciation);
}

#[test]
fn compile_handles_crlf_lines() {
    let sources = vec!["燕: yān\r\n中: zhōng\r\n".to_string()];
    let records = compile(&sources).unwrap();
    assert_eq!(records, vec![rec("燕", "yān"), rec("中", "zhōng")]);
}

#[test]
fn heteronyms_split_on_commas() {
    assert_eq!(compile_heteronyms("重,好,行"), vec!["重", "好", "行"]);
}

#[test]
fn heteronyms_keep_empty_fields() {
    assert_eq!(compile_heteronyms("重,,好,"), vec!["重", "", "好", ""]);
    assert_eq!(compile_heteronyms(""), vec![""]);
}
