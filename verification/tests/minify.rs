use const_css_minify::Minifier;

fn run(input: &str) -> String {
    let mut m = Minifier::new();
    m.minify_string(&input.to_string());
    m.get_output()
}

#[test]
fn is_const() {
    assert_eq!(run("#{color:#fff}"), "#{color:#fff}");
}

#[test]
fn empty_str() {
    assert_eq!(run(""), "",);
}

#[test]
fn already_minified() {
    assert_eq!(run("#{color:#fff}"), "#{color:#fff}",);
}

#[test]
fn unneeded_whitespace() {
    assert_eq!(run("# {color:#fff}"), "#{color:#fff}",);
}

#[test]
fn required_whitespace() {
    assert_eq!(run("#{margin:1px 1px}"), "#{margin:1px 1px}",)
}

#[test]
fn trailing_semicolon() {
    assert_eq!(run("#{margin:1px;}"), "#{margin:1px}",);
}

#[test]
fn comments() {
    assert_eq!(run("#{margin:1px /*1px*/}"), "#{margin:1px}",);
}

#[test]
fn quotes() {
    //raw str with double quotes
    assert_eq!(
        run(r#"#{font-family:"Times New Roman", "Courier New"}"#),
        r#"#{font-family:"Times New Roman","Courier New"}"#,
    );
    //str with escaped double quotes
    assert_eq!(
        run("#{font-family:\"Times New Roman\", \"Courier New\"}"),
        "#{font-family:\"Times New Roman\",\"Courier New\"}",
    );
    //str with single quotes
    assert_eq!(
        run("#{font-family:'Times New Roman', 'Courier New'}"),
        "#{font-family:'Times New Roman','Courier New'}",
    );
    //str with comment inside single quotes
    assert_eq!(
        run("#{font-family:'/*comment*/'}"),
        "#{font-family:'/*comment*/'}"
    );
}

#[test]
fn unclosed_comments_quotes() {
    //should not panic
    assert_eq!(run("\""), "\"");
    assert_eq!(run("'"), "'");
    assert_eq!(run("/*"), "");
}

#[test]
fn pseudo_selectors() {
    assert_eq!(run("div :hover ::after{}"), "div :hover ::after{}");
}

#[test]
fn nested_classes() {
    assert_eq!(run("div { span {margin:1px}}"), "div{span{margin:1px}}");
}

#[test]
fn hexcode_colors() {
    assert_eq!(run("#{color:#000}"), "#{color:#000}");
    assert_eq!(run("#{color:#abc}"), "#{color:#abc}");
    assert_eq!(run("#{color:#DEFG}"), "#{color:#DEFG}");
    assert_eq!(run("#{color:#aabbcc}"), "#{color:#abc}");
    assert_eq!(run("#{color:#aabbccdd}"), "#{color:#abcd}");
    assert_eq!(run("#{color:#aabbb}"), "#{color:#aabbb}");
    assert_eq!(run("#{color:#DDEEFFF}"), "#{color:#DDEEFFF}");
    assert_eq!(run("#{color:#aabbccddd}"), "#{color:#aabbccddd}");
}

#[test]
fn rgbfunc_legacy_style() {
    assert_eq!(run("#{color:rgb(0, 0, 0)}"), "#{color:#000}");
    assert_eq!(run("#{color:rgb(255,255,254)}"), "#{color:#fffffe}");
    assert_eq!(run("#{color:rgb(255,255,255)}"), "#{color:#fff}");
    assert_eq!(run("#{color:rgb(0%, 0%, 0%)}"), "#{color:#000}");
    assert_eq!(run("#{color:rgb(1%, 2%, 3%)}"), "#{color:#030508}");
    assert_eq!(run("#{color:rgb(4%, 5%, 6%)}"), "#{color:#0a0d0f}");
    assert_eq!(run("#{color:rgb(7%, 8%, 9%)}"), "#{color:#121417}");
    assert_eq!(run("#{color:rgb(20%, 20%, 20%)}"), "#{color:#333}");
    assert_eq!(run("#{color:rgb(40%, 40%, 40%)}"), "#{color:#666}");
    assert_eq!(run("#{color:rgb(50%, 50%, 50%)}"), "#{color:#808080}");
    assert_eq!(run("#{color:rgb(60%, 60%, 60%)}"), "#{color:#999}");
    assert_eq!(run("#{color:rgb(80%, 80%, 80%)}"), "#{color:#ccc}");
    assert_eq!(run("#{color:rgb(100%, 100%, 100%)}"), "#{color:#fff}");
    assert_eq!(run("#{color:rgba(0%, 0%, 0%, 0)}"), "#{color:#0000}");
    assert_eq!(
        run("#{color:rgba(100%, 100%, 100%, 0.5)}"),
        "#{color:#ffffff80}"
    );
    assert_eq!(run("#{color:rgba(100%, 100%, 100%, 1)}"), "#{color:#fff}");
    assert_eq!(run("#{color:rgba(80%, 80%, 80%, 0.8)}"), "#{color:#cccc}");
}

#[test]
fn rgbfunc_modern_style() {
    assert_eq!(run("#{color:rgb(0 0 0)}"), "#{color:#000}");
    assert_eq!(run("#{color:rgba(0 0 0)}"), "#{color:#000}");
    assert_eq!(run("#{color:rgb(0 100% 255)}"), "#{color:#0ff}");
    assert_eq!(run("#{color:rgb(0 0 0 / 0.5)}"), "#{color:#00000080}");
}
