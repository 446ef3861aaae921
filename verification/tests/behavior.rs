use const_css_minify::{try_decode_rgb_func, try_minify_hex_color, Minifier};

fn transform(input: &str) -> (String, Vec<String>) {
    let mut m = Minifier::new();
    m.minify_string(&input.to_string());
    let msgs = m.error_messages();
    (m.get_output(), msgs)
}

fn minified(input: &str) -> String {
    transform(input).0
}

#[test]
fn idempotent_on_scenarios() {
    let cases = [
        "div :hover ::after{}",
        "div { span {margin:1px}}",
        "# {color:#fff}",
        "#{margin:1px;}",
        "#{color:rgb(0, 0, 0)}",
        "#{font-family:'Times New Roman', 'Courier New'}",
        "a , b { color : #aabbcc ; }",
        "",
    ];
    for case in cases {
        let once = minified(case);
        let twice = minified(&once);
        assert_eq!(twice, once);
    }
}

#[test]
fn quote_bytes_survive() {
    let out = minified("#{content:\"  a  ;  {}}  /*x*/  \"}");
    assert!(out.contains("\"  a  ;  {}}  /*x*/  \""));
    let out = minified("a '  keep /* this */ ; '");
    assert!(out.contains("'  keep /* this */ ; '"));
}

#[test]
fn whitespace_collapses_to_single_interior_spaces() {
    assert_eq!(minified("  a   b\t\r\nc  "), "a b c");
    assert_eq!(minified("a /*c*/ b"), "a b");
    assert_eq!(minified("div {  margin : 1px  2px  }"), "div{margin:1px 2px}");
}

#[test]
fn warnings_for_unterminated_input() {
    let (out, msgs) = transform("a{/*never closed");
    assert_eq!(out, "a{");
    assert_eq!(msgs.len(), 1);
    assert_eq!(msgs[0], "reached end of input while inside comment");

    let (out, msgs) = transform("a{content:\"dangling");
    assert_eq!(out, "a{content:\"dangling");
    assert_eq!(msgs.len(), 1);
    assert_eq!(msgs[0], "reached end of input while inside quote string");

    let (_, msgs) = transform("'x /*");
    assert_eq!(msgs.len(), 1);
}

#[test]
fn hex_shortener_direct() {
    let ok = try_minify_hex_color(&"#aabbcc".chars().collect());
    assert_eq!(ok.unwrap(), "#abc".chars().collect::<Vec<char>>());
    let ok = try_minify_hex_color(&"#AaBbCc".chars().collect());
    assert_eq!(ok.unwrap(), "#AaBbCc".chars().collect::<Vec<char>>());
    let ok = try_minify_hex_color(&"#ABCDEF12".chars().collect());
    assert_eq!(ok.unwrap(), "#ABCDEF12".chars().collect::<Vec<char>>());
    assert!(try_minify_hex_color(&"#aabbb".chars().collect()).is_err());
    assert!(try_minify_hex_color(&"#aabbcg".chars().collect()).is_err());
    assert!(try_minify_hex_color(&"aabbcc".chars().collect()).is_err());
}

#[test]
fn rgb_decoder_direct() {
    let ok = try_decode_rgb_func(&"rgb(12, 34, 56)".chars().collect());
    assert_eq!(ok.unwrap(), "#0c2238".chars().collect::<Vec<char>>());
    let ok = try_decode_rgb_func(&"rgba(0,0,0,0.25)".chars().collect());
    assert_eq!(ok.unwrap(), "#00000040".chars().collect::<Vec<char>>());
    let ok = try_decode_rgb_func(&"rgb(12.5% 0% 100%)".chars().collect());
    assert_eq!(ok.unwrap(), "#2000ff".chars().collect::<Vec<char>>());
}

#[test]
fn rgb_rejections_pass_through() {
    // out-of-range channels
    assert_eq!(minified("a{c:rgb(256,0,0)}"), "a{c:rgb(256,0,0)}");
    assert_eq!(minified("a{c:rgb(101%,0%,0%)}"), "a{c:rgb(101%,0%,0%)}");
    // too few or too many channels
    assert_eq!(minified("a{c:rgb(1,2)}"), "a{c:rgb(1,2)}");
    assert_eq!(minified("a{c:rgb(1 2 3 4 5)}"), "a{c:rgb(1 2 3 4 5)}");
    // alpha out of range
    assert_eq!(minified("a{c:rgba(0,0,0,2)}"), "a{c:rgba(0,0,0,2)}");
    // fractional color channel without a percent sign
    assert_eq!(minified("a{c:rgb(1.5,0,0)}"), "a{c:rgb(1.5,0,0)}");
    // characters outside the decodable set
    assert_eq!(minified("a{c:rgb(calc(1),0,0)}"), "a{c:rgb(calc(1),0,0)}");
    // unterminated argument list
    assert_eq!(minified("a{c:rgb(0,0,0"), "a{c:rgb(0,0,0");
}

#[test]
fn alpha_exactly_one_is_omitted() {
    assert_eq!(minified("a{c:rgba(1,2,3,1)}"), "a{c:#010203}");
    assert_eq!(minified("a{c:rgba(1,2,3,1.0)}"), "a{c:#010203}");
    assert_eq!(minified("a{c:rgba(1,2,3,1.00)}"), "a{c:#010203}");
    assert_eq!(minified("a{c:rgba(1,2,3,100%)}"), "a{c:#010203}");
    // one percent is not opaque: it rounds to 3/255
    assert_eq!(minified("a{c:rgba(1,2,3,1%)}"), "a{c:#01020303}");
}

#[test]
fn percentage_rounding_is_half_up() {
    // 0.5% of 255 is 1.275, which rounds to 1
    assert_eq!(minified("a{c:rgb(0.5%,0%,0%)}"), "a{c:#010000}");
    // 50% of 255 is 127.5, which rounds up to 128
    assert_eq!(minified("a{c:rgb(50%,0%,0%)}"), "a{c:#800000}");
}

#[test]
fn colon_disambiguation() {
    assert_eq!(minified("a : b ;"), "a:b;");
    // no terminator arrives, so the kept space stays
    assert_eq!(minified("a : b"), "a :b");
    assert_eq!(minified("div :hover { color : red ; }"), "div :hover{color:red}");
    // the closing brace resolves the pending space just as a semicolon does
    assert_eq!(minified("a :b { c :d }"), "a :b{c:d}");
    assert_eq!(minified("a :b { c :d ; }"), "a :b{c:d}");
}

#[test]
fn hex_shortening_is_idempotent() {
    for c in ["#aabbcc", "#abc", "#AABBCCDD", "#abcd", "#a1b2c3"] {
        let once = try_minify_hex_color(&c.chars().collect()).unwrap();
        let twice = try_minify_hex_color(&once).unwrap();
        assert_eq!(twice, once);
    }
}

#[test]
fn comma_spacing() {
    assert_eq!(minified("a , b , c{}"), "a,b,c{}");
}
