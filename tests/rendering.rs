use tinyscript::rendering::render_tokens;
use tinyscript::tokenizer::tokenize;

#[test]
fn canonical_text_of_tokens() {
    let tokens = tokenize("x=fn a,b->{a<=b->1.5,a>=b->a}(2)").unwrap();
    assert_eq!(
        render_tokens(&tokens),
        "x = fn a , b -> { a <= b -> 1.5 , a >= b -> a } ( 2 ) "
    );
}

#[test]
fn rescanning_canonical_text_gives_same_tokens() {
    for source in [
        "[i = 0; while i < 3 [i = i + 1]; i]",
        "{1 == 2 -> 10, 1 == 1 -> 20}",
        "(fn x -> x * x)(4) % 3 / 2 - .5 & 7.",
        "a==b=c>=d>e<=f<g->h",
        "fnx while_ é2 $ ;",
        "",
    ] {
        let tokens = tokenize(source).unwrap();
        let again = tokenize(&render_tokens(&tokens)).unwrap();
        assert_eq!(again, tokens, "source {:?}", source);
    }
}
