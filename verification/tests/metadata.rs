use channel_ledger::metadata::fill_template;
use channel_ledger::ChannelMetadata;

#[test]
fn fill_template_replaces_every_placeholder() {
    assert_eq!(fill_template("Test Channel #{}", "12"), "Test Channel #12");
    assert_eq!(fill_template("{}", "12"), "12");
    assert_eq!(fill_template("{}{}", "12"), "1212");
    assert_eq!(fill_template("a{}b{}c", "x"), "axbxc");
    assert_eq!(fill_template("no placeholder", "12"), "no placeholder");
    assert_eq!(fill_template("", "12"), "");
    assert_eq!(fill_template("{", "12"), "{");
    assert_eq!(fill_template("}{", "12"), "}{");
    assert_eq!(fill_template("{{}}", "12"), "{12}");
    assert_eq!(fill_template("{ }", "12"), "{ }");
    assert_eq!(fill_template("é{}é", "ü"), "éüé");
    assert_eq!(fill_template("a{}", ""), "a");
    assert_eq!(fill_template("{}", "{}"), "{}");
}

#[test]
fn fill_template_agrees_with_str_replace() {
    for template in ["", "{}", "x{}", "{}x", "{{}", "{}}", "{{}}", "}{}{", "a{}b{}c{}", "{x}"] {
        for value in ["", "1", "{}", "1234"] {
            assert_eq!(fill_template(template, value), template.replace("{}", value));
        }
    }
}

#[test]
fn token_metadata_fills_in_the_number() {
    let metadata = ChannelMetadata {
        title_template: "Dog #{} of {}".to_string(),
        description_template: "A dog {}".to_string(),
        media: "https://example.com/dog.png".to_string(),
        animation_url: Some("https://example.com/dog.mp4".to_string()),
        reference: "https://example.com/dogs".to_string(),
        reference_hash: Some(vec![1, 2, 3]),
    };
    let token = metadata.token_metadata(305);
    assert_eq!(token.title, "Dog #305 of 305");
    // the description is not a template in effect: it is copied as it is
    assert_eq!(token.description, "A dog {}");
    assert_eq!(token.media, "https://example.com/dog.png");
    assert_eq!(token.animation_url, Some("https://example.com/dog.mp4".to_string()));
    assert_eq!(token.reference, "https://example.com/dogs/305");
    assert_eq!(token.reference_hash, Some(vec![1, 2, 3]));
    let copy = metadata.duplicate();
    assert_eq!(copy.title_template, "Dog #{} of {}");
    assert_eq!(copy.reference_hash, Some(vec![1, 2, 3]));
}
