use pkb::string_ext::StringExt;

#[test]
fn test_to_slug() {
    assert_eq!("Æneid".to_slug(), "aeneid");
    assert_eq!("étude".to_slug(), "etude");
    assert_eq!("北亰".to_slug(), "bei-jing");
    assert_eq!("ᔕᓇᓇ".to_slug(), "shanana");
    assert_eq!("げんまい茶".to_slug(), "genmaicha");
    assert_eq!("🦄☣".to_slug(), "unicorn-biohazard");
    assert_eq!("👨‍👩‍👧‍👦".to_slug(), "man-woman-girl-boy");
    assert_eq!("👩‍🚀".to_slug(), "woman-rocket");
    assert_eq!("  one \t\ntwo  ".to_slug(), "one-two");
    assert_eq!("--one- -two--".to_slug(), "one-two");
    assert_eq!("control: \x00\x01\x02\x03\x04\x05\x06\x07\x08\x09\x0A\x0B\x0C\x0D\x0E\x0F\x10\x11\x12\x13\x14\x15\x16\x17\x18\x19\x1A\x1B\x1C\x1D\x1E\x7F".to_slug(), "control");
    assert_eq!(
        "punctuation: !@#$%^&*()_+-=[]{}\\|;:'\",.<>/?~`".to_slug(),
        "punctuation-at-and-plus-slash"
    );
    assert_eq!(
        "This: is an example! 😬".to_slug(),
        "this-is-an-example-grimacing"
    );
    assert_eq!("This → that".to_slug(), "this-that");
    assert_eq!("This→that".to_slug(), "this-that");
    assert_eq!(
        "Converting a BGRA &[u8] to RGB [u8;N] (for images)?".to_slug(),
        "converting-a-bgra-and-u8-to-rgb-u8-n-for-images"
    );
    assert_eq!(
        "Condensation with Nitromethane-2".to_slug(),
        "condensation-with-nitromethane-2"
    );
    assert_eq!("What about u8".to_slug(), "what-about-u8");
    assert_eq!("".to_slug(), "");
    assert_eq!("-".to_slug(), "");
    assert_eq!("-2".to_slug(), "2");
    assert_eq!("--2".to_slug(), "2");
    assert_eq!("a--2".to_slug(), "a-2");
    assert_eq!("abc-1-2-3".to_slug(), "abc-1-2-3");
    assert_eq!("abc-2-def".to_slug(), "abc-2-def");
    assert_eq!("What about COVID-19".to_slug(), "what-about-covid-19");
    assert_eq!(
        "1+2+3+... = -1/12 ?".to_slug(),
        "1-plus-2-plus-3-plus-1-slash-12"
    );
    assert_eq!("I'm back".to_slug(), "im-back");
    assert_eq!("'''".to_slug(), "");
    assert_eq!(
        "junk from \"tryptamine carbonate\"".to_slug(),
        "junk-from-tryptamine-carbonate"
    );
    assert_eq!("this & that".to_slug(), "this-and-that");
    assert_eq!("-&-".to_slug(), "and");
    assert_eq!("test@example.com".to_slug(), "test-at-example-com");
    assert_eq!("@@@".to_slug(), "at-at-at");
    assert_eq!("19/22 or 24/40 ???".to_slug(), "19-slash-22-or-24-slash-40");
    assert_eq!(
        "https://www.example.com/".to_slug(),
        "https-slash-slash-www-example-com-slash"
    );
    assert_eq!(
        "Sea water@£60/l at Amazon".to_slug(),
        "sea-water-at-ps60-slash-l-at-amazon"
    );
    assert_eq!(
        "Sea water@€60/l at Amazon".to_slug(),
        "sea-water-at-eur60-slash-l-at-amazon"
    );
    assert_eq!(
        "Sea water@$60/l at Amazon".to_slug(),
        "sea-water-at-60-slash-l-at-amazon"
    );
}

#[test]
fn slug_is_idempotent_on_examples() {
    let inputs = vec![
        "This: is an example! 😬",
        "already-a-slug",
        "  one \t\ntwo  ",
        "test@example.com",
    ];
    for input in inputs {
        let once = input.to_slug();
        let twice = once.to_slug();
        assert_eq!(once, twice);
    }
}

#[test]
fn slug_has_no_stray_hyphens() {
    let inputs = vec!["--a--b--", "-", "a - b - c", "😬 --- 😬"];
    for input in inputs {
        let slug = input.to_slug();
        assert!(!slug.starts_with('-'));
        assert!(!slug.ends_with('-'));
        assert!(!slug.contains("--"));
    }
}

#[test]
fn humanise_replaces_separators() {
    assert_eq!("about_this.site".humanise(), "about this site");
    assert_eq!("plain".humanise(), "plain");
}
