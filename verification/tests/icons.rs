use mdbook_icons::aliases::{load_aliases, resolve_user_alias};
use mdbook_icons::IconError;
use mdbook_icons::collection::{
    resolve_from_collection, resolve_icon, split_shortcode, AliasEntry, Collection, IconEntry,
    KnownPrefixes, ResolvedIcon,
};
use mdbook_icons::shortcode::ShortcodeMap;
use mdbook_icons::svg::{icon_transform, SvgSize};

fn icon(body: &str) -> IconEntry<f32> {
    IconEntry { body: body.to_string(), width: None, height: None, h_flip: false, v_flip: false, rotate: 0 }
}

fn alias(parent: &str) -> AliasEntry<f32> {
    AliasEntry { parent: parent.to_string(), width: None, height: None, h_flip: false, v_flip: false, rotate: 0 }
}

fn size_of(icon: &ResolvedIcon<f32>) -> SvgSize {
    SvgSize {
        width: format!("{}", icon.width),
        height: format!("{}", icon.height),
        center_x: format!("{}", icon.width / 2.0),
        center_y: format!("{}", icon.height / 2.0),
    }
}

fn mdi() -> Collection<f32> {
    Collection {
        width: Some(24.0),
        height: Some(24.0),
        icons: vec![
            ("home".to_string(), icon("<path d=\"M10 20v-6h4v6h5v-8h3L12 3L2 12h3v8z\"/>")),
            ("onepassword".to_string(), icon("<path d=\"M12 2a10 10 0 1 0 0 20\"/>")),
        ],
        aliases: vec![("1password".to_string(), alias("onepassword"))],
    }
}

fn twemoji() -> Collection<f32> {
    Collection {
        width: Some(36.0),
        height: Some(36.0),
        icons: vec![("glowing-star".to_string(), icon("<path fill=\"#FFAC33\" d=\"M28 2z\"/>"))],
        aliases: vec![],
    }
}

fn prefixes() -> KnownPrefixes {
    KnownPrefixes::from_names(vec!["mdi".to_string(), "twemoji".to_string()])
}

/// The rendering pipeline of the preprocessor, over collections at hand.
fn render_shortcode_result(aliases: &ShortcodeMap, shortcode: &str) -> Result<Option<String>, IconError> {
    let resolved = resolve_user_alias(aliases, shortcode)?;
    let Some((prefix, name)) = split_shortcode(&prefixes(), &resolved) else {
        return Ok(None);
    };
    let collection = match prefix.as_str() {
        "mdi" => mdi(),
        "twemoji" => twemoji(),
        _ => return Ok(None),
    };
    let icon = resolve_icon(&collection, &name, 16.0)?;
    Ok(Some(icon.to_svg(&size_of(&icon))))
}

fn render_shortcode(aliases: &ShortcodeMap, shortcode: &str) -> Option<String> {
    render_shortcode_result(aliases, shortcode).ok().flatten()
}

#[test]
fn renders_user_alias_shortcode() {
    let mut aliases = ShortcodeMap::new();
    aliases.insert("star".to_string(), "twemoji-glowing-star".to_string());

    let rendered = render_shortcode(&aliases, "star").expect("user alias should render");

    assert!(rendered.contains("<svg"), "alias should return svg");
}

#[test]
fn resolves_aliases_to_the_same_icon() {
    let store = ShortcodeMap::new();
    let alias = render_shortcode(&store, "mdi-1password").expect("alias should render");
    let parent = render_shortcode(&store, "mdi-onepassword").expect("parent should render");

    assert_eq!(alias, parent);
}

#[test]
fn renders_twemoji_glowing_star() {
    let store = ShortcodeMap::new();
    let rendered = render_shortcode_result(&store, "twemoji-glowing-star")
        .expect("twemoji shortcode should resolve");
    assert!(rendered.is_some(), "twemoji icon should render");
}

#[test]
fn svg_markup_is_exact() {
    let store = ShortcodeMap::new();
    let svg = render_shortcode(&store, "mdi-home").unwrap();
    assert_eq!(
        svg,
        "<svg xmlns=\"http://www.w3.org/2000/svg\" width=\"1em\" height=\"1em\" viewBox=\"0 0 24 24\" role=\"img\" aria-hidden=\"true\" style=\"vertical-align: -0.125em; display: inline-block;\"><path d=\"M10 20v-6h4v6h5v-8h3L12 3L2 12h3v8z\"/></svg>"
    );
}

#[test]
fn turned_and_flipped_icons_get_a_transform() {
    assert_eq!(icon_transform(0, false, false, "8", "8"), None);
    assert_eq!(icon_transform(1, false, false, "12", "7.5").unwrap(), "rotate(90 12 7.5)");
    assert_eq!(
        icon_transform(2, true, false, "8", "8").unwrap(),
        "translate(8 8) scale(-1 1) translate(-8 -8) rotate(180 8 8)"
    );
    assert_eq!(
        icon_transform(0, false, true, "8", "8").unwrap(),
        "translate(8 8) scale(1 -1) translate(-8 -8)"
    );
    assert_eq!(icon_transform(7, false, false, "8", "8").unwrap(), "rotate(270 8 8)");

    let r = ResolvedIcon { body: "<b/>".to_string(), width: 16.0f32, height: 16.0, rotate: 3, h_flip: false, v_flip: false };
    assert_eq!(
        r.to_svg(&size_of(&r)),
        "<svg xmlns=\"http://www.w3.org/2000/svg\" width=\"1em\" height=\"1em\" viewBox=\"0 0 16 16\" role=\"img\" aria-hidden=\"true\" style=\"vertical-align: -0.125em; display: inline-block;\"><g transform=\"rotate(270 8 8)\"><b/></g></svg>"
    );
}

#[test]
fn alias_adjustments_compose() {
    let mut c = mdi();
    c.icons.push((
        "arrow".to_string(),
        IconEntry { body: "<a/>".to_string(), width: Some(20.0), height: None, h_flip: true, v_flip: false, rotate: 5 },
    ));
    c.aliases.push((
        "arrow-turned".to_string(),
        AliasEntry { parent: "arrow".to_string(), width: None, height: Some(10.0), h_flip: true, v_flip: true, rotate: 255 },
    ));
    let r = resolve_icon(&c, "arrow", 16.0).unwrap();
    assert_eq!((r.width, r.height, r.rotate, r.h_flip, r.v_flip), (20.0, 24.0, 1, true, false));
    let r = resolve_icon(&c, "arrow-turned", 16.0).unwrap();
    assert_eq!((r.width, r.height, r.rotate, r.h_flip, r.v_flip), (20.0, 10.0, 0, false, true));
    assert_eq!(r.body, "<a/>");
}

#[test]
fn default_size_applies_when_none_is_given() {
    let c = Collection { width: None, height: Some(12.0), icons: vec![("x".to_string(), icon("<x/>"))], aliases: vec![] };
    let r = resolve_icon(&c, "x", 16.0).unwrap();
    assert_eq!((r.width, r.height), (16.0, 12.0));
}

#[test]
fn icon_alias_cycles_and_missing_icons_fail() {
    let mut c = mdi();
    c.aliases.push(("loop-a".to_string(), alias("loop-b")));
    c.aliases.push(("loop-b".to_string(), alias("loop-a")));
    c.aliases.push(("dangling".to_string(), alias("nowhere")));
    match resolve_icon(&c, "loop-a", 16.0) {
        Err(IconError::IconAliasCycle(name)) => assert_eq!(name, "loop-a"),
        _ => panic!("expected a cycle"),
    }
    match resolve_icon(&c, "dangling", 16.0) {
        Err(IconError::MissingIcon(name)) => assert_eq!(name, "nowhere"),
        _ => panic!("expected a missing icon"),
    }
    match resolve_icon(&c, "absent", 16.0) {
        Err(IconError::MissingIcon(name)) => assert_eq!(name, "absent"),
        _ => panic!("expected a missing icon"),
    }
    let mut visited = vec!["home".to_string()];
    match resolve_from_collection(&c, "home", &mut visited, 16.0) {
        Err(IconError::IconAliasCycle(name)) => assert_eq!(name, "home"),
        _ => panic!("a visited name is a cycle"),
    }
}

#[test]
fn longest_known_prefix_wins() {
    let p = KnownPrefixes::from_names(vec!["a".to_string(), "a-b".to_string(), "x".to_string()]);
    assert_eq!(split_shortcode(&p, "a-b-c"), Some(("a-b".to_string(), "c".to_string())));
    assert_eq!(split_shortcode(&p, "a-b-"), Some(("a".to_string(), "b-".to_string())));
    assert_eq!(split_shortcode(&p, "x-"), None);
    assert_eq!(split_shortcode(&p, "y-z"), None);
    assert!(p.contains("a-b"));
    assert!(!p.contains("b"));
}

#[test]
fn user_aliases_follow_chains_and_detect_cycles() {
    let entries = vec![
        (":star:".to_string(), Some(" twemoji-glowing-star ".to_string())),
        ("shine".to_string(), Some(":star:".to_string())),
        ("ignored".to_string(), None),
        ("empty".to_string(), Some("::".to_string())),
        ("ping".to_string(), Some("pong".to_string())),
        ("pong".to_string(), Some("ping".to_string())),
    ];
    let aliases = load_aliases(&entries);
    assert_eq!(aliases.get("star"), Some("twemoji-glowing-star".to_string()));
    assert_eq!(aliases.get("ignored"), None);
    assert_eq!(aliases.get("empty"), None);
    assert_eq!(resolve_user_alias(&aliases, "shine").unwrap(), "twemoji-glowing-star");
    assert_eq!(resolve_user_alias(&aliases, "mdi-home").unwrap(), "mdi-home");
    match resolve_user_alias(&aliases, "ping") {
        Err(IconError::UserAliasCycle(name)) => assert_eq!(name, "ping"),
        _ => panic!("expected a cycle"),
    }
}

#[test]
fn resolution_records_every_name_it_looks_up() {
    let c = Collection {
        width: Some(24.0),
        height: None,
        icons: vec![(
            "p".to_string(),
            IconEntry { body: "<path/>".to_string(), width: None, height: None, h_flip: true, v_flip: false, rotate: 1 },
        )],
        aliases: vec![(
            "q".to_string(),
            AliasEntry { parent: "p".to_string(), width: None, height: Some(20.0), h_flip: true, v_flip: true, rotate: 3 },
        )],
    };
    let mut visited = Vec::new();
    let r = resolve_from_collection(&c, "q", &mut visited, 16.0).unwrap();
    assert_eq!((r.body.as_str(), r.width, r.height, r.rotate, r.h_flip, r.v_flip), ("<path/>", 24.0, 20.0, 0, false, true));
    assert_eq!(visited, vec!["q", "p"]);

    let mut visited = Vec::new();
    resolve_from_collection(&c, "p", &mut visited, 16.0).unwrap();
    assert_eq!(visited, vec!["p"]);

    let mut visited = Vec::new();
    assert!(resolve_from_collection(&c, "absent", &mut visited, 16.0).is_err());
    assert_eq!(visited, vec!["absent"]);

    let mut visited = vec!["q".to_string()];
    assert!(resolve_from_collection(&c, "q", &mut visited, 16.0).is_err());
    assert_eq!(visited, vec!["q"]);
}
