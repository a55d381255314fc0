use ani_dl::config::{
    base_url_override, candidate_mirrors, default_config_contents, default_mirrors_list,
    is_healthy_status, normalize, parse_mirror_list, unreachable_message, MirrorProbe,
    ProbeAction, CONFIG_HEADER,
};

fn strings(v: &[&str]) -> Vec<String> {
    v.iter().map(|s| s.to_string()).collect()
}

#[test]
fn normalize_adds_scheme_and_drops_slash() {
    assert_eq!(normalize("  anime-sama.xyz/  "), "https://anime-sama.xyz");
    assert_eq!(normalize("http://anime-sama.to//"), "http://anime-sama.to");
    assert_eq!(normalize("https://anime-sama.fr"), "https://anime-sama.fr");
}

#[test]
fn normalize_edge_cases() {
    assert_eq!(normalize(""), "https://");
    assert_eq!(normalize("///"), "https://");
    assert_eq!(normalize("\u{a0}example.org\t"), "https://example.org");
    // The scheme test is case sensitive.
    assert_eq!(normalize("HTTP://x.y"), "https://HTTP://x.y");
}

#[test]
fn normalize_is_idempotent_on_clean_input() {
    for u in ["anime-sama.to", "https://a.b/", " http://c.d ", "x/y/"] {
        let once = normalize(u);
        assert_eq!(normalize(&once), once);
    }
}

#[test]
fn parse_mirror_list_skips_blanks_and_comments() {
    let list = parse_mirror_list("# comment\n\nanime-sama.to, https://anime-sama.xyz/\n");
    assert_eq!(list, strings(&["https://anime-sama.to", "https://anime-sama.xyz"]));
}

#[test]
fn parse_mirror_list_one_domain_per_line() {
    let text = "https://one.example\n  # two.example\n\nthree.example/\n";
    assert_eq!(parse_mirror_list(text), strings(&["https://one.example", "https://three.example"]));
    assert_eq!(parse_mirror_list(""), Vec::<String>::new());
    assert_eq!(parse_mirror_list(",,\n,"), Vec::<String>::new());
}

#[test]
fn default_config_contents_lists_defaults_after_header() {
    let text = default_config_contents();
    assert!(text.starts_with("# ani-dl — miroirs anime-sama\n#\n# Un domaine par ligne"));
    assert!(text.starts_with(CONFIG_HEADER));
    assert!(text.ends_with(
        "\n\nhttps://anime-sama.to\nhttps://anime-sama.xyz\nhttps://anime-sama.org\nhttps://anime-sama.fr\n"
    ));
}

#[test]
fn default_config_parses_back_to_defaults() {
    // Its comment lines are ignored whole, commas and all.
    assert_eq!(parse_mirror_list(&default_config_contents()), default_mirrors_list());
}

#[test]
fn comment_lines_are_ignored_whole() {
    assert_eq!(parse_mirror_list("# one, two\nhttps://anime-sama.to"), strings(&["https://anime-sama.to"]));
    assert_eq!(parse_mirror_list("  #a,b\n,c.example,"), strings(&["https://c.example"]));
    // A '#' entry after a comma on a mirror line is not a mirror either.
    assert_eq!(parse_mirror_list("a.example, #b.example"), strings(&["https://a.example"]));
}

#[test]
fn candidates_follow_precedence() {
    let defaults = default_mirrors_list();
    assert_eq!(candidate_mirrors(None, None), defaults);
    assert_eq!(candidate_mirrors(Some("a.example,b.example"), Some("c.example")), strings(&["https://a.example", "https://b.example"]));
    assert_eq!(candidate_mirrors(Some("  # nothing"), Some("c.example")), strings(&["https://c.example"]));
    assert_eq!(candidate_mirrors(None, Some("# only comments\n")), defaults);
    assert_eq!(candidate_mirrors(Some(""), None), defaults);
}

#[test]
fn override_is_used_as_it_is() {
    assert_eq!(base_url_override(None), None);
    assert_eq!(base_url_override(Some("   ")), None);
    assert_eq!(base_url_override(Some(" anime-sama.xyz/ ")), Some("https://anime-sama.xyz".to_string()));
}

#[test]
fn health_is_status_below_400() {
    assert!(is_healthy_status(200));
    assert!(is_healthy_status(399));
    assert!(!is_healthy_status(400));
    assert!(!is_healthy_status(503));
}

#[test]
fn unreachable_message_names_mirrors_and_config() {
    let msg = unreachable_message(&strings(&["https://a", "https://b"]), "/home/u/.config/ani-dl/mirrors.txt");
    assert_eq!(
        msg,
        "Aucun miroir anime-sama joignable.\nMiroirs testés : https://a, https://b\n→ Édite /home/u/.config/ani-dl/mirrors.txt pour ajouter/réordonner un domaine à jour,\n→ ou force-le : ANIME_SAMA_BASE_URL=https://nouveau-domaine ani-dl"
    );
}

fn probe_name(a: &ProbeAction) -> String {
    match a {
        ProbeAction::Probe(u) => format!("probe {}", u),
        ProbeAction::Use(u) => format!("use {}", u),
        ProbeAction::GiveUp => "give up".to_string(),
    }
}

#[test]
fn first_reachable_mirror_wins() {
    let (mut p, a) = MirrorProbe::start(strings(&["https://a", "https://b", "https://c"]));
    assert_eq!(probe_name(&a), "probe https://a");
    assert_eq!(probe_name(&p.answer(false)), "probe https://b");
    assert_eq!(probe_name(&p.answer(true)), "use https://b");
}

#[test]
fn all_dead_mirrors_give_up() {
    let (mut p, a) = MirrorProbe::start(strings(&["https://a", "https://b"]));
    assert_eq!(probe_name(&a), "probe https://a");
    assert_eq!(probe_name(&p.answer(false)), "probe https://b");
    assert_eq!(probe_name(&p.answer(false)), "give up");
    assert_eq!(probe_name(&p.answer(true)), "give up");
    assert_eq!(p.candidate_list().len(), 2);
    let (_, none) = MirrorProbe::start(Vec::new());
    assert_eq!(probe_name(&none), "give up");
}
