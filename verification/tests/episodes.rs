use ani_dl::sources::anime_sama::{AnimeSama, SourceError};
use ani_dl::sources::AnimeResult;
use regex::Regex;

fn panneau_by_regex(html: &str) -> Vec<(String, String, String)> {
    let re = Regex::new(r#"panneauAnime\("([^"]+)",\s*"([^"]+)/([^"]+)"\)"#).unwrap();
    re.captures_iter(html)
        .map(|cap| (cap[1].to_string(), cap[2].to_string(), cap[3].to_string()))
        .collect()
}

fn eps_by_regex(js: &str) -> Vec<Vec<String>> {
    let re = Regex::new(r#"var\s+eps(\d+)\s*=\s*\[([^\]]+)\]"#).unwrap();
    let url_re = Regex::new(r#"['\"](https?://[^'\"]+)['\"]"#).unwrap();
    re.captures_iter(js)
        .map(|cap| url_re.captures_iter(&cap[2]).map(|c| c[1].to_string()).collect::<Vec<_>>())
        .filter(|v: &Vec<String>| !v.is_empty())
        .collect()
}

/// The documented choice: per position, the link of the highest-priority
/// supported host (lists in order); positions without one are skipped.
fn best_by_priority(lists: &[Vec<String>]) -> Vec<String> {
    let hosts = ["sibnet.ru", "vidmoly.to", "sendvid.com"];
    let max = lists.iter().map(|v| v.len()).max().unwrap_or(0);
    let mut out = Vec::new();
    for i in 0..max {
        'hosts: for h in hosts {
            for l in lists {
                if let Some(u) = l.get(i) {
                    if u.contains(h) {
                        out.push(u.clone());
                        break 'hosts;
                    }
                }
            }
        }
    }
    out
}

const PANNEAU_SAMPLES: &[&str] = &[
    r#"panneauAnime("Saga 1 (East Blue)", "saison1/vostfr");"#,
    r#"x panneauAnime("Saison 1", "saison1/vostfr"); panneauAnime("Saison 2",   "saison2/vf"); panneauAnime("Film", "film/vostfr");"#,
    r#"panneauAnime("A", "a/b/c")"#,
    r#"panneauAnime("A", "a/b/")"#,
    r#"panneauAnime("A", "/b")"#,
    r#"panneauAnime("", "a/b")panneauAnime("L", "p/l")"#,
    r#"panneauAnime("A",
        "s/v")"#,
    r#"panneauAnime("A","s/v") ; panneauAnime("B", "s/v" )"#,
    r#"panneauAnime("A", "s/v")"#,
    r#"panneauAnime("é", "ñ/ü")"#,
    r#"panneauAnime("nom", "chemin");"#,
    r#"/* panneauAnime("nom", "chemin"); */ panneauAnime("ok", "x/y");"#,
];

#[test]
fn panneau_calls_match_the_pattern() {
    for html in PANNEAU_SAMPLES {
        assert_eq!(AnimeSama::parse_panneau_calls(html), panneau_by_regex(html), "input {:?}", html);
    }
}

#[test]
fn panneau_calls_example() {
    let calls = AnimeSama::parse_panneau_calls(r#"panneauAnime("Saga 1 (East Blue)", "saison1/vostfr");"#);
    assert_eq!(calls, vec![("Saga 1 (East Blue)".to_string(), "saison1".to_string(), "vostfr".to_string())]);
    // The path keeps every slash but the last.
    let calls = AnimeSama::parse_panneau_calls(r#"panneauAnime("A", "a/b/c")"#);
    assert_eq!(calls, vec![("A".to_string(), "a/b".to_string(), "c".to_string())]);
}

const SCRIPT: &str = r#"
var eps1 = [
'https://video.sibnet.ru/shell.php?videoid=1',
'https://vidmoly.to/embed-2.html',
];
var eps2= ['https://sendvid.com/embed/a', 'https://sendvid.com/embed/b', "https://sendvid.com/embed/c"];
var eps3 = [ 'https://embed4me.com/x', 'https://video.sibnet.ru/shell.php?videoid=2', 'https://embed4me.com/z', 'https://dingtezuni.com/w'];
"#;

#[test]
fn eps_arrays_match_the_patterns() {
    let samples = [
        SCRIPT,
        "var eps1=['http://a.b/c']",
        "var  eps12 \n = \t [\"https://x.y/1\", 'https://x.y/2']",
        "var eps1 = []; var eps2 = ['https://k.l/m']",
        "var eps = ['https://no.digits/']",
        "var eps١ = ['https://arabic.digit/']",
        "vareps1 = ['https://no.space/']",
        "var eps1 = ['ftp://nope', 'https://' , 'https://ok/a\"]",
        "var eps1 = [https://unquoted, 'https://q/1']",
        "var eps1 = ['https://a/1']var eps2 = ['https://b/1', 'https://b/2']",
        "var eps1 = ['httpss://odd/1', 'https:/bad', 'http://sibnet.ru/2']",
        "var eps1 = ['https://sibnet.ru/1', 'https://a/2', 'https://sendvid.com/3']",
    ];
    for js in samples {
        let lists = eps_by_regex(js);
        assert_eq!(AnimeSama::parse_episodes_js(js), best_by_priority(&lists), "input {:?}", js);
    }
}

#[test]
fn best_host_wins_per_episode() {
    let eps = AnimeSama::parse_episodes_js(SCRIPT);
    assert_eq!(
        eps,
        vec![
            "https://video.sibnet.ru/shell.php?videoid=1".to_string(),
            "https://video.sibnet.ru/shell.php?videoid=2".to_string(),
            "https://sendvid.com/embed/c".to_string(),
        ]
    );
}

#[test]
fn vidmoly_ranks_between_sibnet_and_sendvid() {
    let js = "var eps1 = ['https://sendvid.com/1']; var eps2 = ['https://vidmoly.to/1']; var eps3 = ['https://sibnet.ru/1', 'https://vidmoly.to/2'];";
    let eps = AnimeSama::parse_episodes_js(js);
    assert_eq!(eps, vec!["https://sibnet.ru/1".to_string(), "https://vidmoly.to/2".to_string()]);
    let js = "var eps1 = ['https://sendvid.com/1', 'https://x.example/2', 'https://vidmoly.to/3']; var eps2 = ['https://vidmoly.to/1'];";
    assert_eq!(
        AnimeSama::parse_episodes_js(js),
        vec!["https://vidmoly.to/1".to_string(), "https://vidmoly.to/3".to_string()]
    );
}

#[test]
fn no_arrays_no_episodes() {
    assert!(AnimeSama::parse_episodes_js("").is_empty());
    assert!(AnimeSama::parse_episodes_js("var eps1 = ['nothing']").is_empty());
    assert!(AnimeSama::parse_episodes_js("var eps1 = ['https://embed4me.com/e1'];").is_empty());
    assert!(matches!(
        AnimeSama::episodes_from_script("var eps1 = ['https://embed4me.com/e1', 'https://dingtezuni.com/2'];"),
        Err(SourceError::NoEpisodes)
    ));
    assert!(matches!(AnimeSama::episodes_from_script("no script"), Err(SourceError::NoEpisodes)));
    assert_eq!(SourceError::NoEpisodes.message(), "Aucun épisode trouvé pour cette saison/langue");
    assert_eq!(SourceError::SeasonNotFound.message(), "Saison introuvable");
    assert_eq!(AnimeSama::episodes_from_script(SCRIPT).ok().map(|v| v.len()), Some(3));
}

#[test]
fn is_supported_checks_hosts() {
    assert!(AnimeSama::is_supported("https://video.sibnet.ru/x"));
    assert!(AnimeSama::is_supported("https://vidmoly.to/x"));
    assert!(AnimeSama::is_supported("https://sendvid.com/x"));
    assert!(!AnimeSama::is_supported("https://embed4me.com/x"));
}

fn anime() -> AnimeResult {
    AnimeResult { name: "One Piece".to_string(), slug: "one-piece".to_string(), url: "https://anime-sama.fr/catalogue/one-piece/".to_string() }
}

#[test]
fn seasons_from_page_and_probes() {
    let src = AnimeSama::new("https://anime-sama.fr".to_string());
    let html = r#"panneauAnime("Saison 1", "saison1/vostfr"); panneauAnime("Saison 1", "saison1/vf"); panneauAnime("Film", "film/vostfr"); panneauAnime("Saison 1 bis", "saison1/vostfr");"#;
    let entries = AnimeSama::parse_panneau_calls(html);
    assert_eq!(AnimeSama::season_paths(&entries), vec!["saison1".to_string(), "film".to_string()]);
    let plan = src.season_probes(&anime(), &entries);
    assert_eq!(
        plan,
        vec![
            vec![("va".to_string(), "https://anime-sama.fr/catalogue/one-piece/saison1/va/episodes.js".to_string())],
            vec![
                ("vf".to_string(), "https://anime-sama.fr/catalogue/one-piece/film/vf/episodes.js".to_string()),
                ("va".to_string(), "https://anime-sama.fr/catalogue/one-piece/film/va/episodes.js".to_string()),
            ],
        ]
    );
    let seasons = AnimeSama::seasons_from_probes(&entries, &vec![vec![false], vec![true, false]]);
    assert_eq!(seasons.len(), 2);
    assert_eq!(seasons[0].number, 1);
    assert_eq!(seasons[0].langs, vec!["vostfr".to_string(), "vf".to_string(), "vostfr".to_string()]);
    assert_eq!(seasons[1].number, 2);
    assert_eq!(seasons[1].langs, vec!["vostfr".to_string(), "vf".to_string()]);
    assert_eq!(seasons[1].label(), "Saison 2 (vostfr, vf)");
    // Missing answer rows count as probes that did not answer.
    let seasons = AnimeSama::seasons_from_probes(&entries, &vec![]);
    assert_eq!(seasons[1].langs, vec!["vostfr".to_string()]);
}

#[test]
fn season_numbers_select_paths() {
    let html = r#"panneauAnime("S1", "saison1/vostfr"); panneauAnime("F", "film/vostfr"); panneauAnime("S2", "saison2/vostfr");"#;
    let entries = AnimeSama::parse_panneau_calls(html);
    assert_eq!(AnimeSama::find_season_path(&entries, 1), Some("saison1".to_string()));
    assert_eq!(AnimeSama::find_season_path(&entries, 2), Some("film".to_string()));
    assert_eq!(AnimeSama::find_season_path(&entries, 3), Some("saison2".to_string()));
    assert_eq!(AnimeSama::find_season_path(&entries, 4), None);
    assert_eq!(AnimeSama::find_season_path(&entries, 0), None);
    assert_eq!(AnimeSama::find_season_path(&entries, -1), None);
    let seasons = AnimeSama::seasons_from_probes(&entries, &vec![]);
    for s in &seasons {
        assert!(AnimeSama::find_season_path(&entries, s.number).is_some());
    }
}

#[test]
fn episode_script_url() {
    let src = AnimeSama::new("https://anime-sama.fr".to_string());
    assert_eq!(src.base_url(), "https://anime-sama.fr");
    assert_eq!(
        src.episodes_script_url("one-piece", "saison1", "vostfr"),
        "https://anime-sama.fr/catalogue/one-piece/saison1/vostfr/episodes.js"
    );
}

#[test]
fn listed_seasons_find_their_scripts() {
    let src = AnimeSama::new("https://anime-sama.fr".to_string());
    let html = r#"panneauAnime("S1", "saison1/vostfr"); panneauAnime("F", "film/vf"); panneauAnime("S2", "saison2/vostfr");"#;
    let entries = AnimeSama::parse_panneau_calls(html);
    let paths = AnimeSama::season_paths(&entries);
    let seasons = AnimeSama::seasons_from_probes(&entries, &vec![]);
    assert_eq!(seasons.len(), 3);
    for (i, s) in seasons.iter().enumerate() {
        let url = src.episodes_script_for(&anime(), &entries, s.number, "vf").unwrap();
        assert_eq!(url, format!("https://anime-sama.fr/catalogue/one-piece/{}/vf/episodes.js", paths[i]));
    }
    assert!(matches!(src.episodes_script_for(&anime(), &entries, 4, "vf"), Err(SourceError::SeasonNotFound)));
    assert!(matches!(src.episodes_script_for(&anime(), &entries, 0, "vf"), Err(SourceError::SeasonNotFound)));
}
