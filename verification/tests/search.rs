use ani_dl::sources::anime_sama::AnimeSama;

fn src() -> AnimeSama {
    AnimeSama::new("https://anime-sama.fr".to_string())
}

#[test]
fn search_request_parts() {
    assert_eq!(src().search_url(), "https://anime-sama.fr/template-php/defaut/fetch.php");
    assert_eq!(AnimeSama::search_body("one piece"), "query=one piece");
}

#[test]
fn card_with_relative_link() {
    let r = src().result_from_card(Some("/catalogue/one-piece"), Some("  One Piece \n")).unwrap();
    assert_eq!(r.name, "One Piece");
    assert_eq!(r.slug, "one-piece");
    assert_eq!(r.url, "https://anime-sama.fr/catalogue/one-piece/");
}

#[test]
fn card_with_absolute_link() {
    let r = src().result_from_card(Some("https://anime-sama.org/catalogue/naruto/"), Some("Naruto")).unwrap();
    assert_eq!(r.slug, "naruto");
    assert_eq!(r.url, "https://anime-sama.org/catalogue/naruto/");
}

#[test]
fn card_without_slash_in_link() {
    let r = src().result_from_card(Some("bleach"), Some("Bleach")).unwrap();
    assert_eq!(r.slug, "bleach");
    assert_eq!(r.url, "https://anime-sama.frbleach/");
}

#[test]
fn cards_that_give_nothing() {
    assert!(src().result_from_card(None, Some("Title")).is_none());
    assert!(src().result_from_card(Some("/catalogue/x/"), None).is_none());
    assert!(src().result_from_card(Some("/catalogue/x/"), Some(" \t ")).is_none());
    assert!(src().result_from_card(Some("///"), Some("T")).is_none());
    assert!(src().result_from_card(Some(""), Some("T")).is_none());
}

#[test]
fn search_results_from_html() {
    let body = r#"
      <a class="asn-search-result" href="/catalogue/one-piece/">
        <img src="x.jpg"><h3 class="asn-search-result-title"> One Piece </h3>
      </a>
      <a class="asn-search-result"><h3 class="asn-search-result-title">No link</h3></a>
      <a class="asn-search-result" href="/catalogue/empty/"><h3 class="other">Hidden</h3></a>
      <a class="other" href="/catalogue/ignored/"><h3 class="asn-search-result-title">Ignored</h3></a>
      <a class="asn-search-result" href="https://anime-sama.org/catalogue/naruto"><h3 class="asn-search-result-title">Naru<b>to</b></h3></a>
    "#;
    let results = src().parse_search_results(body).unwrap();
    assert_eq!(results.len(), 2);
    assert_eq!(results[0].name, "One Piece");
    assert_eq!(results[0].slug, "one-piece");
    assert_eq!(results[0].url, "https://anime-sama.fr/catalogue/one-piece/");
    assert_eq!(results[1].name, "Naruto");
    assert_eq!(results[1].slug, "naruto");
    assert_eq!(results[1].url, "https://anime-sama.org/catalogue/naruto/");
    assert!(src().parse_search_results("").unwrap().is_empty());
}

#[test]
fn cards_of_a_fragment() {
    let body = r#"<a class="asn-search-result" href="/a/"><h3 class="asn-search-result-title">A</h3><h3 class="asn-search-result-title">B</h3></a><a class="asn-search-result"></a>"#;
    let cards = AnimeSama::search_cards(body).unwrap();
    assert_eq!(cards, vec![(Some("/a/".to_string()), Some("A".to_string())), (None, None)]);
}

#[test]
fn results_of_cards_keep_order_and_skip_empty() {
    let cards = vec![
        (Some("/catalogue/b/".to_string()), Some("B".to_string())),
        (None, Some("X".to_string())),
        (Some("/catalogue/a".to_string()), Some(" A ".to_string())),
        (Some("/catalogue/c/".to_string()), None),
    ];
    let results = src().results_from_cards(&cards);
    let names: Vec<&str> = results.iter().map(|r| r.name.as_str()).collect();
    assert_eq!(names, vec!["B", "A"]);
    assert_eq!(results[1].url, "https://anime-sama.fr/catalogue/a/");
}
