use ani_dl::anime::{Media, Medias};

fn media(name: &str, lang: &str, season: i8) -> Media {
    Media::new(name.to_string(), lang.to_string(), season, "anime".to_string(), vec![format!("https://e/{}/{}", name, season)])
}

#[test]
fn names_once_in_order() {
    let m = Medias { media: vec![media("B", "vf", 1), media("A", "vostfr", 1), media("B", "vostfr", 2), media("A", "vf", 1)] };
    assert_eq!(m.get_name(), vec!["B".to_string(), "A".to_string()]);
    assert!(Medias { media: vec![] }.get_name().is_empty());
}

#[test]
fn seasons_of_one_name() {
    let m = Medias { media: vec![media("B", "vf", 1), media("A", "vostfr", 1), media("B", "vostfr", 2)] };
    let b = m.get_seasons_from_str("B");
    assert_eq!(b.len(), 2);
    assert_eq!(b[0].season, 1);
    assert_eq!(b[0].lang, "vf");
    assert_eq!(b[1].season, 2);
    assert_eq!(b[1].media_type(), "anime");
    assert_eq!(b[1].episodes, vec!["https://e/B/2".to_string()]);
    let m = Medias { media: vec![media("B", "vf", 1)] };
    assert!(m.get_seasons_from_str("b").is_empty());
}
