use subpls::movie::{Movie, Subtitles};
use subpls::user::User;

fn sub(id: &str, lang: &str, rating: u64) -> Subtitles {
    Subtitles {
        id: id.to_string(),
        lang: lang.to_string(),
        format: "srt".to_string(),
        rating,
        b64gz: None,
    }
}

fn user(lang: &str) -> User {
    User {
        api: "https://example.org/xml-rpc".to_string(),
        token: "tok".to_string(),
        sublanguageid: lang.to_string(),
    }
}

fn movie_with(subs: Vec<Subtitles>) -> Movie {
    let mut m = Movie::new("film.mp4".to_string());
    m.subs = subs;
    m
}

#[test]
fn equal_ratings_keep_the_later_candidate() {
    let hits = vec![
        ("h1".to_string(), sub("first", "eng", 700)),
        ("h1".to_string(), sub("second", "eng", 700)),
    ];
    let best = user("eng").choose_best(&hits);
    assert_eq!(best.len(), 1);
    assert_eq!(best[0].0, "h1");
    assert_eq!(best[0].1.id, "second");
}

#[test]
fn highest_rating_wins_and_ties_go_to_the_later() {
    let hits = vec![
        ("h".to_string(), sub("a", "eng", 300)),
        ("h".to_string(), sub("b", "eng", 750)),
        ("h".to_string(), sub("c", "eng", 750)),
        ("h".to_string(), sub("d", "eng", 200)),
    ];
    let best = user("eng").choose_best(&hits);
    assert_eq!(best.len(), 1);
    assert_eq!(best[0].1.id, "c");
    assert_eq!(best[0].1.rating, 750);
}

#[test]
fn other_languages_are_never_kept() {
    let hits = vec![
        ("h".to_string(), sub("pol", "pol", 1000)),
        ("h".to_string(), sub("eng", "eng", 100)),
        ("g".to_string(), sub("ger", "ger", 900)),
    ];
    let best = user("eng").choose_best(&hits);
    assert_eq!(best.len(), 1);
    assert_eq!(best[0].0, "h");
    assert_eq!(best[0].1.id, "eng");
}

#[test]
fn each_fingerprint_gets_its_own_best() {
    let hits = vec![
        ("h1".to_string(), sub("a", "eng", 500)),
        ("h2".to_string(), sub("b", "eng", 100)),
        ("h1".to_string(), sub("c", "eng", 400)),
        ("h2".to_string(), sub("d", "eng", 800)),
    ];
    let best = user("eng").choose_best(&hits);
    assert_eq!(best.len(), 2);
    assert_eq!(best[0].0, "h1");
    assert_eq!(best[0].1.id, "a");
    assert_eq!(best[1].0, "h2");
    assert_eq!(best[1].1.id, "d");
}

#[test]
fn no_hits_choose_nothing() {
    assert!(user("eng").choose_best(&Vec::new()).is_empty());
}

#[test]
fn filter_keeps_the_last_of_the_best() {
    let mut m = movie_with(vec![
        sub("a", "eng", 300),
        sub("b", "eng", 750),
        sub("c", "eng", 750),
        sub("d", "eng", 200),
    ]);
    m.filter_subs();
    assert_eq!(m.subs.len(), 1);
    assert_eq!(m.subs[0].id, "c");
    assert_eq!(m.present_rating(), Some(750));
}

#[test]
fn filter_keeps_one_of_equal_ids() {
    let mut m = movie_with(vec![sub("same", "eng", 500), sub("same", "eng", 500)]);
    m.filter_subs();
    assert_eq!(m.subs.len(), 1);
}

#[test]
fn filter_of_nothing_is_nothing() {
    let mut m = movie_with(Vec::new());
    m.filter_subs();
    assert!(m.subs.is_empty());
    assert_eq!(m.present_rating(), None);
}

#[test]
fn unrated_candidate_is_kept_when_alone() {
    let mut m = movie_with(vec![sub("only", "eng", 0)]);
    m.filter_subs();
    assert_eq!(m.present_rating(), Some(0));
}
