use subpls::hash::BLOCK;
use subpls::movie::{Movie, Subtitles};
use subpls::rpc::RpcValue;
use subpls::text::parse_rating;
use subpls::user::{User, LOGIN_LOCATION};
use subpls::Error;

fn s(text: &str) -> RpcValue {
    RpcValue::Str(text.to_string())
}

fn st(fields: Vec<(&str, RpcValue)>) -> RpcValue {
    RpcValue::Struct(fields.into_iter().map(|(k, v)| (k.to_string(), v)).collect())
}

fn user() -> User {
    User {
        api: "https://example.org/xml-rpc".to_string(),
        token: "tok".to_string(),
        sublanguageid: "eng".to_string(),
    }
}

fn hit(hash: &str, id: &str, rating: &str, lang: &str) -> RpcValue {
    st(vec![
        ("MovieHash", s(hash)),
        ("IDSubtitleFile", s(id)),
        ("SubFormat", s("srt")),
        ("SubRating", s(rating)),
        ("SubLanguageID", s(lang)),
    ])
}

fn fingerprinted(path: &str, size: u64, fill: u8) -> Movie {
    let mut m = Movie::new(path.to_string());
    let mut head = vec![0u8; BLOCK];
    head[0] = fill;
    m.compute_os_hash(size, &head, &vec![0u8; BLOCK]).unwrap();
    m
}

fn hash_of(m: &Movie) -> String {
    m.os_info.as_ref().unwrap().hash.clone()
}

#[test]
fn login_reads_token_and_endpoint() {
    let resp = st(vec![
        ("status", s("200 OK")),
        ("token", s("abc")),
        ("data", st(vec![("Content-Location", s("https://other/xml-rpc"))])),
    ]);
    let u = User::login("pol", &resp).unwrap();
    assert_eq!(u.token, "abc");
    assert_eq!(u.api, "https://other/xml-rpc");
    assert_eq!(u.sublanguageid, "pol");
}

#[test]
fn login_falls_back_to_the_login_endpoint() {
    let resp = st(vec![("status", s("200 OK")), ("token", s("abc"))]);
    let u = User::login("eng", &resp).unwrap();
    assert_eq!(u.api, LOGIN_LOCATION);
}

#[test]
fn login_without_token_fails() {
    let resp = st(vec![("status", s("200 OK"))]);
    assert!(matches!(User::login("eng", &resp), Err(Error::NoToken)));
}

#[test]
fn login_with_bad_status_fails() {
    let resp = st(vec![("status", s("401 Unauthorized")), ("token", s("abc"))]);
    match User::login("eng", &resp) {
        Err(Error::BadStatus(text)) => assert_eq!(text, "401 Unauthorized"),
        other => panic!("unexpected {:?}", other),
    }
}

#[test]
fn response_without_status_is_malformed() {
    assert!(matches!(User::response_status(&st(vec![])), Err(Error::Malformed)));
    assert!(matches!(User::response_status(&RpcValue::Int(200)), Err(Error::Malformed)));
    assert!(User::response_status(&st(vec![("status", s("200 OK"))])).is_ok());
}

#[test]
fn login_request_carries_credentials() {
    let req = User::login_request("me", "secret", "eng");
    assert_eq!(req.method, "LogIn");
    assert_eq!(req.params.len(), 4);
    assert!(matches!(&req.params[0], RpcValue::Str(t) if t == "me"));
    assert!(matches!(&req.params[1], RpcValue::Str(t) if t == "secret"));
    assert!(matches!(&req.params[2], RpcValue::Str(t) if t == "eng"));
    assert!(matches!(&req.params[3], RpcValue::Str(t) if t == "TemporaryUserAgent"));
}

#[test]
fn searching_without_fingerprints_asks_nothing() {
    let movies = Movie::collection(&vec!["a.mkv", "b.mkv"]);
    assert!(matches!(user().search_request(&movies), Err(Error::NothingToSearch)));
    assert!(matches!(user().search_request(&Vec::new()), Err(Error::NothingToSearch)));
}

#[test]
fn one_failed_fingerprint_does_not_stop_the_others() {
    let mut movies = Movie::collection(&vec!["a.mkv", "broken.mkv", "c.mkv"]);
    let mut head = vec![0u8; BLOCK];
    head[0] = 1;
    movies[0].compute_os_hash(131072, &head, &vec![0u8; BLOCK]).unwrap();
    assert!(movies[1].compute_os_hash(5, &[], &[]).is_err());
    movies[2].compute_os_hash(200_000, &vec![0u8; BLOCK], &vec![0u8; BLOCK]).unwrap();

    let req = user().search_request(&movies).unwrap();
    assert_eq!(req.method, "SearchSubtitles");
    match &req.params[1] {
        RpcValue::Array(entries) => {
            assert_eq!(entries.len(), 2);
            assert_eq!(entries[0].get_str("moviehash"), Some("0000000000020001"));
            assert!(matches!(entries[0].get("moviebytesize"), Some(RpcValue::Int(131072))));
            assert_eq!(entries[1].get_str("moviehash"), Some("0000000000030d40"));
            assert_eq!(entries[1].get_str("sublanguageid"), Some("eng"));
        }
        other => panic!("unexpected {:?}", other),
    }

    let resp = st(vec![
        ("status", s("200 OK")),
        (
            "data",
            RpcValue::Array(vec![
                hit("0000000000020001", "10", "6.0", "eng"),
                hit("0000000000030d40", "20", "9.5", "eng"),
            ]),
        ),
    ]);
    let mut movies = user().search(movies, &resp).unwrap();
    assert_eq!(movies[0].subs.len(), 1);
    assert!(movies[1].subs.is_empty());
    assert_eq!(movies[2].subs.len(), 1);
    for m in movies.iter_mut() {
        m.filter_subs();
    }

    let req = user().download_request(&movies);
    match &req.params[1] {
        RpcValue::Array(ids) => {
            assert_eq!(ids.len(), 2);
            assert_eq!(ids[0].as_str(), Some("10"));
            assert_eq!(ids[1].as_str(), Some("20"));
        }
        other => panic!("unexpected {:?}", other),
    }
    let resp = st(vec![
        ("status", s("200 OK")),
        (
            "data",
            RpcValue::Array(vec![
                st(vec![("idsubtitlefile", s("10")), ("data", s("AAAA"))]),
                st(vec![("idsubtitlefile", s("20")), ("data", s("BBBB"))]),
            ]),
        ),
    ]);
    let movies = user().download(movies, &resp).unwrap();
    assert_eq!(movies[0].subs[0].b64gz.as_deref(), Some("AAAA"));
    assert!(movies[1].subs.is_empty());
    assert_eq!(movies[2].subs[0].b64gz.as_deref(), Some("BBBB"));
}

#[test]
fn search_groups_hits_by_fingerprint_and_language() {
    let a = fingerprinted("a.mkv", 131072, 1);
    let b = fingerprinted("b.mkv", 131072, 2);
    let (ha, hb) = (hash_of(&a), hash_of(&b));
    let resp = st(vec![
        ("status", s("200 OK")),
        (
            "data",
            RpcValue::Array(vec![
                hit(&ha, "1", "5.0", "eng"),
                hit(&hb, "2", "7.0", "eng"),
                hit(&ha, "3", "9.9", "pol"),
                hit(&ha, "4", "8.25", "eng"),
            ]),
        ),
    ]);
    let movies = user().search(vec![a, b], &resp).unwrap();
    let ids: Vec<&str> = movies[0].subs.iter().map(|x| x.id.as_str()).collect();
    assert_eq!(ids, vec!["1", "4"]);
    assert_eq!(movies[0].subs[1].rating, 825);
    assert_eq!(movies[1].subs.len(), 1);
    assert_eq!(movies[1].subs[0].id, "2");
}

#[test]
fn search_with_malformed_hit_fails() {
    let a = fingerprinted("a.mkv", 131072, 1);
    let bad = st(vec![("MovieHash", s("x")), ("IDSubtitleFile", RpcValue::Int(3))]);
    let resp = st(vec![("status", s("200 OK")), ("data", RpcValue::Array(vec![bad]))]);
    assert!(matches!(user().search(vec![a], &resp), Err(Error::Malformed)));
}

#[test]
fn search_without_results_leaves_no_candidates() {
    let a = fingerprinted("a.mkv", 131072, 1);
    let resp = st(vec![("status", s("200 OK")), ("data", RpcValue::Bool(false))]);
    let movies = user().search(vec![a], &resp).unwrap();
    assert!(movies[0].subs.is_empty());
}

#[test]
fn search_with_bad_status_fails() {
    let a = fingerprinted("a.mkv", 131072, 1);
    let resp = st(vec![("status", s("503 Service Unavailable"))]);
    assert!(matches!(user().search(vec![a], &resp), Err(Error::BadStatus(_))));
}

#[test]
fn download_leaves_unnamed_ids_without_payload() {
    let mut m = Movie::new("a.mkv".to_string());
    m.subs = vec![
        Subtitles {
            id: "7".to_string(),
            lang: "eng".to_string(),
            format: "srt".to_string(),
            rating: 0,
            b64gz: None,
        },
        Subtitles {
            id: "8".to_string(),
            lang: "eng".to_string(),
            format: "srt".to_string(),
            rating: 0,
            b64gz: None,
        },
    ];
    let resp = st(vec![
        ("status", s("200 OK")),
        (
            "data",
            RpcValue::Array(vec![
                st(vec![("idsubtitlefile", s("8")), ("data", s("old"))]),
                st(vec![("idsubtitlefile", s("8")), ("data", s("new"))]),
            ]),
        ),
    ]);
    let movies = user().download(vec![m], &resp).unwrap();
    assert!(movies[0].subs[0].b64gz.is_none());
    assert_eq!(movies[0].subs[1].b64gz.as_deref(), Some("new"));
}

#[test]
fn download_with_malformed_item_fails() {
    let resp = st(vec![
        ("status", s("200 OK")),
        ("data", RpcValue::Array(vec![st(vec![("idsubtitlefile", s("8"))])])),
    ]);
    assert!(matches!(user().download(Vec::new(), &resp), Err(Error::Malformed)));
}

#[test]
fn ratings_read_in_hundredths() {
    assert_eq!(parse_rating("7.5"), 750);
    assert_eq!(parse_rating("10.0"), 1000);
    assert_eq!(parse_rating("8"), 800);
    assert_eq!(parse_rating("6.789"), 678);
    assert_eq!(parse_rating("0.0"), 0);
    assert_eq!(parse_rating("7."), 700);
    assert_eq!(parse_rating(".5"), 50);
}

#[test]
fn search_without_fingerprints_fails() {
    let movies = Movie::collection(&vec!["a.mkv"]);
    let resp = st(vec![("status", s("200 OK")), ("data", RpcValue::Array(Vec::new()))]);
    assert!(matches!(user().search(movies, &resp), Err(Error::NothingToSearch)));
    assert!(matches!(user().search(Vec::new(), &resp), Err(Error::NothingToSearch)));
}

#[test]
fn unreadable_ratings_count_as_unrated() {
    assert_eq!(parse_rating(""), 0);
    assert_eq!(parse_rating("abc"), 0);
    assert_eq!(parse_rating("."), 0);
    assert_eq!(parse_rating("7.x"), 0);
    assert_eq!(parse_rating("1.2.3"), 0);
    assert_eq!(parse_rating("1234567890123456"), 0);
}

#[test]
fn collection_makes_one_movie_per_path() {
    let movies = Movie::collection(&vec!["x/a.mkv", "b.avi"]);
    assert_eq!(movies.len(), 2);
    assert_eq!(movies[0].path_str(), "x/a.mkv");
    assert_eq!(movies[1].path_str(), "b.avi");
    assert!(movies[1].os_info.is_none());
}
