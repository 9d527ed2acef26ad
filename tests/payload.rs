use std::io::Write;

use subpls::movie::{decode_payload, sub_path, Movie, Subtitles};
use subpls::Error;

fn encode(raw: &[u8]) -> String {
    let mut gz = flate2::write::GzEncoder::new(Vec::new(), flate2::Compression::default());
    gz.write_all(raw).unwrap();
    base64::encode(gz.finish().unwrap())
}

fn movie(path: &str, subs: Vec<Subtitles>) -> Movie {
    let mut m = Movie::new(path.to_string());
    m.subs = subs;
    m
}

fn sub(payload: Option<String>) -> Subtitles {
    Subtitles {
        id: "1".to_string(),
        lang: "eng".to_string(),
        format: "srt".to_string(),
        rating: 800,
        b64gz: payload,
    }
}

#[test]
fn payload_round_trip() {
    let raw = b"1\n00:00:01,000 --> 00:00:02,000\nHello\n".to_vec();
    assert_eq!(decode_payload(&encode(&raw)).unwrap(), raw);
}

#[test]
fn payload_round_trip_of_binary_and_empty_data() {
    let raw: Vec<u8> = (0..5000u32).map(|i| (i * 31 % 256) as u8).collect();
    assert_eq!(decode_payload(&encode(&raw)).unwrap(), raw);
    assert_eq!(decode_payload(&encode(&[])).unwrap(), Vec::<u8>::new());
}

#[test]
fn payload_that_is_not_base64_fails() {
    assert!(matches!(decode_payload("not base64!"), Err(Error::Base64)));
}

#[test]
fn payload_that_is_not_gzip_fails() {
    let text = base64::encode(b"plain text, no gzip here");
    assert!(matches!(decode_payload(&text), Err(Error::Gzip(_))));
}

#[test]
fn truncated_gzip_fails() {
    let mut gz = flate2::write::GzEncoder::new(Vec::new(), flate2::Compression::default());
    gz.write_all(&[7u8; 1000]).unwrap();
    let mut bytes = gz.finish().unwrap();
    bytes.truncate(bytes.len() / 2);
    assert!(matches!(decode_payload(&base64::encode(bytes)), Err(Error::Gzip(_))));
}

#[test]
fn subtitle_path_replaces_the_extension() {
    assert_eq!(sub_path("movie.mp4", "eng", "srt").unwrap(), "movie.eng.srt");
    assert_eq!(sub_path("dir/a.b/film.x.mkv", "pol", "sub").unwrap(), "dir/a.b/film.x.pol.sub");
}

#[test]
fn subtitle_path_appends_without_extension() {
    assert_eq!(sub_path("dir/movie", "eng", "srt").unwrap(), "dir/movie.eng.srt");
    assert_eq!(sub_path(".hidden", "eng", "srt").unwrap(), ".hidden.eng.srt");
}

#[test]
fn subtitle_path_needs_a_file_name() {
    assert!(sub_path("", "eng", "srt").is_none());
    assert!(sub_path("/", "eng", "srt").is_none());
    assert!(sub_path("videos/..", "eng", "srt").is_none());
    assert!(sub_path("..", "eng", "srt").is_none());
    assert!(sub_path(".", "eng", "srt").is_none());
    assert!(sub_path("./", "eng", "srt").is_none());
    assert!(sub_path("/.", "eng", "srt").is_none());
}

#[test]
fn subtitle_path_ignores_trailing_separators_and_dots() {
    assert_eq!(sub_path("videos/", "eng", "srt").unwrap(), "videos.eng.srt");
    assert_eq!(sub_path("a/b/.", "eng", "srt").unwrap(), "a/b.eng.srt");
    assert_eq!(sub_path("a//", "eng", "srt").unwrap(), "a.eng.srt");
    assert_eq!(sub_path("dir/film.mkv/./", "pol", "sub").unwrap(), "dir/film.pol.sub");
}

#[test]
fn subtitle_file_decodes_the_first_payload() {
    let raw = b"subtitle text".to_vec();
    let m = movie("videos/film.avi", vec![sub(None), sub(Some(encode(&raw)))]);
    let (path, content) = m.subtitle_file().unwrap();
    assert_eq!(path, "videos/film.eng.srt");
    assert_eq!(content, raw);
}

#[test]
fn subtitle_file_without_payload_fails() {
    let m = movie("film.avi", vec![sub(None)]);
    assert!(matches!(m.subtitle_file(), Err(Error::NothingToSave)));
    let m = movie("film.avi", Vec::new());
    assert!(matches!(m.subtitle_file(), Err(Error::NothingToSave)));
}

#[test]
fn subtitle_file_with_bad_path_fails() {
    let m = movie("videos/..", vec![sub(Some(encode(b"x")))]);
    assert!(matches!(m.subtitle_file(), Err(Error::BadPath)));
    let m = movie("/", vec![sub(Some(encode(b"x")))]);
    assert!(matches!(m.subtitle_file(), Err(Error::BadPath)));
}

#[test]
fn subtitle_file_with_bad_payload_fails() {
    let m = movie("film.avi", vec![sub(Some("@@@".to_string()))]);
    assert!(matches!(m.subtitle_file(), Err(Error::Base64)));
    let m = movie("film.avi", vec![sub(Some(base64::encode(b"raw")))]);
    assert!(matches!(m.subtitle_file(), Err(Error::Gzip(_))));
    let m = movie("videos/", vec![sub(Some(base64::encode(b"raw")))]);
    assert!(matches!(m.subtitle_file(), Err(Error::Gzip(_))));
}
