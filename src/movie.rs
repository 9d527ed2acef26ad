use vstd::prelude::*;
use vstd::string::*;

use crate::error::Error;
use crate::hash::{checksum, hex16, os_hash, BLOCK};
use crate::text::{find_last, last_index_of, lemma_last_index_of, same_text};

verus! {

/// A subtitle offered by the catalog for a video.
#[derive(Debug)]
pub struct Subtitles {
    /// The catalog's id of the subtitle file.
    pub id: String,
    /// The language code, `eng` for instance.
    pub lang: String,
    /// The file format, `srt` for instance.
    pub format: String,
    /// The rating in hundredths of a point (7.5 is 750); 0 when unrated.
    pub rating: u64,
    /// The downloaded payload: gzip data in base64 text.
    pub b64gz: Option<String>,
}

/// What a subtitle candidate holds, as plain values.
pub struct SubView {
    pub id: Seq<char>,
    pub lang: Seq<char>,
    pub format: Seq<char>,
    pub rating: u64,
    pub b64gz: Option<Seq<char>>,
}

impl View for Subtitles {
    type V = SubView;

    open spec fn view(&self) -> SubView {
        SubView {
            id: self.id@,
            lang: self.lang@,
            format: self.format@,
            rating: self.rating,
            b64gz: match self.b64gz {
                Some(s) => Some(s@),
                None => None,
            },
        }
    }
}

impl Clone for Subtitles {
    fn clone(&self) -> (r: Self)
        ensures
            r@ == self@,
    {
        let b64gz = match &self.b64gz {
            Some(s) => Some(s.clone()),
            None => None,
        };
        Subtitles {
            id: self.id.clone(),
            lang: self.lang.clone(),
            format: self.format.clone(),
            rating: self.rating,
            b64gz,
        }
    }
}

/// The views of a sequence of candidates.
pub open spec fn sub_views(subs: Seq<Subtitles>) -> Seq<SubView> {
    subs.map_values(|s: Subtitles| s@)
}

/// The candidate kept out of `s`: the highest rated, and of equally rated ones
/// the one that comes last.
pub open spec fn best_of(s: Seq<SubView>) -> Option<SubView>
    decreases s.len(),
{
    if s.len() == 0 {
        None
    } else {
        match best_of(s.drop_last()) {
            Some(b) => if s.last().rating >= b.rating {
                Some(s.last())
            } else {
                Some(b)
            },
            None => Some(s.last()),
        }
    }
}

/// The kept candidate is rated at least as high as every other one and higher
/// than every one that follows it, so of equally rated candidates the last one
/// is kept; there is one wherever there is a candidate.
pub proof fn lemma_best_is_last_maximum(s: Seq<SubView>)
    ensures
        s.len() == 0 <==> best_of(s) is None,
        s.len() > 0 ==> exists|i: int|
            #![trigger s[i]]
            0 <= i < s.len() && s[i] == best_of(s)->Some_0 && (forall|j: int|
                0 <= j < s.len() ==> s[j].rating <= s[i].rating) && (forall|j: int|
                i < j < s.len() ==> s[j].rating < s[i].rating),
    decreases s.len(),
{
    if s.len() > 0 {
        let t = s.drop_last();
        let n = s.len() - 1;
        lemma_best_is_last_maximum(t);
        if t.len() == 0 {
            assert(s[n] == best_of(s)->Some_0);
        } else {
            let i = choose|i: int|
                #![trigger t[i]]
                0 <= i < t.len() && t[i] == best_of(t)->Some_0 && (forall|j: int|
                    0 <= j < t.len() ==> t[j].rating <= t[i].rating) && (forall|j: int|
                    i < j < t.len() ==> t[j].rating < t[i].rating);
            if s.last().rating >= t[i].rating {
                assert(s[n] == best_of(s)->Some_0);
                assert forall|j: int| 0 <= j < s.len() implies s[j].rating <= s[n].rating by {
                    if j < n {
                        assert(s[j] == t[j]);
                    }
                }
            } else {
                assert(s[i] == t[i]);
                assert forall|j: int| 0 <= j < s.len() implies s[j].rating <= s[i].rating by {
                    if j < n {
                        assert(s[j] == t[j]);
                    }
                }
                assert forall|j: int| i < j < s.len() implies s[j].rating < s[i].rating by {
                    if j < n {
                        assert(s[j] == t[j]);
                    }
                }
            }
        }
    }
}

/// The first candidate of `s` that carries a payload.
pub open spec fn first_with_payload(s: Seq<SubView>) -> Option<SubView>
    decreases s.len(),
{
    if s.len() == 0 {
        None
    } else if s[0].b64gz is Some {
        Some(s[0])
    } else {
        first_with_payload(s.drop_first())
    }
}

/// Where the file name of `path` starts: just past its last `/`.
pub open spec fn name_start(path: Seq<char>) -> int {
    last_index_of(path, '/') + 1
}

/// `path` without what names no file at its end: trailing `/` separators and
/// trailing `.` parts, so that `videos/` and `a/b/.` name `videos` and `a/b`.
pub open spec fn trim_end(path: Seq<char>) -> Seq<char>
    decreases path.len(),
{
    if path.len() > 0 && path.last() == '/' {
        trim_end(path.drop_last())
    } else if path.len() >= 2 && path.last() == '.' && path[path.len() - 2] == '/' {
        trim_end(path.drop_last())
    } else {
        path
    }
}

/// The subtitle path for a trimmed video path `t`: its file name is what
/// follows its last `/`.
pub open spec fn subtitle_path_of_name(t: Seq<char>, lang: Seq<char>, format: Seq<char>) -> Option<
    Seq<char>,
> {
    let start = name_start(t);
    let name = t.skip(start);
    if name.len() == 0 || name == seq!['.'] || name == seq!['.', '.'] {
        None
    } else {
        let dot = last_index_of(name, '.');
        let stem = if dot > 0 {
            name.take(dot)
        } else {
            name
        };
        Some(t.take(start) + stem + seq!['.'] + lang + seq!['.'] + format)
    }
}

/// The path of the subtitle file for a video at `path`: the video's file
/// name loses its extension (the part from its last `.`, where that is not
/// its first character) and gains `.<lang>.<format>`, as `movie.mp4` gives
/// `movie.eng.srt` and `videos/` gives `videos.eng.srt`. The file name is the
/// last part of the path once trailing `/` and `.` parts are set aside.
/// `None` where the path names no file: it is empty, the root, `.`, or ends
/// in `..`.
pub open spec fn subtitle_path(path: Seq<char>, lang: Seq<char>, format: Seq<char>) -> Option<
    Seq<char>,
> {
    subtitle_path_of_name(trim_end(path), lang, format)
}

/// Names the bytes that a base64 text (standard alphabet, with padding)
/// decodes to; `None` for text that is not valid base64.
pub uninterp spec fn base64_of(s: Seq<char>) -> Option<Seq<u8>>;

/// Names the bytes that a gzip stream decompresses to; `None` for a corrupt
/// or truncated stream.
pub uninterp spec fn gunzip_of(b: Seq<u8>) -> Option<Seq<u8>>;

/// Relies on `base64::decode`: it decodes standard padded base64, its result
/// depends on the text alone, and it fails on text that is not valid base64.
#[verifier::external_body]
fn decode_base64(s: &str) -> (r: Result<Vec<u8>, base64::DecodeError>)
    ensures
        match r {
            Ok(v) => base64_of(s@) == Some(v@),
            Err(_) => base64_of(s@) is None,
        },
{
    base64::decode(s)
}

/// Relies on `flate2::read::GzDecoder` read to the end over an in-memory
/// buffer: the output depends on the bytes alone, and reading fails on a
/// corrupt or truncated stream.
#[verifier::external_body]
fn decode_reader(bytes: &[u8]) -> (r: Result<Vec<u8>, std::io::Error>)
    ensures
        match r {
            Ok(v) => gunzip_of(bytes@) == Some(v@),
            Err(_) => gunzip_of(bytes@) is None,
        },
{
    let mut gz = flate2::read::GzDecoder::new(bytes);
    let mut out = Vec::new();
    match std::io::Read::read_to_end(&mut gz, &mut out) {
        Ok(_) => Ok(out),
        Err(e) => Err(e),
    }
}

/// Decodes a downloaded payload: base64 text first, then the gzip stream
/// that it holds.
pub fn decode_payload(payload: &str) -> (r: Result<Vec<u8>, Error>)
    ensures
        match base64_of(payload@) {
            None => r matches Err(Error::Base64),
            Some(gz) => match gunzip_of(gz) {
                None => r matches Err(Error::Gzip(_)),
                Some(raw) => r matches Ok(v) && v@ == raw,
            },
        },
{
    let gz = match decode_base64(payload) {
        Ok(v) => v,
        Err(e) => return Err(Error::from(e)),
    };
    match decode_reader(gz.as_slice()) {
        Ok(raw) => Ok(raw),
        Err(e) => Err(Error::Gzip(e)),
    }
}

/// The length of `trim_end(path@)`.
fn trimmed_len(path: &str) -> (r: usize)
    ensures
        r <= path@.len(),
        path@.take(r as int) == trim_end(path@),
{
    let mut end = path.unicode_len();
    assert(path@.take(end as int) =~= path@);
    loop
        invariant
            end <= path@.len(),
            trim_end(path@.take(end as int)) == trim_end(path@),
        decreases end,
    {
        let ghost t = path@.take(end as int);
        proof {
            if end > 0 {
                assert(path@.take(end - 1) =~= t.drop_last());
            }
        }
        if end > 0 && path.get_char(end - 1) == '/' {
            end -= 1;
        } else if end >= 2 && path.get_char(end - 1) == '.' && path.get_char(end - 2) == '/' {
            end -= 1;
        } else {
            return end;
        }
    }
}

/// Derives the subtitle file's path from the video's, as `subtitle_path` says.
pub fn sub_path(path: &str, lang: &str, format: &str) -> (r: Option<String>)
    ensures
        match r {
            Some(p) => subtitle_path(path@, lang@, format@) == Some(p@),
            None => subtitle_path(path@, lang@, format@) is None,
        },
{
    let end = trimmed_len(path);
    let t = path.substring_char(0, end);
    assert(t@ =~= path@.take(end as int));
    sub_path_of_name(t, lang, format)
}

/// Derives the subtitle path for a trimmed video path, as `subtitle_path_of_name` says.
fn sub_path_of_name(path: &str, lang: &str, format: &str) -> (r: Option<String>)
    ensures
        match r {
            Some(p) => subtitle_path_of_name(path@, lang@, format@) == Some(p@),
            None => subtitle_path_of_name(path@, lang@, format@) is None,
        },
{
    let n = path.unicode_len();
    proof {
        lemma_last_index_of(path@, '/');
    }
    let start = match find_last(path, '/') {
        Some(i) => i + 1,
        None => 0,
    };
    proof {
        reveal_strlit(".");
        reveal_strlit("..");
    }
    let name = path.substring_char(start, n);
    assert(name@ =~= path@.skip(start as int));
    if start == n || same_text(name, ".") || same_text(name, "..") {
        assert("."@ =~= seq!['.']);
        assert(".."@ =~= seq!['.', '.']);
        return None;
    }
    assert("."@ =~= seq!['.']);
    assert(".."@ =~= seq!['.', '.']);
    let stem_len = match find_last(name, '.') {
        Some(d) => if d > 0 {
            d
        } else {
            n - start
        },
        None => n - start,
    };
    proof {
        lemma_last_index_of(name@, '.');
    }
    let mut out = path.substring_char(0, start + stem_len).to_owned();
    out.append(".");
    out.append(lang);
    out.append(".");
    out.append(format);
    proof {
        let dot = last_index_of(name@, '.');
        let stem = if dot > 0 {
            name@.take(dot)
        } else {
            name@
        };
        assert(path@.subrange(0, start + stem_len) =~= path@.take(start as int) + stem);
    }
    assert(out@ =~= subtitle_path_of_name(path@, lang@, format@)->Some_0);
    Some(out)
}

/// A local video and what the catalog offers for it.
#[derive(Debug)]
pub struct Movie {
    pub path: String,
    pub subs: Vec<Subtitles>,
    /// The fingerprint, once it has been computed.
    pub os_info: Option<crate::hash::Hash>,
}

impl Movie {
    /// A video at `path`, with no fingerprint and no candidates yet.
    pub fn new(path: String) -> (r: Movie)
        ensures
            r.path@ == path@,
            r.os_info is None,
            r.subs@.len() == 0,
    {
        Movie { path, os_info: None, subs: Vec::new() }
    }

    /// One fresh video for each of `files`, in order.
    pub fn collection(files: &Vec<&str>) -> (r: Vec<Movie>)
        ensures
            r@.len() == files@.len(),
            forall|i: int|
                0 <= i < r@.len() ==> {
                    &&& (#[trigger] r@[i]).path@ == files@[i]@
                    &&& r@[i].os_info is None
                    &&& r@[i].subs@.len() == 0
                },
    {
        let mut ret: Vec<Movie> = Vec::new();
        let mut i: usize = 0;
        while i < files.len()
            invariant
                i <= files@.len(),
                ret@.len() == i,
                forall|k: int|
                    0 <= k < i ==> {
                        &&& (#[trigger] ret@[k]).path@ == files@[k]@
                        &&& ret@[k].os_info is None
                        &&& ret@[k].subs@.len() == 0
                    },
            decreases files@.len() - i,
        {
            ret.push(Movie::new(files[i].to_owned()));
            i += 1;
        }
        ret
    }

    /// Records the fingerprint computed from the video's size and windows
    /// (see `os_hash`); on failure the video keeps having none.
    pub fn compute_os_hash(&mut self, size: u64, head: &[u8], tail: &[u8]) -> (r: Result<
        (),
        Error,
    >)
        ensures
            final(self).path == old(self).path,
            final(self).subs == old(self).subs,
            match r {
                Ok(()) => {
                    &&& size >= BLOCK
                    &&& head@.len() == BLOCK
                    &&& tail@.len() == BLOCK
                    &&& final(self).os_info matches Some(h)
                    &&& h.hash@ == hex16(checksum(size as nat, head@, tail@))
                    &&& h.size == size
                },
                Err(e) => {
                    &&& e is ShortFile
                    &&& (size < BLOCK || head@.len() != BLOCK || tail@.len() != BLOCK)
                    &&& final(self).os_info == old(self).os_info
                },
            },
    {
        match os_hash(size, head, tail) {
            Ok(h) => {
                self.os_info = Some(h);
                Ok(())
            },
            Err(e) => Err(e),
        }
    }

    /// Keeps only the best candidate (see `best_of`), or none where there is none.
    pub fn filter_subs(&mut self)
        ensures
            final(self).path == old(self).path,
            final(self).os_info == old(self).os_info,
            sub_views(final(self).subs@) == match best_of(sub_views(old(self).subs@)) {
                Some(b) => seq![b],
                None => Seq::<SubView>::empty(),
            },
    {
        let ghost views = sub_views(self.subs@);
        let mut best: Option<usize> = None;
        let mut i: usize = 0;
        while i < self.subs.len()
            invariant
                i <= self.subs@.len(),
                views == sub_views(self.subs@),
                match best_of(views.take(i as int)) {
                    Some(b) => best matches Some(k) && k < i && views[k as int] == b,
                    None => best is None,
                },
            decreases self.subs@.len() - i,
        {
            assert(views.take(i + 1).drop_last() =~= views.take(i as int));
            match best {
                Some(k) => {
                    if self.subs[i].rating >= self.subs[k].rating {
                        best = Some(i);
                    }
                },
                None => {
                    best = Some(i);
                },
            }
            i += 1;
        }
        assert(views.take(self.subs@.len() as int) =~= views);
        match best {
            Some(k) => {
                let chosen = self.subs.remove(k);
                self.subs = Vec::new();
                self.subs.push(chosen);
                assert(sub_views(self.subs@) =~= seq![views[k as int]]);
            },
            None => {
                assert(sub_views(self.subs@) =~= Seq::<SubView>::empty());
            },
        }
    }

    /// The rating of the first candidate, for display once one is left.
    pub fn present_rating(&self) -> (r: Option<u64>)
        ensures
            r == if self.subs@.len() > 0 {
                Some(self.subs@[0].rating)
            } else {
                None
            },
    {
        if self.subs.len() > 0 {
            Some(self.subs[0].rating)
        } else {
            None
        }
    }

    /// The video's path as text.
    pub fn path_str(&self) -> (r: &str)
        ensures
            r@ == self.path@,
    {
        self.path.as_str()
    }

    /// The subtitle file to write for this video: its path and its decoded
    /// content, from the first candidate that carries a payload.
    pub fn subtitle_file(&self) -> (r: Result<(String, Vec<u8>), Error>)
        ensures
            match first_with_payload(sub_views(self.subs@)) {
                None => r matches Err(Error::NothingToSave),
                Some(sub) => match base64_of(sub.b64gz->Some_0) {
                    None => r matches Err(Error::Base64),
                    Some(gz) => match subtitle_path(self.path@, sub.lang, sub.format) {
                        None => r matches Err(Error::BadPath),
                        Some(p) => match gunzip_of(gz) {
                            None => r matches Err(Error::Gzip(_)),
                            Some(raw) => r matches Ok((f, b)) && f@ == p && b@ == raw,
                        },
                    },
                },
            },
    {
        let ghost views = sub_views(self.subs@);
        let mut i: usize = 0;
        assert(views.skip(0) =~= views);
        while i < self.subs.len()
            invariant
                i <= self.subs@.len(),
                views == sub_views(self.subs@),
                first_with_payload(views) == first_with_payload(views.skip(i as int)),
            decreases self.subs@.len() - i,
        {
            assert(views.skip(i as int).drop_first() =~= views.skip(i + 1));
            assert(views.skip(i as int)[0] == views[i as int]);
            let sub = &self.subs[i];
            match &sub.b64gz {
                Some(payload) => {
                    let gz = match decode_base64(payload.as_str()) {
                        Ok(v) => v,
                        Err(e) => return Err(Error::from(e)),
                    };
                    let target = match sub_path(self.path.as_str(), sub.lang.as_str(), sub.format.as_str()) {
                        Some(p) => p,
                        None => return Err(Error::BadPath),
                    };
                    return match decode_reader(gz.as_slice()) {
                        Ok(raw) => Ok((target, raw)),
                        Err(e) => Err(Error::Gzip(e)),
                    };
                },
                None => {},
            }
            i += 1;
        }
        Err(Error::NothingToSave)
    }
}

} // verus!
