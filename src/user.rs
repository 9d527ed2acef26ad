use vstd::prelude::*;

use crate::error::Error;
use crate::movie::{best_of, lemma_best_is_last_maximum, sub_views, Movie, SubView, Subtitles};
use crate::rpc::{Request, RpcValue};
use crate::text::{parse_rating, rating_of, same_text};

verus! {

/// The endpoint that logins go to, and that later calls use unless the login
/// answer names another.
pub const LOGIN_LOCATION: &'static str = "https://api.opensubtitles.org/xml-rpc";

/// The user agent that the login presents.
pub const USER_AGENT: &'static str = "TemporaryUserAgent";

/// The status of a successful call.
pub const STATUS_OK: &'static str = "200 OK";

/// A session with the catalog.
#[derive(Debug)]
pub struct User {
    /// The endpoint for the calls after the login.
    pub api: String,
    /// The session token that each call carries.
    pub token: String,
    /// The language code of the subtitles wanted.
    pub sublanguageid: String,
}

/// The status text of a response.
pub open spec fn status_of(resp: RpcValue) -> Option<Seq<char>> {
    resp.text_field("status"@)
}

/// Whether a response reports success.
pub open spec fn status_ok(resp: RpcValue) -> bool {
    status_of(resp) == Some(STATUS_OK@)
}

/// Whether `e` is the error for a response that does not report success:
/// `Malformed` without a status, `BadStatus` with the status otherwise.
pub open spec fn status_failure(resp: RpcValue, e: Error) -> bool {
    match status_of(resp) {
        None => e is Malformed,
        Some(s) => s != STATUS_OK@ && (e matches Error::BadStatus(t) && t@ == s),
    }
}

/// The endpoint named by a login answer, or the login endpoint where it names none.
pub open spec fn api_of(resp: RpcValue) -> Seq<char> {
    match resp.field("data"@) {
        Some(d) => match d.text_field("Content-Location"@) {
            Some(l) => l,
            None => LOGIN_LOCATION@,
        },
        None => LOGIN_LOCATION@,
    }
}

/// The fingerprints of the videos that have one, in order: text and size.
pub open spec fn fingerprints(movies: Seq<Movie>) -> Seq<(Seq<char>, u64)>
    decreases movies.len(),
{
    if movies.len() == 0 {
        Seq::empty()
    } else {
        let rest = fingerprints(movies.drop_last());
        match movies.last().os_info {
            Some(h) => rest.push((h.hash@, h.size)),
            None => rest,
        }
    }
}

/// A video whose fingerprinting failed takes no part in the search: the
/// search asks for the same fingerprints, in the same order, as it would
/// without that video, so the other videos go on as before.
pub proof fn lemma_failed_fingerprint_left_out(movies: Seq<Movie>, i: int)
    requires
        0 <= i < movies.len(),
        movies[i].os_info is None,
    ensures
        fingerprints(movies) == fingerprints(movies.remove(i)),
    decreases movies.len(),
{
    let n = movies.len() - 1;
    if i == n {
        assert(movies.remove(i) =~= movies.drop_last());
    } else {
        lemma_failed_fingerprint_left_out(movies.drop_last(), i);
        assert(movies.remove(i).drop_last() =~= movies.drop_last().remove(i));
        assert(movies.remove(i).last() == movies.last());
    }
}

/// Fingerprints only accumulate: the videos up to a fingerprinted one already
/// have one.
proof fn lemma_fingerprints_grow(movies: Seq<Movie>, i: int)
    requires
        0 <= i < movies.len(),
        movies[i].os_info is Some,
    ensures
        fingerprints(movies).len() > 0,
    decreases movies.len(),
{
    if i < movies.len() - 1 {
        lemma_fingerprints_grow(movies.drop_last(), i);
        lemma_fingerprints_monotone(movies);
    }
}

/// Adding a video never drops a fingerprint.
proof fn lemma_fingerprints_monotone(movies: Seq<Movie>)
    requires
        movies.len() > 0,
    ensures
        fingerprints(movies).len() >= fingerprints(movies.drop_last()).len(),
{
}

/// Whether `v` is the search entry for the fingerprint `fp` in language `lang`.
pub open spec fn is_query(v: RpcValue, fp: (Seq<char>, u64), lang: Seq<char>) -> bool {
    &&& v matches RpcValue::Struct(fs)
    &&& fs@.len() == 3
    &&& fs@[0].0@ == "moviehash"@
    &&& fs@[0].1.text() == Some(fp.0)
    &&& fs@[1].0@ == "moviebytesize"@
    &&& fs@[1].1 == RpcValue::Int(fp.1 as i64)
    &&& fs@[2].0@ == "sublanguageid"@
    &&& fs@[2].1.text() == Some(lang)
}

/// The elements of a response's `data` array; none where it has no such array.
pub open spec fn data_items(resp: RpcValue) -> Seq<RpcValue> {
    match resp.field("data"@) {
        Some(RpcValue::Array(items)) => items@,
        _ => Seq::empty(),
    }
}

/// The search hit that a response item describes: the fingerprint text and
/// the candidate; `None` where a field is missing or is no string.
pub open spec fn hit_of(item: RpcValue) -> Option<(Seq<char>, SubView)> {
    match (
        item.text_field("MovieHash"@),
        item.text_field("IDSubtitleFile"@),
        item.text_field("SubFormat"@),
        item.text_field("SubRating"@),
        item.text_field("SubLanguageID"@),
    ) {
        (Some(hash), Some(id), Some(format), Some(rating), Some(lang)) => Some(
            (hash, SubView { id, lang, format, rating: rating_of(rating) as u64, b64gz: None }),
        ),
        _ => None,
    }
}

/// Whether every item of a response describes a search hit.
pub open spec fn hits_well_formed(items: Seq<RpcValue>) -> bool {
    forall|i: int| 0 <= i < items.len() ==> (#[trigger] hit_of(items[i])) is Some
}

/// The search hits that a response's items describe, in order.
pub open spec fn hits_of(items: Seq<RpcValue>) -> Seq<(Seq<char>, SubView)> {
    items.map_values(|item: RpcValue| hit_of(item)->Some_0)
}

/// The view of a search hit.
pub open spec fn hit_views(hits: Seq<(String, Subtitles)>) -> Seq<(Seq<char>, SubView)> {
    hits.map_values(|h: (String, Subtitles)| (h.0@, h.1@))
}

/// The candidates among `hits` for the fingerprint `hash` in language `lang`, in order.
pub open spec fn candidates_for(hits: Seq<(Seq<char>, SubView)>, hash: Seq<char>, lang: Seq<char>) -> Seq<
    SubView,
>
    decreases hits.len(),
{
    if hits.len() == 0 {
        Seq::empty()
    } else {
        let rest = candidates_for(hits.drop_last(), hash, lang);
        if hits.last().0 == hash && hits.last().1.lang == lang {
            rest.push(hits.last().1)
        } else {
            rest
        }
    }
}

/// Every candidate for a fingerprint is in the language asked for.
pub proof fn lemma_candidates_language(
    hits: Seq<(Seq<char>, SubView)>,
    hash: Seq<char>,
    lang: Seq<char>,
)
    ensures
        forall|i: int|
            0 <= i < candidates_for(hits, hash, lang).len() ==> (#[trigger] candidates_for(
                hits,
                hash,
                lang,
            )[i]).lang == lang,
    decreases hits.len(),
{
    if hits.len() > 0 {
        lemma_candidates_language(hits.drop_last(), hash, lang);
    }
}

/// Whatever the ratings, the subtitle chosen for a fingerprint is in the
/// language asked for.
pub proof fn lemma_best_has_language(
    hits: Seq<(Seq<char>, SubView)>,
    hash: Seq<char>,
    lang: Seq<char>,
)
    ensures
        best_of(candidates_for(hits, hash, lang)) matches Some(b) ==> b.lang == lang,
{
    let c = candidates_for(hits, hash, lang);
    lemma_candidates_language(hits, hash, lang);
    lemma_best_is_last_maximum(c);
}


/// The ids of a video's candidates, in order.
pub open spec fn ids_of(subs: Seq<Subtitles>) -> Seq<Seq<char>> {
    subs.map_values(|s: Subtitles| s.id@)
}

/// The ids of the candidates of all videos, video by video, in order.
pub open spec fn all_ids(movies: Seq<Movie>) -> Seq<Seq<char>>
    decreases movies.len(),
{
    if movies.len() == 0 {
        Seq::empty()
    } else {
        all_ids(movies.drop_last()) + ids_of(movies.last().subs@)
    }
}

/// The subtitle id and payload that a download response item carries; `None`
/// where a field is missing or is no string.
pub open spec fn payload_of(item: RpcValue) -> Option<(Seq<char>, Seq<char>)> {
    match (item.text_field("idsubtitlefile"@), item.text_field("data"@)) {
        (Some(id), Some(data)) => Some((id, data)),
        _ => None,
    }
}

/// Whether every item of a response carries an id and a payload.
pub open spec fn payloads_well_formed(items: Seq<RpcValue>) -> bool {
    forall|i: int| 0 <= i < items.len() ==> (#[trigger] payload_of(items[i])) is Some
}

/// The ids and payloads that a response's items carry, in order.
pub open spec fn payloads_of(items: Seq<RpcValue>) -> Seq<(Seq<char>, Seq<char>)> {
    items.map_values(|item: RpcValue| payload_of(item)->Some_0)
}

/// The view of a list of ids and payloads.
pub open spec fn pair_views(pairs: Seq<(String, String)>) -> Seq<(Seq<char>, Seq<char>)> {
    pairs.map_values(|p: (String, String)| (p.0@, p.1@))
}

/// The payload for `id`: the last one that `pairs` gives for it.
pub open spec fn payload_for(pairs: Seq<(Seq<char>, Seq<char>)>, id: Seq<char>) -> Option<Seq<char>>
    decreases pairs.len(),
{
    if pairs.len() == 0 {
        None
    } else if pairs.last().0 == id {
        Some(pairs.last().1)
    } else {
        payload_for(pairs.drop_last(), id)
    }
}

/// The candidates `subs`, each with the payload that `pairs` gives for its id,
/// or with none.
pub open spec fn attach(subs: Seq<SubView>, pairs: Seq<(Seq<char>, Seq<char>)>) -> Seq<SubView> {
    subs.map_values(
        |s: SubView|
            SubView {
                id: s.id,
                lang: s.lang,
                format: s.format,
                rating: s.rating,
                b64gz: payload_for(pairs, s.id),
            },
    )
}

/// Adding a hit to the end adds its candidate to the end of its own fingerprint's
/// candidates and leaves those of every other fingerprint as they are.
proof fn lemma_candidates_step(hits: Seq<(Seq<char>, SubView)>, i: int, lang: Seq<char>)
    requires
        0 <= i < hits.len(),
    ensures
        forall|h: Seq<char>|
            #[trigger] candidates_for(hits.take(i + 1), h, lang) == if hits[i].0 == h
                && hits[i].1.lang == lang {
                candidates_for(hits.take(i), h, lang).push(hits[i].1)
            } else {
                candidates_for(hits.take(i), h, lang)
            },
{
    assert(hits.take(i + 1).drop_last() =~= hits.take(i));
}

/// Adding a candidate to the end keeps it where it is rated at least as high
/// as the one kept before.
proof fn lemma_best_push(c: Seq<SubView>, x: SubView)
    ensures
        best_of(c.push(x)) == match best_of(c) {
            Some(b) => if x.rating >= b.rating {
                Some(x)
            } else {
                Some(b)
            },
            None => Some(x),
        },
{
    assert(c.push(x).drop_last() =~= c);
}

impl User {
    /// Whether the response to a call of this session reports success.
    pub fn response_status(response: &RpcValue) -> (r: Result<(), Error>)
        ensures
            r is Ok <==> status_ok(*response),
            r matches Err(e) ==> status_failure(*response, e),
    {
        match response.get_str("status") {
            Some(status) => {
                if same_text(status, STATUS_OK) {
                    Ok(())
                } else {
                    Err(Error::BadStatus(status.to_owned()))
                }
            },
            None => Err(Error::Malformed),
        }
    }

    /// The login call: user name (empty for an anonymous login), password and
    /// language, sent to `LOGIN_LOCATION`.
    pub fn login_request(username: &str, password: &str, language: &str) -> (r: Request)
        ensures
            r.method@ == "LogIn"@,
            r.params@.len() == 4,
            r.params@[0].text() == Some(username@),
            r.params@[1].text() == Some(password@),
            r.params@[2].text() == Some(language@),
            r.params@[3].text() == Some(USER_AGENT@),
    {
        Request {
            method: "LogIn".to_owned(),
            params: vec![
                RpcValue::Str(username.to_owned()),
                RpcValue::Str(password.to_owned()),
                RpcValue::Str(language.to_owned()),
                RpcValue::Str(USER_AGENT.to_owned()),
            ],
        }
    }

    /// Opens a session from the answer to the login call: the status must be
    /// `200 OK` and the answer must hold a token.
    pub fn login(language: &str, response: &RpcValue) -> (r: Result<User, Error>)
        ensures
            match r {
                Ok(u) => {
                    &&& status_ok(*response)
                    &&& response.text_field("token"@) == Some(u.token@)
                    &&& u.sublanguageid@ == language@
                    &&& u.api@ == api_of(*response)
                },
                Err(e) => if status_ok(*response) {
                    response.text_field("token"@) is None && e is NoToken
                } else {
                    status_failure(*response, e)
                },
            },
    {
        User::response_status(response)?;
        let token = match response.get_str("token") {
            Some(t) => t.to_owned(),
            None => return Err(Error::NoToken),
        };
        let api = match response.get("data") {
            Some(data) => match data.get_str("Content-Location") {
                Some(l) => l.to_owned(),
                None => LOGIN_LOCATION.to_owned(),
            },
            None => LOGIN_LOCATION.to_owned(),
        };
        Ok(User { api, token, sublanguageid: language.to_owned() })
    }

    /// The search call: one entry for each video that has a fingerprint.
    /// Fails with `NothingToSearch`, and asks for nothing, where none has one.
    pub fn search_request(&self, movies: &Vec<Movie>) -> (r: Result<Request, Error>)
        ensures
            match r {
                Ok(req) => {
                    &&& fingerprints(movies@).len() > 0
                    &&& req.method@ == "SearchSubtitles"@
                    &&& req.params@.len() == 2
                    &&& req.params@[0].text() == Some(self.token@)
                    &&& req.params@[1] matches RpcValue::Array(entries)
                    &&& entries@.len() == fingerprints(movies@).len()
                    &&& forall|k: int|
                        0 <= k < entries@.len() ==> is_query(
                            #[trigger] entries@[k],
                            fingerprints(movies@)[k],
                            self.sublanguageid@,
                        )
                },
                Err(e) => e is NothingToSearch && fingerprints(movies@).len() == 0,
            },
    {
        let mut prepared: Vec<RpcValue> = Vec::new();
        let mut i: usize = 0;
        while i < movies.len()
            invariant
                i <= movies@.len(),
                prepared@.len() == fingerprints(movies@.take(i as int)).len(),
                forall|k: int|
                    0 <= k < prepared@.len() ==> is_query(
                        #[trigger] prepared@[k],
                        fingerprints(movies@.take(i as int))[k],
                        self.sublanguageid@,
                    ),
            decreases movies@.len() - i,
        {
            assert(movies@.take(i + 1).drop_last() =~= movies@.take(i as int));
            if let Some(os_info) = &movies[i].os_info {
                let entry = RpcValue::Struct(
                    vec![
                        ("moviehash".to_owned(), RpcValue::Str(os_info.hash.clone())),
                        ("moviebytesize".to_owned(), RpcValue::Int(os_info.size as i64)),
                        ("sublanguageid".to_owned(), RpcValue::Str(self.sublanguageid.clone())),
                    ],
                );
                prepared.push(entry);
            }
            i += 1;
        }
        assert(movies@.take(movies@.len() as int) =~= movies@);
        if prepared.len() < 1 {
            return Err(Error::NothingToSearch);
        }
        Ok(
            Request {
                method: "SearchSubtitles".to_owned(),
                params: vec![RpcValue::Str(self.token.clone()), RpcValue::Array(prepared)],
            },
        )
    }

    /// Reads the search hit that a response item describes.
    fn read_hit(item: &RpcValue) -> (r: Option<(String, Subtitles)>)
        ensures
            match r {
                Some(h) => hit_of(*item) == Some((h.0@, h.1@)),
                None => hit_of(*item) is None,
            },
    {
        let hash = item.get_str("MovieHash")?;
        let id = item.get_str("IDSubtitleFile")?;
        let format = item.get_str("SubFormat")?;
        let rating = item.get_str("SubRating")?;
        let lang = item.get_str("SubLanguageID")?;
        let sub = Subtitles {
            id: id.to_owned(),
            lang: lang.to_owned(),
            format: format.to_owned(),
            rating: parse_rating(rating),
            b64gz: None,
        };
        Some((hash.to_owned(), sub))
    }

    /// The search hits of a search response, in order. Fails with `Malformed`
    /// where an item of its `data` array describes no hit; a response without
    /// such an array has none.
    pub fn extract_subids(response: &RpcValue) -> (r: Result<Vec<(String, Subtitles)>, Error>)
        ensures
            match r {
                Ok(hits) => {
                    &&& hits_well_formed(data_items(*response))
                    &&& hit_views(hits@) == hits_of(data_items(*response))
                },
                Err(e) => e is Malformed && !hits_well_formed(data_items(*response)),
            },
    {
        let mut ret: Vec<(String, Subtitles)> = Vec::new();
        let items = match response.get("data") {
            Some(data) => match data.as_array() {
                Some(items) => items,
                None => {
                    assert(hit_views(ret@) =~= hits_of(data_items(*response)));
                    return Ok(ret);
                },
            },
            None => {
                assert(hit_views(ret@) =~= hits_of(data_items(*response)));
                return Ok(ret);
            },
        };
        assert(items@ == data_items(*response));
        let mut i: usize = 0;
        while i < items.len()
            invariant
                i <= items@.len(),
                items@ == data_items(*response),
                ret@.len() == i,
                forall|k: int| 0 <= k < i ==> (#[trigger] hit_of(items@[k])) is Some,
                hit_views(ret@) =~= hits_of(items@.take(i as int)),
            decreases items@.len() - i,
        {
            match Self::read_hit(&items[i]) {
                Some(hit) => {
                    let ghost prev = ret@;
                    ret.push(hit);
                    assert forall|k: int| 0 <= k < i + 1 implies #[trigger] hit_views(ret@)[k]
                        == hits_of(items@.take(i + 1))[k] by {
                        if k < i {
                            assert(ret@[k] == prev[k]);
                            assert(hit_views(prev)[k] == hits_of(items@.take(i as int))[k]);
                        }
                    }
                    assert(hit_views(ret@) =~= hits_of(items@.take(i + 1)));
                },
                None => {
                    return Err(Error::Malformed);
                },
            }
            i += 1;
        }
        assert(items@.take(items@.len() as int) =~= items@);
        Ok(ret)
    }

    /// The candidates among `hits` for the fingerprint `hash` in language `lang`.
    fn candidates(hits: &Vec<(String, Subtitles)>, hash: &String, lang: &String) -> (r: Vec<
        Subtitles,
    >)
        ensures
            sub_views(r@) == candidates_for(hit_views(hits@), hash@, lang@),
    {
        let ghost hv = hit_views(hits@);
        let mut ret: Vec<Subtitles> = Vec::new();
        let mut i: usize = 0;
        while i < hits.len()
            invariant
                i <= hits@.len(),
                hv == hit_views(hits@),
                sub_views(ret@) =~= candidates_for(hv.take(i as int), hash@, lang@),
            decreases hits@.len() - i,
        {
            proof {
                lemma_candidates_step(hv, i as int, lang@);
            }
            if hits[i].0 == *hash && hits[i].1.lang == *lang {
                ret.push(hits[i].1.clone());
            }
            i += 1;
        }
        assert(hv.take(hits@.len() as int) =~= hv);
        ret
    }

    /// Whether any of `movies` has a fingerprint.
    fn has_fingerprint(movies: &Vec<Movie>) -> (r: bool)
        ensures
            r == (fingerprints(movies@).len() > 0),
    {
        let mut i: usize = 0;
        while i < movies.len()
            invariant
                i <= movies@.len(),
                fingerprints(movies@.take(i as int)).len() == 0,
            decreases movies@.len() - i,
        {
            assert(movies@.take(i + 1).drop_last() =~= movies@.take(i as int));
            if movies[i].os_info.is_some() {
                proof {
                    lemma_fingerprints_grow(movies@, i as int);
                }
                return true;
            }
            i += 1;
        }
        assert(movies@.take(movies@.len() as int) =~= movies@);
        false
    }

    /// Gives each video that has a fingerprint its candidates from a search
    /// response: the hits for its fingerprint in the session's language, in
    /// order. Videos without a fingerprint are left as they are. Fails with
    /// `NothingToSearch` where no video has a fingerprint: there was then no
    /// search to answer.
    pub fn search(&self, movies: Vec<Movie>, response: &RpcValue) -> (r: Result<Vec<Movie>, Error>)
        ensures
            match r {
                Ok(ms) => {
                    &&& fingerprints(movies@).len() > 0
                    &&& status_ok(*response)
                    &&& hits_well_formed(data_items(*response))
                    &&& ms@.len() == movies@.len()
                    &&& forall|i: int|
                        0 <= i < ms@.len() ==> {
                            &&& (#[trigger] ms@[i]).path == movies@[i].path
                            &&& ms@[i].os_info == movies@[i].os_info
                            &&& sub_views(ms@[i].subs@) == match movies@[i].os_info {
                                Some(h) => candidates_for(
                                    hits_of(data_items(*response)),
                                    h.hash@,
                                    self.sublanguageid@,
                                ),
                                None => sub_views(movies@[i].subs@),
                            }
                        }
                },
                Err(e) => if fingerprints(movies@).len() == 0 {
                    e is NothingToSearch
                } else if status_ok(*response) {
                    e is Malformed && !hits_well_formed(data_items(*response))
                } else {
                    status_failure(*response, e)
                },
            },
    {
        if !User::has_fingerprint(&movies) {
            return Err(Error::NothingToSearch);
        }
        User::response_status(response)?;
        let hits = User::extract_subids(response)?;
        let ghost before = movies@;
        let mut movies = movies;
        let mut i: usize = 0;
        while i < movies.len()
            invariant
                i <= movies@.len(),
                movies@.len() == before.len(),
                hit_views(hits@) == hits_of(data_items(*response)),
                forall|k: int| i <= k < movies@.len() ==> #[trigger] movies@[k] == before[k],
                forall|k: int|
                    0 <= k < i ==> {
                        &&& (#[trigger] movies@[k]).path == before[k].path
                        &&& movies@[k].os_info == before[k].os_info
                        &&& sub_views(movies@[k].subs@) == match before[k].os_info {
                            Some(h) => candidates_for(
                                hits_of(data_items(*response)),
                                h.hash@,
                                self.sublanguageid@,
                            ),
                            None => sub_views(before[k].subs@),
                        }
                    },
            decreases movies@.len() - i,
        {
            let found = match &movies[i].os_info {
                Some(h) => Some(User::candidates(&hits, &h.hash, &self.sublanguageid)),
                None => None,
            };
            if let Some(subs) = found {
                movies[i].subs = subs;
            }
            i += 1;
        }
        Ok(movies)
    }

    /// The index of the entry of `best` whose fingerprint is `key`.
    fn find_key(best: &Vec<(String, Subtitles)>, key: &String) -> (r: Option<usize>)
        ensures
            match r {
                Some(j) => j < best@.len() && best@[j as int].0@ == key@,
                None => forall|a: int| 0 <= a < best@.len() ==> (#[trigger] best@[a]).0@ != key@,
            },
    {
        let mut j: usize = 0;
        while j < best.len()
            invariant
                j <= best@.len(),
                forall|a: int| 0 <= a < j ==> (#[trigger] best@[a]).0@ != key@,
            decreases best@.len() - j,
        {
            if best[j].0 == *key {
                return Some(j);
            }
            j += 1;
        }
        None
    }

    /// The subtitle chosen for each fingerprint among `hits`: of the hits in
    /// the session's language, the highest rated, and of equally rated ones the
    /// last (see `best_of`). Each fingerprint with such a hit appears once.
    pub fn choose_best(&self, hits: &Vec<(String, Subtitles)>) -> (r: Vec<(String, Subtitles)>)
        ensures
            forall|a: int, b: int|
                0 <= a < b < r@.len() ==> (#[trigger] r@[a]).0@ != (#[trigger] r@[b]).0@,
            forall|a: int|
                0 <= a < r@.len() ==> best_of(
                    candidates_for(hit_views(hits@), (#[trigger] r@[a]).0@, self.sublanguageid@),
                ) == Some(r@[a].1@),
            forall|h: Seq<char>|
                (#[trigger] candidates_for(hit_views(hits@), h, self.sublanguageid@)).len() > 0
                    ==> exists|a: int| 0 <= a < r@.len() && (#[trigger] r@[a]).0@ == h,
    {
        let ghost hv = hit_views(hits@);
        let ghost lang = self.sublanguageid@;
        let mut best: Vec<(String, Subtitles)> = Vec::new();
        let mut i: usize = 0;
        while i < hits.len()
            invariant
                i <= hits@.len(),
                hv == hit_views(hits@),
                lang == self.sublanguageid@,
                forall|a: int, b: int|
                    0 <= a < b < best@.len() ==> (#[trigger] best@[a]).0@ != (#[trigger] best@[b]).0@,
                forall|a: int|
                    0 <= a < best@.len() ==> best_of(
                        candidates_for(hv.take(i as int), (#[trigger] best@[a]).0@, lang),
                    ) == Some(best@[a].1@),
                forall|h: Seq<char>|
                    (#[trigger] candidates_for(hv.take(i as int), h, lang)).len() > 0 ==> exists|
                        a: int,
                    | 0 <= a < best@.len() && (#[trigger] best@[a]).0@ == h,
            decreases hits@.len() - i,
        {
            proof {
                lemma_candidates_step(hv, i as int, lang);
            }
            let ghost xh = hv[i as int].0;
            let ghost xs = hv[i as int].1;
            let ghost old_best = best@;
            if hits[i].1.lang == self.sublanguageid {
                proof {
                    lemma_best_push(candidates_for(hv.take(i as int), xh, lang), xs);
                }
                match User::find_key(&best, &hits[i].0) {
                    Some(j) => {
                        if hits[i].1.rating >= best[j].1.rating {
                            best[j] = (hits[i].0.clone(), hits[i].1.clone());
                        }
                        assert forall|a: int, b: int|
                            0 <= a < b < best@.len() implies (#[trigger] best@[a]).0@ != (
                            #[trigger] best@[b]).0@ by {
                            assert(old_best[a].0@ != old_best[b].0@);
                        }
                        assert forall|a: int| 0 <= a < best@.len() implies best_of(
                            candidates_for(hv.take(i + 1), (#[trigger] best@[a]).0@, lang),
                        ) == Some(best@[a].1@) by {
                            if a != j {
                                assert(old_best[a].0@ != old_best[j as int].0@);
                            }
                        }
                        assert forall|h: Seq<char>|
                            (#[trigger] candidates_for(hv.take(i + 1), h, lang)).len()
                                > 0 implies exists|a: int|
                            0 <= a < best@.len() && (#[trigger] best@[a]).0@ == h by {
                            if h == xh {
                                assert(best@[j as int].0@ == h);
                            } else {
                                let a = choose|a: int|
                                    0 <= a < old_best.len() && (#[trigger] old_best[a]).0@ == h;
                                assert(best@[a].0@ == h);
                            }
                        }
                    },
                    None => {
                        proof {
                            if candidates_for(hv.take(i as int), xh, lang).len() > 0 {
                                let a = choose|a: int|
                                    0 <= a < old_best.len() && (#[trigger] old_best[a]).0@ == xh;
                                assert(false);
                            }
                            assert(candidates_for(hv.take(i as int), xh, lang) =~= Seq::<
                                SubView,
                            >::empty());
                        }
                        best.push((hits[i].0.clone(), hits[i].1.clone()));
                        assert forall|a: int, b: int|
                            0 <= a < b < best@.len() implies (#[trigger] best@[a]).0@ != (
                            #[trigger] best@[b]).0@ by {
                            if b < old_best.len() {
                                assert(old_best[a].0@ != old_best[b].0@);
                            } else {
                                assert(old_best[a].0@ != xh);
                            }
                        }
                        assert forall|a: int| 0 <= a < best@.len() implies best_of(
                            candidates_for(hv.take(i + 1), (#[trigger] best@[a]).0@, lang),
                        ) == Some(best@[a].1@) by {
                            if a < old_best.len() {
                                assert(old_best[a].0@ != xh);
                                assert(best@[a] == old_best[a]);
                            }
                        }
                        assert forall|h: Seq<char>|
                            (#[trigger] candidates_for(hv.take(i + 1), h, lang)).len()
                                > 0 implies exists|a: int|
                            0 <= a < best@.len() && (#[trigger] best@[a]).0@ == h by {
                            if h == xh {
                                assert(best@[old_best.len() as int].0@ == h);
                            } else {
                                let a = choose|a: int|
                                    0 <= a < old_best.len() && (#[trigger] old_best[a]).0@ == h;
                                assert(best@[a].0@ == h);
                            }
                        }
                    },
                }
            } else {
                assert forall|h: Seq<char>|
                    (#[trigger] candidates_for(hv.take(i + 1), h, lang)).len() > 0 implies exists|
                        a: int,
                    | 0 <= a < best@.len() && (#[trigger] best@[a]).0@ == h by {
                    assert(candidates_for(hv.take(i + 1), h, lang) == candidates_for(
                        hv.take(i as int),
                        h,
                        lang,
                    ));
                }
                assert forall|a: int| 0 <= a < best@.len() implies best_of(
                    candidates_for(hv.take(i + 1), (#[trigger] best@[a]).0@, lang),
                ) == Some(best@[a].1@) by {
                    assert(candidates_for(hv.take(i + 1), best@[a].0@, lang) == candidates_for(
                        hv.take(i as int),
                        best@[a].0@,
                        lang,
                    ));
                }
            }
            i += 1;
        }
        assert(hv.take(hits@.len() as int) =~= hv);
        best
    }

    /// The download call: the ids of all candidates of all videos.
    pub fn download_request(&self, movies: &Vec<Movie>) -> (r: Request)
        ensures
            r.method@ == "DownloadSubtitles"@,
            r.params@.len() == 2,
            r.params@[0].text() == Some(self.token@),
            r.params@[1] matches RpcValue::Array(ids) && ids@.len() == all_ids(movies@).len() && (
            forall|k: int|
                0 <= k < ids@.len() ==> (#[trigger] ids@[k]).text() == Some(all_ids(movies@)[k])),
    {
        let mut ids: Vec<RpcValue> = Vec::new();
        let mut i: usize = 0;
        while i < movies.len()
            invariant
                i <= movies@.len(),
                ids@.len() == all_ids(movies@.take(i as int)).len(),
                forall|k: int|
                    0 <= k < ids@.len() ==> (#[trigger] ids@[k]).text() == Some(
                        all_ids(movies@.take(i as int))[k],
                    ),
            decreases movies@.len() - i,
        {
            assert(movies@.take(i + 1).drop_last() =~= movies@.take(i as int));
            let subs = &movies[i].subs;
            let mut j: usize = 0;
            let ghost start = ids@.len();
            let ghost done = all_ids(movies@.take(i as int));
            while j < subs.len()
                invariant
                    j <= subs@.len(),
                    ids@.len() == start + j,
                    start == done.len(),
                    forall|k: int| 0 <= k < start ==> (#[trigger] ids@[k]).text() == Some(done[k]),
                    forall|k: int|
                        0 <= k < j ==> (#[trigger] ids@[start + k]).text() == Some(subs@[k].id@),
                decreases subs@.len() - j,
            {
                ids.push(RpcValue::Str(subs[j].id.clone()));
                j += 1;
            }
            assert forall|k: int| 0 <= k < ids@.len() implies (#[trigger] ids@[k]).text() == Some(
                all_ids(movies@.take(i + 1))[k],
            ) by {
                if k >= start {
                    assert(ids@[start + (k - start)] == ids@[k]);
                }
            }
            i += 1;
        }
        assert(movies@.take(movies@.len() as int) =~= movies@);
        Request {
            method: "DownloadSubtitles".to_owned(),
            params: vec![RpcValue::Str(self.token.clone()), RpcValue::Array(ids)],
        }
    }

    /// The ids and payloads of a download response, in order. Fails with
    /// `Malformed` where an item of its `data` array lacks either; a response
    /// without such an array has none.
    pub fn extract_payloads(response: &RpcValue) -> (r: Result<Vec<(String, String)>, Error>)
        ensures
            match r {
                Ok(pairs) => {
                    &&& payloads_well_formed(data_items(*response))
                    &&& pair_views(pairs@) == payloads_of(data_items(*response))
                },
                Err(e) => e is Malformed && !payloads_well_formed(data_items(*response)),
            },
    {
        let mut ret: Vec<(String, String)> = Vec::new();
        let items = match response.get("data") {
            Some(data) => match data.as_array() {
                Some(items) => items,
                None => {
                    assert(pair_views(ret@) =~= payloads_of(data_items(*response)));
                    return Ok(ret);
                },
            },
            None => {
                assert(pair_views(ret@) =~= payloads_of(data_items(*response)));
                return Ok(ret);
            },
        };
        let mut i: usize = 0;
        while i < items.len()
            invariant
                i <= items@.len(),
                items@ == data_items(*response),
                ret@.len() == i,
                forall|k: int| 0 <= k < i ==> (#[trigger] payload_of(items@[k])) is Some,
                pair_views(ret@) =~= payloads_of(items@.take(i as int)),
            decreases items@.len() - i,
        {
            let id = items[i].get_str("idsubtitlefile");
            let data = items[i].get_str("data");
            if id.is_none() || data.is_none() {
                assert(payload_of(items@[i as int]) is None);
                return Err(Error::Malformed);
            }
            match (id, data) {
                (Some(id), Some(data)) => {
                    let ghost prev = ret@;
                    ret.push((id.to_owned(), data.to_owned()));
                    assert forall|k: int| 0 <= k < i + 1 implies #[trigger] pair_views(ret@)[k]
                        == payloads_of(items@.take(i + 1))[k] by {
                        if k < i {
                            assert(ret@[k] == prev[k]);
                            assert(pair_views(prev)[k] == payloads_of(items@.take(i as int))[k]);
                        }
                    }
                    assert(pair_views(ret@) =~= payloads_of(items@.take(i + 1)));
                },
                _ => {
                    return Err(Error::Malformed);
                },
            }
            i += 1;
        }
        assert(items@.take(items@.len() as int) =~= items@);
        Ok(ret)
    }

    /// The payload that `pairs` gives last for `id`.
    fn payload_lookup(pairs: &Vec<(String, String)>, id: &String) -> (r: Option<String>)
        ensures
            match r {
                Some(p) => payload_for(pair_views(pairs@), id@) == Some(p@),
                None => payload_for(pair_views(pairs@), id@) is None,
            },
    {
        let ghost pv = pair_views(pairs@);
        let mut found: Option<String> = None;
        let mut k: usize = 0;
        while k < pairs.len()
            invariant
                k <= pairs@.len(),
                pv == pair_views(pairs@),
                match found {
                    Some(p) => payload_for(pv.take(k as int), id@) == Some(p@),
                    None => payload_for(pv.take(k as int), id@) is None,
                },
            decreases pairs@.len() - k,
        {
            assert(pv.take(k + 1).drop_last() =~= pv.take(k as int));
            if pairs[k].0 == *id {
                found = Some(pairs[k].1.clone());
            }
            k += 1;
        }
        assert(pv.take(pairs@.len() as int) =~= pv);
        found
    }

    /// Gives each of `subs` the payload that `pairs` gives for its id, or none.
    fn attach_payloads(subs: &mut Vec<Subtitles>, pairs: &Vec<(String, String)>)
        ensures
            sub_views(final(subs)@) == attach(sub_views(old(subs)@), pair_views(pairs@)),
    {
        let ghost before = sub_views(subs@);
        let mut j: usize = 0;
        while j < subs.len()
            invariant
                j <= subs@.len(),
                before.len() == subs@.len(),
                forall|k: int| j <= k < subs@.len() ==> #[trigger] subs@[k]@ == before[k],
                forall|k: int|
                    0 <= k < j ==> #[trigger] subs@[k]@ == attach(before, pair_views(pairs@))[k],
            decreases subs@.len() - j,
        {
            let ghost prev = subs@;
            assert(prev[j as int]@ == before[j as int]);
            let payload = User::payload_lookup(pairs, &subs[j].id);
            subs[j].b64gz = payload;
            assert forall|k: int| 0 <= k < subs@.len() && k != j implies #[trigger] subs@[k] == prev[k] by {}
            j += 1;
        }
        assert(sub_views(subs@) =~= attach(before, pair_views(pairs@)));
    }

    /// Gives each candidate of each video the payload that a download
    /// response carries for its id; a candidate whose id it does not name is
    /// left without one.
    pub fn download(&self, movies: Vec<Movie>, response: &RpcValue) -> (r: Result<
        Vec<Movie>,
        Error,
    >)
        ensures
            match r {
                Ok(ms) => {
                    &&& status_ok(*response)
                    &&& payloads_well_formed(data_items(*response))
                    &&& ms@.len() == movies@.len()
                    &&& forall|i: int|
                        0 <= i < ms@.len() ==> {
                            &&& (#[trigger] ms@[i]).path == movies@[i].path
                            &&& ms@[i].os_info == movies@[i].os_info
                            &&& sub_views(ms@[i].subs@) == attach(
                                sub_views(movies@[i].subs@),
                                payloads_of(data_items(*response)),
                            )
                        }
                },
                Err(e) => if status_ok(*response) {
                    e is Malformed && !payloads_well_formed(data_items(*response))
                } else {
                    status_failure(*response, e)
                },
            },
    {
        User::response_status(response)?;
        let pairs = User::extract_payloads(response)?;
        let ghost before = movies@;
        let mut movies = movies;
        let mut i: usize = 0;
        while i < movies.len()
            invariant
                i <= movies@.len(),
                movies@.len() == before.len(),
                pair_views(pairs@) == payloads_of(data_items(*response)),
                forall|k: int| i <= k < movies@.len() ==> #[trigger] movies@[k] == before[k],
                forall|k: int|
                    0 <= k < i ==> {
                        &&& (#[trigger] movies@[k]).path == before[k].path
                        &&& movies@[k].os_info == before[k].os_info
                        &&& sub_views(movies@[k].subs@) == attach(
                            sub_views(before[k].subs@),
                            payloads_of(data_items(*response)),
                        )
                    },
            decreases movies@.len() - i,
        {
            User::attach_payloads(&mut movies[i].subs, &pairs);
            i += 1;
        }
        Ok(movies)
    }
}

} // verus!
