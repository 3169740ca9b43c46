//! Requests to the APIs, and what is made of their responses.

use vstd::prelude::*;

use crate::lookup::MAX_EXACT_RESULTS_PER_QUERY;
use crate::patterns::{
    collapse_white_space, lemma_squeezed_is_single_spaced, squeezed, white_class,
};
use crate::text::{
    chars_of, decimal, decimal_text, is_blank, is_white, joined2, law_trimmed_text_is_the_middle,
    law_trimming_takes_white_space, optional_str_view, parse_u64, parsed_u64, range_text,
    trim_text, trimmed,
};

verus! {

/// The version of this program.
pub const VERSION: &'static str = "0.1.0";

/// How often a request is made before it counts as failed.
pub const MAX_RETRY_ATTEMPTS: usize = 3;

/// How many seconds pass before a request is made again, where the service does
/// not say.
pub const DEFAULT_RETRY_DELAY_SECS: u64 = 3;

/// How much of the body of a response an error shows.
pub const MAX_RESPONSE_BODY_IN_ERROR: usize = 160;

/// Where titles are looked up in AniList.
pub const ANILIST_ENDPOINT: &'static str = "https://graphql.anilist.co";

// ---------------------------------------------------------------------------
// Requests
// ---------------------------------------------------------------------------

/// How this program names itself to services.
pub fn build_user_agent() -> (agent: String)
    ensures
        agent@ == "ThemeCommentWriter/"@ + VERSION@,
{
    joined2("ThemeCommentWriter/", VERSION)
}

/// A request to AnimeThemes.
#[derive(Debug)]
pub enum LookupRequest {
    /// For songs with a title.
    SongsByTitle(String),
    /// For songs that a search finds.
    SongSearch(String),
    /// For the song with an id.
    SongDetail(u64),
}

/// What a `LookupRequest` holds.
pub enum LookupRequestView {
    SongsByTitle(Seq<char>),
    SongSearch(Seq<char>),
    SongDetail(u64),
}

impl View for LookupRequest {
    type V = LookupRequestView;

    open spec fn view(&self) -> LookupRequestView {
        match self {
            LookupRequest::SongsByTitle(title) => LookupRequestView::SongsByTitle(title@),
            LookupRequest::SongSearch(query) => LookupRequestView::SongSearch(query@),
            LookupRequest::SongDetail(id) => LookupRequestView::SongDetail(*id),
        }
    }
}

/// Where a request goes.
pub open spec fn request_url(request: LookupRequestView) -> Seq<char> {
    match request {
        LookupRequestView::SongsByTitle(_) => "https://api.animethemes.moe/song"@,
        LookupRequestView::SongSearch(_) => "https://api.animethemes.moe/search"@,
        LookupRequestView::SongDetail(id) => "https://api.animethemes.moe/song/"@ + decimal(
            id as nat,
        ),
    }
}

/// The parameters of a request.
pub open spec fn request_params(request: LookupRequestView) -> Seq<(Seq<char>, Seq<char>)> {
    match request {
        LookupRequestView::SongsByTitle(title) => seq![
            ("filter[title]"@, title),
            ("include"@, "animethemes.anime,artists"@),
            ("page[size]"@, decimal(MAX_EXACT_RESULTS_PER_QUERY as nat)),
        ],
        LookupRequestView::SongSearch(query) => seq![("q"@, query)],
        LookupRequestView::SongDetail(_) => seq![("include"@, "animethemes.anime,artists"@)],
    }
}

/// What is said of a request that failed.
pub open spec fn request_failure(request: LookupRequestView) -> Seq<char> {
    match request {
        LookupRequestView::SongsByTitle(title) => "failed to search AnimeThemes songs for \""@
            + title + "\""@,
        LookupRequestView::SongSearch(query) => "failed to search AnimeThemes for \""@ + query
            + "\""@,
        LookupRequestView::SongDetail(id) => "failed to fetch AnimeThemes song detail for id "@
            + decimal(id as nat),
    }
}

/// The texts of pairs.
pub open spec fn pair_views(pairs: Seq<(String, String)>) -> Seq<(Seq<char>, Seq<char>)> {
    Seq::new(pairs.len(), |i: int| (pairs[i].0@, pairs[i].1@))
}

impl LookupRequest {
    /// Where a request goes.
    pub fn url(&self) -> (url: String)
        ensures
            url@ == request_url(self@),
    {
        match self {
            LookupRequest::SongsByTitle(_) => "https://api.animethemes.moe/song".to_string(),
            LookupRequest::SongSearch(_) => "https://api.animethemes.moe/search".to_string(),
            LookupRequest::SongDetail(id) => {
                let number = decimal_text(*id);
                joined2("https://api.animethemes.moe/song/", number.as_str())
            },
        }
    }

    /// The parameters of a request.
    pub fn params(&self) -> (params: Vec<(String, String)>)
        ensures
            pair_views(params@) == request_params(self@),
    {
        let mut params: Vec<(String, String)> = Vec::new();
        match self {
            LookupRequest::SongsByTitle(title) => {
                params.push(("filter[title]".to_string(), title.clone()));
                params.push(("include".to_string(), "animethemes.anime,artists".to_string()));
                params.push(
                    ("page[size]".to_string(), decimal_text(MAX_EXACT_RESULTS_PER_QUERY as u64)),
                );
            },
            LookupRequest::SongSearch(query) => {
                params.push(("q".to_string(), query.clone()));
            },
            LookupRequest::SongDetail(_) => {
                params.push(("include".to_string(), "animethemes.anime,artists".to_string()));
            },
        }
        assert(pair_views(params@) =~= request_params(self@));
        params
    }

    /// What is said of a request that failed.
    pub fn failure(&self) -> (message: String)
        ensures
            message@ == request_failure(self@),
    {
        match self {
            LookupRequest::SongsByTitle(title) => {
                let opened = joined2("failed to search AnimeThemes songs for \"", title.as_str());
                joined2(opened.as_str(), "\"")
            },
            LookupRequest::SongSearch(query) => {
                let opened = joined2("failed to search AnimeThemes for \"", query.as_str());
                joined2(opened.as_str(), "\"")
            },
            LookupRequest::SongDetail(id) => {
                let number = decimal_text(*id);
                joined2("failed to fetch AnimeThemes song detail for id ", number.as_str())
            },
        }
    }
}

// ---------------------------------------------------------------------------
// Responses
// ---------------------------------------------------------------------------

/// A service that is asked.
#[derive(Debug, Clone, Copy, PartialEq, Eq, Structural)]
pub enum ApiService {
    AnimeThemes,
    AniList,
}

/// What follows a response.
#[derive(Debug, Clone, Copy, PartialEq, Eq, Structural)]
pub enum ResponseStep {
    /// The body is read.
    Accept,
    /// The request is made again after so many seconds.
    RetryAfter(u64),
    /// The request has failed.
    Fail,
}

/// Whether a status says that a request succeeded.
pub open spec fn is_success(status: u16) -> bool {
    200 <= status < 300
}

/// Whether a status says that a service is busy.
pub open spec fn is_busy(status: u16) -> bool {
    status == 429 || status == 503
}

/// The seconds that the `Retry-After` header of a response asks for, where
/// there is one that is a number.
pub open spec fn retry_delay(header: Option<Seq<char>>) -> Option<u64> {
    match header {
        Some(text) => parsed_u64(text),
        None => None,
    }
}

/// What follows a response to attempt number `attempt`, counted from 0.
pub open spec fn response_step(
    attempt: nat,
    status: u16,
    retry_after: Option<Seq<char>>,
) -> ResponseStep {
    if is_success(status) {
        ResponseStep::Accept
    } else if is_busy(status) && attempt + 1 < MAX_RETRY_ATTEMPTS {
        match retry_delay(retry_after) {
            Some(seconds) => ResponseStep::RetryAfter(seconds),
            None => ResponseStep::RetryAfter(DEFAULT_RETRY_DELAY_SECS),
        }
    } else {
        ResponseStep::Fail
    }
}

/// The seconds that the `Retry-After` header of a response asks for.
pub fn retry_delay_seconds(header: Option<&str>) -> (seconds: Option<u64>)
    ensures
        seconds == retry_delay(optional_str_view(header)),
{
    match header {
        Some(text) => parse_u64(text),
        None => None,
    }
}

/// What follows a response to attempt number `attempt`, counted from 0.
pub fn next_step(attempt: usize, status: u16, retry_after: Option<&str>) -> (step: ResponseStep)
    ensures
        step == response_step(attempt as nat, status, optional_str_view(retry_after)),
{
    if 200 <= status && status < 300 {
        ResponseStep::Accept
    } else if (status == 429 || status == 503) && attempt < MAX_RETRY_ATTEMPTS - 1 {
        match retry_delay_seconds(retry_after) {
            Some(seconds) => ResponseStep::RetryAfter(seconds),
            None => ResponseStep::RetryAfter(DEFAULT_RETRY_DELAY_SECS),
        }
    } else {
        ResponseStep::Fail
    }
}

/// A request is made at most `MAX_RETRY_ATTEMPTS` times: the last attempt is
/// never followed by another.
pub proof fn law_attempts_are_bounded(attempt: nat, status: u16, retry_after: Option<Seq<char>>)
    requires
        attempt + 1 >= MAX_RETRY_ATTEMPTS,
    ensures
        !(response_step(attempt, status, retry_after) is RetryAfter),
{
}

/// Only a busy service is asked again.
pub proof fn law_only_busy_services_are_asked_again(
    attempt: nat,
    status: u16,
    retry_after: Option<Seq<char>>,
)
    requires
        response_step(attempt, status, retry_after) is RetryAfter,
    ensures
        is_busy(status),
        attempt + 1 < MAX_RETRY_ATTEMPTS,
{
}

/// The first characters of a text, as many as an error shows.
pub open spec fn shown_start(text: Seq<char>) -> Seq<char> {
    if text.len() > MAX_RESPONSE_BODY_IN_ERROR {
        text.take(MAX_RESPONSE_BODY_IN_ERROR as int)
    } else {
        text
    }
}

/// What an error shows of the body of a response: its start, with runs of white
/// space as one space.
pub open spec fn compacted_body(body: Seq<char>) -> Seq<char> {
    let shown = shown_start(squeezed(trimmed(body), white_class()));
    if shown.len() == 0 {
        "レスポンス本文は空でした。"@
    } else {
        "詳細: "@ + shown
    }
}

/// What an error shows of the body of a response.
pub fn compact_body_text(body: &str) -> (detail: String)
    ensures
        detail@ == compacted_body(body@),
{
    let trimmed_body = trim_text(body);
    let normalized = collapse_white_space(trimmed_body.as_str());
    let chars = chars_of(normalized.as_str());
    let mut count: usize = chars.len();
    if count > MAX_RESPONSE_BODY_IN_ERROR {
        count = MAX_RESPONSE_BODY_IN_ERROR;
    }
    let shown = range_text(&chars, 0, count);
    assert(shown@ =~= shown_start(normalized@));
    if shown.as_str().is_empty() {
        "レスポンス本文は空でした。".to_string()
    } else {
        joined2("詳細: ", shown.as_str())
    }
}

/// What is said of a response that is a failure.
pub open spec fn response_failure(service: ApiService, status: u16, body: Seq<char>) -> Seq<char> {
    let number = decimal(status as nat);
    let detail = compacted_body(body);
    match service {
        ApiService::AnimeThemes => if is_busy(status) {
            "AnimeThemes API のレート制限または一時的な混雑で失敗しました (HTTP "@ + number
                + ")。少し待ってから再試行してください。"@ + detail
        } else {
            "AnimeThemes API returned HTTP "@ + number + ". "@ + detail
        },
        ApiService::AniList => if is_busy(status) {
            "AniList API のレート制限または一時的な混雑で失敗しました (HTTP "@ + number + ")。"@
                + detail
        } else {
            "AniList API returned HTTP "@ + number + ". "@ + detail
        },
    }
}

fn numbered(start: &str, number: &str, middle: &str, detail: &str) -> (text: String)
    ensures
        text@ == start@ + number@ + middle@ + detail@,
{
    let a = joined2(start, number);
    let b = joined2(a.as_str(), middle);
    joined2(b.as_str(), detail)
}

/// What is said of a response that is a failure.
pub fn failure_message(service: ApiService, status: u16, body: &str) -> (message: String)
    ensures
        message@ == response_failure(service, status, body@),
{
    let number = decimal_text(status as u64);
    let detail = compact_body_text(body);
    let busy = status == 429 || status == 503;
    match service {
        ApiService::AnimeThemes => if busy {
            numbered(
                "AnimeThemes API のレート制限または一時的な混雑で失敗しました (HTTP ",
                number.as_str(),
                ")。少し待ってから再試行してください。",
                detail.as_str(),
            )
        } else {
            numbered(
                "AnimeThemes API returned HTTP ",
                number.as_str(),
                ". ",
                detail.as_str(),
            )
        },
        ApiService::AniList => if busy {
            numbered(
                "AniList API のレート制限または一時的な混雑で失敗しました (HTTP ",
                number.as_str(),
                ")。",
                detail.as_str(),
            )
        } else {
            numbered("AniList API returned HTTP ", number.as_str(), ". ", detail.as_str())
        },
    }
}

// ---------------------------------------------------------------------------
// Laws of requests and responses
// ---------------------------------------------------------------------------

/// Songs are asked for by their title, eight at most and with their anime and artists;
/// searches ask for a query; and a song is asked for by its id, with its anime and
/// artists.
pub proof fn law_what_requests_ask_for(title: Seq<char>, query: Seq<char>, id: u64)
    ensures
        request_url(LookupRequestView::SongsByTitle(title)) == "https://api.animethemes.moe/song"@,
        request_params(LookupRequestView::SongsByTitle(title)) == seq![
            ("filter[title]"@, title),
            ("include"@, "animethemes.anime,artists"@),
            ("page[size]"@, seq!['8']),
        ],
        request_url(LookupRequestView::SongSearch(query)) == "https://api.animethemes.moe/search"@,
        request_params(LookupRequestView::SongSearch(query)) == seq![("q"@, query)],
        request_url(LookupRequestView::SongDetail(id)) == "https://api.animethemes.moe/song/"@
            + decimal(id as nat),
        request_params(LookupRequestView::SongDetail(id)) == seq![
            ("include"@, "animethemes.anime,artists"@),
        ],
{
    crate::text::law_decimal_digits(0, 8);
    assert(decimal(8) =~= seq!['8']);
}

/// A response with a status from 200 to 299 is accepted; one with 429 or 503 leads to
/// another attempt after the seconds that it asks for, or else three, but for the third
/// attempt; and every other one is a failure.
pub proof fn law_responses(attempt: nat, status: u16, retry_after: Option<Seq<char>>)
    ensures
        200 <= status <= 299 <==> response_step(attempt, status, retry_after) is Accept,
        (status == 429 || status == 503) && attempt < 2 ==> response_step(
            attempt,
            status,
            retry_after,
        ) == ResponseStep::RetryAfter(
            match retry_after {
                Some(text) => match parsed_u64(text) {
                    Some(seconds) => seconds,
                    None => 3,
                },
                None => 3,
            },
        ),
        !(200 <= status <= 299) && !((status == 429 || status == 503) && attempt < 2)
            ==> response_step(attempt, status, retry_after) is Fail,
{
}

/// A blank body is said to be empty; of another one its start is shown, with runs of
/// white space as one space: all of it up to 160 characters.
pub proof fn law_shown_bodies(body: Seq<char>)
    ensures
        is_blank(body) ==> compacted_body(body) == "レスポンス本文は空でした。"@,
        !is_blank(body) ==> {
            let text = squeezed(trimmed(body), white_class());
            &&& text.len() <= 160 ==> compacted_body(body) == "詳細: "@ + text
            &&& text.len() > 160 ==> compacted_body(body) == "詳細: "@ + text.take(160)
        },
{
    let text = squeezed(trimmed(body), white_class());
    let around = law_trimmed_text_is_the_middle(body);
    if is_blank(body) {
        let none = Seq::<char>::empty();
        assert(body =~= body + none + none);
        law_trimming_takes_white_space(body, none, none);
        assert(trimmed(body) =~= none);
    } else {
        if trimmed(body).len() == 0 {
            assert(body =~= around.0 + around.1);
            assert forall|i: int| 0 <= i < body.len() implies is_white(#[trigger] body[i]) by {
                if i < around.0.len() {
                    assert(body[i] == around.0[i]);
                } else {
                    assert(body[i] == around.1[i - around.0.len()]);
                }
            }
        }
        assert(is_white(' '));
        lemma_squeezed_is_single_spaced(trimmed(body), white_class());
    }
}

/// A failure names the service, the status, and what is shown of the body.
pub proof fn law_failures(service: ApiService, status: u16, body: Seq<char>) -> (start: (
    Seq<char>,
    Seq<char>,
))
    ensures
        response_failure(service, status, body) == start.0 + decimal(status as nat) + start.1
            + compacted_body(body),
        service is AnimeThemes ==> "AnimeThemes API "@.is_prefix_of(start.0),
        service is AniList ==> "AniList API "@.is_prefix_of(start.0),
{
    reveal_strlit("AnimeThemes API ");
    reveal_strlit("AniList API ");
    reveal_strlit("AnimeThemes API のレート制限または一時的な混雑で失敗しました (HTTP ");
    reveal_strlit("AnimeThemes API returned HTTP ");
    reveal_strlit("AniList API のレート制限または一時的な混雑で失敗しました (HTTP ");
    reveal_strlit("AniList API returned HTTP ");
    let start = match service {
        ApiService::AnimeThemes => if is_busy(status) {
            (
                "AnimeThemes API のレート制限または一時的な混雑で失敗しました (HTTP "@,
                ")。少し待ってから再試行してください。"@,
            )
        } else {
            ("AnimeThemes API returned HTTP "@, ". "@)
        },
        ApiService::AniList => if is_busy(status) {
            ("AniList API のレート制限または一時的な混雑で失敗しました (HTTP "@, ")。"@)
        } else {
            ("AniList API returned HTTP "@, ". "@)
        },
    };
    if service is AnimeThemes {
        assert(start.0.subrange(0, 16) =~= "AnimeThemes API "@);
    } else {
        assert(start.0.subrange(0, 12) =~= "AniList API "@);
    }
    start
}

/// What is said of a response that failed: that the service is busy, where it said so,
/// and else only what it answered.
pub proof fn law_what_is_said_of_failures(status: u16, body: Seq<char>)
    ensures
        status == 429 || status == 503 ==> response_failure(ApiService::AnimeThemes, status, body)
            == "AnimeThemes API のレート制限または一時的な混雑で失敗しました (HTTP "@ + decimal(
            status as nat,
        ) + ")。少し待ってから再試行してください。"@ + compacted_body(body),
        status == 429 || status == 503 ==> response_failure(ApiService::AniList, status, body)
            == "AniList API のレート制限または一時的な混雑で失敗しました (HTTP "@ + decimal(
            status as nat,
        ) + ")。"@ + compacted_body(body),
        status != 429 && status != 503 ==> response_failure(ApiService::AnimeThemes, status, body)
            == "AnimeThemes API returned HTTP "@ + decimal(status as nat) + ". "@ + compacted_body(
            body,
        ),
        status != 429 && status != 503 ==> response_failure(ApiService::AniList, status, body)
            == "AniList API returned HTTP "@ + decimal(status as nat) + ". "@ + compacted_body(
            body,
        ),
{
}

/// What is said of a request that failed names what was asked for.
pub proof fn law_what_is_said_of_requests(text: Seq<char>, id: u64)
    ensures
        request_failure(LookupRequestView::SongsByTitle(text))
            == "failed to search AnimeThemes songs for \""@ + text + seq!['"'],
        request_failure(LookupRequestView::SongSearch(text))
            == "failed to search AnimeThemes for \""@ + text + seq!['"'],
        request_failure(LookupRequestView::SongDetail(id))
            == "failed to fetch AnimeThemes song detail for id "@ + decimal(id as nat),
{
    reveal_strlit("\"");
    assert("\""@ =~= seq!['"']);
}

/// A request holds what is asked for.
pub proof fn law_requests_hold_what_is_asked_for(text: String, id: u64)
    ensures
        LookupRequest::SongsByTitle(text)@ == LookupRequestView::SongsByTitle(text@),
        LookupRequest::SongSearch(text)@ == LookupRequestView::SongSearch(text@),
        LookupRequest::SongDetail(id)@ == LookupRequestView::SongDetail(id),
{
}

/// Where AniList is asked, and under which name requests are made.
pub proof fn law_names_of_services()
    ensures
        ANILIST_ENDPOINT@ == "https://graphql.anilist.co"@,
        VERSION@ == "0.1.0"@,
{
}

} // verus!
