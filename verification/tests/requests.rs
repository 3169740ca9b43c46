use content_renamer::requests::{
    build_user_agent, compact_body_text, failure_message, next_step, retry_delay_seconds,
    ApiService, LookupRequest, ResponseStep,
};

#[test]
fn builds_descriptive_user_agent() {
    let user_agent = build_user_agent();
    assert!(user_agent.starts_with("ThemeCommentWriter/"));
    assert_eq!(user_agent, "ThemeCommentWriter/0.1.0");
}

#[test]
fn compacts_response_body() {
    let detail = compact_body_text("  too   many\nspaces   here  ");
    assert_eq!(detail, "詳細: too many spaces here");
}

#[test]
fn compacts_empty_and_long_bodies() {
    assert_eq!(compact_body_text(" \n "), "レスポンス本文は空でした。");
    let long = "あ".repeat(200);
    assert_eq!(
        compact_body_text(&long),
        format!("詳細: {}", "あ".repeat(160))
    );
}

#[test]
fn reads_retry_delays() {
    assert_eq!(retry_delay_seconds(Some("12")), Some(12));
    assert_eq!(retry_delay_seconds(Some("+7")), Some(7));
    assert_eq!(retry_delay_seconds(Some("1.5")), None);
    assert_eq!(retry_delay_seconds(Some("")), None);
    assert_eq!(retry_delay_seconds(Some("18446744073709551615")), Some(u64::MAX));
    assert_eq!(retry_delay_seconds(Some("18446744073709551616")), None);
    assert_eq!(retry_delay_seconds(None), None);
}

#[test]
fn accepts_successes() {
    assert_eq!(next_step(0, 200, None), ResponseStep::Accept);
    assert_eq!(next_step(2, 299, Some("9")), ResponseStep::Accept);
    assert_eq!(next_step(0, 300, None), ResponseStep::Fail);
    assert_eq!(next_step(0, 199, None), ResponseStep::Fail);
    assert_eq!(next_step(0, 404, None), ResponseStep::Fail);
}

#[test]
fn asks_busy_services_again() {
    assert_eq!(next_step(0, 429, Some("5")), ResponseStep::RetryAfter(5));
    assert_eq!(next_step(1, 503, None), ResponseStep::RetryAfter(3));
    assert_eq!(
        next_step(1, 503, Some("soon")),
        ResponseStep::RetryAfter(3)
    );
    assert_eq!(next_step(2, 429, Some("5")), ResponseStep::Fail);
    assert_eq!(next_step(usize::MAX, 429, None), ResponseStep::Fail);
}

#[test]
fn describes_failures() {
    assert_eq!(
        failure_message(ApiService::AnimeThemes, 429, "slow down"),
        "AnimeThemes API のレート制限または一時的な混雑で失敗しました (HTTP 429)。少し待ってから再試行してください。詳細: slow down"
    );
    assert_eq!(
        failure_message(ApiService::AnimeThemes, 500, ""),
        "AnimeThemes API returned HTTP 500. レスポンス本文は空でした。"
    );
    assert_eq!(
        failure_message(ApiService::AniList, 503, "x"),
        "AniList API のレート制限または一時的な混雑で失敗しました (HTTP 503)。詳細: x"
    );
    assert_eq!(
        failure_message(ApiService::AniList, 404, "x"),
        "AniList API returned HTTP 404. 詳細: x"
    );
}

#[test]
fn builds_requests() {
    let request = LookupRequest::SongsByTitle("Blue".to_string());
    assert_eq!(request.url(), "https://api.animethemes.moe/song");
    assert_eq!(
        request.params(),
        vec![
            ("filter[title]".to_string(), "Blue".to_string()),
            (
                "include".to_string(),
                "animethemes.anime,artists".to_string()
            ),
            ("page[size]".to_string(), "8".to_string()),
        ]
    );
    assert_eq!(
        request.failure(),
        "failed to search AnimeThemes songs for \"Blue\""
    );

    let request = LookupRequest::SongSearch("Blue X".to_string());
    assert_eq!(request.url(), "https://api.animethemes.moe/search");
    assert_eq!(
        request.params(),
        vec![("q".to_string(), "Blue X".to_string())]
    );
    assert_eq!(
        request.failure(),
        "failed to search AnimeThemes for \"Blue X\""
    );

    let request = LookupRequest::SongDetail(120);
    assert_eq!(request.url(), "https://api.animethemes.moe/song/120");
    assert_eq!(
        request.params(),
        vec![(
            "include".to_string(),
            "animethemes.anime,artists".to_string()
        )]
    );
    assert_eq!(
        request.failure(),
        "failed to fetch AnimeThemes song detail for id 120"
    );
}
