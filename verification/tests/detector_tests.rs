use m3u_parser::{detect_episode, detect_year};

#[test]
fn test_s01e01_format() {
    let ep = detect_episode("Show Name S01E01").unwrap();
    assert_eq!(ep.series_name, "Show Name");
    assert_eq!(ep.season, 1);
    assert_eq!(ep.episode, 1);
}

#[test]
fn test_1x01_format() {
    let ep = detect_episode("Another Show 1x05").unwrap();
    assert_eq!(ep.series_name, "Another Show");
    assert_eq!(ep.season, 1);
    assert_eq!(ep.episode, 5);
}

#[test]
fn test_season_episode_format() {
    let ep = detect_episode("Cool Series Season 2 Episode 10").unwrap();
    assert_eq!(ep.series_name, "Cool Series");
    assert_eq!(ep.season, 2);
    assert_eq!(ep.episode, 10);
}

#[test]
fn test_no_match() {
    assert!(detect_episode("Just a Movie").is_none());
    assert!(detect_episode("Live Channel").is_none());
}

#[test]
fn test_case_insensitive() {
    assert!(detect_episode("show s01e01").is_some());
    assert!(detect_episode("show S01E01").is_some());
    assert!(detect_episode("show S01e01").is_some());
}

#[test]
fn test_manual_detection_single_digit() {
    let ep = detect_episode("Show S1E5").unwrap();
    assert_eq!(ep.series_name, "Show");
    assert_eq!(ep.season, 1);
    assert_eq!(ep.episode, 5);
}

#[test]
fn test_manual_detection_double_digit() {
    let ep = detect_episode("Series Name S12E34").unwrap();
    assert_eq!(ep.series_name, "Series Name");
    assert_eq!(ep.season, 12);
    assert_eq!(ep.episode, 34);
}

#[test]
fn test_episode_only_pattern() {
    let ep = detect_episode("Show Episode 5").unwrap();
    assert_eq!(ep.season, 1);
    assert_eq!(ep.episode, 5);
}

#[test]
fn test_ep_abbreviation() {
    let ep = detect_episode("Series Ep 3").unwrap();
    assert_eq!(ep.season, 1);
    assert_eq!(ep.episode, 3);
}

#[test]
fn test_year_in_parentheses() {
    let info = detect_year("Müzede Bir Gece: Kahmunrah'ın Yükselişi (2022)").unwrap();
    assert_eq!(info.year, 2022);
    assert_eq!(info.cleaned_title, "Müzede Bir Gece: Kahmunrah'ın Yükselişi");
}

#[test]
fn test_year_in_brackets() {
    let info = detect_year("Old Movie [1999]").unwrap();
    assert_eq!(info.year, 1999);
    assert_eq!(info.cleaned_title, "Old Movie");
}

#[test]
fn test_year_standalone() {
    let info = detect_year("Movie 2023 Title").unwrap();
    assert_eq!(info.year, 2023);
    assert_eq!(info.cleaned_title, "Movie Title");
}

#[test]
fn test_year_at_end() {
    let info = detect_year("Some Film 2020").unwrap();
    assert_eq!(info.year, 2020);
    assert_eq!(info.cleaned_title, "Some Film");
}

#[test]
fn test_no_year() {
    assert!(detect_year("No Year Movie").is_none());
    assert!(detect_year("Episode S01E01").is_none());
}

#[test]
fn test_year_range_1900s() {
    let info = detect_year("Classic (1950)").unwrap();
    assert_eq!(info.year, 1950);
    assert_eq!(info.cleaned_title, "Classic");
}

#[test]
fn test_year_range_2000s() {
    let info = detect_year("Recent [2099]").unwrap();
    assert_eq!(info.year, 2099);
    assert_eq!(info.cleaned_title, "Recent");
}

#[test]
fn test_invalid_year() {
    assert!(detect_year("Future 2100").is_none());
    assert!(detect_year("Ancient 1899").is_none());
}

#[test]
fn test_multiple_years_takes_first() {
    let info = detect_year("Movie (2020) Remake of (1980)").unwrap();
    assert_eq!(info.year, 2020);
    assert!(info.cleaned_title.contains("1980"));
}

#[test]
fn test_unicode_title() {
    let info = detect_year("Türkçe Film (2021)").unwrap();
    assert_eq!(info.year, 2021);
    assert_eq!(info.cleaned_title, "Türkçe Film");
}

#[test]
fn test_year_redetect_on_cleaned_is_none() {
    let info = detect_year("Great Escape (1963)").unwrap();
    assert_eq!(info.cleaned_title, "Great Escape");
    assert!(detect_year(&info.cleaned_title).is_none());
}

#[test]
fn test_year_collapses_whitespace() {
    let info = detect_year("A   Movie   (2001)   Extra").unwrap();
    assert_eq!(info.year, 2001);
    assert_eq!(info.cleaned_title, "A Movie Extra");
}

#[test]
fn test_episode_strategy_agreement() {
    let manual = m3u_parser::detect_episode_manual("Show Name S03E07").unwrap();
    let fallback = m3u_parser::detect_episode_regex("Show Name S03E07").unwrap();
    assert_eq!(manual.series_name, fallback.series_name);
    assert_eq!(manual.season, fallback.season);
    assert_eq!(manual.episode, fallback.episode);
}

#[test]
fn test_episode_spaced_pattern_fallback() {
    // The forward scan fails on a spaced marker; pattern matching takes over.
    let ep = detect_episode("Some Show S 01 E 02").unwrap();
    assert_eq!(ep.season, 1);
    assert_eq!(ep.episode, 2);
}
