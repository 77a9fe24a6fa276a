use m3u_parser::{parse_m3u, Category, M3UParser, ParseError};

#[test]
fn test_header_parsing() {
    let parser = M3UParser::new("#EXTM3U\n");
    assert!(parser.parse().is_ok());
}

#[test]
fn test_invalid_header() {
    let parser = M3UParser::new("Invalid\n");
    assert!(parser.parse().is_err());
}

#[test]
fn test_entry_parsing() {
    let content = "#EXTM3U\n#EXTINF:-1 tvg-logo=\"http://example.com/logo.png\" group-title=\"Movies\",Test Movie\nhttp://example.com/movie.mkv\n";
    let parser = M3UParser::new(content);
    let items = parser.parse().unwrap();

    assert_eq!(items.len(), 1);
    assert_eq!(items[0].title, "Test Movie");
    assert_eq!(items[0].group, "Movies");
    assert_eq!(items[0].logo, Some("http://example.com/logo.png".to_string()));
}

#[test]
fn test_basic_parsing() {
    let content = "#EXTM3U\n#EXTINF:-1 tvg-logo=\"http://example.com/logo.png\" group-title=\"Movies\",Test Movie\nhttp://example.com/movie.mkv\n#EXTINF:-1 group-title=\"Series\",Show S01E01\nhttp://example.com/show.mkv\n";

    let parser = M3UParser::new(content);
    let items = parser.parse().unwrap();

    assert_eq!(items.len(), 2);
    assert_eq!(items[0].title, "Test Movie");
    assert_eq!(items[1].title, "Show");
    assert_eq!(items[1].season(), Some(1));
    assert_eq!(items[1].episode(), Some(1));
}

#[test]
fn test_year_extraction() {
    let content = "#EXTM3U\n#EXTINF:-1 group-title=\"Movies\",Great Movie (2022)\nhttp://example.com/movie.mkv\n";

    let parser = M3UParser::new(content);
    let items = parser.parse().unwrap();

    assert_eq!(items.len(), 1);
    assert_eq!(items[0].title, "Great Movie");
    assert_eq!(items[0].year(), Some(2022));
    assert_eq!(items[0].category, Category::Movie { year: Some(2022) });
}

#[test]
fn lib_test_series_with_year() {
    let content = "#EXTM3U\n#EXTINF:-1 group-title=\"Series\",Amazing Show (2023) S02E05\nhttp://example.com/show.mkv\n";

    let parser = M3UParser::new(content);
    let items = parser.parse().unwrap();

    assert_eq!(items.len(), 1);
    assert_eq!(items[0].title, "Amazing Show");
    assert_eq!(items[0].year(), Some(2023));
    assert_eq!(items[0].season(), Some(2));
    assert_eq!(items[0].episode(), Some(5));
    assert_eq!(
        items[0].category,
        Category::Series { year: Some(2023), season: 2, episode: 5 },
    );
}

#[test]
fn test_empty_input_error() {
    let parser = M3UParser::new("");
    assert_eq!(parser.parse().unwrap_err(), ParseError::EmptyInput);
    assert_eq!(ParseError::EmptyInput.message(), "Empty file");
}

#[test]
fn test_missing_header_error() {
    let parser = M3UParser::new("just a line\nhttp://x/y.mkv\n");
    assert_eq!(parser.parse().unwrap_err(), ParseError::MissingHeader);
    assert_eq!(
        ParseError::MissingHeader.message(),
        "Invalid M3U file: missing #EXTM3U header"
    );
}

#[test]
fn test_parse_m3u_end_to_end_series() {
    let items = parse_m3u(
        "#EXTM3U\n#EXTINF:-1 group-title=\"Series\",Amazing Show (2023) S02E05\nhttp://x/show.mkv\n",
    )
    .unwrap();
    assert_eq!(items.len(), 1);
    assert_eq!(items[0].title, "Amazing Show");
    assert_eq!(
        items[0].category,
        Category::Series { year: Some(2023), season: 2, episode: 5 },
    );
}

#[test]
fn test_parse_m3u_live_stream_regardless_of_title() {
    let items =
        parse_m3u("#EXTM3U\n#EXTINF:-1,Some Show (2021) S01E02\nhttp://x/channel1\n").unwrap();
    assert_eq!(items.len(), 1);
    assert_eq!(items[0].category, Category::LiveStream);
    assert_eq!(items[0].title, "Some Show (2021) S01E02");
}

#[test]
fn test_parse_m3u_bracket_year_movie() {
    let items = parse_m3u("#EXTM3U\n#EXTINF:-1,Old Movie [1999]\nhttp://x/old.mkv\n").unwrap();
    assert_eq!(items.len(), 1);
    assert_eq!(items[0].category, Category::Movie { year: Some(1999) });
    assert_eq!(items[0].title, "Old Movie");
}

#[test]
fn test_parse_skips_comments_and_blanks() {
    let content = "#EXTM3U\n# a comment\n\n#EXTINF:-1,One\n# another comment\n\nhttp://x/a.mkv\n#EXTINF:-1,Dangling\n";
    let items = parse_m3u(content).unwrap();
    // The dangling entry without a URL line is silently discarded.
    assert_eq!(items.len(), 1);
    assert_eq!(items[0].title, "One");
}

#[test]
fn test_parse_drops_entry_without_comma() {
    let content = "#EXTM3U\n#EXTINF:-1 no comma here\nhttp://x/a.mkv\n#EXTINF:-1,Good\nhttp://x/b.mkv\n";
    let items = parse_m3u(content).unwrap();
    assert_eq!(items.len(), 1);
    assert_eq!(items[0].title, "Good");
}

#[test]
fn test_parse_crlf_line_endings() {
    let content = "#EXTM3U\r\n#EXTINF:-1 group-title=\"G\",Title\r\nhttp://x/a.mkv\r\n";
    let items = parse_m3u(content).unwrap();
    assert_eq!(items.len(), 1);
    assert_eq!(items[0].title, "Title");
    assert_eq!(items[0].group, "G");
    assert_eq!(items[0].url, "http://x/a.mkv");
}

#[test]
fn test_item_getters() {
    let items = parse_m3u(
        "#EXTM3U\n#EXTINF:-1 tvg-logo=\"http://x/l.png\" group-title=\"G\",A Movie\nhttp://x/a.mkv\n",
    )
    .unwrap();
    let it = &items[0];
    assert_eq!(it.title(), "A Movie");
    assert_eq!(it.url(), "http://x/a.mkv");
    assert_eq!(it.group(), "G");
    assert_eq!(it.logo(), Some("http://x/l.png".to_string()));
    assert_eq!(it.year(), None);
    assert_eq!(it.season(), None);
    assert_eq!(it.episode(), None);
}
