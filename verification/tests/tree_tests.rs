use m3u_parser::{
    categorize_item, is_live_stream, Category, CategoryTree, M3UItem, UserItemPrefs,
};

fn movie(title: &str, url: &str, group: &str) -> M3UItem {
    M3UItem {
        title: title.to_string(),
        url: url.to_string(),
        group: group.to_string(),
        logo: None,
        category: Category::Movie { year: None },
    }
}

#[test]
fn test_live_stream_detection() {
    assert!(is_live_stream("http://example.com/stream"));
    assert!(is_live_stream("http://example.com/channels/hd1"));
    assert!(!is_live_stream("http://example.com/movie.mkv"));
    assert!(!is_live_stream("http://example.com/video.mp4"));
}

#[test]
fn test_series_categorization() {
    let result = categorize_item("Show S01E01", "http://example.com/show.mkv");
    assert_eq!(
        result.category,
        Category::Series { year: None, season: 1, episode: 1 },
    );
    assert_eq!(result.cleaned_title, "Show");
    assert_eq!(result.season(), Some(1));
    assert_eq!(result.episode(), Some(1));
}

#[test]
fn test_movie_categorization() {
    let result = categorize_item("Movie Title", "http://example.com/movie.mkv");
    assert_eq!(result.category, Category::Movie { year: None });
    assert_eq!(result.cleaned_title, "Movie Title");
}

#[test]
fn test_live_stream_categorization() {
    let result = categorize_item("Live Channel", "http://example.com/channel1");
    assert_eq!(result.category, Category::LiveStream);
}

#[test]
fn test_movie_with_year() {
    let result = categorize_item(
        "Müzede Bir Gece: Kahmunrah'ın Yükselişi (2022)",
        "http://example.com/movie.mkv",
    );
    assert_eq!(result.category, Category::Movie { year: Some(2022) });
    assert_eq!(result.cleaned_title, "Müzede Bir Gece: Kahmunrah'ın Yükselişi");
    assert_eq!(result.year(), Some(2022));
}

#[test]
fn categorizer_test_series_with_year() {
    let result = categorize_item("Show Name (2023) S01E05", "http://example.com/show.mkv");
    assert_eq!(
        result.category,
        Category::Series { year: Some(2023), season: 1, episode: 5 },
    );
    assert_eq!(result.cleaned_title, "Show Name");
    assert_eq!(result.year(), Some(2023));
    assert_eq!(result.season(), Some(1));
    assert_eq!(result.episode(), Some(5));
}

#[test]
fn test_category_tree_building() {
    let items = vec![
        movie("Movie 1", "http://example.com/movie1.mkv", "Action"),
        movie("Movie 2", "http://example.com/movie2.mkv", "Action"),
    ];

    let tree = CategoryTree::build(items);

    assert_eq!(tree.movies.len(), 1);
    assert_eq!(tree.movies[0].name, "Action");
    assert_eq!(tree.movies[0].items.len(), 2);
}

#[test]
fn test_tree_total_count_matches_items() {
    let items = vec![
        movie("A", "http://x/a.mkv", "G1"),
        movie("B", "http://x/b.mkv", "G2"),
        M3UItem {
            title: "S".to_string(),
            url: "http://x/s.mkv".to_string(),
            group: "G1".to_string(),
            logo: None,
            category: Category::Series { year: None, season: 1, episode: 1 },
        },
        M3UItem {
            title: "L".to_string(),
            url: "http://x/live".to_string(),
            group: "".to_string(),
            logo: None,
            category: Category::LiveStream,
        },
    ];
    let tree = CategoryTree::build(items);
    let total: usize = tree
        .movies
        .iter()
        .chain(tree.series.iter())
        .chain(tree.live_streams.iter())
        .map(|n| n.items.len())
        .sum();
    assert_eq!(total, 4);
}

#[test]
fn test_empty_group_becomes_uncategorized() {
    let tree = CategoryTree::build(vec![movie("A", "http://x/a.mkv", "")]);
    assert_eq!(tree.movies.len(), 1);
    assert_eq!(tree.movies[0].name, "Uncategorized");
}

#[test]
fn test_sticky_and_hidden_sorting() {
    let items = vec![
        movie("D", "http://x/d.mkv", "Drama"),
        movie("C", "http://x/c.mkv", "Comedy"),
        movie("A", "http://x/a.mkv", "Action"),
    ];
    let tree = CategoryTree::build(items);

    let sticky = vec!["Action".to_string()];
    let ordered = tree.get_movies(&sticky, &vec![]);
    let names: Vec<String> = ordered.iter().map(|n| n.name()).collect();
    assert_eq!(names, vec!["Action", "Comedy", "Drama"]);

    let hidden = vec!["Comedy".to_string()];
    let filtered = tree.get_movies(&sticky, &hidden);
    let names: Vec<String> = filtered.iter().map(|n| n.name()).collect();
    assert_eq!(names, vec!["Action", "Drama"]);
}

#[test]
fn test_sorting_is_case_insensitive() {
    let items = vec![
        movie("B", "http://x/b.mkv", "Banana"),
        movie("A", "http://x/a.mkv", "apple"),
    ];
    let tree = CategoryTree::build(items);
    let ordered = tree.get_movies(&vec![], &vec![]);
    let names: Vec<String> = ordered.iter().map(|n| n.name()).collect();
    assert_eq!(names, vec!["apple", "Banana"]);
}

#[test]
fn test_get_items_favorites_and_hidden() {
    let items = vec![
        movie("Beta", "http://x/beta.mkv", "G"),
        movie("Alpha", "http://x/alpha.mkv", "G"),
        movie("Gamma", "http://x/gamma.mkv", "G"),
    ];
    let tree = CategoryTree::build(items);
    let node = &tree.movies[0];

    let prefs = vec![
        UserItemPrefs { url: "http://x/gamma.mkv".to_string(), favorite: true, hidden: false },
        UserItemPrefs { url: "http://x/beta.mkv".to_string(), favorite: false, hidden: true },
    ];
    let shown = node.get_items(&prefs);
    let titles: Vec<String> = shown.iter().map(|i| i.title.clone()).collect();
    assert_eq!(titles, vec!["Gamma", "Alpha"]);
}

#[test]
fn test_node_getters() {
    let tree = CategoryTree::build(vec![movie("A", "http://x/a.mkv", "G")]);
    assert_eq!(tree.movies[0].name(), "G");
    assert_eq!(tree.movies[0].item_count(), 1);
}

#[test]
fn test_find_category() {
    let items = vec![
        movie("A", "http://x/a.mkv", "Action"),
        M3UItem {
            title: "S".to_string(),
            url: "http://x/s.mkv".to_string(),
            group: "Shows".to_string(),
            logo: None,
            category: Category::Series { year: None, season: 1, episode: 2 },
        },
    ];
    let tree = CategoryTree::build(items);
    assert_eq!(tree.find_category("Shows").unwrap().name, "Shows");
    assert!(tree.find_category("Nope").is_none());
}

#[test]
fn test_search_case_insensitive() {
    let items = vec![
        movie("HELLO World", "http://x/h.mkv", "G"),
        movie("Other", "http://x/o.mkv", "G"),
    ];
    let tree = CategoryTree::build(items);
    let found = tree.search("hello w");
    assert_eq!(found.len(), 1);
    assert_eq!(found[0].title, "HELLO World");
    assert_eq!(tree.search("zzz").len(), 0);
}

#[test]
fn test_search_scan_order() {
    let items = vec![
        M3UItem {
            title: "Live One".to_string(),
            url: "http://x/live".to_string(),
            group: "L".to_string(),
            logo: None,
            category: Category::LiveStream,
        },
        movie("Movie One", "http://x/m.mkv", "M"),
        M3UItem {
            title: "Series One".to_string(),
            url: "http://x/s.mkv".to_string(),
            group: "S".to_string(),
            logo: None,
            category: Category::Series { year: None, season: 1, episode: 1 },
        },
    ];
    let tree = CategoryTree::build(items);
    let found = tree.search("one");
    let titles: Vec<String> = found.iter().map(|i| i.title.clone()).collect();
    // Movies first, then series, then live streams.
    assert_eq!(titles, vec!["Movie One", "Series One", "Live One"]);
}

#[test]
fn test_get_all_categories() {
    let items = vec![
        movie("A", "http://x/a.mkv", "Action"),
        M3UItem {
            title: "L".to_string(),
            url: "http://x/live".to_string(),
            group: "News".to_string(),
            logo: None,
            category: Category::LiveStream,
        },
    ];
    let tree = CategoryTree::build(items);
    let all = tree.get_all_categories(&vec![], &vec![]);
    assert_eq!(all.movies.len(), 1);
    assert_eq!(all.series.len(), 0);
    assert_eq!(all.live_streams.len(), 1);
    assert_eq!(all.live_streams[0].name, "News");
}
