//! The app-map, search over the library, the document title and the shell's small decisions.

use synapse_client::blog::humanize;
use synapse_client::router::page::Page;
use synapse_client::search::rank::{clamp, is_subsequence, kind_label, rank, score, search, LIMIT};
use synapse_client::search::{entries, Kind, SearchEntry};
use synapse_client::seo::{title_for_lesson, SITE_NAME};
use synapse_client::shell::{short, theme_token, toggled, Mode};
use synapse_client::wire::{
    BlogSummaryDto, BookDto, BookEntryDto, CatalogEntryDto, CategoryDto, ChapterDto, LessonDto,
    SynapseIndexDto,
};

// ─────────────────────────────────────────────────────────────────────────────
// The app-map
// ─────────────────────────────────────────────────────────────────────────────

#[test]
fn parses_the_app_map() {
    assert_eq!(Page::from_segments(&[]), Page::Library);
    assert_eq!(Page::from_segments(&["", ""]), Page::Library);
    assert_eq!(
        Page::from_segments(&["synapse", "learn", "dsa", "intro"]),
        Page::Lesson(vec!["learn".into(), "dsa".into(), "intro".into()])
    );
    // A bare /synapse is not a lesson.
    assert_eq!(
        Page::from_segments(&["synapse"]),
        Page::NotFound("synapse".into())
    );
    assert_eq!(Page::from_segments(&["blog"]), Page::Blog);
    assert_eq!(Page::from_segments(&["account"]), Page::Account);
    assert_eq!(Page::from_segments(&["admin"]), Page::Admin);
    assert_eq!(
        Page::from_segments(&["blog", "hello"]),
        Page::BlogPost("hello".into())
    );
    // Blog posts are flat — deeper paths are not pages.
    assert_eq!(
        Page::from_segments(&["blog", "a", "b"]),
        Page::NotFound("blog/a/b".into())
    );
    assert_eq!(
        Page::from_segments(&["ghost", "town"]),
        Page::NotFound("ghost/town".into())
    );
}

#[test]
fn urls_round_trip() {
    let lesson = Page::Lesson(vec!["learn".into(), "dsa".into(), "intro".into()]);
    assert_eq!(lesson.url(), "/synapse/learn/dsa/intro");
    assert_eq!(Page::Library.url(), "/");
    assert_eq!(Page::Blog.url(), "/blog");
    assert_eq!(Page::BlogPost("hello".into()).url(), "/blog/hello");
    assert_eq!(Page::segments_of("a//b/c/"), vec!["a", "b", "c"]);
}

#[test]
fn every_addressable_page_comes_back_from_its_url() {
    for page in [
        Page::Library,
        Page::Lesson(vec!["learn".into(), "dsa".into(), "intro".into()]),
        Page::Blog,
        Page::BlogPost("hello".into()),
        Page::Account,
        Page::Admin,
    ] {
        let segments = Page::segments_of(&page.url());
        let borrowed: Vec<&str> = segments.iter().map(String::as_str).collect();
        assert_eq!(Page::from_segments(&borrowed), page);
    }
    assert_eq!(Page::NotFound("ghost/town".into()).url(), "/ghost/town");
}

// ─────────────────────────────────────────────────────────────────────────────
// Search
// ─────────────────────────────────────────────────────────────────────────────

fn lesson(slug: &str, title: &str) -> BookEntryDto {
    BookEntryDto::Lesson(LessonDto {
        slug: slug.to_owned(),
        title: title.to_owned(),
        order: None,
        essential: false,
    })
}

fn fixture() -> (SynapseIndexDto, Vec<BlogSummaryDto>) {
    let book = BookDto {
        slug: "dsa".to_owned(),
        title: "DSA".to_owned(),
        description: String::new(),
        tags: Vec::new(),
        estimated_reading_minutes: None,
        order: None,
        category_path: vec!["cat".to_owned()],
        entries: vec![BookEntryDto::Chapter(ChapterDto {
            slug: "arrays".to_owned(),
            title: "Arrays".to_owned(),
            order: None,
            entries: vec![
                lesson("two-sum", "Two Sum"),
                lesson("binary-search", "Binary Search"),
            ],
        })],
    };
    let index = SynapseIndexDto {
        entries: vec![CatalogEntryDto::Category(CategoryDto {
            slug: "cat".to_owned(),
            title: "Foundations".to_owned(),
            description: None,
            icon: None,
            order: None,
            entries: vec![CatalogEntryDto::Book(book)],
        })],
    };
    let blog = vec![BlogSummaryDto {
        slug: "hello".to_owned(),
        title: "Two Ferments".to_owned(),
        summary: None,
        published_at: "2026-06-01".to_owned(),
        tags: Vec::new(),
        read_minutes: None,
        eyebrow: None,
    }];
    (index, blog)
}

#[test]
fn flatten_yields_lessons_book_and_blog_with_breadcrumbs() {
    let (index, blog) = fixture();
    let all = entries(&index, &blog);
    let labels: Vec<&str> = all.iter().map(|e| e.label.as_str()).collect();
    assert_eq!(labels, vec!["DSA", "Two Sum", "Binary Search", "Two Ferments"]);

    let two_sum = all.iter().find(|e| e.label == "Two Sum").unwrap();
    assert_eq!(two_sum.kind, Kind::Lesson);
    assert_eq!(two_sum.sublabel, "Foundations › DSA › Arrays");
    assert_eq!(
        two_sum.page,
        Page::Lesson(vec![
            "cat".into(),
            "dsa".into(),
            "arrays".into(),
            "two-sum".into()
        ])
    );
    let book = all.iter().find(|e| e.label == "DSA").unwrap();
    assert_eq!(book.kind, Kind::Book);
    assert_eq!(book.sublabel, "Foundations › Book");
    assert_eq!(
        book.page,
        Page::Lesson(vec![
            "cat".into(),
            "dsa".into(),
            "arrays".into(),
            "two-sum".into()
        ]),
        "the book links to its first lesson"
    );
    let post = all.iter().find(|e| e.kind == Kind::Blog).unwrap();
    assert_eq!(post.sublabel, "Blog");
    assert_eq!(post.page, Page::BlogPost("hello".into()));
}

#[test]
fn a_word_start_match_beats_a_subsequence_match() {
    let (index, blog) = fixture();
    let all = entries(&index, &blog);
    let results = search("bi", &all);
    assert_eq!(results[0].label, "Binary Search");
}

#[test]
fn substring_matches_case_insensitively_across_lessons_and_blog() {
    let (index, blog) = fixture();
    let all = entries(&index, &blog);
    let labels: Vec<String> = search("two", &all).iter().map(|e| e.label.clone()).collect();
    assert!(labels.contains(&"Two Sum".to_owned()));
    assert!(labels.contains(&"Two Ferments".to_owned()));
}

#[test]
fn no_match_is_empty_and_empty_query_is_everything_capped() {
    let (index, blog) = fixture();
    let all = entries(&index, &blog);
    assert!(search("zzzzz", &all).is_empty());
    assert_eq!(search("", &all).len(), all.len());
}

#[test]
fn a_book_title_match_outranks_breadcrumb_only_lessons() {
    let (index, blog) = fixture();
    let all = entries(&index, &blog);
    let results = search("dsa", &all);
    assert_eq!(results[0].kind, Kind::Book, "the book itself surfaces first");
}

#[test]
fn each_match_tier_scores_as_documented() {
    assert_eq!(score("bin", "Binary Search"), Some(100));
    assert_eq!(score("sea", "Binary Search"), Some(80));
    assert_eq!(score("nary", "Binary Search"), Some(60));
    assert_eq!(score("bys", "Binary Search"), Some(30));
    assert_eq!(score("zz", "Binary Search"), None);
    assert!(is_subsequence(&"ace".chars().collect(), &"abcde".chars().collect()));
    assert!(!is_subsequence(&"aec".chars().collect(), &"abcde".chars().collect()));
}

#[test]
fn the_label_carries_a_bonus_over_the_breadcrumb() {
    let entry = SearchEntry {
        label: "Two Sum".to_owned(),
        sublabel: "Foundations › DSA".to_owned(),
        kind: Kind::Lesson,
        page: Page::Library,
    };
    assert_eq!(rank("two", &entry), Some(110));
    assert_eq!(rank("found", &entry), Some(100));
    assert_eq!(rank("qq", &entry), None);
}

#[test]
fn ties_go_to_lessons_then_shorter_labels_and_results_are_capped() {
    let mut all = Vec::new();
    for i in 0..30 {
        all.push(SearchEntry {
            label: format!("Topic {i:02}"),
            sublabel: String::new(),
            kind: if i % 2 == 0 { Kind::Blog } else { Kind::Lesson },
            page: Page::Library,
        });
    }
    all.push(SearchEntry {
        label: "Topic".to_owned(),
        sublabel: String::new(),
        kind: Kind::Book,
        page: Page::Library,
    });
    let results = search("topic", &all);
    assert_eq!(results.len(), LIMIT);
    assert_eq!(results[0].label, "Topic 01", "a lesson before the shorter-labelled book");
    assert!(results.iter().take(15).all(|e| e.kind == Kind::Lesson));
    assert_eq!(results[15].kind, Kind::Book);
    assert_eq!(results[16].label, "Topic 00");
    assert_eq!(search("   ", &all).len(), LIMIT);
}

#[test]
fn the_result_cursor_and_kind_labels() {
    assert_eq!(clamp(5, 0), 0);
    assert_eq!(clamp(5, 3), 2);
    assert_eq!(clamp(1, 3), 1);
    assert_eq!(kind_label(Kind::Lesson), "Lesson");
    assert_eq!(kind_label(Kind::Book), "Book");
    assert_eq!(kind_label(Kind::Blog), "Post");
}

// ─────────────────────────────────────────────────────────────────────────────
// The document title
// ─────────────────────────────────────────────────────────────────────────────

#[test]
fn the_book_leads_the_lesson_title() {
    assert_eq!(
        title_for_lesson(Some("DSA"), "Singly linked lists"),
        "DSA · Singly linked lists — Synapse",
    );
}

#[test]
fn an_unknown_book_still_produces_a_usable_title() {
    assert_eq!(title_for_lesson(None, "Intro"), "Intro — Synapse");
    assert_eq!(SITE_NAME, "Synapse");
}

// ─────────────────────────────────────────────────────────────────────────────
// The shell and the blog
// ─────────────────────────────────────────────────────────────────────────────

#[test]
fn the_theme_toggles_and_stores_its_token() {
    assert_eq!(toggled(Mode::Dark), Mode::Light);
    assert_eq!(toggled(Mode::Light), Mode::Dark);
    assert_eq!(theme_token(Mode::Dark), "dark");
    assert_eq!(theme_token(Mode::Light), "light");
}

#[test]
fn a_commit_hash_is_cut_to_seven_and_dev_passes_through() {
    assert_eq!(short("0123456789abcdef"), "0123456");
    assert_eq!(short("dev"), "dev");
    assert_eq!(short("abcdef1"), "abcdef1");
    assert_eq!(short("release-candidate"), "release-candidate");
}

#[test]
fn a_post_slug_reads_as_a_sentence() {
    assert_eq!(humanize("rebuilding-cortex"), "Rebuilding cortex");
    assert_eq!(humanize("snake_case_post"), "Snake case post");
    assert_eq!(humanize(""), "");
}

#[test]
fn equal_ranks_go_to_the_label_shorter_in_bytes() {
    let entry = |label: &str| SearchEntry {
        label: label.to_owned(),
        sublabel: String::new(),
        kind: Kind::Lesson,
        page: Page::Library,
    };
    // five characters each; the first is six bytes long in UTF-8
    let all = vec![entry("naïve"), entry("naive")];
    let labels: Vec<String> = search("na", &all).iter().map(|e| e.label.clone()).collect();
    assert_eq!(labels, vec!["naive".to_owned(), "naïve".to_owned()]);
    // equal byte lengths keep the library's order
    let all = vec![entry("Zeta"), entry("zero")];
    let labels: Vec<String> = search("ze", &all).iter().map(|e| e.label.clone()).collect();
    assert_eq!(labels, vec!["Zeta".to_owned(), "zero".to_owned()]);
}
