//! Catalog navigation, the architecture-viewer click resolver, the problem page split, the
//! sidebar filter and face, the problem tabs' label matcher, reading preferences and progress.

use synapse_client::catalog::pane::{humanize, normalize_label, section_index};
use synapse_client::catalog::prefs::{self, default_prefs, Prefs};
use synapse_client::catalog::progress::{self, completed_count, next_unread, set_done, visit, DoneSet};
use synapse_client::catalog::sidebar::{category_has_book, SidebarMode};
use synapse_client::catalog::{
    book_of, book_prefix, chapter_count, find_book, first_lesson_path, lesson_count, plural,
    problem_content_split, prune_entries, reading_order, resolve_c4_node, C4PathHop,
};
use synapse_client::wire::{
    BookDto, BookEntryDto, CatalogEntryDto, CategoryDto, ChapterDto, LessonDto, SynapseIndexDto,
};

fn lesson(slug: &str) -> BookEntryDto {
    BookEntryDto::Lesson(LessonDto {
        slug: slug.to_owned(),
        title: slug.to_owned(),
        order: None,
        essential: true,
    })
}

fn book() -> BookDto {
    BookDto {
        slug: "dsa".to_owned(),
        title: "DSA".to_owned(),
        description: String::new(),
        tags: vec![],
        estimated_reading_minutes: None,
        order: None,
        category_path: vec!["learn".to_owned()],
        entries: vec![
            lesson("intro"),
            BookEntryDto::Chapter(ChapterDto {
                slug: "lists".to_owned(),
                title: "Lists".to_owned(),
                order: None,
                entries: vec![lesson("singly")],
            }),
        ],
    }
}

fn index() -> SynapseIndexDto {
    SynapseIndexDto {
        entries: vec![CatalogEntryDto::Category(CategoryDto {
            slug: "learn".to_owned(),
            title: "Learn".to_owned(),
            description: None,
            icon: None,
            order: None,
            entries: vec![CatalogEntryDto::Book(book())],
        })],
    }
}

#[test]
fn reading_order_is_preorder_with_full_paths() {
    let paths: Vec<String> = reading_order(&book()).into_iter().map(|(p, _)| p).collect();
    assert_eq!(paths, vec!["learn/dsa/intro", "learn/dsa/lists/singly"]);
}

#[test]
fn first_lesson_path_is_the_cover_target() {
    assert_eq!(first_lesson_path(&book()).unwrap(), "learn/dsa/intro");
}

#[test]
fn book_of_descends_categories_to_the_owning_book() {
    let idx = index();
    let path: Vec<String> = ["learn", "dsa", "lists", "singly"]
        .iter()
        .map(|s| (*s).to_owned())
        .collect();
    assert_eq!(book_of(&idx, &path).unwrap().slug, "dsa");
    let missing: Vec<String> = ["learn", "nope", "x"].iter().map(|s| (*s).to_owned()).collect();
    assert!(book_of(&idx, &missing).is_none());
}

#[test]
fn find_book_descends_categories_by_globally_unique_slug() {
    let idx = index();
    assert_eq!(find_book(&idx, "dsa").unwrap().title, "DSA");
    assert!(find_book(&idx, "nope").is_none());
}

#[test]
fn card_counts_lessons_recursively_and_chapters_directly() {
    let b = book();
    assert_eq!(lesson_count(&b), 2);
    assert_eq!(chapter_count(&b), 1);
}

fn hop(tag: &str, classes: &str, id: Option<&str>) -> C4PathHop {
    (tag.to_owned(), classes.to_owned(), id.map(str::to_owned))
}

#[test]
fn a_node_body_click_resolves_to_its_dotted_fqn() {
    let path = vec![
        hop("DIV", "likec4-element", None),
        hop(
            "DIV",
            "react-flow__node react-flow__node-element",
            Some("btPersonal.btSmallWeb"),
        ),
        hop("DIV", "react-flow__pane", None),
    ];
    assert_eq!(resolve_c4_node(&path).as_deref(), Some("btPersonal.btSmallWeb"));
}

#[test]
fn a_button_before_the_node_is_likec4s_own_control() {
    let path = vec![
        hop("BUTTON", "mantine-ActionIcon-root", None),
        hop("DIV", "react-flow__node", Some("sfClient")),
    ];
    assert_eq!(resolve_c4_node(&path), None);
}

#[test]
fn edges_and_token_substrings_never_resolve() {
    let edge = vec![hop("G", "react-flow__edge", Some("hash-1a2b"))];
    assert_eq!(resolve_c4_node(&edge), None);
    let substring = vec![hop("DIV", "react-flow__node-toolbar", Some("x"))];
    assert_eq!(resolve_c4_node(&substring), None);
    let empty_id = vec![hop("DIV", "react-flow__node", Some(""))];
    assert_eq!(resolve_c4_node(&empty_id), None);
}

#[test]
fn a_click_outside_any_node_resolves_to_nothing() {
    assert_eq!(resolve_c4_node(&[]), None);
    let pane = vec![hop("DIV", "react-flow__pane", Some("x"))];
    assert_eq!(resolve_c4_node(&pane), None);
    // a lower-case `button` tag is a control too
    let control = vec![hop("button", "", None), hop("DIV", "react-flow__node", Some("a"))];
    assert_eq!(resolve_c4_node(&control), None);
}

#[test]
fn the_book_prefix_is_the_category_path_then_the_slug() {
    assert_eq!(book_prefix(&book()), vec!["learn".to_owned(), "dsa".to_owned()]);
}

#[test]
fn a_book_without_lessons_has_no_cover_target() {
    let mut b = book();
    b.entries = vec![];
    assert_eq!(first_lesson_path(&b), None);
    assert_eq!(lesson_count(&b), 0);
    assert_eq!(chapter_count(&b), 0);
}

#[test]
fn a_category_holds_the_books_of_its_branches() {
    let CatalogEntryDto::Category(category) = &index().entries[0] else {
        panic!("the fixture's root is a category");
    };
    assert!(category_has_book(category, "dsa"));
    assert!(!category_has_book(category, "python"));
}

// ─────────────────────────────────────────────────────────────────────────────
// The problem page split
// ─────────────────────────────────────────────────────────────────────────────

#[test]
fn the_first_details_outside_a_fence_splits_description_from_editorial() {
    let raw = "# Two Sum\n\nFind two numbers.\n\n<details>\n<summary>Editorial</summary>\nBody\n</details>";
    let (description, editorial) = problem_content_split(raw);
    assert_eq!(description, "# Two Sum\n\nFind two numbers.");
    assert_eq!(editorial, "<details>\n<summary>Editorial</summary>\nBody\n</details>");
}

#[test]
fn a_details_inside_a_fence_is_content() {
    let raw = "Intro\n```html\n<details>\n```\nMore\n<details>\nEd";
    let (description, editorial) = problem_content_split(raw);
    assert_eq!(description, "Intro\n```html\n<details>\n```\nMore");
    assert_eq!(editorial, "<details>\nEd");
}

#[test]
fn without_a_details_the_whole_text_is_the_description() {
    let raw = "Only a statement.\n  <details> indented is not a boundary\n";
    let (description, editorial) = problem_content_split(raw);
    assert_eq!(description, raw);
    assert_eq!(editorial, "");
}

// ─────────────────────────────────────────────────────────────────────────────
// The sidebar filter
// ─────────────────────────────────────────────────────────────────────────────

fn titled(slug: &str, title: &str) -> BookEntryDto {
    BookEntryDto::Lesson(LessonDto {
        slug: slug.to_owned(),
        title: title.to_owned(),
        order: None,
        essential: false,
    })
}

fn tree() -> Vec<BookEntryDto> {
    vec![
        titled("intro", "Introduction"),
        BookEntryDto::Chapter(ChapterDto {
            slug: "lists".to_owned(),
            title: "Linked Lists".to_owned(),
            order: None,
            entries: vec![titled("singly", "Singly"), titled("doubly", "Doubly")],
        }),
        BookEntryDto::Chapter(ChapterDto {
            slug: "trees".to_owned(),
            title: "Trees".to_owned(),
            order: None,
            entries: vec![titled("bst", "Binary Search Trees"), titled("heap", "Heaps")],
        }),
    ]
}

fn shape(entries: &[BookEntryDto]) -> Vec<String> {
    let mut out = Vec::new();
    for entry in entries {
        match entry {
            BookEntryDto::Lesson(l) => out.push(l.slug.clone()),
            BookEntryDto::Chapter(c) => {
                out.push(format!("{}/", c.slug));
                for kid in shape(&c.entries) {
                    out.push(format!("{}/{kid}", c.slug));
                }
            },
        }
    }
    out
}

#[test]
fn a_blank_filter_keeps_the_whole_tree() {
    assert_eq!(shape(&prune_entries(&tree(), "   ")), shape(&tree()));
}

#[test]
fn a_matching_chapter_keeps_all_its_lessons() {
    assert_eq!(
        shape(&prune_entries(&tree(), "LINKED")),
        vec!["lists/", "lists/singly", "lists/doubly"]
    );
}

#[test]
fn a_chapter_survives_through_matching_descendants_only() {
    assert_eq!(shape(&prune_entries(&tree(), " search ")), vec!["trees/", "trees/bst"]);
    assert!(prune_entries(&tree(), "zzz").is_empty());
}

// ─────────────────────────────────────────────────────────────────────────────
// The problem tabs' label matcher
// ─────────────────────────────────────────────────────────────────────────────

#[test]
fn labels_match_however_they_were_typed() {
    assert_eq!(
        normalize_label("Complexity Analysis"),
        normalize_label("  complexity   analysis ")
    );
    let labels = [
        "Approach".to_owned(),
        "Solution".to_owned(),
        "Complexity Analysis".to_owned(),
    ];
    assert_eq!(section_index(&labels, "Complexity Analysis"), 2);
    assert_eq!(section_index(&labels, "  SOLUTION  "), 1);
}

#[test]
fn an_unmatched_section_falls_back_to_the_first() {
    let labels = ["Approach".to_owned(), "Solution".to_owned()];
    assert_eq!(section_index(&labels, "Proof of correctness"), 0);
    assert_eq!(section_index(&labels, ""), 0);
    assert_eq!(section_index(&[], "Solution"), 0);
}

#[test]
fn duplicate_labels_resolve_to_the_first() {
    let labels = ["Solution".to_owned(), "Solution".to_owned()];
    assert_eq!(section_index(&labels, "Solution"), 0);
}

#[test]
fn a_problem_slug_reads_as_a_title() {
    assert_eq!(humanize("two-sum"), "Two Sum");
    assert_eq!(humanize("lru-cache-ii"), "Lru Cache Ii");
    assert_eq!(humanize(""), "");
}

// ─────────────────────────────────────────────────────────────────────────────
// Reading preferences
// ─────────────────────────────────────────────────────────────────────────────

#[test]
fn round_trips_and_degrades_per_field() {
    let stored = prefs::serialize(&Prefs {
        size: "lg",
        leading: "tight",
        family: "mono",
        width: "wide",
    });
    assert_eq!(stored, "lg|tight|mono|wide");
    let parsed = prefs::parse(Some(&stored));
    assert_eq!(parsed.size, "lg");
    assert_eq!(parsed.family, "mono");

    // One bad token degrades ONLY that field.
    let mixed = prefs::parse(Some("lg|banana|mono|wide"));
    assert_eq!(mixed.size, "lg");
    assert_eq!(mixed.leading, "normal");
    assert_eq!(mixed.family, "mono");
}

#[test]
fn absent_or_malformed_storage_is_the_default() {
    assert_eq!(prefs::parse(None), default_prefs());
    assert_eq!(prefs::parse(Some("")), default_prefs());
    assert_eq!(prefs::parse(Some("only|three|parts")), default_prefs());
    assert_eq!(prefs::parse(Some("way|too|many|parts|here")), default_prefs());
}

#[test]
fn the_defaults_are_medium_comfortable_sans_standard() {
    let d = default_prefs();
    assert_eq!(prefs::serialize(&d), "md|normal|sans|standard");
    assert_eq!(prefs::parse(Some("md|normal|sans|standard")), d);
}

// ─────────────────────────────────────────────────────────────────────────────
// Reading progress
// ─────────────────────────────────────────────────────────────────────────────

fn set(paths: &[&str]) -> DoneSet {
    let mut done = DoneSet::new();
    for p in paths {
        done.insert(p);
    }
    done
}

fn progress_book() -> BookDto {
    BookDto {
        slug: "dsa".to_owned(),
        title: "DSA".to_owned(),
        description: String::new(),
        tags: vec![],
        estimated_reading_minutes: None,
        order: None,
        category_path: vec!["learn".to_owned()],
        entries: vec![lesson("intro"), lesson("arrays"), lesson("lists")],
    }
}

#[test]
fn absent_or_blank_storage_is_an_empty_set() {
    assert!(progress::parse(None).is_empty());
    assert!(progress::parse(Some("")).is_empty());
    assert!(
        progress::parse(Some("\n\n  \n")).is_empty(),
        "blank lines are skipped, not stored"
    );
}

#[test]
fn a_round_trip_preserves_the_set() {
    let done = set(&["learn/dsa/arrays", "learn/dsa/intro"]);
    assert_eq!(progress::parse(Some(&progress::serialize(&done))).paths(), done.paths());
}

#[test]
fn the_serialised_form_is_stable_across_insertion_orders() {
    let a = set(&["b", "a", "c"]);
    let b = set(&["c", "b", "a"]);
    assert_eq!(
        progress::serialize(&a),
        progress::serialize(&b),
        "an ordered set keeps the stored string from churning on every commit"
    );
    assert_eq!(progress::serialize(&a), "a\nb\nc");
}

#[test]
fn a_stray_line_costs_only_itself() {
    let done = progress::parse(Some("learn/dsa/intro\n\n   \nlearn/dsa/arrays\n"));
    assert_eq!(done.len(), 2);
    assert!(done.contains("learn/dsa/intro"));
    assert!(done.contains("learn/dsa/arrays"));
}

#[test]
fn counting_uses_full_paths_not_slugs() {
    let done = set(&["learn/dsa/intro", "learn/dsa/arrays"]);
    assert_eq!(completed_count(&progress_book(), &done), 2);
    // A bare slug must NOT count — two books can both have an `intro`.
    assert_eq!(completed_count(&progress_book(), &set(&["intro"])), 0);
}

#[test]
fn a_path_from_another_book_does_not_inflate_the_count() {
    assert_eq!(completed_count(&progress_book(), &set(&["learn/python/intro"])), 0);
}

#[test]
fn next_unread_walks_reading_order_and_ends_at_none() {
    let b = progress_book();
    assert_eq!(next_unread(&b, &DoneSet::new()).unwrap(), "learn/dsa/intro");
    assert_eq!(
        next_unread(&b, &set(&["learn/dsa/intro"])).unwrap(),
        "learn/dsa/arrays",
        "resumes at the first GAP, not after the last finished lesson"
    );
    assert_eq!(
        next_unread(&b, &set(&["learn/dsa/arrays"])).unwrap(),
        "learn/dsa/intro"
    );
    let all = set(&["learn/dsa/intro", "learn/dsa/arrays", "learn/dsa/lists"]);
    assert_eq!(next_unread(&b, &all), None, "a finished book has nothing next");
    assert_eq!(completed_count(&b, &all), lesson_count(&b));
}

#[test]
fn marking_twice_writes_once_and_unmarking_removes() {
    let mut done = DoneSet::new();
    assert_eq!(set_done(&mut done, "learn/dsa/intro", true).as_deref(), Some("learn/dsa/intro"));
    assert_eq!(set_done(&mut done, "learn/dsa/intro", true), None);
    assert_eq!(
        set_done(&mut done, "learn/dsa/arrays", true).as_deref(),
        Some("learn/dsa/arrays\nlearn/dsa/intro")
    );
    assert_eq!(set_done(&mut done, "learn/dsa/intro", false).as_deref(), Some("learn/dsa/arrays"));
    assert!(!done.contains("learn/dsa/intro"));
    assert_eq!(set_done(&mut done, "learn/dsa/intro", false), None);
    assert!(done.remove("learn/dsa/arrays"));
    assert!(done.is_empty());
}

#[test]
fn a_revisit_of_the_last_lesson_writes_nothing() {
    assert!(visit(None, "learn/dsa/intro"));
    assert!(!visit(Some("learn/dsa/intro"), "learn/dsa/intro"));
    assert!(visit(Some("learn/dsa/intro"), "learn/dsa/arrays"));
}

// ─────────────────────────────────────────────────────────────────────────────
// Small text decisions of the library views
// ─────────────────────────────────────────────────────────────────────────────

#[test]
fn one_lesson_is_singular_and_others_plural() {
    assert_eq!(plural(1, "lesson"), "lesson");
    assert_eq!(plural(0, "lesson"), "lessons");
    assert_eq!(plural(12, "chapter"), "chapters");
}

#[test]
fn the_sidebar_face_round_trips_and_degrades_to_expanded() {
    for mode in [SidebarMode::Expanded, SidebarMode::Compact, SidebarMode::Hidden] {
        assert_eq!(SidebarMode::parse(mode.token()), mode);
    }
    assert_eq!(SidebarMode::parse("collapsed"), SidebarMode::Hidden);
    assert_eq!(SidebarMode::parse("banana"), SidebarMode::Expanded);
    assert_eq!(SidebarMode::load(None), SidebarMode::Expanded);
    assert_eq!(SidebarMode::load(Some("compact")), SidebarMode::Compact);
}

#[test]
fn trimming_twice_is_trimming_once() {
    use_trim("  \t Complexity  Analysis \n");
    use_trim("");
    use_trim("\u{3000}wide\u{3000}");
}

fn use_trim(s: &str) {
    let chars: Vec<char> = s.chars().collect();
    let once = synapse_client::text::trimmed(&chars);
    assert_eq!(synapse_client::text::trimmed(&once), once);
    assert_eq!(once.iter().collect::<String>(), s.trim());
}

#[test]
fn a_last_line_keeps_a_bare_carriage_return() {
    assert_eq!(problem_content_split("<details\r"), (String::new(), "<details\r".to_owned()));
    assert_eq!(
        problem_content_split("Intro\r\n<details>\r\nBody\r"),
        ("Intro".to_owned(), "<details>\nBody\r".to_owned())
    );
    let lines = synapse_client::text::lines_of(&"a\r\nb\r".chars().collect());
    let as_strings: Vec<String> = lines.iter().map(|l| l.iter().collect()).collect();
    let std_lines: Vec<String> = "a\r\nb\r".lines().map(str::to_owned).collect();
    assert_eq!(as_strings, std_lines);
}
