use hot_or_not::config::Config;
use hot_or_not::coverage::{Coverage, Exhausted};
use hot_or_not::models::{ImageThumbnail, President, PresidentImage, Thumbnails};
use hot_or_not::persist::{parse_record, render_record};
use hot_or_not::slug::slug_of;
use hot_or_not::store::{to_index_items, Presidents, Vote, VoteError};

fn candidate(name: &str, office: &str) -> President {
    let mut p = President::default();
    p.name = name.to_string();
    p.office = office.to_string();
    p
}

fn thumb(url: &str) -> ImageThumbnail {
    ImageThumbnail { url: url.to_string(), width: 10, height: 10 }
}

fn with_image(mut p: President, large: &str) -> President {
    p.images.push(PresidentImage {
        url: "full.png".to_string(),
        filename: "full.png".to_string(),
        size: 1,
        content_type: "image/png".to_string(),
        thumbnails: Thumbnails { small: thumb("small.png"), large: thumb(large), full: thumb("f.png") },
    });
    p
}

fn store_of(names: &[&str]) -> Presidents {
    let mut s = Presidents::new();
    s.merge(names.iter().map(|n| candidate(n, "old office")).collect());
    s
}

#[test]
fn slug_derivation_examples() {
    assert_eq!(slug_of("George Washington"), "george_washington");
    assert_eq!(slug_of("John F. Kennedy"), "john_f_kennedy");
    assert_eq!(candidate("John F. Kennedy", "").short_name(), "john_f_kennedy");
}

#[test]
fn slug_of_empty_name_is_empty() {
    assert_eq!(slug_of(""), "");
}

#[test]
fn votes_and_score() {
    let mut p = candidate("A", "x");
    p.hot_vote();
    p.not_vote();
    assert_eq!(p.score(), 0);
    p.not_vote();
    p.not_vote();
    p.hot_vote();
    assert_eq!((p.hot, p.not), (2, 3));
    assert_eq!(p.score(), -1);
}

#[test]
fn template_item_fields() {
    let mut p = with_image(candidate("John F. Kennedy", "President"), "large.png");
    p.hot = 5;
    p.not = 7;
    let item = p.template_item();
    assert_eq!(item.name, "John F. Kennedy");
    assert_eq!(item.short_name, "john_f_kennedy");
    assert_eq!(item.score, -2);
    assert_eq!(item.image_url, "large.png");
    assert_eq!(candidate("B", "").template_item().image_url, "");
}

#[test]
fn merge_keeps_absent_slugs() {
    let mut s = store_of(&["a", "b", "c"]);
    for _ in 0..2 {
        assert_eq!(s.cast_vote("b", Vote::Hot), Ok(()));
    }
    assert_eq!(s.cast_vote("b", Vote::Not), Ok(()));
    s.merge(vec![candidate("a", "new a"), candidate("b", "new b")]);
    assert_eq!(s.len(), 3);
    let a = s.get("a").unwrap();
    assert_eq!((a.hot, a.not, a.office.as_str()), (0, 0, "new a"));
    let b = s.get("b").unwrap();
    assert_eq!((b.hot, b.not, b.office.as_str()), (2, 1, "new b"));
    let c = s.get("c").unwrap();
    assert_eq!((c.hot, c.not, c.office.as_str()), (0, 0, "old office"));
}

#[test]
fn merge_keeps_tallies_and_replaces_fields() {
    let mut s = store_of(&["George Washington"]);
    assert_eq!(s.cast_vote("george_washington", Vote::Not), Ok(()));
    let mut incoming = candidate("George Washington", "General");
    incoming.hot = 40;
    incoming.quote = Some("q".to_string());
    s.merge(vec![incoming, candidate("John Adams", "VP")]);
    let g = s.get("george_washington").unwrap();
    assert_eq!((g.hot, g.not), (0, 1));
    assert_eq!(g.office, "General");
    assert_eq!(g.quote.as_deref(), Some("q"));
    let j = s.get("john_adams").unwrap();
    assert_eq!((j.hot, j.not), (0, 0));
}

#[test]
fn new_candidate_gets_zero_counters() {
    let mut s = Presidents::new();
    let mut p = candidate("X", "");
    p.hot = 9;
    p.not = 4;
    s.merge(vec![p]);
    let x = s.get("x").unwrap();
    assert_eq!((x.hot, x.not), (0, 0));
}

#[test]
fn hot_then_not_scores_zero() {
    let mut s = store_of(&["A"]);
    assert_eq!(s.cast_vote("a", Vote::Hot), Ok(()));
    assert_eq!(s.cast_vote("a", Vote::Not), Ok(()));
    assert_eq!(s.get("a").unwrap().score(), 0);
}

#[test]
fn n_hot_m_not_scores_difference() {
    let mut s = store_of(&["A"]);
    for _ in 0..3 {
        s.cast_vote("a", Vote::Hot).unwrap();
    }
    for _ in 0..5 {
        s.cast_vote("a", Vote::Not).unwrap();
    }
    assert_eq!(s.get("a").unwrap().score(), -2);
}

#[test]
fn vote_on_unknown_slug_is_not_found() {
    let mut s = store_of(&["A"]);
    assert_eq!(s.cast_vote("zz", Vote::Hot), Err(VoteError::NotFound));
    assert_eq!(s.len(), 1);
    let a = s.get("a").unwrap();
    assert_eq!((a.hot, a.not), (0, 0));
    assert!(s.get("zz").is_none());
}

#[test]
fn vote_at_counter_limit_is_overflow() {
    let mut s = store_of(&["A"]);
    s.set_tally("a".to_string(), isize::MAX as usize, 3);
    assert_eq!(s.cast_vote("a", Vote::Hot), Err(VoteError::Overflow));
    assert_eq!(s.get("a").unwrap().hot, isize::MAX as usize);
    assert_eq!(s.cast_vote("a", Vote::Not), Ok(()));
    assert_eq!(s.get("a").unwrap().not, 4);
}

#[test]
fn votes_on_distinct_and_same_slugs_all_count() {
    let mut s = store_of(&["A", "B"]);
    s.cast_vote("a", Vote::Hot).unwrap();
    s.cast_vote("b", Vote::Hot).unwrap();
    s.cast_vote("a", Vote::Hot).unwrap();
    assert_eq!(s.get("a").unwrap().hot, 2);
    assert_eq!(s.get("b").unwrap().hot, 1);
}

#[test]
fn vote_labels() {
    assert_eq!(Vote::from_label("hot"), Some(Vote::Hot));
    assert_eq!(Vote::from_label("not"), Some(Vote::Not));
    assert_eq!(Vote::from_label("meh"), None);
    assert_eq!(Vote::from_label("HOT"), None);
}

#[test]
fn pick_never_returns_a_visited_slug() {
    let s = store_of(&["A", "B", "C"]);
    let a = s.assignment().unwrap();
    let mut c = Coverage::new(&a);
    c = c.mark_visited("a", &a);
    c = c.mark_visited("c", &a);
    for draw in 0..20u64 {
        assert_eq!(c.pick_next(&a, draw), Ok("b".to_string()));
    }
    c = c.mark_visited("b", &a);
    assert!(c.is_fully_visited(&a));
    assert_eq!(c.pick_next(&a, 7), Err(Exhausted));
}

#[test]
fn pick_by_draw_among_unvisited() {
    let s = store_of(&["A", "B", "C", "D"]);
    let a = s.assignment().unwrap();
    let c = Coverage::new(&a).mark_visited("b", &a);
    assert_eq!(c.pick_next(&a, 0), Ok("a".to_string()));
    assert_eq!(c.pick_next(&a, 1), Ok("c".to_string()));
    assert_eq!(c.pick_next(&a, 2), Ok("d".to_string()));
    assert_eq!(c.pick_next(&a, 3), Ok("a".to_string()));
}

#[test]
fn reset_after_exhaustion_makes_all_selectable() {
    let s = store_of(&["A", "B", "C"]);
    let a = s.assignment().unwrap();
    let mut c = Coverage::new(&a);
    for slug in ["a", "b", "c"] {
        c = c.mark_visited(slug, &a);
    }
    assert_eq!(c.pick_next(&a, 0), Err(Exhausted));
    let fresh = Coverage::new(&a);
    assert_eq!(fresh.bits, 0);
    assert!(!fresh.is_fully_visited(&a));
    let picks: Vec<String> = (0..3u64).map(|d| fresh.pick_next(&a, d).unwrap()).collect();
    assert_eq!(picks, vec!["a", "b", "c"]);
}

#[test]
fn unknown_slug_marks_nothing() {
    let s = store_of(&["A"]);
    let a = s.assignment().unwrap();
    let c = Coverage::new(&a).mark_visited("nobody", &a);
    assert_eq!(c.bits, 0);
    assert!(!c.is_fully_visited(&a));
}

#[test]
fn stale_coverage_counts_as_empty() {
    let mut s = store_of(&["A", "B"]);
    let a1 = s.assignment().unwrap();
    let mut c = Coverage::new(&a1);
    c = c.mark_visited("a", &a1);
    c = c.mark_visited("b", &a1);
    assert!(c.is_fully_visited(&a1));
    s.merge(vec![candidate("C", "")]);
    let a2 = s.assignment().unwrap();
    assert_ne!(a1.version_tag(), a2.version_tag());
    assert!(c.is_stale(&a2));
    assert!(!c.is_fully_visited(&a2));
    assert_eq!(c.pick_next(&a2, 0), Ok("a".to_string()));
    let c2 = c.mark_visited("c", &a2);
    assert_eq!(c2.version, a2.version_tag());
    assert_eq!(c2.bits, 1u128 << 2);
}

#[test]
fn reload_without_new_slugs_keeps_version() {
    let mut s = store_of(&["A", "B"]);
    let a1 = s.assignment().unwrap();
    s.merge(vec![candidate("B", "changed")]);
    let a2 = s.assignment().unwrap();
    assert_eq!(a1.version_tag(), a2.version_tag());
}

#[test]
fn too_many_candidates_for_coverage() {
    let names: Vec<String> = (0..129).map(|i| format!("n{}", i)).collect();
    let refs: Vec<&str> = names.iter().map(|s| s.as_str()).collect();
    let s = store_of(&refs);
    assert_eq!(s.assignment().err().map(|e| e.count), Some(129));
    let s2 = store_of(&refs[..128]);
    assert_eq!(s2.assignment().unwrap().len(), 128);
}

#[test]
fn snapshot_then_load_restores_counts() {
    let mut s = store_of(&["George Washington", "John Adams", "Thomas Jefferson"]);
    s.set_tally("george_washington".to_string(), 12, 3);
    s.set_tally("thomas_jefferson".to_string(), 0, 8);
    let lines = s.snapshot();
    assert_eq!(lines, vec!["george_washington,12,3", "john_adams,0,0", "thomas_jefferson,0,8"]);
    let mut fresh = store_of(&["George Washington", "John Adams", "Thomas Jefferson"]);
    assert_eq!(fresh.load(&lines), 0);
    for (slug, hot, not) in [("george_washington", 12, 3), ("john_adams", 0, 0), ("thomas_jefferson", 0, 8)] {
        let p = fresh.get(slug).unwrap();
        assert_eq!((p.hot, p.not), (hot, not));
    }
}

#[test]
fn load_skips_malformed_lines_and_adds_placeholders() {
    let mut s = store_of(&["A"]);
    let lines: Vec<String> = vec!["a,4,5", "junk", "b,1", "z,2,2", "a,x,1", "", "a,6,7"]
        .into_iter()
        .map(String::from)
        .collect();
    assert_eq!(s.load(&lines), 4);
    let a = s.get("a").unwrap();
    assert_eq!((a.hot, a.not, a.office.as_str()), (6, 7, "old office"));
    let z = s.get("z").unwrap();
    assert_eq!((z.hot, z.not, z.name.as_str()), (2, 2, ""));
    assert!(s.get("b").is_none());
    assert_eq!(s.len(), 2);
}

#[test]
fn parse_record_cases() {
    let r = parse_record("john_adams,12,0").unwrap();
    assert_eq!((r.slug.as_str(), r.hot, r.not), ("john_adams", 12, 0));
    let r = parse_record(",007,1").unwrap();
    assert_eq!((r.slug.as_str(), r.hot, r.not), ("", 7, 1));
    assert!(parse_record("a,1").is_none());
    assert!(parse_record("a,1,2,3").is_none());
    assert!(parse_record("a,,2").is_none());
    assert!(parse_record("a,1,").is_none());
    assert!(parse_record("a,-1,2").is_none());
    assert!(parse_record("a,99999999999999999999,0").is_none());
    assert!(parse_record("a,9223372036854775808,0").is_none());
    let r = parse_record("a,9223372036854775807,0").unwrap();
    assert_eq!(r.hot, 9223372036854775807);
}

#[test]
fn render_record_text() {
    assert_eq!(render_record("abc", 12, 0), "abc,12,0");
    assert_eq!(render_record("x_y", 1234567, 89), "x_y,1234567,89");
}

#[test]
fn index_items_follow_store_order() {
    let mut s = store_of(&["B b", "A a"]);
    s.cast_vote("a_a", Vote::Hot).unwrap();
    let items = to_index_items(&s);
    assert_eq!(items.len(), 2);
    assert_eq!((items[0].short_name.as_str(), items[0].score), ("b_b", 0));
    assert_eq!((items[1].short_name.as_str(), items[1].score), ("a_a", 1));
}

#[test]
fn config_defaults() {
    let c = Config::default();
    assert_eq!(c.host_address, "localhost");
    assert_eq!(c.host_port, 8080);
    assert_eq!(c.save_timeout, 30);
    assert_eq!(c.save_file, "president_votes_state.data");
    assert_eq!(c.api_key, "");
    assert!(c.data_load_uri.starts_with("https://api.airtable.com/v0/"));
}
