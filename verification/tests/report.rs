use dix::aggregate::aggregate_entries;
use dix::package::DiffStatus;
use dix::render::write_packages_diffln;
use dix::render::write_paths_diffln;
use dix::sizes::write_size_diffln;
use dix::span::Role;
use dix::span::Span;

fn prefix() -> String {
    let mut p = String::from("/nix/store/");
    for _ in 0..32 {
        p.push('b');
    }
    p.push('-');
    p
}

fn path(rest: &str) -> String {
    let mut p = prefix();
    p.push_str(rest);
    p
}

fn text_of(spans: &[Span]) -> String {
    let mut t = String::new();
    for s in spans {
        t.push_str(&s.text);
    }
    t
}

#[test]
fn changed_package_highlights_only_the_differing_run() {
    let old = vec![path("foo-1.2.3")];
    let new = vec![path("foo-1.2.4")];
    let mut out = Vec::new();
    let count = write_packages_diffln(&mut out, &old, &new);
    assert_eq!(count, 1);
    assert_eq!(text_of(&out), "CHANGED\n[C] foo 1.2.3 -> 1.2.4\n");
    let removed: Vec<&str> = out
        .iter()
        .filter(|s| s.role == Role::Removed)
        .map(|s| s.text.as_str())
        .collect();
    let added: Vec<&str> = out
        .iter()
        .filter(|s| s.role == Role::Added)
        .map(|s| s.text.as_str())
        .collect();
    assert_eq!(removed, vec!["3"]);
    assert_eq!(added, vec!["4"]);
}

#[test]
fn added_package_renders_one_entry() {
    let old = Vec::new();
    let new = vec![path("bar-2.0")];
    let mut out = Vec::new();
    let count = write_packages_diffln(&mut out, &old, &new);
    assert_eq!(count, 1);
    assert_eq!(text_of(&out), "ADDED\n[A] bar 2.0\n");
}

#[test]
fn duplicate_versions_render_with_count_and_change_status() {
    let old = vec![path("baz-1.0"), path("baz-1.0")];
    let new = vec![path("baz-1.0")];
    let mut out = Vec::new();
    let count = write_packages_diffln(&mut out, &old, &new);
    assert_eq!(count, 1);
    assert_eq!(text_of(&out), "CHANGED\n[C] baz 1.0 * 2 -> 1.0\n");
    let entries = aggregate_entries(&old, &new);
    assert_eq!(entries.len(), 1);
    assert_eq!(entries[0].status, DiffStatus::Changed);
    assert_eq!(entries[0].old, vec![String::from("1.0 * 2")]);
    assert_eq!(entries[0].new, vec![String::from("1.0")]);
}

#[test]
fn malformed_identifier_is_skipped() {
    let old = vec![String::from("tooshort"), path("foo-1.0")];
    let new = vec![path("foo-1.0")];
    let mut out = Vec::new();
    let count = write_packages_diffln(&mut out, &old, &new);
    assert_eq!(count, 0);
    assert_eq!(text_of(&out), "");
}

#[test]
fn statuses_follow_the_version_lists() {
    let old = vec![path("gone-1.0"), path("kept-1.0")];
    let new = vec![path("kept-1.0"), path("fresh-0.1")];
    let entries = aggregate_entries(&old, &new);
    assert_eq!(entries.len(), 2);
    assert_eq!(entries[0].name, "fresh");
    assert_eq!(entries[0].status, DiffStatus::Added);
    assert_eq!(entries[1].name, "gone");
    assert_eq!(entries[1].status, DiffStatus::Removed);
}

#[test]
fn entries_are_grouped_by_status_then_sorted_by_name() {
    let old = vec![path("zeta-1"), path("alpha-1")];
    let new = vec![path("beta-2")];
    let mut out = Vec::new();
    let count = write_packages_diffln(&mut out, &old, &new);
    assert_eq!(count, 3);
    assert_eq!(
        text_of(&out),
        "ADDED\n[A] beta  2\n\nREMOVED\n[R] alpha 1\n[R] zeta  1\n"
    );
}

#[test]
fn identical_closures_render_only_the_header() {
    let both = vec![path("foo-1.0"), path("bar-2.0")];
    let mut out = Vec::new();
    let count = write_paths_diffln(
        &mut out,
        &String::from("/run/old"),
        &String::from("/run/new"),
        &both,
        &both.clone(),
    );
    assert_eq!(count, 0);
    assert_eq!(text_of(&out), "<<< /run/old\n>>> /run/new\n\n");
    assert_eq!(out[0].role, Role::Header);
    assert_eq!(out[0].text, "<<<");
}

#[test]
fn missing_version_renders_as_sentinel() {
    let old = vec![path("tool")];
    let new = vec![path("tool-1.0")];
    let mut out = Vec::new();
    let count = write_packages_diffln(&mut out, &old, &new);
    assert_eq!(count, 1);
    assert_eq!(text_of(&out), "CHANGED\n[C] tool <none> -> 1.0\n");
}

#[test]
fn wide_names_set_the_column_width() {
    let old = vec![path("ab-1.0"), path("\u{4f60}\u{597d}-1.0")];
    let new = Vec::new();
    let mut out = Vec::new();
    let count = write_packages_diffln(&mut out, &old, &new);
    assert_eq!(count, 2);
    let wide = unicode_width::UnicodeWidthStr::width("\u{4f60}\u{597d}");
    let pad = " ".repeat(wide - 2);
    let expected = format!(
        "REMOVED\n[R] ab{} 1.0\n[R] \u{4f60}\u{597d} 1.0\n",
        pad
    );
    assert_eq!(text_of(&out), expected);
}

#[test]
fn size_report_shows_signed_difference() {
    let mut out = Vec::new();
    let old_bytes: i64 = 100 * 1024 * 1024;
    let new_bytes: i64 = 80 * 1024 * 1024;
    write_size_diffln(&mut out, old_bytes, new_bytes);
    assert_eq!(out.len(), 10);
    assert_eq!(out[0].text, "SIZE");
    assert_eq!(out[0].role, Role::Header);
    assert_eq!(out[2].text, size::Size::from_bytes(old_bytes).to_string());
    assert_eq!(out[2].text, "100 MiB");
    assert_eq!(out[2].role, Role::Removed);
    assert_eq!(out[4].text, size::Size::from_bytes(new_bytes).to_string());
    assert_eq!(out[4].role, Role::Added);
    assert_eq!(out[6].text, "DIFF");
    let diff = &out[8];
    assert_eq!(diff.text, size::Size::from_bytes(new_bytes - old_bytes).to_string());
    assert!(diff.text.starts_with('-'));
    assert_eq!(diff.role, Role::Removed);
}

#[test]
fn size_report_styles_an_increase_as_added() {
    let mut out = Vec::new();
    write_size_diffln(&mut out, 1024, 4096);
    assert_eq!(out[8].role, Role::Added);
    assert_eq!(out[8].text, size::Size::from_bytes(3072i64).to_string());
}
