use cargo_crev::print_term::{
    all_issues_highlight, crate_id_text, header_text, known_owners_highlight, pad_left_manually,
    status_highlight, total_downloads_highlight, trusted_issues_highlight,
    version_downloads_highlight, CrateVerifyColumns, Highlight, VerificationStatus,
};

#[test]
fn pad_fills_to_width() {
    assert_eq!(pad_left_manually("1.2.3".to_string(), 8), "1.2.3   ");
}

#[test]
fn pad_leaves_exact_width_alone() {
    assert_eq!(pad_left_manually("0.10.0*".to_string(), 7), "0.10.0*");
}

#[test]
fn pad_leaves_wider_text_alone() {
    assert_eq!(pad_left_manually("1.0.0-alpha.1".to_string(), 4), "1.0.0-alpha.1");
}

#[test]
fn pad_of_empty_text_is_all_blanks() {
    assert_eq!(pad_left_manually(String::new(), 3), "   ");
}

#[test]
fn pad_to_zero_width_keeps_text() {
    assert_eq!(pad_left_manually("x".to_string(), 0), "x");
}

#[test]
fn pad_counts_bytes_not_characters() {
    // two characters, four bytes: two blanks fill a cell of six
    assert_eq!(pad_left_manually("éé".to_string(), 6), "éé  ");
    assert_eq!(pad_left_manually("éé".to_string(), 3), "éé");
}

fn columns(all: bool) -> CrateVerifyColumns {
    CrateVerifyColumns {
        show_digest: all,
        show_reviews: all,
        show_downloads: all,
        show_owners: all,
        show_issues: all,
        show_loc: all,
        show_geiger: all,
        show_flags: all,
        show_leftpad_index: all,
        show_latest_trusted: all,
    }
}

#[test]
fn header_with_no_optional_column() {
    assert_eq!(
        header_text(&columns(false)),
        format!("{:>6} {:<20} {:<15} \n", "status", "crate", "version")
    );
    assert_eq!(header_text(&columns(false)), "status crate                version         \n");
}

#[test]
fn header_with_every_column() {
    let expected = format!(
        "{:<43} {:>6} {:>7} {:^18} {:>6} {:>6} {:>6} {:>6} {:>4} {:>5} {:<20} {:<15} \n{:<15}\n",
        "digest",
        "status",
        "reviews",
        "downloads",
        "owner",
        "issues",
        "loc",
        "geiger",
        "flgs",
        "lpidx",
        "crate",
        "version",
        "latest_t"
    );
    assert_eq!(header_text(&columns(true)), expected);
}

#[test]
fn header_centres_downloads_with_the_odd_blank_on_the_right() {
    let mut c = columns(false);
    c.show_downloads = true;
    assert_eq!(
        header_text(&c),
        "status     downloads      crate                version         \n"
    );
}

#[test]
fn header_pads_short_heads_on_the_left() {
    let mut c = columns(false);
    c.show_owners = true;
    c.show_loc = true;
    assert_eq!(
        header_text(&c),
        "status  owner    loc crate                version         \n"
    );
}

#[test]
fn header_puts_latest_trusted_on_its_own_line() {
    let mut c = columns(false);
    c.show_latest_trusted = true;
    assert_eq!(
        header_text(&c),
        "status crate                version         \nlatest_t       \n"
    );
}

#[test]
fn crate_cells_for_a_registry_package() {
    assert_eq!(
        crate_id_text("serde", "1.0.104", true),
        format!("{:<20} {:<15}", "serde", "1.0.104")
    );
    assert_eq!(crate_id_text("serde", "1.0.104", true), "serde                1.0.104        ");
}

#[test]
fn crate_cells_mark_a_package_from_elsewhere() {
    assert_eq!(crate_id_text("local", "0.1.0", false), "local                0.1.0*         ");
}

#[test]
fn crate_cells_keep_wide_texts_whole() {
    assert_eq!(
        crate_id_text("a-crate-with-a-very-long-name", "1.0.0-alpha.1+build.5", false),
        "a-crate-with-a-very-long-name 1.0.0-alpha.1+build.5*"
    );
}

#[test]
fn highlights_follow_their_thresholds() {
    assert_eq!(version_downloads_highlight(0), Some(Highlight::Yellow));
    assert_eq!(version_downloads_highlight(999), Some(Highlight::Yellow));
    assert_eq!(version_downloads_highlight(1000), None);
    assert_eq!(total_downloads_highlight(9999), Some(Highlight::Yellow));
    assert_eq!(total_downloads_highlight(10000), None);
    assert_eq!(trusted_issues_highlight(0), None);
    assert_eq!(trusted_issues_highlight(1), Some(Highlight::Red));
    assert_eq!(all_issues_highlight(0), None);
    assert_eq!(all_issues_highlight(7), Some(Highlight::Yellow));
}

#[test]
fn the_status_has_its_colour() {
    assert_eq!(status_highlight(VerificationStatus::Verified), Some(Highlight::Green));
    assert_eq!(status_highlight(VerificationStatus::Insufficient), None);
    assert_eq!(status_highlight(VerificationStatus::Negative), Some(Highlight::Yellow));
}

#[test]
fn known_owners_are_green_where_there_is_one() {
    assert_eq!(known_owners_highlight(0), None);
    assert_eq!(known_owners_highlight(1), Some(Highlight::Green));
    assert_eq!(known_owners_highlight(40), Some(Highlight::Green));
}
