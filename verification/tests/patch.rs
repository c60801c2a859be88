use cert_fixer::corefile::{entry_block, patch, Corefile};
use cert_fixer::entry::{entry_line, line_is_anchor, line_is_managed, ANCHOR_TOKEN, MARKER};
use cert_fixer::error::ConfigFormatError;

fn hosts(names: &[&str]) -> Vec<String> {
    names.iter().map(|n| n.to_string()).collect()
}

fn chars(s: &str) -> Vec<char> {
    s.chars().collect()
}

fn text(line: &[char]) -> String {
    line.iter().collect()
}

#[test]
fn two_hostnames_end_to_end() {
    let out = patch(
        ".:53 {\n    log\n}\n",
        &hosts(&["a.example.com", "b.example.com"]),
        "ctl.svc",
    );
    assert_eq!(
        out,
        Ok(".:53 {\n    rewrite name a.example.com ctl.svc  # Added by cert-fixer\n    rewrite name b.example.com ctl.svc  # Added by cert-fixer\n    log\n}\n".to_string())
    );
}

#[test]
fn missing_anchor_is_a_format_error() {
    let out = patch("log\n}\n", &hosts(&["a.example.com"]), "ctl.svc");
    assert_eq!(out, Err(ConfigFormatError::MissingAnchor));
}

#[test]
fn empty_document_has_no_anchor() {
    assert_eq!(patch("", &hosts(&["a"]), "t"), Err(ConfigFormatError::MissingAnchor));
    assert_eq!(patch("", &hosts(&[]), "t"), Err(ConfigFormatError::MissingAnchor));
}

#[test]
fn anchor_on_a_managed_line_does_not_count() {
    let doc = "server {\n    rewrite name .:53 { t  # Added by cert-fixer\n}\n";
    assert_eq!(patch(doc, &hosts(&["a"]), "t"), Err(ConfigFormatError::MissingAnchor));
}

#[test]
fn patching_twice_changes_nothing() {
    let names = hosts(&["a.example.com", "b.example.com", "a.example.com"]);
    let once = patch("# head\n.:53 {\n    errors\n    log\n}\n", &names, "ctl.svc").unwrap();
    let twice = patch(&once, &names, "ctl.svc").unwrap();
    assert_eq!(twice, once);
    let thrice = patch(&twice, &names, "ctl.svc").unwrap();
    assert_eq!(thrice, once);
}

#[test]
fn patching_twice_changes_nothing_without_final_line_break() {
    let names = hosts(&["a"]);
    let once = patch(".:53 {\n}", &names, "t").unwrap();
    assert_eq!(once, ".:53 {\n    rewrite name a t  # Added by cert-fixer\n}\n");
    assert_eq!(patch(&once, &names, "t").unwrap(), once);
}

#[test]
fn block_stands_directly_after_anchor() {
    let out = patch(
        "# before\n\n.:53 {\n\n    log\n}\nother:53 {\n}\n",
        &hosts(&["one", "two", "three"]),
        "t",
    )
    .unwrap();
    let lines: Vec<&str> = out.split('\n').collect();
    assert_eq!(
        lines,
        vec![
            "# before",
            "",
            ".:53 {",
            "    rewrite name one t  # Added by cert-fixer",
            "    rewrite name two t  # Added by cert-fixer",
            "    rewrite name three t  # Added by cert-fixer",
            "",
            "    log",
            "}",
            "other:53 {",
            "}",
            "",
        ]
    );
}

#[test]
fn first_of_two_anchor_lines_is_used() {
    let out = patch(".:53 {\n}\n.:53 {\n}\n", &hosts(&["h"]), "t").unwrap();
    assert_eq!(
        out,
        ".:53 {\n    rewrite name h t  # Added by cert-fixer\n}\n.:53 {\n}\n"
    );
}

#[test]
fn anchor_may_stand_inside_a_line() {
    let out = patch("  example.org .:53 { # block\n}\n", &hosts(&["h"]), "t").unwrap();
    assert_eq!(
        out,
        "  example.org .:53 { # block\n    rewrite name h t  # Added by cert-fixer\n}\n"
    );
}

#[test]
fn stale_entries_are_replaced() {
    let before = patch(".:53 {\n    log\n}\n", &hosts(&["a", "b"]), "t").unwrap();
    assert!(before.contains("rewrite name a t"));
    let after = patch(&before, &hosts(&["b", "c"]), "t").unwrap();
    assert_eq!(
        after,
        ".:53 {\n    rewrite name b t  # Added by cert-fixer\n    rewrite name c t  # Added by cert-fixer\n    log\n}\n"
    );
    assert!(!after.contains("rewrite name a t"));
}

#[test]
fn managed_lines_are_removed_wherever_they_stand() {
    let doc = "    rewrite name x t  # Added by cert-fixer\n.:53 {\n    log\n    rewrite name y old  # Added by cert-fixer\n}\nsomething # Added by cert-fixer later\n";
    let out = patch(doc, &hosts(&["z"]), "t").unwrap();
    assert_eq!(
        out,
        ".:53 {\n    rewrite name z t  # Added by cert-fixer\n    log\n}\n"
    );
}

#[test]
fn empty_hostnames_remove_managed_lines_and_add_none() {
    let before = patch(".:53 {\n    log\n}\n", &hosts(&["a", "b"]), "t").unwrap();
    let after = patch(&before, &hosts(&[]), "t").unwrap();
    assert_eq!(after, ".:53 {\n    log\n}\n");
}

#[test]
fn duplicate_hostnames_are_kept() {
    let out = patch(".:53 {\n}\n", &hosts(&["a", "a"]), "t").unwrap();
    assert_eq!(
        out,
        ".:53 {\n    rewrite name a t  # Added by cert-fixer\n    rewrite name a t  # Added by cert-fixer\n}\n"
    );
}

#[test]
fn user_lines_keep_their_order_and_content() {
    let doc = "z\n.:53 {\n  b # Added by someone else\n\n a\n}\n\n";
    let out = patch(doc, &hosts(&[]), "t").unwrap();
    assert_eq!(out, doc);
}

#[test]
fn line_break_in_a_hostname_is_written_as_given() {
    let names = hosts(&["a\nb"]);
    let once = patch(".:53 {\n}\n", &names, "t").unwrap();
    assert_eq!(
        once,
        ".:53 {\n    rewrite name a\nb t  # Added by cert-fixer\n}\n"
    );
    let twice = patch(&once, &names, "t").unwrap();
    assert_eq!(
        twice,
        ".:53 {\n    rewrite name a\nb t  # Added by cert-fixer\n    rewrite name a\n}\n"
    );
}

#[test]
fn entry_line_matches_template() {
    assert_eq!(
        text(&entry_line("a.example.com", "ctl.svc")),
        "    rewrite name a.example.com ctl.svc  # Added by cert-fixer"
    );
    assert_eq!(text(&entry_line("", "")), "    rewrite name    # Added by cert-fixer");
    assert_eq!(
        text(&entry_line("bücher.example", "zíl")),
        "    rewrite name bücher.example zíl  # Added by cert-fixer"
    );
}

#[test]
fn entry_block_has_one_line_per_hostname() {
    let block = entry_block(&hosts(&["x", "y"]), "t");
    let lines: Vec<String> = block.iter().map(|l| text(l)).collect();
    assert_eq!(
        lines,
        vec![
            "    rewrite name x t  # Added by cert-fixer".to_string(),
            "    rewrite name y t  # Added by cert-fixer".to_string(),
        ]
    );
    assert!(entry_block(&hosts(&[]), "t").is_empty());
}

#[test]
fn marker_and_anchor_are_the_fixed_tokens() {
    assert_eq!(MARKER, " # Added by cert-fixer");
    assert_eq!(ANCHOR_TOKEN, ".:53 {");
}

#[test]
fn managed_lines_are_told_by_the_marker() {
    assert!(line_is_managed(&entry_line("h", "t")));
    assert!(line_is_managed(&chars("x # Added by cert-fixer and more")));
    assert!(!line_is_managed(&chars("x #Added by cert-fixer")));
    assert!(!line_is_managed(&chars("# Added by cert-fixer")));
    assert!(!line_is_managed(&chars("    log")));
    assert!(!line_is_managed(&chars("")));
}

#[test]
fn anchor_lines_are_told_by_the_token() {
    assert!(line_is_anchor(&chars(".:53 {")));
    assert!(line_is_anchor(&chars("  .:53 { ")));
    assert!(!line_is_anchor(&chars(".:53{")));
    assert!(!line_is_anchor(&chars(".:53")));
    assert!(!line_is_anchor(&chars("")));
}

#[test]
fn parse_splits_at_line_breaks() {
    let lines = |s: &str| -> Vec<String> {
        Corefile::parse(s).lines.iter().map(|l| text(l)).collect()
    };
    assert_eq!(lines(""), Vec::<String>::new());
    assert_eq!(lines("a"), vec!["a"]);
    assert_eq!(lines("a\n"), vec!["a"]);
    assert_eq!(lines("\n"), vec![""]);
    assert_eq!(lines("a\n\nb"), vec!["a", "", "b"]);
    assert_eq!(lines("a\n\n"), vec!["a", ""]);
    assert_eq!(lines("a\r\nb"), vec!["a\r", "b"]);
}

#[test]
fn render_ends_each_line_with_one_line_break() {
    assert_eq!(Corefile::parse("a\n\nb").render(), "a\n\nb\n");
    assert_eq!(Corefile::parse("").render(), "");
    assert_eq!(Corefile::parse("\n").render(), "\n");
    assert_eq!(Corefile { lines: vec![chars("x"), chars("")] }.render(), "x\n\n");
}

#[test]
fn corefile_steps_do_what_patch_does() {
    let mut doc = Corefile::parse("a # Added by cert-fixer\nb\n.:53 {\nc\n");
    doc.remove_managed();
    assert_eq!(doc.render(), "b\n.:53 {\nc\n");
    assert_eq!(doc.anchor(), Some(1));
    doc.insert_block(2, vec![chars("x"), chars("y")]);
    assert_eq!(doc.render(), "b\n.:53 {\nx\ny\nc\n");
    doc.insert_block(0, vec![]);
    doc.insert_block(5, vec![chars("end")]);
    assert_eq!(doc.render(), "b\n.:53 {\nx\ny\nc\nend\n");
}

#[test]
fn corefile_patch_without_anchor_still_drops_managed_lines() {
    let mut doc = Corefile::parse("a # Added by cert-fixer\nb\n");
    assert_eq!(doc.anchor(), None);
    assert_eq!(doc.patch(&hosts(&["h"]), "t"), Err(ConfigFormatError::MissingAnchor));
    assert_eq!(doc.render(), "b\n");
}

#[test]
fn corefile_patch_puts_the_block_in() {
    let mut doc = Corefile::parse(".:53 {\n}");
    assert_eq!(doc.patch(&hosts(&["h"]), "t"), Ok(()));
    assert_eq!(doc.lines.len(), 3);
    assert_eq!(text(&doc.lines[1]), "    rewrite name h t  # Added by cert-fixer");
}
