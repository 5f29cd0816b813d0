use lottery_fmt::dictionary::Dictionary;
use lottery_fmt::format::format_lottery_output;
use lottery_fmt::passes::{localize_units, translate_names, translate_parentheticals};
use lottery_fmt::pipeline::translate_and_format;

#[test]
fn unknown_term_learned_once() {
    let mut d = Dictionary::new();
    assert_eq!(d.translate("Foo"), "Foo");
    assert_eq!(d.entries().len(), 1);
    assert_eq!(d.translate("Foo"), "Foo");
    assert_eq!(d.entries().len(), 1);
    assert_eq!(d.unresolved(), vec!["Foo".to_string()]);
}

#[test]
fn known_term_returned_verbatim() {
    let mut d = Dictionary::new();
    d.insert_stored("Govisetha", " ගොවිසෙත ");
    assert_eq!(d.translate("Govisetha"), " ගොවිසෙත ");
    assert!(d.unresolved().is_empty());
}

#[test]
fn padded_and_trimmed_terms_share_an_entry() {
    let mut d = Dictionary::new();
    assert_eq!(d.translate(" Foo "), "Foo");
    assert_eq!(d.translate("Foo"), "Foo");
    let e = d.entries();
    assert_eq!(e, vec![("Foo".to_string(), "<<<Foo>>>".to_string())]);
}

#[test]
fn stored_entries_keep_the_first_trimmed_key() {
    let mut d = Dictionary::new();
    d.insert_stored("  Foo ", "one");
    d.insert_stored("Foo", "two");
    assert_eq!(d.entries(), vec![("Foo".to_string(), "one".to_string())]);
    assert_eq!(d.translate("Foo"), "one");
}

#[test]
fn unresolved_lists_only_placeholders() {
    let mut d = Dictionary::new();
    d.insert_stored("Known", "ok");
    d.insert_stored("Pending", "<<<Pending>>>");
    d.translate("Fresh");
    let mut u = d.unresolved();
    u.sort();
    assert_eq!(u, vec!["Fresh".to_string(), "Pending".to_string()]);
}

#[test]
fn continuation_joins_named_entry() {
    let mut names = Dictionary::new();
    let a = translate_names("Jayamalla 123: Rs.1000000 lakhs\nbonus line\n", &mut names);
    assert_eq!(a, "Jayamalla 123: Rs.1000000 lakhs\nbonus line\n");
    let b = localize_units(&a);
    assert_eq!(b, "Jayamalla 123: Rs.1000000 ලක්ෂ\nbonus line\n");
    let out = format_lottery_output(&b);
    assert_eq!(out, "**Jayamalla 123**: Rs.1000000 ලක්ෂ bonus line\n\n");
    assert_eq!(names.unresolved(), vec!["Jayamalla".to_string()]);
}

#[test]
fn date_header_flushes_open_entry() {
    let out = format_lottery_output("Govisetha: 100\n2025-09-10\n");
    assert_eq!(out, "**Govisetha**: 100\n\n\n📅 **2025-09-10**\n\n");
}

#[test]
fn filtered_lines_do_not_end_an_entry() {
    let out = format_lottery_output("Govisetha: 100\n-\n  Rs.500\n200\n");
    assert_eq!(out, "**Govisetha**: 100 200\n\n");
}

#[test]
fn empty_lines_do_not_end_an_entry() {
    let out = format_lottery_output("Govisetha: 100\n\n   \n200");
    assert_eq!(out, "**Govisetha**: 100 200\n\n");
}

#[test]
fn orphan_line_written_alone() {
    assert_eq!(format_lottery_output("  hello world \n"), "hello world\n\n");
}

#[test]
fn empty_input_gives_empty_message() {
    assert_eq!(format_lottery_output(""), "");
}

#[test]
fn draw_number_joins_label() {
    let out = format_lottery_output("Ada Kotipathi 2345: 12 (wonder) 34");
    assert_eq!(out, "**Ada Kotipathi 2345**: 12 (**wonder**) 34\n\n");
}

#[test]
fn spaced_draw_number_stays_in_name() {
    let out = format_lottery_output("Mahajana Sampatha 5 - 1234\r\n");
    assert_eq!(out, "**Mahajana Sampatha 5**: 1234\n\n");
}

#[test]
fn parenthetical_term_round_trip() {
    let mut parens = Dictionary::new();
    let out = translate_parentheticals("win (wonder) now", &mut parens);
    assert_eq!(out, "win (wonder) now");
    assert_eq!(parens.unresolved(), vec!["wonder".to_string()]);
    assert_eq!(parens.translate("wonder"), "wonder");
    assert_eq!(parens.entries(), vec![("wonder".to_string(), "<<<wonder>>>".to_string())]);
}

#[test]
fn parenthetical_terms_translated_left_to_right() {
    let mut parens = Dictionary::new();
    parens.insert_stored("agro", "කෘෂි");
    let out = translate_parentheticals("(agro)(x_1) (a-b) () (ලක්ෂ)", &mut parens);
    assert_eq!(out, "(කෘෂි)(x_1) (a-b) () (ලක්ෂ)");
    let mut u = parens.unresolved();
    u.sort();
    assert_eq!(u, vec!["x_1".to_string(), "ලක්ෂ".to_string()]);
}

#[test]
fn unit_word_replaced_only_as_whole_word() {
    assert_eq!(
        localize_units("5 lakhs, (lakhs) 5lakhs lakhsx lakhs"),
        "5 ලක්ෂ, (ලක්ෂ) 5lakhs lakhsx ලක්ෂ"
    );
    assert_eq!(localize_units("alakhs ලlakhs"), "alakhs ලlakhs");
}

#[test]
fn name_pass_replaces_leading_name_only() {
    let mut names = Dictionary::new();
    names.insert_stored("Govisetha", "ගොවිසෙත");
    let out = translate_names("Govisetha: Govisetha 5\n12 Govisetha: 1\nSuper Ball 12 - 3", &mut names);
    assert_eq!(out, "ගොවිසෙත: Govisetha 5\n12 Govisetha: 1\nSuper Ball 12 - 3");
    assert_eq!(names.unresolved(), vec!["Super Ball".to_string()]);
}

#[test]
fn end_to_end_message() {
    let mut names = Dictionary::new();
    let mut parens = Dictionary::new();
    let out = translate_and_format(
        "Jayamalla 2025-09-10\nGovisetha: Rs.500000 (agro) lakhs\n",
        &mut names,
        &mut parens,
    );
    assert_eq!(
        out,
        "\n📅 **Jayamalla 2025-09-10**\n\n**Govisetha**: Rs.500000 (**agro**) ලක්ෂ\n\n"
    );
    let mut u = names.unresolved();
    u.sort();
    assert_eq!(u, vec!["Govisetha".to_string(), "Jayamalla".to_string()]);
    assert_eq!(parens.unresolved(), vec!["agro".to_string()]);
}

#[test]
fn end_to_end_with_known_terms() {
    let mut names = Dictionary::new();
    let mut parens = Dictionary::new();
    names.insert_stored("Jayamalla", "ජයමල්ල");
    names.insert_stored("Govisetha", "ගොවිසෙත");
    parens.insert_stored("agro", "කෘෂි");
    let out = translate_and_format(
        "Jayamalla 2025-09-10\nGovisetha: Rs.500000 (agro) lakhs\n",
        &mut names,
        &mut parens,
    );
    assert_eq!(
        out,
        "\n📅 **ජයමල්ල 2025-09-10**\n\n**ගොවිසෙත**: Rs.500000 (**කෘෂි**) ලක්ෂ\n\n"
    );
    assert!(names.unresolved().is_empty());
    assert!(parens.unresolved().is_empty());
}

#[test]
fn stored_placeholder_gives_the_term() {
    let mut d = Dictionary::new();
    d.insert_stored("Pending", "<<<Pending>>>");
    d.insert_stored("Odd", "<<<Other>>>");
    assert_eq!(d.translate(" Pending"), "Pending");
    assert_eq!(d.translate("Odd"), "<<<Other>>>");
    assert_eq!(d.entries().len(), 2);
}

#[test]
fn unicode_digits_make_a_date_header() {
    let out = format_lottery_output("Govisetha: 1\n२०२५-०९-१०\n");
    assert_eq!(out, "**Govisetha**: 1\n\n\n📅 **२०२५-०९-१०**\n\n");
}

#[test]
fn unicode_draw_number_in_label_and_name_pass() {
    assert_eq!(format_lottery_output("Foo ١٢: x"), "**Foo ١٢**: x\n\n");
    let mut names = Dictionary::new();
    names.insert_stored("Foo", "ෆූ");
    assert_eq!(translate_names("Foo ١٢: x", &mut names), "ෆූ ١٢: x");
}

#[test]
fn inserted_filtered_line_changes_nothing() {
    let plain = format_lottery_output("Govisetha: 1\n2\nJayamalla: 3\n");
    let with_dash = format_lottery_output("Govisetha: 1\n-  \n2\nJayamalla: 3\n");
    let with_amount = format_lottery_output("Govisetha: 1\n2\n Rs.100 \nJayamalla: 3\n");
    assert_eq!(plain, "**Govisetha**: 1 2\n\n**Jayamalla**: 3\n\n");
    assert_eq!(with_dash, plain);
    assert_eq!(with_amount, plain);
}
