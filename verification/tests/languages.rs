use quickaccent::languages::replace_quoted_languages;
use quickaccent::replace_languages;

fn names(list: &[&str]) -> Vec<String> {
    list.iter().map(|s| s.to_string()).collect()
}

#[test]
fn replace_languages_keeps_everything_else() {
    let langs = ["German".to_string(), "Spanish".to_string()];
    let doc = "# QuickAccent Configuration\n# comment\n\nlanguages = [\"French\"]\n\n# hold\n# hold_delay_ms = 250\ninput_time_ms = 100\n";
    let out = replace_languages(doc, &langs);
    assert_eq!(
        out,
        "# QuickAccent Configuration\n# comment\n\nlanguages = [\"German\", \"Spanish\"]\n\n# hold\n# hold_delay_ms = 250\ninput_time_ms = 100\n"
    );
    let parsed: toml::Table = toml::from_str(&out).unwrap();
    let parsed_langs: Vec<String> = parsed["languages"]
        .as_array()
        .unwrap()
        .iter()
        .map(|v| v.as_str().unwrap().to_string())
        .collect();
    assert_eq!(parsed_langs, langs);
    assert_eq!(parsed["input_time_ms"].as_integer(), Some(100));
}

#[test]
fn replace_languages_handles_multiline_missing_and_lookalikes() {
    let langs = ["Welsh".to_string()];
    let multi = "languages = [\n  \"French\",\n  \"German\",\n]\nhold_delay_ms = 300\n";
    assert_eq!(replace_languages(multi, &langs), "languages = [\"Welsh\"]\nhold_delay_ms = 300\n");
    // Commented-out or similarly named keys are left alone; a missing key is appended.
    let none = "# languages = [\"French\"]\nlanguages_extra = 1\n";
    assert_eq!(
        replace_languages(none, &langs),
        "# languages = [\"French\"]\nlanguages_extra = 1\n\nlanguages = [\"Welsh\"]\n"
    );
    assert_eq!(replace_languages("", &[]), "languages = []\n");
}

#[test]
fn names_are_written_as_quoted_literals() {
    let out = replace_languages("", &names(&["Say \"hi\"", "back\\slash"]));
    assert_eq!(out, "languages = [\"Say \\\"hi\\\"\", \"back\\\\slash\"]\n");
}

#[test]
fn only_the_first_assignment_is_replaced() {
    let doc = "languages = [\"French\"]\nlanguages = [\"German\"]\n";
    assert_eq!(
        replace_languages(doc, &names(&["Irish"])),
        "languages = [\"Irish\"]\nlanguages = [\"German\"]\n"
    );
}

#[test]
fn indented_and_spaced_assignments_are_found() {
    let doc = "  languages\t=   [\"French\"]\nx = 1";
    assert_eq!(replace_languages(doc, &names(&["Czech"])), "languages = [\"Czech\"]\nx = 1");
}

#[test]
fn an_unclosed_array_runs_to_the_end() {
    let doc = "a = 1\nlanguages = [\n\"French\",\n";
    assert_eq!(replace_languages(doc, &names(&["Maori"])), "a = 1\nlanguages = [\"Maori\"]\n");
}

#[test]
fn crlf_line_endings_are_kept() {
    let doc = "a = 1\r\nlanguages = [\"French\"]\r\nb = 2";
    assert_eq!(
        replace_languages(doc, &names(&["Greek"])),
        "a = 1\r\nlanguages = [\"Greek\"]\r\nb = 2"
    );
    let doc = "a = 1\r\nlanguages = [\r\n  \"French\",\r\n]\r\n";
    assert_eq!(replace_languages(doc, &names(&["Greek"])), "a = 1\r\nlanguages = [\"Greek\"]\r\n");
    assert_eq!(
        replace_languages("a = 1\r\n\r\n", &names(&["Greek"])),
        "a = 1\r\n\r\nlanguages = [\"Greek\"]\n"
    );
}

#[test]
fn a_comment_after_the_array_is_kept() {
    let doc = "languages = [\"French\"] # my sets\nx = 1\n";
    assert_eq!(
        replace_languages(doc, &names(&["Welsh"])),
        "languages = [\"Welsh\"] # my sets\nx = 1\n"
    );
    let doc = "languages = [\n  \"French\",\n]  # end of list\n";
    assert_eq!(replace_languages(doc, &names(&["Welsh"])), "languages = [\"Welsh\"]  # end of list\n");
}

#[test]
fn brackets_inside_strings_and_comments_do_not_end_the_array() {
    let doc = r#"languages = [
  "Fr]ench", # not ] here
  'Ger]man',
  """a]""", '''b]''',
  "esc\"]",
]
x = 1
"#;
    assert_eq!(replace_languages(doc, &names(&["Welsh"])), "languages = [\"Welsh\"]\nx = 1\n");
    let nested = "languages = [[\"a\"], [\"b\"]]\ny = 2\n";
    assert_eq!(replace_languages(nested, &names(&["Welsh"])), "languages = [\"Welsh\"]\ny = 2\n");
}

#[test]
fn a_value_that_is_not_an_array_is_replaced_up_to_its_line_end() {
    let doc = "languages = \"French\"\r\nx = 1\r\n";
    assert_eq!(replace_languages(doc, &names(&["Welsh"])), "languages = [\"Welsh\"]\r\nx = 1\r\n");
}

#[test]
fn appending_after_a_blank_line_adds_no_second_one() {
    assert_eq!(
        replace_languages("a = 1\n\n", &names(&["Welsh"])),
        "a = 1\n\nlanguages = [\"Welsh\"]\n"
    );
    assert_eq!(
        replace_languages("a = 1", &names(&["Welsh"])),
        "a = 1\n\nlanguages = [\"Welsh\"]\n"
    );
    assert_eq!(replace_languages("\n", &names(&["Welsh"])), "\n\nlanguages = [\"Welsh\"]\n");
}

#[test]
fn a_second_write_replaces_the_first() {
    let doc = "# settings\nhold_delay_ms = 300\nlanguages = [\n  \"French\",\n]\n# end";
    let once = replace_languages(doc, &names(&["German", "Spanish"]));
    let twice = replace_languages(&once, &names(&["Welsh"]));
    assert_eq!(twice, replace_languages(doc, &names(&["Welsh"])));
    assert_eq!(replace_languages(&once, &names(&["German", "Spanish"])), once);
    let appended = replace_languages("a = 1", &names(&["Welsh"]));
    assert_eq!(replace_languages(&appended, &names(&["Irish"])), replace_languages("a = 1", &names(&["Irish"])));
}

#[test]
fn quoted_names_are_written_as_given() {
    let doc = "x = 1\nlanguages = [\"French\"]\n";
    assert_eq!(
        replace_quoted_languages(doc, &names(&["'Irish'", "\"Welsh\""])),
        "x = 1\nlanguages = ['Irish', \"Welsh\"]\n"
    );
    assert_eq!(replace_quoted_languages("", &names(&["A"])), "languages = [A]\n");
}

#[test]
fn an_array_that_starts_on_the_next_line_is_replaced_whole() {
    let doc = "languages =\n[\"French\",\n \"German\"]\nx = 1\n";
    assert_eq!(replace_languages(doc, &names(&["Welsh"])), "languages = [\"Welsh\"]\nx = 1\n");
}
