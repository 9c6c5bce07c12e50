use osap_host::speech::voiceover::{applescript_string, output_script};

#[test]
fn a_quote_in_a_plugin_label_cannot_end_the_script() {
    assert_eq!(applescript_string("a4, +12 cents"), "a4, +12 cents");
    assert_eq!(applescript_string("say \"hi\""), "say \\\"hi\\\"");
    assert_eq!(applescript_string("C:\\path"), "C:\\\\path");
    assert_eq!(applescript_string("two\nlines"), "two lines");
}

#[test]
fn the_script_says_one_line_through_voiceover() {
    assert_eq!(output_script("a \"b\""), "tell application \"VoiceOver\" to output \"a \\\"b\\\"\"");
}
