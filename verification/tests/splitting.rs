use tmux_commands::text::{chars_of, split, string_of};

fn split_parts(text: &str, sep: char) -> Vec<String> {
    let chars = chars_of(text);
    split(&chars, sep).into_iter().map(string_of).collect()
}

#[test]
fn a_text_is_split_as_std_splits_it() {
    for text in ["", " ", "a", "a b", " a", "a ", "a  b", "a b\nc d\n", "é €", "\n\n"] {
        for sep in [' ', '\n', 'é'] {
            let parts = split_parts(text, sep);
            let expected: Vec<&str> = text.split(sep).collect();
            assert_eq!(parts, expected);
        }
    }
}

#[test]
fn splitting_and_joining_undo_each_other() {
    let parts = ["$1", "@2", "", "%3"];
    assert_eq!(split_parts(&parts.join(" "), ' '), parts);
    for text in ["", " ", "a b", "a  b "] {
        assert_eq!(split_parts(text, ' ').join(" "), text);
    }
}

#[test]
fn characters_make_up_the_string_again() {
    for text in ["", "abc", "é€\u{1f600}\n"] {
        assert_eq!(string_of(&chars_of(text)), text);
    }
}
