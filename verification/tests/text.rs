use slickbench::datasets::text::field_before_tab;
use slickbench::datasets::{norvig, wikipedia};

#[test]
fn norvig_words_take_the_first_field() {
    let text = "the\t23135851162\nof\t13151942776\r\nand\t12997637966\nplain";
    assert_eq!(norvig::words(text, 10), vec!["the", "of", "and", "plain"]);
    assert_eq!(norvig::words(text, 2), vec!["the", "of"]);
    assert_eq!(norvig::words("", 5), Vec::<String>::new());
    assert_eq!(norvig::words("a\n\nb\n", 5), vec!["a", "", "b"]);
}

#[test]
fn norvig_from_text_shuffles_the_prefix() {
    let d = norvig::from_text("x\t1\ny\t2\nz\t3\n", 2, 7);
    assert_eq!(d.name, "norvig");
    let mut k = d.keys.clone();
    k.sort();
    assert_eq!(k, vec!["x", "y"]);
}

#[test]
fn wikipedia_titles_are_trimmed_and_non_empty() {
    let text = "  Alan Turing \n\n\u{3000}Ada\u{a0}\r\n \t \nEnd\r";
    assert_eq!(wikipedia::titles(text, 10), vec!["Alan Turing", "Ada", "End"]);
    assert_eq!(wikipedia::titles(text, 1), vec!["Alan Turing"]);
    let d = wikipedia::from_text(text, 2, 3);
    assert_eq!(d.name, "wikipedia");
    let mut k = d.keys.clone();
    k.sort();
    assert_eq!(k, vec!["Ada", "Alan Turing"]);
}

#[test]
fn field_before_tab_stops_at_the_first_tab() {
    assert_eq!(field_before_tab("a\tb\tc"), "a");
    assert_eq!(field_before_tab("no tab"), "no tab");
    assert_eq!(field_before_tab("\tlead"), "");
    assert_eq!(field_before_tab("é\tx"), "é");
}
