use vulture::hocr::parse_box;

#[test]
fn parses_a_typical_word_line() {
    let line = "<span class='ocrx_word' id='word_1_2' title='bbox 10 10 50 50; x_wconf 95'>7</span>";
    let w = parse_box(line).expect("line carries a word");
    assert_eq!((w.x1, w.y1, w.x2, w.y2), (10, 10, 50, 50));
    assert_eq!(w.confidence, 95);
    assert_eq!(w.text, "7");
}

#[test]
fn skips_low_confidence_words() {
    let line = "<span title='bbox 10 10 50 50; x_wconf 20'>7</span>";
    assert!(parse_box(line).is_none());
}

#[test]
fn takes_the_first_confident_word_and_the_last_text_window() {
    let line = "<span title='bbox 1 2 3 4; x_wconf 20'>5</span><span title='bbox 6 7 8 9; x_wconf 80'>42</span>";
    let w = parse_box(line).expect("second word is confident enough");
    assert_eq!((w.x1, w.y1, w.x2, w.y2), (6, 7, 8, 9));
    assert_eq!(w.confidence, 80);
    assert_eq!(w.text, "42");
}

#[test]
fn rejects_lines_without_a_word() {
    assert!(parse_box("").is_none());
    assert!(parse_box("<p class='ocr_par'>").is_none());
    assert!(parse_box("bbox 1 2 3 4; nothing else").is_none());
}

#[test]
fn rejects_fields_that_do_not_fit() {
    let line = "<span title='bbox 99999999999 10 50 50; x_wconf 95'>7</span>";
    assert!(parse_box(line).is_none());
}

#[test]
fn empty_text_window_is_kept_as_empty() {
    let line = "<span title='bbox 10 10 50 50; x_wconf 95'></span>";
    let w = parse_box(line).expect("structure is complete");
    assert_eq!(w.text, "");
}
