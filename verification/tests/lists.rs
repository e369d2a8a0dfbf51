use rnote_core::edit::{RangedTextAttribute, TextAlignment, TextAttribute, TextStroke, TextStyle};
use rnote_core::lists::TextCursor;
use rnote_core::reflow::{Indent, Line};
use rnote_core::softbreak::{contains_soft_break, soft_break_before, soft_break_ranges};
use rnote_core::syntax::{
    bullet_for_level, is_indent_char, list_item_at, list_items, paragraph_ranges, Marker,
    HAIR_SPACE, SOFT_BREAK,
};
use rnote_core::whitespace::{is_blank, is_white_space};

fn textstroke(text: &str) -> TextStroke {
    TextStroke {
        text: text.to_string(),
        text_style: TextStyle {
            ranged_text_attributes: Vec::new(),
            alignment: TextAlignment::Start,
            wraps: false,
        },
    }
}

fn cursor_at(textstroke: &TextStroke, pos: usize) -> TextCursor {
    TextCursor::new(pos, textstroke.text.len())
}

/// A layout that can't lay out anything.
fn no_layout(_: &TextStroke) -> Option<Vec<Line>> {
    None
}

/// Lays text out with characters that are all one unit wide, breaking lines behind spaces.
fn layout_with_width(ts: &TextStroke, width: usize) -> Option<Vec<Line>> {
    let text = &ts.text;
    let mut starts = vec![0];
    let mut line_start = 0;
    let mut last_gap = None;
    for (i, c) in text.char_indices() {
        if c == '\n' || c == SOFT_BREAK {
            line_start = i + c.len_utf8();
            starts.push(line_start);
            last_gap = None;
            continue;
        }
        if !is_indent_char(c) && text[line_start..i].chars().count() >= width {
            if let Some(gap) = last_gap {
                line_start = gap;
                starts.push(gap);
                last_gap = None;
            }
        }
        if c == ' ' && !text[line_start..i].chars().all(is_indent_char) {
            last_gap = Some(i + 1);
        }
    }
    Some(
        starts
            .into_iter()
            .map(|start| Line {
                start,
                indent: list_item_at(text, start).map(|item| Indent {
                    spaces: text[item.start..item.content_start].chars().count() - 1,
                    hair_spaces: 1,
                }),
            })
            .collect(),
    )
}

#[test]
fn parses_list_items() {
    let text = "• a\n\t◦ b\n12. c\n3) d\nplain\n•no space\n1.5 e";
    let items = list_items(text);

    assert_eq!(items.len(), 4);
    assert_eq!(items[0].marker, Marker::Bullet('•'));
    assert_eq!(items[1].level, 1);
    assert_eq!(&text[items[1].content_start..items[1].end], "b");
    assert_eq!(items[2].marker, Marker::Number { n: 12, delim: '.' });
    assert_eq!(items[3].marker, Marker::Number { n: 3, delim: ')' });
}

#[test]
fn typed_dash_becomes_a_bullet() {
    let mut ts = textstroke("intro\n\t- ");
    let mut cursor = cursor_at(&ts, ts.text.len());

    assert!(ts.update_lists(&mut cursor, None, Some(" "), &no_layout));
    assert_eq!(ts.text, "intro\n\t◦ ");
    assert_eq!(cursor.cur_cursor(), ts.text.len());

    // Not at the start of a paragraph.
    let mut ts = textstroke("a - ");
    let mut cursor = cursor_at(&ts, ts.text.len());
    assert!(!ts.update_lists(&mut cursor, None, Some(" "), &no_layout));
    assert_eq!(ts.text, "a - ");
}

#[test]
fn newline_continues_and_ends_the_list() {
    let mut ts = textstroke("1. first");
    let mut cursor = cursor_at(&ts, ts.text.len());

    assert!(ts.list_newline(&mut cursor, &no_layout));
    assert_eq!(ts.text, "1. first\n2. ");
    assert_eq!(cursor.cur_cursor(), ts.text.len());

    // On the empty item the list ends.
    assert!(ts.list_newline(&mut cursor, &no_layout));
    assert_eq!(ts.text, "1. first\n");
    assert_eq!(cursor.cur_cursor(), ts.text.len());

    // Outside of lists nothing happens.
    assert!(!ts.list_newline(&mut cursor, &no_layout));
}

#[test]
fn newline_in_an_empty_nested_item_outdents() {
    let mut ts = textstroke("• a\n\t◦ ");
    let mut cursor = cursor_at(&ts, ts.text.len());

    assert!(ts.list_newline(&mut cursor, &no_layout));
    assert_eq!(ts.text, "• a\n• ");
    assert_eq!(cursor.cur_cursor(), ts.text.len());
}

#[test]
fn newline_splits_an_item() {
    let mut ts = textstroke("• ab");
    let mut cursor = cursor_at(&ts, "• a".len());

    assert!(ts.list_newline(&mut cursor, &no_layout));
    assert_eq!(ts.text, "• a\n• b");
    assert_eq!(cursor.cur_cursor(), "• a\n• ".len());
}

#[test]
fn tab_changes_the_level_and_renumbers() {
    let mut ts = textstroke("1. a\n2. b\n3. c");
    let mut cursor = cursor_at(&ts, "1. a\n2. b".len());

    assert!(ts.list_change_level(&mut cursor, None, false, &no_layout));
    assert_eq!(ts.text, "1. a\n\t1. b\n2. c");
    assert_eq!(cursor.cur_cursor(), "1. a\n\t1. b".len());

    assert!(ts.list_change_level(&mut cursor, None, true, &no_layout));
    assert_eq!(ts.text, "1. a\n2. b\n3. c");
    assert_eq!(cursor.cur_cursor(), "1. a\n2. b".len());
}

#[test]
fn tab_changes_all_selected_items() {
    let mut ts = textstroke("• a\n• b\nplain");
    let mut cursor = cursor_at(&ts, 0);
    let mut selection_cursor = cursor_at(&ts, ts.text.len());

    assert!(ts.list_change_level(&mut cursor, Some(&mut selection_cursor), false, &no_layout));
    assert_eq!(ts.text, "\t◦ a\n\t◦ b\nplain");
    assert_eq!(selection_cursor.cur_cursor(), ts.text.len());

    let mut ts = textstroke("plain");
    let mut cursor = cursor_at(&ts, 2);
    assert!(!ts.list_change_level(&mut cursor, None, false, &no_layout));
}

#[test]
fn backspace_removes_the_marker() {
    let mut ts = textstroke("\t◦ a");
    let mut cursor = cursor_at(&ts, "\t◦ ".len());

    assert!(ts.list_backspace(&mut cursor, &no_layout));
    assert_eq!(ts.text, "\ta");
    assert_eq!(cursor.cur_cursor(), 1);
}

#[test]
fn delete_merges_the_next_item_without_its_marker() {
    let mut ts = textstroke("• a\n• b");
    let mut cursor = cursor_at(&ts, "• a".len());

    assert!(ts.list_delete(&mut cursor, &no_layout));
    assert_eq!(ts.text, "• ab");
    assert_eq!(cursor.cur_cursor(), "• a".len());
}

#[test]
fn soft_breaks_are_invisible_to_the_cursor_and_the_clipboard() {
    let text = format!("• one two{SOFT_BREAK}  {HAIR_SPACE}three");
    let ts = textstroke(&text);
    let break_start = "• one two".len();
    let content_start = text.len() - "three".len();

    assert_eq!(
        ts.normalized_cursor_pos(break_start + 4, true),
        content_start
    );
    assert_eq!(
        ts.normalized_cursor_pos(break_start + 4, false),
        break_start
    );
    assert_eq!(ts.normalized_cursor_pos(content_start, true), content_start);
    // Inside the marker
    assert_eq!(ts.normalized_cursor_pos(0, true), "• ".len());
    assert_eq!(ts.text_without_soft_breaks(0..text.len()), "• one twothree");
}

#[test]
fn attributes_keep_their_place_and_get_merged() {
    let mut ts = textstroke("• a");
    ts.text_style.ranged_text_attributes = vec![
        RangedTextAttribute {
            range: 0.."• a".len(),
            attribute: TextAttribute::Underline(true),
        },
        RangedTextAttribute {
            range: "• a".len().."• a".len(),
            attribute: TextAttribute::Underline(true),
        },
    ];
    let mut positions = vec![ts.text.len()];

    ts.replace_range_mapped(0..0, "x", &mut positions);
    assert_eq!(positions, [ts.text.len()]);
    assert_eq!(ts.text_style.ranged_text_attributes.len(), 1);
    assert_eq!(
        ts.text_style.ranged_text_attributes[0].range,
        1..ts.text.len()
    );

    ts.text_style
        .ranged_text_attributes
        .push(RangedTextAttribute {
            range: ts.text.len()..ts.text.len() + 2,
            attribute: TextAttribute::Underline(true),
        });
    ts.merge_adjacent_attrs();
    assert_eq!(ts.text_style.ranged_text_attributes.len(), 1);
    assert_eq!(
        ts.text_style.ranged_text_attributes[0].range,
        1..ts.text.len() + 2
    );
}

#[test]
fn wrapped_items_get_a_hanging_indent() {
    let layout = |ts: &TextStroke| layout_with_width(ts, 40);
    let mut ts = textstroke("");
    ts.text_style.wraps = true;
    ts.text = format!(
        "• {}\nplain {}",
        "word ".repeat(20).trim_end(),
        "word ".repeat(20).trim_end()
    );
    let mut cursor = cursor_at(&ts, ts.text.len());

    assert!(ts.update_lists(&mut cursor, None, None, &layout));
    assert!(ts.text.contains(SOFT_BREAK));
    // Only the list item gets automatic line breaks.
    assert!(!ts.text.split('\n').nth(1).unwrap().contains(SOFT_BREAK));
    assert_eq!(cursor.cur_cursor(), ts.text.len());

    // The wrapped lines of the item start at the same x as its text.
    let content_x = "• ".chars().count();
    for (start, _) in ts.text.match_indices(SOFT_BREAK) {
        let line_content = soft_break_before(&ts.text, start + SOFT_BREAK.len_utf8())
            .unwrap()
            .end;
        let x = ts.text[start..line_content].chars().count() - 1;
        assert_eq!(x, content_x);
    }

    // Updating again does not change anything, and the clipboard text is the original one.
    let text = ts.text.clone();
    assert!(!ts.update_lists(&mut cursor, None, None, &layout));
    assert_eq!(ts.text, text);
    assert!(ts
        .text_without_soft_breaks(0..ts.text.len())
        .starts_with(&format!("• {}", "word ".repeat(20).trim_end())));
}

#[test]
fn long_items_are_broken_at_every_wrap() {
    let layout = |ts: &TextStroke| layout_with_width(ts, 10);
    let mut ts = textstroke("1. aa bb cc dd ee");
    ts.text_style.wraps = true;
    let mut positions = vec![0];
    ts.reflow_list_items(&mut positions, &layout);
    // Two spaces and a hair space in front of the second line.
    assert_eq!(
        ts.text,
        format!("1. aa bb {SOFT_BREAK}  {HAIR_SPACE}cc dd {SOFT_BREAK}  {HAIR_SPACE}ee")
    );

    // Text that is not aligned at the start is left alone.
    let mut ts = textstroke("1. aa bb cc dd ee");
    ts.text_style.wraps = true;
    ts.text_style.alignment = TextAlignment::Center;
    ts.reflow_list_items(&mut positions, &layout);
    assert_eq!(ts.text, "1. aa bb cc dd ee");
}

#[test]
fn wraps_without_room_for_the_indentation_are_skipped() {
    let mut ts = textstroke("• aaa bbb");
    let wrap = "• aaa ".len();
    let mut skipped = Vec::new();
    let mut positions = vec![ts.text.len()];
    let lines = vec![
        Line { start: 0, indent: None },
        Line { start: wrap, indent: None },
    ];
    assert!(ts.reflow_round(&lines, &mut skipped, &mut positions));
    assert_eq!(skipped, [wrap]);
    assert_eq!(ts.text, "• aaa bbb");
    // Then there is nothing left to do.
    assert!(!ts.reflow_round(&lines, &mut skipped, &mut positions));

    // A line with nothing but the indentation loses it again.
    let mut ts = textstroke(&format!("• aaa {SOFT_BREAK}  bbb"));
    let content = ts.text.len() - "bbb".len();
    let mut skipped = Vec::new();
    let lines = vec![
        Line { start: 0, indent: None },
        Line { start: wrap + SOFT_BREAK.len_utf8(), indent: None },
        Line { start: content, indent: Some(Indent { spaces: 2, hair_spaces: 0 }) },
    ];
    assert!(ts.reflow_round(&lines, &mut skipped, &mut positions));
    assert_eq!(skipped, [wrap]);
    assert_eq!(ts.text, "• aaa bbb");
}

#[test]
fn inserted_indentation_gets_no_attributes() {
    let mut ts = textstroke("• aaa bbb");
    ts.text_style.ranged_text_attributes = vec![RangedTextAttribute {
        range: 0..ts.text.len(),
        attribute: TextAttribute::FontWeight(700),
    }];
    let wrap = "• aaa ".len();
    let mut skipped = Vec::new();
    let mut positions = vec![0, wrap, ts.text.len()];
    let lines = vec![
        Line { start: 0, indent: None },
        Line { start: wrap, indent: Some(Indent { spaces: 2, hair_spaces: 1 }) },
    ];
    assert!(ts.reflow_round(&lines, &mut skipped, &mut positions));
    let added = SOFT_BREAK.len_utf8() + 2 + HAIR_SPACE.len_utf8();
    assert_eq!(ts.text, format!("• aaa {SOFT_BREAK}  {HAIR_SPACE}bbb"));
    assert_eq!(positions, [0, wrap + added, ts.text.len()]);
    let ranges: Vec<_> = ts
        .text_style
        .ranged_text_attributes
        .iter()
        .map(|a| a.range.clone())
        .collect();
    assert_eq!(ranges, [0..wrap, wrap + added..ts.text.len()]);
}

#[test]
fn backspace_and_delete_reach_over_soft_breaks() {
    // A letter with a combining accent is one character for the user.
    let text = format!("• one e\u{301}{SOFT_BREAK}  two");
    let content = text.len() - "two".len();

    let mut ts = textstroke(&text);
    let mut cursor = cursor_at(&ts, content);
    assert!(ts.list_backspace(&mut cursor, &no_layout));
    assert_eq!(ts.text, "• one two");
    assert_eq!(cursor.cur_cursor(), "• one ".len());
    assert_eq!(cursor, cursor_at(&ts, "• one ".len()));

    let text = format!("• one {SOFT_BREAK}  e\u{301}two");
    let mut ts = textstroke(&text);
    let mut cursor = cursor_at(&ts, "• one ".len());
    assert!(ts.list_delete(&mut cursor, &no_layout));
    assert_eq!(ts.text, "• one two");
    assert_eq!(cursor.cur_cursor(), "• one ".len());

    // Nothing follows the break.
    let mut ts = textstroke(&format!("• one {SOFT_BREAK}  "));
    let mut cursor = cursor_at(&ts, "• one ".len());
    assert!(!ts.list_delete(&mut cursor, &no_layout));
    assert!(contains_soft_break(&ts.text));

    // Nothing is in front of the break.
    let mut ts = textstroke(&format!("{SOFT_BREAK}a"));
    let mut cursor = cursor_at(&ts, SOFT_BREAK.len_utf8());
    assert!(!ts.list_backspace(&mut cursor, &no_layout));

    // Elsewhere nothing happens.
    let mut ts = textstroke("• one");
    let mut cursor = cursor_at(&ts, ts.text.len());
    assert!(!ts.list_backspace(&mut cursor, &no_layout));
    assert!(!ts.list_delete(&mut cursor, &no_layout));
    assert_eq!(ts.text, "• one");
}

#[test]
fn backspace_and_delete_with_given_boundaries() {
    let text = format!("• ab{SOFT_BREAK}cd");
    let break_start = "• ab".len();
    let content = break_start + SOFT_BREAK.len_utf8();

    let mut ts = textstroke(&text);
    let mut cursor = cursor_at(&ts, content);
    assert!(ts.list_backspace_to(&mut cursor, Some("• ".len()), &no_layout));
    assert_eq!(ts.text, "• cd");
    assert_eq!(cursor.cur_cursor(), "• ".len());

    let mut ts = textstroke(&text);
    let mut cursor = cursor_at(&ts, content);
    assert!(!ts.list_backspace_to(&mut cursor, None, &no_layout));
    assert_eq!(ts.text, text);

    let mut ts = textstroke(&text);
    let mut cursor = cursor_at(&ts, break_start);
    assert!(ts.list_delete_to(&mut cursor, Some(text.len()), &no_layout));
    assert_eq!(ts.text, "• ab");
    assert!(!ts.list_delete_to(&mut cursor, None, &no_layout));
}

#[test]
fn renumbering_keeps_the_first_number_and_counts_levels_apart() {
    let mut ts = textstroke("7. a\n1. b\n\t3) c\n\t3) d\n1. e\nplain\n4. f\n4. g\n• h\n9. i");
    let mut positions = vec![ts.text.len()];
    ts.renumber_lists(&mut positions);
    let numbered = "7. a\n8. b\n\t3) c\n\t4) d\n9. e\nplain\n4. f\n5. g\n• h\n9. i";
    assert_eq!(ts.text, numbered);
    assert_eq!(positions, [numbered.len()]);
    // Renumbering again changes nothing.
    ts.renumber_lists(&mut positions);
    assert_eq!(ts.text, numbered);
}

#[test]
fn numbers_that_get_too_long_end_the_list() {
    let mut ts = textstroke("999999. a\n1. b\n5. c");
    let mut positions = vec![0];
    ts.renumber_lists(&mut positions);
    assert_eq!(ts.text, "999999. a\n1000000. b\n1000001. c");
    assert_eq!(list_items(&ts.text).len(), 1);
    ts.renumber_lists(&mut positions);
    assert_eq!(ts.text, "999999. a\n1000000. b\n1000001. c");
}

#[test]
fn levels_stop_at_both_ends() {
    let deepest = format!("{}▪ a", "\t".repeat(8));
    let mut ts = textstroke(&deepest);
    let mut cursor = cursor_at(&ts, ts.text.len());
    assert!(ts.list_change_level(&mut cursor, None, false, &no_layout));
    assert_eq!(ts.text, deepest);

    let mut ts = textstroke("• a");
    let mut cursor = cursor_at(&ts, ts.text.len());
    assert!(ts.list_change_level(&mut cursor, None, true, &no_layout));
    assert_eq!(ts.text, "• a");

    assert_eq!(bullet_for_level(0), '•');
    assert_eq!(bullet_for_level(4), '◦');
    assert_eq!(bullet_for_level(8), '▪');
}

#[test]
fn selections_can_be_made_backwards() {
    let mut ts = textstroke("• a\n• b\n• c");
    let mut cursor = cursor_at(&ts, "• a\n• b".len());
    let mut selection_cursor = cursor_at(&ts, 0);
    assert!(ts.list_change_level(&mut cursor, Some(&mut selection_cursor), false, &no_layout));
    assert_eq!(ts.text, "\t◦ a\n\t◦ b\n• c");
    assert_eq!(cursor.cur_cursor(), "\t◦ a\n\t◦ b".len());
    // Positions inside the replaced marker end up behind it.
    assert_eq!(selection_cursor.cur_cursor(), "\t◦".len());
}

#[test]
fn cursors_move_out_of_markers() {
    let ts = textstroke("one\n• two");
    let content = "one\n• ".len();
    let mut cursor = cursor_at(&ts, "one\n".len());
    ts.normalize_cursor(&mut cursor, true);
    assert_eq!(cursor.cur_cursor(), content);

    let mut cursor = cursor_at(&ts, "one\n".len());
    ts.normalize_cursor(&mut cursor, false);
    assert_eq!(cursor.cur_cursor(), "one".len());
    // There it stays.
    ts.normalize_cursor(&mut cursor, true);
    assert_eq!(cursor.cur_cursor(), "one".len());

    // The first paragraph has nothing in front of it.
    let ts = textstroke("1. a");
    assert_eq!(ts.normalized_cursor_pos(1, false), 3);
    // Behind the end of the text.
    assert_eq!(ts.normalized_cursor_pos(100, true), 4);
}

#[test]
fn texts_without_lists_are_left_alone() {
    let mut ts = textstroke("plain");
    let mut cursor = TextCursor::new(2, 0);
    let mut selection_cursor = TextCursor::new(3, 0);
    assert!(!ts.update_lists(&mut cursor, Some(&mut selection_cursor), None, &no_layout));
    assert_eq!(cursor, TextCursor::new(2, 0));
    assert_eq!(selection_cursor, TextCursor::new(3, 0));

    let mut ts = textstroke("3. a\n3. b");
    let mut cursor = cursor_at(&ts, 4);
    let mut selection_cursor = cursor_at(&ts, ts.text.len());
    assert!(ts.update_lists(&mut cursor, Some(&mut selection_cursor), Some("b"), &no_layout));
    assert_eq!(ts.text, "3. a\n4. b");
    assert_eq!(cursor, cursor_at(&ts, 4));
    assert_eq!(selection_cursor, cursor_at(&ts, ts.text.len()));
}

#[test]
fn stars_become_bullets_and_words_do_not() {
    let mut ts = textstroke("* ");
    let mut cursor = cursor_at(&ts, 2);
    assert!(ts.update_lists(&mut cursor, None, Some(" "), &no_layout));
    assert_eq!(ts.text, "• ");
    assert_eq!(list_items(&ts.text)[0].content_start, cursor.cur_cursor());

    let mut ts = textstroke("- ");
    let mut cursor = cursor_at(&ts, 2);
    assert!(!ts.update_lists(&mut cursor, None, Some("x"), &no_layout));
    assert_eq!(ts.text, "- ");
}

#[test]
fn paragraphs_and_soft_breaks_are_found() {
    assert_eq!(paragraph_ranges("a\n\nbc"), [0..1, 2..2, 3..5]);
    assert_eq!(paragraph_ranges(""), [0..0]);

    let text = format!("a{SOFT_BREAK} {HAIR_SPACE}b{SOFT_BREAK}{SOFT_BREAK} c");
    assert_eq!(soft_break_ranges(&text), [1..8, 9..12, 12..16]);
    assert_eq!(soft_break_before(&text, 4), Some(1..8));
    assert_eq!(soft_break_before(&text, 8), Some(1..8));
    assert_eq!(soft_break_before(&text, 9), None);
    assert_eq!(soft_break_before(&text, 12), Some(9..12));
    assert!(contains_soft_break(&text));
    assert!(!contains_soft_break("a b"));

    let ts = textstroke(&text);
    assert_eq!(ts.text_without_soft_breaks(0..text.len()), "abc");
    assert_eq!(ts.text_without_soft_breaks(1..9), "b");
    let mut positions = vec![0, 8, text.len()];
    let mut ts = textstroke(&text);
    ts.renumber_stripped(&mut positions);
    assert_eq!(ts.text, "abc");
    assert_eq!(positions, [0, 1, 3]);
}

#[test]
fn markers_that_are_none() {
    for text in ["1234567. a", "1 a", "1.", "•", "a. b", "", " • a", "1.\ta"] {
        assert_eq!(list_item_at(text, 0), None, "{text:?}");
    }
    let item = list_item_at("a\n\t\t000012) b", 5).unwrap();
    assert_eq!(item.marker, Marker::Number { n: 12, delim: ')' });
    assert_eq!((item.start, item.level, item.marker_start), (2, 2, 4));
    assert_eq!((item.marker_end, item.content_start, item.end), (11, 12, 13));
}

#[test]
fn marker_texts() {
    assert_eq!(Marker::Bullet('◦').text(), "◦");
    assert_eq!(Marker::Number { n: 120, delim: ')' }.text(), "120)");
    assert_eq!(Marker::Number { n: 0, delim: '.' }.text(), "0.");
    assert_eq!(
        Marker::Number { n: u32::MAX, delim: '.' }.next(),
        Marker::Number { n: u32::MAX, delim: '.' }
    );
    assert_eq!(
        Marker::Number { n: 4, delim: '.' }.for_level(3),
        Marker::Number { n: 1, delim: '.' }
    );
    assert_eq!(Marker::Bullet('•').for_level(2), Marker::Bullet('▪'));
}

#[test]
fn white_space_is_that_of_unicode() {
    for v in 0..=0x10ffff {
        if let Some(c) = char::from_u32(v) {
            assert_eq!(is_white_space(c), c.is_whitespace(), "{v:#x}");
        }
    }
    assert!(is_blank(""));
    assert!(is_blank(" \t\u{2028}\u{a0}"));
    assert!(!is_blank(" x "));
}

#[test]
fn merging_keeps_the_order_of_overrides() {
    let attr = |range, on| RangedTextAttribute {
        range,
        attribute: TextAttribute::Underline(on),
    };
    let mut ts = textstroke("abcdef");
    ts.text_style.ranged_text_attributes =
        vec![attr(0..2, true), attr(1..3, false), attr(2..4, true), attr(4..5, true)];
    ts.merge_adjacent_attrs();
    assert_eq!(
        ts.text_style.ranged_text_attributes,
        [attr(0..2, true), attr(1..3, false), attr(2..5, true)]
    );
    ts.remove_attrs_for_range(2..3);
    assert_eq!(
        ts.text_style.ranged_text_attributes,
        [attr(0..2, true), attr(1..2, false), attr(3..5, true)]
    );
}

#[test]
fn attributes_beyond_the_largest_position_stop_there() {
    let mut ts = textstroke("ab");
    ts.text_style.ranged_text_attributes = vec![RangedTextAttribute {
        range: 1..usize::MAX,
        attribute: TextAttribute::Strikethrough(true),
    }];
    let mut positions = vec![];
    ts.replace_range_mapped(0..1, "xyz", &mut positions);
    assert_eq!(ts.text, "xyzb");
    assert_eq!(ts.text_style.ranged_text_attributes[0].range, 3..usize::MAX);
}

#[test]
fn updating_again_keeps_the_attributes() {
    let mut ts = textstroke("1. one two three four five six seven\n1. eight");
    ts.text_style.wraps = true;
    ts.text_style.ranged_text_attributes = vec![
        RangedTextAttribute {
            range: 3..20,
            attribute: TextAttribute::Underline(true),
        },
        RangedTextAttribute {
            range: 8..30,
            attribute: TextAttribute::Strikethrough(true),
        },
    ];
    let layout = |ts: &TextStroke| layout_with_width(ts, 12);
    let mut cursor = cursor_at(&ts, 0);
    assert!(ts.update_lists(&mut cursor, None, None, &layout));
    let text = ts.text.clone();
    let attributes = ts.text_style.ranged_text_attributes.clone();
    assert!(contains_soft_break(&text) && text.ends_with("\n2. eight"));

    assert!(!ts.update_lists(&mut cursor, None, None, &layout));
    assert_eq!(ts.text, text);
    // The same attributes apply to the same bytes.
    let covered = |attributes: &[RangedTextAttribute], kind: TextAttribute| {
        (0..text.len())
            .map(|p| attributes.iter().any(|a| a.attribute == kind && a.range.contains(&p)))
            .collect::<Vec<bool>>()
    };
    for kind in [TextAttribute::Underline(true), TextAttribute::Strikethrough(true)] {
        assert_eq!(
            covered(&attributes, kind),
            covered(&ts.text_style.ranged_text_attributes, kind)
        );
    }
}

#[test]
fn nested_items_do_not_interrupt_the_numbering() {
    let mut ts = textstroke("7. a\n\t1. b\n\t9. c\n\t\t◦ d\n3. e\nplain\n5) f\n5) g");
    let mut cursor = cursor_at(&ts, 0);
    assert!(ts.update_lists(&mut cursor, None, None, &no_layout));
    assert_eq!(ts.text, "7. a\n\t1. b\n\t2. c\n\t\t◦ d\n8. e\nplain\n5) f\n6) g");
}

#[test]
fn outdenting_undoes_indenting() {
    let mut ts = textstroke("• a\n\t◦ b");
    let mut cursor = cursor_at(&ts, ts.text.len());
    assert!(ts.list_change_level(&mut cursor, None, false, &no_layout));
    assert_eq!(ts.text, "• a\n\t\t▪ b");
    assert!(ts.list_change_level(&mut cursor, None, true, &no_layout));
    assert_eq!(ts.text, "• a\n\t◦ b");
    assert_eq!(cursor.cur_cursor(), ts.text.len());
}

#[test]
fn first_items_keep_their_number() {
    // Behind a bullet of the same level, with and without deeper items in between.
    let mut ts = textstroke("• a\n3. b\n7. c\n• d\n\t\t2. e\n6) f\n6) g");
    let mut cursor = cursor_at(&ts, 0);
    assert!(ts.update_lists(&mut cursor, None, None, &no_layout));
    assert_eq!(ts.text, "• a\n3. b\n4. c\n• d\n\t\t2. e\n6) f\n7) g");

    // Behind an item of a smaller level.
    let mut ts = textstroke("1. a\n\t4. b\n\t4. c\n1. d\n\t4. e\n\t\t9. f\n\t4. g");
    assert!(ts.update_lists(&mut cursor, None, None, &no_layout));
    assert_eq!(ts.text, "1. a\n\t4. b\n\t5. c\n2. d\n\t4. e\n\t\t9. f\n\t5. g");
}

#[test]
fn plain_paragraphs_are_left_as_they_are() {
    let layout = |ts: &TextStroke| layout_with_width(ts, 10);
    let mut ts = textstroke("plain one two three\n1. aa bb cc dd ee\n\nplain four five\n5. ff gg hh");
    ts.text_style.wraps = true;
    let mut cursor = cursor_at(&ts, 0);
    assert!(ts.update_lists(&mut cursor, None, None, &layout));
    let paragraphs = ts.text.split('\n').collect::<Vec<&str>>();
    assert_eq!(paragraphs.len(), 5);
    assert_eq!(paragraphs[0], "plain one two three");
    assert!(contains_soft_break(paragraphs[1]));
    assert_eq!(paragraphs[2], "");
    assert_eq!(paragraphs[3], "plain four five");
    assert!(contains_soft_break(paragraphs[4]));

    // Automatic line breaks that were left over are taken out.
    let mut ts = textstroke(&format!("plain one {SOFT_BREAK}  two three"));
    ts.text_style.wraps = true;
    assert!(ts.update_lists(&mut cursor, None, None, &layout));
    assert_eq!(ts.text, "plain one two three");
}

#[test]
fn cursors_at_the_end_stay_there() {
    let layout = |ts: &TextStroke| layout_with_width(ts, 10);
    let text = "1. aa bb cc dd ee\n1. ff gg hh ii jj";
    let mut ts = textstroke(text);
    ts.text_style.wraps = true;
    let mut cursor = cursor_at(&ts, text.len());
    let mut selection = cursor_at(&ts, text.len());
    assert!(ts.update_lists(&mut cursor, Some(&mut selection), None, &layout));
    assert!(ts.text.len() > text.len());
    assert_eq!(cursor.cur_cursor(), ts.text.len());
    assert_eq!(selection.cur_cursor(), ts.text.len());

    assert!(ts.list_change_level(&mut cursor, None, false, &layout));
    assert_eq!(cursor.cur_cursor(), ts.text.len());
    assert!(ts.list_newline(&mut cursor, &layout));
    assert_eq!(cursor.cur_cursor(), ts.text.len());
    assert!(ts.list_backspace(&mut cursor, &layout));
    assert_eq!(cursor.cur_cursor(), ts.text.len());
}

#[test]
fn every_wrap_is_marked_with_the_asked_indentation() {
    let layout = |ts: &TextStroke| layout_with_width(ts, 10);
    let mut ts = textstroke("12. aa bb cc dd ee\nplain ff gg hh\n\t• ii jj kk ll");
    ts.text_style.wraps = true;
    let mut cursor = cursor_at(&ts, 0);
    assert!(ts.update_lists(&mut cursor, None, None, &layout));
    // Each line of an item but the first starts behind an automatic line break.
    for line in layout(&ts).unwrap() {
        match list_item_at(&ts.text, line.start) {
            Some(item) if item.start < line.start => {
                assert!(ts.text[..line.start].ends_with(SOFT_BREAK))
            }
            _ => assert!(!ts.text[..line.start].ends_with(SOFT_BREAK)),
        }
    }
    // With the indentation that the layout asks for.
    let breaks = soft_break_ranges(&ts.text);
    assert!(breaks.len() >= 3);
    for range in breaks {
        let item = list_item_at(&ts.text, range.start).unwrap();
        let spaces = ts.text[item.start..item.content_start].chars().count() - 1;
        assert_eq!(
            ts.text[range],
            format!("{SOFT_BREAK}{}{HAIR_SPACE}", " ".repeat(spaces))
        );
    }
}
