use pita::buffer::PtBuffer;
use pita::editor::{Command, Editor};
use pita::hl::{HlEvent, HlQueue};
use pita::screen::{default_bg, Color, PaintOp, Screen, Style};
use unicode_segmentation::UnicodeSegmentation;

fn doc_of(s: &str) -> PtBuffer<String> {
    let clusters: Vec<String> = s.graphemes(true).map(|g| g.to_string()).collect();
    PtBuffer::new(clusters)
}

fn collect_doc(buf: &PtBuffer<String>) -> String {
    let mut it = buf.iter();
    let mut out = String::new();
    while let Some(g) = it.next(buf) {
        out.push_str(g);
    }
    out
}

fn editor_of(s: &str, width: usize, height: usize) -> Editor {
    let doc = doc_of(s);
    let editor_screen = Screen::new(width, height, 0, 0, default_bg());
    let log_screen = Screen::new(width, 2, 0, height, Color::Black);
    Editor::new(doc, editor_screen, log_screen, Vec::new())
}

#[test]
fn index_hls() {
    let mut hls = HlQueue::with_capacity(2);
    hls.push((0, 3, 11));
    hls.push((4, 6, 12));

    // Point queries carry the producer's one-past bias: index i matches a
    // range that holds i + 1.
    assert_eq!(hls.get(1), Some(11));
    assert_eq!(hls.get(4), Some(12));
    assert_eq!(hls.get(2), None);
    assert_eq!(hls.get(6), None);
    assert_eq!(hls.get(7), None);
}

#[test]
fn hl_first_match_wins() {
    let mut hls = HlQueue::with_capacity(2);
    hls.push((0, 10, 1));
    hls.push((2, 5, 2));
    assert_eq!(hls.get(3), Some(1));
}

#[test]
fn hl_rebuild_pairs_events() {
    let mut hls = HlQueue::with_capacity(4);
    let events = vec![
        HlEvent::Start(3),
        HlEvent::Source(0, 5),
        HlEvent::End,
        HlEvent::Source(5, 9),
        HlEvent::Start(7),
        HlEvent::End,
    ];
    hls.rebuild(&events);
    assert_eq!(hls.get(0), Some(3)); // 1 in [0, 5)
    assert_eq!(hls.get(6), Some(7)); // 7 in [5, 9)
    assert_eq!(hls.get(9), None);
}

#[test]
fn hl_rebuild_drops_mismatched_ends() {
    let mut hls = HlQueue::with_capacity(4);
    hls.push((0, 9, 1));
    let events = vec![HlEvent::End, HlEvent::Start(5), HlEvent::End];
    hls.rebuild(&events);
    // The old range is gone and no event pair survived.
    assert_eq!(hls.get(1), None);
}

#[test]
fn screen_draw_narrow_and_wide() {
    let mut s = Screen::new(4, 2, 0, 0, Color::Black);
    s.draw(0, 0, "ab", Style(Color::White, Color::Black));
    assert_eq!(
        s.cell(0, 0),
        &Some((Style(Color::White, Color::Black), "a".to_string()))
    );
    assert_eq!(
        s.cell(1, 0),
        &Some((Style(Color::White, Color::Black), "b".to_string()))
    );
    assert_eq!(
        s.cell(2, 0),
        &Some((Style(Color::White, Color::Black), " ".to_string()))
    );

    // A double-width cluster takes its cell plus one continuation cell.
    s.draw(0, 1, "\u{4e16}x", Style(Color::Red, Color::Black));
    assert_eq!(
        s.cell(0, 1),
        &Some((Style(Color::Red, Color::Black), "\u{4e16}".to_string()))
    );
    assert_eq!(s.cell(1, 1), &None);
    assert_eq!(
        s.cell(2, 1),
        &Some((Style(Color::Red, Color::Black), "x".to_string()))
    );
}

#[test]
fn screen_draw_zero_width_gets_a_space() {
    let mut s = Screen::new(4, 1, 0, 0, Color::Black);
    s.draw(0, 0, "\u{0301}", Style(Color::White, Color::Black));
    assert_eq!(
        s.cell(0, 0),
        &Some((Style(Color::White, Color::Black), " \u{0301}".to_string()))
    );
}

#[test]
fn screen_draw_clips_at_the_edges() {
    let mut s = Screen::new(3, 1, 0, 0, Color::Black);
    s.draw(2, 0, "xyz", Style(Color::White, Color::Black));
    assert_eq!(
        s.cell(2, 0),
        &Some((Style(Color::White, Color::Black), "x".to_string()))
    );
    // Row outside the grid: nothing changes.
    s.draw(0, 5, "q", Style(Color::Red, Color::Black));
    assert_eq!(
        s.cell(0, 0),
        &Some((Style(Color::White, Color::Black), " ".to_string()))
    );
}

#[test]
fn screen_cursor_clamps() {
    let mut s = Screen::new(4, 3, 0, 0, Color::Black);
    s.set_cursor(2, 1);
    assert_eq!(s.cursor(), (2, 1));
    s.set_cursor(9, 9);
    assert_eq!(s.cursor(), (3, 2));
}

#[test]
fn screen_offset_saturates() {
    let mut s = Screen::new(4, 3, 0, 0, Color::Black);
    assert_eq!(s.line_offset(), 0);
    s.dec_offset();
    assert_eq!(s.line_offset(), 0);
    s.inc_offset();
    s.inc_offset();
    assert_eq!(s.line_offset(), 2);
    s.dec_offset();
    assert_eq!(s.line_offset(), 1);
}

#[test]
fn present_ops_paint_every_cell_once() {
    let bg = Color::Rgb(59, 56, 73);
    let s = Screen::new(2, 1, 3, 4, bg);
    let ops = s.present_ops();
    assert_eq!(
        ops,
        vec![
            PaintOp::SetColors(Color::White, bg),
            PaintOp::Hide,
            PaintOp::MoveTo(3, 4),
            PaintOp::Print(" ".to_string()),
            PaintOp::MoveTo(4, 4),
            PaintOp::Print(" ".to_string()),
            PaintOp::MoveTo(3, 4),
            PaintOp::Show,
        ]
    );
}

#[test]
fn editor_insert_and_delete() {
    let mut ed = editor_of("ab\ncd\n", 10, 4);
    ed.draw_doc();
    assert_eq!(ed.line_endings().as_slice(), &[3, 3, 3]);

    // Typing at the top-left inserts before 'a' and moves right.
    let redraw = ed.apply(Command::Char('x'));
    assert!(redraw);
    assert_eq!(collect_doc(ed.doc()), "xab\ncd\n");
    assert_eq!(ed.doc_screen().cursor(), (1, 0));

    // Delete at the cursor removes what now sits under it.
    let redraw = ed.apply(Command::DeleteForward);
    assert!(redraw);
    assert_eq!(collect_doc(ed.doc()), "xb\ncd\n");

    // Backspace at the very start of the document is a no-op.
    ed.apply(Command::MoveLeft);
    let redraw = ed.apply(Command::DeleteBackWard);
    assert!(!redraw);
    assert_eq!(collect_doc(ed.doc()), "xb\ncd\n");
}

#[test]
fn editor_newline_and_tab() {
    let mut ed = editor_of("ab", 10, 4);
    ed.draw_doc();
    let redraw = ed.apply(Command::Tab);
    assert!(redraw);
    assert_eq!(collect_doc(ed.doc()), "  ab");
    ed.draw_doc();
    let redraw = ed.apply(Command::NewLine);
    assert!(redraw);
    assert_eq!(collect_doc(ed.doc()), "\n  ab");
    assert_eq!(ed.doc_screen().cursor(), (0, 1));
}

#[test]
fn editor_cursor_motion_follows_line_cache() {
    let mut ed = editor_of("ab\ncd\n", 10, 4);
    ed.draw_doc();
    assert_eq!(ed.doc_screen().cursor(), (0, 0));

    ed.apply(Command::MoveDown);
    assert_eq!(ed.doc_screen().cursor(), (0, 1));
    ed.apply(Command::MoveUp);
    assert_eq!(ed.doc_screen().cursor(), (0, 0));
    ed.apply(Command::MoveRight);
    assert_eq!(ed.doc_screen().cursor(), (1, 0));
    ed.apply(Command::MoveRight);
    assert_eq!(ed.doc_screen().cursor(), (2, 0));
    // Wrap past the line ending to the next line.
    ed.apply(Command::MoveRight);
    assert_eq!(ed.doc_screen().cursor(), (0, 1));
    // Left at column 0 wraps to the previous line's ending.
    ed.apply(Command::MoveLeft);
    assert_eq!(ed.doc_screen().cursor(), (2, 0));
}

#[test]
fn editor_word_motion_stops_at_boundaries() {
    let mut ed = editor_of("foo bar\n", 10, 4);
    ed.draw_doc();
    ed.apply(Command::WordRight);
    // Consumed the run of non-blanks: the cursor sits on the space.
    assert_eq!(ed.doc_screen().cursor(), (3, 0));
}

#[test]
fn editor_redraw_is_idempotent() {
    let mut ed = editor_of("fn main() {}\nlet x = 1;\n", 8, 3);
    ed.update_highlights(&vec![
        HlEvent::Start(14),
        HlEvent::Source(0, 2),
        HlEvent::End,
    ]);
    ed.redraw_doc();
    let ops1 = ed.doc_screen().present_ops();
    let endings1 = ed.line_endings().clone();
    ed.redraw_doc();
    let ops2 = ed.doc_screen().present_ops();
    let endings2 = ed.line_endings().clone();
    assert_eq!(ops1, ops2);
    assert_eq!(endings1, endings2);
}

#[test]
fn editor_logs_truncate_to_width() {
    let mut ed = editor_of("", 4, 2);
    ed.log("this line is long".to_string());
    ed.log("ok".to_string());
    ed.redraw_logs();
    // Newest line in the top row, truncated to the screen width.
    let ls = ed.log_screen();
    assert_eq!(ls.cell(0, 0), &Some((Style(Color::Red, Color::Black), "o".to_string())));
    assert_eq!(ls.cell(1, 0), &Some((Style(Color::Red, Color::Black), "k".to_string())));
    assert_eq!(ls.cell(0, 1), &Some((Style(Color::Red, Color::Black), "t".to_string())));
    assert_eq!(ls.cell(3, 1), &Some((Style(Color::Red, Color::Black), "s".to_string())));
}

#[test]
fn editor_scrolls_viewport_at_bottom() {
    let mut ed = editor_of("a\nb\nc\nd\ne\nf\n", 4, 2);
    ed.draw_doc();
    assert_eq!(ed.doc_screen().line_offset(), 0);
    ed.apply(Command::MoveDown);
    ed.apply(Command::MoveDown);
    // Moving below the last grid row scrolls instead.
    assert!(ed.doc_screen().line_offset() > 0 || ed.doc_screen().cursor().1 > 0);
}

#[test]
fn editor_bare_draw_twice_is_idempotent() {
    let mut ed = editor_of("one\ntwo\nthree\n", 6, 3);
    ed.draw_doc();
    let ops1 = ed.doc_screen().present_ops();
    let endings1 = ed.line_endings().clone();
    // A second draw straight over the first one, with no clear between.
    ed.draw_doc();
    assert_eq!(ed.doc_screen().present_ops(), ops1);
    assert_eq!(ed.line_endings(), &endings1);
}
