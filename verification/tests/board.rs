use aerial::board::{
    adaptive_color, contains_id, take_next_id, keep_mask, merged_next_id, order_by_id, read_packet, state_vector_packet, update_packet, without,
    Packet, SYNC_STEP, SYNC_UPDATE,
};
use aerial::svg::{get_icon_svg, icon_markup, xml_escape};
use aerial::tools::ActiveTool;

#[test]
fn state_vector_packet_starts_with_its_type() {
    assert_eq!(state_vector_packet(&[7, 8, 9]), vec![SYNC_STEP, 7, 8, 9]);
    assert_eq!(state_vector_packet(&[]), vec![0]);
}

#[test]
fn update_packet_starts_with_its_type() {
    assert_eq!(update_packet(&[1, 2]), vec![SYNC_UPDATE, 1, 2]);
}

#[test]
fn packets_read_back() {
    match read_packet(&state_vector_packet(&[5, 6])) {
        Some(Packet::SyncStep(d)) => assert_eq!(d, vec![5, 6]),
        _ => panic!("expected a state vector"),
    }
    match read_packet(&update_packet(&[9])) {
        Some(Packet::Update(d)) => assert_eq!(d, vec![9]),
        _ => panic!("expected an update"),
    }
}

#[test]
fn empty_and_unknown_packets_are_ignored() {
    assert!(read_packet(&[]).is_none());
    assert!(read_packet(&[2, 1, 1]).is_none());
    assert!(read_packet(&[255]).is_none());
}

#[test]
fn bare_type_byte_carries_empty_data() {
    match read_packet(&[1]) {
        Some(Packet::Update(d)) => assert!(d.is_empty()),
        _ => panic!("expected an update"),
    }
}

#[test]
fn next_id_moves_up_to_largest_arrived_id() {
    assert_eq!(merged_next_id(&[3, 12, 7], 5), 12);
    assert_eq!(merged_next_id(&[3, 4], 10), 10);
    assert_eq!(merged_next_id(&[10], 10), 10);
    assert_eq!(merged_next_id(&[], 0), 0);
    assert_eq!(merged_next_id(&[], 4), 4);
}

#[test]
fn elements_are_ordered_by_id_stably() {
    assert_eq!(order_by_id(&[30, 10, 20]), vec![1, 2, 0]);
    assert_eq!(order_by_id(&[5, 1, 5, 1]), vec![1, 3, 0, 2]);
    assert!(order_by_id(&[]).is_empty());
}

#[test]
fn keep_mask_drops_listed_ids() {
    assert_eq!(keep_mask(&[1, 2, 3, 2], &[2]), vec![true, false, true, false]);
    assert_eq!(keep_mask(&[1, 2], &[]), vec![true, true]);
}

#[test]
fn selection_loses_removed_ids() {
    assert_eq!(without(&vec![4, 5, 6, 5], &[5, 9]), vec![4, 6]);
    assert_eq!(without(&vec![], &[1]), Vec::<u64>::new());
    assert!(contains_id(&[1, 2, 3], 3));
    assert!(!contains_id(&[1, 2, 3], 4));
}

#[test]
fn default_tool_is_select() {
    assert_eq!(ActiveTool::default(), ActiveTool::Select);
}

#[test]
fn some_tools_keep_the_selection() {
    assert!(!ActiveTool::FreeDraw.clears_selection());
    assert!(!ActiveTool::Rectangle.clears_selection());
    assert!(!ActiveTool::Select.clears_selection());
    assert!(ActiveTool::Ellipse.clears_selection());
    assert!(ActiveTool::Hand.clears_selection());
    assert!(ActiveTool::LaserPen.clears_selection());
    assert!(ActiveTool::Eraser.clears_selection());
}

#[test]
fn xml_escape_replaces_markup_characters() {
    assert_eq!(xml_escape("<a href=\"x\">&'</a>"), "&lt;a href=&quot;x&quot;&gt;&amp;&#39;&lt;/a&gt;");
    assert_eq!(xml_escape("plain text"), "plain text");
    assert_eq!(xml_escape(""), "");
    assert_eq!(xml_escape("&amp;"), "&amp;amp;");
}

#[test]
fn icons_are_chosen_by_name() {
    assert!(get_icon_svg("database").contains("<ellipse"));
    assert_eq!(get_icon_svg("s3"), get_icon_svg("storage"));
    assert!(get_icon_svg("lambda").contains("polyline"));
    assert!(get_icon_svg("cdn").contains("M17.5 19"));
    assert!(get_icon_svg("ec2").contains("x1=\"6\""));
    assert!(get_icon_svg("person").contains("circle"));
    assert!(get_icon_svg("llm").contains("M12 5a3"));
    assert!(get_icon_svg("sqs").contains("M21 15"));
    assert!(get_icon_svg("unknown").contains("width=\"18\" height=\"18\""));
    assert_eq!(get_icon_svg("Database"), get_icon_svg("unknown"));
}

#[test]
fn dark_mode_turns_dark_inks_white() {
    assert_eq!(adaptive_color(true, "#1a1a2e"), "#FFFFFF");
    assert_eq!(adaptive_color(true, "#000000"), "#FFFFFF");
    assert_eq!(adaptive_color(true, "#111111"), "#FFFFFF");
    assert_eq!(adaptive_color(true, "#6366f1"), "#6366f1");
    assert_eq!(adaptive_color(false, "#000000"), "#000000");
    assert_eq!(adaptive_color(true, "transparent"), "transparent");
}

#[test]
fn pens_draw_freehand() {
    for t in [ActiveTool::FreeDraw, ActiveTool::Highlighter, ActiveTool::FountainPen, ActiveTool::MagicPen, ActiveTool::LaserPen] {
        assert!(t.draws_freehand());
    }
    for t in [ActiveTool::Select, ActiveTool::Hand, ActiveTool::Rectangle, ActiveTool::Ellipse, ActiveTool::Line, ActiveTool::Arrow, ActiveTool::Text, ActiveTool::Eraser] {
        assert!(!t.draws_freehand());
    }
}

#[test]
fn icon_markup_wraps_the_icon_in_the_text_colour() {
    assert_eq!(icon_markup(&None, "#fff"), "");
    let m = icon_markup(&Some("user".to_string()), "#f4f4f5");
    assert!(m.starts_with("<div style='margin-bottom: 8px; color: #f4f4f5;'><svg"));
    assert!(m.ends_with("</svg></div>"));
    assert!(m.contains(get_icon_svg("person")));
}

#[test]
fn escaped_text_has_no_markup_characters() {
    let out = xml_escape("a<b>c\"d'e&f");
    assert!(!out.contains('<') && !out.contains('>') && !out.contains('"') && !out.contains('\''));
    assert_eq!(out, "a&lt;b&gt;c&quot;d&#39;e&amp;f");
}

#[test]
fn ids_are_handed_out_in_order() {
    let mut counter = 7u64;
    assert_eq!(take_next_id(&mut counter), 7);
    assert_eq!(take_next_id(&mut counter), 8);
    assert_eq!(counter, 9);
}
