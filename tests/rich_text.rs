use peritext::{
    Actor, Behavior, Expand, Formattable, Formatting, IndexType, RichText, RichTextError, Span,
    Style, StyleValue,
};

fn text_of(spans: &[Span]) -> String {
    let mut out = String::new();
    for s in spans {
        out.push_str(&s.text);
    }
    out
}

fn tags(span: &Span) -> Vec<String> {
    span.styles.iter().map(|s| s.type_.clone()).collect()
}

fn plain(t: &RichText) -> String {
    text_of(&t.get_spans())
}

#[test]
fn basic_rte() {
    let mut actor = Actor::new(1);

    actor.insert(0, "Hello, this is Hector").unwrap();

    let len = actor.text.len();
    actor
        .annotate(0..len, Formatting::Comment("This is a comment".to_string()))
        .unwrap();

    let spans = actor.text.get_spans();

    assert_eq!(spans.len(), 1);
    assert_eq!(spans[0].text, "Hello, this is Hector");
    assert_eq!(spans[0].styles.len(), 1);
    assert_eq!(spans[0].styles[0].type_, "comment");
    match &spans[0].styles[0].value {
        StyleValue::Text(v) => assert_eq!(v, "This is a comment"),
        other => panic!("unexpected value {:?}", other),
    }
}

#[test]
fn concurrent_inserts_converge() {
    let mut a = RichText::new(1);
    let mut b = RichText::new(2);
    a.insert(0, "1234").unwrap();
    b.merge(&a);
    assert_eq!(plain(&b), "1234");

    a.insert(4, "5678").unwrap();
    assert_eq!(plain(&a), "12345678");
    b.insert(1, "9").unwrap();
    assert_eq!(plain(&b), "19234");

    a.merge(&b);
    b.merge(&a);
    assert_eq!(plain(&a), "192345678");
    assert_eq!(plain(&b), "192345678");
    assert_eq!(a.len(), 9);
}

#[test]
fn same_position_ties_break_by_id() {
    let mut a = RichText::new(1);
    let mut b = RichText::new(2);
    a.insert(0, "a").unwrap();
    b.insert(0, "b").unwrap();
    let mut a2 = RichText::new(1);
    a2.merge(&a);
    a.merge(&b);
    b.merge(&a2);
    assert_eq!(plain(&a), "ba");
    assert_eq!(plain(&b), "ba");
}

#[test]
fn merge_commutes_on_spans() {
    let mut a = RichText::new(1);
    let mut b = RichText::new(2);
    a.insert(0, "abc").unwrap();
    b.insert(0, "xyz").unwrap();
    b.annotate(0..2, Formatting::Bold.into_style()).unwrap();
    a.merge(&b);
    b.merge(&a);
    let sa = a.get_spans();
    let sb = b.get_spans();
    assert_eq!(sa.len(), sb.len());
    for (x, y) in sa.iter().zip(sb.iter()) {
        assert_eq!(x.text, y.text);
        assert_eq!(tags(x), tags(y));
    }
    assert_eq!(text_of(&sa), "xyzabc");
}

#[test]
fn merge_twice_changes_nothing() {
    let mut a = RichText::new(1);
    let mut b = RichText::new(2);
    a.insert(0, "hello").unwrap();
    b.insert(0, "world").unwrap();
    b.delete(0..1).unwrap();
    a.merge(&b);
    let first = a.get_spans();
    a.merge(&b);
    let second = a.get_spans();
    assert_eq!(text_of(&first), text_of(&second));
    assert_eq!(first.len(), second.len());
    assert_eq!(text_of(&second), "orldhello");
}

#[test]
fn three_replicas_converge() {
    let mut a = RichText::new(1);
    let mut b = RichText::new(2);
    let mut c = RichText::new(3);
    a.insert(0, "one").unwrap();
    b.insert(0, "two").unwrap();
    c.insert(0, "three").unwrap();
    c.annotate(0..5, Formatting::Comment("c".to_string()).into_style()).unwrap();
    a.merge(&b);
    a.merge(&c);
    b.merge(&a);
    c.merge(&a);
    assert_eq!(plain(&a), plain(&b));
    assert_eq!(plain(&b), plain(&c));
    assert_eq!(a.get_spans().len(), c.get_spans().len());
}

#[test]
fn insert_then_delete_restores_text() {
    let mut t = RichText::new(1);
    t.insert(0, "hello world").unwrap();
    t.insert(5, ", big").unwrap();
    assert_eq!(plain(&t), "hello, big world");
    t.delete(5..10).unwrap();
    assert_eq!(plain(&t), "hello world");
}

#[test]
fn expand_after_includes_text_at_end() {
    let mut t = RichText::new(1);
    t.insert(0, "abcdef").unwrap();
    t.annotate(1..3, Formatting::Bold.into_style()).unwrap();
    t.insert(3, "XY").unwrap();
    let spans = t.get_spans();
    assert_eq!(text_of(&spans), "abcXYdef");
    assert_eq!(spans.len(), 3);
    assert_eq!(spans[1].text, "bcXY");
    assert_eq!(tags(&spans[1]), vec!["bold".to_string()]);
    assert!(spans[2].styles.is_empty());
}

#[test]
fn expand_none_excludes_text_at_end() {
    let mut t = RichText::new(1);
    t.insert(0, "abcdef").unwrap();
    t.annotate(1..3, Formatting::Link { url: "u".to_string() }.into_style()).unwrap();
    t.insert(3, "XY").unwrap();
    t.insert(1, "Z").unwrap();
    let spans = t.get_spans();
    assert_eq!(text_of(&spans), "aZbcXYdef");
    assert_eq!(spans.len(), 3);
    assert_eq!(spans[0].text, "aZ");
    assert_eq!(spans[1].text, "bc");
    assert_eq!(tags(&spans[1]), vec!["link".to_string()]);
    assert_eq!(spans[2].text, "XYdef");
}

#[test]
fn expand_before_includes_text_at_start() {
    let mut t = RichText::new(1);
    t.insert(0, "abcd").unwrap();
    let style = Style::new("mark".to_string(), StyleValue::Null, Expand::Before, Behavior::Merge);
    t.annotate(1..3, style).unwrap();
    t.insert(1, "Q").unwrap();
    t.insert(4, "R").unwrap();
    let spans = t.get_spans();
    assert_eq!(text_of(&spans), "aQbcRd");
    assert_eq!(spans[1].text, "Qbc");
    assert_eq!(tags(&spans[1]), vec!["mark".to_string()]);
    assert_eq!(spans[2].text, "Rd");
}

#[test]
fn unbold_wins_in_either_order() {
    for bold_first in [true, false] {
        let mut a = RichText::new(1);
        a.insert(0, "abcd").unwrap();
        let mut b = RichText::new(2);
        b.merge(&a);
        if bold_first {
            a.annotate(0..4, Formatting::Bold.into_style()).unwrap();
            b.annotate(0..4, Formatting::NotBold.into_style()).unwrap();
        } else {
            b.annotate(0..4, Formatting::Bold.into_style()).unwrap();
            a.annotate(0..4, Formatting::NotBold.into_style()).unwrap();
        }
        a.merge(&b);
        b.merge(&a);
        for t in [&a, &b] {
            let spans = t.get_spans();
            assert_eq!(spans.len(), 1);
            assert_eq!(spans[0].text, "abcd");
            assert!(spans[0].styles.is_empty());
        }
    }
}

#[test]
fn unbold_on_one_replica_after_bold() {
    let mut t = RichText::new(1);
    t.insert(0, "abcdef").unwrap();
    t.annotate(0..6, Formatting::Bold.into_style()).unwrap();
    t.annotate(2..4, Formatting::NotBold.into_style()).unwrap();
    let spans = t.get_spans();
    assert_eq!(spans.len(), 3);
    assert_eq!(tags(&spans[0]), vec!["bold".to_string()]);
    assert!(spans[1].styles.is_empty());
    assert_eq!(spans[1].text, "cd");
    assert_eq!(tags(&spans[2]), vec!["bold".to_string()]);
}

#[test]
fn comments_stack() {
    let mut t = RichText::new(1);
    t.insert(0, "abcd").unwrap();
    t.annotate(0..3, Formatting::Comment("one".to_string()).into_style()).unwrap();
    t.annotate(1..4, Formatting::Comment("two".to_string()).into_style()).unwrap();
    let spans = t.get_spans();
    assert_eq!(spans.len(), 3);
    assert_eq!(spans[0].text, "a");
    assert_eq!(spans[1].text, "bc");
    assert_eq!(spans[1].styles.len(), 2);
    assert_eq!(spans[2].text, "d");
}

#[test]
fn bold_twice_shows_once() {
    let mut t = RichText::new(1);
    t.insert(0, "abcd").unwrap();
    t.annotate(0..3, Formatting::Bold.into_style()).unwrap();
    t.annotate(1..4, Formatting::Bold.into_style()).unwrap();
    let spans = t.get_spans();
    assert_eq!(spans.len(), 1);
    assert_eq!(spans[0].styles.len(), 1);
}

#[test]
fn insert_out_of_range() {
    let mut t = RichText::new(1);
    t.insert(0, "abc").unwrap();
    assert_eq!(
        t.insert(4, "x"),
        Err(RichTextError::IndexOutOfRange { target_index: 4, highest_index: 3 })
    );
    assert_eq!(plain(&t), "abc");
}

#[test]
fn delete_out_of_range() {
    let mut t = RichText::new(1);
    t.insert(0, "abc").unwrap();
    assert_eq!(
        t.delete(1..5),
        Err(RichTextError::IndexOutOfRange { target_index: 5, highest_index: 3 })
    );
    assert_eq!(
        t.delete(2..1),
        Err(RichTextError::IndexOutOfRange { target_index: 2, highest_index: 3 })
    );
    assert_eq!(plain(&t), "abc");
}

#[test]
fn annotate_out_of_range() {
    let mut t = RichText::new(1);
    t.insert(0, "abc").unwrap();
    assert_eq!(
        t.annotate(0..9, Formatting::Bold.into_style()),
        Err(RichTextError::IndexOutOfRange { target_index: 9, highest_index: 3 })
    );
    assert!(t.get_spans()[0].styles.is_empty());
}

#[test]
fn utf16_positions() {
    let mut t = RichText::new(1);
    assert_eq!(t.index_type(), IndexType::Utf16);
    t.insert(0, "a😀b").unwrap();
    assert_eq!(t.len(), 4);
    assert_eq!(
        t.insert(2, "x"),
        Err(RichTextError::IndexOutOfRange { target_index: 2, highest_index: 4 })
    );
    t.insert(3, "x").unwrap();
    assert_eq!(plain(&t), "a😀xb");
    assert_eq!(t.slice(1..3).unwrap(), "😀");
    assert_eq!(
        t.slice(0..2),
        Err(RichTextError::IndexOutOfRange { target_index: 2, highest_index: 5 })
    );
}

#[test]
fn codepoint_positions() {
    let mut t = RichText::new(1);
    t.set_index_type(IndexType::Codepoint);
    t.insert(0, "a😀b").unwrap();
    assert_eq!(t.len(), 3);
    t.insert(2, "x").unwrap();
    assert_eq!(plain(&t), "a😀xb");
    assert_eq!(t.slice(1..3).unwrap(), "😀x");
}

#[test]
fn slice_reads_visible_text() {
    let mut t = RichText::new(7);
    assert_eq!(t.id(), 7);
    t.insert(0, "hello world").unwrap();
    t.delete(0..6).unwrap();
    assert_eq!(t.slice(0..5).unwrap(), "world");
    assert_eq!(t.slice(2..2).unwrap(), "");
}

#[test]
fn empty_text_has_no_spans() {
    let t = RichText::new(1);
    assert!(t.get_spans().is_empty());
    assert_eq!(t.len(), 0);
}

#[test]
fn delete_then_merge_keeps_tombstones() {
    let mut a = RichText::new(1);
    a.insert(0, "abc").unwrap();
    let mut b = RichText::new(2);
    b.merge(&a);
    a.delete(1..2).unwrap();
    b.insert(2, "X").unwrap();
    a.merge(&b);
    b.merge(&a);
    assert_eq!(plain(&a), "aXc");
    assert_eq!(plain(&b), "aXc");
}

#[test]
fn actor_edits() {
    let mut a = Actor::new(1);
    let mut b = Actor::new(2);
    a.insert(0, "abcdef").unwrap();
    a.delete(1, 2).unwrap();
    assert_eq!(plain(&a.text), "adef");
    assert!(a.delete(3, usize::MAX).is_err());
    b.merge(&a);
    assert_eq!(plain(&b.text), "adef");
    a.annotate(0..2, Formatting::NotLink).unwrap();
    assert_eq!(a.text.get_spans().len(), 1);
}

#[test]
fn formatting_table() {
    assert_eq!(Formatting::Bold.tag(), "bold");
    assert_eq!(Formatting::NotBold.tag(), "bold");
    assert_eq!(Formatting::NotLink.tag(), "link");
    assert_eq!(Formatting::Comment("x".to_string()).tag(), "comment");
    assert_eq!(Formatting::Citation("{}".to_string()).tag(), "citation");
    let s = Formatting::NotLink.into_style();
    assert_eq!(s.type_, "link");
    assert_eq!(s.expand, Expand::Both);
    assert_eq!(s.behavior, Behavior::Delete);
    let s = Formatting::Link { url: "https://x".to_string() }.into_style();
    assert_eq!(s.expand, Expand::Neither);
    assert_eq!(s.behavior, Behavior::Merge);
    match s.value {
        StyleValue::Text(u) => assert_eq!(u, "https://x"),
        other => panic!("unexpected value {:?}", other),
    }
    let s = Formatting::NotBold.into_style();
    assert_eq!(s.expand, Expand::After);
    assert_eq!(s.behavior, Behavior::Delete);
}

#[test]
fn icon_keeps_its_fields() {
    let icon = peritext::Icon::new("play", &[1, 2, 3]);
    assert_eq!(icon.id, "play");
    assert_eq!(icon.png_bytes, &[1u8, 2, 3]);
}

#[test]
fn links_merge_into_one() {
    let mut t = RichText::new(1);
    t.insert(0, "abcd").unwrap();
    t.annotate(0..3, Formatting::Link { url: "one".to_string() }.into_style()).unwrap();
    t.annotate(1..4, Formatting::Link { url: "two".to_string() }.into_style()).unwrap();
    let spans = t.get_spans();
    assert_eq!(spans.len(), 2);
    assert_eq!(spans[0].text, "abc");
    assert_eq!(spans[0].styles.len(), 1);
    match &spans[0].styles[0].value {
        StyleValue::Text(u) => assert_eq!(u, "one"),
        other => panic!("unexpected value {:?}", other),
    }
    assert_eq!(spans[1].text, "d");
    assert_eq!(spans[1].styles.len(), 1);
}

#[test]
fn same_style_set_in_another_order_joins() {
    let mut t = RichText::new(1);
    t.insert(0, "ab").unwrap();
    t.annotate(0..1, Formatting::Comment("c".to_string()).into_style()).unwrap();
    t.annotate(0..2, Formatting::Bold.into_style()).unwrap();
    t.annotate(1..2, Formatting::Comment("c".to_string()).into_style()).unwrap();
    let spans = t.get_spans();
    assert_eq!(spans.len(), 1);
    assert_eq!(spans[0].text, "ab");
    assert_eq!(spans[0].styles.len(), 2);
}

#[test]
fn concurrent_runs_at_one_position_order_by_actor() {
    let mut a = RichText::new(1);
    a.insert(0, "xy").unwrap();
    let mut b = RichText::new(2);
    b.merge(&a);
    a.insert(1, "AA").unwrap();
    b.insert(1, "BB").unwrap();
    let mut a2 = RichText::new(1);
    a2.merge(&a);
    a.merge(&b);
    b.merge(&a2);
    assert_eq!(plain(&a), "xBBAAy");
    assert_eq!(plain(&b), "xBBAAy");
}

#[test]
fn style_type_is_the_tag() {
    for f in [Formatting::Bold, Formatting::NotBold, Formatting::NotLink] {
        let tag = f.tag();
        assert_eq!(f.into_style().type_, tag);
    }
}
