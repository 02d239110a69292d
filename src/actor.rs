use vstd::prelude::*;
use vstd::string::StringExecFns;
use crate::style::{Behavior, Expand, Style, StyleValue, StyleView, ValueView};
use crate::id::Id;
use crate::model::{
    at_boundary, end_anchor, inserted_at, range_error, range_ok, start_anchor, width, IndexType, MarkView,
    RichTextError, MAX_ELEMS,
};
use crate::text::RichText;

verus! {

/// Formatting intents an editor offers, each with its payload.
#[derive(Debug)]
pub enum Formatting {
    Bold,
    NotBold,
    Link { url: String },
    NotLink,
    /// A citation, carried as its serialized form.
    Citation(String),
    Comment(String),
}

/// Something that names the annotation type it stands for.
pub trait Formattable {
    /// The annotation type, as a spec value.
    spec fn tag_spec(&self) -> Seq<char>;

    fn tag(&self) -> (r: &'static str)
        ensures
            r@ == self.tag_spec(),
    ;
}

/// The style each intent maps to.
pub open spec fn style_of(f: Formatting) -> StyleView {
    match f {
        Formatting::Bold => StyleView {
            tag: "bold"@,
            value: ValueView::Null,
            expand: Expand::After,
            behavior: Behavior::Merge,
        },
        Formatting::NotBold => StyleView {
            tag: "bold"@,
            value: ValueView::Null,
            expand: Expand::After,
            behavior: Behavior::Delete,
        },
        Formatting::Link { url } => StyleView {
            tag: "link"@,
            value: ValueView::Text(url@),
            expand: Expand::Neither,
            behavior: Behavior::Merge,
        },
        Formatting::NotLink => StyleView {
            tag: "link"@,
            value: ValueView::Null,
            expand: Expand::Both,
            behavior: Behavior::Delete,
        },
        Formatting::Citation(c) => StyleView {
            tag: "citation"@,
            value: ValueView::Text(c@),
            expand: Expand::Neither,
            behavior: Behavior::AllowMultiple,
        },
        Formatting::Comment(c) => StyleView {
            tag: "comment"@,
            value: ValueView::Text(c@),
            expand: Expand::Neither,
            behavior: Behavior::AllowMultiple,
        },
    }
}

impl Formattable for Formatting {
    open spec fn tag_spec(&self) -> Seq<char> {
        style_of(*self).tag
    }

    fn tag(&self) -> (r: &'static str) {
        proof {
            reveal_strlit("bold");
            reveal_strlit("link");
            reveal_strlit("citation");
            reveal_strlit("comment");
        }
        match self {
            Formatting::Bold | Formatting::NotBold => "bold",
            Formatting::Link { .. } | Formatting::NotLink => "link",
            Formatting::Citation(_) => "citation",
            Formatting::Comment(_) => "comment",
        }
    }
}

impl Formatting {
    /// The style this intent applies.
    pub fn into_style(self) -> (r: Style)
        ensures
            r@ == style_of(self),
    {
        proof {
            reveal_strlit("bold");
            reveal_strlit("link");
            reveal_strlit("citation");
            reveal_strlit("comment");
        }
        match self {
            Formatting::Bold => Style::new(
                String::from_str("bold"),
                StyleValue::Null,
                Expand::After,
                Behavior::Merge,
            ),
            Formatting::NotBold => Style::new(
                String::from_str("bold"),
                StyleValue::Null,
                Expand::After,
                Behavior::Delete,
            ),
            Formatting::Link { url } => Style::new(
                String::from_str("link"),
                StyleValue::Text(url),
                Expand::Neither,
                Behavior::Merge,
            ),
            Formatting::NotLink => Style::new(
                String::from_str("link"),
                StyleValue::Null,
                Expand::Both,
                Behavior::Delete,
            ),
            Formatting::Citation(c) => Style::new(
                String::from_str("citation"),
                StyleValue::Text(c),
                Expand::Neither,
                Behavior::AllowMultiple,
            ),
            Formatting::Comment(c) => Style::new(
                String::from_str("comment"),
                StyleValue::Text(c),
                Expand::Neither,
                Behavior::AllowMultiple,
            ),
        }
    }
}

/// A participant editing its own replica.
pub struct Actor {
    pub text: RichText,
}

impl Actor {
    pub fn new(id: usize) -> (r: Actor)
        ensures
            r.text.wf(),
            r.text.actor() == id as u64,
            r.text.clock() == 0,
            r.text.kind() == IndexType::Utf16,
            r.text@.elems.len() == 0,
            r.text@.marks.len() == 0,
    {
        Actor { text: RichText::new(id as u64) }
    }

    /// Inserts `content` at visible position `pos`.
    pub fn insert(&mut self, pos: usize, content: &str) -> (r: Result<(), RichTextError>)
        requires
            old(self).text.wf(),
            old(self).text@.elems.len() + content@.len() <= MAX_ELEMS,
            old(self).text.clock() + content@.len() <= u64::MAX,
        ensures
            final(self).text.wf(),
            final(self).text.actor() == old(self).text.actor(),
            final(self).text.kind() == old(self).text.kind(),
            final(self).text@.marks == old(self).text@.marks,
            r is Ok ==> exists|n: int, x: int|
                #[trigger] at_boundary(old(self).text@.elems, n, x) && inserted_at(
                    old(self).text@.elems,
                    final(self).text@.elems,
                    x,
                    old(self).text.clock(),
                    old(self).text.actor(),
                    content@,
                ) && width(old(self).text.text().take(n), old(self).text.kind()) == pos,
            r is Err ==> r == Err::<(), RichTextError>(
                RichTextError::IndexOutOfRange {
                    target_index: pos,
                    highest_index: width(old(self).text.text(), old(self).text.kind()) as usize,
                },
            ),
            r is Ok <==> crate::model::is_boundary(old(self).text.text(), old(self).text.kind(), pos as int),
            r is Ok ==> exists|n: int|
                0 <= n <= old(self).text.text().len() && #[trigger] width(
                    old(self).text.text().take(n),
                    old(self).text.kind(),
                ) == pos && final(self).text.text() == old(self).text.text().take(n) + content@
                    + old(self).text.text().skip(n),
            r is Ok ==> final(self).text.clock() == old(self).text.clock() + content@.len(),
            r is Err ==> final(self).text@ == old(self).text@ && final(self).text.clock() == old(
                self,
            ).text.clock(),
    {
        self.text.insert(pos, content)
    }

    /// Deletes `len` units starting at visible position `pos`.
    pub fn delete(&mut self, pos: usize, len: usize) -> (r: Result<(), RichTextError>)
        requires
            old(self).text.wf(),
        ensures
            final(self).text.wf(),
            final(self).text.actor() == old(self).text.actor(),
            final(self).text.kind() == old(self).text.kind(),
            final(self).text.clock() == old(self).text.clock(),
            final(self).text@.marks == old(self).text@.marks,
            final(self).text@.elems.len() == old(self).text@.elems.len(),
            forall|i: int|
                0 <= i < old(self).text@.elems.len() ==> (#[trigger] final(self).text@.elems[i]).key
                    == old(self).text@.elems[i].key && final(self).text@.elems[i].ch == old(
                    self,
                ).text@.elems[i].ch && (old(self).text@.elems[i].deleted
                    ==> final(self).text@.elems[i].deleted),
            r is Ok <==> pos + len <= usize::MAX && range_ok(
                old(self).text.text(),
                old(self).text.kind(),
                pos as int,
                pos + len,
            ),
            r is Ok ==> exists|ns: int, ne: int|
                0 <= ns <= ne <= old(self).text.text().len() && #[trigger] width(
                    old(self).text.text().take(ns),
                    old(self).text.kind(),
                ) == pos && #[trigger] width(old(self).text.text().take(ne), old(self).text.kind())
                    == pos + len && final(self).text.text() == old(self).text.text().take(ns) + old(
                    self,
                ).text.text().skip(ne),
            r is Err ==> final(self).text@ == old(self).text@,
            pos + len <= usize::MAX && r is Err ==> r == Err::<(), RichTextError>(
                range_error(old(self).text.text(), old(self).text.kind(), pos, (pos + len) as usize),
            ),
            pos + len > usize::MAX ==> r == Err::<(), RichTextError>(
                RichTextError::IndexOutOfRange {
                    target_index: pos,
                    highest_index: width(old(self).text.text(), old(self).text.kind()) as usize,
                },
            ),
    {
        match pos.checked_add(len) {
            None => {
                let h = self.text.len();
                Err(RichTextError::IndexOutOfRange { target_index: pos, highest_index: h })
            },
            Some(end) => self.text.delete(pos..end),
        }
    }

    /// Applies the style of `type_` to the visible characters in `range`.
    pub fn annotate(&mut self, range: std::ops::Range<usize>, type_: Formatting) -> (r: Result<
        (),
        RichTextError,
    >)
        requires
            old(self).text.wf(),
            old(self).text.clock() < u64::MAX,
        ensures
            final(self).text.wf(),
            final(self).text.actor() == old(self).text.actor(),
            final(self).text.kind() == old(self).text.kind(),
            final(self).text@.elems == old(self).text@.elems,
            r is Err ==> r == Err::<(), RichTextError>(
                range_error(old(self).text.text(), old(self).text.kind(), range.start, range.end),
            ),
            r is Ok <==> range_ok(
                old(self).text.text(),
                old(self).text.kind(),
                range.start as int,
                range.end as int,
            ),
            r is Ok ==> final(self).text.clock() == old(self).text.clock() + 1 && exists|
                ns: int,
                xs: int,
                ne: int,
                xe: int,
            |
                0 <= ns <= ne <= old(self).text.text().len() && #[trigger] width(
                    old(self).text.text().take(ns),
                    old(self).text.kind(),
                ) == range.start && #[trigger] width(
                    old(self).text.text().take(ne),
                    old(self).text.kind(),
                ) == range.end && #[trigger] at_boundary(old(self).text@.elems, ns, xs)
                    && #[trigger] at_boundary(old(self).text@.elems, ne, xe)
                    && final(self).text@.marks == old(self).text@.marks.push(
                    MarkView {
                        id: Id { counter: (old(self).text.clock() + 1) as u64, actor: old(self).text.actor() },
                        start: start_anchor(old(self).text@.elems, xs, style_of(type_).expand),
                        end: end_anchor(old(self).text@.elems, xe, style_of(type_).expand),
                        style: style_of(type_),
                    },
                ),
            r is Err ==> final(self).text@ == old(self).text@ && final(self).text.clock() == old(
                self,
            ).text.clock(),
    {
        let style = type_.into_style();
        self.text.annotate(range, style)
    }

    /// Takes in everything `other` knows.
    pub fn merge(&mut self, other: &Actor)
        requires
            old(self).text.wf(),
            other.text.wf(),
            old(self).text@.elems.len() + other.text@.elems.len() <= MAX_ELEMS,
        ensures
            final(self).text.wf(),
            final(self).text@ == crate::model::merged(old(self).text@, other.text@),
            final(self).text.actor() == old(self).text.actor(),
            final(self).text.kind() == old(self).text.kind(),
            final(self).text.clock() == if old(self).text.clock() >= other.text.clock() {
                old(self).text.clock()
            } else {
                other.text.clock()
            },
    {
        self.text.merge(&other.text)
    }
}

} // verus!
