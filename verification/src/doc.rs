//! Documents of the crate `pretty`, a Wadler-style pretty printer.
use vstd::prelude::*;

use crate::text::begins_with;

verus! {

/// Declares the document type of the crate `pretty`.
#[verifier::external_type_specification]
#[verifier::external_body]
#[verifier::reject_recursive_types(A)]
pub struct ExRcDoc<'a, A>(pretty::RcDoc<'a, A>);

/// A type alias for the way how we use crate `pretty`'s document type. Our simple usage doesn't
/// require any lifetime management.
pub type PrettyDoc = pretty::RcDoc<'static, ()>;

/// What a document holds.
pub enum DocTree {
    /// Nothing.
    Nil,
    /// A text.
    Text(Seq<char>),
    /// A line break.
    Line,
    /// One document after another.
    Append(Box<DocTree>, Box<DocTree>),
    /// A document to be laid out on a single line if possible.
    Group(Box<DocTree>),
    /// A document for several lines, and the one that replaces it on a single line.
    FlatAlt(Box<DocTree>, Box<DocTree>),
    /// A document whose lines are indented further.
    Nest(int, Box<DocTree>),
    /// Anything else.
    Other,
}

/// What a document of the crate `pretty`, a collection of texts and line breaks, holds.
pub uninterp spec fn doc_tree(doc: pretty::RcDoc<'static, ()>) -> DocTree;

/// The text that `pretty` lays a document out as, on a page of the given width.
pub uninterp spec fn rendered(tree: DocTree, width: nat) -> Seq<char>;

/// What documents hold.
pub open spec fn trees(docs: Seq<PrettyDoc>) -> Seq<DocTree> {
    Seq::new(docs.len(), |i: int| doc_tree(docs[i]))
}

/// One document after another. Nothing is added where one of them is empty.
pub open spec fn append_tree(a: DocTree, b: DocTree) -> DocTree {
    if a is Nil {
        b
    } else if b is Nil {
        a
    } else {
        DocTree::Append(Box::new(a), Box::new(b))
    }
}

/// A group. A group of a group or of nothing is that itself.
pub open spec fn group_tree(a: DocTree) -> DocTree {
    if a is Group || a is Nil {
        a
    } else {
        DocTree::Group(Box::new(a))
    }
}

/// An indented document. Nothing changes where there is nothing to indent, or no indentation.
pub open spec fn nest_tree(a: DocTree, offset: int) -> DocTree {
    if a is Nil || offset == 0 {
        a
    } else {
        DocTree::Nest(offset, Box::new(a))
    }
}

/// A line break that becomes a space on a single line.
pub open spec fn line_tree() -> DocTree {
    DocTree::FlatAlt(Box::new(DocTree::Line), Box::new(DocTree::Text(" "@)))
}

/// A line break that vanishes on a single line.
pub open spec fn line_or_nil_tree() -> DocTree {
    DocTree::FlatAlt(Box::new(DocTree::Line), Box::new(DocTree::Nil))
}

/// Documents with a separator between each two of them.
pub open spec fn intersperse_tree(docs: Seq<DocTree>, separator: DocTree) -> DocTree
    decreases docs.len(),
{
    if docs.len() == 0 {
        DocTree::Nil
    } else if docs.len() == 1 {
        docs[0]
    } else {
        append_tree(
            append_tree(intersperse_tree(docs.drop_last(), separator), separator),
            docs.last(),
        )
    }
}

/// Tells whether a document can be laid out: it is made of what is listed in `DocTree`, and no
/// line moves to the left.
pub open spec fn renderable(tree: DocTree) -> bool
    decreases tree,
{
    match tree {
        DocTree::Nil => true,
        DocTree::Text(_) => true,
        DocTree::Line => true,
        DocTree::Append(a, b) => renderable(*a) && renderable(*b),
        DocTree::Group(a) => renderable(*a),
        DocTree::FlatAlt(a, b) => renderable(*a) && renderable(*b),
        DocTree::Nest(offset, a) => offset >= 0 && renderable(*a),
        DocTree::Other => false,
    }
}

/// The text of a document without line breaks.
pub open spec fn plain_text(tree: DocTree) -> Option<Seq<char>>
    decreases tree,
{
    match tree {
        DocTree::Nil => Some(Seq::empty()),
        DocTree::Text(s) => Some(s),
        DocTree::Append(a, b) => match (plain_text(*a), plain_text(*b)) {
            (Some(s), Some(t)) => Some(s + t),
            _ => None,
        },
        DocTree::Nest(_, a) => plain_text(*a),
        DocTree::Group(a) => plain_text(*a),
        _ => None,
    }
}

/// Wraps `pretty::RcDoc::text`, a document that holds the given text.
#[verifier::external_body]
pub(crate) fn text(s: String) -> (res: PrettyDoc)
    ensures
        doc_tree(res) == DocTree::Text(s@),
{
    PrettyDoc::text(s)
}

/// Wraps `pretty::RcDoc::hardline`, a line break.
#[verifier::external_body]
pub(crate) fn hardline() -> (res: PrettyDoc)
    ensures
        doc_tree(res) == DocTree::Line,
{
    PrettyDoc::hardline()
}

/// Wraps `pretty::RcDoc::space`, the text of one space.
#[verifier::external_body]
pub(crate) fn space() -> (res: PrettyDoc)
    ensures
        doc_tree(res) == DocTree::Text(" "@),
{
    PrettyDoc::space()
}

/// Wraps `pretty::RcDoc::line`, a line break that is a space where the document around it is laid
/// out on a single line.
#[verifier::external_body]
pub(crate) fn line() -> (res: PrettyDoc)
    ensures
        doc_tree(res) == line_tree(),
{
    PrettyDoc::line()
}

/// Wraps `pretty::RcDoc::line_`, a line break that is empty where the document around it is laid
/// out on a single line.
#[verifier::external_body]
pub(crate) fn line_or_nil() -> (res: PrettyDoc)
    ensures
        doc_tree(res) == line_or_nil_tree(),
{
    PrettyDoc::line_()
}

/// Wraps `pretty::RcDoc::append`, one document after another.
#[verifier::external_body]
pub(crate) fn append(a: PrettyDoc, b: PrettyDoc) -> (res: PrettyDoc)
    ensures
        doc_tree(res) == append_tree(doc_tree(a), doc_tree(b)),
{
    a.append(b)
}

/// Wraps `pretty::RcDoc::group`, a document to be laid out on a single line if possible.
#[verifier::external_body]
pub(crate) fn group(a: PrettyDoc) -> (res: PrettyDoc)
    ensures
        doc_tree(res) == group_tree(doc_tree(a)),
{
    a.group()
}

/// Wraps `pretty::RcDoc::nest`, a document whose lines are indented by `offset` more.
#[verifier::external_body]
pub(crate) fn nest(a: PrettyDoc, offset: isize) -> (res: PrettyDoc)
    ensures
        doc_tree(res) == nest_tree(doc_tree(a), offset as int),
{
    a.nest(offset)
}

/// Wraps `pretty::RcDoc::intersperse`, the given documents in order with a separator between each
/// two of them.
#[verifier::external_body]
pub(crate) fn intersperse(docs: Vec<PrettyDoc>, separator: PrettyDoc) -> (res: PrettyDoc)
    ensures
        doc_tree(res) == intersperse_tree(trees(docs@), doc_tree(separator)),
{
    PrettyDoc::intersperse(docs, separator)
}

/// Wraps `pretty::Doc::render`, which lays a document out on a page of the given width. The text
/// depends on nothing but what the document holds and the width. A document without line breaks
/// comes out as its text, and one that begins with a text comes out beginning with it. Where a
/// group breaks into lines is left to `pretty`.
#[verifier::external_body]
pub(crate) fn render(doc: &PrettyDoc, width: usize) -> (res: String)
    requires
        renderable(doc_tree(*doc)),
    ensures
        res@ == rendered(doc_tree(*doc), width as nat),
        plain_text(doc_tree(*doc)) matches Some(s) ==> res@ == s,
        match doc_tree(*doc) {
            DocTree::Append(head, _) => match *head {
                DocTree::Text(s) => begins_with(res@, s),
                _ => true,
            },
            _ => true,
        },
{
    let mut lines: Vec<u8> = Vec::new();
    doc.render(width, &mut lines).unwrap();
    String::from_utf8_lossy(&lines).to_string()
}

/// What is put together from documents that can be laid out can be laid out.
pub proof fn lemma_renderable_parts(a: DocTree, b: DocTree, offset: int)
    requires
        renderable(a),
        renderable(b),
        offset >= 0,
    ensures
        renderable(append_tree(a, b)),
        renderable(group_tree(a)),
        renderable(nest_tree(a, offset)),
        renderable(line_tree()),
        renderable(line_or_nil_tree()),
{
    reveal_with_fuel(renderable, 2);
}

/// Documents that can be laid out can be laid out with separators between them.
pub proof fn lemma_renderable_intersperse(docs: Seq<DocTree>, separator: DocTree)
    requires
        forall|i: int| 0 <= i < docs.len() ==> renderable(#[trigger] docs[i]),
        renderable(separator),
    ensures
        renderable(intersperse_tree(docs, separator)),
    decreases docs.len(),
{
    if docs.len() > 1 {
        let front = docs.drop_last();
        assert forall|i: int| 0 <= i < front.len() implies renderable(#[trigger] front[i]) by {
            assert(front[i] == docs[i]);
        }
        lemma_renderable_intersperse(front, separator);
        let head = intersperse_tree(front, separator);
        lemma_renderable_parts(head, separator, 0);
        lemma_renderable_parts(append_tree(head, separator), docs.last(), 0);
    }
}

} // verus!
