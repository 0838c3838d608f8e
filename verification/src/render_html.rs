use vstd::prelude::*;
use vstd::string::StringExecFns;

use crate::escape::{escape_html, html_escape};

verus! {

/// A rendering annotation of the pretty-printer's document stream.
pub enum Anno {
    Keyword,
    Ctor,
    Dtor,
    Type,
    Comment,
    Backslash,
    BraceOpen,
    BraceClose,
    Error,
    /// A hyperlink to another rendered document.
    Reference(String),
}

/// The mathematical shape of an annotation.
pub enum AnnoView {
    Keyword,
    Ctor,
    Dtor,
    Type,
    Comment,
    Backslash,
    BraceOpen,
    BraceClose,
    Error,
    Reference(Seq<char>),
}

impl View for Anno {
    type V = AnnoView;

    open spec fn view(&self) -> AnnoView {
        match self {
            Anno::Keyword => AnnoView::Keyword,
            Anno::Ctor => AnnoView::Ctor,
            Anno::Dtor => AnnoView::Dtor,
            Anno::Type => AnnoView::Type,
            Anno::Comment => AnnoView::Comment,
            Anno::Backslash => AnnoView::Backslash,
            Anno::BraceOpen => AnnoView::BraceOpen,
            Anno::BraceClose => AnnoView::BraceClose,
            Anno::Error => AnnoView::Error,
            Anno::Reference(uri) => AnnoView::Reference(uri@),
        }
    }
}

impl DeepView for Anno {
    type V = AnnoView;

    open spec fn deep_view(&self) -> AnnoView {
        self@
    }
}

/// The HTML tag emitted when an annotation is opened.
pub open spec fn open_tag(a: AnnoView) -> Seq<char> {
    match a {
        AnnoView::Keyword => "<span class=\"keyword\">"@,
        AnnoView::Ctor => "<span class=\"ctor\">"@,
        AnnoView::Dtor => "<span class=\"dtor\">"@,
        AnnoView::Type => "<span class=\"type\">"@,
        AnnoView::Comment => "<span class=\"comment\">"@,
        AnnoView::Backslash => Seq::empty(),
        AnnoView::BraceOpen => Seq::empty(),
        AnnoView::BraceClose => Seq::empty(),
        AnnoView::Error => "<span class=\"error\">"@,
        AnnoView::Reference(uri) => "<a href=\""@ + uri + "\">"@,
    }
}

/// The HTML tag emitted when the topmost annotation of `annos` is closed.
pub open spec fn close_tag(annos: Seq<AnnoView>) -> Seq<char> {
    if annos.len() > 0 && (annos.last() is Backslash || annos.last() is BraceOpen
        || annos.last() is BraceClose || annos.last() is Type) {
        Seq::empty()
    } else if annos.len() > 0 && annos.last() is Reference {
        "</a>"@
    } else {
        "</span>"@
    }
}

/// Renders an annotated document stream as HTML: text is escaped,
/// annotations become `span` and anchor tags, and everything under a
/// `Type` annotation is suppressed.  The computed fragments are handed
/// back to the caller, who forwards them to the upstream writer.
pub struct RenderHtml<W> {
    anno_stack: Vec<Anno>,
    upstream: W,
}

impl<W> RenderHtml<W> {
    /// The currently open annotations, outermost first.
    pub closed spec fn annos(&self) -> Seq<AnnoView> {
        self.anno_stack.deep_view()
    }

    /// The wrapped upstream writer.
    pub closed spec fn ups(&self) -> W {
        self.upstream
    }

    pub fn new(upstream: W) -> (r: RenderHtml<W>)
        ensures
            r.annos() == Seq::<AnnoView>::empty(),
            r.ups() == upstream,
    {
        let r = RenderHtml { anno_stack: Vec::new(), upstream };
        proof {
            assert(r.annos() =~= Seq::<AnnoView>::empty());
        }
        r
    }

    /// The fragment to forward for a piece of text: its HTML escaping, or
    /// nothing while a `Type` annotation is open.
    pub fn write_str(&self, s: &str) -> (r: Option<String>)
        ensures
            match r {
                None => self.annos().len() > 0 && self.annos().last() is Type,
                Some(out) => (self.annos().len() == 0 || !(self.annos().last() is Type))
                    && out@ == html_escape(s@),
            },
    {
        let n = self.anno_stack.len();
        if n > 0 {
            let top = &self.anno_stack[n - 1];
            proof {
                assert(self.anno_stack.deep_view()[n - 1] == self.anno_stack@[n - 1 as int]@);
            }
            if let Anno::Type = top {
                return None;
            }
        }
        Some(escape_html(s))
    }

    /// Opens an annotation: pushes it and hands back its opening tag.
    pub fn push_annotation(&mut self, anno: Anno) -> (out: String)
        ensures
            final(self).annos() == old(self).annos().push(anno@),
            final(self).ups() == old(self).ups(),
            out@ == open_tag(anno@),
    {
        let out: String = match &anno {
            Anno::Keyword => <String as StringExecFns>::from_str("<span class=\"keyword\">"),
            Anno::Ctor => <String as StringExecFns>::from_str("<span class=\"ctor\">"),
            Anno::Dtor => <String as StringExecFns>::from_str("<span class=\"dtor\">"),
            Anno::Type => <String as StringExecFns>::from_str("<span class=\"type\">"),
            Anno::Comment => <String as StringExecFns>::from_str("<span class=\"comment\">"),
            Anno::Backslash => String::new(),
            Anno::BraceOpen => String::new(),
            Anno::BraceClose => String::new(),
            Anno::Error => <String as StringExecFns>::from_str("<span class=\"error\">"),
            Anno::Reference(uri) => {
                let mut s: String = <String as StringExecFns>::from_str("<a href=\"");
                s.append(uri.as_str());
                s.append("\">");
                s
            },
        };
        self.anno_stack.push(anno);
        proof {
            assert(self.annos() =~= old(self).annos().push(anno@));
        }
        out
    }

    /// Closes the topmost annotation: pops it and hands back its closing
    /// tag; on an empty stack nothing is popped and a plain span closing
    /// tag is handed back.
    pub fn pop_annotation(&mut self) -> (out: String)
        ensures
            final(self).annos() == if old(self).annos().len() > 0 {
                old(self).annos().drop_last()
            } else {
                old(self).annos()
            },
            final(self).ups() == old(self).ups(),
            out@ == close_tag(old(self).annos()),
    {
        let n = self.anno_stack.len();
        let out: String = if n > 0 {
            let top = &self.anno_stack[n - 1];
            proof {
                assert(self.anno_stack.deep_view()[n - 1] == self.anno_stack@[n - 1 as int]@);
            }
            match top {
                Anno::Backslash | Anno::BraceOpen | Anno::BraceClose | Anno::Type => String::new(),
                Anno::Reference(_) => <String as StringExecFns>::from_str("</a>"),
                _ => <String as StringExecFns>::from_str("</span>"),
            }
        } else {
            <String as StringExecFns>::from_str("</span>")
        };
        let _ = self.anno_stack.pop();
        proof {
            if old(self).annos().len() > 0 {
                assert forall|j: int| 0 <= j < self.annos().len() implies self.annos()[j] == old(
                    self,
                ).annos().drop_last()[j] by {
                    assert(self.annos()[j] == self.anno_stack@[j]@);
                    assert(old(self).annos()[j] == old(self).anno_stack@[j]@);
                }
                assert(self.annos() =~= old(self).annos().drop_last());
            }
        }
        out
    }
}

} // verus!
