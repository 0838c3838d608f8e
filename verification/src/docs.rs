use vstd::prelude::*;
use vstd::string::StringExecFns;

use crate::escape::{escape_html, html_escape};

verus! {

/// The font size of generated HTML documentation.
pub enum FontSize {
    Tiny,
    Scriptsize,
    Footnotesize,
    Small,
    Normalsize,
    Large,
}

impl FontSize {
    pub open spec fn name_spec(&self) -> Seq<char> {
        match self {
            FontSize::Tiny => "tiny"@,
            FontSize::Scriptsize => "scriptsize"@,
            FontSize::Footnotesize => "footnotesize"@,
            FontSize::Small => "small"@,
            FontSize::Normalsize => "normalsize"@,
            FontSize::Large => "large"@,
        }
    }

    /// The size's lowercase name, as it appears on the command line.
    pub fn name(&self) -> (r: String)
        ensures
            r@ == self.name_spec(),
    {
        match self {
            FontSize::Tiny => <String as StringExecFns>::from_str("tiny"),
            FontSize::Scriptsize => <String as StringExecFns>::from_str("scriptsize"),
            FontSize::Footnotesize => <String as StringExecFns>::from_str("footnotesize"),
            FontSize::Small => <String as StringExecFns>::from_str("small"),
            FontSize::Normalsize => <String as StringExecFns>::from_str("normalsize"),
            FontSize::Large => <String as StringExecFns>::from_str("large"),
        }
    }
}

/// Arguments of the documentation-example command: where to read the
/// module, how to render it, and where to put the result.
pub struct Args {
    pub filepath: String,
    pub width: usize,
    pub fontsize: FontSize,
    pub omit_lambda_sugar: bool,
    pub omit_function_sugar: bool,
    pub indent: isize,
    pub output: Option<String>,
}

/// The fixed head of every generated HTML page.
pub open spec fn html_start_spec() -> Seq<char> {
    "<!DOCTYPE html>\n"@ + "<html lang=\"en\">\n"@ + "<head>\n"@ + "    <meta charset=\"UTF-8\">\n"@
        + "    <meta name=\"viewport\" content=\"width=device-width, initial-scale=1.0\">\n"@
        + "    <title>Code Display</title>\n"@
        + "    <link rel=\"stylesheet\" href=\"style.css\">\n"@ + "</head>\n"@
}

/// The opening of a generated HTML page, up to and including its head.
pub fn html_start() -> (r: String)
    ensures
        r@ == html_start_spec(),
{
    let mut html_start_string: String = String::new();
    html_start_string.append("<!DOCTYPE html>\n");
    html_start_string.append("<html lang=\"en\">\n");
    html_start_string.append("<head>\n");
    html_start_string.append("    <meta charset=\"UTF-8\">\n");
    html_start_string.append(
        "    <meta name=\"viewport\" content=\"width=device-width, initial-scale=1.0\">\n",
    );
    html_start_string.append("    <title>Code Display</title>\n");
    html_start_string.append("    <link rel=\"stylesheet\" href=\"style.css\">\n");
    html_start_string.append("</head>\n");
    html_start_string
}

/// The closing of a generated HTML page.
pub fn html_end() -> (r: String)
    ensures
        r@ == "</html>\n"@,
{
    <String as StringExecFns>::from_str("</html>\n")
}

/// The parts, joined by the separator.
pub open spec fn joined(parts: Seq<Seq<char>>, sep: Seq<char>) -> Seq<char>
    decreases parts.len(),
{
    if parts.len() == 0 {
        Seq::empty()
    } else if parts.len() == 1 {
        parts[0]
    } else {
        parts[0] + sep + joined(parts.skip(1), sep)
    }
}

/// Joining one more part appends a separator and the part.
pub proof fn lemma_joined_push(parts: Seq<Seq<char>>, sep: Seq<char>, x: Seq<char>)
    ensures
        joined(parts.push(x), sep) == if parts.len() == 0 {
            x
        } else {
            joined(parts, sep) + sep + x
        },
    decreases parts.len(),
{
    let p = parts.push(x);
    if parts.len() == 0 {
        assert(p.len() == 1);
        assert(p[0] == x);
    } else if parts.len() == 1 {
        assert(p.len() == 2);
        assert(p.skip(1) =~= seq![x]);
        assert(joined(p.skip(1), sep) == x);
        assert(p[0] == parts[0]);
        assert(joined(parts, sep) == parts[0]);
    } else {
        assert(p.skip(1) =~= parts.skip(1).push(x));
        lemma_joined_push(parts.skip(1), sep, x);
        assert(p[0] == parts[0]);
        assert(joined(p, sep) == parts[0] + sep + (joined(parts.skip(1), sep) + sep + x));
        assert(joined(parts, sep) + sep + x =~= parts[0] + sep + (joined(parts.skip(1), sep) + sep
            + x));
    }
}

/// A fragment of generated HTML documentation.  `gen_spec` is the exact
/// text the fragment renders to.
pub trait Generate {
    spec fn gen_spec(&self) -> Seq<char>;

    fn generate(&self) -> (r: String)
        ensures
            r@ == self.gen_spec(),
    ;
}

/// The documentation comment attached to a declaration.
pub struct DocComment {
    pub docs: Vec<String>,
}

/// One comment line, wrapped in its span and escaped.
pub open spec fn doc_line(d: Seq<char>) -> Seq<char> {
    "<span class=\"comment\">"@ + " "@ + html_escape(d) + " "@ + "</span>"@
}

impl Generate for DocComment {
    open spec fn gen_spec(&self) -> Seq<char> {
        joined(Seq::new(self.docs@.len(), |i: int| doc_line(self.docs@[i]@)), "<br>"@) + "<br>"@
    }

    fn generate(&self) -> (r: String) {
        let ghost lines = Seq::new(self.docs@.len(), |i: int| doc_line(self.docs@[i]@));
        let mut out: String = String::new();
        let mut i: usize = 0;
        while i < self.docs.len()
            invariant
                i <= self.docs@.len(),
                lines == Seq::new(self.docs@.len(), |j: int| doc_line(self.docs@[j]@)),
                out@ == joined(lines.take(i as int), "<br>"@),
            decreases self.docs@.len() - i,
        {
            if i > 0 {
                out.append("<br>");
            }
            out.append("<span class=\"comment\">");
            out.append(" ");
            let escaped = escape_html(self.docs[i].as_str());
            out.append(escaped.as_str());
            out.append(" ");
            out.append("</span>");
            proof {
                assert(lines.take(i + 1 as int) =~= lines.take(i as int).push(lines[i as int]));
                lemma_joined_push(lines.take(i as int), "<br>"@, lines[i as int]);
                assert(out@ =~= joined(lines.take(i + 1 as int), "<br>"@));
            }
            i = i + 1;
        }
        out.append("<br>");
        proof {
            assert(lines.take(self.docs@.len() as int) =~= lines);
        }
        out
    }
}

/// One attribute of a declaration.
pub enum Attribute {
    OmitPrint,
    Opaque,
    Transparent,
    Other(String),
}

impl Generate for Attribute {
    open spec fn gen_spec(&self) -> Seq<char> {
        match self {
            Attribute::OmitPrint => "omit_print"@,
            Attribute::Opaque => "opaque"@,
            Attribute::Transparent => "transparent"@,
            Attribute::Other(s) => s@,
        }
    }

    fn generate(&self) -> (r: String) {
        match self {
            Attribute::OmitPrint => <String as StringExecFns>::from_str("omit_print"),
            Attribute::Opaque => <String as StringExecFns>::from_str("opaque"),
            Attribute::Transparent => <String as StringExecFns>::from_str("transparent"),
            Attribute::Other(s) => s.clone(),
        }
    }
}

/// The attribute list of a declaration.
pub struct Attributes {
    pub attrs: Vec<Attribute>,
}

impl Generate for Attributes {
    open spec fn gen_spec(&self) -> Seq<char> {
        if self.attrs@.len() == 0 {
            Seq::empty()
        } else {
            "#"@ + "( "@ + joined(
                Seq::new(self.attrs@.len(), |i: int| self.attrs@[i].gen_spec()),
                ", "@,
            ) + " )"@
        }
    }

    fn generate(&self) -> (r: String) {
        if self.attrs.len() == 0 {
            return String::new();
        }
        let ghost parts = Seq::new(self.attrs@.len(), |i: int| self.attrs@[i].gen_spec());
        let mut out: String = <String as StringExecFns>::from_str("#");
        out.append("( ");
        let mut i: usize = 0;
        while i < self.attrs.len()
            invariant
                i <= self.attrs@.len(),
                parts == Seq::new(self.attrs@.len(), |j: int| self.attrs@[j].gen_spec()),
                out@ == "#"@ + "( "@ + joined(parts.take(i as int), ", "@),
            decreases self.attrs@.len() - i,
        {
            if i > 0 {
                out.append(", ");
            }
            let part = self.attrs[i].generate();
            out.append(part.as_str());
            proof {
                assert(parts.take(i + 1 as int) =~= parts.take(i as int).push(parts[i as int]));
                lemma_joined_push(parts.take(i as int), ", "@, parts[i as int]);
                assert(out@ =~= "#"@ + "( "@ + joined(parts.take(i + 1 as int), ", "@));
            }
            i = i + 1;
        }
        out.append(" )");
        proof {
            assert(parts.take(self.attrs@.len() as int) =~= parts);
        }
        out
    }
}

} // verus!
