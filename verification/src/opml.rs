//! OPML export: a minimal writer with XML escaping, so hostile titles or
//! URLs cannot break the document.

use vstd::prelude::*;
use crate::text::{str_chars, string_push};

verus! {

/// One feed to write as an OPML `<outline>`: its label, its feed URL and,
/// optionally, its site URL.
#[derive(Debug, Clone)]
pub struct OpmlFeed {
    pub text: String,
    pub xml_url: String,
    pub html_url: Option<String>,
}

impl OpmlFeed {
    /// A field-for-field copy.
    pub fn duplicate(&self) -> (r: OpmlFeed)
        ensures
            r == *self,
    {
        OpmlFeed {
            text: self.text.clone(),
            xml_url: self.xml_url.clone(),
            html_url: crate::feedbin::copy_opt_string(&self.html_url),
        }
    }
}

/// The escape of one character inside an attribute value or element text.
pub open spec fn escape_char(c: char) -> Seq<char> {
    if c == '&' {
        "&amp;"@
    } else if c == '<' {
        "&lt;"@
    } else if c == '>' {
        "&gt;"@
    } else if c == '"' {
        "&quot;"@
    } else if c == '\'' {
        "&apos;"@
    } else {
        seq![c]
    }
}

/// `s` with the five XML predefined entities escaped.
pub open spec fn xml_escape_spec(s: Seq<char>) -> Seq<char>
    decreases s.len(),
{
    if s.len() == 0 {
        seq![]
    } else {
        xml_escape_spec(s.drop_last()) + escape_char(s.last())
    }
}

/// Escape the five XML predefined entities so a value is safe inside a
/// double-quoted attribute (and as element text).
pub fn xml_escape(s: &str) -> (r: String)
    ensures
        r@ == xml_escape_spec(s@),
{
    let v = str_chars(s);
    let mut out = String::new();
    let mut i: usize = 0;
    while i < v.len()
        invariant
            0 <= i <= v@.len(),
            v@ == s@,
            out@ == xml_escape_spec(v@.take(i as int)),
        decreases v@.len() - i,
    {
        proof {
            assert(v@.take(i + 1).drop_last() == v@.take(i as int));
            assert(v@.take(i + 1).last() == v@[i as int]);
        }
        let c = v[i];
        if c == '&' {
            out.append("&amp;");
        } else if c == '<' {
            out.append("&lt;");
        } else if c == '>' {
            out.append("&gt;");
        } else if c == '"' {
            out.append("&quot;");
        } else if c == '\'' {
            out.append("&apos;");
        } else {
            string_push(&mut out, c);
        }
        i += 1;
    }
    proof {
        assert(v@.take(v@.len() as int) == v@);
    }
    out
}

/// The `<outline>` line of one feed.
pub open spec fn outline_spec(f: OpmlFeed) -> Seq<char> {
    "    <outline type=\"rss\" text=\""@ + xml_escape_spec(f.text@) + "\" xmlUrl=\""@
        + xml_escape_spec(f.xml_url@) + "\""@ + (match f.html_url {
        Some(h) => " htmlUrl=\""@ + xml_escape_spec(h@) + "\""@,
        None => seq![],
    }) + "/>\n"@
}

/// The outline lines of `feeds`, in order.
pub open spec fn outlines_spec(feeds: Seq<OpmlFeed>) -> Seq<char>
    decreases feeds.len(),
{
    if feeds.len() == 0 {
        seq![]
    } else {
        outlines_spec(feeds.drop_last()) + outline_spec(feeds.last())
    }
}

/// The OPML 2.0 document for `feeds`, with `title` in the head.
pub open spec fn to_opml_spec(title: Seq<char>, feeds: Seq<OpmlFeed>) -> Seq<char> {
    "<?xml version=\"1.0\" encoding=\"UTF-8\"?>\n<opml version=\"2.0\">\n  <head>\n    <title>"@
        + xml_escape_spec(title) + "</title>\n  </head>\n  <body>\n"@ + outlines_spec(feeds)
        + "  </body>\n</opml>\n"@
}

fn push_outline(out: &mut String, f: &OpmlFeed)
    ensures
        final(out)@ == old(out)@ + outline_spec(*f),
{
    out.append("    <outline type=\"rss\" text=\"");
    let t = xml_escape(f.text.as_str());
    out.append(t.as_str());
    out.append("\" xmlUrl=\"");
    let x = xml_escape(f.xml_url.as_str());
    out.append(x.as_str());
    out.append("\"");
    if let Some(h) = &f.html_url {
        out.append(" htmlUrl=\"");
        let e = xml_escape(h.as_str());
        out.append(e.as_str());
        out.append("\"");
    }
    out.append("/>\n");
    proof {
        assert(out@ =~= old(out)@ + outline_spec(*f));
    }
}

/// Serialize `feeds` to an OPML 2.0 document with `title` in the head. Feeds
/// are written in the order given; every attribute value and the title are
/// escaped.
pub fn to_opml(title: &str, feeds: &[OpmlFeed]) -> (r: String)
    ensures
        r@ == to_opml_spec(title@, feeds@),
{
    let mut out = String::from_str(
        "<?xml version=\"1.0\" encoding=\"UTF-8\"?>\n<opml version=\"2.0\">\n  <head>\n    <title>",
    );
    let t = xml_escape(title);
    out.append(t.as_str());
    out.append("</title>\n  </head>\n  <body>\n");
    let ghost head = out@;
    let mut i: usize = 0;
    while i < feeds.len()
        invariant
            0 <= i <= feeds@.len(),
            out@ == head + outlines_spec(feeds@.take(i as int)),
        decreases feeds@.len() - i,
    {
        proof {
            assert(feeds@.take(i + 1).drop_last() == feeds@.take(i as int));
            assert(feeds@.take(i + 1).last() == feeds@[i as int]);
        }
        push_outline(&mut out, &feeds[i]);
        proof {
            assert(out@ =~= head + outlines_spec(feeds@.take(i + 1)));
        }
        i += 1;
    }
    proof {
        assert(feeds@.take(feeds@.len() as int) == feeds@);
    }
    out.append("  </body>\n</opml>\n");
    proof {
        assert(out@ =~= to_opml_spec(title@, feeds@));
    }
    out
}

} // verus!
