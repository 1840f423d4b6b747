//! What the content extractors decide: which extractor a file gets, which
//! parts of a word-processor archive hold text, and how that text is
//! gathered from their XML.
use vstd::prelude::*;
use vstd::string::StringExecFns;
use crate::chars::{str_ends_with, str_eq, str_starts_with};
use crate::document::Extractor;

verus! {

/// The extractor for a file with extension `extension`: `pdf` and `docx`
/// (case-sensitive) have their own, anything else is read as text.
pub open spec fn extractor_of(extension: Seq<char>) -> Extractor {
    if extension == "pdf"@ {
        Extractor::Pdf
    } else if extension == "docx"@ {
        Extractor::Docx
    } else {
        Extractor::PlainText
    }
}

/// Picks the extractor by the file's extension.
pub fn extractor_for(extension: &str) -> (r: Extractor)
    ensures
        r == extractor_of(extension@),
{
    if str_eq(extension, "pdf") {
        Extractor::Pdf
    } else if str_eq(extension, "docx") {
        Extractor::Docx
    } else {
        Extractor::PlainText
    }
}

/// Text is not extracted from PDF files: they contribute no content.
pub fn read_pdf_file(_path: &str) -> (r: Option<String>)
    ensures
        r is None,
{
    None
}

/// Whether an archive entry of this name holds document text: XML parts
/// under `word/`.
pub open spec fn is_content_part(name: Seq<char>) -> bool {
    &&& "word/"@.len() <= name.len()
    &&& name.subrange(0, "word/"@.len() as int) == "word/"@
    &&& ".xml"@.len() <= name.len()
    &&& name.subrange(name.len() - ".xml"@.len(), name.len() as int) == ".xml"@
}

/// Whether the archive entry `name` is one whose XML holds document text.
pub fn is_docx_content_part(name: &str) -> (r: bool)
    ensures
        r == is_content_part(name@),
{
    str_starts_with(name, "word/") && str_ends_with(name, ".xml")
}

/// One node of a parsed XML tree: whether it is an element, its local
/// name (empty for other nodes), and the text it holds directly, if any.
pub struct XmlNode {
    pub is_element: bool,
    pub name: String,
    pub text: Option<String>,
}

/// A node as plain values.
pub open spec fn node_view(n: XmlNode) -> (bool, Seq<char>, Option<Seq<char>>) {
    (
        n.is_element,
        n.name@,
        match n.text {
            Some(t) => Some(t@),
            None => None,
        },
    )
}

/// The nodes of an XML document in document order, as `roxmltree` parses
/// it, or `None` when it does not parse.
pub uninterp spec fn xml_descendants(xml: Seq<char>) -> Option<Seq<(bool, Seq<char>,
    Option<Seq<char>>)>>;

/// Relies on `roxmltree::Document::parse` and `Document::descendants`, with
/// `Node::is_element`, `Node::tag_name` and `Node::text`: the parse depends
/// on the text alone.
#[verifier::external_body]
fn parse_xml_nodes(xml: &str) -> (r: Option<Vec<XmlNode>>)
    ensures
        match r {
            None => xml_descendants(xml@) is None,
            Some(v) => xml_descendants(xml@) == Some(v@.map_values(|n: XmlNode| node_view(n))),
        },
{
    roxmltree::Document::parse(xml).ok().map(
        |doc|
            doc.descendants().map(
                |n|
                    XmlNode {
                        is_element: n.is_element(),
                        name: n.tag_name().name().to_string(),
                        text: n.text().map(|t| t.to_string()),
                    },
            ).collect(),
    )
}

/// The text that one node contributes: the text of a `t` element, then a
/// line break.
pub open spec fn node_text(n: (bool, Seq<char>, Option<Seq<char>>)) -> Seq<char> {
    if n.0 && n.1 == "t"@ {
        match n.2 {
            Some(t) => t + "\n"@,
            None => Seq::empty(),
        }
    } else {
        Seq::empty()
    }
}

/// The text of a list of nodes, in order.
pub open spec fn nodes_text(nodes: Seq<(bool, Seq<char>, Option<Seq<char>>)>) -> Seq<char>
    decreases nodes.len(),
{
    if nodes.len() == 0 {
        Seq::empty()
    } else {
        nodes_text(nodes.drop_last()) + node_text(nodes.last())
    }
}

/// The text of the XML parts `parts`, in order; `None` when one of them
/// does not parse.
pub open spec fn parts_text(parts: Seq<Seq<char>>) -> Option<Seq<char>>
    decreases parts.len(),
{
    if parts.len() == 0 {
        Some(Seq::empty())
    } else {
        match (parts_text(parts.drop_last()), xml_descendants(parts.last())) {
            (Some(before), Some(nodes)) => Some(before + nodes_text(nodes)),
            _ => None,
        }
    }
}

/// The text of a word-processor document from the XML of its content
/// parts, taken in archive order: the text of every `t` element, each
/// followed by a line break. A part that does not parse makes the whole
/// document yield nothing.
pub fn docx_text(parts: &Vec<String>) -> (r: Option<String>)
    ensures
        match r {
            None => parts_text(parts@.map_values(|p: String| p@)) is None,
            Some(s) => parts_text(parts@.map_values(|p: String| p@)) == Some(s@),
        },
{
    let ghost ps = parts@.map_values(|p: String| p@);
    let mut content = String::new();
    let mut k: usize = 0;
    while k < parts.len()
        invariant
            k <= parts@.len(),
            ps == parts@.map_values(|p: String| p@),
            parts_text(ps.subrange(0, k as int)) == Some(content@),
        decreases parts@.len() - k,
    {
        proof {
            assert(ps.subrange(0, k as int + 1).drop_last() =~= ps.subrange(0, k as int));
            assert(ps.subrange(0, k as int + 1).last() == parts@[k as int]@);
        }
        match parse_xml_nodes(parts[k].as_str()) {
            None => {
                proof {
                    lemma_parts_text_none(ps, k as int + 1);
                }
                return None;
            },
            Some(nodes) => {
                let ghost before = content@;
                let ghost nv = nodes@.map_values(|n: XmlNode| node_view(n));
                let mut j: usize = 0;
                while j < nodes.len()
                    invariant
                        j <= nodes@.len(),
                        nv == nodes@.map_values(|n: XmlNode| node_view(n)),
                        content@ == before + nodes_text(nv.subrange(0, j as int)),
                    decreases nodes@.len() - j,
                {
                    proof {
                        assert(nv.subrange(0, j as int + 1).drop_last() =~= nv.subrange(0,
                            j as int));
                    }
                    let node = &nodes[j];
                    if node.is_element && str_eq(node.name.as_str(), "t") {
                        match &node.text {
                            Some(t) => {
                                content.append(t.as_str());
                                content.append("\n");
                            },
                            None => {},
                        }
                    }
                    proof {
                        assert(content@ =~= before + nodes_text(nv.subrange(0, j as int + 1)));
                    }
                    j = j + 1;
                }
                proof {
                    assert(nv.subrange(0, nodes@.len() as int) =~= nv);
                }
            },
        }
        k = k + 1;
    }
    proof {
        assert(ps.subrange(0, parts@.len() as int) =~= ps);
    }
    Some(content)
}

/// Once a part fails to parse, every longer list of parts yields nothing.
proof fn lemma_parts_text_none(ps: Seq<Seq<char>>, k: int)
    requires
        0 < k <= ps.len(),
        parts_text(ps.subrange(0, k)) is None,
    ensures
        parts_text(ps) is None,
    decreases ps.len() - k,
{
    if k == ps.len() {
        assert(ps.subrange(0, k) =~= ps);
    } else {
        assert(ps.subrange(0, k + 1).drop_last() =~= ps.subrange(0, k));
        lemma_parts_text_none(ps, k + 1);
    }
}

} // verus!
