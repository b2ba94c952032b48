//! The three text-to-text operations of the tools: numbering the chapters
//! of a document, removing their numbering, and checking its headings.

use vstd::prelude::*;
use crate::mst::{depths_of, headers_of, items_of, levels_ok, LineItem, MSTNode, NumberingConfig};
use crate::numbering::{levels_of, numbered_as, same_but_numbering, NumberingGenerator};
use crate::parser::{build_depths, build_items, MarkdownParser};
use crate::renderer::{
    item_line, join_lines, join_lines_exec, lemma_lines_items, render_spec, views, MarkdownRenderer,
};
use crate::text::{chars_of, push_all, string_of};
use crate::validator::{heading_errors, report, validate_heading_structure};

verus! {

/// `t` is the tree `MarkdownParser::parse` builds from `text`.
pub open spec fn parsed_from(t: MSTNode, text: Seq<char>) -> bool {
    &&& t.node_type is Root
    &&& t.numbering is None
    &&& t.title is None
    &&& t.line_number == 0
    &&& items_of(t) == build_items(text)
    &&& depths_of(t, 0) == build_depths(text)
    &&& levels_ok(t)
}

/// `f` is `o` numbered under `cfg` as `generate_numbering` numbers it.
pub open spec fn numbered_from(o: MSTNode, f: MSTNode, cfg: NumberingConfig) -> bool {
    &&& same_but_numbering(o, f)
    &&& headers_of(f).len() == headers_of(o).len()
    &&& forall|k: int|
        0 <= k < headers_of(f).len() ==> numbered_as(
            (#[trigger] headers_of(f)[k]).numbering,
            levels_of(o),
            k,
            cfg,
        )
}

/// The text of a document without any numbering prefix in its headings.
pub open spec fn unnumbered_text(text: Seq<char>) -> Seq<char> {
    join_lines(build_items(text).map_values(|it: LineItem| item_line(it)))
}

/// What checking the headings of the tree `t` reports: on success the
/// per-level report (or the note that there are none), otherwise every
/// violation, one per line.
pub open spec fn check_outcome(t: MSTNode, r: Result<String, String>) -> bool {
    let hs = headers_of(t);
    if hs.len() == 0 {
        r is Ok && r->Ok_0@ == "✅ 标题验证通过\n\n"@ + "文档中没有标题行。"@
    } else if heading_errors(hs).len() == 0 {
        r is Ok && r->Ok_0@ == "✅ 标题验证通过\n\n"@ + report(hs)
    } else {
        r is Err && r->Err_0@ == "❌ 标题验证失败\n\n"@ + join_lines(heading_errors(hs))
    }
}

/// Numbers the chapters of a document: parse, number, render with labels.
pub fn generate_chapter_numbers(content: &str, config: NumberingConfig) -> (r: String)
    ensures
        exists|t: MSTNode, f: MSTNode|
            #[trigger] parsed_from(t, content@) && #[trigger] numbered_from(t, f, config) && r@
                == render_spec(f, true),
{
    let parser = MarkdownParser;
    let mut mst = match parser.parse(content) {
        Ok(t) => t,
        Err(_) => MSTNode::new_root(),
    };
    let ghost t = mst;
    let generator = NumberingGenerator::new(config);
    generator.generate_numbering(&mut mst);
    let r = MarkdownRenderer::new().render_with_numbering(&mst);
    assert(parsed_from(t, content@) && numbered_from(t, mst, config) && r@ == render_spec(mst, true));
    r
}

/// Removes the numbering of every heading of a document: each heading line
/// is written with its hashes, one space and its clean title; other lines
/// are kept; lines are joined by single newlines.
pub fn remove_chapter_numbers(content: &str) -> (r: String)
    ensures
        r@ == unnumbered_text(content@),
{
    let parser = MarkdownParser;
    let mst = match parser.parse(content) {
        Ok(t) => t,
        Err(_) => MSTNode::new_root(),
    };
    proof {
        lemma_lines_items(mst);
    }
    MarkdownRenderer::new().render_without_numbering(&mst)
}

/// Checks the headings of a document; `Err` holds the message listing every
/// violation.
pub fn check_headings(content: &str) -> (r: Result<String, String>)
    ensures
        exists|t: MSTNode| #[trigger] parsed_from(t, content@) && check_outcome(t, r),
{
    let parser = MarkdownParser;
    let mst = match parser.parse(content) {
        Ok(t) => t,
        Err(_) => MSTNode::new_root(),
    };
    let mut out = chars_of("✅ 标题验证通过\n\n");
    let r = match validate_heading_structure(&mst) {
        Ok(report_text) => {
            push_all(&mut out, &chars_of(report_text.as_str()));
            Ok(string_of(out))
        },
        Err(errors) => {
            let mut lines: Vec<Vec<char>> = Vec::new();
            let mut i: usize = 0;
            while i < errors.len()
                invariant
                    i <= errors@.len(),
                    lines@.len() == i,
                    forall|k: int| 0 <= k < i ==> (#[trigger] lines@[k])@ == errors@[k]@,
                decreases errors@.len() - i,
            {
                lines.push(chars_of(errors[i].as_str()));
                i = i + 1;
            }
            let mut msg = chars_of("❌ 标题验证失败\n\n");
            push_all(&mut msg, &join_lines_exec(&lines));
            proof {
                let hs = headers_of(mst);
                assert(views(lines@) =~= heading_errors(hs));
            }
            Err(string_of(msg))
        },
    };
    assert(parsed_from(mst, content@) && check_outcome(mst, r));
    r
}

} // verus!
