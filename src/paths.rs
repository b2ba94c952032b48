//! Which files the tools accept.

use vstd::prelude::*;
use crate::error::MarkdownError;
use crate::text::{chars_of, string_of};

verus! {

/// A Markdown file's extension: exactly `md` or `markdown`, case included.
pub open spec fn is_markdown_extension(ext: Seq<char>) -> bool {
    ext == "md"@ || ext == "markdown"@
}

fn same_chars(a: &Vec<char>, b: &Vec<char>) -> (r: bool)
    ensures
        r == (a@ == b@),
{
    if a.len() != b.len() {
        return false;
    }
    let mut i: usize = 0;
    while i < a.len()
        invariant
            i <= a@.len(),
            a@.len() == b@.len(),
            forall|k: int| 0 <= k < i ==> a@[k] == b@[k],
        decreases a@.len() - i,
    {
        if a[i] != b[i] {
            return false;
        }
        i = i + 1;
    }
    assert(a@ =~= b@);
    true
}

/// Accepts the extension of a Markdown file; `extension` is what the path's
/// last component holds after its last dot, if anything.
pub fn check_markdown_extension(extension: Option<&str>) -> (r: Result<(), MarkdownError>)
    ensures
        extension is None ==> r is Err && r->Err_0 is ValidationError
            && r->Err_0->ValidationError_0@ == "文件必须有扩展名"@,
        extension is Some && is_markdown_extension(extension->0@) ==> r is Ok,
        extension is Some && !is_markdown_extension(extension->0@) ==> r is Err
            && r->Err_0 is ValidationError && r->Err_0->ValidationError_0@
            == "文件必须是Markdown格式 (.md 或 .markdown)"@,
{
    match extension {
        None => Err(MarkdownError::ValidationError(string_of(chars_of("文件必须有扩展名")))),
        Some(ext) => {
            let e = chars_of(ext);
            if same_chars(&e, &chars_of("md")) || same_chars(&e, &chars_of("markdown")) {
                Ok(())
            } else {
                Err(
                    MarkdownError::ValidationError(
                        string_of(chars_of("文件必须是Markdown格式 (.md 或 .markdown)")),
                    ),
                )
            }
        },
    }
}

} // verus!
