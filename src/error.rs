//! Errors of the Markdown tools.

use vstd::prelude::*;
use crate::text::{chars_of, push_all, string_of};

verus! {

/// What went wrong, with a human-readable detail.
#[derive(Debug)]
pub enum MarkdownError {
    ParseError(String),
    FileError(String),
    ValidationError(String),
    ConfigError(String),
}

pub type Result<T> = core::result::Result<T, MarkdownError>;

impl MarkdownError {
    /// The message of the error: a prefix naming its kind, then the detail.
    pub open spec fn message(&self) -> Seq<char> {
        match self {
            MarkdownError::ParseError(m) => "解析错误: "@ + m@,
            MarkdownError::FileError(m) => "文件错误: "@ + m@,
            MarkdownError::ValidationError(m) => "验证错误: "@ + m@,
            MarkdownError::ConfigError(m) => "配置错误: "@ + m@,
        }
    }

    pub fn to_string(&self) -> (r: String)
        ensures
            r@ == self.message(),
    {
        let (prefix, detail) = match self {
            MarkdownError::ParseError(m) => (chars_of("解析错误: "), m),
            MarkdownError::FileError(m) => (chars_of("文件错误: "), m),
            MarkdownError::ValidationError(m) => (chars_of("验证错误: "), m),
            MarkdownError::ConfigError(m) => (chars_of("配置错误: "), m),
        };
        let mut out = prefix;
        let d = chars_of(detail.as_str());
        push_all(&mut out, &d);
        string_of(out)
    }
}

} // verus!
