use mcp_markdown_tools::mst::{MSTNode, NumberingInfo};
use mcp_markdown_tools::renderer::MarkdownRenderer;

fn create_test_mst_with_numbering() -> MSTNode {
  let mut root = MSTNode::new_root();

  let mut h1 = MSTNode::new_header(1, "标题1".to_string(), "# 标题1".to_string(), 1);
  h1.numbering = Some(NumberingInfo { path: vec![1], formatted: "1. ".to_string() });

  let mut h2 = MSTNode::new_header(2, "子标题1".to_string(), "## 子标题1".to_string(), 2);
  h2.numbering = Some(NumberingInfo { path: vec![1, 1], formatted: "1.1. ".to_string() });

  let content = MSTNode::new_content("这是一段内容。".to_string(), 3);

  h2.add_child(content);
  h1.add_child(h2);
  root.add_child(h1);

  root
}

fn create_test_mst_without_numbering() -> MSTNode {
  let mut root = MSTNode::new_root();

  let mut h1 = MSTNode::new_header(1, "标题1".to_string(), "# 标题1".to_string(), 1);
  let mut h2 = MSTNode::new_header(2, "子标题1".to_string(), "## 子标题1".to_string(), 2);
  let content = MSTNode::new_content("这是一段内容。".to_string(), 3);

  h2.add_child(content);
  h1.add_child(h2);
  root.add_child(h1);

  root
}

#[test]
fn test_render_with_numbering() {
  let mst = create_test_mst_with_numbering();
  let renderer = MarkdownRenderer::new();
  let result = renderer.render(&mst);

  let expected = r#"# 1. 标题1
## 1.1. 子标题1
这是一段内容。"#;

  assert_eq!(result, expected);
}

#[test]
fn test_render_without_numbering() {
  let mst = create_test_mst_without_numbering();
  let renderer = MarkdownRenderer::new();
  let result = renderer.render_without_numbering(&mst);

  let expected = r#"# 标题1
## 子标题1
这是一段内容。"#;

  assert_eq!(result, expected);
}

#[test]
fn test_render_empty_mst() {
  let root = MSTNode::new_root();
  let renderer = MarkdownRenderer::new();
  let result = renderer.render(&root);

  assert_eq!(result, "");
}

#[test]
fn test_render_content_only() {
  let mut root = MSTNode::new_root();
  let content1 = MSTNode::new_content("第一行内容".to_string(), 1);
  let content2 = MSTNode::new_content("第二行内容".to_string(), 2);

  root.add_child(content1);
  root.add_child(content2);

  let renderer = MarkdownRenderer::new();
  let result = renderer.render(&root);

  let expected = r#"第一行内容
第二行内容"#;

  assert_eq!(result, expected);
}

#[test]
fn test_render_headers_only() {
  let mut root = MSTNode::new_root();

  let mut h1 = MSTNode::new_header(1, "标题1".to_string(), "# 标题1".to_string(), 1);
  h1.numbering = Some(NumberingInfo { path: vec![1], formatted: "一、".to_string() });

  let mut h2 = MSTNode::new_header(2, "子标题1".to_string(), "## 子标题1".to_string(), 2);
  h2.numbering = Some(NumberingInfo { path: vec![1, 1], formatted: "一、一、".to_string() });

  h1.add_child(h2);
  root.add_child(h1);

  let renderer = MarkdownRenderer::new();
  let result = renderer.render(&root);

  let expected = r#"# 一、标题1
## 一、一、子标题1"#;

  assert_eq!(result, expected);
}

#[test]
fn test_render_deep_nesting() {
  let mut root = MSTNode::new_root();

  let mut h1 = MSTNode::new_header(1, "标题1".to_string(), "# 标题1".to_string(), 1);
  h1.numbering = Some(NumberingInfo { path: vec![1], formatted: "1. ".to_string() });

  let mut h2 = MSTNode::new_header(2, "子标题1".to_string(), "## 子标题1".to_string(), 2);
  h2.numbering = Some(NumberingInfo { path: vec![1, 1], formatted: "1.1. ".to_string() });

  let mut h3 =
    MSTNode::new_header(3, "子子标题1".to_string(), "### 子子标题1".to_string(), 3);
  h3.numbering = Some(NumberingInfo { path: vec![1, 1, 1], formatted: "1.1.1. ".to_string() });

  h2.add_child(h3);
  h1.add_child(h2);
  root.add_child(h1);

  let renderer = MarkdownRenderer::new();
  let result = renderer.render(&root);

  let expected = r#"# 1. 标题1
## 1.1. 子标题1
### 1.1.1. 子子标题1"#;

  assert_eq!(result, expected);
}
