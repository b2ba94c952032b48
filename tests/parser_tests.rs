use mcp_markdown_tools::mst::NodeType;
use mcp_markdown_tools::parser::MarkdownParser;
use mcp_markdown_tools::renderer::MarkdownRenderer;
use mcp_markdown_tools::title::normalize_title;

#[test]
fn parser_test_parser_creation() {
  let parser = MarkdownParser::new();
  assert!(parser.is_ok());
}

#[test]
fn test_parse_simple_headers() {
  let parser = MarkdownParser::new().unwrap();
  let content = r#"# 标题1
## 子标题1
### 子子标题1
## 子标题2
# 标题2"#;

  let mst = parser.parse(content).unwrap();
  let headers = mst.get_headers();

  assert_eq!(headers.len(), 5);
  assert_eq!(headers[0].header_level(), Some(1));
  assert_eq!(headers[0].title.as_ref().unwrap(), "标题1");
  assert_eq!(headers[1].header_level(), Some(2));
  assert_eq!(headers[1].title.as_ref().unwrap(), "子标题1");
}

#[test]
fn test_parse_with_content() {
  let parser = MarkdownParser::new().unwrap();
  let content = r#"# 标题1

这是一段内容。

## 子标题1

更多内容。"#;

  let mst = parser.parse(content).unwrap();
  let headers = mst.get_headers();

  assert_eq!(headers.len(), 2);

  // 检查是否有内容节点
  let mut content_count = 0;
  mst.walk(&mut |node| {
    if node.is_content() {
      content_count += 1;
    }
  });

  assert!(content_count > 0);
}

#[test]
fn test_remove_numbering_from_title() {
  let parser = MarkdownParser::new().unwrap();

  assert_eq!(normalize_title("1. 标题"), "标题");
  assert_eq!(normalize_title("1.1. 子标题"), "子标题");
  assert_eq!(normalize_title("一、标题"), "标题");
  assert_eq!(normalize_title("一、一、子标题"), "子标题");
  assert_eq!(normalize_title("标题"), "标题");
}

#[test]
fn test_parse_empty_content() {
  let parser = MarkdownParser::new().unwrap();
  let mst = parser.parse("").unwrap();

  assert!(matches!(mst.node_type, NodeType::Root));
  assert_eq!(mst.children.len(), 0);
}

#[test]
fn test_parse_no_headers() {
  let parser = MarkdownParser::new().unwrap();
  let content = r#"这是一段普通文本。
没有任何标题。

只是普通的段落。"#;

  let mst = parser.parse(content).unwrap();
  let headers = mst.get_headers();

  assert_eq!(headers.len(), 0);
  assert!(mst.children.len() > 0); // 应该有内容节点
}

#[test]
fn test_parse_complex_numbering() {
  let parser = MarkdownParser::new().unwrap();
  let content = r#"# 1. 第一章
## 1.1. 第一节
### 1.1.1. 第一小节
## 1.2. 第二节
# 2. 第二章
## 2.1. 第一节"#;

  let mst = parser.parse(content).unwrap();
  let headers = mst.get_headers();

  assert_eq!(headers.len(), 6);

  // 验证编号被正确移除
  assert_eq!(headers[0].title.as_ref().unwrap(), "第一章");
  assert_eq!(headers[1].title.as_ref().unwrap(), "第一节");
  assert_eq!(headers[2].title.as_ref().unwrap(), "第一小节");
  assert_eq!(headers[3].title.as_ref().unwrap(), "第二节");
  assert_eq!(headers[4].title.as_ref().unwrap(), "第二章");
  assert_eq!(headers[5].title.as_ref().unwrap(), "第一节");
}

#[test]
fn test_parse_chinese_numbering() {
  let parser = MarkdownParser::new().unwrap();
  let content = r#"# 一、第一章
## 一、一、第一节
### 一、一、一、第一小节
## 一、二、第二节
# 二、第二章"#;

  let mst = parser.parse(content).unwrap();
  let headers = mst.get_headers();

  assert_eq!(headers.len(), 5);

  // 验证中文编号被正确移除
  assert_eq!(headers[0].title.as_ref().unwrap(), "第一章");
  assert_eq!(headers[1].title.as_ref().unwrap(), "第一节");
  assert_eq!(headers[2].title.as_ref().unwrap(), "第一小节");
  assert_eq!(headers[3].title.as_ref().unwrap(), "第二节");
  assert_eq!(headers[4].title.as_ref().unwrap(), "第二章");
}

#[test]
fn test_header_hierarchy() {
  let parser = MarkdownParser::new().unwrap();
  let content = r#"# H1
## H2
### H3
## H2-2
# H1-2"#;

  let mst = parser.parse(content).unwrap();
  let headers = mst.get_headers();

  assert_eq!(headers.len(), 5);
  assert_eq!(headers[0].header_level(), Some(1));
  assert_eq!(headers[1].header_level(), Some(2));
  assert_eq!(headers[2].header_level(), Some(3));
  assert_eq!(headers[3].header_level(), Some(2));
  assert_eq!(headers[4].header_level(), Some(1));
}

#[test]
fn test_remove_numbering_edge_cases() {
  let parser = MarkdownParser::new().unwrap();

  // 测试边界情况
  assert_eq!(normalize_title(""), "");
  assert_eq!(normalize_title("   "), "");
  assert_eq!(normalize_title("1."), "");
  assert_eq!(normalize_title("一、"), "");
  assert_eq!(normalize_title("1. "), "");
  assert_eq!(normalize_title("一、 "), "");
  assert_eq!(normalize_title("标题 1."), "标题 1.");
  assert_eq!(normalize_title("标题一、"), "标题一、");
}

#[test]
fn test_parse_whitespace_handling() {
  let parser = MarkdownParser::new().unwrap();
  let content = r#"# 标题1

  
## 标题2
 
内容行
 
"#;

  let mst = parser.parse(content).unwrap();
  let headers = mst.get_headers();

  assert_eq!(headers.len(), 2);
  assert_eq!(headers[0].title.as_ref().unwrap(), "标题1");
  assert_eq!(headers[1].title.as_ref().unwrap(), "标题2");
}

#[test]
fn test_parser_default() {
  let parser = MarkdownParser::default();
  let content = "# Test";
  let mst = parser.parse(content).unwrap();
  let headers = mst.get_headers();
  assert_eq!(headers.len(), 1);
}

#[test]
fn test_line_numbers() {
  let parser = MarkdownParser::new().unwrap();
  let content = r#"# 标题1
内容1
## 标题2
内容2"#;

  let mst = parser.parse(content).unwrap();

  // 验证行号
  let mut line_numbers = Vec::new();
  mst.walk(&mut |node| {
    line_numbers.push(node.line_number);
  });

  // 根节点行号为0，其他节点行号从1开始
  assert_eq!(line_numbers[0], 0); // 根节点
  assert!(line_numbers.iter().skip(1).all(|&n| n > 0)); // 其他节点行号大于0
}

#[test]
fn test_malformed_headers() {
  let parser = MarkdownParser::new().unwrap();
  let content = r#"#标题1
# 
##标题2
###   标题3   
####
#####标题5"#;

  let mst = parser.parse(content).unwrap();
  let headers = mst.get_headers();

  // 只有符合格式的标题会被解析
  assert_eq!(headers.len(), 2); // 只有 "###   标题3   " 和 "#####标题5" 符合格式
}

/// 测试行内图片解析和渲染的问题
#[test]
fn test_inline_image_parsing_and_rendering() {
  let parser = MarkdownParser::new().unwrap();
  let renderer = MarkdownRenderer::new();

  // 测试包含行内图片的内容
  let content = "前面有文字，![测试图片3](https://picsum.photos/200/300)，后面有文字";

  let mst = parser.parse(content).unwrap();

  // 检查解析结果
  println!("=== 解析结果 ===");
  println!("MST结构:");
  println!("{}", mst.to_string());

  // 统计节点类型
  let mut content_nodes = 0;
  let mut image_nodes = 0;

  mst.walk(&mut |node| match &node.node_type {
    NodeType::Content(content) => {
      content_nodes += 1;
      println!("内容节点 {}: {}", node.line_number, content);
    }
    NodeType::Image(image_info) => {
      image_nodes += 1;
      println!("图片节点 {}: {} (alt: {})", node.line_number, image_info.original_url, image_info.alt_text);
    }
    _ => {}
  });

  println!("内容节点数量: {}", content_nodes);
  println!("图片节点数量: {}", image_nodes);

  // 渲染结果
  let rendered = renderer.render(&mst);
  println!("=== 渲染结果 ===");
  println!("{}", rendered);

  // 验证问题：应该只有一行，但实际会有两行
  let lines: Vec<&str> = rendered.lines().collect();
  println!("渲染行数: {}", lines.len());
  for (i, line) in lines.iter().enumerate() {
    println!("行 {}: {}", i + 1, line);
  }

  // 验证主要问题已修复：只有一行输出，不再重复
  assert_eq!(lines.len(), 1, "行内图片应该只渲染为一行");
  assert_eq!(content_nodes, 1, "应该只有一个内容节点");
  assert_eq!(image_nodes, 0, "不应该有单独的图片节点");

  // 验证内容包含原始图片引用（图片本地化会在实际使用时处理）
  assert!(lines[0].contains("![测试图片3]"), "应该包含图片引用");
  assert!(lines[0].contains("前面有文字"), "应该包含前面的文字");
  assert!(lines[0].contains("后面有文字"), "应该包含后面的文字");
}
