use mcp_markdown_tools::config::{fill_dir_placeholder, LocalizeImagesConfig};
use mcp_markdown_tools::error::MarkdownError;
use mcp_markdown_tools::paths::check_markdown_extension;
use mcp_markdown_tools::mst::{MSTNode, NodeType, NumberingConfig};
use mcp_markdown_tools::numbering::NumberingGenerator;
use mcp_markdown_tools::parser::MarkdownParser;
use mcp_markdown_tools::renderer::MarkdownRenderer;
use mcp_markdown_tools::title::normalize_title;
use mcp_markdown_tools::validator::{validate_heading_format, validate_heading_structure};

fn labels(text: &str, config: NumberingConfig) -> Vec<Option<String>> {
  let mut mst = MarkdownParser::new().unwrap().parse(text).unwrap();
  NumberingGenerator::new(config).generate_numbering(&mut mst);
  mst.get_headers().iter().map(|h| h.numbering.as_ref().map(|n| n.formatted.clone())).collect()
}

fn cfg(ignore_h1: bool, chinese: bool, arabic_sub: bool) -> NumberingConfig {
  NumberingConfig { ignore_h1, use_chinese_number: chinese, use_arabic_number_for_sublevel: arabic_sub }
}

fn some(v: &[&str]) -> Vec<Option<String>> {
  v.iter().map(|s| Some(s.to_string())).collect()
}

#[test]
fn scenario_arabic_numbering() {
  let got = labels("# A\n\n## B\n\n### C\n\n## D\n\n# E\n", cfg(false, false, false));
  assert_eq!(got, some(&["1. ", "1.1. ", "1.1.1. ", "1.2. ", "2. "]));
}

#[test]
fn scenario_mixed_numbering() {
  let got = labels("# A\n## B\n### C\n### D\n## E\n# F", cfg(false, true, true));
  assert_eq!(got, some(&["一、", "1. ", "1.1. ", "1.2. ", "2. ", "二、"]));
}

#[test]
fn scenario_ignore_first_level() {
  let got = labels("# Title\n## Ch1\n### Bg", cfg(true, false, false));
  assert_eq!(got, vec![None, Some("1. ".to_string()), Some("1.1. ".to_string())]);
}

#[test]
fn scenario_missing_space_reported_once() {
  let mut root = MSTNode::new_root();
  let mut h1 = MSTNode::new_header(1, "A".to_string(), "# A".to_string(), 1);
  h1.add_child(MSTNode::new_header(2, "NoSpace".to_string(), "##NoSpace".to_string(), 3));
  h1.add_child(MSTNode::new_header(2, "Ok".to_string(), "## Ok".to_string(), 5));
  root.add_child(h1);
  let errors = validate_heading_structure(&root).unwrap_err();
  assert_eq!(errors, vec!["第3行：标题格式错误，## 后面必须有一个空格".to_string()]);
}

#[test]
fn scenario_level_skip() {
  let mst = MarkdownParser::new().unwrap().parse("# A\n#### B\n").unwrap();
  let errors = validate_heading_structure(&mst).unwrap_err();
  assert_eq!(errors, vec!["第2行：标题级别跳级，从 H1 直接跳到 H4（跳过了 H2）".to_string()]);
}

#[test]
fn normalize_is_idempotent_on_samples() {
  for t in ["1.2.3. 标题", "一、1.1 背景", "  二、三、 x  ", "1984年", "标题 1.", "一、", "1 2 3", "1.", "3.2"] {
    let once = normalize_title(t);
    assert_eq!(normalize_title(&once), once);
  }
  assert_eq!(normalize_title("一、1.1 背景"), "背景");
  assert_eq!(normalize_title("2.1. 第一节"), "第一节");
  assert_eq!(normalize_title("2024年计划"), "2024年计划");
  assert_eq!(normalize_title("1.标题"), "1.标题");
  assert_eq!(normalize_title("1."), "");
  assert_eq!(normalize_title("一、2024年计划"), "2024年计划");
}

#[test]
fn round_trip_of_clean_document() {
  let d = "前言\n# 第一章\n\n## 背景\n正文\n### 细节\n# 第二章";
  let mst = MarkdownParser::new().unwrap().parse(d).unwrap();
  assert_eq!(MarkdownRenderer::new().render_without_numbering(&mst), d);
}

#[test]
fn round_trip_drops_final_newline_and_extra_spaces() {
  let mst = MarkdownParser::new().unwrap().parse("#   1. A  \ntext\n").unwrap();
  assert_eq!(MarkdownRenderer::new().render_without_numbering(&mst), "# A\ntext");
}

#[test]
fn stripping_after_numbering_gives_plain_text() {
  let d = "# A\n## B\ntext\n### C\n# D";
  let parser = MarkdownParser::new().unwrap();
  let plain = MarkdownRenderer::new().render_without_numbering(&parser.parse(d).unwrap());
  let mut mst = parser.parse(d).unwrap();
  NumberingGenerator::new(cfg(false, true, false)).generate_numbering(&mut mst);
  let renderer = MarkdownRenderer::new();
  assert_eq!(renderer.render_with_numbering(&mst), "# 一、A\n## 一、一、B\ntext\n### 一、一、一、C\n# 二、D");
  assert_eq!(renderer.render_without_numbering(&mst), plain);
  let renumbered = renderer.render(&parser.parse(&renderer.render(&mst)).unwrap());
  assert_eq!(renumbered, plain);
}

#[test]
fn counters_reset_under_new_parent() {
  let got = labels("# A\n## B\n### C\n### D\n## E\n### F\n# G\n### H", cfg(false, false, false));
  assert_eq!(got, some(&["1. ", "1.1. ", "1.1.1. ", "1.1.2. ", "1.2. ", "1.2.1. ", "2. ", "2.1. "]));
}

#[test]
fn level_skip_accepts_one_step_and_any_rise() {
  let ok = MarkdownParser::new().unwrap().parse("# A\n## B\n### C\n# D\n## E\n## F").unwrap();
  assert!(validate_heading_structure(&ok).is_ok());
  let bad = MarkdownParser::new().unwrap().parse("# A\n## B\n#### C\n## D\n##### E").unwrap();
  let errors = validate_heading_structure(&bad).unwrap_err();
  assert_eq!(
    errors,
    vec![
      "第3行：标题级别跳级，从 H2 直接跳到 H4（跳过了 H3）".to_string(),
      "第5行：标题级别跳级，从 H2 直接跳到 H5（跳过了 H3）".to_string(),
    ]
  );
}

#[test]
fn validation_report_counts_levels() {
  let mst = MarkdownParser::new().unwrap().parse("# A\n## B\n## C\ntext").unwrap();
  assert_eq!(
    validate_heading_structure(&mst).unwrap(),
    "📊 标题统计：\n  H1: 1 个\n  H2: 2 个\n\n✅ 所有标题格式和层级结构都正确。"
  );
  let empty = MarkdownParser::new().unwrap().parse("just text").unwrap();
  assert_eq!(validate_heading_structure(&empty).unwrap(), "文档中没有标题行。");
}

#[test]
fn heading_format_errors() {
  assert!(validate_heading_format("## A", 2, 1).is_ok());
  assert_eq!(validate_heading_format("# A", 2, 4).unwrap_err(), "第4行：标题格式错误，应该以 ## 开头");
  assert_eq!(validate_heading_format("##\tA", 2, 7).unwrap_err(), "第7行：标题格式错误，## 后面必须有一个空格");
  assert_eq!(validate_heading_format("##  A", 2, 8).unwrap_err(), "第8行：标题格式错误，## 后面只能有一个空格");
  assert_eq!(validate_heading_format("## ", 2, 12).unwrap_err(), "第12行：标题格式错误，缺少标题内容");
  assert_eq!(validate_heading_format("x", 0, 1).unwrap_err(), "第1行：标题格式错误，# 符号前不能有空格或其他字符");
}

#[test]
fn validator_reports_every_violation() {
  let mst = MarkdownParser::new().unwrap().parse("# A\n##  B\n### C\n## \n##### D").unwrap();
  let errors = validate_heading_structure(&mst).unwrap_err();
  assert_eq!(
    errors,
    vec![
      "第2行：标题格式错误，## 后面只能有一个空格".to_string(),
      "第4行：标题格式错误，缺少标题内容".to_string(),
      "第5行：标题级别跳级，从 H2 直接跳到 H5（跳过了 H3）".to_string(),
    ]
  );
}

#[test]
fn builder_nests_by_level() {
  let mst = MarkdownParser::new().unwrap().parse("intro\n# A\n## B\ntext\n#### C\n## D\n# E").unwrap();
  assert_eq!(mst.children.len(), 3);
  assert!(mst.children[0].is_content());
  let a = &mst.children[1];
  assert_eq!(a.children.len(), 2);
  let b = &a.children[0];
  assert_eq!(b.children.len(), 2);
  assert!(b.children[0].is_content());
  assert_eq!(b.children[1].header_level(), Some(4));
  assert_eq!(a.children[1].line_number, 6);
  assert_eq!(mst.children[2].raw_line, "# E");
  assert!(matches!(mst.children[2].node_type, NodeType::Header(1)));
}

#[test]
fn large_ordinals_and_numbers() {
  let mut text = String::new();
  for i in 0..12 {
    text.push_str(&format!("# T{}\n", i));
  }
  let got = labels(&text, cfg(false, true, false));
  assert_eq!(got[9], Some("十、".to_string()));
  assert_eq!(got[11], Some("十二、".to_string()));
  let got = labels(&text, cfg(false, false, false));
  assert_eq!(got[11], Some("12. ".to_string()));
}

fn images_config(full_file_path: &str, save_to_dir: &str) -> LocalizeImagesConfig {
  LocalizeImagesConfig {
    full_file_path: full_file_path.to_string(),
    image_file_name_pattern: "{multilevel_num}-{index}".to_string(),
    save_to_dir: save_to_dir.to_string(),
  }
}

#[test]
fn config_test_localize_images_config_get_resolved_save_dir() {
  let config = images_config("/home/user/docs/test.md", "{full_dir_of_original_file}/assets/");
  let resolved_dir = config.get_resolved_save_dir();
  assert_eq!(resolved_dir, "/home/user/docs/assets/");
}

#[test]
fn config_test_localize_images_config_get_resolved_save_dir_no_placeholder() {
  let config = images_config("/home/user/docs/test.md", "/absolute/path/images/");
  let resolved_dir = config.get_resolved_save_dir();
  assert_eq!(resolved_dir, "/absolute/path/images/");
}

#[test]
fn config_test_localize_images_config_root_file() {
  let config = images_config("test.md", "{full_dir_of_original_file}/assets/");
  let resolved_dir = config.get_resolved_save_dir();
  assert_eq!(resolved_dir, "/assets/");
}

#[test]
fn resolved_save_dir_without_parent() {
  let config = images_config("", "{full_dir_of_original_file}/img");
  assert_eq!(config.get_resolved_save_dir(), "./img");
}

#[test]
fn markdown_extension_rule() {
  assert!(check_markdown_extension(Some("md")).is_ok());
  assert!(check_markdown_extension(Some("markdown")).is_ok());
  match check_markdown_extension(Some("MD")) {
    Err(MarkdownError::ValidationError(m)) => assert_eq!(m, "文件必须是Markdown格式 (.md 或 .markdown)"),
    _ => panic!("expected a validation error"),
  }
  match check_markdown_extension(None) {
    Err(MarkdownError::ValidationError(m)) => assert_eq!(m, "文件必须有扩展名"),
    _ => panic!("expected a validation error"),
  }
}

#[test]
fn tree_view_lists_nodes_with_indent() {
  let mst = MarkdownParser::new().unwrap().parse("# A\ntext\n## B").unwrap();
  assert_eq!(mst.to_string(), "Root\n  H1: A\n    Content: text\n    H2: B\n");
}

#[test]
fn fill_placeholder_replaces_every_occurrence() {
  assert_eq!(
    fill_dir_placeholder("{full_dir_of_original_file}/a/{full_dir_of_original_file}", "/x"),
    "/x/a//x"
  );
  assert_eq!(fill_dir_placeholder("{full_dir_of_original_file", "/x"), "{full_dir_of_original_file");
  assert_eq!(fill_dir_placeholder("", "/x"), "");
}

#[test]
fn tree_view_cuts_content_at_byte_47() {
  let mut root = MSTNode::new_root();
  let ascii47 = "a".repeat(47);
  root.add_child(MSTNode::new_content(format!("{}中文", ascii47), 1));
  root.add_child(MSTNode::new_content("b".repeat(50), 2));
  root.add_child(MSTNode::new_content(format!("{}中文", "c".repeat(46)), 3));
  let view = root.to_string();
  assert!(view.contains(&format!("Content: {}...\n", ascii47)));
  assert!(view.contains(&format!("Content: {}\n", "b".repeat(50))));
  assert!(view.contains(&format!("Content: {}...\n", "c".repeat(46))));
}

#[test]
fn text_operations() {
  let d = "# 1. A\n## 1.1. B\ntext\n#### C";
  let numbered = mcp_markdown_tools::tools::generate_chapter_numbers(d, cfg(false, false, false));
  assert_eq!(numbered, "# 1. A\n## 1.1. B\ntext\n#### 1.1.1. C");
  assert_eq!(mcp_markdown_tools::tools::remove_chapter_numbers(&numbered), "# A\n## B\ntext\n#### C");
  assert_eq!(
    mcp_markdown_tools::tools::check_headings(d).unwrap_err(),
    "❌ 标题验证失败\n\n第4行：标题级别跳级，从 H2 直接跳到 H4（跳过了 H3）"
  );
  assert_eq!(
    mcp_markdown_tools::tools::check_headings("# A\n## B").unwrap(),
    "✅ 标题验证通过\n\n📊 标题统计：\n  H1: 1 个\n  H2: 1 个\n\n✅ 所有标题格式和层级结构都正确。"
  );
  assert_eq!(mcp_markdown_tools::tools::check_headings("x").unwrap(), "✅ 标题验证通过\n\n文档中没有标题行。");
}

#[test]
fn numbering_twice_gives_the_same_labels() {
  let d = "# A\n## B\n### C\n# D";
  let parser = MarkdownParser::new().unwrap();
  let mut mst = parser.parse(d).unwrap();
  let generator = NumberingGenerator::new(cfg(false, true, true));
  generator.generate_numbering(&mut mst);
  let once = MarkdownRenderer::new().render(&mst);
  generator.generate_numbering(&mut mst);
  assert_eq!(MarkdownRenderer::new().render(&mst), once);
  assert!(mst.numbering.is_none());
}
