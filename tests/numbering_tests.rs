use mcp_markdown_tools::mst::{MSTNode, NumberingConfig};
use mcp_markdown_tools::numbering::{to_chinese_number, NumberingGenerator};

fn create_test_mst() -> MSTNode {
  let mut root = MSTNode::new_root();

  let mut h1 = MSTNode::new_header(1, "标题1".to_string(), "# 标题1".to_string(), 1);
  let mut h2_1 = MSTNode::new_header(2, "子标题1".to_string(), "## 子标题1".to_string(), 2);
  let h3_1 = MSTNode::new_header(3, "子子标题1".to_string(), "### 子子标题1".to_string(), 3);
  let h3_2 = MSTNode::new_header(3, "子子标题2".to_string(), "### 子子标题2".to_string(), 4);
  let h2_2 = MSTNode::new_header(2, "子标题2".to_string(), "## 子标题2".to_string(), 5);
  let h1_2 = MSTNode::new_header(1, "标题2".to_string(), "# 标题2".to_string(), 6);

  h2_1.add_child(h3_1);
  h2_1.add_child(h3_2);
  h1.add_child(h2_1);
  h1.add_child(h2_2);
  root.add_child(h1);
  root.add_child(h1_2);

  root
}

#[test]
fn test_to_chinese_number() {
  assert_eq!(to_chinese_number(0), "零");
  assert_eq!(to_chinese_number(1), "一");
  assert_eq!(to_chinese_number(5), "五");
  assert_eq!(to_chinese_number(9), "九");
  assert_eq!(to_chinese_number(10), "十");
  assert_eq!(to_chinese_number(11), "十一");
  assert_eq!(to_chinese_number(15), "十五");
  assert_eq!(to_chinese_number(20), "二十");
  assert_eq!(to_chinese_number(21), "二十一");
  assert_eq!(to_chinese_number(99), "九十九");
  assert_eq!(to_chinese_number(100), "100"); // 超过99的数字返回阿拉伯数字
}

#[test]
fn test_arabic_numbering() {
  let mut mst = create_test_mst();
  let config = NumberingConfig { ignore_h1: false, use_chinese_number: false, use_arabic_number_for_sublevel: false };

  let generator = NumberingGenerator::new(config);
  generator.generate_numbering(&mut mst);

  let headers = mst.get_headers();
  assert_eq!(headers[0].numbering.as_ref().unwrap().formatted, "1. ");
  assert_eq!(headers[1].numbering.as_ref().unwrap().formatted, "1.1. ");
  assert_eq!(headers[2].numbering.as_ref().unwrap().formatted, "1.1.1. ");
  assert_eq!(headers[3].numbering.as_ref().unwrap().formatted, "1.1.2. ");
  assert_eq!(headers[4].numbering.as_ref().unwrap().formatted, "1.2. ");
  assert_eq!(headers[5].numbering.as_ref().unwrap().formatted, "2. ");
}

#[test]
fn test_chinese_numbering() {
  let mut mst = create_test_mst();
  let config = NumberingConfig { ignore_h1: false, use_chinese_number: true, use_arabic_number_for_sublevel: false };

  let generator = NumberingGenerator::new(config);
  generator.generate_numbering(&mut mst);

  let headers = mst.get_headers();
  assert_eq!(headers[0].numbering.as_ref().unwrap().formatted, "一、");
  assert_eq!(headers[1].numbering.as_ref().unwrap().formatted, "一、一、");
  assert_eq!(headers[2].numbering.as_ref().unwrap().formatted, "一、一、一、");
  assert_eq!(headers[3].numbering.as_ref().unwrap().formatted, "一、一、二、");
  assert_eq!(headers[4].numbering.as_ref().unwrap().formatted, "一、二、");
  assert_eq!(headers[5].numbering.as_ref().unwrap().formatted, "二、");
}

#[test]
fn test_mixed_numbering() {
  let mut mst = create_test_mst();
  let config = NumberingConfig { ignore_h1: false, use_chinese_number: true, use_arabic_number_for_sublevel: true };

  let generator = NumberingGenerator::new(config);
  generator.generate_numbering(&mut mst);

  let headers = mst.get_headers();
  assert_eq!(headers[0].numbering.as_ref().unwrap().formatted, "一、");
  assert_eq!(headers[1].numbering.as_ref().unwrap().formatted, "1. ");
  assert_eq!(headers[2].numbering.as_ref().unwrap().formatted, "1.1. ");
  assert_eq!(headers[3].numbering.as_ref().unwrap().formatted, "1.2. ");
  assert_eq!(headers[4].numbering.as_ref().unwrap().formatted, "2. ");
  assert_eq!(headers[5].numbering.as_ref().unwrap().formatted, "二、");
}

#[test]
fn test_ignore_h1() {
  let mut mst = create_test_mst();
  let config = NumberingConfig { ignore_h1: true, use_chinese_number: false, use_arabic_number_for_sublevel: false };

  let generator = NumberingGenerator::new(config);
  generator.generate_numbering(&mut mst);

  let headers = mst.get_headers();
  assert!(headers[0].numbering.is_none()); // H1 should have no numbering
  assert_eq!(headers[1].numbering.as_ref().unwrap().formatted, "1. ");
  assert_eq!(headers[2].numbering.as_ref().unwrap().formatted, "1.1. ");
  assert_eq!(headers[3].numbering.as_ref().unwrap().formatted, "1.2. ");
  assert_eq!(headers[4].numbering.as_ref().unwrap().formatted, "2. ");
  assert!(headers[5].numbering.is_none()); // H1 should have no numbering
}

#[test]
fn test_ignore_h1_mixed() {
  let mut mst = create_test_mst();
  let config = NumberingConfig { ignore_h1: true, use_chinese_number: true, use_arabic_number_for_sublevel: true };

  let generator = NumberingGenerator::new(config);
  generator.generate_numbering(&mut mst);

  let headers = mst.get_headers();
  assert!(headers[0].numbering.is_none()); // H1 should have no numbering
  assert_eq!(headers[1].numbering.as_ref().unwrap().formatted, "一、");
  assert_eq!(headers[2].numbering.as_ref().unwrap().formatted, "1. ");
  assert_eq!(headers[3].numbering.as_ref().unwrap().formatted, "2. ");
  assert_eq!(headers[4].numbering.as_ref().unwrap().formatted, "二、");
  assert!(headers[5].numbering.is_none()); // H1 should have no numbering
}
