use mcp_markdown_tools::error::{MarkdownError, Result};

/// 测试 MarkdownError 的 Display 实现
#[test]
fn test_markdown_error_display() {
  let parse_error = MarkdownError::ParseError("解析失败".to_string());
  assert_eq!(parse_error.to_string(), "解析错误: 解析失败");

  let file_error = MarkdownError::FileError("文件不存在".to_string());
  assert_eq!(file_error.to_string(), "文件错误: 文件不存在");

  let validation_error = MarkdownError::ValidationError("验证失败".to_string());
  assert_eq!(validation_error.to_string(), "验证错误: 验证失败");

  let config_error = MarkdownError::ConfigError("配置无效".to_string());
  assert_eq!(config_error.to_string(), "配置错误: 配置无效");
}

/// 测试 MarkdownError 的 Debug 实现
#[test]
fn test_markdown_error_debug() {
  let error = MarkdownError::ParseError("测试错误".to_string());
  let debug_output = format!("{:?}", error);
  assert!(debug_output.contains("ParseError"));
  assert!(debug_output.contains("测试错误"));
}

/// 测试 Result 类型别名
#[test]
fn test_result_type_alias() {
  // 测试成功情况
  let success_result: Result<String> = Ok("成功".to_string());
  assert!(success_result.is_ok());
  assert_eq!(success_result.unwrap(), "成功");

  // 测试错误情况
  let error_result: Result<String> = Err(MarkdownError::ParseError("失败".to_string()));
  assert!(error_result.is_err());

  match error_result.unwrap_err() {
    MarkdownError::ParseError(msg) => assert_eq!(msg, "失败"),
    _ => panic!("期望 ParseError"),
  }
}

/// 测试错误链
#[test]
fn test_error_chaining() {
  let error = MarkdownError::FileError("底层错误".to_string());

  // 模拟错误传播
  let propagated_error = match error {
    MarkdownError::FileError(msg) => MarkdownError::ValidationError(format!("由于文件错误导致的验证失败: {}", msg)),
    other => other,
  };

  assert_eq!(propagated_error.to_string(), "验证错误: 由于文件错误导致的验证失败: 底层错误");
}

/// 测试空消息的错误
#[test]
fn test_empty_message_error() {
  let error = MarkdownError::ParseError("".to_string());
  assert_eq!(error.to_string(), "解析错误: ");
}

/// 测试包含特殊字符的错误消息
#[test]
fn test_special_characters_in_error_message() {
  let message = "错误：文件 'test.md' 在第 10 行包含无效字符 \"\\n\"";
  let error = MarkdownError::ParseError(message.to_string());
  assert_eq!(error.to_string(), format!("解析错误: {}", message));
}

/// 测试多字节 Unicode 字符的错误消息
#[test]
fn test_unicode_error_message() {
  let message = "解析错误：文档包含emoji 🚀 和中文字符";
  let error = MarkdownError::ValidationError(message.to_string());
  assert_eq!(error.to_string(), format!("验证错误: {}", message));
}

/// 测试长错误消息
#[test]
fn test_long_error_message() {
  let long_message = "这是一个非常长的错误消息，".repeat(100);
  let error = MarkdownError::ConfigError(long_message.clone());
  assert_eq!(error.to_string(), format!("配置错误: {}", long_message));
}

/// 测试错误类型的相等性
#[test]
fn test_error_type_matching() {
  let parse_error = MarkdownError::ParseError("test".to_string());
  let file_error = MarkdownError::FileError("test".to_string());
  let validation_error = MarkdownError::ValidationError("test".to_string());
  let config_error = MarkdownError::ConfigError("test".to_string());

  // 测试模式匹配
  match parse_error {
    MarkdownError::ParseError(_) => (),
    _ => panic!("应该匹配 ParseError"),
  }

  match file_error {
    MarkdownError::FileError(_) => (),
    _ => panic!("应该匹配 FileError"),
  }

  match validation_error {
    MarkdownError::ValidationError(_) => (),
    _ => panic!("应该匹配 ValidationError"),
  }

  match config_error {
    MarkdownError::ConfigError(_) => (),
    _ => panic!("应该匹配 ConfigError"),
  }
}

/// 测试在函数中使用 Result 类型
#[test]
fn test_result_in_function() {
  // 测试成功情况
  let result = parse_number("42");
  assert!(result.is_ok());
  assert_eq!(result.unwrap(), 42);

  // 测试失败情况
  let result = parse_number("not_a_number");
  assert!(result.is_err());

  match result.unwrap_err() {
    MarkdownError::ParseError(msg) => {
      assert!(msg.contains("无法解析数字"));
      assert!(msg.contains("not_a_number"));
    }
    _ => panic!("期望 ParseError"),
  }
}

/// 测试错误的 Send 和 Sync traits
#[test]
fn test_error_send_sync() {
  assert_send::<MarkdownError>();
  assert_sync::<MarkdownError>();
}

fn parse_number(s: &str) -> Result<i32> {
  s.parse::<i32>().map_err(|_| MarkdownError::ParseError(format!("无法解析数字: {}", s)))
}

fn assert_send<T: Send>() {}

fn assert_sync<T: Sync>() {}
