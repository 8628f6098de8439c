use fsrs_lib::tui::markdown_render::render;

#[test]
fn test_bold_italic() {
    let s = render("这是 **粗体** 和 *斜体* 文本");
    assert!(s.contains("\x1b[1m粗体\x1b[0m"), "bold not found: {}", s);
    assert!(s.contains("\x1b[3m斜体\x1b[0m"), "italic not found: {}", s);
}

#[test]
fn test_header() {
    let s = render("# 标题一\n## 标题二");
    assert!(s.contains("标题一"));
    assert!(s.contains("标题二"));
    assert!(s.contains("\x1b[1;36m"));
}

#[test]
fn test_list() {
    let s = render("- 项目一\n* 项目二");
    assert!(s.contains("• 项目一"));
    assert!(s.contains("• 项目二"));
}

#[test]
fn test_code_block() {
    let s = render("```\nlet x = 1;\n```");
    assert!(s.contains("\x1b[2m"), "code block not dimmed: {}", s);
    assert!(s.contains("let x = 1;"));
}

#[test]
fn render_exact_output() {
    assert_eq!(render("see `x` and [doc](http://a)"), "see \x1b[33m x \x1b[0m and doc");
    assert_eq!(render("> quote"), "\x1b[2m│ quote\x1b[0m");
    assert_eq!(render("# T\nplain"), "\x1b[1;36mT\x1b[0m\nplain");
    assert_eq!(render("a ** b"), "a ** b");
    assert_eq!(render(""), "");
}
