use tg_notebook::dynamic_lib_loading::{
    close_outcome, get_error, lookup_outcome, open_outcome, reload_step, shared_lib_path,
    windows_get_error, FULL_LIBRARY_BYTES, RTLD_LAZY,
};
use tg_notebook::instructions::{InstructionBuffer, Registration};
use tg_notebook::interaction_tools::{in_rect, ButtonStatus, KeyboardEnum, MouseInfo};
use tg_notebook::render_tools::{Bitmap, RenderType, RGBA};
use tg_notebook::source_scan::{chars_of, scan_user_functions, split_lines};

#[test]
fn scan_finds_user_functions() {
    let src = "use x;\n#[no_mangle]\nfn UD_test(ri: &mut R)->Result<(), String>{\n    ri.clear();\n}\n\n#[no_mangle]\npub fn UD_other(a: i32){\n}\n";
    let (names, srcs) = scan_user_functions(src);
    assert_eq!(names, vec!["UD_test".to_string(), "UD_other".to_string()]);
    assert_eq!(srcs[0], "fn UD_test(ri: &mut R)->Result<(), String>{\n    ri.clear();\n}\n");
    assert_eq!(srcs[1], "pub fn UD_other(a: i32){\n}\n");
}

#[test]
fn scan_marker_without_fn_header() {
    let (names, srcs) = scan_user_functions("#[no_mangle]\nstatic X: i32 = 1;\n");
    assert_eq!(names, vec!["UD_".to_string()]);
    assert_eq!(srcs, vec!["static X: i32 = 1;\n".to_string()]);
}

#[test]
fn scan_open_function_takes_rest_of_file() {
    let (names, srcs) = scan_user_functions("#[no_mangle]\nfn UD_a(){\nlet x = 1;\n  }\n}  \n");
    assert_eq!(names, vec!["UD_a".to_string()]);
    assert_eq!(srcs, vec!["fn UD_a(){\nlet x = 1;\n  }\n}  \n".to_string()]);
}

#[test]
fn scan_closing_with_trailing_space() {
    let (_, srcs) = scan_user_functions("#[no_mangle]\nfn UD_b(){\n} \nlater\n");
    assert_eq!(srcs, vec!["fn UD_b(){\n} \n".to_string()]);
}

#[test]
fn scan_crlf_lines() {
    let (names, srcs) = scan_user_functions("#[no_mangle]\r\nfn UD_c()\r\n}\r\n");
    assert_eq!(names, vec!["UD_c".to_string()]);
    assert_eq!(srcs, vec!["fn UD_c()\n}\n".to_string()]);
}

#[test]
fn scan_no_functions() {
    let (names, srcs) = scan_user_functions("fn main() {}\n");
    assert!(names.is_empty());
    assert!(srcs.is_empty());
}

#[test]
fn split_lines_like_str_lines() {
    for text in ["", "a", "a\n", "a\nb", "a\r\nb\r\n", "\n\n", "x\ry\n", "a\n\nb"] {
        let chars = chars_of(text);
        let lines: Vec<String> = split_lines(&chars).into_iter().map(|l| l.into_iter().collect()).collect();
        let expected: Vec<String> = text.lines().map(|l| l.to_string()).collect();
        assert_eq!(lines, expected, "text {:?}", text);
    }
}

#[test]
fn instruction_buffer_push_and_lookup() {
    let mut ib = InstructionBuffer::new();
    assert_eq!(ib.len(), 0);
    ib.push("UD_a".to_string(), "src a".to_string());
    ib.push("UD_b".to_string(), "src b".to_string());
    assert_eq!(ib.len(), 2);
    assert!(ib.contains("UD_b"));
    assert!(!ib.contains("UD_c"));
    assert_eq!(ib.get_index("UD_b"), Ok(1));
    assert_eq!(ib.get_index("UD_c"), Err("Id 'UD_c' not found".to_string()));
    assert_eq!(ib.initialized, vec![false, false]);
    assert_eq!(ib.errors, vec![String::new(), String::new()]);
}

#[test]
fn instruction_buffer_refresh_source() {
    let mut ib = InstructionBuffer::new();
    ib.push("UD_a".to_string(), "old".to_string());
    assert!(!ib.refresh_source(0, "old".to_string()));
    assert_eq!(ib.initialized, vec![true]);
    assert!(ib.refresh_source(0, "new".to_string()));
    assert_eq!(ib.initialized, vec![false]);
    assert_eq!(ib.fns_source, vec!["new".to_string()]);
}

#[test]
fn instruction_buffer_focus() {
    let mut ib = InstructionBuffer::new();
    ib.push("a".to_string(), String::new());
    ib.push("b".to_string(), String::new());
    ib.push("c".to_string(), String::new());
    ib.bring_into_focus(1);
    assert_eq!(ib.infocus, vec![false, true, false]);
    ib.bring_into_focus(2);
    assert_eq!(ib.infocus, vec![false, false, true]);
}

#[test]
fn bitmap_new_sizes() {
    let b = Bitmap::new(3, 2, RGBA::U8rgba);
    assert_eq!(b.buffer.len(), 24);
    assert!(b.buffer.iter().all(|x| *x == 0));
    let b = Bitmap::new(3, 2, RGBA::U8argb);
    assert_eq!(b.buffer.len(), 24);
    let b = Bitmap::new(3, 2, RGBA::U8rgb);
    assert_eq!(b.buffer.len(), 18);
    assert_eq!(b.width, 3);
    assert_eq!(b.height, 2);
    assert_eq!(b.rgba_type, RGBA::U8rgb);
    let b = Bitmap::new(-1, 0, RGBA::U8rgb);
    assert_eq!(b.buffer.len(), 0);
}

#[test]
fn defaults() {
    assert_eq!(RenderType::default(), RenderType::Empty);
    assert_eq!(RGBA::default(), RGBA::Empty);
    assert_eq!(KeyboardEnum::default(), KeyboardEnum::Default);
    assert_eq!(ButtonStatus::default(), ButtonStatus::Default);
    let m = MouseInfo::new();
    assert_eq!((m.x, m.y, m.wheel, m.wheel_delta), (0, 0, 0, 0));
    assert_eq!(m.lbutton, ButtonStatus::Default);
}

#[test]
fn in_rect_edges() {
    let r = [10, 20, 5, 5];
    assert!(in_rect(10, 20, r));
    assert!(in_rect(15, 25, r));
    assert!(!in_rect(16, 25, r));
    assert!(!in_rect(9, 22, r));
    assert!(!in_rect(12, 26, r));
    assert!(!in_rect(12, 19, r));
}

#[test]
fn lib_path_from_source_path() {
    assert_eq!(shared_lib_path("examples/test.rs"), "examples/libtest.so");
    assert_eq!(shared_lib_path("test.rs"), "libtest.so");
    assert_eq!(shared_lib_path("/a/b/c.rs"), "/a/b/libc.so");
    assert_eq!(shared_lib_path("dir/xé"), "dir/lib.so");
}

#[test]
fn loader_outcomes() {
    assert_eq!(RTLD_LAZY, 1);
    assert_eq!(open_outcome(false, "x.so"), Ok(()));
    assert_eq!(open_outcome(true, "x.so"), Err("Shared lib is null! x.so  Check file path/name.".to_string()));
    assert_eq!(lookup_outcome(true), Err("Function name could not be found.".to_string()));
    assert_eq!(lookup_outcome(false), Ok(()));
    assert_eq!(get_error(None), "No Error");
    assert_eq!(get_error(Some("boom".to_string())), "boom");
    assert_eq!(close_outcome(0), None);
    assert_eq!(close_outcome(-1), Some("Could not properly close shared library.".to_string()));
}

#[test]
fn instruction_buffer_register_refreshes_and_adds() {
    let mut ib = InstructionBuffer::new();
    let r = ib.register("UD_a".to_string(), "one".to_string());
    assert!(matches!(r, Registration::Added { index: 0 }));
    let r = ib.register("UD_b".to_string(), "two".to_string());
    assert!(matches!(r, Registration::Added { index: 1 }));
    assert_eq!(ib.len(), 2);
    assert_eq!(ib.localstorage.len(), 2);
    assert!(!ib.localstorage[1].initialized);
    let r = ib.register("UD_b".to_string(), "two".to_string());
    assert!(matches!(r, Registration::Refreshed { index: 1, changed: false }));
    assert_eq!(ib.initialized, vec![false, true]);
    let r = ib.register("UD_a".to_string(), "uno".to_string());
    assert!(matches!(r, Registration::Refreshed { index: 0, changed: true }));
    assert_eq!(ib.fns_source, vec!["uno".to_string(), "two".to_string()]);
    assert_eq!(ib.initialized, vec![false, true]);
    assert_eq!(ib.len(), 2);
}

#[test]
fn instruction_buffer_runs_and_records_errors() {
    let mut ib = InstructionBuffer::new();
    ib.push("a".to_string(), String::new());
    ib.push("b".to_string(), String::new());
    assert!(ib.needs_run(0));
    assert_eq!(ib.record_run(0, Ok(())), None);
    assert!(!ib.needs_run(0));
    assert_eq!(ib.record_run(1, Err("bad".to_string())), Some("bad".to_string()));
    assert_eq!(ib.errors, vec![String::new(), "bad".to_string()]);
    assert_eq!(ib.initialized, vec![true, true]);
    ib.interactive[1] = true;
    assert!(ib.needs_run(1));
    assert!(!ib.needs_run(0));
}

#[test]
fn reload_step_cases() {
    // not newer: nothing changes
    assert_eq!(reload_step(false, 10, 20), (false, 10));
    assert_eq!(reload_step(false, 10, 600_000), (false, 10));
    // newer with the size last seen: load again
    assert_eq!(reload_step(true, 600_000, 600_000), (true, 600_000));
    // newer, size changed, large enough: remember the size
    assert_eq!(reload_step(true, 10, 600_000), (false, 600_000));
    // newer, size changed, still small: keep waiting
    assert_eq!(reload_step(true, 10, FULL_LIBRARY_BYTES), (false, 10));
    assert_eq!(reload_step(true, 10, FULL_LIBRARY_BYTES + 1), (false, FULL_LIBRARY_BYTES + 1));
}

#[test]
fn windows_error_text() {
    assert_eq!(windows_get_error(), "Windows version has not been implemented");
}
