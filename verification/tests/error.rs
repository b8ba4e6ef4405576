use soong_digest::error::{parse, parse_output, read_error_header, summary, ParseError};
use soong_digest::item::ItemType;

/// One failure block: the four header lines, `Output:`, what the command
/// printed, and the empty line that ends the block.
fn block(target: &str, output: &[&str]) -> String {
    let mut text = String::new();
    text.push_str(&format!("FAILED: out/soong/.intermediates/{}\n", target));
    text.push_str(&format!("Outputs: out/soong/.intermediates/{}\n", target));
    text.push_str("Error: exit status 1\n");
    text.push_str(&format!("Command: /bin/bash -c \"build {}\"\n", target));
    text.push_str("Output:\n");
    text.push_str(&output.join("\n"));
    text.push_str("\n\n");
    text
}

fn log(blocks: &[String]) -> String {
    let mut text = String::from("ninja: Entering directory `.'\n");
    for (i, b) in blocks.iter().enumerate() {
        text.push_str(&format!("[{}/{}] compiling\n", i + 1, blocks.len()));
        text.push_str(b);
    }
    text.push_str("ninja: build stopped: subcommand failed.\n");
    text
}

fn chars(s: &str) -> Vec<char> {
    s.chars().collect()
}

const PAINT: &str =
    "frameworks/base/packages/EasterEgg/src/com/android/egg/paint/PaintActivity.java";
const TOOLBAR: &str =
    "frameworks/base/packages/EasterEgg/src/com/android/egg/paint/CutoutAvoidingToolbar.kt";

#[test]
fn test_parse_java_errors() {
    let haystack = log(&[block(
        "frameworks/base/packages/EasterEgg/EasterEgg/android_common/javac/EasterEgg.jar",
        &[
            &format!("{}:228: error: cannot find symbol", PAINT),
            "            for (int i = 0; i < NUM_BRUSHES; i++) {",
            "                                ^",
            "  symbol:   variable NUM_BRUSHES",
            "  location: class PaintActivity",
            &format!("{}:233: error: cannot find symbol", PAINT),
            "                        (float) Math.pow((float) i / NUM_BRUSHES, 2f), minBrushWidth,",
            "                                                     ^",
            "  symbol:   variable NUM_BRUSHES",
            "  location: class PaintActivity",
            &format!("{}:311: error: cannot find symbol", PAINT),
            "        thisDoesNotExist();",
            "        ^",
            "  symbol:   method thisDoesNotExist()",
            "  location: class PaintActivity",
            "3 errors",
        ],
    )]);
    let items = parse(&haystack).unwrap();
    assert_eq!(items.len(), 3);

    let i = &items[0];
    assert_eq!(
        i.path,
        "frameworks/base/packages/EasterEgg/src/com/android/egg/paint/PaintActivity.java"
    );
    assert_eq!(i.line, Some(228));
    assert_eq!(i.column, None);
    assert_eq!(i.subject, "cannot find symbol");
    assert_eq!(i.body, Some("            for (int i = 0; i < NUM_BRUSHES; i++) {\n                                ^\n  symbol:   variable NUM_BRUSHES\n  location: class PaintActivity".to_string()));

    let i = &items[1];
    assert_eq!(
        i.path,
        "frameworks/base/packages/EasterEgg/src/com/android/egg/paint/PaintActivity.java"
    );
    assert_eq!(i.line, Some(233));
    assert_eq!(i.column, None);
    assert_eq!(i.subject, "cannot find symbol");
    assert_eq!(i.body, Some("                        (float) Math.pow((float) i / NUM_BRUSHES, 2f), minBrushWidth,\n                                                     ^\n  symbol:   variable NUM_BRUSHES\n  location: class PaintActivity".to_string()));

    let i = &items[2];
    assert_eq!(
        i.path,
        "frameworks/base/packages/EasterEgg/src/com/android/egg/paint/PaintActivity.java"
    );
    assert_eq!(i.line, Some(311));
    assert_eq!(i.column, None);
    assert_eq!(i.subject, "cannot find symbol");
    assert_eq!(i.body, Some("        thisDoesNotExist();\n        ^\n  symbol:   method thisDoesNotExist()\n  location: class PaintActivity".to_string()));
}

#[test]
fn test_parse_kotlin_errors() {
    let haystack = log(&[block(
        "frameworks/base/packages/EasterEgg/EasterEgg/android_common/kotlin/EasterEgg.jar",
        &[
            &format!("{}:48:9: error: unresolved reference: thisDoesNotExist", TOOLBAR),
            "        thisDoesNotExist()",
            "        ^",
            &format!(
                "{}:65:35: error: type mismatch: inferred type is Int but Char was expected",
                TOOLBAR
            ),
            "                    cutoutRight = r.width()",
            "                                  ^",
            &format!(
                "{}:79:35: error: none of the following functions can be called with the arguments supplied: ",
                TOOLBAR
            ),
            "public constructor LayoutParams(c: Context!, attrs: AttributeSet!) defined in android.widget.LinearLayout.LayoutParams",
            "public constructor LayoutParams(width: Int, height: Int) defined in android.widget.LinearLayout.LayoutParams",
            "                it.layoutParams = LayoutParams(cutoutRight, MATCH_PARENT)",
            "                                  ^",
        ],
    )]);
    let items = parse(&haystack).unwrap();
    assert_eq!(items.len(), 3);

    let i = &items[0];
    assert_eq!(
        i.path,
        "frameworks/base/packages/EasterEgg/src/com/android/egg/paint/CutoutAvoidingToolbar.kt"
    );
    assert_eq!(i.line, Some(48));
    assert_eq!(i.column, Some(9));
    assert_eq!(i.subject, "unresolved reference: thisDoesNotExist");
    assert_eq!(
        i.body,
        Some("        thisDoesNotExist()\n        ^".to_string())
    );

    let i = &items[1];
    assert_eq!(
        i.path,
        "frameworks/base/packages/EasterEgg/src/com/android/egg/paint/CutoutAvoidingToolbar.kt"
    );
    assert_eq!(i.line, Some(65));
    assert_eq!(i.column, Some(35));
    assert_eq!(
        i.subject,
        "type mismatch: inferred type is Int but Char was expected"
    );
    assert_eq!(
        i.body,
        Some(
            "                    cutoutRight = r.width()\n                                  ^"
                .to_string()
        )
    );

    let i = &items[2];
    assert_eq!(
        i.path,
        "frameworks/base/packages/EasterEgg/src/com/android/egg/paint/CutoutAvoidingToolbar.kt"
    );
    assert_eq!(i.line, Some(79));
    assert_eq!(i.column, Some(35));
    assert_eq!(
        i.subject,
        "none of the following functions can be called with the arguments supplied: "
    );
    assert_eq!(i.body, Some("public constructor LayoutParams(c: Context!, attrs: AttributeSet!) defined in android.widget.LinearLayout.LayoutParams\npublic constructor LayoutParams(width: Int, height: Int) defined in android.widget.LinearLayout.LayoutParams\n                it.layoutParams = LayoutParams(cutoutRight, MATCH_PARENT)\n                                  ^".to_string()));
}

#[test]
fn test_parse_cpp_errors() {
    let haystack = log(&[
        block(
            "frameworks/base/cmds/idmap/idmap/android_x86_64_core/obj/frameworks/base/cmds/idmap/idmap.o",
            &[
                "\u{1b}[1mframeworks/base/cmds/idmap/idmap.cpp:234:5: \u{1b}[0m\u{1b}[0;1;31merror: \u{1b}[0m\u{1b}[1mcontrol may reach end of non-void function [-Werror,-Wreturn-type]\u{1b}[0m",
                "    }",
                "\u{1b}[0;1;32m    ^",
                "\u{1b}[0m1 error generated.",
            ],
        ),
        block(
            "frameworks/base/cmds/idmap/idmap/android_x86_64_core/obj/frameworks/base/cmds/idmap/create.o",
            &[
                "\u{1b}[1mframeworks/base/cmds/idmap/create.cpp:29:33: \u{1b}[0m\u{1b}[0;1;31merror: \u{1b}[0m\u{1b}[1mexpected ';' after expression\u{1b}[0m",
                "        zip->releaseEntry(entry)",
                "\u{1b}[0;1;32m                                ^",
                "\u{1b}[0m\u{1b}[0;32m                                ;",
                "\u{1b}[0m\u{1b}[1mframeworks/base/cmds/idmap/create.cpp:89:13: \u{1b}[0m\u{1b}[0;1;31merror: \u{1b}[0m\u{1b}[1mno matching function for call to 'lseek'\u{1b}[0m",
                "        if (lseek(idmap_fd, 0) < 0) {",
                "\u{1b}[0;1;32m            ^~~~~",
                "\u{1b}[0m\u{1b}[1mbionic/libc/include/unistd.h:258:7: \u{1b}[0m\u{1b}[0;1;30mnote: \u{1b}[0mcandidate function not viable: requires 3 arguments, but 2 were provided\u{1b}[0m",
                "off_t lseek(int __fd, off_t __offset, int __whence);",
                "\u{1b}[0;1;32m      ^",
                "\u{1b}[0m2 errors generated.",
            ],
        ),
    ]);
    let items = parse(&haystack).unwrap();
    assert_eq!(items.len(), 3);

    let i = &items[0];
    assert_eq!(i.path, "frameworks/base/cmds/idmap/idmap.cpp");
    assert_eq!(i.line, Some(234));
    assert_eq!(i.column, Some(5));
    assert_eq!(
        i.subject,
        "control may reach end of non-void function [-Werror,-Wreturn-type]"
    );
    assert_eq!(i.body, Some("    }\n    ^".to_string()));

    let i = &items[1];
    assert_eq!(i.path, "frameworks/base/cmds/idmap/create.cpp");
    assert_eq!(i.line, Some(29));
    assert_eq!(i.column, Some(33));
    assert_eq!(i.subject, "expected ';' after expression");
    assert_eq!(i.body, Some("        zip->releaseEntry(entry)\n                                ^\n                                ;".to_string()));

    let i = &items[2];
    assert_eq!(i.path, "frameworks/base/cmds/idmap/create.cpp");
    assert_eq!(i.line, Some(89));
    assert_eq!(i.column, Some(13));
    assert_eq!(i.subject, "no matching function for call to 'lseek'");
    assert_eq!(i.body, Some("        if (lseek(idmap_fd, 0) < 0) {\n            ^~~~~\nbionic/libc/include/unistd.h:258:7: note: candidate function not viable: requires 3 arguments, but 2 were provided\noff_t lseek(int __fd, off_t __offset, int __whence);\n      ^".to_string()));
}

#[test]
fn test_parse_cpp_fatal_errors() {
    let haystack = log(&[block(
        "frameworks/base/cmds/idmap/idmap/android_x86_64_core/obj/frameworks/base/cmds/idmap/create.o",
        &[
            "\u{1b}[1mframeworks/base/cmds/idmap/create.cpp:2:10: \u{1b}[0m\u{1b}[0;1;31mfatal error: \u{1b}[0m\u{1b}[1m'does-not-exist.h' file not found\u{1b}[0m",
            "#include \"does-not-exist.h\"",
            "\u{1b}[0;1;32m         ^~~~~~~~~~~~~~~~~~",
            "\u{1b}[0m1 error generated.",
        ],
    )]);
    let items = parse(&haystack).unwrap();
    assert_eq!(items.len(), 1);

    let i = &items[0];
    assert_eq!(i.path, "frameworks/base/cmds/idmap/create.cpp");
    assert_eq!(i.line, Some(2));
    assert_eq!(i.column, Some(10));
    assert_eq!(i.subject, "'does-not-exist.h' file not found");
    assert_eq!(
        i.body,
        Some("#include \"does-not-exist.h\"\n         ^~~~~~~~~~~~~~~~~~".to_string())
    );
}

#[test]
fn test_parse_cpp_linker_errors() {
    let haystack = log(&[block(
        "frameworks/base/cmds/idmap/idmap/android_x86_64_core/unstripped/idmap",
        &[
            "ld.lld: error: undefined symbol: idmap_create_fd(char const*, char const*, int)",
            ">>> referenced by idmap.cpp:150 (frameworks/base/cmds/idmap/idmap.cpp:150)",
            ">>>               out/soong/.intermediates/frameworks/base/cmds/idmap/idmap/android_x86_64_core/obj/frameworks/base/cmds/idmap/idmap.o:(main)",
            "clang-8: error: linker command failed with exit code 1 (use -v to see invocation)",
        ],
    )]);
    let items = parse(&haystack).unwrap();
    assert_eq!(items.len(), 2);

    let i = &items[0];
    assert_eq!(i.path, "ld.lld");
    assert_eq!(i.line, None);
    assert_eq!(i.column, None);
    assert_eq!(
        i.subject,
        "undefined symbol: idmap_create_fd(char const*, char const*, int)"
    );
    assert_eq!(
        i.body,
        Some(">>> referenced by idmap.cpp:150 (frameworks/base/cmds/idmap/idmap.cpp:150)\n>>>               out/soong/.intermediates/frameworks/base/cmds/idmap/idmap/android_x86_64_core/obj/frameworks/base/cmds/idmap/idmap.o:(main)".to_string())
    );

    let i = &items[1];
    assert_eq!(i.path, "clang-8");
    assert_eq!(i.line, None);
    assert_eq!(i.column, None);
    assert_eq!(
        i.subject,
        "linker command failed with exit code 1 (use -v to see invocation)"
    );
    assert_eq!(i.body, None);
}

#[test]
fn test_failure_to_parse_a_block() {
    let haystack = "FAILED: some path\n\
                    Outputs: some object\n\
                    Error: some return value\n\
                    Command: some command\n\
                    Output:\n\
                    some output not recognized by the parser\n\
                    \n\
                    \n";
    let result = parse(&haystack);
    assert!(result.is_err());
    assert!(result
        .err()
        .unwrap()
        .message()
        .contains("failed to parse block"));
}

#[test]
fn test_failure_to_parse_anything() {
    let haystack = "foo";
    let result = parse(&haystack);
    assert!(result.is_err());
    assert!(result
        .err()
        .unwrap()
        .message()
        .contains("failed to split input into blocks"));
}

#[test]
fn test_empty_input_is_ok() {
    let haystack = "";
    let items = parse(&haystack).unwrap();
    assert_eq!(items.len(), 0);
}

#[test]
fn not_a_build_log_is_an_input_structure_error() {
    assert_eq!(
        parse("not a build log"),
        Err(ParseError::InputStructureError)
    );
}

#[test]
fn block_error_carries_the_output_as_it_stands() {
    let haystack = block("a.o", &["nothing \u{1b}[1mbold\u{1b}[0m here", "1 error generated."]);
    assert_eq!(
        parse(&haystack),
        Err(ParseError::BlockParseError(
            "nothing \u{1b}[1mbold\u{1b}[0m here\n1 error generated.".to_string()
        ))
    );
    assert_eq!(
        parse(&haystack).err().unwrap().message(),
        "failed to parse block 'nothing \u{1b}[1mbold\u{1b}[0m here\n1 error generated.'"
    );
    assert_eq!(
        ParseError::InputStructureError.message(),
        "failed to split input into blocks"
    );
}

#[test]
fn first_block_without_diagnostic_stops_the_parse() {
    let haystack = log(&[
        block("a.o", &["a.c:1:2: error: first"]),
        block("b.o", &["plain text"]),
        block("c.o", &["more plain text"]),
    ]);
    assert_eq!(
        parse(&haystack),
        Err(ParseError::BlockParseError("plain text".to_string()))
    );
}

#[test]
fn column_bearing_error() {
    let haystack = block("a.o", &["a.cpp:10:5: error: bad thing", "    code", "    ^"]);
    let items = parse(&haystack).unwrap();
    assert_eq!(items.len(), 1);
    let i = &items[0];
    assert_eq!(i.path, "a.cpp");
    assert_eq!(i.line, Some(10));
    assert_eq!(i.column, Some(5));
    assert_eq!(i.subject, "bad thing");
    assert_eq!(i.body, Some("    code\n    ^".to_string()));
    assert_eq!(i.type_, ItemType::Error);
}

#[test]
fn linker_style_error_has_no_location() {
    let items = parse_output("ld: error: undefined symbol: foo").unwrap();
    assert_eq!(items.len(), 1);
    let i = &items[0];
    assert_eq!(i.path, "ld");
    assert_eq!(i.line, None);
    assert_eq!(i.column, None);
    assert_eq!(i.subject, "undefined symbol: foo");
    assert_eq!(i.body, None);
    assert_eq!(i.type_, ItemType::Error);
}

#[test]
fn line_without_label_is_no_header() {
    assert_eq!(
        parse_output("ld: undefined symbol: foo"),
        Err(ParseError::BlockParseError(
            "ld: undefined symbol: foo".to_string()
        ))
    );
}

#[test]
fn lines_before_the_first_header_are_dropped() {
    let items =
        parse_output("In file included from x.h:1:\n\nx.c:3: error: oops\nnote\n2 errors\n")
            .unwrap();
    assert_eq!(items.len(), 1);
    assert_eq!(items[0].path, "x.c");
    assert_eq!(items[0].line, Some(3));
    assert_eq!(items[0].column, None);
    assert_eq!(items[0].body, Some("note".to_string()));
}

#[test]
fn header_shapes_are_tried_from_the_most_specific() {
    let h = read_error_header(&chars("a:b:1:2: error: x")).unwrap();
    assert_eq!(h.path, chars("a:b"));
    assert_eq!((h.line, h.column), (Some(1), Some(2)));
    assert_eq!(h.subject, chars("x"));

    let h = read_error_header(&chars("a:1:x: error: y z")).unwrap();
    assert_eq!(h.path, chars("a:1:x"));
    assert_eq!((h.line, h.column), (None, None));
    assert_eq!(h.subject, chars("y z"));

    let h = read_error_header(&chars("a:x:7: fatal error: ")).unwrap();
    assert_eq!(h.path, chars("a:x"));
    assert_eq!((h.line, h.column), (Some(7), None));
    assert_eq!(h.subject, chars(""));

    let h = read_error_header(&chars(":1:2: error: x")).unwrap();
    assert_eq!(h.path, chars(":1"));
    assert_eq!((h.line, h.column), (Some(2), None));

    assert!(read_error_header(&chars("a.c:1:2: warning: x")).is_none());
    assert!(read_error_header(&chars("a.c:1:2:error: x")).is_none());
    assert!(read_error_header(&chars(": error: x")).is_none());
    assert!(read_error_header(&chars(" a.c:1:2: error: x")).is_none());
    assert!(read_error_header(&chars("a.c:1:2:\terror: x")).is_none());
    assert!(read_error_header(&chars("a.c:1:2: fatal x")).is_none());
    assert!(read_error_header(&chars("")).is_none());
}

#[test]
fn number_that_does_not_fit_is_no_number() {
    let h = read_error_header(&chars("a.c:99999999999999999999999999:5: error: x")).unwrap();
    assert_eq!(h.path, chars("a.c:99999999999999999999999999"));
    assert_eq!((h.line, h.column), (Some(5), None));
    let h = read_error_header(&chars("a.c:007:0: error: x")).unwrap();
    assert_eq!((h.line, h.column), (Some(7), Some(0)));
}

#[test]
fn summary_lines() {
    assert!(summary(&chars("1 error")));
    assert!(summary(&chars("12 errors")));
    assert!(summary(&chars("1 error generated.")));
    assert!(summary(&chars("20 errors generated.")));
    assert!(!summary(&chars(" errors")));
    assert!(!summary(&chars("1 errors generated")));
    assert!(!summary(&chars("1 error generated. ")));
    assert!(!summary(&chars("x 1 error")));
    assert!(!summary(&chars("1  error")));
    assert!(!summary(&chars("")));
}

#[test]
fn block_needs_all_five_lines_and_an_empty_line() {
    let good = "FAILED: x\nOutputs: x\nError: x\nCommand: x\nOutput:\na: error: b\n\n";
    assert_eq!(parse(good).unwrap().len(), 1);
    let no_end = "FAILED: x\nOutputs: x\nError: x\nCommand: x\nOutput:\na: error: b\n";
    assert_eq!(parse(no_end), Err(ParseError::InputStructureError));
    let swapped = "FAILED: x\nError: x\nOutputs: x\nCommand: x\nOutput:\na: error: b\n\n";
    assert_eq!(parse(swapped), Err(ParseError::InputStructureError));
    let not_at_line_start = " FAILED: x\nOutputs: x\nError: x\nCommand: x\nOutput:\na: error: b\n\n";
    assert_eq!(parse(not_at_line_start), Err(ParseError::InputStructureError));
    let trailing = "FAILED: x\nOutputs: x\nError: x\nCommand: x\nOutput: \na: error: b\n\n";
    assert_eq!(parse(trailing), Err(ParseError::InputStructureError));
    let empty_output = "FAILED: x\nOutputs: x\nError: x\nCommand: x\nOutput:\n\n\n";
    assert_eq!(
        parse(empty_output),
        Err(ParseError::BlockParseError(String::new()))
    );
    let two = format!("{}{}", good, good);
    assert_eq!(parse(&two).unwrap().len(), 2);
}

#[test]
fn escape_left_in_a_field_is_removed() {
    // the first pass joins the two halves of an escape sequence
    let items = parse_output("a.c:1: error: x\u{1b}[1\u{1b}[0mmy").unwrap();
    assert_eq!(items[0].subject, "xy");
}
