//! The shapes that the library reads, held against the regular expressions
//! that describe them.
use regex::Regex;
use soong_digest::ansi::strip_ansi_escape;
use soong_digest::error::{parse, parse_output, read_error_header, summary};
use soong_digest::warning::{find_captures, noise, read_warning_header};

fn chars(s: &str) -> Vec<char> {
    s.chars().collect()
}

fn text(v: &[char]) -> String {
    v.iter().collect()
}

fn sample_lines() -> Vec<String> {
    let paths = ["a.c", "d/e.kt", "a:b", "ld.lld", "[1/2]", ":", "x:9", ""];
    let numbers = ["", ":1", ":12:3", ":0:007", ":x", ":1:y", "::", ":4:"];
    let seps = [": ", ":", " ", ":\t", ":  "];
    let labels = [
        "error: ",
        "fatal error: ",
        "warning: ",
        "fatal warning: ",
        "error:",
        "note: ",
        "fatal ",
        "",
    ];
    let subjects = ["", "s", "a b: c", "error: x", "1 error"];
    let mut out = Vec::new();
    for p in paths.iter() {
        for n in numbers.iter() {
            for sep in seps.iter() {
                for l in labels.iter() {
                    for s in subjects.iter() {
                        out.push(format!("{}{}{}{}{}", p, n, sep, l, s));
                    }
                }
            }
        }
    }
    for extra in [
        "1 error",
        "2 errors",
        "1 error generated.",
        "33 errors generated.",
        "1 errors generated",
        " 1 error",
        "1 error ",
        "errors",
        "[1/2]",
        "[12/345] cc",
        "[1/2",
        "[/2]",
        "[1/]",
        "x[1/2]",
        "[1 /2]",
        "    ^",
        "\t",
    ]
    .iter()
    {
        out.push(extra.to_string());
    }
    out
}

#[test]
fn whitespace_agrees() {
    let re = Regex::new(r"^\s$").unwrap();
    let mut spaces = 0;
    for n in 0..0x11_0000u32 {
        if let Some(c) = char::from_u32(n) {
            let mut buffer = [0u8; 4];
            let s: &str = c.encode_utf8(&mut buffer);
            let expected = re.is_match(s);
            assert_eq!(soong_digest::text::space(c), expected, "character {:?}", c);
            assert_eq!(c.is_whitespace(), expected);
            if expected {
                spaces += 1;
            }
        }
    }
    assert_eq!(spaces, 25);
}

#[test]
fn error_headers_agree() {
    let line_col = Regex::new(r"^(\S+):(\d+):(\d+): (?:fatal )?error: (.*)").unwrap();
    let line_no_col = Regex::new(r"^(\S+):(\d+): (?:fatal )?error: (.*)").unwrap();
    let no_line_no_col = Regex::new(r"^(\S+): (?:fatal )?error: (.*)").unwrap();
    let mut headers = 0;
    for line in sample_lines().iter() {
        let expected = if let Some(c) = line_col.captures(line) {
            Some((
                c[1].to_string(),
                Some(c[2].parse::<usize>().unwrap()),
                Some(c[3].parse::<usize>().unwrap()),
                c[4].to_string(),
            ))
        } else if let Some(c) = line_no_col.captures(line) {
            Some((
                c[1].to_string(),
                Some(c[2].parse::<usize>().unwrap()),
                None,
                c[3].to_string(),
            ))
        } else if let Some(c) = no_line_no_col.captures(line) {
            Some((c[1].to_string(), None, None, c[2].to_string()))
        } else {
            None
        };
        let found = read_error_header(&chars(line))
            .map(|h| (text(&h.path), h.line, h.column, text(&h.subject)));
        assert_eq!(found, expected, "line {:?}", line);
        if found.is_some() {
            headers += 1;
        }
    }
    assert!(headers > 100);
}

#[test]
fn warning_headers_agree() {
    let subject = Regex::new(r"^\S+:\d+:\d+: warning: .*$").unwrap();
    let fields = Regex::new(r"(\S+):(\d+):(\d+): warning: (.*)").unwrap();
    let mut headers = 0;
    for line in sample_lines().iter() {
        let expected = if subject.is_match(line) {
            let c = fields.captures(line).unwrap();
            Some((
                c[1].to_string(),
                Some(c[2].parse::<usize>().unwrap()),
                Some(c[3].parse::<usize>().unwrap()),
                c[4].to_string(),
            ))
        } else {
            None
        };
        let found = read_warning_header(&chars(line))
            .map(|h| (text(&h.path), h.line, h.column, text(&h.subject)));
        assert_eq!(found, expected, "line {:?}", line);
        if found.is_some() {
            headers += 1;
        }
    }
    assert!(headers > 10);
}

#[test]
fn noise_and_summaries_agree() {
    let re_noise = Regex::new(r"^\[\d+/\d+\]").unwrap();
    let errors_generated = Regex::new(r"^\d+ errors? generated\.$").unwrap();
    let errors = Regex::new(r"^\d+ errors?$").unwrap();
    for line in sample_lines().iter() {
        assert_eq!(noise(&chars(line)), re_noise.is_match(line), "line {:?}", line);
        assert_eq!(
            summary(&chars(line)),
            errors_generated.is_match(line) || errors.is_match(line),
            "line {:?}",
            line
        );
    }
}

#[test]
fn stripping_agrees() {
    let re = Regex::new(r"\x1b\[\d+(;\d+)*m").unwrap();
    let pieces = [
        "\u{1b}", "[", "0", "1", ";", "m", "x", "\u{1b}[", "\u{1b}[0m", "\u{1b}[31;1m", "\n", "K",
    ];
    let mut n = 0;
    for a in pieces.iter() {
        for b in pieces.iter() {
            for c in pieces.iter() {
                for d in pieces.iter() {
                    let s = format!("{}{}{}{}", a, b, c, d);
                    assert_eq!(strip_ansi_escape(&s), re.replace_all(&s, ""), "text {:?}", s);
                    n += 1;
                }
            }
        }
    }
    assert_eq!(n, 12 * 12 * 12 * 12);
    // one pass can leave a sequence behind
    let s = "\u{1b}[1\u{1b}[0mm";
    assert_eq!(strip_ansi_escape(s), "\u{1b}[1m");
    assert_eq!(strip_ansi_escape(s), re.replace_all(s, ""));
    assert_eq!(strip_ansi_escape(&strip_ansi_escape(s)), "");
    // other escape sequences stay
    assert_eq!(strip_ansi_escape("a\u{1b}[2Kb\u{1b}[mc\u{1b}[;1md"), "a\u{1b}[2Kb\u{1b}[mc\u{1b}[;1md");
}

#[test]
fn blocks_agree() {
    let re = Regex::new(
        "(?m)^FAILED: .*\n\
         Outputs: .*\n\
         Error: .*\n\
         Command: .*\n\
         Output:\n(?s)(.*?)\n\n",
    )
    .unwrap();
    let lines = [
        "FAILED: a",
        "Outputs: b",
        "Error: c",
        "Command: d",
        "Output:",
        "x.c:1:2: error: e",
        "",
        "FAILED:",
        " FAILED: a",
    ];
    // texts of up to ten of these lines, each ended by a line feed
    let mut texts: Vec<Vec<usize>> = vec![vec![]];
    let mut all: Vec<Vec<usize>> = vec![vec![]];
    for _ in 0..10 {
        let mut next = Vec::new();
        for t in texts.iter() {
            // keep the number of texts small: follow the order of a block, or restart
            let last = t.last().copied();
            let candidates: Vec<usize> = match last {
                None => vec![0, 5, 6, 8],
                Some(0) => vec![1, 0, 6],
                Some(1) => vec![2, 6],
                Some(2) => vec![3, 1],
                Some(3) => vec![4, 5],
                Some(4) => vec![5, 6, 0],
                Some(5) => vec![5, 6, 0],
                Some(6) => vec![6, 0, 5, 7],
                _ => vec![0, 6],
            };
            for c in candidates {
                let mut u = t.clone();
                u.push(c);
                next.push(u);
            }
        }
        all.extend(next.iter().cloned());
        texts = next;
    }
    let mut with_blocks = 0;
    for t in all.iter() {
        let mut s = String::new();
        for i in t.iter() {
            s.push_str(lines[*i]);
            s.push('\n');
        }
        let captures: Vec<String> = re.captures_iter(&s).map(|c| c[1].to_string()).collect();
        let mut expected = Ok(Vec::new());
        if !s.is_empty() {
            let mut items = Vec::new();
            let mut failed = None;
            for c in captures.iter() {
                match parse_output(c) {
                    Ok(more) => items.extend(more),
                    Err(e) => {
                        failed = Some(e);
                        break;
                    }
                }
            }
            expected = match failed {
                Some(e) => Err(e),
                None if items.is_empty() => Err(soong_digest::error::ParseError::InputStructureError),
                None => Ok(items),
            };
        }
        if !captures.is_empty() {
            with_blocks += 1;
        }
        assert_eq!(parse(&s), expected, "text {:?}", s);
        if let Ok(items) = parse(&s) {
            let bodies: Vec<Option<String>> = items.iter().map(|i| i.body.clone()).collect();
            let expected_bodies: Vec<Option<String>> =
                expected.unwrap().iter().map(|i| i.body.clone()).collect();
            assert_eq!(bodies, expected_bodies);
        }
    }
    assert!(with_blocks > 20);
}

#[test]
fn captures_agree() {
    let re_subject = Regex::new(r"^\S+:\d+:\d+: warning: .*$").unwrap();
    let re_noise = Regex::new(r"^\[\d+/\d+\]").unwrap();
    let lines = ["a:1:2: warning: w", "[1/2] x", "body", "", "b:3:4: warning: v"];
    let mut texts: Vec<String> = vec![String::new()];
    for _ in 0..5 {
        let mut next = Vec::new();
        for t in texts.iter() {
            for l in lines.iter() {
                next.push(format!("{}{}\n", t, l));
            }
        }
        texts.extend(next);
        texts.sort();
        texts.dedup();
    }
    for s in texts.iter() {
        let mut expected: Vec<(String, Vec<String>)> = Vec::new();
        let mut current: Option<(String, Vec<String>)> = None;
        for line in s.lines() {
            if re_subject.is_match(line) {
                if let Some(c) = current.take() {
                    expected.push(c);
                }
                current = Some((line.to_string(), Vec::new()));
            } else if re_noise.is_match(line) {
                if let Some(c) = current.take() {
                    expected.push(c);
                }
            } else if let Some(c) = current.as_mut() {
                c.1.push(line.to_string());
            }
        }
        if let Some(c) = current.take() {
            expected.push(c);
        }
        let found: Vec<(String, Vec<String>)> = find_captures(s)
            .into_iter()
            .map(|c| (c.head, c.body))
            .collect();
        assert_eq!(found, expected, "text {:?}", s);
    }
}

/// A small generator of numbers, the same on every run.
struct Lcg(u64);

impl Lcg {
    fn next(&mut self, below: usize) -> usize {
        self.0 = self
            .0
            .wrapping_mul(6364136223846793005)
            .wrapping_add(1442695040888963407);
        ((self.0 >> 33) as usize) % below
    }
}

fn random_text(rng: &mut Lcg, pieces: &[&str], max: usize) -> String {
    let n = rng.next(max + 1);
    let mut s = String::new();
    for _ in 0..n {
        s.push_str(pieces[rng.next(pieces.len())]);
    }
    s
}

/// A line that is often a header, a progress line or a count of errors,
/// and often is nearly one.
fn random_line(rng: &mut Lcg, label: &str) -> String {
    let paths = ["a.c", "b/c.kt", "ld", "x:y", "[1/2]", "a\u{1b}[1\u{1b}[0mm", ""];
    let numbers = ["", ":1", ":23:4", ":0:0", ":x:1", ":5:y", ":7:"];
    let seps = [": ", ": ", ": ", ":", " ", ":\t"];
    let labels = [label, label, label, "fatal ", "note: ", ""];
    let subjects = ["s", "a b", "", "x\u{1b}[0my", "error: e", "\u{1b}[3\u{1b}[1m1m"];
    let others = [
        "", " ", "\t", "body", "  ^", "[1/2] cc", "[3/4]", "[1/2", "1 error", "2 errors",
        "3 errors generated.", "1 error generated", "\u{1b}[0m", "\u{1b}[1mbold\u{1b}[0m",
    ];
    if rng.next(3) == 0 {
        others[rng.next(others.len())].to_string()
    } else {
        let fatal = if rng.next(4) == 0 { "fatal " } else { "" };
        format!(
            "{}{}{}{}{}{}",
            paths[rng.next(paths.len())],
            numbers[rng.next(numbers.len())],
            seps[rng.next(seps.len())],
            fatal,
            labels[rng.next(labels.len())],
            subjects[rng.next(subjects.len())]
        )
    }
}

fn random_lines(rng: &mut Lcg, label: &str, max: usize) -> String {
    let n = rng.next(max + 1);
    let mut s = String::new();
    for i in 0..n {
        s.push_str(&random_line(rng, label));
        if i + 1 < n || rng.next(2) == 0 {
            s.push_str(if rng.next(5) == 0 { "\r\n" } else { "\n" });
        }
    }
    s
}

type Fields = (String, Option<usize>, Option<usize>, String, Option<String>);

#[test]
fn random_outputs_agree() {
    let ansi = Regex::new(r"\x1b\[\d+(;\d+)*m").unwrap();
    let line_col = Regex::new(r"^(\S+):(\d+):(\d+): (?:fatal )?error: (.*)").unwrap();
    let line_no_col = Regex::new(r"^(\S+):(\d+): (?:fatal )?error: (.*)").unwrap();
    let no_line_no_col = Regex::new(r"^(\S+): (?:fatal )?error: (.*)").unwrap();
    let errors_generated = Regex::new(r"^\d+ errors? generated\.$").unwrap();
    let errors = Regex::new(r"^\d+ errors?$").unwrap();
    let mut rng = Lcg(7);
    let mut with_items = 0;
    for _ in 0..3000 {
        let s = random_lines(&mut rng, "error: ", 8);
        let plain = ansi.replace_all(&s, "").to_string();
        let mut blocks: Vec<(String, Option<usize>, Option<usize>, String, Vec<String>)> =
            Vec::new();
        for line in plain
            .lines()
            .filter(|line| !line.is_empty())
            .filter(|line| !errors_generated.is_match(line))
            .filter(|line| !errors.is_match(line))
        {
            if let Some(c) = line_col.captures(line) {
                blocks.push((
                    c[1].to_string(),
                    Some(c[2].parse().unwrap()),
                    Some(c[3].parse().unwrap()),
                    c[4].to_string(),
                    vec![],
                ));
            } else if let Some(c) = line_no_col.captures(line) {
                blocks.push((
                    c[1].to_string(),
                    Some(c[2].parse().unwrap()),
                    None,
                    c[3].to_string(),
                    vec![],
                ));
            } else if let Some(c) = no_line_no_col.captures(line) {
                blocks.push((c[1].to_string(), None, None, c[2].to_string(), vec![]));
            } else if let Some(last) = blocks.last_mut() {
                last.4.push(line.to_string());
            }
        }
        let expected: Vec<Fields> = blocks
            .into_iter()
            .map(|(path, line, column, subject, body)| {
                (
                    ansi.replace_all(&path, "").to_string(),
                    line,
                    column,
                    ansi.replace_all(&subject, "").to_string(),
                    if body.is_empty() {
                        None
                    } else {
                        Some(ansi.replace_all(&body.join("\n"), "").to_string())
                    },
                )
            })
            .collect();
        let found: Vec<Fields> = match parse_output(&s) {
            Ok(items) => items
                .into_iter()
                .map(|i| (i.path, i.line, i.column, i.subject, i.body))
                .collect(),
            Err(_) => Vec::new(),
        };
        assert_eq!(found, expected, "text {:?}", s);
        if !found.is_empty() {
            with_items += 1;
        }
    }
    assert!(with_items > 500);
}

#[test]
fn random_streams_agree() {
    let ansi = Regex::new(r"\x1b\[\d+(;\d+)*m").unwrap();
    let re_subject = Regex::new(r"^\S+:\d+:\d+: warning: .*$").unwrap();
    let re_fields = Regex::new(r"(\S+):(\d+):(\d+): warning: (.*)").unwrap();
    let re_noise = Regex::new(r"^\[\d+/\d+\]").unwrap();
    let re_blank = Regex::new(r"^\s*$").unwrap();
    let mut rng = Lcg(11);
    let mut with_items = 0;
    for _ in 0..3000 {
        let s = random_lines(&mut rng, "warning: ", 8);
        let plain = ansi.replace_all(&s, "").to_string();
        let mut blocks: Vec<(String, Vec<String>)> = Vec::new();
        let mut open = false;
        for line in plain.lines() {
            if re_subject.is_match(line) {
                blocks.push((line.to_string(), Vec::new()));
                open = true;
            } else if re_noise.is_match(line) {
                open = false;
            } else if open {
                blocks.last_mut().unwrap().1.push(line.to_string());
            }
        }
        let expected: Vec<Fields> = blocks
            .into_iter()
            .map(|(head, body)| {
                let c = re_fields.captures(&head).unwrap();
                let mut body: Vec<String> = body;
                while body.last().map_or(false, |l| re_blank.is_match(l)) {
                    body.pop();
                }
                while body.first().map_or(false, |l| re_blank.is_match(l)) {
                    body.remove(0);
                }
                (
                    ansi.replace_all(&c[1], "").to_string(),
                    Some(c[2].parse().unwrap()),
                    Some(c[3].parse().unwrap()),
                    ansi.replace_all(&c[4], "").to_string(),
                    if body.is_empty() {
                        None
                    } else {
                        Some(ansi.replace_all(&body.join("\n"), "").to_string())
                    },
                )
            })
            .collect();
        let found: Vec<Fields> = soong_digest::warning::parse(&s)
            .into_iter()
            .map(|i| (i.path, i.line, i.column, i.subject, i.body))
            .collect();
        assert_eq!(found, expected, "text {:?}", s);
        if !found.is_empty() {
            with_items += 1;
        }
    }
    assert!(with_items > 200);
}

#[test]
fn random_stripping_agrees() {
    let re = Regex::new(r"\x1b\[\d+(;\d+)*m").unwrap();
    let pieces = ["\u{1b}", "[", "0", "31", ";", "m", "x", "\n", "\u{1b}[", "\u{e9}"];
    let mut rng = Lcg(3);
    for _ in 0..20000 {
        let s = random_text(&mut rng, &pieces, 16);
        assert_eq!(strip_ansi_escape(&s), re.replace_all(&s, ""), "text {:?}", s);
    }
}
