use firrtl_strip::{kept_lines, render_lines, retain_lines, should_strip, strip_directives};

fn owned(lines: &[&str]) -> Vec<String> {
    lines.iter().map(|line| line.to_string()).collect()
}

#[test]
fn removes_printf_and_stop_lines() {
    let input = "wire a : UInt<1>\nprintf(clock, UInt<1>(1), \"hello\\n\")\nstop(clock, UInt<1>(1), 0)\n";
    assert_eq!(strip_directives(input), "wire a : UInt<1>\n");
    assert_eq!(kept_lines(input), vec!["wire a : UInt<1>"]);
}

#[test]
fn removes_indented_directive() {
    let input = "    printf(clock, UInt<1>(1), \"x\\n\")\nnode y = add(a, b)\n";
    assert_eq!(strip_directives(input), "node y = add(a, b)\n");
    assert_eq!(kept_lines(input), vec!["node y = add(a, b)"]);
}

#[test]
fn keeps_directive_inside_a_statement() {
    assert_eq!(strip_directives("x := printf(a)\n"), "x := printf(a)\n");
    assert_eq!(kept_lines("x := printf(a)"), vec!["x := printf(a)"]);
}

#[test]
fn empty_input_gives_empty_output() {
    assert_eq!(strip_directives(""), "");
    assert_eq!(kept_lines(""), Vec::<String>::new());
}

#[test]
fn input_of_directives_only_gives_empty_output() {
    assert_eq!(strip_directives("printf(a)\n  stop(b)\n"), "");
}

#[test]
fn kept_lines_are_unchanged() {
    let input = "  wire a : UInt<1>  \n\tprintf(a)\n\n   \nnode  b = a\t\n";
    assert_eq!(kept_lines(input), vec!["  wire a : UInt<1>  ", "", "   ", "node  b = a\t"]);
    assert_eq!(strip_directives(input), "  wire a : UInt<1>  \n\n   \nnode  b = a\t\n");
}

#[test]
fn output_closes_an_open_last_line() {
    assert_eq!(strip_directives("a\nb"), "a\nb\n");
}

#[test]
fn output_has_plain_line_feeds() {
    assert_eq!(strip_directives("a\r\nstop(x)\r\nb\r\n"), "a\nb\n");
}

#[test]
fn retain_lines_keeps_order_and_repeats() {
    let lines = owned(&["b", "stop(1)", "a", "b", " printf(2)", "a", "c"]);
    assert_eq!(retain_lines(lines), vec!["b", "a", "b", "a", "c"]);
}

#[test]
fn retain_lines_of_nothing() {
    assert_eq!(retain_lines(Vec::new()), Vec::<String>::new());
}

#[test]
fn retained_exactly_when_not_stripped() {
    let lines = owned(&["w", "printf(x)", "", "  stop(y)", "stop", "z := stop(y)", "\tprintf("]);
    let kept = retain_lines(lines.clone());
    let expected: Vec<String> = lines.iter().filter(|line| !should_strip(line)).cloned().collect();
    assert_eq!(kept, expected);
    for line in &lines {
        assert_eq!(kept.contains(line), !should_strip(line));
    }
}

#[test]
fn filtering_twice_changes_nothing() {
    let lines = owned(&["a", "printf(x)", "b", "  stop(y)", "", "c := stop(z)"]);
    let once = retain_lines(lines);
    let twice = retain_lines(once.clone());
    assert_eq!(once, twice);
    assert_eq!(once, vec!["a", "b", "", "c := stop(z)"]);
}

#[test]
fn filtering_the_output_again_changes_nothing() {
    let input = "circuit T :\n  module T :\n    printf(clock, c, \"a\")\n    wire w : UInt<1>\n    stop(clock, c, 1)\n\n    w <= c";
    let once = strip_directives(input);
    assert_eq!(once, "circuit T :\n  module T :\n    wire w : UInt<1>\n\n    w <= c\n");
    assert_eq!(strip_directives(&once), once);
}

#[test]
fn closing_carriage_return_is_lost_on_the_second_pass() {
    let once = strip_directives("a\r\r\n");
    assert_eq!(once, "a\r\n");
    assert_eq!(strip_directives(&once), "a\n");
}

#[test]
fn render_lines_closes_every_line() {
    assert_eq!(render_lines(&owned(&[])), "");
    assert_eq!(render_lines(&owned(&[""])), "\n");
    assert_eq!(render_lines(&owned(&["a", "", "bc"])), "a\n\nbc\n");
}

#[test]
fn output_matches_line_by_line_filter() {
    let input = "a\n printf(b)\nstop(c)\r\nd\r\n\ne stop(\nprintf";
    let mut expected = String::new();
    for line in input.lines().filter(|line| !should_strip(line)) {
        expected.push_str(line);
        expected.push('\n');
    }
    assert_eq!(strip_directives(input), expected);
    assert_eq!(expected, "a\nd\n\ne stop(\nprintf\n");
}
