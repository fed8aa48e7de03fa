use battery_core::command::Finished;
use battery_core::html::{decode_entities, extract_table_rows};
use battery_core::processes::{
    impact_sort_key, parse_powertop_html, powertop_arguments, run_powertop_scan, temp_file_name,
    temp_step, Creation, TempStep,
};
use battery_core::{read_top_processes_by_cpu, Double};

fn f(x: Double) -> f64 {
    f64::from_bits(x.to_bits())
}

fn chars(s: &str) -> Vec<char> {
    s.chars().collect()
}

#[test]
fn extracts_process_rows_from_minimal_report() {
    let html = r#"
            <html><body>
            <h2>Overview of Software Power Consumers</h2>
            <table>
                <tr><th>Usage</th><th>Category</th><th>Description</th></tr>
                <tr><td>26.3 ms/s</td><td>Process</td><td>[PID 1234] firefox</td></tr>
                <tr><td>900 us/s</td><td>Process</td><td>[PID 5678] chrome</td></tr>
                <tr><td>5.0 ms/s</td><td>Device</td><td>Wi-Fi adapter</td></tr>
            </table>
            </body></html>
        "#;
    let rows = parse_powertop_html(Some(html), 10);
    assert_eq!(rows.len(), 2);
    assert_eq!(rows[0].pid.as_deref(), Some("1234"));
    assert_eq!(rows[0].name, "firefox");
    // 26.3 ms/s is more than 900 us/s, which is 0.9 ms/s.
    assert_eq!(rows[1].pid.as_deref(), Some("5678"));
}

#[test]
fn no_heading_yields_no_rows() {
    let html = "<html><body><table><tr><td>1</td><td>Process</td><td>x</td></tr></table></body></html>";
    let rows = parse_powertop_html(Some(html), 10);
    assert!(rows.is_empty());
}

#[test]
fn impact_sort_key_normalizes_units() {
    assert!(f(impact_sort_key("26.3 ms/s")) > f(impact_sort_key("900 us/s")));
    assert!((f(impact_sort_key("5.0 ms/s")) - 5.0).abs() < 1e-9);
    assert!((f(impact_sort_key("500 us/s")) - 0.5).abs() < 1e-9);
}

#[test]
fn impact_keys_of_odd_texts() {
    assert_eq!(f(impact_sort_key("")), 0.0);
    assert_eq!(f(impact_sort_key("none")), 0.0);
    assert_eq!(f(impact_sort_key("1.2.3 ms/s")), 0.0);
    assert_eq!(f(impact_sort_key("about 7 things")), 7.0);
    assert_eq!(f(impact_sort_key("617.3 µs/s")), 617.3 / 1000.0);
    assert_eq!(f(impact_sort_key("  12.5")), 12.5);
    assert_eq!(f(impact_sort_key("3us/s")), 3.0 / 1000.0);
}

fn report(rows: &str) -> String {
    format!("<h2>Overview of Software Power Consumers</h2><table>{rows}</table>")
}

#[test]
fn rows_are_ranked_and_limited() {
    let html = report(
        "<tr><td>1 ms/s</td><td>Process</td><td>[PID 1] a</td></tr>\
         <tr><td>3 ms/s</td><td>Process</td><td>[PID 2] b</td></tr>\
         <tr><td>1 ms/s</td><td>Process</td><td>plain</td></tr>\
         <tr><td>2 ms/s</td><td>Process</td><td>[PID 4] d</td></tr>",
    );
    let names = |limit: usize| -> Vec<String> {
        parse_powertop_html(Some(&html), limit).into_iter().map(|p| p.name).collect()
    };
    assert_eq!(names(10), vec!["b", "d", "a", "plain"]);
    assert_eq!(names(2), vec!["b", "d"]);
    assert!(names(0).is_empty());
    let last = parse_powertop_html(Some(&html), 10).pop().unwrap();
    assert_eq!(last.pid, None);
    assert_eq!(last.impact, "1 ms/s");
    assert_eq!(last.category, "Process");
    assert_eq!(last.clone(), last);
    assert!(parse_powertop_html(None, 10).is_empty());
}

#[test]
fn only_the_table_after_the_heading_counts() {
    let html = "<table><tr><td>9 ms/s</td><td>Process</td><td>before</td></tr></table>\
         <h2>Overview of Software Power Consumers</h2>\
         <table><tr><td>1 ms/s</td><td>Process</td><td>[PID 1] in</td></tr></table>\
         <table><tr><td>8 ms/s</td><td>Process</td><td>after</td></tr></table>";
    let names: Vec<String> =
        parse_powertop_html(Some(html), 10).into_iter().map(|p| p.name).collect();
    assert_eq!(names, vec!["in"]);
}

#[test]
fn cells_are_decoded() {
    let html = report(
        "<tr><td>1 ms/s</td><td>Process</td><td>[PID 7] a &amp;&lt;b&gt; &quot;c&quot;&nbsp;&#39;d&#39;</td></tr>",
    );
    let rows = parse_powertop_html(Some(&html), 1);
    assert_eq!(rows[0].name, "a &<b> \"c\" 'd'");
    let decoded: String = decode_entities(&chars("&amp;lt; &lt;x&gt;")).into_iter().collect();
    assert_eq!(decoded, "< <x>");
}

#[test]
fn tables_as_cells_of_text() {
    let rows = extract_table_rows(&chars(&report(
        "<tr><td> a <b>b</b></td><td>c</td></tr><tr><td>x</td></tr>",
    )));
    let texts: Vec<Vec<String>> = rows
        .into_iter()
        .map(|r| r.into_iter().map(|c| c.into_iter().collect()).collect())
        .collect();
    assert_eq!(texts, vec![vec!["a b".to_string(), "c".to_string()], vec!["x".to_string()]]);
    // Rows of header cells alone are left out, and one data cell makes a row.
    let html = "<h1>Software Power Consumers</h1><table><tr><th>h</th></tr><tr><td>x</td></tr></table>";
    assert_eq!(extract_table_rows(&chars(html)), vec![vec![chars("x")]]);
    assert!(parse_powertop_html(Some(html), 10).is_empty());
    // Without a heading that announces the table there are no rows.
    let html = "<h1>Overview</h1><table><tr><td>a</td><td>Process</td><td>b</td></tr></table>";
    assert!(extract_table_rows(&chars(html)).is_empty());
    // Markup that is not closed is text, and ends nothing.
    assert!(extract_table_rows(&chars("<h2>Overview <table")).is_empty());
}

#[test]
fn the_end_of_the_table_ends_its_rows() {
    let html = "<h2>Software Power Consumers</h2><table><tr><td>a</td><td>p</td></table>\
                <table><tr><td>c</td><td>d</td></tr></table>";
    assert_eq!(extract_table_rows(&chars(html)), vec![vec![chars("a"), chars("p")]]);
    // Neither a cell that is left open nor a row of header cells reaches further.
    let html = "<h2>Software Power Consumers</h2><table><tr><th>a</th><td>b</table>c</td></tr>\
                <h2>Software Power Consumers</h2><table><tr><td>d</td></tr><tr><th>e</th></table>";
    assert_eq!(
        extract_table_rows(&chars(html)),
        vec![vec![chars("a")], vec![chars("d")]]
    );
    // The end of a table within the table ends nothing.
    let html = "<h2>Software Power Consumers</h2><table><tr><td>a<table></table></td><td>b</td></tr></table>";
    assert_eq!(extract_table_rows(&chars(html)), vec![vec![chars("a"), chars("b")]]);
}

#[test]
fn processes_of_one_impact_stay_in_order() {
    let html = report(
        "<tr><td>1 ms/s</td><td>Process</td><td>a</td></tr>\
         <tr><td>1000 us/s</td><td>PROCESS</td><td>b</td></tr>\
         <tr><td>2 ms/s</td><td>process</td><td>c</td></tr>\
         <tr><td>9 ms/s</td><td>Timer</td><td>t</td></tr>\
         <tr><td>1 ms/s</td><td>Process</td><td>a</td></tr>",
    );
    let names = |limit: usize| -> Vec<String> {
        parse_powertop_html(Some(&html), limit).into_iter().map(|p| p.name).collect()
    };
    assert_eq!(names(10), vec!["c", "a", "b", "a"]);
    assert_eq!(names(2), vec!["c", "a"]);
    assert!(names(0).is_empty());
}

#[test]
fn top_processes_from_ps() {
    let stdout = b"  123 firefox 12.5 3.0 01:02:03\n 9 two words 1.0 0.5 00:10\nbad\n7 x 0.25 nan 5\n";
    let run = Some(Finished { success: true, stdout: stdout.to_vec() });
    let rows = read_top_processes_by_cpu(&run, 10);
    assert_eq!(rows[0].pid, "123");
    assert_eq!(rows[0].name, "firefox");
    assert_eq!(rows[0].cpu_percent, "12.5%");
    assert_eq!(rows[0].mem_percent, "3.0%");
    assert_eq!(rows[0].runtime, "01:02:03");
    assert_eq!(rows.len(), 2);
    assert_eq!(rows[1].cpu_percent, "0.2%");
    assert_eq!(rows[1].mem_percent, "NaN%");
    assert_eq!(rows[1].clone(), rows[1]);
    assert!(read_top_processes_by_cpu(&None, 10).is_empty());
    let failed = Some(Finished { success: false, stdout: stdout.to_vec() });
    assert!(read_top_processes_by_cpu(&failed, 10).is_empty());
    assert_eq!(read_top_processes_by_cpu(&run, 1).len(), 1);
}

#[test]
fn scan_results() {
    let html = report("<tr><td>1 ms/s</td><td>Process</td><td>[PID 1] a</td></tr>");
    assert_eq!(run_powertop_scan(Ok(true), Some(&html), 5).unwrap().len(), 1);
    assert!(run_powertop_scan(Ok(true), None, 5).unwrap().is_empty());
    assert_eq!(
        run_powertop_scan(Ok(false), Some(&html), 5),
        Err("powertop scan did not complete (cancelled or failed)".to_string())
    );
    assert_eq!(
        run_powertop_scan(Err("gone".to_string()), Some(&html), 5),
        Err("failed to run powertop: gone".to_string())
    );
    assert_eq!(
        powertop_arguments(b"/tmp/a\xff.html", 15),
        vec!["powertop", "--html=/tmp/a\u{fffd}.html", "--time=15"]
    );
}

#[test]
fn temp_files_are_tried_a_few_times() {
    assert!(matches!(temp_step(1, Creation::Exists), TempStep::Retry));
    assert!(matches!(temp_step(1, Creation::Created), TempStep::Use));
    match temp_step(8, Creation::Exists) {
        TempStep::Fail(e) => assert_eq!(e, "failed to allocate a unique temp path"),
        _ => panic!("goes on"),
    }
    match temp_step(1, Creation::Failed("full".to_string())) {
        TempStep::Fail(e) => assert_eq!(e, "failed to create temp file: full"),
        _ => panic!("goes on"),
    }
    let nanos: u128 = 0x1234_5678_9abc;
    let name = temp_file_name("battery-powertop", "html", nanos, 77, 0xfeed);
    let mixed = nanos ^ (77u128 << 64) ^ 0xfeed;
    assert_eq!(name, format!("battery-powertop-{mixed:x}.html"));
}

#[test]
fn headings_and_categories_in_any_case() {
    let html = "<H1>OVERVIEW of SOFTWARE Power Consumers \u{130}</H1><TABLE>\
         <TR><TD>2 ms/s</TD><TD> PROCESS </TD><TD>[PID 3] loud</TD></TR>\
         <TR><TD>1 ms/s</TD><TD>proce\u{17f}s</TD><TD>[PID 4] odd</TD></TR></TABLE>";
    let rows = parse_powertop_html(Some(html), 10);
    assert_eq!(rows.len(), 1);
    assert_eq!(rows[0].name, "loud");
    assert_eq!(rows[0].category, "PROCESS");
}

#[test]
fn process_ids_are_found_where_they_stand() {
    let name = |description: &str| {
        let html = report(&format!(
            "<tr><td>1 ms/s</td><td>Process</td><td>{description}</td></tr>"
        ));
        let row = parse_powertop_html(Some(&html), 1).pop().unwrap();
        (row.pid, row.name)
    };
    assert_eq!(name("[224] i915"), (None, "[224] i915".to_string()));
    assert_eq!(name("[PID ] x"), (None, "[PID ] x".to_string()));
    assert_eq!(name("a [PID 12] b [PID 34] c"), (Some("12".to_string()), "a  b [PID 34] c".to_string()));
    assert_eq!(name("[PID x][PID 5]"), (Some("5".to_string()), "[PID x]".to_string()));
    assert_eq!(name("é[PID ٣]ü"), (Some("٣".to_string()), "éü".to_string()));
}

#[test]
fn arguments_for_ps() {
    assert_eq!(
        battery_core::processes::ps_arguments(),
        vec!["-eo", "pid,comm,%cpu,%mem,etime", "--sort=-%cpu", "--no-headers"]
    );
}
