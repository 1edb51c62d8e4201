use upskill::parser::{parse_all, select_question, try_parse_all};

fn question(id_attr: &str, body: &str) -> String {
    format!("<question {}>\n{}\n</question>\n", id_attr, body)
}

const BODY: &str = "points: { { x: 0.25, y: -0.5, z: 1 } }\nconnets: { {0, 1} }\nwidth: 100\nheight: 200";

#[test]
fn parse_two_questions() {
    let content = r#"
<question id=1>
points: { { x: 0.25, y: 0.25, z: 0.25 } }
connets: { {0, 1} }
width: 100
height: 200
</question>
<question id=2>
points: { { x: -0.25, y: 0.25, z: 0.25 } }
connets: { {0} }
width: 500
height: 500
</question>
"#;
    let qs = parse_all(content).unwrap();
    assert_eq!(qs.len(), 2);
    assert_eq!(qs[0].width, 100);
    assert_eq!(qs[1].id, "2");
}

#[test]
fn fields_of_a_question() {
    let qs = parse_all(&question("id=a", BODY)).unwrap();
    assert_eq!(qs.len(), 1);
    let q = &qs[0];
    assert_eq!(q.id, "a");
    assert_eq!(q.points.len(), 1);
    assert_eq!(q.points[0].x, "0.25");
    assert_eq!(q.points[0].y, "-0.5");
    assert_eq!(q.points[0].z, "1");
    assert_eq!(q.connets, vec![vec![0usize, 1]]);
    assert_eq!(q.width, 100);
    assert_eq!(q.height, 200);
}

#[test]
fn no_question_block() {
    assert_eq!(parse_all("nothing here").unwrap_err(), "未找到任何 <question> 块");
    assert_eq!(parse_all("").unwrap_err(), "未找到任何 <question> 块");
}

#[test]
fn id_forms() {
    let q = |attr: &str| parse_all(&question(attr, BODY)).unwrap()[0].id.clone();
    assert_eq!(q("id=\" a b \""), "a b");
    assert_eq!(q("id='x1'"), "x1");
    assert_eq!(q("ID = 7"), "7");
    assert_eq!(q("id=\u{3000}\"\u{3000}z\u{3000}\""), "z");
}

#[test]
fn id_errors() {
    assert_eq!(parse_all("<question>x</question>").unwrap_err(), "question 标签缺少 id");
    assert_eq!(parse_all("<question id=\"abc>").unwrap_err(), "id 引号未闭合");
    assert_eq!(parse_all(&question("id=", BODY)).unwrap_err(), "question id 为空");
    assert_eq!(parse_all("<question id=1").unwrap_err(), "缺少 question 开始标签的 >");
    assert_eq!(parse_all("<question id=1>points: {{x:1,y:1,z:1}}").unwrap_err(), "缺少 </question>");
}

#[test]
fn id_is_searched_in_the_tag_only() {
    // A tag without an id attribute is an error, though "width" below holds "id".
    assert_eq!(parse_all(&question("", BODY)).unwrap_err(), "question 标签缺少 id");
    assert_eq!(parse_all("<question>\nwidth: 5").unwrap_err(), "question 标签缺少 id");
    // A quoted id may hold '>'.
    let qs = parse_all(&question("id=\"a>b\"", BODY)).unwrap();
    assert_eq!(qs[0].id, "a>b");
}

#[test]
fn field_errors() {
    let missing = "connets: {}\nwidth: 1\nheight: 1";
    assert_eq!(parse_all(&question("id=1", missing)).unwrap_err(), "缺少 points:");
    let empty = "points: {}\nconnets: {}\nwidth: 1\nheight: 1";
    assert_eq!(parse_all(&question("id=1", empty)).unwrap_err(), "points 为空");
    let bad_index = "points: {{x:1,y:1,z:1}}\nconnets: {{0, a}}\nwidth: 1\nheight: 1";
    assert_eq!(parse_all(&question("id=1", bad_index)).unwrap_err(), "无效索引: a");
    let bad_width = "points: {{x:1,y:1,z:1}}\nconnets: {}\nwidth: abc\nheight: 1";
    assert_eq!(parse_all(&question("id=1", bad_width)).unwrap_err(), "无效的 width: abc");
    let no_height = "points: {{x:1,y:1,z:1}}\nconnets: {}\nwidth: 3";
    assert_eq!(parse_all(&question("id=1", no_height)).unwrap_err(), "缺少 height:");
}

#[test]
fn number_fields_keep_their_digits() {
    let body = "points: {{x:1,y:1,z:1}}\nconnets: {}\nwidth: 1a2\nHEIGHT: +30";
    let q = &parse_all(&question("id=1", body)).unwrap()[0];
    assert_eq!(q.width, 12);
    assert_eq!(q.height, 30);
    assert!(q.connets.is_empty());
}

#[test]
fn point_literals() {
    let body = "points: { {x: +.5, y: 1., z: -2} {x: 1.2.3, y: 0, z: 0} {X: 1, y: 0, z: 0} }\nconnets: {}\nwidth: 1\nheight: 1";
    let q = &parse_all(&question("id=1", body)).unwrap()[0];
    assert_eq!(q.points.len(), 1);
    assert_eq!(q.points[0].x, "+.5");
    assert_eq!(q.points[0].y, "1.");
    assert_eq!(q.points[0].z, "-2");
    let later = "points: {{x:1, x:2, y:3, z:4}}\nconnets: {}\nwidth: 1\nheight: 1";
    let q = &parse_all(&question("id=1", later)).unwrap()[0];
    assert_eq!(q.points[0].x, "2");
}

#[test]
fn nested_and_flat_connets() {
    let body = "points: {{x:1,y:1,z:1}}\nconnets: { {0,1,2}, { {3, 4} }, {}, {5,}, { , } }\nwidth: 1\nheight: 1";
    let q = &parse_all(&question("id=1", body)).unwrap()[0];
    assert_eq!(q.connets, vec![vec![0usize, 1, 2], vec![3, 4], vec![5]]);
    let flat = "points: {{x:1,y:1,z:1}}\nconnets: {0, 1}\nwidth: 1\nheight: 1";
    let q = &parse_all(&question("id=1", flat)).unwrap()[0];
    assert_eq!(q.connets, vec![vec![0usize, 1]]);
    let unclosed = "points: {{x:1,y:1,z:1}}\nconnets: {0, 1} {2\nwidth: 1\nheight: 1";
    let q = &parse_all(&question("id=1", unclosed)).unwrap()[0];
    assert_eq!(q.connets, vec![vec![0usize, 1]]);
}

#[test]
fn scan_past_the_end_is_reported() {
    let body = "points: {x:1,\nconnets: {}\nwidth: 1\nheight: 1";
    assert!(try_parse_all(&question("id=1", body)).is_none());
    let ok = try_parse_all(&question("id=1", BODY)).unwrap().unwrap();
    assert_eq!(ok.len(), 1);
    assert_eq!(try_parse_all("x").unwrap().unwrap_err(), "未找到任何 <question> 块");
}

#[test]
fn select_by_id_or_last() {
    let content = format!(
        "{}{}{}",
        question("id=1", BODY),
        question("id=2", BODY),
        question("id=1", "points: {{x:9,y:9,z:9}}\nconnets: {}\nwidth: 7\nheight: 7")
    );
    let qs = parse_all(&content).unwrap();
    assert_eq!(qs.len(), 3);
    assert_eq!(select_question(&qs, None).unwrap().width, 7);
    assert_eq!(select_question(&qs, Some("1")).unwrap().width, 100);
    assert_eq!(select_question(&qs, Some("2")).unwrap().id, "2");
    assert_eq!(select_question(&qs, Some("9")).unwrap_err(), "未找到 id=9 的题目");
    assert_eq!(select_question(&[], None).unwrap_err(), "题目列表为空");
}

#[test]
fn parsed_questions_are_well_formed() {
    let body = "points: { {x: 1., y: -.5, z: +3} {x: 2, y: 2, z: 2} }\nconnets: { {0,1}, {}, {1} }\nwidth: 5\nheight: 5";
    let qs = parse_all(&question("id=1", body)).unwrap();
    assert!(!qs.is_empty());
    for q in &qs {
        assert!(!q.points.is_empty());
        for p in &q.points {
            assert!(p.x.parse::<f64>().is_ok());
            assert!(p.y.parse::<f64>().is_ok());
            assert!(p.z.parse::<f64>().is_ok());
        }
        assert!(q.connets.iter().all(|g| !g.is_empty()));
    }
    assert_eq!(qs[0].connets, vec![vec![0usize, 1], vec![1]]);
}

#[test]
fn non_ascii_names_are_read_as_names() {
    // "é" is alphanumeric, so "é: 5" is a labelled number that is skipped as a whole.
    let body = "points: { {é: 5, x: 1, y: 2, z: 3} }\nconnets: {}\nwidth: 1\nheight: 1";
    let q = &parse_all(&question("id=1", body)).unwrap()[0];
    assert_eq!(q.points.len(), 1);
    assert_eq!(q.points[0].x, "1");
}
