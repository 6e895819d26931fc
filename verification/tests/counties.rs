use sankeygen::counties::Counties;

#[test]
fn sqlclause_lists_quoted_names() {
    let c = Counties::new(vec!["Marion", "Harvey", "Sedgwick"]);
    assert_eq!(c.sqlclause(), "('Marion', 'Harvey', 'Sedgwick')");
}

#[test]
fn sqlclause_single_name() {
    let c = Counties::new(vec!["McPherson"]);
    assert_eq!(c.sqlclause(), "('McPherson')");
}

#[test]
fn sqlclause_empty_list() {
    let c = Counties::new(vec![]);
    assert_eq!(c.sqlclause(), "()");
}
