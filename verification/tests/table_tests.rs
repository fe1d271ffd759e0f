use temps::table::{Alignment, Table};

#[test]
fn table_renders_headers_rules_and_rows() {
    let mut table = Table::<2>::new(["Project".to_string(), "Time".to_string()]);
    table.row(["alpha".to_string(), "2h 05m".to_string()]);
    let expected = "\
Project  Time    \n\
-------  ------  \n\
alpha    2h 05m  \n\
-------  ------  \n\
Project  Time    \n";
    assert_eq!(table.render(), expected);
}

#[test]
fn columns_widen_to_the_widest_cell() {
    let mut table = Table::<1>::new(["H".to_string()]);
    table.row(["wide cell".to_string()]);
    table.row(["x".to_string()]);
    let expected = "\
H          \n\
---------  \n\
wide cell  \n\
x          \n\
---------  \n\
H          \n";
    assert_eq!(table.render(), expected);
}

#[test]
fn right_alignment_pads_on_the_left() {
    let mut table = Table::<2>::new(["Project".to_string(), "Time".to_string()]);
    table.align([Alignment::Left, Alignment::Right]);
    table.row(["a".to_string(), "5m".to_string()]);
    let expected = "\
Project  Time  \n\
-------  ----  \n\
a          5m  \n\
-------  ----  \n\
Project  Time  \n";
    assert_eq!(table.render(), expected);
}

#[test]
fn center_alignment_splits_the_padding() {
    let mut table = Table::<1>::new(["Header".to_string()]);
    table.align([Alignment::Center]);
    table.row(["ab".to_string()]);
    let expected = "Header  \n------  \n  ab    \n------  \nHeader  \n";
    assert_eq!(table.render(), expected);
}
