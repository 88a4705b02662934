use csv_frame::column::Column;
use csv_frame::series::SeriesEnum;
use csv_frame::type_parser::Codes;

#[test]
fn buffer_first() {
    let v = vec![Some(1)];
    let series = SeriesEnum::I32(v);
    let column = Column::new(series, "_".into(), Codes::Int32);
    let first = column.first();

    assert_eq!(first, "1".to_string());
}

#[test]
fn column_first() {
    let v = vec![Some(1)];
    let series = SeriesEnum::I32(v);
    let column = Column::new(series, "_".into(), Codes::Int32);
    let first = column.first();

    assert_eq!(first, "1".to_string());
}
