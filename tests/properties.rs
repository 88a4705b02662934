use csv_frame::cells::DELIMITER_TOKEN;
use csv_frame::column::Column;
use csv_frame::filter::Filter;
use csv_frame::frame::{Frame, FrameError};
use csv_frame::series::{NonHashable, SeriesEnum, SumError};
use csv_frame::type_parser::{bytes_to_bool, first_phase, infer_code, Codes, StageOne};
use csv_frame::ParsedBytes;

fn joined(parts: &[&str]) -> String {
    parts.join(DELIMITER_TOKEN)
}

fn words(ws: &[&str]) -> ParsedBytes {
    let mut p = ParsedBytes::default();
    for w in ws {
        p.extend(w.as_bytes());
    }
    p
}

fn ingest_whole(data: &[u8]) -> Frame {
    let mut frame = Frame::new();
    let rest = frame.append(data, true, &[]);
    frame.append_remainder(&rest);
    frame
}

#[test]
fn chunk_boundary_invariance() {
    let data = b"A,B\n1,2\n3,4\n";
    let whole = ingest_whole(data);
    assert_eq!(whole.width(), 2);
    assert_eq!(whole.height(), 2);
    assert_eq!(whole.header(), vec!["A".to_string(), "B".to_string()]);
    assert_eq!(whole.get_chunk(0, 10), vec![joined(&["1", "3"]), joined(&["2", "4"])]);
    for k in 0..=data.len() {
        let mut frame = Frame::new();
        let rest = frame.append(&data[..k], true, &[]);
        let rest = frame.append(&data[k..], true, &rest);
        frame.append_remainder(&rest);
        assert_eq!(frame.width(), 2, "split at {}", k);
        assert_eq!(frame.height(), 2, "split at {}", k);
        assert_eq!(frame.header(), whole.header(), "split at {}", k);
        assert_eq!(frame.dtypes(), whole.dtypes(), "split at {}", k);
        assert_eq!(frame.get_chunk(0, 10), whole.get_chunk(0, 10), "split at {}", k);
        assert_eq!(frame.n_chunks(), 2);
    }
}

#[test]
fn remainder_is_the_last_line() {
    let mut frame = Frame::new();
    let rest = frame.append(b"A,B\n1,2\n3,4\n", true, &[]);
    assert_eq!(rest, b"3,4\n".to_vec());
    assert_eq!(frame.height(), 1);
    let rest = frame.append(b"5,", false, &rest);
    assert_eq!(rest, b"5,".to_vec());
    assert_eq!(frame.height(), 2);
}

#[test]
fn type_promotion_takes_the_widest_tag() {
    assert_eq!(infer_code(&words(&["1", "2", "3.5"]), 3), Codes::Float32);
    assert_eq!(infer_code(&words(&["1", "true"]), 2), Codes::Int32);
    assert_eq!(infer_code(&words(&["true", "x"]), 2), Codes::Any);
    assert_eq!(infer_code(&words(&["1", "3000000000"]), 2), Codes::Int64);
    assert_eq!(infer_code(&words(&["-170141183460469231731687303715884105728"]), 1), Codes::Int128);
    assert_eq!(infer_code(&words(&["1701411834604692317316873037158841057280000"]), 1), Codes::Any);
    assert_eq!(infer_code(&words(&["", ""]), 2), Codes::Null);
    assert_eq!(infer_code(&words(&["TRUE", "false"]), 2), Codes::Boolean);
    assert_eq!(infer_code(&words(&["1", "x"]), 1), Codes::Int32);
}

#[test]
fn first_phase_classifies() {
    assert_eq!(first_phase("-12"), StageOne::Int("-12"));
    assert_eq!(first_phase(".5"), StageOne::Float(".5"));
    assert_eq!(first_phase("-3.25"), StageOne::Float("-3.25"));
    assert_eq!(first_phase("TrUe"), StageOne::Boolean("TrUe"));
    assert_eq!(first_phase("1."), StageOne::Any("1."));
    assert_eq!(first_phase(""), StageOne::Any(""));
    assert_eq!(StageOne::Int("1").code(), Codes::TmpInt);
}

#[test]
fn booleans_read_in_any_case() {
    assert_eq!(bytes_to_bool(b"TRUE"), Some(true));
    assert_eq!(bytes_to_bool(b"\"false\""), Some(false));
    assert_eq!(bytes_to_bool(b"yes"), None);
}

#[test]
fn unparsable_word_is_missing() {
    let mut column = Column::new(SeriesEnum::I32(vec![Some(1)]), "n".to_string(), Codes::Int32);
    column.extend_from_words(&words(&["abc", "2", "2147483648", "+7"]));
    assert_eq!(column.len(), 5);
    assert_eq!(column.join(0, 10), joined(&["1", "", "2", "", "7"]));
    assert_eq!(column.join(1, 1), "");
    assert_eq!(column.join(7, 3), "");
}

#[test]
fn sum_treats_missing_as_zero() {
    let column = Column::new(SeriesEnum::I32(vec![Some(1), None, Some(3)]), "n".to_string(), Codes::Int32);
    let sum = column.sum().unwrap();
    assert_eq!(sum.first(), "4");
    assert_eq!(sum.name(), "Sum_of_n");
    assert_eq!(sum.dtype(), Codes::Int32);
}

#[test]
fn sum_reports_overflow() {
    let column = Column::new(SeriesEnum::I32(vec![Some(i32::MAX), Some(1)]), "n".to_string(), Codes::Int32);
    assert!(matches!(column.sum(), Err(SumError::Overflow)));
    let column = Column::new(SeriesEnum::I32(vec![Some(i32::MAX), Some(1), Some(-1)]), "n".to_string(), Codes::Int32);
    assert_eq!(column.sum().unwrap().first(), i32::MAX.to_string());
    let column = Column::new(SeriesEnum::I64(vec![Some(i64::MAX), Some(i64::MAX)]), "n".to_string(), Codes::Int64);
    assert!(matches!(column.sum(), Err(SumError::Overflow)));
    let column = Column::new(SeriesEnum::I128(vec![Some(i128::MIN), None]), "m".to_string(), Codes::Int128);
    assert_eq!(column.sum().unwrap().first(), i128::MIN.to_string());
    let column = Column::new(SeriesEnum::I128(vec![Some(i128::MAX), Some(1), Some(-1)]), "m".to_string(), Codes::Int128);
    assert_eq!(column.sum().unwrap().first(), i128::MAX.to_string());
    let column = Column::new(SeriesEnum::I128(vec![Some(i128::MAX), Some(1)]), "m".to_string(), Codes::Int128);
    assert!(matches!(column.sum(), Err(SumError::Overflow)));
    let column = Column::new(SeriesEnum::I128(vec![Some(i128::MIN), Some(-1), Some(i128::MAX), Some(1)]), "m".to_string(), Codes::Int128);
    assert_eq!(column.sum().unwrap().first(), "-1");
}

#[test]
fn sum_column_reports_overflow() {
    let mut frame = Frame::new();
    frame.append_line(b"2147483647");
    frame.append_line(b"1");
    assert_eq!(frame.dtypes(), vec![Codes::Int32]);
    assert_eq!(frame.sum_column(0), Err(FrameError::Overflow));
}

#[test]
fn overflowing_integers_are_not_read_as_narrower() {
    assert_eq!(infer_code(&words(&["6000000000"]), 1), Codes::Int64);
    assert_eq!(infer_code(&words(&["440282366920938463463374607431768211456"]), 1), Codes::Any);
    let mut column = Column::new(SeriesEnum::I32(Vec::new()), "n".to_string(), Codes::Int32);
    column.extend_from_words(&words(&["6000000000", "-2147483648"]));
    assert_eq!(column.join(0, 2), joined(&["", "-2147483648"]));
}

#[test]
fn sum_is_refused_for_text_and_flags() {
    let column = Column::new(SeriesEnum::Any(vec![Some("a".to_string())]), "t".to_string(), Codes::Any);
    assert!(matches!(column.sum(), Err(SumError::WrongType)));
    let column = Column::new(SeriesEnum::Bool(vec![Some(true)]), "b".to_string(), Codes::Boolean);
    assert!(matches!(column.sum(), Err(SumError::WrongType)));
}

#[test]
fn equality_filter_selects_matching_rows() {
    let frame = ingest_whole(b"Type,Name\nFire,A\nWater,B\nFire,C\n");
    assert_eq!(frame.height(), 3);
    let mut filter = Filter::default();
    assert_eq!(filter.add_equalto_filter(&frame, b"Fire", "Type"), Ok(()));
    assert_eq!(filter.to_bools(), vec![true, false, true]);
    assert_eq!(
        filter.slice(&frame, 0, 2),
        vec![joined(&["Fire", "Fire"]), joined(&["A", "C"])]
    );
    assert_eq!(filter.slice(&frame, 1, 5), vec!["Fire".to_string(), "C".to_string()]);
}

#[test]
fn equality_filter_errors() {
    let frame = ingest_whole(b"Flag,N\ntrue,1\nfalse,2\n");
    let mut filter = Filter::new();
    assert_eq!(filter.add_equalto_filter(&frame, b"x", "Missing"), Err(FrameError::NoSuchColumn));
    assert_eq!(filter.add_equalto_filter(&frame, b"true", "Flag"), Err(FrameError::WrongType));
    assert_eq!(filter.add_equalto_filter(&frame, b"2", "N"), Ok(()));
    assert_eq!(filter.to_bools(), vec![false, true]);
}

#[test]
fn distinct_renders_each_value_once() {
    let column = Column::new(
        SeriesEnum::I32(vec![Some(1), Some(2), Some(2), Some(3), None]),
        "n".to_string(),
        Codes::Int32,
    );
    assert_eq!(column.distinct(), Ok(joined(&["1", "2", "3", ""])));
    let column = Column::new(SeriesEnum::Bool(vec![Some(true)]), "b".to_string(), Codes::Boolean);
    assert_eq!(column.distinct(), Err(NonHashable));
}

#[test]
fn equal_to_needs_matching_representation() {
    let column = Column::new(SeriesEnum::I32(vec![Some(1)]), "n".to_string(), Codes::Int32);
    assert!(column.equal_to(&SeriesEnum::I64(vec![Some(1)])).is_err());
    assert!(column.equal_to(&SeriesEnum::I32(vec![Some(1)])).is_ok());
}

#[test]
fn end_to_end() {
    let mut frame = Frame::new();
    let rest = frame.append(b"FieldOne,FieldTwo,FieldThree\nFlareon,2.5,1\nVaporeon,1.2,2", true, &[]);
    frame.append_remainder(&rest);
    assert_eq!(frame.width(), 3);
    assert_eq!(frame.height(), 2);
    assert_eq!(frame.dtypes(), vec![Codes::Any, Codes::Float32, Codes::Int32]);
    frame.append_line(b"Jolteon,1.5,3");
    assert_eq!(frame.height(), 3);
    assert_eq!(frame.get_chunk(1, 2), vec![
        joined(&["Vaporeon", "Jolteon"]),
        joined(&["1.2", "1.5"]),
        joined(&["2", "3"]),
    ]);
    assert_eq!(frame.sum_column(2), Ok("6".to_string()));
    assert_eq!(frame.sum_column(0), Err(FrameError::WrongType));
    assert_eq!(frame.sum_column(9), Err(FrameError::NoSuchColumn));
    assert_eq!(frame.distinct("FieldOne"), Ok(joined(&["Flareon", "Vaporeon", "Jolteon"])));
    assert_eq!(frame.distinct("FieldTwo"), Err(FrameError::NonHashable));
    assert_eq!(frame.distinct("Nope"), Err(FrameError::NoSuchColumn));
    assert!(frame.find_by_name("FieldTwo").is_some());
    assert!(frame.find_by_name("FieldFour").is_none());
}

#[test]
fn fallback_names_without_header() {
    let mut frame = Frame::new();
    let rest = frame.append(b"1,x\n2,y\n", false, &[]);
    frame.append_remainder(&rest);
    assert_eq!(frame.header(), vec!["A".to_string(), "B".to_string()]);
    assert_eq!(frame.dtypes(), vec![Codes::Int32, Codes::Any]);
}

#[test]
fn short_rows_are_padded_and_long_rows_cut() {
    let frame = ingest_whole(b"a,b,c\n1,2,3\n4\n5,6,7,8\n");
    assert_eq!(frame.width(), 3);
    assert_eq!(frame.height(), 3);
    assert_eq!(frame.get_chunk(0, 3), vec![
        joined(&["1", "4", "5"]),
        joined(&["2", "", "6"]),
        joined(&["3", "", "7"]),
    ]);
}

#[test]
fn text_and_decimal_cells() {
    let mut column = Column::new(SeriesEnum::Any(Vec::new()), "t".to_string(), Codes::Any);
    let mut p = ParsedBytes::default();
    p.extend("héllo".as_bytes());
    p.extend(&[0xff, 0xfe]);
    column.extend_from_words(&p);
    assert_eq!(column.join(0, 2), joined(&["héllo", ""]));
    let mut column = Column::new(SeriesEnum::F64(Vec::new()), "f".to_string(), Codes::Float64);
    column.extend_from_words(&words(&["1.25", "x", "-3"]));
    assert_eq!(column.join(0, 3), joined(&["1.25", "", "-3"]));
}

#[test]
fn wide_integers_render_in_decimal() {
    let mut column = Column::new(SeriesEnum::I64(Vec::new()), "w".to_string(), Codes::Int64);
    column.extend_from_words(&words(&["9223372036854775807", "-9223372036854775808", "9223372036854775808"]));
    assert_eq!(column.join(0, 3), joined(&["9223372036854775807", "-9223372036854775808", ""]));
}

#[test]
fn classifications_convert_to_tags() {
    assert_eq!(Codes::from(StageOne::Int("1")), Codes::TmpInt);
    let c: Codes = first_phase("1.5").into();
    assert_eq!(c, Codes::TmpFloat);
    let c: Codes = first_phase("x").into();
    assert_eq!(c, Codes::Any);
}

#[test]
fn float_cells_follow_the_float_grammar() {
    let mut column = Column::new(SeriesEnum::F32(Vec::new()), "f".to_string(), Codes::Float32);
    column.extend_from_words(&words(&["+1.5", "1e3", "2.5E-2", "1.", ".5", "inf", "-NaN", "Infinity"]));
    assert_eq!(column.join(0, 8), joined(&["+1.5", "1e3", "2.5E-2", "1.", ".5", "inf", "-NaN", "Infinity"]));
    let mut column = Column::new(SeriesEnum::F64(Vec::new()), "f".to_string(), Codes::Float64);
    column.extend_from_words(&words(&["1e", "e5", ".", "1.2.3", "infx", "", "+"]));
    assert_eq!(column.join(0, 7), joined(&["", "", "", "", "", "", ""]));
}
