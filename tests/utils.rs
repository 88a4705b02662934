use csv_frame::utils::HeaderFillerGenerator;

#[test]
fn filler() {
    let mut filler = HeaderFillerGenerator::default();
    let mut bytes = Vec::new();

    for _ in 0..27 {
        let name = filler.next().unwrap();
        bytes.extend_from_slice(&name);
    }

    assert_eq!(Some(&b'A'), bytes.get(0));
    assert_eq!(Some(&b'A'), bytes.get(26));
    assert_eq!(Some(&b'A'), bytes.get(27));
}

#[test]
fn filler_runs_through_all_labels() {
    let mut filler = HeaderFillerGenerator::default();
    let mut labels = Vec::new();
    while let Some(l) = filler.next() {
        labels.push(String::from_utf8(l).unwrap());
    }
    assert_eq!(labels.len(), 26 + 26 * 26);
    assert_eq!(labels[0], "A");
    assert_eq!(labels[25], "Z");
    assert_eq!(labels[26], "AA");
    assert_eq!(labels[27], "AB");
    assert_eq!(labels[52], "BA");
    assert_eq!(labels[701], "ZZ");
    assert_eq!(filler.next(), None);
}

#[test]
fn filler_over_no_symbols() {
    let mut filler = HeaderFillerGenerator::new(&[], [b'A', b'A']);
    assert_eq!(filler.next(), None);
}
