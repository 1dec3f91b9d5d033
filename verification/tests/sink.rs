use amiss::projection::assertion::{sink_choice, ProjectionCarrier, SinkDrift};

fn carrier(name: Option<&str>, span: (usize, usize), adjacent_code: bool) -> ProjectionCarrier {
    ProjectionCarrier { name: name.map(str::to_owned), span, adjacent_code }
}

#[test]
fn the_one_carrier_naming_a_projection_with_code_beside_it_is_the_sink() {
    let carriers = vec![
        carrier(Some("other"), (0, 5), true),
        carrier(None, (6, 9), true),
        carrier(Some("rows"), (10, 20), true),
    ];
    assert_eq!(sink_choice(&carriers, "rows"), (vec![2], Ok(2)));
}

#[test]
fn a_missing_repeated_or_detached_carrier_is_no_sink() {
    let carriers = vec![
        carrier(Some("rows"), (0, 5), true),
        carrier(Some("rows"), (6, 9), true),
        carrier(Some("lone"), (10, 20), false),
    ];
    assert_eq!(sink_choice(&carriers, "absent"), (vec![], Err(SinkDrift::SinkAbsent)));
    assert_eq!(sink_choice(&carriers, "rows"), (vec![0, 1], Err(SinkDrift::SinkAmbiguous)));
    assert_eq!(sink_choice(&carriers, "lone"), (vec![2], Err(SinkDrift::SinkNotAdjacent)));
}
