use poker::table::table_stages::TableStage;

#[test]
fn get_next_test() {
    let mut table_stage = TableStage::PreFlop;
    assert_eq!(table_stage.get_next(), TableStage::Flop);
    table_stage = table_stage.get_next();
    assert_eq!(table_stage.get_next(), TableStage::Turn);
    table_stage = table_stage.get_next();
    assert_eq!(table_stage.get_next(), TableStage::River);
    table_stage = table_stage.get_next();
    assert_eq!(table_stage.get_next(), TableStage::Showdown);
    table_stage = table_stage.get_next();
    assert_eq!(table_stage.get_next(), TableStage::Showdown);
}

#[test]
fn stages_only_move_forward() {
    let stages = [
        TableStage::PreFlop,
        TableStage::Flop,
        TableStage::Turn,
        TableStage::River,
        TableStage::Showdown,
    ];
    for s in stages.iter() {
        assert!(s.get_next() >= *s);
        assert_eq!(s.get_next().get_next().get_next().get_next(), TableStage::Showdown);
    }
}
