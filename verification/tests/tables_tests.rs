use zonemap::tables::parse_area_table;
use zonemap::tables::parse_csv_line;
use zonemap::tables::parse_map_to_area_csv;
use zonemap::tables::Column;
use zonemap::tables::TableError;

fn lines(text: &[&str]) -> Vec<String> {
    text.iter().map(|line| line.to_string()).collect()
}

#[test]
fn csv_line_splits_on_commas() {
    assert_eq!(parse_csv_line("1,Dun Morogh,0"), vec!["1", "Dun Morogh", "0"]);
    assert_eq!(parse_csv_line(""), vec![""]);
    assert_eq!(parse_csv_line(",,"), vec!["", "", ""]);
}

#[test]
fn csv_line_keeps_commas_inside_quotes() {
    assert_eq!(parse_csv_line("7,\"Hall, Great\",3"), vec!["7", "\"Hall, Great\"", "3"]);
    assert_eq!(parse_csv_line("\"a,b\",\"c,d\""), vec!["\"a,b\"", "\"c,d\""]);
    assert_eq!(parse_csv_line("\"never closed,1,2"), vec!["\"never closed,1,2"]);
    assert_eq!(parse_csv_line("x,\"é, 漢\",y"), vec!["x", "\"é, 漢\"", "y"]);
}

#[test]
fn area_table_is_read_by_column_name() {
    let table = parse_area_table(&lines(&[
        "ID,ZoneName,AreaName_lang,ContinentID,ParentAreaID,ExplorationLevel",
        "1,DunMorogh,Dun Morogh,0,0,1",
        "131,Kharanos,\"Kharanos\",0,1,5",
        "800,Pass,\"Pass, Coldridge\",0,132,-3",
    ]))
    .unwrap();
    assert_eq!(table.len(), 3);
    assert_eq!(table[&1].id, 1);
    assert_eq!(table[&1].name, "Dun Morogh");
    assert_eq!(table[&1].parent_id, 0);
    assert_eq!(table[&1].exploration_level, 1);
    assert_eq!(table[&131].name, "Kharanos");
    assert_eq!(table[&131].parent_id, 1);
    assert_eq!(table[&131].exploration_level, 5);
    assert_eq!(table[&800].name, "Pass, Coldridge");
    assert_eq!(table[&800].parent_id, 132);
    assert_eq!(table[&800].exploration_level, -3);
}

#[test]
fn area_table_passes_over_bad_rows() {
    let table = parse_area_table(&lines(&[
        "ID,AreaName_lang,ParentAreaID,ExplorationLevel",
        "x,Bad id,0,0",
        "2,Short row",
        "",
        "3,No numbers,none,",
        " 4,Space before id,0,0",
        "5,Fine,2,9",
    ]))
    .unwrap();
    let mut ids: Vec<u32> = table.keys().copied().collect();
    ids.sort();
    assert_eq!(ids, vec![3, 5]);
    assert_eq!(table[&3].parent_id, 0);
    assert_eq!(table[&3].exploration_level, 0);
    assert_eq!(table[&5].parent_id, 2);
    assert_eq!(table[&5].exploration_level, 9);
}

#[test]
fn area_table_later_row_wins() {
    let table = parse_area_table(&lines(&[
        "ID,AreaName_lang,ParentAreaID,ExplorationLevel",
        "9,First,1,1",
        "9,Second,2,2",
    ]))
    .unwrap();
    assert_eq!(table.len(), 1);
    assert_eq!(table[&9].name, "Second");
    assert_eq!(table[&9].parent_id, 2);
}

#[test]
fn area_table_with_header_only_is_empty() {
    let table =
        parse_area_table(&lines(&["ExplorationLevel,ParentAreaID,AreaName_lang,ID"])).unwrap();
    assert!(table.is_empty());
}

#[test]
fn area_table_columns_may_come_in_any_order() {
    let table = parse_area_table(&lines(&[
        "ExplorationLevel,ParentAreaID,AreaName_lang,ID",
        "4,3,\"\"Two\"\",1",
    ]))
    .unwrap();
    assert_eq!(table[&1].name, "Two");
    assert_eq!(table[&1].parent_id, 3);
    assert_eq!(table[&1].exploration_level, 4);
}

#[test]
fn area_table_without_lines_is_an_error() {
    assert_eq!(parse_area_table(&Vec::new()).err(), Some(TableError::Empty));
}

#[test]
fn area_table_names_the_first_missing_column() {
    let missing = |header: &str| parse_area_table(&lines(&[header, "1,2,3,4"])).err();
    assert_eq!(missing("AreaName_lang,ParentAreaID"), Some(TableError::MissingColumn(Column::Id)));
    assert_eq!(
        missing("ID,ParentAreaID,ExplorationLevel"),
        Some(TableError::MissingColumn(Column::AreaName))
    );
    assert_eq!(
        missing("ID,AreaName_lang,ExplorationLevel"),
        Some(TableError::MissingColumn(Column::ParentAreaId))
    );
    assert_eq!(
        missing("ID,AreaName_lang,ParentAreaID"),
        Some(TableError::MissingColumn(Column::ExplorationLevel))
    );
    // Names must match exactly: no white space, same case.
    assert_eq!(
        missing(" ID,AreaName_lang,ParentAreaID,ExplorationLevel"),
        Some(TableError::MissingColumn(Column::Id))
    );
    assert_eq!(
        missing("id,AreaName_lang,ParentAreaID,ExplorationLevel"),
        Some(TableError::MissingColumn(Column::Id))
    );
}

#[test]
fn map_table_is_read_in_line_order() {
    let entries = parse_map_to_area_csv(&lines(&[
        "Zone, mapId ,AreaId",
        "\"Dun Morogh\", 1426 , 1",
        "Elwynn Forest,1429,12",
        "\"Stranglethorn, North\",1434,33",
    ]))
    .unwrap();
    assert_eq!(entries.len(), 3);
    assert_eq!(entries[0].zone_name, "Dun Morogh");
    assert_eq!(entries[0].map_id, 1426);
    assert_eq!(entries[0].area_id, 1);
    assert_eq!(entries[1].zone_name, "Elwynn Forest");
    assert_eq!(entries[2].zone_name, "Stranglethorn, North");
    assert_eq!(entries[2].map_id, 1434);
    assert_eq!(entries[2].area_id, 33);
}

#[test]
fn map_table_passes_over_bad_rows() {
    let entries = parse_map_to_area_csv(&lines(&[
        "AreaId,mapId,Zone",
        "1,x,No map",
        "y,2,No area",
        "3",
        "4,5,Fine",
        "4,5,Fine",
    ]))
    .unwrap();
    assert_eq!(entries.len(), 2);
    assert_eq!(entries[0].area_id, 4);
    assert_eq!(entries[0].map_id, 5);
    assert_eq!(entries[0].zone_name, "Fine");
    assert_eq!(entries[1].zone_name, "Fine");
}

#[test]
fn map_table_errors() {
    assert_eq!(parse_map_to_area_csv(&Vec::new()).err(), Some(TableError::Empty));
    let missing = |header: &str| parse_map_to_area_csv(&lines(&[header])).err();
    assert_eq!(missing("mapId,AreaId"), Some(TableError::MissingColumn(Column::Zone)));
    assert_eq!(missing("Zone,AreaId"), Some(TableError::MissingColumn(Column::MapId)));
    assert_eq!(missing("Zone,mapId"), Some(TableError::MissingColumn(Column::AreaId)));
    assert_eq!(missing("zone,mapId,AreaId"), Some(TableError::MissingColumn(Column::Zone)));
}
