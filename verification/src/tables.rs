//! The reference tables, read from the lines of comma-separated text.

use crate::areas::AreaInfo;
use crate::text::chars_of;
use crate::text::fields_of;
use crate::text::marks_fields;
use crate::text::parse_i32;
use crate::text::parse_u32;
use crate::text::same_text;
use crate::text::signed_of;
use crate::text::split_fields;
use crate::text::trim_range;
use crate::text::trimmed;
use crate::text::unsigned_of;
use std::collections::HashMap;
use vstd::prelude::*;
use vstd::slice::slice_subrange;
use vstd::std_specs::hash::*;
use vstd::string::*;

verus! {

broadcast use group_hash_axioms;

/// A column that a table has to have.
#[derive(Clone, Copy, Debug, PartialEq, Eq, Structural)]
pub enum Column {
    /// `ID` of the region table.
    Id,
    /// `AreaName_lang` of the region table.
    AreaName,
    /// `ParentAreaID` of the region table.
    ParentAreaId,
    /// `ExplorationLevel` of the region table.
    ExplorationLevel,
    /// `Zone` of the map table.
    Zone,
    /// `mapId` of the map table.
    MapId,
    /// `AreaId` of the map table.
    AreaId,
}

/// Why a table could not be read.
#[derive(Clone, Copy, Debug, PartialEq, Eq, Structural)]
pub enum TableError {
    /// The table has no line at all, not even a header.
    Empty,
    /// The header does not name this column.
    MissingColumn(Column),
}

/// One row of the map table: a map of the game and the region it shows.
#[derive(Debug, Clone)]
pub struct MapToAreaEntry {
    /// The name of the zone.
    pub zone_name: String,
    /// The id of the map.
    pub map_id: u32,
    /// The id of the region.
    pub area_id: u32,
}

/// What a row of the region table says.
pub struct AreaRow {
    pub id: u32,
    pub name: Seq<char>,
    pub parent_id: u32,
    pub exploration_level: i32,
}

/// What a row of the map table says.
pub struct MapRow {
    pub zone_name: Seq<char>,
    pub map_id: u32,
    pub area_id: u32,
}

/// The row that `area` was read from.
pub open spec fn row_of_area(area: AreaInfo) -> AreaRow {
    AreaRow {
        id: area.id,
        name: area.name@,
        parent_id: area.parent_id,
        exploration_level: area.exploration_level,
    }
}

/// The row that `entry` was read from.
pub open spec fn row_of_entry(entry: MapToAreaEntry) -> MapRow {
    MapRow { zone_name: entry.zone_name@, map_id: entry.map_id, area_id: entry.area_id }
}

/// The name by which the header refers to `column`.
pub open spec fn column_text(column: Column) -> Seq<char> {
    match column {
        Column::Id => "ID"@,
        Column::AreaName => "AreaName_lang"@,
        Column::ParentAreaId => "ParentAreaID"@,
        Column::ExplorationLevel => "ExplorationLevel"@,
        Column::Zone => "Zone"@,
        Column::MapId => "mapId"@,
        Column::AreaId => "AreaId"@,
    }
}

/// Whether the header field `field` names the column called `name`. With
/// `trim` on, white space around the field does not count.
pub open spec fn names_column(field: Seq<char>, name: Seq<char>, trim: bool) -> bool {
    if trim {
        trimmed(field, true) == name
    } else {
        field == name
    }
}

/// The position of the first header field that names the column called `name`.
pub open spec fn column_position(header: Seq<Seq<char>>, name: Seq<char>, trim: bool) -> Option<
    int,
>
    decreases header.len(),
{
    if header.len() == 0 {
        None
    } else {
        match column_position(header.drop_last(), name, trim) {
            Some(at) => Some(at),
            None => if names_column(header.last(), name, trim) {
                Some(header.len() - 1)
            } else {
                None
            },
        }
    }
}

/// A column found among the first fields of a header is found there in the
/// whole header too.
pub proof fn lemma_column_position_stays(
    header: Seq<Seq<char>>,
    name: Seq<char>,
    trim: bool,
    upto: int,
)
    requires
        0 <= upto <= header.len(),
        column_position(header.take(upto), name, trim) is Some,
    ensures
        column_position(header, name, trim) == column_position(header.take(upto), name, trim),
    decreases header.len() - upto,
{
    if upto == header.len() {
        assert(header.take(upto) =~= header);
    } else {
        assert(header.take(upto + 1).drop_last() =~= header.take(upto));
        lemma_column_position_stays(header, name, trim, upto + 1);
    }
}

/// The name by which the header refers to `column`.
fn column_name(column: Column) -> (name: &'static str)
    ensures
        name@ == column_text(column),
{
    match column {
        Column::Id => "ID",
        Column::AreaName => "AreaName_lang",
        Column::ParentAreaId => "ParentAreaID",
        Column::ExplorationLevel => "ExplorationLevel",
        Column::Zone => "Zone",
        Column::MapId => "mapId",
        Column::AreaId => "AreaId",
    }
}

/// Finds the column `column` in the header line `header`.
fn find_column(header: &[char], ranges: &Vec<(usize, usize)>, column: Column, trim: bool) -> (found:
    Result<usize, TableError>)
    requires
        marks_fields(ranges@, header@, ',', false),
    ensures
        match found {
            Ok(at) => column_position(
                fields_of(header@, ',', false),
                column_text(column),
                trim,
            ) == Some(at as int) && at < ranges@.len(),
            Err(reason) => column_position(
                fields_of(header@, ',', false),
                column_text(column),
                trim,
            ) is None && reason == TableError::MissingColumn(column),
        },
{
    let name = chars_of(column_name(column));
    let ghost fields = fields_of(header@, ',', false);
    assert(fields.take(0) =~= Seq::<Seq<char>>::empty());
    for at in 0..ranges.len()
        invariant
            marks_fields(ranges@, header@, ',', false),
            fields == fields_of(header@, ',', false),
            name@ == column_text(column),
            column_position(fields.take(at as int), column_text(column), trim) is None,
    {
        let (from, to) = ranges[at];
        let (from, to) = if trim {
            trim_range(header, from, to, true)
        } else {
            (from, to)
        };
        let field = slice_subrange(header, from, to);
        proof {
            assert(fields.take(at + 1).drop_last() =~= fields.take(at as int));
            assert(fields.take(at + 1).last() == fields[at as int]);
        }
        if same_text(field, name.as_slice()) {
            proof {
                lemma_column_position_stays(fields, column_text(column), trim, at + 1);
            }
            return Ok(at);
        }
    }
    assert(fields.take(ranges@.len() as int) =~= fields);
    Err(TableError::MissingColumn(column))
}

/// What the fields of one line of the region table say, if they make a row:
/// the line has to reach the columns named, and its id has to be a number.
/// A parent or level that is no number counts as 0.
pub open spec fn area_row(
    fields: Seq<Seq<char>>,
    id_at: int,
    name_at: int,
    parent_at: int,
    level_at: int,
) -> Option<AreaRow> {
    if fields.len() <= id_at || fields.len() <= name_at || fields.len() <= parent_at
        || fields.len() <= level_at {
        None
    } else {
        match unsigned_of(fields[id_at]) {
            Some(id) => Some(
                AreaRow {
                    id,
                    name: trimmed(fields[name_at], false),
                    parent_id: match unsigned_of(fields[parent_at]) {
                        Some(parent) => parent,
                        None => 0,
                    },
                    exploration_level: match signed_of(fields[level_at]) {
                        Some(level) => level,
                        None => 0,
                    },
                },
            ),
            None => None,
        }
    }
}

/// The regions that the given lines of the region table describe, by id. Of
/// two rows with the same id the later one counts.
pub open spec fn area_rows(
    lines: Seq<Seq<char>>,
    id_at: int,
    name_at: int,
    parent_at: int,
    level_at: int,
) -> Map<u32, AreaRow>
    decreases lines.len(),
{
    if lines.len() == 0 {
        Map::empty()
    } else {
        let before = area_rows(lines.drop_last(), id_at, name_at, parent_at, level_at);
        match area_row(fields_of(lines.last(), ',', true), id_at, name_at, parent_at, level_at) {
            Some(row) => before.insert(row.id, row),
            None => before,
        }
    }
}

/// What the region table with the given lines says, the first line being
/// the header, or the reason why it cannot be read.
pub open spec fn area_table(lines: Seq<Seq<char>>) -> Result<Map<u32, AreaRow>, TableError> {
    if lines.len() == 0 {
        Err(TableError::Empty)
    } else {
        let header = fields_of(lines[0], ',', false);
        match column_position(header, column_text(Column::Id), false) {
            None => Err(TableError::MissingColumn(Column::Id)),
            Some(id_at) => match column_position(header, column_text(Column::AreaName), false) {
                None => Err(TableError::MissingColumn(Column::AreaName)),
                Some(name_at) => match column_position(
                    header,
                    column_text(Column::ParentAreaId),
                    false,
                ) {
                    None => Err(TableError::MissingColumn(Column::ParentAreaId)),
                    Some(parent_at) => match column_position(
                        header,
                        column_text(Column::ExplorationLevel),
                        false,
                    ) {
                        None => Err(TableError::MissingColumn(Column::ExplorationLevel)),
                        Some(level_at) => Ok(
                            area_rows(lines.skip(1), id_at, name_at, parent_at, level_at),
                        ),
                    },
                },
            },
        }
    }
}

/// The texts of `lines`.
pub open spec fn texts_of(lines: Seq<String>) -> Seq<Seq<char>> {
    lines.map_values(|line: String| line@)
}

/// Whether `areas` holds exactly the rows of `rows`.
pub open spec fn holds_rows(areas: Map<u32, AreaInfo>, rows: Map<u32, AreaRow>) -> bool {
    &&& areas.dom() == rows.dom()
    &&& forall|id: u32| #[trigger] areas.contains_key(id) ==> row_of_area(areas[id]) == rows[id]
}

/// Reads one field of `line` as text, without the `"` around it.
fn unquoted_field(line: &str, chars: &[char], range: (usize, usize)) -> (field: String)
    requires
        chars@ == line@,
        range.0 <= range.1 <= chars@.len(),
    ensures
        field@ == trimmed(chars@.subrange(range.0 as int, range.1 as int), false),
{
    let (from, to) = trim_range(chars, range.0, range.1, false);
    line.substring_char(from, to).to_owned()
}

/// Reads the region table from its lines, the first line being the header.
///
/// The header names the columns `ID`, `AreaName_lang`, `ParentAreaID` and
/// `ExplorationLevel`. A line that does not reach these columns, or whose id
/// is no number, is passed over.
pub fn parse_area_table(lines: &Vec<String>) -> (table: Result<HashMap<u32, AreaInfo>, TableError>)
    ensures
        match table {
            Ok(areas) => area_table(texts_of(lines@)) matches Ok(rows) && holds_rows(areas@, rows),
            Err(reason) => area_table(texts_of(lines@)) == Err::<Map<u32, AreaRow>, TableError>(
                reason,
            ),
        },
{
    let ghost texts = texts_of(lines@);
    if lines.len() == 0 {
        return Err(TableError::Empty);
    }
    let header = chars_of(lines[0].as_str());
    assert(header@ == texts[0]);
    let columns = split_fields(header.as_slice(), ',', false);
    let id_idx = match find_column(header.as_slice(), &columns, Column::Id, false) {
        Ok(at) => at,
        Err(reason) => {
            return Err(reason);
        },
    };
    let name_idx = match find_column(header.as_slice(), &columns, Column::AreaName, false) {
        Ok(at) => at,
        Err(reason) => {
            return Err(reason);
        },
    };
    let parent_idx = match find_column(header.as_slice(), &columns, Column::ParentAreaId, false) {
        Ok(at) => at,
        Err(reason) => {
            return Err(reason);
        },
    };
    let level_idx = match find_column(
        header.as_slice(),
        &columns,
        Column::ExplorationLevel,
        false,
    ) {
        Ok(at) => at,
        Err(reason) => {
            return Err(reason);
        },
    };
    let mut areas: HashMap<u32, AreaInfo> = HashMap::new();
    let ghost rest = texts.skip(1);
    proof {
        assert(rest.take(0) =~= Seq::<Seq<char>>::empty());
        assert(areas@.dom() =~= Map::<u32, AreaRow>::empty().dom());
    }
    for at in 1..lines.len()
        invariant
            texts == texts_of(lines@),
            rest == texts.skip(1),
            holds_rows(
                areas@,
                area_rows(
                    rest.take(at - 1),
                    id_idx as int,
                    name_idx as int,
                    parent_idx as int,
                    level_idx as int,
                ),
            ),
    {
        let line = lines[at].as_str();
        let chars = chars_of(line);
        let fields = split_fields(chars.as_slice(), ',', true);
        let ghost rows_before = area_rows(
            rest.take(at - 1),
            id_idx as int,
            name_idx as int,
            parent_idx as int,
            level_idx as int,
        );
        proof {
            assert(rest.take(at as int).drop_last() =~= rest.take(at - 1));
            assert(rest.take(at as int).last() == texts[at as int]);
            assert(chars@ == texts[at as int]);
        }
        if fields.len() > id_idx && fields.len() > name_idx && fields.len() > parent_idx
            && fields.len() > level_idx {
            let id_field = slice_subrange(chars.as_slice(), fields[id_idx].0, fields[id_idx].1);
            match parse_u32(id_field) {
                Some(id) => {
                    let name = unquoted_field(line, chars.as_slice(), fields[name_idx]);
                    let parent_id = match parse_u32(
                        slice_subrange(
                            chars.as_slice(),
                            fields[parent_idx].0,
                            fields[parent_idx].1,
                        ),
                    ) {
                        Some(parent) => parent,
                        None => 0,
                    };
                    let exploration_level = match parse_i32(
                        slice_subrange(chars.as_slice(), fields[level_idx].0, fields[level_idx].1),
                    ) {
                        Some(level) => level,
                        None => 0,
                    };
                    let area = AreaInfo { id, name, parent_id, exploration_level };
                    let ghost areas_before = areas@;
                    areas.insert(id, area);
                    proof {
                        let row = row_of_area(area);
                        assert(area_row(
                            fields_of(chars@, ',', true),
                            id_idx as int,
                            name_idx as int,
                            parent_idx as int,
                            level_idx as int,
                        ) == Some(row));
                        assert(areas@.dom() =~= rows_before.insert(id, row).dom());
                    }
                },
                None => {},
            }
        }
    }
    proof {
        assert(rest.take(lines.len() - 1) =~= rest);
    }
    Ok(areas)
}

/// What the fields of one line of the map table say, if they make a row: the
/// line has to reach the columns named, and the map and the region have to
/// be numbers, white space around them not counting.
pub open spec fn map_row(fields: Seq<Seq<char>>, zone_at: int, map_at: int, area_at: int) -> Option<
    MapRow,
> {
    if fields.len() <= zone_at || fields.len() <= map_at || fields.len() <= area_at {
        None
    } else {
        match (
            unsigned_of(trimmed(fields[map_at], true)),
            unsigned_of(trimmed(fields[area_at], true)),
        ) {
            (Some(map_id), Some(area_id)) => Some(
                MapRow { zone_name: trimmed(fields[zone_at], false), map_id, area_id },
            ),
            _ => None,
        }
    }
}

/// The rows that the given lines of the map table make, in the order of the lines.
pub open spec fn map_rows(lines: Seq<Seq<char>>, zone_at: int, map_at: int, area_at: int) -> Seq<
    MapRow,
>
    decreases lines.len(),
{
    if lines.len() == 0 {
        Seq::empty()
    } else {
        let before = map_rows(lines.drop_last(), zone_at, map_at, area_at);
        match map_row(fields_of(lines.last(), ',', true), zone_at, map_at, area_at) {
            Some(row) => before.push(row),
            None => before,
        }
    }
}

/// What the map table with the given lines says, the first line being the
/// header, or the reason why it cannot be read.
pub open spec fn map_table(lines: Seq<Seq<char>>) -> Result<Seq<MapRow>, TableError> {
    if lines.len() == 0 {
        Err(TableError::Empty)
    } else {
        let header = fields_of(lines[0], ',', false);
        match column_position(header, column_text(Column::Zone), true) {
            None => Err(TableError::MissingColumn(Column::Zone)),
            Some(zone_at) => match column_position(header, column_text(Column::MapId), true) {
                None => Err(TableError::MissingColumn(Column::MapId)),
                Some(map_at) => match column_position(header, column_text(Column::AreaId), true) {
                    None => Err(TableError::MissingColumn(Column::AreaId)),
                    Some(area_at) => Ok(map_rows(lines.skip(1), zone_at, map_at, area_at)),
                },
            },
        }
    }
}

/// Reads one field of `chars` as a number, white space around it not counting.
fn trimmed_number(chars: &[char], range: (usize, usize)) -> (value: Option<u32>)
    requires
        range.0 <= range.1 <= chars@.len(),
    ensures
        value == unsigned_of(trimmed(chars@.subrange(range.0 as int, range.1 as int), true)),
{
    let (from, to) = trim_range(chars, range.0, range.1, true);
    parse_u32(slice_subrange(chars, from, to))
}

/// Reads the map table from its lines, the first line being the header.
///
/// The header names the columns `Zone`, `mapId` and `AreaId`. A line that
/// does not reach these columns, or whose map or region is no number, is
/// passed over. The rows come in the order of the lines.
pub fn parse_map_to_area_csv(lines: &Vec<String>) -> (table: Result<
    Vec<MapToAreaEntry>,
    TableError,
>)
    ensures
        match table {
            Ok(entries) => map_table(texts_of(lines@)) == Ok::<Seq<MapRow>, TableError>(
                entries@.map_values(|entry: MapToAreaEntry| row_of_entry(entry)),
            ),
            Err(reason) => map_table(texts_of(lines@)) == Err::<Seq<MapRow>, TableError>(reason),
        },
{
    let ghost texts = texts_of(lines@);
    if lines.len() == 0 {
        return Err(TableError::Empty);
    }
    let header = chars_of(lines[0].as_str());
    assert(header@ == texts[0]);
    let columns = split_fields(header.as_slice(), ',', false);
    let zone_idx = match find_column(header.as_slice(), &columns, Column::Zone, true) {
        Ok(at) => at,
        Err(reason) => {
            return Err(reason);
        },
    };
    let map_id_idx = match find_column(header.as_slice(), &columns, Column::MapId, true) {
        Ok(at) => at,
        Err(reason) => {
            return Err(reason);
        },
    };
    let area_id_idx = match find_column(header.as_slice(), &columns, Column::AreaId, true) {
        Ok(at) => at,
        Err(reason) => {
            return Err(reason);
        },
    };
    let mut entries: Vec<MapToAreaEntry> = Vec::new();
    let ghost rest = texts.skip(1);
    proof {
        assert(rest.take(0) =~= Seq::<Seq<char>>::empty());
        assert(entries@.map_values(|entry: MapToAreaEntry| row_of_entry(entry)) =~= Seq::<
            MapRow,
        >::empty());
    }
    for at in 1..lines.len()
        invariant
            texts == texts_of(lines@),
            rest == texts.skip(1),
            entries@.map_values(|entry: MapToAreaEntry| row_of_entry(entry)) == map_rows(
                rest.take(at - 1),
                zone_idx as int,
                map_id_idx as int,
                area_id_idx as int,
            ),
    {
        let line = lines[at].as_str();
        let chars = chars_of(line);
        let fields = split_fields(chars.as_slice(), ',', true);
        let ghost before = entries@;
        proof {
            assert(rest.take(at as int).drop_last() =~= rest.take(at - 1));
            assert(rest.take(at as int).last() == texts[at as int]);
            assert(chars@ == texts[at as int]);
        }
        if fields.len() > zone_idx && fields.len() > map_id_idx && fields.len() > area_id_idx {
            let zone_name = unquoted_field(line, chars.as_slice(), fields[zone_idx]);
            match trimmed_number(chars.as_slice(), fields[map_id_idx]) {
                Some(map_id) => {
                    match trimmed_number(chars.as_slice(), fields[area_id_idx]) {
                        Some(area_id) => {
                            let entry = MapToAreaEntry { zone_name, map_id, area_id };
                            entries.push(entry);
                            proof {
                                assert(entries@.map_values(
                                    |entry: MapToAreaEntry| row_of_entry(entry),
                                ) =~= before.map_values(
                                    |entry: MapToAreaEntry| row_of_entry(entry),
                                ).push(row_of_entry(entry)));
                            }
                        },
                        None => {},
                    }
                },
                None => {},
            }
        }
    }
    proof {
        assert(rest.take(lines.len() - 1) =~= rest);
    }
    Ok(entries)
}

/// Cuts one line of comma-separated text into its fields. A comma inside
/// double quotes does not end a field, and the quotes stay in the field.
pub fn parse_csv_line(line: &str) -> (fields: Vec<&str>)
    ensures
        fields@.map_values(|field: &str| field@) == fields_of(line@, ',', true),
{
    let chars = chars_of(line);
    let ranges = split_fields(chars.as_slice(), ',', true);
    let mut fields: Vec<&str> = Vec::new();
    let ghost parts = fields_of(line@, ',', true);
    for at in 0..ranges.len()
        invariant
            chars@ == line@,
            marks_fields(ranges@, line@, ',', true),
            parts == fields_of(line@, ',', true),
            fields@.map_values(|field: &str| field@) == parts.take(at as int),
    {
        let ghost before = fields@;
        let field = line.substring_char(ranges[at].0, ranges[at].1);
        fields.push(field);
        proof {
            assert(fields@.map_values(|field: &str| field@) =~= before.map_values(
                |field: &str| field@,
            ).push(field@));
            assert(parts.take(at + 1) =~= parts.take(at as int).push(parts[at as int]));
        }
    }
    assert(parts.take(ranges@.len() as int) =~= parts);
    fields
}

} // verus!
