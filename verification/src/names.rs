//! The names of tile files: `<map>_<x>_<y>.adt`.

use crate::text::chars_of;
use crate::text::fields_of;
use crate::text::find_last;
use crate::text::last_position;
use crate::text::lemma_last_position;
use crate::text::parse_u32;
use crate::text::split_fields;
use crate::text::unsigned_of;
use vstd::prelude::*;
use vstd::slice::slice_subrange;
use vstd::string::*;

verus! {

/// Whether `ext` is `adt`, in upper or lower case.
pub open spec fn is_adt_extension(ext: Seq<char>) -> bool {
    &&& ext.len() == 3
    &&& (ext[0] == 'a' || ext[0] == 'A')
    &&& (ext[1] == 'd' || ext[1] == 'D')
    &&& (ext[2] == 't' || ext[2] == 'T')
}

/// What the file name `name` says about a tile, if it names one: the name of
/// the map and the column and row of the tile.
///
/// The name ends in a dot and the extension `adt`, and the dot is not its
/// first character. What comes before that dot consists of exactly three
/// parts with `_` between them: the map, and the column and the row as
/// unsigned decimal numbers.
pub open spec fn root_adt_name(name: Seq<char>) -> Option<(Seq<char>, u32, u32)> {
    match last_position(name, '.') {
        Some(dot) => {
            let parts = fields_of(name.take(dot), '_', false);
            if dot > 0 && is_adt_extension(name.skip(dot + 1)) && parts.len() == 3 {
                match (unsigned_of(parts[1]), unsigned_of(parts[2])) {
                    (Some(x), Some(y)) => Some((parts[0], x, y)),
                    _ => None,
                }
            } else {
                None
            }
        },
        None => None,
    }
}

/// Reads the name of a tile file. `name` is the file name alone, without the
/// directories that lead to it.
pub fn parse_root_adt_filename(name: &str) -> (parsed: Option<(String, u32, u32)>)
    ensures
        match parsed {
            Some((map, x, y)) => root_adt_name(name@) == Some((map@, x, y)),
            None => root_adt_name(name@) is None,
        },
{
    let chars = chars_of(name);
    let dot = match find_last(chars.as_slice(), '.') {
        Some(dot) => dot,
        None => {
            return None;
        },
    };
    proof {
        lemma_last_position(name@, '.');
    }
    if dot == 0 {
        return None;
    }
    let ext = slice_subrange(chars.as_slice(), dot + 1, chars.len());
    assert(ext@ =~= name@.skip(dot + 1));
    if !(ext.len() == 3 && (ext[0] == 'a' || ext[0] == 'A') && (ext[1] == 'd' || ext[1] == 'D')
        && (ext[2] == 't' || ext[2] == 'T')) {
        return None;
    }
    let stem = slice_subrange(chars.as_slice(), 0, dot);
    assert(stem@ =~= name@.take(dot as int));
    let parts = split_fields(stem, '_', false);
    if parts.len() != 3 {
        return None;
    }
    let x = match parse_u32(slice_subrange(stem, parts[1].0, parts[1].1)) {
        Some(x) => x,
        None => {
            return None;
        },
    };
    let y = match parse_u32(slice_subrange(stem, parts[2].0, parts[2].1)) {
        Some(y) => y,
        None => {
            return None;
        },
    };
    let map = name.substring_char(parts[0].0, parts[0].1).to_owned();
    assert(map@ =~= stem@.subrange(parts[0].0 as int, parts[0].1 as int));
    Some((map, x, y))
}

} // verus!
