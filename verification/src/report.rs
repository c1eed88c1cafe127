//! The lines that describe an analyzed file.
use vstd::prelude::*;
use vstd::string::*;

use crate::analysis::{FileInfo, PEAK_COUNT};
use crate::single::Single;
use crate::text::{
    decimal, decimal_digits, join, lemma_number_read, number_read, pad_left, spaces,
};
use crate::unit::FloatUnit;

verus! {

/// A line of a description.
#[derive(Debug)]
pub enum Row {
    /// Text in a font of fixed width.
    Fixed(String),
    Separator,
    /// Text in the font of the window.
    Label(String),
}

/// Whether `row` is `text` in a font of fixed width.
pub open spec fn shows(row: Row, text: Seq<char>) -> bool {
    row matches Row::Fixed(s) && s@ == text
}

/// What stands for the bitrate.
pub open spec fn bitrate_text(bitrate_kbps: Option<u32>) -> Seq<char> {
    match bitrate_kbps {
        Some(b) => "Bitrate: "@ + decimal_digits(b as nat) + " kbps"@,
        None => "Bitrate: (unknown)"@,
    }
}

/// Whether `rows` begin with the facts about a file, where `size` and `duration` are the texts
/// of its size and duration.
pub open spec fn begins_with_facts(
    info: FileInfo,
    size: Seq<char>,
    duration: Seq<char>,
    rows: Seq<Row>,
) -> bool {
    &&& rows.len() >= 8
    &&& shows(rows[0], "Path: "@ + info.path@)
    &&& shows(rows[1], "Size: "@ + size + " MB"@)
    &&& shows(rows[2], "Container: "@ + info.container@)
    &&& shows(rows[3], "Codec: "@ + info.codec@)
    &&& shows(rows[4], "SR: "@ + decimal_digits(info.sample_rate as nat) + " Hz"@)
    &&& shows(rows[5], "Channels: "@ + decimal_digits(info.channels as nat))
    &&& shows(rows[6], "Duration: "@ + duration + " s"@)
    &&& shows(rows[7], bitrate_text(info.bitrate_kbps))
}

/// Whether `rows` end with the tags of a file, under a heading, if there are any.
pub open spec fn ends_with_tags(tags: Seq<(String, String)>, rows: Seq<Row>) -> bool {
    if tags.len() == 0 {
        rows.len() == 8
    } else {
        &&& rows.len() == 10 + tags.len()
        &&& rows[8] is Separator
        &&& rows[9] matches Row::Label(heading) && heading@ == "Tags"@
        &&& forall|t: int|
            0 <= t < tags.len() ==> shows(
                #[trigger] rows[10 + t],
                tags[t].0@ + ": "@ + tags[t].1@,
            )
    }
}

fn fixed(before: &str, value: &str, after: &str) -> (row: Row)
    ensures
        shows(row, before@ + value@ + after@),
{
    let mut text = join(before, value);
    text.append(after);
    Row::Fixed(text)
}

fn fact(before: &str, value: &str) -> (row: Row)
    ensures
        shows(row, before@ + value@),
{
    Row::Fixed(join(before, value))
}

/// The lines that describe a file.
pub fn file_info_rows<U: FloatUnit>(unit: &U, info: &FileInfo) -> (rows: Vec<Row>)
    ensures
        exists|size: String, duration: String|
            {
                &&& #[trigger] call_ensures(U::wide_text, (unit, info.size_mb, 2usize), size)
                &&& #[trigger] call_ensures(
                    U::wide_text,
                    (unit, info.duration_s, 3usize),
                    duration,
                )
                &&& begins_with_facts(*info, size@, duration@, rows@)
            },
        ends_with_tags(info.tags@, rows@),
{
    let size = unit.wide_text(info.size_mb, 2);
    let duration = unit.wide_text(info.duration_s, 3);
    let mut rows: Vec<Row> = Vec::new();
    rows.push(fact("Path: ", info.path.as_str()));
    rows.push(fixed("Size: ", size.as_str(), " MB"));
    rows.push(fact("Container: ", info.container.as_str()));
    rows.push(fact("Codec: ", info.codec.as_str()));
    rows.push(fixed("SR: ", decimal(info.sample_rate as u64).as_str(), " Hz"));
    rows.push(fact("Channels: ", decimal(info.channels as u64).as_str()));
    rows.push(fixed("Duration: ", duration.as_str(), " s"));
    match info.bitrate_kbps {
        Some(b) => rows.push(fixed("Bitrate: ", decimal(b as u64).as_str(), " kbps")),
        None => rows.push(Row::Fixed("Bitrate: (unknown)".to_string())),
    }
    assert(begins_with_facts(*info, size@, duration@, rows@));
    if info.tags.len() > 0 {
        rows.push(Row::Separator);
        rows.push(Row::Label("Tags".to_string()));
        let mut t: usize = 0;
        while t < info.tags.len()
            invariant
                t <= info.tags@.len(),
                begins_with_facts(*info, size@, duration@, rows@),
                rows@.len() == 10 + t,
                rows@[8] is Separator,
                rows@[9] matches Row::Label(heading) && heading@ == "Tags"@,
                forall|k: int|
                    0 <= k < t ==> shows(
                        #[trigger] rows@[10 + k],
                        info.tags@[k].0@ + ": "@ + info.tags@[k].1@,
                    ),
            decreases info.tags@.len() - t,
        {
            rows.push(fixed(info.tags[t].0.as_str(), ": ", info.tags[t].1.as_str()));
            t += 1;
        }
    }
    rows
}

/// Whether `text` is the line of one peak: its frequency and level with one decimal, in
/// columns of 8 and 6 characters.
pub open spec fn is_peak_row<U: FloatUnit>(
    unit: &U,
    peak: (Single, Single),
    text: Seq<char>,
) -> bool {
    exists|hz: String, db: String|
        {
            &&& #[trigger] call_ensures(U::text, (unit, peak.0, 1usize), hz)
            &&& #[trigger] call_ensures(U::text, (unit, peak.1, 1usize), db)
            &&& text == spaces(8 - hz@.len()) + hz@ + " Hz   "@ + (spaces(6 - db@.len()) + db@)
                + " dB"@
        }
}

/// The lines that list the peaks of a file, as far as there is room.
pub fn peak_rows<U: FloatUnit>(unit: &U, peaks: &Vec<(Single, Single)>) -> (rows: Vec<String>)
    ensures
        rows@.len() == if peaks@.len() <= PEAK_COUNT {
            peaks@.len()
        } else {
            PEAK_COUNT as nat
        },
        forall|i: int|
            0 <= i < rows@.len() ==> is_peak_row(unit, peaks@[i], (#[trigger] rows@[i])@),
{
    let mut rows: Vec<String> = Vec::new();
    let mut i: usize = 0;
    while i < peaks.len() && i < PEAK_COUNT
        invariant
            i <= peaks@.len(),
            i <= PEAK_COUNT,
            rows@.len() == i,
            forall|k: int|
                0 <= k < i ==> is_peak_row(unit, peaks@[k], (#[trigger] rows@[k])@),
        decreases PEAK_COUNT - i,
    {
        let (f, d): (Single, Single) = peaks[i];
        let hz = unit.text(f, 1);
        let db = unit.text(d, 1);
        let mut row = pad_left(hz.as_str(), 8);
        row.append(" Hz   ");
        row.append(pad_left(db.as_str(), 6).as_str());
        row.append(" dB");
        assert(is_peak_row(unit, peaks@[i as int], row@));
        rows.push(row);
        i += 1;
    }
    rows
}

/// The text of a row in a font of fixed width.
pub open spec fn fixed_text(row: Row) -> Option<Seq<char>> {
    match row {
        Row::Fixed(text) => Some(text@),
        _ => None,
    }
}

/// The facts about a file stand in its first rows, each behind its name, whole.
pub proof fn law_rows_tell_the_facts<U: FloatUnit>(unit: &U, info: FileInfo, rows: Vec<Row>)
    requires
        call_ensures(file_info_rows::<U>, (unit, &info), rows),
    ensures
        rows@.len() >= 8,
        fixed_text(rows@[0]) == Some("Path: "@ + info.path@),
        fixed_text(rows@[2]) == Some("Container: "@ + info.container@),
        fixed_text(rows@[3]) == Some("Codec: "@ + info.codec@),
        exists|rate: Seq<char>|
            {
                &&& fixed_text(rows@[4]) == Some("SR: "@ + rate + " Hz"@)
                &&& #[trigger] number_read(rate) == info.sample_rate
            },
        exists|channels: Seq<char>|
            {
                &&& fixed_text(rows@[5]) == Some("Channels: "@ + channels)
                &&& #[trigger] number_read(channels) == info.channels
            },
        info.bitrate_kbps is None ==> fixed_text(rows@[7]) == Some("Bitrate: (unknown)"@),
        info.bitrate_kbps matches Some(b) ==> exists|bitrate: Seq<char>|
            {
                &&& fixed_text(rows@[7]) == Some("Bitrate: "@ + bitrate + " kbps"@)
                &&& #[trigger] number_read(bitrate) == b
            },
        exists|size: String|
            {
                &&& #[trigger] call_ensures(U::wide_text, (unit, info.size_mb, 2usize), size)
                &&& fixed_text(rows@[1]) == Some("Size: "@ + size@ + " MB"@)
            },
        exists|duration: String|
            {
                &&& #[trigger] call_ensures(
                    U::wide_text,
                    (unit, info.duration_s, 3usize),
                    duration,
                )
                &&& fixed_text(rows@[6]) == Some("Duration: "@ + duration@ + " s"@)
            },
{
    lemma_number_read(info.sample_rate as nat);
    lemma_number_read(info.channels as nat);
    assert(number_read(decimal_digits(info.sample_rate as nat)) == info.sample_rate);
    assert(number_read(decimal_digits(info.channels as nat)) == info.channels);
    if let Some(b) = info.bitrate_kbps {
        lemma_number_read(b as nat);
        assert(number_read(decimal_digits(b as nat)) == b);
    }
    let (size, duration) = choose|size: String, duration: String|
        {
            &&& #[trigger] call_ensures(U::wide_text, (unit, info.size_mb, 2usize), size)
            &&& #[trigger] call_ensures(U::wide_text, (unit, info.duration_s, 3usize), duration)
            &&& begins_with_facts(info, size@, duration@, rows@)
        };
    assert(begins_with_facts(info, size@, duration@, rows@));
}

/// Each tag of a file has a row, in order, behind a separator and a heading; a file without tags
/// has neither.
pub proof fn law_rows_tell_every_tag<U: FloatUnit>(
    unit: &U,
    info: FileInfo,
    rows: Vec<Row>,
    t: int,
)
    requires
        call_ensures(file_info_rows::<U>, (unit, &info), rows),
        0 <= t < info.tags@.len(),
    ensures
        rows@.len() == 10 + info.tags@.len(),
        rows@[8] is Separator,
        rows@[9] matches Row::Label(heading) && heading@ == "Tags"@,
        fixed_text(rows@[10 + t]) == Some(info.tags@[t].0@ + ": "@ + info.tags@[t].1@),
{
    assert(shows(rows@[10 + t], info.tags@[t].0@ + ": "@ + info.tags@[t].1@));
}

/// A file without tags has rows for its facts alone.
pub proof fn law_rows_end_with_the_facts<U: FloatUnit>(unit: &U, info: FileInfo, rows: Vec<Row>)
    requires
        call_ensures(file_info_rows::<U>, (unit, &info), rows),
        info.tags@.len() == 0,
    ensures
        rows@.len() == 8,
{
}

/// Each of the first 12 peaks has a row, in order, with its frequency and level in columns.
pub proof fn law_rows_tell_every_peak<U: FloatUnit>(
    unit: &U,
    peaks: &Vec<(Single, Single)>,
    rows: Vec<String>,
    i: int,
)
    requires
        call_ensures(peak_rows::<U>, (unit, peaks), rows),
        0 <= i < peaks@.len(),
        i < 12,
    ensures
        i < rows@.len() <= 12,
        rows@.len() <= peaks@.len(),
        exists|hz: String, db: String, before: Seq<char>, between: Seq<char>|
            {
                &&& #[trigger] call_ensures(U::text, (unit, peaks@[i].0, 1usize), hz)
                &&& #[trigger] call_ensures(U::text, (unit, peaks@[i].1, 1usize), db)
                &&& rows@[i]@ == #[trigger] (before + hz@ + " Hz   "@ + (between + db@) + " dB"@)
                &&& before.len() == if hz@.len() < 8 {
                    8 - hz@.len()
                } else {
                    0
                }
                &&& between.len() == if db@.len() < 6 {
                    6 - db@.len()
                } else {
                    0
                }
                &&& forall|k: int| 0 <= k < before.len() ==> #[trigger] before[k] == ' '
                &&& forall|k: int| 0 <= k < between.len() ==> #[trigger] between[k] == ' '
            },
{
    assert(is_peak_row(unit, peaks@[i], rows@[i]@));
    let (hz, db) = choose|hz: String, db: String|
        {
            &&& #[trigger] call_ensures(U::text, (unit, peaks@[i].0, 1usize), hz)
            &&& #[trigger] call_ensures(U::text, (unit, peaks@[i].1, 1usize), db)
            &&& rows@[i]@ == spaces(8 - hz@.len()) + hz@ + " Hz   "@ + (spaces(6 - db@.len())
                + db@) + " dB"@
        };
    let (before, between) = (spaces(8 - hz@.len()), spaces(6 - db@.len()));
    assert(rows@[i]@ == before + hz@ + " Hz   "@ + (between + db@) + " dB"@);
}

} // verus!
