//! The state of the view of a document, and what is shown for it.

use crate::arrange::{entry_order, reverse_matches, sort_matches, SortBy};
use crate::datetime::{formatted_utc, ts_to_str, year_start, year_to_ts, MAX_YEAR, MIN_YEAR};
use crate::decimal::{append_decimal, append_signed_decimal, decimal, signed_decimal};
use crate::json_crawl::{computes, crawl, crawl_matches, found, path_text, JsonPath, Step};
use crate::json_value::{parse_json, parsed_json, JsonError, JsonValue};
use crate::offset::{offset_text, relative_offset};
use crate::sorting::is_stable_sort;
use vstd::prelude::*;
use vstd::string::StringExecFns;

verus! {

/// The document that a fresh view shows.
pub const DEFAULT_JSON_BODY: &'static str = "{\n\
    \x20 \"field1\": 1692694500,\n\
    \x20 \"field2\": \"I am a string\",\n\
    \x20 \"field3\": [1692684500, 1692693500, 1692699500],\n\
    \x20 \"field4\": {\n\
    \x20   \"subfield1\": null,\n\
    \x20   \"subfield2\": 1692694500\n\
    \x20 }\n\
    }";

/// The pattern after which a fresh view writes a time.
pub const DEFAULT_FMT: &'static str = "%Y-%m-%d %H:%M:%S";

/// The anchor of a fresh view.
pub const DEFAULT_ANCHOR: i64 = 1692694500;

/// What the view of a document shows, and how.
pub struct TemplateApp {
    /// The first year whose times are shown.
    pub min_year: i32,
    /// The last year whose times are shown.
    pub max_year: i32,
    /// The text of the document.
    pub json_body: String,
    /// The pattern after which a time is written.
    pub fmt: String,
    /// The Unix time from which the offsets are counted.
    pub anchor: i64,
    /// The path that is marked in the tree.
    pub highlighted_path: Option<JsonPath>,
    /// What the table is sorted by.
    pub sort_by: SortBy,
    /// Whether the table goes from the least to the greatest.
    pub ascend: bool,
    /// Whether the instructions are shown.
    pub instruction_open: bool,
}

/// The integers from `min_ts` to `max_ts`, both of them included.
pub open spec fn within(min_ts: i64, max_ts: i64) -> spec_fn(i64) -> bool {
    |ts: i64| min_ts <= ts && ts <= max_ts
}

/// `rows` is the table of `tree`: its integers from `min_ts` to `max_ts` with
/// their paths, sorted as `sort_by` asks, from the greatest to the least where
/// `ascend` is not set.
pub open spec fn is_table_of(
    tree: JsonValue,
    min_ts: i64,
    max_ts: i64,
    sort_by: SortBy,
    ascend: bool,
    rows: Seq<(Seq<Step>, i64)>,
) -> bool {
    is_stable_sort(
        crawl_matches(tree, Seq::empty(), within(min_ts, max_ts)),
        if ascend {
            rows
        } else {
            rows.reverse()
        },
        entry_order(sort_by),
    )
}

/// The table of `tree`.
pub fn timestamps_of(
    tree: &JsonValue,
    min_ts: i64,
    max_ts: i64,
    sort_by: SortBy,
    ascend: bool,
) -> (rows: Vec<(JsonPath, i64)>)
    ensures
        is_table_of(*tree, min_ts, max_ts, sort_by, ascend, found(rows@)),
{
    let predicate = |ts: i64| -> (inside: bool)
        ensures
            inside == (min_ts <= ts && ts <= max_ts),
        { min_ts <= ts && ts <= max_ts };
    proof {
        assert(computes(predicate, within(min_ts, max_ts)));
    }
    let sorted = sort_matches(crawl(tree, &predicate), sort_by);
    if ascend {
        sorted
    } else {
        let rows = reverse_matches(sorted);
        proof {
            assert(found(rows@).reverse() =~= found(sorted@));
        }
        rows
    }
}

/// The table of the document that `json_body` holds, or why it holds none.
pub fn find_timestamps(
    json_body: &str,
    min_ts: i64,
    max_ts: i64,
    sort_by: SortBy,
    ascend: bool,
) -> (outcome: Result<Vec<(JsonPath, i64)>, JsonError>)
    ensures
        outcome is Ok <==> parsed_json(json_body@) is Some,
        outcome matches Ok(rows) ==> is_table_of(
            parsed_json(json_body@).unwrap(),
            min_ts,
            max_ts,
            sort_by,
            ascend,
            found(rows@),
        ),
{
    match parse_json(json_body) {
        Ok(tree) => Ok(timestamps_of(&tree, min_ts, max_ts, sort_by, ascend)),
        Err(error) => Err(error),
    }
}

impl TemplateApp {
    /// The view as it is when the program begins in the year `current_year`:
    /// it shows the times from two years before to three years after.
    pub fn starting_in(current_year: i32) -> (view: Self)
        requires
            i32::MIN <= current_year - 2,
            current_year + 3 <= i32::MAX,
        ensures
            view.min_year == current_year - 2,
            view.max_year == current_year + 3,
            view.json_body@ == DEFAULT_JSON_BODY@,
            view.fmt@ == DEFAULT_FMT@,
            view.anchor == DEFAULT_ANCHOR,
            view.highlighted_path is None,
            view.sort_by == SortBy::Time,
            view.ascend,
            !view.instruction_open,
    {
        TemplateApp {
            min_year: current_year - 2,
            max_year: current_year + 3,
            json_body: DEFAULT_JSON_BODY.to_owned(),
            fmt: DEFAULT_FMT.to_owned(),
            anchor: DEFAULT_ANCHOR,
            highlighted_path: None,
            sort_by: SortBy::Time,
            ascend: true,
            instruction_open: false,
        }
    }

    /// The Unix times between which a number is shown: from the beginning of
    /// `min_year` to the beginning of the year after `max_year`. There are
    /// none where one of the two years has no dates.
    pub fn time_window(&self) -> (window: Option<(i64, i64)>)
        ensures
            window is Some <==> MIN_YEAR <= self.min_year <= MAX_YEAR && MIN_YEAR <= self.max_year
                + 1 <= MAX_YEAR,
            window matches Some(w) ==> w.0 == year_start(self.min_year as int) && w.1
                == year_start(self.max_year + 1),
    {
        if self.max_year == i32::MAX {
            return None;
        }
        match year_to_ts(self.min_year) {
            Some(min_ts) => match year_to_ts(self.max_year + 1) {
                Some(max_ts) => Some((min_ts, max_ts)),
                None => None,
            },
            None => None,
        }
    }

    /// Takes note of a click on the head of the table. A click on a column of
    /// times sorts by time, one on the column of paths sorts by path, the
    /// first before the second; either turns the direction round.
    pub fn header_clicked(&mut self, time_clicked: bool, path_clicked: bool)
        ensures
            final(self).sort_by == if time_clicked {
                SortBy::Time
            } else if path_clicked {
                SortBy::Path
            } else {
                old(self).sort_by
            },
            final(self).ascend == (old(self).ascend != (time_clicked || path_clicked)),
            final(self).min_year == old(self).min_year,
            final(self).max_year == old(self).max_year,
            final(self).json_body == old(self).json_body,
            final(self).fmt == old(self).fmt,
            final(self).anchor == old(self).anchor,
            final(self).highlighted_path == old(self).highlighted_path,
            final(self).instruction_open == old(self).instruction_open,
    {
        if time_clicked {
            self.sort_by = SortBy::Time;
        } else if path_clicked {
            self.sort_by = SortBy::Path;
        }
        if time_clicked || path_clicked {
            self.ascend = !self.ascend;
        }
    }

    /// The table of the document in `json_body`, for the Unix times from
    /// `min_ts` to `max_ts`, sorted as the view asks; or why `json_body` holds
    /// no document.
    pub fn table(&self, min_ts: i64, max_ts: i64) -> (outcome: Result<
        Vec<(JsonPath, i64)>,
        JsonError,
    >)
        ensures
            outcome is Ok <==> parsed_json(self.json_body@) is Some,
            outcome matches Ok(rows) ==> is_table_of(
                parsed_json(self.json_body@).unwrap(),
                min_ts,
                max_ts,
                self.sort_by,
                self.ascend,
                found(rows@),
            ),
    {
        find_timestamps(self.json_body.as_str(), min_ts, max_ts, self.sort_by, self.ascend)
    }
}

/// Whether the node at `path` is shown open in the tree: it is where the
/// marked path, if there is one, goes through it.
pub fn opens_by_default(path: &JsonPath, path_to_open: Option<&JsonPath>) -> (open: bool)
    ensures
        open == (path_to_open matches Some(target) && path@.is_prefix_of(target@)),
{
    match path_to_open {
        Some(target) => path.is_prefix_of(target),
        None => false,
    }
}

/// Whether the node at `path` is the marked one.
pub fn is_highlighted(path: &JsonPath, path_to_open: Option<&JsonPath>) -> (marked: bool)
    ensures
        marked == (path_to_open matches Some(target) && target@ == path@),
{
    match path_to_open {
        Some(target) => *target == *path,
        None => false,
    }
}

/// The texts of one line of the table.
pub struct TableRow {
    /// The number of the line.
    pub row: String,
    /// The Unix time.
    pub unix_time: String,
    /// The time in words.
    pub human_readable: String,
    /// The offset from the anchor.
    pub relative: String,
    /// The path to the number in the document.
    pub path: String,
}

/// What stands for a time that cannot be written.
pub const NOT_AVAILABLE: &'static str = "N/A";

/// The line of the table that shows the match of `path` and `ts` as line
/// number `row_index`.
pub fn table_row(row_index: usize, path: &JsonPath, ts: i64, fmt: &str, anchor: i64) -> (line:
    TableRow)
    ensures
        line.row@ == decimal(row_index as nat),
        line.unix_time@ == signed_decimal(ts as int),
        line.human_readable@ == match formatted_utc(ts, 0, fmt@) {
            Some(text) => text,
            None => NOT_AVAILABLE@,
        },
        line.relative@ == offset_text(ts - anchor),
        line.path@ == path_text(path@),
{
    let mut row = String::new();
    append_decimal(&mut row, row_index as u64);
    let mut unix_time = String::new();
    append_signed_decimal(&mut unix_time, ts);
    let human_readable = match ts_to_str(ts, fmt) {
        Some(text) => text,
        None => NOT_AVAILABLE.to_owned(),
    };
    proof {
        assert(row@ =~= decimal(row_index as nat));
        assert(unix_time@ =~= signed_decimal(ts as int));
    }
    TableRow {
        row,
        unix_time,
        human_readable,
        relative: relative_offset(ts, anchor),
        path: path.to_display_string(),
    }
}

/// The mark of a table that goes from the least to the greatest.
pub const ARROW_UP: &'static str = " \u{2197}";

/// The mark of a table that goes from the greatest to the least.
pub const ARROW_DOWN: &'static str = " \u{2198}";

/// The marks that follow the titles of the columns of times and the title of
/// the column of paths: the direction of the table after the title that it is
/// sorted by, nothing after the other.
pub fn header_arrows(sort_by: SortBy, ascend: bool) -> (marks: (&'static str, &'static str))
    ensures
        marks.0@ == match sort_by {
            SortBy::Time => if ascend {
                ARROW_UP@
            } else {
                ARROW_DOWN@
            },
            SortBy::Path => Seq::<char>::empty(),
        },
        marks.1@ == match sort_by {
            SortBy::Time => Seq::<char>::empty(),
            SortBy::Path => if ascend {
                ARROW_UP@
            } else {
                ARROW_DOWN@
            },
        },
{
    proof {
        reveal_strlit("");
    }
    let arrow = if ascend {
        ARROW_UP
    } else {
        ARROW_DOWN
    };
    let none = "";
    assert(none@ =~= Seq::<char>::empty());
    match sort_by {
        SortBy::Time => (arrow, none),
        SortBy::Path => (none, arrow),
    }
}

/// A file that is held over the window.
pub struct HoveredFile {
    /// Where the file lies, where that is known.
    pub path: Option<String>,
    /// The kind of the file; empty where it is not known.
    pub mime: String,
}

/// The first line of the text that is shown while files are held over the
/// window.
pub const DROPPING_FILES: &'static str = "Dropping files:\n";

/// What stands for a file of which nothing is known.
pub const UNKNOWN_FILE: &'static str = "???";

/// The line that names `file`: where it lies, else its kind, else a mark that
/// nothing is known of it.
pub open spec fn hovered_line(file: HoveredFile) -> Seq<char> {
    seq!['\n'] + match file.path {
        Some(path) => path@,
        None => if file.mime@.len() > 0 {
            file.mime@
        } else {
            UNKNOWN_FILE@
        },
    }
}

/// The text that is shown while `files` are held over the window: a first
/// line, and a line for each file.
pub open spec fn dropping_text(files: Seq<HoveredFile>) -> Seq<char>
    decreases files.len(),
{
    if files.len() == 0 {
        DROPPING_FILES@
    } else {
        dropping_text(files.drop_last()) + hovered_line(files.last())
    }
}

/// The text that is shown while `files` are held over the window.
pub fn dropping_files_text(files: &Vec<HoveredFile>) -> (text: String)
    ensures
        text@ == dropping_text(files@),
{
    let mut text = DROPPING_FILES.to_owned();
    let mut i: usize = 0;
    proof {
        reveal_strlit("\n");
        assert(files@.subrange(0, 0) =~= Seq::empty());
    }
    while i < files.len()
        invariant
            i <= files.len(),
            text@ == dropping_text(files@.subrange(0, i as int)),
            "\n"@ == seq!['\n'],
        decreases files.len() - i,
    {
        let ghost before = text@;
        let file = &files[i];
        text.append("\n");
        match &file.path {
            Some(path) => {
                text.append(path.as_str());
            },
            None => {
                if !file.mime.as_str().is_empty() {
                    text.append(file.mime.as_str());
                } else {
                    text.append(UNKNOWN_FILE);
                }
            },
        }
        proof {
            let longer = files@.subrange(0, i + 1);
            assert(longer.drop_last() =~= files@.subrange(0, i as int));
            assert(longer.last() == files@[i as int]);
            assert(text@ =~= before + hovered_line(files@[i as int]));
        }
        i += 1;
    }
    proof {
        assert(files@.subrange(0, i as int) =~= files@);
    }
    text
}

} // verus!
