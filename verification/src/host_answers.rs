//! What extensions are answered.
use crate::consent::member_text;
use crate::grid_sync;
use crate::grid_sync::{CellModel, RowChange, RowModel};
use crate::host_settings;
use crate::host_settings::check_size;
use crate::json;
use crate::json::{entry, object2, object3, Json, JsonModel, Member};
use crate::numbers;
use crate::numbers::decimal_text;
use crate::text::{around, joined};
use crate::unicode;
use crate::unicode::text_of_bytes_lossy;
use vstd::prelude::*;
use vstd::string::*;

verus! {

/// The characters of the cells of a row.
pub open spec fn row_text(cells: Seq<CellModel>) -> Seq<char>
    decreases cells.len(),
{
    if cells.len() == 0 {
        Seq::empty()
    } else {
        row_text(cells.drop_last()) + cells.last().character
    }
}

/// The characters of rows, one line for each.
pub open spec fn rows_text(rows: Seq<RowModel>) -> Seq<char>
    decreases rows.len(),
{
    if rows.len() == 0 {
        Seq::empty()
    } else if rows.len() == 1 {
        row_text(rows[0].cells)
    } else {
        rows_text(rows.drop_last()) + "\n"@ + row_text(rows.last().cells)
    }
}

fn write_row(row: &RowChange) -> (line: String)
    ensures
        line@ == row_text(row@.cells),
{
    let ghost all = row@.cells;
    let mut line: String = String::new();
    let mut i: usize = 0;
    assert(line@ =~= row_text(all.take(0)));
    while i < row.cells.len()
        invariant
            i <= row.cells.len(),
            all == row@.cells,
            line@ == row_text(all.take(i as int)),
        decreases row.cells.len() - i,
    {
        proof {
            assert(all.take(i + 1).drop_last() =~= all.take(i as int));
            assert(all.take(i + 1).last() == row.cells@[i as int]@);
        }
        line = joined(line.as_str(), row.cells[i].character.as_str());
        i = i + 1;
    }
    assert(all.take(i as int) =~= all);
    line
}

/// Writes the characters of rows, one line for each.
pub fn capture_text(rows: &Vec<RowChange>) -> (captured: String)
    ensures
        captured@ == rows_text(grid_sync::row_models(rows@)),
{
    let ghost all = grid_sync::row_models(rows@);
    let mut captured: String = String::new();
    let mut i: usize = 0;
    assert(captured@ =~= rows_text(all.take(0)));
    while i < rows.len()
        invariant
            i <= rows.len(),
            all == grid_sync::row_models(rows@),
            captured@ == rows_text(all.take(i as int)),
        decreases rows.len() - i,
    {
        proof {
            assert(all.take(i + 1).drop_last() =~= all.take(i as int));
            assert(all.take(i + 1).last() == rows@[i as int]@);
        }
        let line: String = write_row(&rows[i]);
        if i == 0 {
            captured = line;
        } else {
            captured = around(captured.as_str(), "\n", line.as_str());
        }
        i = i + 1;
    }
    assert(all.take(i as int) =~= all);
    captured
}

/// Refuses a file that is too large to be read.
pub fn check_file(size: u64, limit: u64, path: &str) -> (result: Result<(), String>)
    ensures
        match result {
            Ok(_) => size <= limit,
            Err(message) => size > limit && message@
                == "file is too large for an extension to read (limit "@ + numbers::digits_of(
                limit as nat,
            ) + " bytes): "@ + path@,
        },
{
    if size > limit {
        let head: String = around(
            "file is too large for an extension to read (limit ",
            decimal_text(limit).as_str(),
            " bytes): ",
        );
        return Err(joined(head.as_str(), path));
    }
    Ok(())
}

/// What an entry of a directory is.
#[derive(Clone, Copy, Debug, PartialEq, Eq, Structural)]
pub enum EntryKind {
    Dir,
    Symlink,
    File,
}

/// How that is written.
pub open spec fn kind_text(kind: EntryKind) -> Seq<char> {
    match kind {
        EntryKind::Dir => "dir"@,
        EntryKind::Symlink => "symlink"@,
        EntryKind::File => "file"@,
    }
}

/// An entry of a directory.
#[derive(Debug)]
pub struct FoundEntry {
    pub name: String,
    pub kind: EntryKind,
}

/// An entry of a directory as extensions see it.
pub open spec fn entry_json(e: FoundEntry) -> JsonModel {
    JsonModel::Object(
        seq![("name"@, JsonModel::Text(e.name@)), ("kind"@, JsonModel::Text(kind_text(e.kind)))],
    )
}

/// How many of the entries of a directory are told: up to the limit, and the
/// first in any case.
pub open spec fn told_entries(count: int, limit: int) -> int {
    let most = if limit < 1 {
        1
    } else {
        limit
    };
    if count < most {
        count
    } else {
        most
    }
}

/// Tells the entries of a directory.
pub fn list_entries(entries: &Vec<FoundEntry>, limit: usize) -> (value: Json)
    ensures
        value@ == JsonModel::List(
            entries@.take(told_entries(entries@.len() as int, limit as int)).map_values(
                |e: FoundEntry| entry_json(e),
            ),
        ),
{
    let ghost told = told_entries(entries@.len() as int, limit as int);
    let ghost all = entries@.take(told).map_values(|e: FoundEntry| entry_json(e));
    let mut items: Vec<Json> = Vec::new();
    let mut i: usize = 0;
    while i < entries.len() && (i == 0 || i < limit)
        invariant
            i <= told <= entries.len(),
            told == told_entries(entries@.len() as int, limit as int),
            all == entries@.take(told).map_values(|e: FoundEntry| entry_json(e)),
            items.len() == i,
            forall|j: int| 0 <= j < i ==> (#[trigger] items@[j])@ == all[j],
        decreases entries.len() - i,
    {
        let kind: &str = match entries[i].kind {
            EntryKind::Dir => "dir",
            EntryKind::Symlink => "symlink",
            EntryKind::File => "file",
        };
        let item: Json = object2(
            entry("name", Json::Text(entries[i].name.clone())),
            entry("kind", Json::Text(kind.to_owned())),
        );
        items.push(item);
        i = i + 1;
    }
    let value = Json::List(items);
    proof {
        json::lemma_parts(value);
        assert(json::values(items@) =~= all);
    }
    value
}

/// The method of a request to fetch something.
pub open spec fn method_in(options: JsonModel) -> Seq<char> {
    match json::text_of(json::member(options, "method"@)) {
        Some(t) => t,
        None => "GET"@,
    }
}

/// Takes the method of a request to fetch something.
pub fn fetch_method(options: &Json) -> (method: String)
    ensures
        method@ == method_in(options@),
{
    match member_text(options, "method") {
        Some(text) => text.to_owned(),
        None => "GET".to_owned(),
    }
}

/// The body of a request to fetch something.
pub open spec fn body_in(options: JsonModel) -> Seq<char> {
    match json::text_of(json::member(options, "body"@)) {
        Some(t) => t,
        None => Seq::empty(),
    }
}

/// Takes the body of a request to fetch something.
pub fn fetch_body(options: &Json, limit: u64) -> (result: Result<String, String>)
    ensures
        ({
            let body = body_in(options@);
            match result {
                Ok(text) => text@ == body && vstd::utf8::encode_utf8(body).len() <= limit,
                Err(message) => vstd::utf8::encode_utf8(body).len() > limit && message@
                    == host_settings::too_large("network request body"@, limit as nat),
            }
        }),
{
    let body: String = match member_text(options, "body") {
        Some(text) => text.to_owned(),
        None => {
            let empty = String::new();
            assert(empty@ =~= Seq::<char>::empty());
            empty
        },
    };
    let length: usize = body.as_str().as_bytes().len();
    match check_size("network request body", length as u64, limit) {
        Ok(_) => Ok(body),
        Err(e) => Err(e),
    }
}

/// What was fetched, as extensions see it.
pub open spec fn fetched_json(
    status: u16,
    headers: Seq<(Seq<char>, JsonModel)>,
    body: Seq<u8>,
) -> JsonModel {
    JsonModel::Object(
        seq![
            ("status"@, JsonModel::Whole(status as u64)),
            ("headers"@, JsonModel::Object(headers)),
            ("body"@, JsonModel::Text(unicode::lossy_text(body))),
        ],
    )
}

/// Tells what was fetched; a body that is too large is refused.
pub fn fetch_answer(status: u16, headers: Vec<Member>, body: &Vec<u8>, limit: u64) -> (result: Result<
    Json,
    String,
>)
    ensures
        match result {
            Ok(value) => body@.len() <= limit && value@ == fetched_json(
                status,
                json::members_of(headers@),
                body@,
            ),
            Err(message) => body@.len() > limit && message@ == host_settings::too_large(
                "network response"@,
                limit as nat,
            ),
        },
{
    match check_size("network response", body.len() as u64, limit) {
        Ok(_) => {},
        Err(message) => {
            return Err(message);
        },
    }
    let shown = Json::Object(headers);
    proof {
        json::lemma_parts(shown);
    }
    Ok(
        object3(
            entry("status", Json::Whole(status as u64)),
            entry("headers", shown),
            entry("body", Json::Text(text_of_bytes_lossy(body))),
        ),
    )
}

/// A whole number.
pub open spec fn number_json(n: int) -> JsonModel {
    if n < 0 {
        JsonModel::Negative(n as i64)
    } else {
        JsonModel::Whole(n as u64)
    }
}

/// Writes a whole number.
pub fn number_value(n: i32) -> (value: Json)
    ensures
        value@ == number_json(n as int),
{
    if n < 0 {
        Json::Negative(n as i64)
    } else {
        Json::Whole(n as u64)
    }
}

/// The code that a program ended with.
pub open spec fn code_json(code: Option<i32>) -> JsonModel {
    match code {
        Some(n) => number_json(n as int),
        None => JsonModel::Null,
    }
}

/// How a program ended, as extensions see it.
pub open spec fn ended_json(
    code: Option<i32>,
    success: bool,
    stdout: Seq<u8>,
    stderr: Seq<u8>,
) -> JsonModel {
    JsonModel::Object(
        seq![
            ("status"@, code_json(code)),
            ("success"@, JsonModel::Bool(success)),
            ("stdout"@, JsonModel::Text(unicode::lossy_text(stdout))),
            ("stderr"@, JsonModel::Text(unicode::lossy_text(stderr))),
        ],
    )
}

/// Tells how a program ended and what it wrote; one that was killed has no
/// code.
pub fn process_answer(code: Option<i32>, success: bool, stdout: &Vec<u8>, stderr: &Vec<u8>) -> (value:
    Json)
    ensures
        value@ == ended_json(code, success, stdout@, stderr@),
{
    let status: Json = match code {
        Some(n) => number_value(n),
        None => Json::Null,
    };
    let mut members: Vec<Member> = Vec::new();
    members.push(entry("status", status));
    members.push(entry("success", Json::Bool(success)));
    members.push(entry("stdout", Json::Text(text_of_bytes_lossy(stdout))));
    members.push(entry("stderr", Json::Text(text_of_bytes_lossy(stderr))));
    let value = Json::Object(members);
    proof {
        json::lemma_parts(value);
        assert(status@ == code_json(code));
        assert(json::members_of(members@) =~= ended_json(
            code,
            success,
            stdout@,
            stderr@,
        )->Object_0);
    }
    value
}

/// A row is captured as the characters of its cells, one after the other.
pub proof fn law_rows_are_captured_cell_by_cell(
    a: Seq<CellModel>,
    b: Seq<CellModel>,
    cell: CellModel,
)
    ensures
        row_text(a + b) == row_text(a) + row_text(b),
        row_text(seq![cell]) == cell.character,
    decreases b.len(),
{
    reveal_with_fuel(row_text, 2);
    assert(seq![cell].drop_last() =~= Seq::<CellModel>::empty());
    assert(row_text(seq![cell]) =~= cell.character);
    if b.len() == 0 {
        assert(a + b =~= a);
        assert(row_text(a) + row_text(b) =~= row_text(a));
    } else {
        law_rows_are_captured_cell_by_cell(a, b.drop_last(), cell);
        assert((a + b).drop_last() =~= a + b.drop_last());
        assert(row_text(a + b) =~= row_text(a) + row_text(b));
    }
}

/// Rows are captured as lines, in their order and with nothing behind the last.
pub proof fn law_rows_are_captured_as_lines(a: Seq<RowModel>, b: Seq<RowModel>, row: RowModel)
    requires
        a.len() > 0,
        b.len() > 0,
    ensures
        rows_text(a + b) == rows_text(a) + "\n"@ + rows_text(b),
        rows_text(seq![row]) == row_text(row.cells),
    decreases b.len(),
{
    let all = a + b;
    assert(all.drop_last() =~= a + b.drop_last());
    assert(all.last() == b.last());
    if b.len() == 1 {
        assert(all.drop_last() =~= a);
        assert(rows_text(b) == row_text(b.last().cells));
    } else {
        law_rows_are_captured_as_lines(a, b.drop_last(), row);
        assert(rows_text(all) =~= rows_text(a) + "\n"@ + rows_text(b));
    }
}

/// Of the entries of a directory as many are told as are allowed, but at least
/// one where there is one.
pub proof fn law_listings_are_cut_off(count: int, limit: int)
    requires
        0 <= count,
        0 <= limit,
    ensures
        told_entries(count, limit) <= count,
        count <= limit ==> told_entries(count, limit) == count,
        0 < limit < count ==> told_entries(count, limit) == limit,
        limit == 0 && count > 0 ==> told_entries(count, limit) == 1,
{
}

/// Whether a value is an object with a member of this name and value.
pub open spec fn tells(value: JsonModel, key: Seq<char>, member: JsonModel) -> bool {
    value matches JsonModel::Object(members) && members.contains((key, member))
}

/// What extensions are answered: each thing under its own name.
pub proof fn law_answers_name_their_parts(
    e: FoundEntry,
    status: u16,
    headers: Seq<(Seq<char>, JsonModel)>,
    code: Option<i32>,
    success: bool,
    first: Seq<u8>,
    second: Seq<u8>,
)
    ensures
        tells(entry_json(e), "name"@, JsonModel::Text(e.name@)),
        e.kind is Dir ==> tells(entry_json(e), "kind"@, JsonModel::Text("dir"@)),
        e.kind is Symlink ==> tells(entry_json(e), "kind"@, JsonModel::Text("symlink"@)),
        e.kind is File ==> tells(entry_json(e), "kind"@, JsonModel::Text("file"@)),
        tells(
            fetched_json(status, headers, first),
            "status"@,
            JsonModel::Whole(status as u64),
        ),
        tells(fetched_json(status, headers, first), "headers"@, JsonModel::Object(headers)),
        tells(
            fetched_json(status, headers, first),
            "body"@,
            JsonModel::Text(unicode::lossy_text(first)),
        ),
        tells(ended_json(code, success, first, second), "status"@, code_json(code)),
        tells(ended_json(code, success, first, second), "success"@, JsonModel::Bool(success)),
        tells(
            ended_json(code, success, first, second),
            "stdout"@,
            JsonModel::Text(unicode::lossy_text(first)),
        ),
        tells(
            ended_json(code, success, first, second),
            "stderr"@,
            JsonModel::Text(unicode::lossy_text(second)),
        ),
{
    if let JsonModel::Object(m) = entry_json(e) {
        assert(m.contains(m[0]) && m.contains(m[1]));
    }
    if let JsonModel::Object(m) = fetched_json(status, headers, first) {
        assert(m.contains(m[0]) && m.contains(m[1]) && m.contains(m[2]));
    }
    if let JsonModel::Object(m) = ended_json(code, success, first, second) {
        assert(m.contains(m[0]) && m.contains(m[1]) && m.contains(m[2]) && m.contains(m[3]));
    }
}

/// A number is told as it is, with its sign; a code that is not there as null.
pub proof fn law_numbers_are_told_with_their_sign(n: i32)
    ensures
        n >= 0 ==> number_json(n as int) == JsonModel::Whole(n as u64),
        n < 0 ==> number_json(n as int) == JsonModel::Negative(n as i64),
        code_json(Some(n)) == number_json(n as int),
        code_json(None) is Null,
{
}

/// A request is made with the method and the body that it names; without them it
/// is a GET without a body.
pub proof fn law_requests_are_made_as_asked(options: JsonModel)
    ensures
        json::text_of(json::member(options, "method"@)) matches Some(t) ==> method_in(options) == t,
        json::text_of(json::member(options, "method"@)) is None ==> method_in(options) == "GET"@,
        json::text_of(json::member(options, "body"@)) matches Some(t) ==> body_in(options) == t,
        json::text_of(json::member(options, "body"@)) is None ==> body_in(options).len() == 0,
{
}

} // verus!
