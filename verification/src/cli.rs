use prettytable::{Cell, Row, Table};
use vstd::prelude::*;
use vstd::string::StringExecFns;

use crate::out_dto::{OutDto, OutDtoObj};
use crate::csd_slice::{lemma_split_whole, split_on};
use crate::text::{
    debug_bytes, dec_chars, lemma_debug_bytes_chars, lemma_debug_bytes_lists_all,
    lemma_dec_chars, lists_decimals, push_debug_bytes, push_decimal, str_chars,
};

verus! {

/// The command line of the program: the field sheet (JSON) and the register
/// dump (text) to read.
#[derive(Debug)]
pub struct Cli {
    pub json_file: String,
    pub binary_file: String,
}

/// `prettytable::Table`, a printable table of text cells.
#[verifier::external_type_specification]
#[verifier::external_body]
pub struct ExTable(Table);

/// The rows of a table, each as the texts of its cells (see `cell_text`).
pub uninterp spec fn table_rows(t: Table) -> Seq<Seq<Seq<char>>>;

/// The table prints in the style `FORMAT_NO_BORDER_LINE_SEPARATOR`: no outer
/// border, `|` between columns, a padding of one space on each side of a
/// cell, and a line of `-` and `+` below the titles, if any.
pub uninterp spec fn table_format_no_border_line_separator(t: Table) -> bool;

/// `p` without one trailing carriage return, if it has one.
pub open spec fn strip_cr(p: Seq<char>) -> Seq<char> {
    if p.len() > 0 && p.last() == '\r' {
        p.drop_last()
    } else {
        p
    }
}

/// The lines of `s` as `str::lines` gives them: the pieces between newlines,
/// a piece ended by a newline losing one trailing carriage return, and a
/// last piece that is empty left out.
pub open spec fn text_lines(s: Seq<char>) -> Seq<Seq<char>> {
    let parts = split_on(s, '\n');
    let ended = parts.drop_last().map_values(|p: Seq<char>| strip_cr(p));
    if parts.last().len() == 0 {
        ended
    } else {
        ended.push(parts.last())
    }
}

/// Lines joined by newlines.
pub open spec fn join_lines(ls: Seq<Seq<char>>) -> Seq<char>
    decreases ls.len(),
{
    if ls.len() == 0 {
        Seq::empty()
    } else if ls.len() == 1 {
        ls[0]
    } else {
        join_lines(ls.drop_last()) + seq!['\n'] + ls.last()
    }
}

/// The text that a cell made by `prettytable::Cell::new` from `s` holds: the
/// lines of `s` joined by newlines.
pub open spec fn cell_text(s: Seq<char>) -> Seq<char> {
    join_lines(text_lines(s))
}

/// `s` holds an escape character directly followed by `[`, the start of a
/// terminal escape sequence that `Cell::new` measures apart.
pub open spec fn opens_escape(s: Seq<char>) -> bool {
    exists|i: int| 0 <= i < s.len() - 1 && #[trigger] escape_at(s, i)
}

/// An escape character at `i`, followed by `[`.
pub open spec fn escape_at(s: Seq<char>, i: int) -> bool {
    s[i] == '\u{1b}' && s[i + 1] == '['
}

/// A text without a newline is kept as it is by a cell.
pub proof fn lemma_cell_text_plain(s: Seq<char>)
    requires
        !s.contains('\n'),
    ensures
        cell_text(s) == s,
{
    lemma_split_whole(s, '\n');
    let parts = split_on(s, '\n');
    assert(parts.drop_last().map_values(|p: Seq<char>| strip_cr(p)) =~= Seq::<Seq<char>>::empty());
    if s.len() == 0 {
        assert(text_lines(s) =~= Seq::<Seq<char>>::empty());
    } else {
        assert(text_lines(s) =~= seq![s]);
    }
}

/// `prettytable::Table::new`. Claimed: the new table has no rows. Its format
/// (the crate's default one) is not stated.
#[verifier::external_body]
fn table_new() -> (t: Table)
    ensures
        table_rows(t) == Seq::<Seq<Seq<char>>>::empty(),
{
    Table::new()
}

/// `prettytable::Table::add_row`, with the row made by `Row::new` of cells
/// made by `Cell::new` from `cells`. Claimed: the row is appended after the
/// existing ones, each cell holding `cell_text` of its string, and the
/// format is unchanged. `Cell::new` measures the width of each line and
/// asserts that the characters it counts inside a terminal escape sequence
/// do not outnumber that width; a text that never opens an escape sequence
/// passes that assertion, so the call is made only with such texts.
#[verifier::external_body]
fn table_add_row(t: &mut Table, cells: Vec<String>)
    requires
        forall|k: int| 0 <= k < cells@.len() ==> !opens_escape(#[trigger] cells@[k]@),
    ensures
        table_rows(*final(t)).len() == table_rows(*old(t)).len() + 1,
        table_rows(*final(t)).drop_last() == table_rows(*old(t)),
        table_rows(*final(t)).last().len() == cells@.len(),
        forall|k: int|
            0 <= k < cells@.len() ==> #[trigger] table_rows(*final(t)).last()[k] == cell_text(
                cells@[k]@,
            ),
        table_format_no_border_line_separator(*final(t)) == table_format_no_border_line_separator(
            *old(t),
        ),
{
    t.add_row(Row::new(cells.iter().map(|c| Cell::new(c)).collect()));
}

/// `prettytable::Table::set_format` with
/// `format::consts::FORMAT_NO_BORDER_LINE_SEPARATOR`. Claimed: the rows are
/// unchanged and the table now has that format.
#[verifier::external_body]
fn table_set_no_border_line_separator(t: &mut Table)
    ensures
        table_rows(*final(t)) == table_rows(*old(t)),
        table_format_no_border_line_separator(*final(t)),
{
    t.set_format(*prettytable::format::consts::FORMAT_NO_BORDER_LINE_SEPARATOR);
}

/// The header row of the table of looked-up fields.
pub open spec fn header_row() -> Seq<Seq<char>> {
    seq![cell_text("ID"@), cell_text("Name"@), cell_text("Data"@)]
}

/// The table row of one looked-up field: its id, its name, and its bytes
/// as `{:?}` shows them.
pub open spec fn field_row(o: OutDtoObj) -> Seq<Seq<char>> {
    seq![cell_text(dec_chars(o.id as nat)), cell_text(o.name@), cell_text(debug_bytes(o.data@))]
}

/// A text that holds no newline.
proof fn lemma_no_newline(s: Seq<char>)
    requires
        forall|i: int| 0 <= i < s.len() ==> s[i] != '\n',
    ensures
        !s.contains('\n'),
{
    if s.contains('\n') {
        let i = choose|i: int| 0 <= i < s.len() && s[i] == '\n';
        assert(s[i] != '\n');
    }
}

/// The rows of the table of fields: after the header, row `i + 1` shows
/// field `i`: its id in decimal, its name, and all of its bytes, in order,
/// each in decimal, between `[` and `]` and separated by `, `.
pub proof fn lemma_table_rows_show_fields(objs: Seq<OutDtoObj>, rows: Seq<Seq<Seq<char>>>)
    requires
        rows == seq![header_row()] + objs.map_values(|o: OutDtoObj| field_row(o)),
    ensures
        rows.len() == objs.len() + 1,
        rows[0] == seq!["ID"@, "Name"@, "Data"@],
        forall|i: int|
            0 <= i < objs.len() ==> {
                let row = #[trigger] rows[i + 1];
                let data = row[2];
                &&& row.len() == 3
                &&& row[0] == dec_chars(objs[i].id as nat)
                &&& row[1] == cell_text(objs[i].name@)
                &&& data.len() >= 2
                &&& data[0] == '['
                &&& data.last() == ']'
                &&& lists_decimals(data.subrange(1, data.len() - 1), objs[i].data@)
            },
{
    reveal_strlit("ID");
    reveal_strlit("Name");
    reveal_strlit("Data");
    lemma_no_newline("ID"@);
    lemma_no_newline("Name"@);
    lemma_no_newline("Data"@);
    lemma_cell_text_plain("ID"@);
    lemma_cell_text_plain("Name"@);
    lemma_cell_text_plain("Data"@);
    assert(rows[0] =~= seq!["ID"@, "Name"@, "Data"@]);
    assert forall|i: int| 0 <= i < objs.len() implies {
        let row = #[trigger] rows[i + 1];
        let data = row[2];
        &&& row.len() == 3
        &&& row[0] == dec_chars(objs[i].id as nat)
        &&& row[1] == cell_text(objs[i].name@)
        &&& data.len() >= 2
        &&& data[0] == '['
        &&& data.last() == ']'
        &&& lists_decimals(data.subrange(1, data.len() - 1), objs[i].data@)
    } by {
        let o = objs[i];
        assert(rows[i + 1] == field_row(o));
        let id = dec_chars(o.id as nat);
        lemma_dec_chars(o.id as nat);
        assert forall|k: int| 0 <= k < id.len() implies id[k] != '\n' by {
            assert('0' <= id[k]);
        }
        lemma_no_newline(id);
        lemma_cell_text_plain(id);
        let db = debug_bytes(o.data@);
        lemma_debug_bytes_chars(o.data@);
        assert forall|k: int| 0 <= k < db.len() implies db[k] != '\n' by {
            let c = db[k];
            assert(('0' <= c && c <= '9') || c == ',' || c == ' ' || c == '[' || c == ']');
        }
        lemma_no_newline(db);
        lemma_cell_text_plain(db);
        lemma_debug_bytes_lists_all(o.data@);
    }
}

/// No field name opens a terminal escape sequence, so that every cell of
/// the table of the fields can be made.
pub open spec fn names_printable(objs: Seq<OutDtoObj>) -> bool {
    forall|i: int| 0 <= i < objs.len() ==> !opens_escape(#[trigger] objs[i].name@)
}

/// A text of which no character is an escape character.
proof fn lemma_no_escape(s: Seq<char>)
    requires
        forall|i: int| 0 <= i < s.len() ==> s[i] != '\u{1b}',
    ensures
        !opens_escape(s),
{
    if opens_escape(s) {
        let i = choose|i: int| 0 <= i < s.len() - 1 && #[trigger] escape_at(s, i);
        assert(s[i] != '\u{1b}');
    }
}

/// Whether every cell of the table of `out_dto` can be made (see
/// `names_printable`).
pub fn table_printable(out_dto: &OutDto) -> (r: bool)
    ensures
        r == names_printable(out_dto@),
{
    let objs = out_dto.objs();
    let mut i: usize = 0;
    while i < objs.len()
        invariant
            objs@ == out_dto@,
            i <= objs@.len(),
            forall|j: int| 0 <= j < i ==> !opens_escape(#[trigger] objs@[j].name@),
        decreases objs@.len() - i,
    {
        let name = str_chars(objs[i].name.as_str());
        let n = name.len();
        let mut k: usize = 0;
        while k + 1 < n
            invariant
                objs@ == out_dto@,
                i < objs@.len(),
                n == name@.len(),
                k == 0 || k < n,
                name@ == objs@[i as int].name@,
                forall|m: int| 0 <= m < k ==> !#[trigger] escape_at(name@, m),
            decreases name@.len() - k,
        {
            if name[k] == '\u{1b}' && name[k + 1] == '[' {
                assert(escape_at(name@, k as int));
                assert(opens_escape(objs@[i as int].name@));
                return false;
            }
            k = k + 1;
        }
        assert(!opens_escape(objs@[i as int].name@)) by {
            if opens_escape(name@) {
                let m = choose|m: int| 0 <= m < name@.len() - 1 && #[trigger] escape_at(name@, m);
                assert(!escape_at(name@, m));
            }
        }
        i = i + 1;
    }
    true
}

/// A table of the looked-up fields: a header row `ID`, `Name`, `Data`, then
/// one row per field in order, printed without outer border.
pub fn make_table(out_dto: OutDto) -> (t: Table)
    requires
        names_printable(out_dto@),
    ensures
        table_rows(t) == seq![header_row()] + out_dto@.map_values(|o: OutDtoObj| field_row(o)),
        table_format_no_border_line_separator(t),
{
    let mut table = table_new();
    let mut header: Vec<String> = Vec::new();
    header.push(String::from_str("ID"));
    header.push(String::from_str("Name"));
    header.push(String::from_str("Data"));
    let ghost hs = header@;
    proof {
        reveal_strlit("ID");
        reveal_strlit("Name");
        reveal_strlit("Data");
        lemma_no_escape(hs[0]@);
        lemma_no_escape(hs[1]@);
        lemma_no_escape(hs[2]@);
    }
    table_add_row(&mut table, header);
    proof {
        let last = table_rows(table).last();
        assert(last[0] == cell_text(hs[0]@));
        assert(last[1] == cell_text(hs[1]@));
        assert(last[2] == cell_text(hs[2]@));
        assert(last =~= header_row());
        assert(table_rows(table) =~= table_rows(table).drop_last().push(last));
        assert(table_rows(table) =~= seq![header_row()]);
    }
    let objs = out_dto.objs();
    let mut i: usize = 0;
    while i < objs.len()
        invariant
            objs@ == out_dto@,
            names_printable(out_dto@),
            i <= objs@.len(),
            table_rows(table) == seq![header_row()] + objs@.take(i as int).map_values(
                |o: OutDtoObj| field_row(o),
            ),
        decreases objs@.len() - i,
    {
        let obj = &objs[i];
        let mut id = String::new();
        push_decimal(&mut id, obj.id as u64);
        let mut data = String::new();
        push_debug_bytes(&mut data, obj.data.as_slice());
        let mut row: Vec<String> = Vec::new();
        row.push(id);
        row.push(obj.name.clone());
        row.push(data);
        let ghost rs = row@;
        proof {
            lemma_dec_chars(obj.id as nat);
            lemma_no_escape(rs[0]@);
            assert(!opens_escape(rs[1]@));
            lemma_debug_bytes_chars(obj.data@);
            lemma_no_escape(rs[2]@);
        }
        let ghost before = table_rows(table);
        table_add_row(&mut table, row);
        proof {
            let last = table_rows(table).last();
            assert(last[0] == cell_text(rs[0]@));
            assert(last[1] == cell_text(rs[1]@));
            assert(last[2] == cell_text(rs[2]@));
            assert(last =~= field_row(*obj));
            assert(table_rows(table) =~= before.push(last));
            assert(objs@.take(i + 1).map_values(|o: OutDtoObj| field_row(o)) =~= objs@.take(
                i as int,
            ).map_values(|o: OutDtoObj| field_row(o)).push(field_row(*obj)));
        }
        i = i + 1;
    }
    assert(objs@.take(objs@.len() as int) =~= objs@);
    table_set_no_border_line_separator(&mut table);
    table
}

} // verus!
