use vstd::prelude::*;
use vstd::string::StringExecFns;

use crate::text::{dec_chars, push_decimal};

verus! {

/// The description of one register field, as a field sheet gives it.
#[derive(Debug)]
pub struct Data {
    pub name: String,
    pub field: Option<String>,
    pub size: u8,
    pub type_: String,
    pub csd_slice: Vec<u16>,
}

/// One entry of a field sheet: a field's number and its description.
#[derive(Debug)]
pub struct SheetOrmObj {
    pub id: u16,
    pub data: Data,
}

/// A field sheet: the register fields, in the order the sheet lists them.
#[derive(Debug)]
pub struct SheetOrm {
    array: Vec<SheetOrmObj>,
}

impl View for SheetOrm {
    type V = Seq<SheetOrmObj>;

    closed spec fn view(&self) -> Seq<SheetOrmObj> {
        self.array@
    }
}

impl Data {
    /// A field description with the given name, register field name, size,
    /// access type and CSD slice.
    pub fn new(
        name: String,
        field: Option<String>,
        size: u8,
        type_: String,
        csd_slice: Vec<u16>,
    ) -> (r: Data)
        ensures
            r == (Data { name, field, size, type_, csd_slice }),
    {
        Data { name, field, size, type_, csd_slice }
    }
}

/// The text of a CSD slice in a simplified configuration line: its two
/// bounds separated by `token`; a single bound followed by `token` and
/// `u16::MAX`; or `No CSD Slice`.
pub open spec fn slice_text(csd: Seq<u16>, token: Seq<char>) -> Seq<char> {
    if csd.len() > 1 {
        dec_chars(csd[0] as nat) + token + dec_chars(csd[1] as nat)
    } else if csd.len() == 1 {
        dec_chars(csd[0] as nat) + token + dec_chars(u16::MAX as nat)
    } else {
        "No CSD Slice"@
    }
}

/// The simplified configuration line of one sheet entry: id, name and CSD
/// slice separated by `token`, ended by a newline.
pub open spec fn conf_line(item: SheetOrmObj, token: Seq<char>) -> Seq<char> {
    dec_chars(item.id as nat) + token + item.data.name@ + token + slice_text(
        item.data.csd_slice@,
        token,
    ) + seq!['\n']
}

/// The simplified configuration of sheet entries: one line per entry, in order.
pub open spec fn conf_text(items: Seq<SheetOrmObj>, token: Seq<char>) -> Seq<char>
    decreases items.len(),
{
    if items.len() == 0 {
        Seq::empty()
    } else {
        conf_text(items.drop_last(), token) + conf_line(items.last(), token)
    }
}

/// The simplified configuration of two runs of entries is the one of the
/// first run followed by the one of the second: each entry makes its own
/// line, in order.
pub proof fn lemma_conf_text_concat(a: Seq<SheetOrmObj>, b: Seq<SheetOrmObj>, token: Seq<char>)
    ensures
        conf_text(a + b, token) == conf_text(a, token) + conf_text(b, token),
    decreases b.len(),
{
    if b.len() == 0 {
        assert(a + b =~= a);
        assert(conf_text(a, token) + Seq::<char>::empty() =~= conf_text(a, token));
    } else {
        lemma_conf_text_concat(a, b.drop_last(), token);
        assert((a + b).drop_last() =~= a + b.drop_last());
        assert((a + b).last() == b.last());
    }
}

/// The line of one entry: its id in decimal, `token`, exactly its name
/// (whatever its register field name), `token`, then its CSD slice (both
/// bounds in the order written, or the one bound and `65535`, or
/// `No CSD Slice`), and a newline.
pub proof fn lemma_conf_entry_line(item: SheetOrmObj, token: Seq<char>)
    ensures
        ({
            let line = conf_text(seq![item], token);
            let name = item.data.name@;
            let csd = item.data.csd_slice@;
            let p = dec_chars(item.id as nat) + token;
            let q = p.len() + name.len() as int;
            let tail = if csd.len() > 1 {
                dec_chars(csd[0] as nat) + token + dec_chars(csd[1] as nat)
            } else if csd.len() == 1 {
                dec_chars(csd[0] as nat) + token + dec_chars(65535)
            } else {
                "No CSD Slice"@
            };
            &&& line.len() == q + token.len() + tail.len() + 1
            &&& line.take(p.len() as int) == p
            &&& line.subrange(p.len() as int, q) == name
            &&& line.subrange(q, q + token.len() as int) == token
            &&& line.subrange(q + token.len() as int, line.len() - 1) == tail
            &&& line.last() == '\n'
        }),
{
    let items = seq![item];
    assert(items.drop_last() =~= Seq::<SheetOrmObj>::empty());
    assert(items.last() == item);
    assert(conf_text(items.drop_last(), token) == Seq::<char>::empty());
    let line = conf_text(items, token);
    assert(line == conf_text(items.drop_last(), token) + conf_line(item, token));
    assert(line =~= conf_line(item, token));
    let name = item.data.name@;
    let p = dec_chars(item.id as nat) + token;
    let q = p.len() + name.len() as int;
    assert(line.take(p.len() as int) =~= p);
    assert(line.subrange(p.len() as int, q) =~= name);
    assert(line.subrange(q, q + token.len() as int) =~= token);
    assert(line.subrange(q + token.len() as int, line.len() - 1) =~= slice_text(
        item.data.csd_slice@,
        token,
    ));
}

impl SheetOrm {
    /// A field sheet with the given entries.
    pub fn from_items(array: Vec<SheetOrmObj>) -> (r: SheetOrm)
        ensures
            r@ == array@,
    {
        SheetOrm { array }
    }

    /// The entries of the sheet, in order.
    pub fn items(&self) -> (r: &[SheetOrmObj])
        ensures
            r@ == self@,
    {
        self.array.as_slice()
    }

    /// The number of entries.
    pub fn len(&self) -> (r: usize)
        ensures
            r == self@.len(),
    {
        self.array.len()
    }

    /// The entry at `index`.
    pub fn index(&self, index: usize) -> (r: &SheetOrmObj)
        requires
            index < self@.len(),
        ensures
            *r == self@[index as int],
    {
        &self.array[index]
    }

    /// The simplified configuration of the sheet: for each entry, in order,
    /// a line of its id, name and CSD slice, separated by `token`.
    pub fn gen_simplify_conf(&self, token: &str) -> (r: String)
        ensures
            r@ == conf_text(self@, token@),
    {
        let mut out = String::new();
        let mut i: usize = 0;
        while i < self.array.len()
            invariant
                i <= self.array@.len(),
                out@ == conf_text(self.array@.take(i as int), token@),
            decreases self.array@.len() - i,
        {
            let line = conf_line_of(&self.array[i], token);
            out.append(line.as_str());
            proof {
                assert(self.array@.take(i + 1).drop_last() =~= self.array@.take(i as int));
            }
            i = i + 1;
        }
        assert(self.array@.take(self.array@.len() as int) =~= self.array@);
        out
    }
}

fn push_slice_text(out: &mut String, csd: &Vec<u16>, token: &str)
    ensures
        final(out)@ == old(out)@ + slice_text(csd@, token@),
{
    if csd.len() > 1 {
        push_decimal(out, csd[0] as u64);
        out.append(token);
        push_decimal(out, csd[1] as u64);
    } else if csd.len() == 1 {
        push_decimal(out, csd[0] as u64);
        out.append(token);
        push_decimal(out, 65535);
    } else {
        out.append("No CSD Slice");
    }
}

fn conf_line_of(item: &SheetOrmObj, token: &str) -> (r: String)
    ensures
        r@ == conf_line(*item, token@),
{
    let mut out = String::new();
    push_decimal(&mut out, item.id as u64);
    out.append(token);
    out.append(item.data.name.as_str());
    out.append(token);
    push_slice_text(&mut out, &item.data.csd_slice, token);
    out.append("\n");
    proof {
        reveal_strlit("\n");
    }
    assert(out@ =~= conf_line(*item, token@));
    out
}

} // verus!
