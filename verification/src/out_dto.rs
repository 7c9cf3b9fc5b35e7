use vstd::prelude::*;

use crate::error::JesdError;
use crate::jesd84_b51::{Jesd84B51, CSD_BYTES};
use crate::sheet_orm::{SheetOrm, SheetOrmObj};

verus! {

/// One looked-up field: its number, its name and the register bytes its
/// CSD slice selects.
#[derive(Debug)]
pub struct OutDtoObj {
    pub id: u16,
    pub name: String,
    pub data: Vec<u8>,
}

/// The looked-up fields of a sheet, in the order of the sheet.
#[derive(Debug)]
pub struct OutDto {
    array: Vec<OutDtoObj>,
}

impl View for OutDto {
    type V = Seq<OutDtoObj>;

    closed spec fn view(&self) -> Seq<OutDtoObj> {
        self.array@
    }
}

/// The register bytes that a CSD slice selects. `[hi, lo]` (as the sheet
/// writes `[hi:lo]`) selects the bytes from `lo` up to but not including `hi`,
/// and is out of bounds when `hi` lies past the end of the register; `[n]`
/// selects the byte at `n`; a slice of any other length is refused.
pub open spec fn spec_search_binary(csd: Seq<u16>, bytes: Seq<u8>) -> Result<Seq<u8>, JesdError> {
    if csd.len() == 2 {
        if csd[0] > bytes.len() {
            Err(JesdError::IndexOutOfBounds)
        } else {
            Ok(bytes.subrange(csd[1] as int, csd[0] as int))
        }
    } else if csd.len() == 1 {
        Ok(seq![bytes[csd[0] as int]])
    } else {
        Err(JesdError::BadSliceLength)
    }
}

/// The slice selects no range of the register that can be taken: a pair
/// whose low bound lies above its high bound, or a single index past the end.
pub open spec fn search_faults(csd: Seq<u16>, bytes: Seq<u8>) -> bool {
    ||| csd.len() == 2 && csd[0] <= bytes.len() && csd[1] > csd[0]
    ||| csd.len() == 1 && csd[0] >= bytes.len()
}

/// The lookup of a sheet entry in a register dump.
pub open spec fn spec_search_item(item: SheetOrmObj, jesd: Jesd84B51) -> Result<Seq<u8>, JesdError> {
    spec_search_binary(item.data.csd_slice@, jesd.bytes@)
}

/// The lookups of the first `i` entries all succeed.
pub open spec fn searches_ok_before(items: Seq<SheetOrmObj>, jesd: Jesd84B51, i: int) -> bool {
    forall|j: int| 0 <= j < i ==> (#[trigger] spec_search_item(items[j], jesd)) is Ok
}

/// Looking the entries up in order reaches an entry whose slice cannot be
/// taken from the register before it meets a refused entry.
pub open spec fn out_dto_faults(items: Seq<SheetOrmObj>, jesd: Jesd84B51) -> bool {
    exists|i: int|
        0 <= i < items.len() && #[trigger] searches_ok_before(items, jesd, i) && search_faults(
            items[i].data.csd_slice@,
            jesd.bytes@,
        )
}

/// `o` is the looked-up form of `item`, with the bytes `data`.
pub open spec fn out_obj_of(o: OutDtoObj, item: SheetOrmObj, data: Seq<u8>) -> bool {
    &&& o.id == item.id
    &&& o.name@ == item.data.name@
    &&& o.data@ == data
}

/// The register bytes that the CSD slice of `obj` selects (see
/// `spec_search_binary`).
pub fn search_binary(obj: &SheetOrmObj, jesd84_b51: &Jesd84B51) -> (r: Result<Vec<u8>, JesdError>)
    requires
        !search_faults(obj.data.csd_slice@, jesd84_b51.bytes@),
    ensures
        match r {
            Ok(v) => spec_search_item(*obj, *jesd84_b51) == Ok::<Seq<u8>, JesdError>(v@),
            Err(e) => spec_search_item(*obj, *jesd84_b51) == Err::<Seq<u8>, JesdError>(e),
        },
{
    let csd = &obj.data.csd_slice;
    let bytes = &jesd84_b51.bytes;
    if csd.len() == 2 {
        let prev = csd[1] as usize;
        let next = csd[0] as usize;
        if next > bytes.len() {
            return Err(JesdError::IndexOutOfBounds);
        }
        let mut v: Vec<u8> = Vec::new();
        let mut i = prev;
        while i < next
            invariant
                prev <= i <= next <= bytes@.len(),
                v@ == bytes@.subrange(prev as int, i as int),
            decreases next - i,
        {
            v.push(bytes[i]);
            i = i + 1;
            assert(v@ =~= bytes@.subrange(prev as int, i as int));
        }
        Ok(v)
    } else if csd.len() == 1 {
        let prev = csd[0] as usize;
        let mut v: Vec<u8> = Vec::new();
        v.push(bytes[prev]);
        assert(v@ =~= seq![bytes@[prev as int]]);
        Ok(v)
    } else {
        Err(JesdError::BadSliceLength)
    }
}

/// The lookup of a slice: a pair `[hi, lo]` with `lo <= hi <= len` always
/// succeeds with the `hi - lo` bytes from `lo` on, in register order; a single
/// index inside the register succeeds with that one byte; and the lookup
/// fails only on a slice of neither one nor two bounds, or a pair whose `hi`
/// lies past the end of the register.
pub proof fn lemma_search_selects(csd: Seq<u16>, bytes: Seq<u8>)
    ensures
        csd.len() == 2 && csd[1] <= csd[0] <= bytes.len() ==> {
            &&& spec_search_binary(csd, bytes) is Ok
            &&& spec_search_binary(csd, bytes)->Ok_0.len() == csd[0] - csd[1]
            &&& forall|i: int|
                0 <= i < csd[0] - csd[1] ==> #[trigger] spec_search_binary(csd, bytes)->Ok_0[i]
                    == bytes[csd[1] + i]
        },
        csd.len() == 1 && csd[0] < bytes.len() ==> spec_search_binary(csd, bytes) == Ok::<
            Seq<u8>,
            JesdError,
        >(seq![bytes[csd[0] as int]]),
        spec_search_binary(csd, bytes) is Err ==> (csd.len() != 1 && csd.len() != 2) || (csd.len()
            == 2 && csd[0] > bytes.len()),
{
}

/// The fields that `OutDto::new` gives keep, entry by entry, the id and
/// name of the sheet entry, and hold exactly the register bytes its slice
/// selects, in register order: `data[j]` is the byte at `lo + j`.
pub proof fn lemma_looked_up_bytes(dto: Seq<OutDtoObj>, items: Seq<SheetOrmObj>, jesd: Jesd84B51)
    requires
        dto.len() == items.len(),
        forall|i: int|
            0 <= i < dto.len() ==> out_obj_of(
                #[trigger] dto[i],
                items[i],
                spec_search_item(items[i], jesd)->Ok_0,
            ),
        searches_ok_before(items, jesd, items.len() as int),
        !out_dto_faults(items, jesd),
    ensures
        forall|i: int|
            0 <= i < dto.len() ==> {
                let csd = items[i].data.csd_slice@;
                let lo = if csd.len() == 2 {
                    csd[1] as int
                } else {
                    csd[0] as int
                };
                &&& (#[trigger] dto[i]).id == items[i].id
                &&& dto[i].name@ == items[i].data.name@
                &&& dto[i].data@.len() == (if csd.len() == 2 {
                    csd[0] - csd[1]
                } else {
                    1
                })
                &&& forall|j: int|
                    0 <= j < dto[i].data@.len() ==> #[trigger] dto[i].data@[j] == jesd.bytes@[lo + j]
            },
{
    assert forall|i: int| 0 <= i < dto.len() implies {
        let csd = items[i].data.csd_slice@;
        let lo = if csd.len() == 2 {
            csd[1] as int
        } else {
            csd[0] as int
        };
        &&& (#[trigger] dto[i]).id == items[i].id
        &&& dto[i].name@ == items[i].data.name@
        &&& dto[i].data@.len() == (if csd.len() == 2 {
            csd[0] - csd[1]
        } else {
            1
        })
        &&& forall|j: int|
            0 <= j < dto[i].data@.len() ==> #[trigger] dto[i].data@[j] == jesd.bytes@[lo + j]
    } by {
        let csd = items[i].data.csd_slice@;
        assert(searches_ok_before(items, jesd, i));
        assert(spec_search_item(items[i], jesd) is Ok);
        assert(!search_faults(csd, jesd.bytes@));
        lemma_search_selects(csd, jesd.bytes@);
        assert(out_obj_of(dto[i], items[i], spec_search_item(items[i], jesd)->Ok_0));
    }
}

impl OutDto {
    /// Looks every entry of the sheet up in the register dump, in order; the
    /// first refused entry makes the whole lookup fail with its error.
    pub fn new(sheet_orm: &SheetOrm, jesd84_b51: &Jesd84B51) -> (r: Result<OutDto, JesdError>)
        requires
            !out_dto_faults(sheet_orm@, *jesd84_b51),
        ensures
            r is Ok <==> searches_ok_before(sheet_orm@, *jesd84_b51, sheet_orm@.len() as int),
            r matches Ok(dto) ==> {
                &&& dto@.len() == sheet_orm@.len()
                &&& forall|i: int|
                    0 <= i < dto@.len() ==> out_obj_of(
                        #[trigger] dto@[i],
                        sheet_orm@[i],
                        spec_search_item(sheet_orm@[i], *jesd84_b51)->Ok_0,
                    )
            },
            r matches Err(e) ==> exists|i: int|
                0 <= i < sheet_orm@.len() && #[trigger] searches_ok_before(
                    sheet_orm@,
                    *jesd84_b51,
                    i,
                ) && spec_search_item(sheet_orm@[i], *jesd84_b51) == Err::<Seq<u8>, JesdError>(e),
    {
        let items = sheet_orm.items();
        let mut vec: Vec<OutDtoObj> = Vec::new();
        let mut k: usize = 0;
        while k < items.len()
            invariant
                items@ == sheet_orm@,
                !out_dto_faults(sheet_orm@, *jesd84_b51),
                k <= items@.len(),
                vec@.len() == k,
                searches_ok_before(sheet_orm@, *jesd84_b51, k as int),
                forall|i: int|
                    0 <= i < k ==> out_obj_of(
                        #[trigger] vec@[i],
                        sheet_orm@[i],
                        spec_search_item(sheet_orm@[i], *jesd84_b51)->Ok_0,
                    ),
            decreases items@.len() - k,
        {
            let item = &items[k];
            assert(!search_faults(item.data.csd_slice@, jesd84_b51.bytes@)) by {
                if search_faults(item.data.csd_slice@, jesd84_b51.bytes@) {
                    assert(searches_ok_before(sheet_orm@, *jesd84_b51, k as int));
                    assert(out_dto_faults(sheet_orm@, *jesd84_b51));
                }
            }
            let data = match search_binary(item, jesd84_b51) {
                Ok(d) => d,
                Err(e) => {
                    assert(searches_ok_before(sheet_orm@, *jesd84_b51, k as int));
                    return Err(e);
                },
            };
            let obj = OutDtoObj { id: item.id, name: item.data.name.clone(), data };
            vec.push(obj);
            k = k + 1;
            assert(searches_ok_before(sheet_orm@, *jesd84_b51, k as int));
        }
        Ok(OutDto { array: vec })
    }

    /// Whether `new` can look the sheet up in the register dump without
    /// meeting a slice that cannot be taken (see `out_dto_faults`).
    pub fn slices_in_range(sheet_orm: &SheetOrm, jesd84_b51: &Jesd84B51) -> (r: bool)
        ensures
            r == !out_dto_faults(sheet_orm@, *jesd84_b51),
    {
        let items = sheet_orm.items();
        let mut k: usize = 0;
        while k < items.len()
            invariant
                items@ == sheet_orm@,
                k <= items@.len(),
                searches_ok_before(sheet_orm@, *jesd84_b51, k as int),
                forall|i: int|
                    0 <= i < k ==> !search_faults(
                        #[trigger] sheet_orm@[i].data.csd_slice@,
                        jesd84_b51.bytes@,
                    ),
            decreases items@.len() - k,
        {
            let csd = &items[k].data.csd_slice;
            let n = csd.len();
            let faults = (n == 2 && csd[0] as usize <= CSD_BYTES && csd[1] > csd[0]) || (n == 1
                && csd[0] as usize >= CSD_BYTES);
            if faults {
                assert(searches_ok_before(sheet_orm@, *jesd84_b51, k as int));
                return false;
            }
            if n == 2 && csd[0] as usize > CSD_BYTES || n != 1 && n != 2 {
                assert forall|i: int|
                    0 <= i < sheet_orm@.len() && #[trigger] searches_ok_before(
                        sheet_orm@,
                        *jesd84_b51,
                        i,
                    ) implies !search_faults(
                    sheet_orm@[i].data.csd_slice@,
                    jesd84_b51.bytes@,
                ) by {
                    if i > k {
                        assert(spec_search_item(sheet_orm@[k as int], *jesd84_b51) is Ok);
                    }
                }
                return true;
            }
            k = k + 1;
        }
        true
    }

    /// The looked-up fields given, in order.
    pub fn from_objs(array: Vec<OutDtoObj>) -> (r: OutDto)
        ensures
            r@ == array@,
    {
        OutDto { array }
    }

    /// The looked-up fields, in the order of the sheet.
    pub fn objs(&self) -> (r: &[OutDtoObj])
        ensures
            r@ == self@,
    {
        self.array.as_slice()
    }
}

} // verus!
