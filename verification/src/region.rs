//! Regions of a circuit: the requests that a chip makes there, and the cells it gets back.
use crate::column::{AdviceColumn, FixedColumn};
use crate::field::{canonical, le_bytes, Felt};
use halo2_proofs::circuit::{AssignedCell, Cell, Region};
use halo2_proofs::pasta::group::ff::PrimeField;
use halo2_proofs::pasta::Fp;
use halo2_proofs::plonk::Error;
use vstd::prelude::*;

verus! {

/// A pointer to a cell; opaque here.
#[verifier::external_type_specification]
#[verifier::external_body]
pub struct ExCell(Cell);

/// An error of the proof system; opaque here.
#[verifier::external_type_specification]
#[verifier::external_body]
pub struct ExError(Error);

/// Why an instruction of the chip failed.
#[derive(Debug)]
pub enum ChipError {
    /// A request to the region was refused; this is the error that came back.
    Refused(Error),
}

/// The region in which a chip assigns cells. The layouter behind it decides where the region
/// lies, which values it asks for and which requests it refuses.
#[verifier::external_body]
pub struct ChipRegion<'a, 'r>(pub &'a mut Region<'r, Fp>);

/// A cell that was assigned, with its value where that is known.
#[verifier::external_body]
#[derive(Debug)]
pub struct AssignedWord(pub AssignedCell<Fp, Fp>);

/// A request to a region. Offsets count rows from the start of the region.
pub enum Request {
    /// Assign an advice cell. Without a value, no witness is at hand.
    Advice { label: Seq<char>, column: AdviceColumn, offset: nat, value: Option<int> },
    /// Assign a fixed cell.
    Fixed { label: Seq<char>, column: FixedColumn, offset: nat, value: int },
    /// Assign an advice cell and tie it to a constant.
    Constant { label: Seq<char>, column: AdviceColumn, offset: nat, value: int },
    /// Assign an advice cell the value of another cell and tie the two together.
    Copy { label: Seq<char>, source: AssignedWord, column: AdviceColumn, offset: nat },
    /// Tie two cells together.
    Equal { left: Cell, right: Cell },
}

/// What a region answers to a request.
pub enum Reply {
    /// A cell was assigned: this one came back, with its value if the region asked for it.
    Assigned(AssignedWord),
    /// Two cells were tied together.
    Tied,
    /// The request was refused with this error.
    Refused(Error),
}

/// A request that was made, and the reply to it.
pub struct Event {
    pub request: Request,
    pub reply: Reply,
}

/// The requests that were made to a region, in order, with the replies to them.
pub uninterp spec fn history(region: ChipRegion<'_, '_>) -> Seq<Event>;

/// The layouter behind a region knows where a cell lies: it has the region of the cell, and a row
/// for it. Of cells of another layouter that need not hold.
pub uninterp spec fn within_reach(region: ChipRegion<'_, '_>, cell: Cell) -> bool;

impl<'a, 'r> View for ChipRegion<'a, 'r> {
    type V = Seq<Event>;

    open spec fn view(&self) -> Seq<Event> {
        history(*self)
    }
}

/// Whatever cell was within reach of a region still is.
pub open spec fn keeps_reach(before: ChipRegion<'_, '_>, after: ChipRegion<'_, '_>) -> bool {
    forall|cell: Cell| within_reach(before, cell) ==> #[trigger] within_reach(after, cell)
}

/// The event of a request that assigns a cell.
pub open spec fn assignment(request: Request, outcome: Result<AssignedWord, Error>) -> Event {
    Event {
        request,
        reply: match outcome {
            Ok(word) => Reply::Assigned(word),
            Err(error) => Reply::Refused(error),
        },
    }
}

/// The refusal that an error reports.
pub open spec fn refused(error: ChipError) -> Option<Error> {
    match error {
        ChipError::Refused(error) => Some(error),
    }
}

/// The error with which an instruction failed, if it did.
pub open spec fn refusal<T>(outcome: Result<T, ChipError>) -> Option<Error> {
    match outcome {
        Ok(_) => None,
        Err(error) => refused(error),
    }
}

/// What `AssignedCell::value` returns: the value of an assigned cell, if it is known.
pub uninterp spec fn assigned_value(word: AssignedWord) -> Option<int>;

/// What `AssignedCell::cell` returns: the cell itself.
pub uninterp spec fn assigned_cell(word: AssignedWord) -> Cell;

impl AssignedWord {
    /// The value of the word, if it is known.
    pub open spec fn value(self) -> Option<int> {
        assigned_value(self)
    }

    /// The value of the word is `requested`, unless it is not known.
    pub open spec fn settled(self, requested: Option<int>) -> bool {
        self.value() is None || self.value() == requested
    }
}

impl Clone for AssignedWord {
    /// `AssignedCell::clone`: the same cell with the same value.
    #[verifier::external_body]
    fn clone(&self) -> (r: Self)
        ensures
            r == *self,
    {
        AssignedWord(self.0.clone())
    }
}

/// `AssignedCell::value`, encoded by `PrimeField::to_repr`.
#[verifier::external_body]
fn cell_value(word: &AssignedWord) -> (r: Option<[u8; 32]>)
    ensures
        match r {
            Some(repr) => canonical(repr) && assigned_value(*word) == Some(
                le_bytes(repr@) as int,
            ),
            None => assigned_value(*word) is None,
        },
{
    word.0.value().map(|element| element.to_repr())
}

/// `AssignedCell::cell`.
#[verifier::external_body]
pub(crate) fn cell(word: &AssignedWord) -> (r: Cell)
    ensures
        r == assigned_cell(*word),
{
    word.0.cell()
}

/// The value of an assigned cell, if it is known.
pub fn word_value(word: &AssignedWord) -> (r: Option<Felt>)
    ensures
        match r {
            Some(f) => word.value() == Some(f@) && assigned_value(*word) == Some(f@),
            None => word.value() is None && assigned_value(*word) is None,
        },
{
    match cell_value(word) {
        Some(repr) => Felt::from_repr(repr),
        None => None,
    }
}

/// The value of a word is what the region knows of its cell, a word is settled on a value if it has
/// that one or none, and the refusal that an error reports is the error of the proof system in it.
pub proof fn law_words_and_refusals(word: AssignedWord, requested: Option<int>, error: Error)
    ensures
        word.value() == assigned_value(word),
        word.settled(requested) <==> assigned_value(word) is None || assigned_value(word)
            == requested,
        refused(ChipError::Refused(error)) == Some(error),
        refusal(Err::<(), ChipError>(ChipError::Refused(error))) == Some(error),
        refusal(Ok::<(), ChipError>(())) is None,
{
}

/// The residue of an optional element.
pub open spec fn residue(value: Option<Felt>) -> Option<int> {
    match value {
        Some(f) => Some(f@),
        None => None,
    }
}

/// `Region::assign_advice` with a closure that yields `value`, and the error `Synthesis` where
/// there is none. The region decides whether to ask the closure: the cell that comes back holds
/// the value if it did, and none otherwise. The layouter knows the cell that comes back, and still
/// knows those that it knew.
#[verifier::external_body]
pub(crate) fn assign_advice(
    region: &mut ChipRegion<'_, '_>,
    label: &str,
    column: AdviceColumn,
    offset: usize,
    value: Option<Felt>,
) -> (r: Result<AssignedWord, Error>)
    requires
        offset < usize::MAX,
    ensures
        history(*final(region)) == history(*old(region)).push(
            assignment(
                (Request::Advice {
                    label: label@,
                    column,
                    offset: offset as nat,
                    value: residue(value),
                }),
                r,
            ),
        ),
        r matches Ok(word) ==> {
            &&& assigned_value(word) is None || assigned_value(word) == residue(value)
            &&& within_reach(*final(region), assigned_cell(word))
        },
        forall|c: Cell| within_reach(*old(region), c) ==> #[trigger] within_reach(*final(region), c),
{
    let element = value.map(|v| Fp::from_repr(v.repr).unwrap());
    region.0
        .assign_advice(|| label, column.0, offset, || element.ok_or(Error::Synthesis))
        .map(AssignedWord)
}

/// `Region::assign_fixed` with a closure that yields `value`. The region decides whether to ask
/// the closure: the cell that comes back holds the value if it did, and none otherwise. The
/// layouter knows the cell that comes back, and still knows those that it knew.
#[verifier::external_body]
pub(crate) fn assign_fixed(
    region: &mut ChipRegion<'_, '_>,
    label: &str,
    column: FixedColumn,
    offset: usize,
    value: Felt,
) -> (r: Result<AssignedWord, Error>)
    requires
        offset < usize::MAX,
    ensures
        history(*final(region)) == history(*old(region)).push(
            assignment(
                (Request::Fixed { label: label@, column, offset: offset as nat, value: value@ }),
                r,
            ),
        ),
        r matches Ok(word) ==> {
            &&& assigned_value(word) is None || assigned_value(word) == Some(value@)
            &&& within_reach(*final(region), assigned_cell(word))
        },
        forall|c: Cell| within_reach(*old(region), c) ==> #[trigger] within_reach(*final(region), c),
{
    let element = Fp::from_repr(value.repr).unwrap();
    region.0.assign_fixed(|| label, column.0, offset, || Ok(element)).map(AssignedWord)
}

/// `Region::assign_advice_from_constant`: the cell that comes back always holds the constant. The
/// layouter knows it, and still knows those that it knew.
#[verifier::external_body]
pub(crate) fn assign_constant(
    region: &mut ChipRegion<'_, '_>,
    label: &str,
    column: AdviceColumn,
    offset: usize,
    value: Felt,
) -> (r: Result<AssignedWord, Error>)
    requires
        offset < usize::MAX,
    ensures
        history(*final(region)) == history(*old(region)).push(
            assignment(
                (Request::Constant { label: label@, column, offset: offset as nat, value: value@ }),
                r,
            ),
        ),
        r matches Ok(word) ==> {
            &&& assigned_value(word) == Some(value@)
            &&& within_reach(*final(region), assigned_cell(word))
        },
        forall|c: Cell| within_reach(*old(region), c) ==> #[trigger] within_reach(*final(region), c),
{
    let element = Fp::from_repr(value.repr).unwrap();
    region.0.assign_advice_from_constant(|| label, column.0, offset, element).map(AssignedWord)
}

/// `AssignedCell::copy_advice`: the cell that comes back holds the value of the source if the
/// region asked for it, and none otherwise. The layouter has to know the source. It knows the cell
/// that comes back, and still knows those that it knew.
#[verifier::external_body]
pub(crate) fn copy_advice(
    source: &AssignedWord,
    region: &mut ChipRegion<'_, '_>,
    label: &str,
    column: AdviceColumn,
    offset: usize,
) -> (r: Result<AssignedWord, Error>)
    requires
        offset < usize::MAX,
        within_reach(*old(region), assigned_cell(*source)),
    ensures
        history(*final(region)) == history(*old(region)).push(
            assignment(
                (Request::Copy { label: label@, source: *source, column, offset: offset as nat }),
                r,
            ),
        ),
        r matches Ok(word) ==> {
            &&& assigned_value(word) is None || assigned_value(word) == assigned_value(*source)
            &&& within_reach(*final(region), assigned_cell(word))
        },
        forall|c: Cell| within_reach(*old(region), c) ==> #[trigger] within_reach(*final(region), c),
{
    source.0.copy_advice(|| label, &mut *region.0, column.0, offset).map(AssignedWord)
}

/// `Region::constrain_equal`: ties two cells together. The layouter has to know both, and still
/// knows those that it knew.
#[verifier::external_body]
pub(crate) fn constrain_equal(region: &mut ChipRegion<'_, '_>, left: Cell, right: Cell) -> (r:
    Result<(), Error>)
    requires
        within_reach(*old(region), left),
        within_reach(*old(region), right),
    ensures
        history(*final(region)) == history(*old(region)).push(
            (Event {
                request: Request::Equal { left, right },
                reply: match r {
                    Ok(_) => Reply::Tied,
                    Err(error) => Reply::Refused(error),
                },
            }),
        ),
        forall|c: Cell| within_reach(*old(region), c) ==> #[trigger] within_reach(*final(region), c),
{
    region.0.constrain_equal(left, right)
}

} // verus!
