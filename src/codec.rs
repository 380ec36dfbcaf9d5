use vstd::prelude::*;
use crate::grid::CellType;

verus! {

/// The cell a label stands for; any label but the four known ones is a
/// block.
pub open spec fn cell_of_label(s: Seq<char>) -> CellType {
    if s == "start"@ {
        CellType::Start
    } else if s == "destination"@ {
        CellType::Destination
    } else if s == "blank"@ {
        CellType::Blank
    } else {
        CellType::Block
    }
}

/// One of the four labels a grid is written in.
pub open spec fn is_label(s: Seq<char>) -> bool {
    s == "start"@ || s == "destination"@ || s == "blank"@ || s == "block"@
}

pub open spec fn digit_char(d: nat) -> char {
    if d == 0 {
        '0'
    } else if d == 1 {
        '1'
    } else if d == 2 {
        '2'
    } else if d == 3 {
        '3'
    } else if d == 4 {
        '4'
    } else if d == 5 {
        '5'
    } else if d == 6 {
        '6'
    } else if d == 7 {
        '7'
    } else if d == 8 {
        '8'
    } else {
        '9'
    }
}

/// The decimal digits of `n`, without leading zeros.
pub open spec fn decimal(n: nat) -> Seq<char>
    decreases n,
{
    if n < 10 {
        seq![digit_char(n)]
    } else {
        decimal(n / 10).push(digit_char(n % 10))
    }
}

/// The label of a cell; a path cell reads `path-<n>`.
pub open spec fn label_of_cell(c: CellType) -> Seq<char> {
    match c {
        CellType::Start => "start"@,
        CellType::Destination => "destination"@,
        CellType::Blank => "blank"@,
        CellType::Block => "block"@,
        CellType::Visited(n) => "path-"@ + decimal(n as nat),
    }
}

/// `cells` has the shape of `labels`, each cell standing for its label.
pub open spec fn decodes(labels: Seq<Vec<String>>, cells: Seq<Vec<CellType>>) -> bool {
    &&& cells.len() == labels.len()
    &&& forall|i: int| 0 <= i < labels.len() ==> (#[trigger] cells[i])@.len() == labels[i]@.len()
    &&& forall|i: int, j: int|
        0 <= i < labels.len() && 0 <= j < labels[i]@.len() ==> #[trigger] cells[i]@[j] == cell_of_label(
            labels[i]@[j]@,
        )
}

/// `labels` has the shape of `cells`, each label that of its cell.
pub open spec fn encodes(cells: Seq<Vec<CellType>>, labels: Seq<Vec<String>>) -> bool {
    &&& labels.len() == cells.len()
    &&& forall|i: int| 0 <= i < cells.len() ==> (#[trigger] labels[i])@.len() == cells[i]@.len()
    &&& forall|i: int, j: int|
        0 <= i < cells.len() && 0 <= j < cells[i]@.len() ==> (#[trigger] labels[i]@[j])@ == label_of_cell(
            cells[i]@[j],
        )
}

/// Relies on the standard `Display` of `u32` (through `ToString`): the
/// decimal digits of the number, with no sign, padding or leading zeros.
#[verifier::external_body]
fn decimal_string(n: u32) -> (r: String)
    ensures
        r@ == decimal(n as nat),
{
    n.to_string()
}

/// Reads a grid of labels into cells.
pub fn ser_to_cell(arr: &Vec<Vec<String>>) -> (r: Vec<Vec<CellType>>)
    ensures
        decodes(arr@, r@),
{
    let start = "start".to_owned();
    let destination = "destination".to_owned();
    let blank = "blank".to_owned();
    let mut out: Vec<Vec<CellType>> = Vec::new();
    let mut i: usize = 0;
    while i < arr.len()
        invariant
            start@ == "start"@,
            destination@ == "destination"@,
            blank@ == "blank"@,
            i <= arr@.len(),
            out@.len() == i,
            forall|k: int| 0 <= k < i ==> (#[trigger] out@[k])@.len() == arr@[k]@.len(),
            forall|k: int, j: int|
                0 <= k < i && 0 <= j < arr@[k]@.len() ==> #[trigger] out@[k]@[j] == cell_of_label(
                    arr@[k]@[j]@,
                ),
        decreases arr@.len() - i,
    {
        let row = &arr[i];
        let mut cells: Vec<CellType> = Vec::new();
        let mut j: usize = 0;
        while j < row.len()
            invariant
                start@ == "start"@,
                destination@ == "destination"@,
                blank@ == "blank"@,
                j <= row@.len(),
                cells@.len() == j,
                forall|m: int| 0 <= m < j ==> #[trigger] cells@[m] == cell_of_label(row@[m]@),
            decreases row@.len() - j,
        {
            let s = &row[j];
            let c = if *s == start {
                CellType::Start
            } else if *s == destination {
                CellType::Destination
            } else if *s == blank {
                CellType::Blank
            } else {
                CellType::Block
            };
            cells.push(c);
            j = j + 1;
        }
        out.push(cells);
        i = i + 1;
    }
    out
}

/// Writes cells as labels.
pub fn ser_to_string(arr: &Vec<Vec<CellType>>) -> (r: Vec<Vec<String>>)
    ensures
        encodes(arr@, r@),
{
    let mut out: Vec<Vec<String>> = Vec::new();
    let mut i: usize = 0;
    while i < arr.len()
        invariant
            i <= arr@.len(),
            out@.len() == i,
            forall|k: int| 0 <= k < i ==> (#[trigger] out@[k])@.len() == arr@[k]@.len(),
            forall|k: int, j: int|
                0 <= k < i && 0 <= j < arr@[k]@.len() ==> (#[trigger] out@[k]@[j])@ == label_of_cell(
                    arr@[k]@[j],
                ),
        decreases arr@.len() - i,
    {
        let row = &arr[i];
        let mut labels: Vec<String> = Vec::new();
        let mut j: usize = 0;
        while j < row.len()
            invariant
                j <= row@.len(),
                labels@.len() == j,
                forall|m: int| 0 <= m < j ==> (#[trigger] labels@[m])@ == label_of_cell(row@[m]),
            decreases row@.len() - j,
        {
            let label = match row[j] {
                CellType::Start => "start".to_owned(),
                CellType::Destination => "destination".to_owned(),
                CellType::Blank => "blank".to_owned(),
                CellType::Block => "block".to_owned(),
                CellType::Visited(n) => {
                    let digits = decimal_string(n);
                    let mut s = "path-".to_owned();
                    s.append(digits.as_str());
                    s
                },
            };
            labels.push(label);
            j = j + 1;
        }
        out.push(labels);
        i = i + 1;
    }
    out
}

/// Reading a label and writing the cell back gives the label again, for
/// each of the four labels.
pub proof fn lemma_label_round_trip(s: Seq<char>)
    requires
        is_label(s),
    ensures
        label_of_cell(cell_of_label(s)) == s,
{
    reveal_strlit("start");
    reveal_strlit("destination");
    reveal_strlit("blank");
    reveal_strlit("block");
    if s == "blank"@ {
        assert(s[1] != "start"@[1]);
    } else if s == "block"@ {
        assert(s[1] != "start"@[1]);
        assert(s[3] != "blank"@[3]);
    }
}

/// Reading a grid of labels into cells and writing the cells back as labels
/// gives the original labels, when every label is one of the four.
pub proof fn lemma_grid_round_trip(
    labels: Seq<Vec<String>>,
    cells: Seq<Vec<CellType>>,
    back: Seq<Vec<String>>,
)
    requires
        forall|i: int, j: int|
            0 <= i < labels.len() && 0 <= j < labels[i]@.len() ==> is_label(#[trigger] labels[i]@[j]@),
        decodes(labels, cells),
        encodes(cells, back),
    ensures
        back.len() == labels.len(),
        forall|i: int| 0 <= i < labels.len() ==> (#[trigger] back[i])@.len() == labels[i]@.len(),
        forall|i: int, j: int|
            0 <= i < labels.len() && 0 <= j < labels[i]@.len() ==> (#[trigger] back[i]@[j])@ == labels[i]@[j]@,
{
    assert forall|i: int, j: int| 0 <= i < labels.len() && 0 <= j < labels[i]@.len() implies (
    #[trigger] back[i]@[j])@ == labels[i]@[j]@ by {
        lemma_label_round_trip(labels[i]@[j]@);
        assert(cells[i]@[j] == cell_of_label(labels[i]@[j]@));
    }
    assert forall|i: int| 0 <= i < labels.len() implies (#[trigger] back[i])@.len() == labels[i]@.len() by {
        assert(cells[i]@.len() == labels[i]@.len());
    }
}

} // verus!
