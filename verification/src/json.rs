//! The property tables as JSON text. Every table is an array of rows, and
//! every row an array of numbers; what the numbers of a row mean depends on
//! the table.

use vstd::prelude::*;
use crate::error::TextError;
use crate::ucd::{CollationElement, GraphemeClusterBreak, UcdTables, Weighted};

verus! {

/// `serde_json::Error`, declared so that a result can carry it. Nothing is
/// known of a value of it.
#[verifier::external_type_specification]
#[verifier::external_body]
pub struct ExJsonError(serde_json::Error);

/// What `serde_json` reads from a text as an array of arrays of unsigned
/// 32-bit numbers; `None` where it reads no such thing.
pub uninterp spec fn json_rows(text: Seq<char>) -> Option<Seq<Seq<u32>>>;

/// The rows as plain values.
pub open spec fn plain_rows(rows: Seq<Vec<u32>>) -> Seq<Seq<u32>> {
    rows.map_values(|row: Vec<u32>| row@)
}

/// Calls `serde_json::from_str` for a `Vec<Vec<u32>>`. The result is a
/// function of the text alone: the rows that the text holds, or an error
/// where it is no JSON array of arrays of numbers that fit 32 bits.
#[verifier::external_body]
fn parse_rows(text: &str) -> (parsed: Result<Vec<Vec<u32>>, serde_json::Error>)
    ensures
        match parsed {
            Ok(rows) => json_rows(text@) == Some(plain_rows(rows@)),
            Err(_) => json_rows(text@) is None,
        },
{
    serde_json::from_str::<Vec<Vec<u32>>>(text)
}

/// The numbers of all rows, one row after another.
pub open spec fn members(rows: Seq<Seq<u32>>) -> Seq<u32>
    decreases rows.len(),
{
    if rows.len() == 0 {
        Seq::empty()
    } else {
        members(rows.drop_last()) + rows.last()
    }
}

/// A row that lists a codepoint and its mapping.
pub open spec fn row_list(row: Seq<u32>) -> Option<(u32, Seq<u32>)> {
    if row.len() >= 1 {
        Some((row[0], row.subrange(1, row.len() as int)))
    } else {
        None
    }
}

/// A row of a codepoint and one value.
pub open spec fn row_pair(row: Seq<u32>) -> Option<(u32, u32)> {
    if row.len() == 2 {
        Some((row[0], row[1]))
    } else {
        None
    }
}

/// A row of a codepoint and its combining class.
pub open spec fn row_class(row: Seq<u32>) -> Option<(u32, u8)> {
    if row.len() == 2 && row[1] <= 255 {
        Some((row[0], row[1] as u8))
    } else {
        None
    }
}

/// A row of two codepoints and their composite.
pub open spec fn row_triple(row: Seq<u32>) -> Option<(u32, u32, u32)> {
    if row.len() == 3 {
        Some((row[0], row[1], row[2]))
    } else {
        None
    }
}

/// The break class that a number stands for: its place in the alphabetic
/// list of the short names.
pub open spec fn break_of_code(code: u32) -> Option<GraphemeClusterBreak> {
    if code == 0 {
        Some(GraphemeClusterBreak::CN)
    } else if code == 1 {
        Some(GraphemeClusterBreak::CR)
    } else if code == 2 {
        Some(GraphemeClusterBreak::EB)
    } else if code == 3 {
        Some(GraphemeClusterBreak::EBG)
    } else if code == 4 {
        Some(GraphemeClusterBreak::EM)
    } else if code == 5 {
        Some(GraphemeClusterBreak::EX)
    } else if code == 6 {
        Some(GraphemeClusterBreak::GAZ)
    } else if code == 7 {
        Some(GraphemeClusterBreak::L)
    } else if code == 8 {
        Some(GraphemeClusterBreak::LF)
    } else if code == 9 {
        Some(GraphemeClusterBreak::LV)
    } else if code == 10 {
        Some(GraphemeClusterBreak::LVT)
    } else if code == 11 {
        Some(GraphemeClusterBreak::PP)
    } else if code == 12 {
        Some(GraphemeClusterBreak::RI)
    } else if code == 13 {
        Some(GraphemeClusterBreak::SM)
    } else if code == 14 {
        Some(GraphemeClusterBreak::T)
    } else if code == 15 {
        Some(GraphemeClusterBreak::V)
    } else if code == 16 {
        Some(GraphemeClusterBreak::XX)
    } else if code == 17 {
        Some(GraphemeClusterBreak::ZWJ)
    } else {
        None
    }
}

/// A row of a codepoint and the number of its break class.
pub open spec fn row_break(row: Seq<u32>) -> Option<(u32, GraphemeClusterBreak)> {
    if row.len() == 2 && break_of_code(row[1]) is Some {
        Some((row[0], break_of_code(row[1])->Some_0))
    } else {
        None
    }
}

/// Every number fits sixteen bits.
pub open spec fn all_weights(numbers: Seq<u32>) -> bool {
    forall|i: int| 0 <= i < numbers.len() ==> #[trigger] numbers[i] <= 0xFFFF
}

/// The numbers as weights.
pub open spec fn as_weights(numbers: Seq<u32>) -> Seq<u16> {
    numbers.map_values(|n: u32| n as u16)
}

/// The collation elements written from `at` on: for each element 0 or 1
/// for whether it is variable, the number of its weights, and the weights.
pub open spec fn row_elements(row: Seq<u32>, at: int) -> Option<Seq<Weighted>>
    decreases row.len() - at,
{
    if at < 0 || at > row.len() {
        None
    } else if at == row.len() {
        Some(Seq::empty())
    } else if at + 2 > row.len() || row[at] > 1 || at + 2 + row[at + 1] > row.len() || !all_weights(
        row.subrange(at + 2, at + 2 + row[at + 1]),
    ) {
        None
    } else {
        match row_elements(row, at + 2 + row[at + 1]) {
            Some(rest) => Some(
                seq![
                    Weighted {
                        weights: as_weights(row.subrange(at + 2, at + 2 + row[at + 1])),
                        variable: row[at] == 1,
                    },
                ] + rest,
            ),
            None => None,
        }
    }
}

/// A row of the collation table: the length of the key, the key, and the
/// collation elements.
pub open spec fn row_entry(row: Seq<u32>) -> Option<(Seq<u32>, Seq<Weighted>)> {
    if row.len() >= 1 && 1 + row[0] <= row.len() && row_elements(row, 1 + row[0]) is Some {
        Some((row.subrange(1, 1 + row[0]), row_elements(row, 1 + row[0])->Some_0))
    } else {
        None
    }
}

/// The rows of a table, each read as `read` says; `None` where `read`
/// refuses a row.
pub open spec fn each_row<T>(rows: Seq<Seq<u32>>, read: spec_fn(Seq<u32>) -> Option<T>) -> Option<
    Seq<T>,
> {
    if forall|i: int| 0 <= i < rows.len() ==> read(#[trigger] rows[i]) is Some {
        Some(Seq::new(rows.len(), |i: int| read(rows[i])->Some_0))
    } else {
        None
    }
}

/// The pairs as plain values.
pub open spec fn plain_lists(pairs: Seq<(u32, Vec<u32>)>) -> Seq<(u32, Seq<u32>)> {
    pairs.map_values(|pair: (u32, Vec<u32>)| (pair.0, pair.1@))
}

/// The elements as plain values.
pub open spec fn plain_elements(elements: Seq<CollationElement>) -> Seq<Weighted> {
    elements.map_values(|ce: CollationElement| ce@)
}

/// The entries of a collation table as plain values.
pub open spec fn plain_entries(entries: Seq<(Vec<u32>, Vec<CollationElement>)>) -> Seq<
    (Seq<u32>, Seq<Weighted>),
> {
    entries.map_values(
        |entry: (Vec<u32>, Vec<CollationElement>)| (entry.0@, plain_elements(entry.1@)),
    )
}

/// Reads the rows of a table of codepoints: every number of every row.
pub fn decode_set(rows: &Vec<Vec<u32>>) -> (set: Vec<u32>)
    ensures
        set@ == members(plain_rows(rows@)),
{
    let mut set: Vec<u32> = Vec::new();
    let ghost plain = plain_rows(rows@);
    let mut i: usize = 0;
    while i < rows.len()
        invariant
            i <= rows@.len(),
            plain == plain_rows(rows@),
            set@ == members(plain.take(i as int)),
        decreases rows.len() - i,
    {
        let row = &rows[i];
        let ghost before = set@;
        let mut j: usize = 0;
        while j < row.len()
            invariant
                j <= row@.len(),
                set@ == before + row@.take(j as int),
            decreases row.len() - j,
        {
            set.push(row[j]);
            j += 1;
            assert(set@ =~= before + row@.take(j as int));
        }
        proof {
            assert(row@.take(j as int) =~= row@);
            assert(plain.take(i + 1).drop_last() =~= plain.take(i as int));
            assert(plain.take(i + 1).last() == row@);
        }
        i += 1;
    }
    assert(plain.take(i as int) =~= plain);
    set
}

/// Reads the rows of a table of mappings: a codepoint, then what it maps
/// to.
pub fn decode_lists(rows: &Vec<Vec<u32>>) -> (lists: Option<Vec<(u32, Vec<u32>)>>)
    ensures
        match lists {
            Some(pairs) => each_row(plain_rows(rows@), |row: Seq<u32>| row_list(row)) == Some(
                plain_lists(pairs@),
            ),
            None => each_row(plain_rows(rows@), |row: Seq<u32>| row_list(row)) is None,
        },
{
    let mut pairs: Vec<(u32, Vec<u32>)> = Vec::new();
    let ghost plain = plain_rows(rows@);
    let ghost read = |row: Seq<u32>| row_list(row);
    let mut i: usize = 0;
    while i < rows.len()
        invariant
            i <= rows@.len(),
            plain == plain_rows(rows@),
            read == |row: Seq<u32>| row_list(row),
            pairs@.len() == i,
            forall|n: int|
                0 <= n < i ==> row_list(#[trigger] plain[n]) == Some(
                    (pairs@[n].0, pairs@[n].1@),
                ),
        decreases rows.len() - i,
    {
        let row = &rows[i];
        if row.len() < 1 {
            assert(read(plain[i as int]) is None);
            return None;
        }
        let mut values: Vec<u32> = Vec::new();
        let mut j: usize = 1;
        while j < row.len()
            invariant
                1 <= j <= row@.len(),
                values@ == row@.subrange(1, j as int),
            decreases row.len() - j,
        {
            values.push(row[j]);
            j += 1;
            assert(values@ =~= row@.subrange(1, j as int));
        }
        pairs.push((row[0], values));
        i += 1;
    }
    proof {
        assert forall|n: int| 0 <= n < plain.len() implies read(#[trigger] plain[n]) is Some by {
            assert(row_list(plain[n]) is Some);
        }
        assert(each_row(plain, read)->Some_0 =~= plain_lists(pairs@));
    }
    Some(pairs)
}

/// Reads the rows of a table of single mappings: a codepoint and its
/// value.
pub fn decode_pairs(rows: &Vec<Vec<u32>>) -> (decoded: Option<Vec<(u32, u32)>>)
    ensures
        match decoded {
            Some(pairs) => each_row(plain_rows(rows@), |row: Seq<u32>| row_pair(row)) == Some(
                pairs@,
            ),
            None => each_row(plain_rows(rows@), |row: Seq<u32>| row_pair(row)) is None,
        },
{
    let mut pairs: Vec<(u32, u32)> = Vec::new();
    let ghost plain = plain_rows(rows@);
    let ghost read = |row: Seq<u32>| row_pair(row);
    let mut i: usize = 0;
    while i < rows.len()
        invariant
            i <= rows@.len(),
            plain == plain_rows(rows@),
            read == |row: Seq<u32>| row_pair(row),
            pairs@.len() == i,
            forall|n: int| 0 <= n < i ==> row_pair(#[trigger] plain[n]) == Some(pairs@[n]),
        decreases rows.len() - i,
    {
        let row = &rows[i];
        if row.len() != 2 {
            assert(read(plain[i as int]) is None);
            return None;
        }
        pairs.push((row[0], row[1]));
        i += 1;
    }
    proof {
        assert forall|n: int| 0 <= n < plain.len() implies read(#[trigger] plain[n]) is Some by {
            assert(row_pair(plain[n]) is Some);
        }
        assert(each_row(plain, read)->Some_0 =~= pairs@);
    }
    Some(pairs)
}

/// Reads the rows of the table of combining classes.
pub fn decode_classes(rows: &Vec<Vec<u32>>) -> (decoded: Option<Vec<(u32, u8)>>)
    ensures
        match decoded {
            Some(pairs) => each_row(plain_rows(rows@), |row: Seq<u32>| row_class(row)) == Some(
                pairs@,
            ),
            None => each_row(plain_rows(rows@), |row: Seq<u32>| row_class(row)) is None,
        },
{
    let mut pairs: Vec<(u32, u8)> = Vec::new();
    let ghost plain = plain_rows(rows@);
    let ghost read = |row: Seq<u32>| row_class(row);
    let mut i: usize = 0;
    while i < rows.len()
        invariant
            i <= rows@.len(),
            plain == plain_rows(rows@),
            read == |row: Seq<u32>| row_class(row),
            pairs@.len() == i,
            forall|n: int| 0 <= n < i ==> row_class(#[trigger] plain[n]) == Some(pairs@[n]),
        decreases rows.len() - i,
    {
        let row = &rows[i];
        if row.len() != 2 || row[1] > 255 {
            assert(read(plain[i as int]) is None);
            return None;
        }
        pairs.push((row[0], row[1] as u8));
        i += 1;
    }
    proof {
        assert forall|n: int| 0 <= n < plain.len() implies read(#[trigger] plain[n]) is Some by {
            assert(row_class(plain[n]) is Some);
        }
        assert(each_row(plain, read)->Some_0 =~= pairs@);
    }
    Some(pairs)
}

/// Reads the rows of the table of primary composites.
pub fn decode_triples(rows: &Vec<Vec<u32>>) -> (decoded: Option<Vec<(u32, u32, u32)>>)
    ensures
        match decoded {
            Some(triples) => each_row(plain_rows(rows@), |row: Seq<u32>| row_triple(row)) == Some(
                triples@,
            ),
            None => each_row(plain_rows(rows@), |row: Seq<u32>| row_triple(row)) is None,
        },
{
    let mut triples: Vec<(u32, u32, u32)> = Vec::new();
    let ghost plain = plain_rows(rows@);
    let ghost read = |row: Seq<u32>| row_triple(row);
    let mut i: usize = 0;
    while i < rows.len()
        invariant
            i <= rows@.len(),
            plain == plain_rows(rows@),
            read == |row: Seq<u32>| row_triple(row),
            triples@.len() == i,
            forall|n: int| 0 <= n < i ==> row_triple(#[trigger] plain[n]) == Some(triples@[n]),
        decreases rows.len() - i,
    {
        let row = &rows[i];
        if row.len() != 3 {
            assert(read(plain[i as int]) is None);
            return None;
        }
        triples.push((row[0], row[1], row[2]));
        i += 1;
    }
    proof {
        assert forall|n: int| 0 <= n < plain.len() implies read(#[trigger] plain[n]) is Some by {
            assert(row_triple(plain[n]) is Some);
        }
        assert(each_row(plain, read)->Some_0 =~= triples@);
    }
    Some(triples)
}

/// The break class that a number stands for.
pub fn break_from_code(code: u32) -> (class: Option<GraphemeClusterBreak>)
    ensures
        class == break_of_code(code),
{
    if code == 0 {
        Some(GraphemeClusterBreak::CN)
    } else if code == 1 {
        Some(GraphemeClusterBreak::CR)
    } else if code == 2 {
        Some(GraphemeClusterBreak::EB)
    } else if code == 3 {
        Some(GraphemeClusterBreak::EBG)
    } else if code == 4 {
        Some(GraphemeClusterBreak::EM)
    } else if code == 5 {
        Some(GraphemeClusterBreak::EX)
    } else if code == 6 {
        Some(GraphemeClusterBreak::GAZ)
    } else if code == 7 {
        Some(GraphemeClusterBreak::L)
    } else if code == 8 {
        Some(GraphemeClusterBreak::LF)
    } else if code == 9 {
        Some(GraphemeClusterBreak::LV)
    } else if code == 10 {
        Some(GraphemeClusterBreak::LVT)
    } else if code == 11 {
        Some(GraphemeClusterBreak::PP)
    } else if code == 12 {
        Some(GraphemeClusterBreak::RI)
    } else if code == 13 {
        Some(GraphemeClusterBreak::SM)
    } else if code == 14 {
        Some(GraphemeClusterBreak::T)
    } else if code == 15 {
        Some(GraphemeClusterBreak::V)
    } else if code == 16 {
        Some(GraphemeClusterBreak::XX)
    } else if code == 17 {
        Some(GraphemeClusterBreak::ZWJ)
    } else {
        None
    }
}

/// Reads the rows of the table of break classes.
pub fn decode_breaks(rows: &Vec<Vec<u32>>) -> (decoded: Option<Vec<(u32, GraphemeClusterBreak)>>)
    ensures
        match decoded {
            Some(pairs) => each_row(plain_rows(rows@), |row: Seq<u32>| row_break(row)) == Some(
                pairs@,
            ),
            None => each_row(plain_rows(rows@), |row: Seq<u32>| row_break(row)) is None,
        },
{
    let mut pairs: Vec<(u32, GraphemeClusterBreak)> = Vec::new();
    let ghost plain = plain_rows(rows@);
    let ghost read = |row: Seq<u32>| row_break(row);
    let mut i: usize = 0;
    while i < rows.len()
        invariant
            i <= rows@.len(),
            plain == plain_rows(rows@),
            read == |row: Seq<u32>| row_break(row),
            pairs@.len() == i,
            forall|n: int| 0 <= n < i ==> row_break(#[trigger] plain[n]) == Some(pairs@[n]),
        decreases rows.len() - i,
    {
        let row = &rows[i];
        if row.len() != 2 {
            assert(read(plain[i as int]) is None);
            return None;
        }
        match break_from_code(row[1]) {
            Some(class) => {
                pairs.push((row[0], class));
            },
            None => {
                assert(read(plain[i as int]) is None);
                return None;
            },
        }
        i += 1;
    }
    proof {
        assert forall|n: int| 0 <= n < plain.len() implies read(#[trigger] plain[n]) is Some by {
            assert(row_break(plain[n]) is Some);
        }
        assert(each_row(plain, read)->Some_0 =~= pairs@);
    }
    Some(pairs)
}

/// Reads the collation elements that a row holds from `from` on.
fn decode_elements(row: &Vec<u32>, from: usize) -> (decoded: Option<Vec<CollationElement>>)
    requires
        from <= row.len(),
    ensures
        match decoded {
            Some(elements) => row_elements(row@, from as int) == Some(plain_elements(elements@)),
            None => row_elements(row@, from as int) is None,
        },
{
    let mut elements: Vec<CollationElement> = Vec::new();
    let mut at: usize = from;
    while at < row.len()
        invariant
            from <= at <= row.len(),
            match row_elements(row@, at as int) {
                Some(rest) => row_elements(row@, from as int) == Some(
                    plain_elements(elements@) + rest,
                ),
                None => row_elements(row@, from as int) is None,
            },
        decreases row.len() - at,
    {
        if row.len() - at < 2 || row[at] > 1 {
            return None;
        }
        let count = row[at + 1] as usize;
        if row.len() - at - 2 < count {
            return None;
        }
        let mut weights: Vec<u16> = Vec::with_capacity(count);
        let mut k: usize = 0;
        while k < count
            invariant
                k <= count,
                at + 2 + count <= row.len(),
                count == row@[at + 1],
                row_elements(row@, at as int) is None ==> row_elements(row@, from as int) is None,
                weights@.len() == k,
                forall|n: int|
                    0 <= n < k ==> (#[trigger] weights@[n]) == row@[at + 2 + n] as u16 && row@[at
                        + 2 + n] <= 0xFFFF,
            decreases count - k,
        {
            let number = row[at + 2 + k];
            if number > 0xFFFF {
                proof {
                    let piece = row@.subrange(at + 2, at + 2 + count);
                    assert(piece[k as int] == number);
                    assert(!all_weights(piece));
                }
                return None;
            }
            weights.push(number as u16);
            k += 1;
        }
        let variable = row[at] == 1;
        let ghost before = plain_elements(elements@);
        let ghost piece = row@.subrange(at + 2, at + 2 + count);
        proof {
            assert(all_weights(piece)) by {
                assert forall|n: int| 0 <= n < piece.len() implies #[trigger] piece[n]
                    <= 0xFFFF by {
                    assert(piece[n] == row@[at + 2 + n]);
                    assert(weights@[n] == row@[at + 2 + n] as u16);
                }
            }
            assert(weights@ =~= as_weights(piece));
        }
        elements.push(CollationElement { weights, variable });
        proof {
            let fresh = Weighted { weights: as_weights(piece), variable };
            assert(plain_elements(elements@) =~= before + seq![fresh]);
            match row_elements(row@, at + 2 + count) {
                Some(rest) => {
                    assert((before + seq![fresh]) + rest =~= before + (seq![fresh] + rest));
                },
                None => {},
            }
        }
        at = at + 2 + count;
    }
    proof {
        assert(plain_elements(elements@) + Seq::<Weighted>::empty() =~= plain_elements(elements@));
    }
    Some(elements)
}

/// Reads the rows of the collation table.
pub fn decode_collation(rows: &Vec<Vec<u32>>) -> (decoded: Option<
    Vec<(Vec<u32>, Vec<CollationElement>)>,
>)
    ensures
        match decoded {
            Some(entries) => each_row(plain_rows(rows@), |row: Seq<u32>| row_entry(row)) == Some(
                plain_entries(entries@),
            ),
            None => each_row(plain_rows(rows@), |row: Seq<u32>| row_entry(row)) is None,
        },
{
    let mut entries: Vec<(Vec<u32>, Vec<CollationElement>)> = Vec::new();
    let ghost plain = plain_rows(rows@);
    let ghost read = |row: Seq<u32>| row_entry(row);
    let mut i: usize = 0;
    while i < rows.len()
        invariant
            i <= rows@.len(),
            plain == plain_rows(rows@),
            read == |row: Seq<u32>| row_entry(row),
            entries@.len() == i,
            forall|n: int|
                0 <= n < i ==> row_entry(#[trigger] plain[n]) == Some(
                    (entries@[n].0@, plain_elements(entries@[n].1@)),
                ),
        decreases rows.len() - i,
    {
        let row = &rows[i];
        if row.len() < 1 {
            assert(read(plain[i as int]) is None);
            return None;
        }
        let count = row[0] as usize;
        if row.len() - 1 < count {
            assert(read(plain[i as int]) is None);
            return None;
        }
        let mut key: Vec<u32> = Vec::with_capacity(count);
        let mut j: usize = 0;
        while j < count
            invariant
                j <= count,
                1 + count <= row.len(),
                key@ == row@.subrange(1, 1 + j),
            decreases count - j,
        {
            key.push(row[1 + j]);
            j += 1;
            assert(key@ =~= row@.subrange(1, 1 + j));
        }
        match decode_elements(row, 1 + count) {
            Some(elements) => {
                entries.push((key, elements));
            },
            None => {
                assert(read(plain[i as int]) is None);
                return None;
            },
        }
        i += 1;
    }
    proof {
        assert forall|n: int| 0 <= n < plain.len() implies read(#[trigger] plain[n]) is Some by {
            assert(row_entry(plain[n]) is Some);
        }
        assert(each_row(plain, read)->Some_0 =~= plain_entries(entries@));
    }
    Some(entries)
}

/// The tables as texts, one JSON text for each.
#[derive(Debug, Clone, PartialEq, Eq)]
pub struct UcdJson {
    /// Rows of a codepoint and its decomposition mapping.
    pub decomposition_mappings: String,
    /// Rows of two codepoints and their composite.
    pub primary_composites: String,
    /// Rows of a codepoint and its combining class.
    pub combining_class: String,
    /// Rows of codepoints.
    pub nfc_quick_check_no: String,
    /// Rows of codepoints.
    pub nfc_quick_check_maybe: String,
    /// Rows of codepoints.
    pub nfd_quick_check_no: String,
    /// Rows of a codepoint and its uppercase mapping.
    pub uppercase_mappings: String,
    /// Rows of a codepoint and its lowercase mapping.
    pub lowercase_mappings: String,
    /// Rows of a codepoint and its case folding.
    pub case_folding: String,
    /// Rows of codepoints.
    pub cased: String,
    /// Rows of codepoints.
    pub case_ignorable: String,
    /// Rows of codepoints.
    pub extended_pictorial: String,
    /// Rows of codepoints.
    pub unified_ideograph: String,
    /// Rows of a codepoint and the number of its break class.
    pub grapheme_cluster_break: String,
    /// Rows of the length of a key, the key, and its collation elements.
    pub collation_elements: String,
}

/// The codepoints that a text lists.
pub open spec fn text_set(text: Seq<char>) -> Option<Seq<u32>> {
    match json_rows(text) {
        Some(rows) => Some(members(rows)),
        None => None,
    }
}

/// The mappings that a text lists.
pub open spec fn text_lists(text: Seq<char>) -> Option<Seq<(u32, Seq<u32>)>> {
    match json_rows(text) {
        Some(rows) => each_row(rows, |row: Seq<u32>| row_list(row)),
        None => None,
    }
}

/// The single mappings that a text lists.
pub open spec fn text_pairs(text: Seq<char>) -> Option<Seq<(u32, u32)>> {
    match json_rows(text) {
        Some(rows) => each_row(rows, |row: Seq<u32>| row_pair(row)),
        None => None,
    }
}

/// The combining classes that a text lists.
pub open spec fn text_classes(text: Seq<char>) -> Option<Seq<(u32, u8)>> {
    match json_rows(text) {
        Some(rows) => each_row(rows, |row: Seq<u32>| row_class(row)),
        None => None,
    }
}

/// The composites that a text lists.
pub open spec fn text_triples(text: Seq<char>) -> Option<Seq<(u32, u32, u32)>> {
    match json_rows(text) {
        Some(rows) => each_row(rows, |row: Seq<u32>| row_triple(row)),
        None => None,
    }
}

/// The break classes that a text lists.
pub open spec fn text_breaks(text: Seq<char>) -> Option<Seq<(u32, GraphemeClusterBreak)>> {
    match json_rows(text) {
        Some(rows) => each_row(rows, |row: Seq<u32>| row_break(row)),
        None => None,
    }
}

/// The collation table that a text lists.
pub open spec fn text_entries(text: Seq<char>) -> Option<Seq<(Seq<u32>, Seq<Weighted>)>> {
    match json_rows(text) {
        Some(rows) => each_row(rows, |row: Seq<u32>| row_entry(row)),
        None => None,
    }
}

/// Every text can be read as its table.
pub open spec fn readable(texts: &UcdJson) -> bool {
    &&& text_lists(texts.decomposition_mappings@) is Some
    &&& text_triples(texts.primary_composites@) is Some
    &&& text_classes(texts.combining_class@) is Some
    &&& text_set(texts.nfc_quick_check_no@) is Some
    &&& text_set(texts.nfc_quick_check_maybe@) is Some
    &&& text_set(texts.nfd_quick_check_no@) is Some
    &&& text_lists(texts.uppercase_mappings@) is Some
    &&& text_pairs(texts.lowercase_mappings@) is Some
    &&& text_lists(texts.case_folding@) is Some
    &&& text_set(texts.cased@) is Some
    &&& text_set(texts.case_ignorable@) is Some
    &&& text_set(texts.extended_pictorial@) is Some
    &&& text_set(texts.unified_ideograph@) is Some
    &&& text_breaks(texts.grapheme_cluster_break@) is Some
    &&& text_entries(texts.collation_elements@) is Some
}

/// The tables are what the texts hold.
pub open spec fn read_as(texts: &UcdJson, tables: &UcdTables) -> bool {
    &&& text_lists(texts.decomposition_mappings@) == Some(
        plain_lists(tables.decomposition_mappings@),
    )
    &&& text_triples(texts.primary_composites@) == Some(tables.primary_composites@)
    &&& text_classes(texts.combining_class@) == Some(tables.combining_classes@)
    &&& text_set(texts.nfc_quick_check_no@) == Some(tables.nfc_quick_check_no@)
    &&& text_set(texts.nfc_quick_check_maybe@) == Some(tables.nfc_quick_check_maybe@)
    &&& text_set(texts.nfd_quick_check_no@) == Some(tables.nfd_quick_check_no@)
    &&& text_lists(texts.uppercase_mappings@) == Some(plain_lists(tables.uppercase_mappings@))
    &&& text_pairs(texts.lowercase_mappings@) == Some(tables.lowercase_mappings@)
    &&& text_lists(texts.case_folding@) == Some(plain_lists(tables.case_folding@))
    &&& text_set(texts.cased@) == Some(tables.cased@)
    &&& text_set(texts.case_ignorable@) == Some(tables.case_ignorable@)
    &&& text_set(texts.extended_pictorial@) == Some(tables.extended_pictorial@)
    &&& text_set(texts.unified_ideograph@) == Some(tables.unified_ideograph@)
    &&& text_breaks(texts.grapheme_cluster_break@) == Some(tables.grapheme_cluster_break@)
    &&& text_entries(texts.collation_elements@) == Some(
        plain_entries(tables.collation_elements@),
    )
}

/// Reads a text as rows of numbers.
fn read_rows(text: &str) -> (read: Option<Vec<Vec<u32>>>)
    ensures
        match read {
            Some(rows) => json_rows(text@) == Some(plain_rows(rows@)),
            None => json_rows(text@) is None,
        },
{
    match parse_rows(text) {
        Ok(rows) => Some(rows),
        Err(_) => None,
    }
}

fn read_set(text: &str) -> (read: Option<Vec<u32>>)
    ensures
        match read {
            Some(set) => text_set(text@) == Some(set@),
            None => text_set(text@) is None,
        },
{
    match read_rows(text) {
        Some(rows) => Some(decode_set(&rows)),
        None => None,
    }
}

fn read_lists(text: &str) -> (read: Option<Vec<(u32, Vec<u32>)>>)
    ensures
        match read {
            Some(lists) => text_lists(text@) == Some(plain_lists(lists@)),
            None => text_lists(text@) is None,
        },
{
    match read_rows(text) {
        Some(rows) => decode_lists(&rows),
        None => None,
    }
}

fn read_pairs(text: &str) -> (read: Option<Vec<(u32, u32)>>)
    ensures
        match read {
            Some(pairs) => text_pairs(text@) == Some(pairs@),
            None => text_pairs(text@) is None,
        },
{
    match read_rows(text) {
        Some(rows) => decode_pairs(&rows),
        None => None,
    }
}

fn read_classes(text: &str) -> (read: Option<Vec<(u32, u8)>>)
    ensures
        match read {
            Some(pairs) => text_classes(text@) == Some(pairs@),
            None => text_classes(text@) is None,
        },
{
    match read_rows(text) {
        Some(rows) => decode_classes(&rows),
        None => None,
    }
}

fn read_triples(text: &str) -> (read: Option<Vec<(u32, u32, u32)>>)
    ensures
        match read {
            Some(triples) => text_triples(text@) == Some(triples@),
            None => text_triples(text@) is None,
        },
{
    match read_rows(text) {
        Some(rows) => decode_triples(&rows),
        None => None,
    }
}

fn read_breaks(text: &str) -> (read: Option<Vec<(u32, GraphemeClusterBreak)>>)
    ensures
        match read {
            Some(pairs) => text_breaks(text@) == Some(pairs@),
            None => text_breaks(text@) is None,
        },
{
    match read_rows(text) {
        Some(rows) => decode_breaks(&rows),
        None => None,
    }
}

fn read_entries(text: &str) -> (read: Option<Vec<(Vec<u32>, Vec<CollationElement>)>>)
    ensures
        match read {
            Some(entries) => text_entries(text@) == Some(plain_entries(entries@)),
            None => text_entries(text@) is None,
        },
{
    match read_rows(text) {
        Some(rows) => decode_collation(&rows),
        None => None,
    }
}

/// Reads the tables from their texts. Fails where a text is no JSON array
/// of arrays of numbers, or a row is not what its table takes.
pub fn read_tables(texts: &UcdJson) -> (read: Result<UcdTables, TextError>)
    ensures
        match read {
            Ok(tables) => read_as(texts, &tables),
            Err(e) => e == TextError::ResourceUnavailable && !readable(texts),
        },
{
    let decomposition_mappings = match read_lists(texts.decomposition_mappings.as_str()) {
        Some(table) => table,
        None => {
            return Err(TextError::ResourceUnavailable);
        },
    };
    let primary_composites = match read_triples(texts.primary_composites.as_str()) {
        Some(table) => table,
        None => {
            return Err(TextError::ResourceUnavailable);
        },
    };
    let combining_classes = match read_classes(texts.combining_class.as_str()) {
        Some(table) => table,
        None => {
            return Err(TextError::ResourceUnavailable);
        },
    };
    let nfc_quick_check_no = match read_set(texts.nfc_quick_check_no.as_str()) {
        Some(table) => table,
        None => {
            return Err(TextError::ResourceUnavailable);
        },
    };
    let nfc_quick_check_maybe = match read_set(texts.nfc_quick_check_maybe.as_str()) {
        Some(table) => table,
        None => {
            return Err(TextError::ResourceUnavailable);
        },
    };
    let nfd_quick_check_no = match read_set(texts.nfd_quick_check_no.as_str()) {
        Some(table) => table,
        None => {
            return Err(TextError::ResourceUnavailable);
        },
    };
    let uppercase_mappings = match read_lists(texts.uppercase_mappings.as_str()) {
        Some(table) => table,
        None => {
            return Err(TextError::ResourceUnavailable);
        },
    };
    let lowercase_mappings = match read_pairs(texts.lowercase_mappings.as_str()) {
        Some(table) => table,
        None => {
            return Err(TextError::ResourceUnavailable);
        },
    };
    let case_folding = match read_lists(texts.case_folding.as_str()) {
        Some(table) => table,
        None => {
            return Err(TextError::ResourceUnavailable);
        },
    };
    let cased = match read_set(texts.cased.as_str()) {
        Some(table) => table,
        None => {
            return Err(TextError::ResourceUnavailable);
        },
    };
    let case_ignorable = match read_set(texts.case_ignorable.as_str()) {
        Some(table) => table,
        None => {
            return Err(TextError::ResourceUnavailable);
        },
    };
    let extended_pictorial = match read_set(texts.extended_pictorial.as_str()) {
        Some(table) => table,
        None => {
            return Err(TextError::ResourceUnavailable);
        },
    };
    let unified_ideograph = match read_set(texts.unified_ideograph.as_str()) {
        Some(table) => table,
        None => {
            return Err(TextError::ResourceUnavailable);
        },
    };
    let grapheme_cluster_break = match read_breaks(texts.grapheme_cluster_break.as_str()) {
        Some(table) => table,
        None => {
            return Err(TextError::ResourceUnavailable);
        },
    };
    let collation_elements = match read_entries(texts.collation_elements.as_str()) {
        Some(table) => table,
        None => {
            return Err(TextError::ResourceUnavailable);
        },
    };
    Ok(
        UcdTables {
            decomposition_mappings,
            primary_composites,
            combining_classes,
            nfc_quick_check_no,
            nfc_quick_check_maybe,
            nfd_quick_check_no,
            uppercase_mappings,
            lowercase_mappings,
            case_folding,
            cased,
            case_ignorable,
            extended_pictorial,
            unified_ideograph,
            grapheme_cluster_break,
            collation_elements,
        },
    )
}

} // verus!
