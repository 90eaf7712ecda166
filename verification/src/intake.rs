//! From rows to the inputs of a search, and from its result back to rows.

use vstd::prelude::*;
use vstd::string::StrSliceExecFns;
use crate::objective::owned_identifiers;
use crate::record::{is_with_ours, Record};

verus! {

/// Whether `c` is white space: a character with the Unicode property `White_Space`.
pub open spec fn is_space(c: char) -> bool {
    let code = c as u32;
    ||| 0x09 <= code <= 0x0D
    ||| code == 0x20
    ||| code == 0x85
    ||| code == 0xA0
    ||| code == 0x1680
    ||| 0x2000 <= code <= 0x200A
    ||| code == 0x2028
    ||| code == 0x2029
    ||| code == 0x202F
    ||| code == 0x205F
    ||| code == 0x3000
}

/// Whether `c` is white space.
pub fn is_whitespace(c: char) -> (r: bool)
    ensures
        r == is_space(c),
{
    let code = c as u32;
    (0x09 <= code && code <= 0x0D) || code == 0x20 || code == 0x85 || code == 0xA0 || code
        == 0x1680 || (0x2000 <= code && code <= 0x200A) || code == 0x2028 || code == 0x2029
        || code == 0x202F || code == 0x205F || code == 0x3000
}

/// The first place at or after `from` where `text` holds a comma, or the
/// length of `text` if there is none.
pub open spec fn next_comma(text: Seq<char>, from: int) -> int
    decreases text.len() - from,
{
    if from >= text.len() {
        text.len() as int
    } else if text[from] == ',' {
        from
    } else {
        next_comma(text, from + 1)
    }
}

/// Where the part of `text` from `from` to `to` begins once the white space
/// at its front is left out.
pub open spec fn trim_start(text: Seq<char>, from: int, to: int) -> int
    decreases to - from,
{
    if from < to && is_space(text[from]) {
        trim_start(text, from + 1, to)
    } else {
        from
    }
}

/// Where the part of `text` from `from` to `to` ends once the white space at
/// its back is left out.
pub open spec fn trim_end(text: Seq<char>, from: int, to: int) -> int
    decreases to - from,
{
    if from < to && is_space(text[to - 1]) {
        trim_end(text, from, to - 1)
    } else {
        to
    }
}

/// The part of `text` from `from` to `to`, without the white space at its
/// front and at its back.
pub open spec fn trimmed(text: Seq<char>, from: int, to: int) -> Seq<char> {
    let start = trim_start(text, from, to);
    text.subrange(start, trim_end(text, start, to))
}

/// The identifiers that the rest of an exclusion field names from `from` on:
/// the parts between commas, trimmed, but for those that are a lone `-`.
pub open spec fn exclusions_from(text: Seq<char>, from: int) -> Seq<Seq<char>>
    decreases text.len() - from + 1,
{
    if from < 0 || from > text.len() {
        Seq::empty()
    } else {
        proof {
            lemma_next_comma(text, from);
        }
        let comma = next_comma(text, from);
        let part = trimmed(text, from, comma);
        let rest = exclusions_from(text, comma + 1);
        if part == seq!['-'] {
            rest
        } else {
            seq![part] + rest
        }
    }
}

/// The identifiers that an exclusion field names.
pub open spec fn exclusions_of(text: Seq<char>) -> Seq<Seq<char>> {
    exclusions_from(text, 0)
}

/// The next comma lies at or after `from`, within `text` or at its end, and
/// no comma lies before it.
pub proof fn lemma_next_comma(text: Seq<char>, from: int)
    requires
        0 <= from <= text.len(),
    ensures
        from <= next_comma(text, from) <= text.len(),
        next_comma(text, from) < text.len() ==> text[next_comma(text, from)] == ',',
        forall|k: int| from <= k < next_comma(text, from) ==> text[k] != ',',
    decreases text.len() - from,
{
    if from < text.len() && text[from] != ',' {
        lemma_next_comma(text, from + 1);
    }
}

/// Reads the identifiers that an exclusion field names.
pub fn parse_exclusions(field: &str) -> (r: Vec<String>)
    ensures
        owned_identifiers(r@) == exclusions_of(field@),
{
    let length = field.unicode_len();
    let mut result: Vec<String> = Vec::new();
    let mut from: usize = 0;
    let mut done = false;
    while !done
        invariant
            length == field@.len(),
            from <= length,
            !done ==> exclusions_of(field@) == owned_identifiers(result@) + exclusions_from(
                field@,
                from as int,
            ),
            done ==> exclusions_of(field@) == owned_identifiers(result@),
        decreases length - from + if done { 0int } else { 1int },
    {
        let ghost earlier = owned_identifiers(result@);
        let mut comma = from;
        while comma < length && field.get_char(comma) != ','
            invariant
                length == field@.len(),
                from <= comma <= length,
                next_comma(field@, from as int) == next_comma(field@, comma as int),
            decreases length - comma,
        {
            comma = comma + 1;
        }
        let mut start = from;
        while start < comma && is_whitespace(field.get_char(start))
            invariant
                length == field@.len(),
                from <= start <= comma <= length,
                trim_start(field@, from as int, comma as int) == trim_start(
                    field@,
                    start as int,
                    comma as int,
                ),
            decreases comma - start,
        {
            start = start + 1;
        }
        let mut end = comma;
        while start < end && is_whitespace(field.get_char(end - 1))
            invariant
                length == field@.len(),
                start <= end <= comma <= length,
                trim_end(field@, start as int, comma as int) == trim_end(
                    field@,
                    start as int,
                    end as int,
                ),
            decreases end - start,
        {
            end = end - 1;
        }
        let part = field.substring_char(start, end);
        let lone_dash = end - start == 1 && field.get_char(start) == '-';
        assert(lone_dash <==> part@ == seq!['-']) by {
            if lone_dash {
                assert(part@ =~= seq!['-']);
            }
            if part@ == seq!['-'] {
                assert(part@.len() == 1);
                assert(part@[0] == '-');
            }
        }
        if !lone_dash {
            result.push(part.to_owned());
        }
        assert(exclusions_of(field@) == owned_identifiers(result@) + exclusions_from(
            field@,
            comma as int + 1,
        ));
        if comma < length {
            from = comma + 1;
        } else {
            done = true;
            assert(owned_identifiers(result@) + Seq::<Seq<char>>::empty() =~= owned_identifiers(
                result@,
            ));
        }
    }
    result
}

/// Whether the search may move slot `i`: it stands at or after `start`, and
/// its row is not pinned.
pub open spec fn is_free(records: Seq<Record>, start: nat, i: int) -> bool {
    start <= i && records[i].pinned != Some(true)
}

/// The free slots among the first `n`, in rising order.
pub open spec fn free_slots_upto(records: Seq<Record>, start: nat, n: int) -> Seq<usize>
    decreases n,
{
    if n <= 0 {
        Seq::empty()
    } else if is_free(records, start, n - 1) {
        free_slots_upto(records, start, n - 1).push((n - 1) as usize)
    } else {
        free_slots_upto(records, start, n - 1)
    }
}

/// The free slots among the first `n` are below `n`, rise strictly, and are
/// exactly the slots that are free.
pub proof fn lemma_free_slots(records: Seq<Record>, start: nat, n: int)
    requires
        0 <= n <= usize::MAX,
    ensures
        free_slots_upto(records, start, n).len() <= n,
        forall|k: int|
            0 <= k < free_slots_upto(records, start, n).len() ==> #[trigger] free_slots_upto(
                records,
                start,
                n,
            )[k] < n,
        forall|j: int, k: int|
            0 <= j < k < free_slots_upto(records, start, n).len() ==> #[trigger] free_slots_upto(
                records,
                start,
                n,
            )[j] < #[trigger] free_slots_upto(records, start, n)[k],
        forall|i: int|
            0 <= i < n ==> (is_free(records, start, i) <==> free_slots_upto(
                records,
                start,
                n,
            ).contains(i as usize)),
    decreases n,
{
    if n > 0 {
        lemma_free_slots(records, start, n - 1);
        let before = free_slots_upto(records, start, n - 1);
        let all = free_slots_upto(records, start, n);
        assert forall|i: int| 0 <= i < n implies (is_free(records, start, i) <==> all.contains(
            i as usize,
        )) by {
            if is_free(records, start, n - 1) {
                assert(all[all.len() - 1] == (n - 1) as usize);
                if i < n - 1 && before.contains(i as usize) {
                    let k = choose|k: int| 0 <= k < before.len() && before[k] == i as usize;
                    assert(all[k] == i as usize);
                }
            }
        }
    }
}

/// The slots that a search may move: those at or after `start_index` whose
/// row is not pinned, in rising order.
pub fn swappable_positions(records: &[Record], start_index: usize) -> (r: Vec<usize>)
    ensures
        r@ == free_slots_upto(records@, start_index as nat, records@.len() as int),
        forall|k: int| 0 <= k < r@.len() ==> #[trigger] r@[k] < records@.len(),
        r@.no_duplicates(),
{
    let mut result: Vec<usize> = Vec::new();
    let mut i: usize = 0;
    while i < records.len()
        invariant
            i <= records@.len(),
            result@ == free_slots_upto(records@, start_index as nat, i as int),
        decreases records@.len() - i,
    {
        let pinned = match records[i].pinned {
            Some(flag) => flag,
            None => false,
        };
        if i >= start_index && !pinned {
            result.push(i);
        }
        i = i + 1;
    }
    proof {
        lemma_free_slots(records@, start_index as nat, i as int);
    }
    result
}

/// What a search is run on.
#[derive(Debug, Clone)]
pub struct Problem {
    /// Our identifiers, row by row: the initial assignment.
    pub initial: Vec<String>,
    /// The identifiers of the reference schedule, row by row.
    pub generals: Vec<String>,
    /// The identifiers excluded from each row.
    pub exclusions: Vec<Vec<String>>,
    /// The slots that may be moved.
    pub swappable: Vec<usize>,
}

/// Our identifiers, row by row.
pub open spec fn ours_of(records: Seq<Record>) -> Seq<Seq<char>> {
    records.map_values(|r: Record| r.ours@)
}

/// The identifiers of the reference schedule, row by row.
pub open spec fn generals_of(records: Seq<Record>) -> Seq<Seq<char>> {
    records.map_values(|r: Record| r.general@)
}

/// The identifiers excluded from each of the first `n` rows.
pub open spec fn excluded_upto(exclusions: Seq<Vec<String>>, records: Seq<Record>, n: int) -> bool {
    &&& exclusions.len() == n
    &&& forall|i: int|
        0 <= i < n ==> owned_identifiers((#[trigger] exclusions[i])@) == exclusions_of(
            records[i].exclude@,
        )
}

/// Reads the inputs of a search off the rows, of which the first
/// `start_index` stay as they are.
pub fn problem_of(records: &[Record], start_index: usize) -> (r: Problem)
    ensures
        owned_identifiers(r.initial@) == ours_of(records@),
        owned_identifiers(r.generals@) == generals_of(records@),
        excluded_upto(r.exclusions@, records@, records@.len() as int),
        r.swappable@ == free_slots_upto(records@, start_index as nat, records@.len() as int),
        forall|k: int| 0 <= k < r.swappable@.len() ==> #[trigger] r.swappable@[k] < records@.len(),
        r.swappable@.no_duplicates(),
{
    let mut initial: Vec<String> = Vec::new();
    let mut generals: Vec<String> = Vec::new();
    let mut exclusions: Vec<Vec<String>> = Vec::new();
    let mut i: usize = 0;
    while i < records.len()
        invariant
            i <= records@.len(),
            initial@.len() == i,
            generals@.len() == i,
            forall|k: int| 0 <= k < i ==> (#[trigger] initial@[k])@ == records@[k].ours@,
            forall|k: int| 0 <= k < i ==> (#[trigger] generals@[k])@ == records@[k].general@,
            excluded_upto(exclusions@, records@, i as int),
        decreases records@.len() - i,
    {
        initial.push(records[i].ours.clone());
        generals.push(records[i].general.clone());
        exclusions.push(parse_exclusions(records[i].exclude.as_str()));
        i = i + 1;
    }
    Problem { initial, generals, exclusions, swappable: swappable_positions(records, start_index) }
}

/// The rows with the identifiers of `solution` as ours, row by row, as far
/// as both reach.
pub fn with_solution(records: &[Record], solution: &[&str]) -> (r: Vec<Record>)
    ensures
        r@.len() == if records@.len() <= solution@.len() {
            records@.len()
        } else {
            solution@.len()
        },
        forall|i: int|
            0 <= i < r@.len() ==> is_with_ours(#[trigger] r@[i], records@[i], solution@[i]@),
{
    let mut result: Vec<Record> = Vec::new();
    let mut i: usize = 0;
    while i < records.len() && i < solution.len()
        invariant
            i <= records@.len(),
            i <= solution@.len(),
            result@.len() == i,
            forall|k: int|
                0 <= k < i ==> is_with_ours(#[trigger] result@[k], records@[k], solution@[k]@),
        decreases records@.len() - i,
    {
        result.push(records[i].with_ours(solution[i]));
        i = i + 1;
    }
    result
}

} // verus!
