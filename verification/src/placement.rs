//! The ship placements that the player draws on the screen, put in the order
//! in which the server expects them: longest ship first.

use vstd::prelude::*;

use crate::json::{
    as_bool_value, as_u64_value, entry, get_bool, get_entry, get_u64, json_within_limits,
    json_within_parser_limits, parse_json, parsed_json, JsonValue,
};
use vstd::string::StringSliceAdditionalSpecFns;
use crate::message::{Direction, Message, ShipPlacement};

verus! {

/// One ship as the player placed it on the screen: bow cell, length, and
/// whether it points backwards (north or west) and whether it lies
/// horizontally.
#[derive(Copy, Clone, Debug, PartialEq, Eq, Structural)]
pub struct PlacementSpec {
    pub x: u64,
    pub y: u64,
    pub length: u64,
    pub reverse: bool,
    pub horizontal: bool,
}

/// The direction in which a placed ship points.
pub open spec fn heading(reverse: bool, horizontal: bool) -> Direction {
    if reverse {
        if horizontal {
            Direction::West
        } else {
            Direction::North
        }
    } else {
        if horizontal {
            Direction::East
        } else {
            Direction::South
        }
    }
}

/// The placement sent to the server for a ship placed on the screen; the
/// coordinates are cut to their low byte.
pub open spec fn placement_of(spec: PlacementSpec) -> ShipPlacement {
    ShipPlacement {
        x: spec.x as u8,
        y: spec.y as u8,
        direction: heading(spec.reverse, spec.horizontal),
    }
}

/// Puts `e` into `s` right after the leading elements that are at least as
/// long as `e`.
pub open spec fn insert_by_length(s: Seq<PlacementSpec>, e: PlacementSpec) -> Seq<PlacementSpec>
    decreases s.len(),
{
    if s.len() == 0 {
        seq![e]
    } else if s[0].length >= e.length {
        seq![s[0]] + insert_by_length(s.drop_first(), e)
    } else {
        seq![e] + s
    }
}

/// `s` sorted by decreasing length; equally long elements keep their order.
pub open spec fn sort_by_length_desc(s: Seq<PlacementSpec>) -> Seq<PlacementSpec>
    decreases s.len(),
{
    if s.len() == 0 {
        Seq::empty()
    } else {
        insert_by_length(sort_by_length_desc(s.drop_last()), s.last())
    }
}

/// The order in which the placements go to the server: longest first, and
/// among equally long ships the one placed later first.
pub open spec fn longest_first(specs: Seq<PlacementSpec>) -> Seq<PlacementSpec> {
    sort_by_length_desc(specs.reverse())
}

/// No element is longer than one before it.
pub open spec fn is_longest_first(s: Seq<PlacementSpec>) -> bool {
    forall|i: int, j: int| 0 <= i < j < s.len() ==> #[trigger] s[i].length >= #[trigger] s[j].length
}

/// The elements of `s` of length `len`, in their order in `s`.
pub open spec fn of_length(s: Seq<PlacementSpec>, len: u64) -> Seq<PlacementSpec>
    decreases s.len(),
{
    if s.len() == 0 {
        Seq::empty()
    } else if s.last().length == len {
        of_length(s.drop_last(), len).push(s.last())
    } else {
        of_length(s.drop_last(), len)
    }
}

/// The placement a ship placed on the screen is sent as.
pub fn to_ship_placement(spec: &PlacementSpec) -> (placement: ShipPlacement)
    ensures
        placement == placement_of(*spec),
{
    ShipPlacement {
        x: #[verifier::truncate] (spec.x as u8),
        y: #[verifier::truncate] (spec.y as u8),
        direction: match (spec.reverse, spec.horizontal) {
            (true, true) => Direction::West,
            (true, false) => Direction::North,
            (false, true) => Direction::East,
            (false, false) => Direction::South,
        },
    }
}

/// Orders the placements longest first; among equally long ones, the one
/// placed later comes first.
pub fn order_by_length(specs: &Vec<PlacementSpec>) -> (ordered: Vec<PlacementSpec>)
    ensures
        ordered@ == longest_first(specs@),
        ordered@.len() == specs@.len(),
        is_longest_first(ordered@),
        forall|len: u64| #[trigger] of_length(ordered@, len) == of_length(specs@.reverse(), len),
{
    let n = specs.len();
    let mut ordered: Vec<PlacementSpec> = Vec::new();
    let mut i = n;
    proof {
        assert(specs@.reverse().take(0) =~= Seq::<PlacementSpec>::empty());
    }
    while i > 0
        invariant
            n == specs@.len(),
            0 <= i <= n,
            ordered@ == sort_by_length_desc(specs@.reverse().take((n - i) as int)),
        decreases i,
    {
        i = i - 1;
        let e = specs[i];
        let mut p: usize = 0;
        while p < ordered.len() && ordered[p].length >= e.length
            invariant
                0 <= p <= ordered@.len(),
                forall|q: int| 0 <= q < p ==> #[trigger] ordered@[q].length >= e.length,
            decreases ordered@.len() - p,
        {
            p = p + 1;
        }
        proof {
            lemma_insert_at(ordered@, e, p as int);
            let r = specs@.reverse();
            assert(r.take((n - i) as int).drop_last() =~= r.take((n - i - 1) as int));
            assert(r.take((n - i) as int).last() == e);
        }
        ordered.insert(p, e);
    }
    proof {
        assert(specs@.reverse().take(n as int) =~= specs@.reverse());
        lemma_sort_properties(specs@.reverse());
    }
    ordered
}

/// The request that places the five ships of `specs`, longest first.
pub open spec fn placement_message(specs: Seq<PlacementSpec>) -> Message {
    Message::PlaceShipsRequest {
        placement: [
            placement_of(longest_first(specs)[0]),
            placement_of(longest_first(specs)[1]),
            placement_of(longest_first(specs)[2]),
            placement_of(longest_first(specs)[3]),
            placement_of(longest_first(specs)[4]),
        ],
    }
}

/// The request that places the five ships, longest first.
pub fn place_ships_request(specs: &Vec<PlacementSpec>) -> (request: Message)
    requires
        specs@.len() == 5,
    ensures
        request == placement_message(specs@),
        exists|ordered: Seq<PlacementSpec>|
            #![trigger is_longest_first(ordered)]
            {
                &&& ordered.len() == 5
                &&& is_longest_first(ordered)
                &&& forall|len: u64| #[trigger] of_length(ordered, len) == of_length(specs@.reverse(), len)
                &&& request == (Message::PlaceShipsRequest {
                    placement: [
                        placement_of(ordered[0]),
                        placement_of(ordered[1]),
                        placement_of(ordered[2]),
                        placement_of(ordered[3]),
                        placement_of(ordered[4]),
                    ],
                })
            },
{
    let ordered = order_by_length(specs);
    let mut placements: Vec<ShipPlacement> = Vec::new();
    let mut i: usize = 0;
    while i < ordered.len()
        invariant
            0 <= i <= ordered@.len(),
            placements@.len() == i,
            forall|j: int| 0 <= j < i ==> #[trigger] placements@[j] == placement_of(ordered@[j]),
        decreases ordered@.len() - i,
    {
        placements.push(to_ship_placement(&ordered[i]));
        i = i + 1;
    }
    let request = Message::PlaceShipsRequest {
        placement: [placements[0], placements[1], placements[2], placements[3], placements[4]],
    };
    proof {
        assert(is_longest_first(ordered@));
    }
    request
}

/// The request placing five ships sends them longest first: its placements
/// are those of a rearrangement of the ships in which no ship is longer
/// than one before it, and which holds the ships of each length, the later
/// placed first.
pub proof fn placement_message_is_longest_first(specs: Seq<PlacementSpec>)
    requires
        specs.len() == 5,
    ensures
        exists|ordered: Seq<PlacementSpec>|
            #![trigger is_longest_first(ordered)]
            {
                &&& ordered.len() == 5
                &&& is_longest_first(ordered)
                &&& forall|len: u64| #[trigger] of_length(ordered, len) == of_length(specs.reverse(), len)
                &&& placement_message(specs) == (Message::PlaceShipsRequest {
                    placement: [
                        placement_of(ordered[0]),
                        placement_of(ordered[1]),
                        placement_of(ordered[2]),
                        placement_of(ordered[3]),
                        placement_of(ordered[4]),
                    ],
                })
            },
{
    lemma_sort_properties(specs.reverse());
    assert(is_longest_first(longest_first(specs)));
}

/// The key under which the placement screen stores its `i`-th ship.
pub open spec fn index_key(i: int) -> Seq<char> {
    if i == 0 {
        "0"@
    } else if i == 1 {
        "1"@
    } else if i == 2 {
        "2"@
    } else if i == 3 {
        "3"@
    } else {
        "4"@
    }
}

/// The ship that a placement object describes: its entries `x`, `y` and
/// `length` are integers of `u64` range and `reverse`, `horizontal` are
/// booleans; nothing when one is missing or of another kind.
pub open spec fn placement_in(o: JsonValue) -> Option<PlacementSpec> {
    let x = as_u64_value(entry(o, "x"@));
    let y = as_u64_value(entry(o, "y"@));
    let length = as_u64_value(entry(o, "length"@));
    let reverse = as_bool_value(entry(o, "reverse"@));
    let horizontal = as_bool_value(entry(o, "horizontal"@));
    if x is Some && y is Some && length is Some && reverse is Some && horizontal is Some {
        Some(
            PlacementSpec {
                x: x->0,
                y: y->0,
                length: length->0,
                reverse: reverse->0,
                horizontal: horizontal->0,
            },
        )
    } else {
        None
    }
}

/// The five ships that a placement message describes under the keys "0" to
/// "4"; nothing when one of them is missing or malformed.
pub open spec fn placements_in(v: JsonValue) -> Option<Seq<PlacementSpec>> {
    if forall|i: int|
        0 <= i < 5 ==> #[trigger] entry(v, index_key(i)) is Some && placement_in(
            entry(v, index_key(i))->0,
        ) is Some {
        Some(Seq::new(5, |i: int| placement_in(entry(v, index_key(i))->0)->0))
    } else {
        None
    }
}

/// The key of the `i`-th ship.
fn index_key_str(i: usize) -> (key: &'static str)
    requires
        i < 5,
    ensures
        key@ == index_key(i as int),
{
    if i == 0 {
        "0"
    } else if i == 1 {
        "1"
    } else if i == 2 {
        "2"
    } else if i == 3 {
        "3"
    } else {
        "4"
    }
}

/// Reads one ship from a placement object.
pub fn placement_from_object(o: &JsonValue) -> (spec: Option<PlacementSpec>)
    ensures
        spec == placement_in(*o),
{
    let x = get_u64(o, "x");
    let y = get_u64(o, "y");
    let length = get_u64(o, "length");
    let reverse = get_bool(o, "reverse");
    let horizontal = get_bool(o, "horizontal");
    match (x, y, length, reverse, horizontal) {
        (Some(x), Some(y), Some(length), Some(reverse), Some(horizontal)) => Some(
            PlacementSpec { x, y, length, reverse, horizontal },
        ),
        _ => None,
    }
}

/// Reads the five ships of a placement message.
pub fn placements_from_json(v: &JsonValue) -> (specs: Option<Vec<PlacementSpec>>)
    ensures
        match specs {
            Some(s) => placements_in(*v) == Some(s@),
            None => placements_in(*v) is None,
        },
{
    let mut specs: Vec<PlacementSpec> = Vec::new();
    let mut i: usize = 0;
    while i < 5
        invariant
            0 <= i <= 5,
            specs@.len() == i,
            forall|j: int|
                0 <= j < i ==> #[trigger] entry(*v, index_key(j)) is Some && placement_in(
                    entry(*v, index_key(j))->0,
                ) == Some(specs@[j]),
        decreases 5 - i,
    {
        let key = index_key_str(i);
        match get_entry(v, key) {
            None => {
                proof {
                    assert(!(entry(*v, index_key(i as int)) is Some));
                }
                return None;
            },
            Some(o) => match placement_from_object(o) {
                None => {
                    proof {
                        assert(placement_in(entry(*v, index_key(i as int))->0) is None);
                    }
                    return None;
                },
                Some(spec) => {
                    specs.push(spec);
                },
            },
        }
        i = i + 1;
    }
    proof {
        assert(specs@ =~= Seq::new(5, |i: int| placement_in(entry(*v, index_key(i))->0)->0));
    }
    Some(specs)
}

/// The request that places the ships the placement screen sends as JSON
/// text; nothing when the text runs past the JSON parser's limits, is not
/// JSON, or does not describe five ships.
pub fn placement_request(text: &str) -> (request: Option<Message>)
    ensures
        request == if !json_within_parser_limits(text.spec_bytes()) {
            None
        } else {
            match parsed_json(text@) {
                None => None,
                Some(v) => match placements_in(v) {
                    None => None,
                    Some(specs) => Some(placement_message(specs)),
                },
            }
        },
{
    if !json_within_limits(text) {
        return None;
    }
    match parse_json(text) {
        None => None,
        Some(v) => match placements_from_json(&v) {
            None => None,
            Some(specs) => Some(place_ships_request(&specs)),
        },
    }
}

/// Inserting at the first element shorter than `e` is `insert_by_length`.
proof fn lemma_insert_at(s: Seq<PlacementSpec>, e: PlacementSpec, p: int)
    requires
        0 <= p <= s.len(),
        forall|q: int| 0 <= q < p ==> #[trigger] s[q].length >= e.length,
        p < s.len() ==> s[p].length < e.length,
    ensures
        insert_by_length(s, e) == s.insert(p, e),
    decreases s.len(),
{
    if s.len() == 0 {
        assert(s.insert(p, e) =~= seq![e]);
    } else if p == 0 {
        assert(s.insert(p, e) =~= seq![e] + s);
    } else {
        let t = s.drop_first();
        assert forall|q: int| 0 <= q < p - 1 implies #[trigger] t[q].length >= e.length by {
            assert(t[q] == s[q + 1]);
        }
        lemma_insert_at(t, e, p - 1);
        assert(s.insert(p, e) =~= seq![s[0]] + t.insert(p - 1, e));
    }
}

/// `of_length` distributes over concatenation.
proof fn lemma_of_length_concat(a: Seq<PlacementSpec>, b: Seq<PlacementSpec>, len: u64)
    ensures
        of_length(a + b, len) == of_length(a, len) + of_length(b, len),
    decreases b.len(),
{
    if b.len() == 0 {
        assert(a + b =~= a);
        assert(of_length(a, len) + of_length(b, len) =~= of_length(a, len));
    } else {
        lemma_of_length_concat(a, b.drop_last(), len);
        assert((a + b).drop_last() =~= a + b.drop_last());
        if b.last().length == len {
            assert(of_length(a, len) + of_length(b.drop_last(), len).push(b.last()) =~= (
            of_length(a, len) + of_length(b.drop_last(), len)).push(b.last()));
        }
    }
}

/// The subsequence of a one-element sequence.
proof fn lemma_of_length_single(e: PlacementSpec, len: u64)
    ensures
        of_length(seq![e], len) == (if e.length == len {
            seq![e]
        } else {
            Seq::<PlacementSpec>::empty()
        }),
{
    assert(seq![e].drop_last() =~= Seq::<PlacementSpec>::empty());
    assert(of_length(Seq::<PlacementSpec>::empty(), len) == Seq::<PlacementSpec>::empty());
    assert(Seq::<PlacementSpec>::empty().push(e) =~= seq![e]);
}

/// A sequence with no element of length `len` has no such subsequence.
proof fn lemma_of_length_none(s: Seq<PlacementSpec>, len: u64)
    requires
        forall|i: int| 0 <= i < s.len() ==> #[trigger] s[i].length != len,
    ensures
        of_length(s, len) == Seq::<PlacementSpec>::empty(),
    decreases s.len(),
{
    if s.len() > 0 {
        lemma_of_length_none(s.drop_last(), len);
    }
}

/// Inserting into a sorted sequence keeps it sorted, keeps the elements,
/// and puts `e` after every element of its length.
proof fn lemma_insert_properties(s: Seq<PlacementSpec>, e: PlacementSpec)
    requires
        is_longest_first(s),
    ensures
        insert_by_length(s, e).len() == s.len() + 1,
        is_longest_first(insert_by_length(s, e)),
        forall|len: u64| #[trigger] of_length(insert_by_length(s, e), len) == of_length(
            s.push(e),
            len,
        ),
    decreases s.len(),
{
    let r = insert_by_length(s, e);
    if s.len() == 0 {
        assert(s.push(e) =~= seq![e]);
    } else if s[0].length >= e.length {
        let t = s.drop_first();
        assert(is_longest_first(t)) by {
            assert forall|i: int, j: int| 0 <= i < j < t.len() implies #[trigger] t[i].length
                >= #[trigger] t[j].length by {
                assert(t[i] == s[i + 1] && t[j] == s[j + 1]);
            }
        }
        lemma_insert_properties(t, e);
        let rt = insert_by_length(t, e);
        assert(r == seq![s[0]] + rt);
        assert(is_longest_first(r)) by {
            assert forall|i: int, j: int| 0 <= i < j < r.len() implies #[trigger] r[i].length
                >= #[trigger] r[j].length by {
                if i == 0 {
                    assert(r[j] == rt[j - 1]);
                    // every element of rt is from t or is e
                    assert(of_length(rt, rt[j - 1].length) == of_length(t.push(e), rt[j - 1].length));
                    lemma_member_bound(rt, t.push(e), j - 1, s[0].length);
                } else {
                    assert(r[i] == rt[i - 1] && r[j] == rt[j - 1]);
                }
            }
        }
        assert forall|len: u64| #[trigger] of_length(r, len) == of_length(s.push(e), len) by {
            lemma_of_length_concat(seq![s[0]], rt, len);
            lemma_of_length_concat(seq![s[0]], t.push(e), len);
            assert(seq![s[0]] + t.push(e) =~= s.push(e));
        }
    } else {
        assert(r == seq![e] + s);
        assert(is_longest_first(r)) by {
            assert forall|i: int, j: int| 0 <= i < j < r.len() implies #[trigger] r[i].length
                >= #[trigger] r[j].length by {
                if i == 0 {
                    assert(r[j] == s[j - 1]);
                    assert(s[0].length >= s[j - 1].length);
                } else {
                    assert(r[i] == s[i - 1] && r[j] == s[j - 1]);
                }
            }
        }
        assert forall|len: u64| #[trigger] of_length(r, len) == of_length(s.push(e), len) by {
            lemma_of_length_concat(seq![e], s, len);
            lemma_of_length_concat(s, seq![e], len);
            assert(s + seq![e] =~= s.push(e));
            lemma_of_length_single(e, len);
            if e.length == len {
                assert forall|i: int| 0 <= i < s.len() implies #[trigger] s[i].length != len by {
                    assert(s[0].length >= s[i].length);
                }
                lemma_of_length_none(s, len);
            }
        }
    }
}

/// An element of `a` is no longer than `bound` when every element of `b`
/// is no longer than `bound` and `a`, `b` hold the same elements of that
/// element's length.
proof fn lemma_member_bound(a: Seq<PlacementSpec>, b: Seq<PlacementSpec>, j: int, bound: u64)
    requires
        0 <= j < a.len(),
        of_length(a, a[j].length) == of_length(b, a[j].length),
        forall|i: int| 0 <= i < b.len() ==> #[trigger] b[i].length <= bound,
    ensures
        a[j].length <= bound,
{
    let len = a[j].length;
    if len > bound {
        lemma_of_length_none(b, len);
        lemma_of_length_has(a, j);
    }
}

/// The subsequence of the length of `s[j]` is not empty.
proof fn lemma_of_length_has(s: Seq<PlacementSpec>, j: int)
    requires
        0 <= j < s.len(),
    ensures
        of_length(s, s[j].length).len() > 0,
    decreases s.len(),
{
    if j < s.len() - 1 {
        lemma_of_length_has(s.drop_last(), j);
        assert(s.drop_last()[j] == s[j]);
    }
}

/// Sorting by decreasing length keeps the elements of each length in their
/// order and sorts.
proof fn lemma_sort_properties(s: Seq<PlacementSpec>)
    ensures
        sort_by_length_desc(s).len() == s.len(),
        is_longest_first(sort_by_length_desc(s)),
        forall|len: u64| #[trigger] of_length(sort_by_length_desc(s), len) == of_length(s, len),
    decreases s.len(),
{
    if s.len() > 0 {
        lemma_sort_properties(s.drop_last());
        lemma_insert_properties(sort_by_length_desc(s.drop_last()), s.last());
        assert forall|len: u64| #[trigger] of_length(sort_by_length_desc(s), len) == of_length(
            s,
            len,
        ) by {
            let t = sort_by_length_desc(s.drop_last());
            assert(sort_by_length_desc(s) == insert_by_length(t, s.last()));
            assert(of_length(insert_by_length(t, s.last()), len) == of_length(t.push(s.last()), len));
            assert(t.push(s.last()).drop_last() =~= t);
            assert(t.push(s.last()).last() == s.last());
            assert(of_length(t, len) == of_length(s.drop_last(), len));
            if s.last().length == len {
                assert(of_length(t.push(s.last()), len) == of_length(t, len).push(s.last()));
            } else {
                assert(of_length(t.push(s.last()), len) == of_length(t, len));
            }
        }
    } else {
        assert(sort_by_length_desc(s) =~= Seq::<PlacementSpec>::empty());
    }
}

} // verus!
