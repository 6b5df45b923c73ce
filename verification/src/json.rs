//! JSON values as the placement screen sends them, read with rustc-serialize,
//! and the lookups that the placement reading makes in them.

use vstd::prelude::*;

use rustc_serialize::json::Json;
use vstd::string::StringSliceAdditionalSpecFns;
use rustc_serialize::json::Json::{Boolean, Object, I64, U64};

verus! {

/// A JSON value, with the kinds the placement reading tells apart: booleans,
/// integers and objects (their entries in key order); every other value is
/// `Other`.
pub enum JsonValue {
    Bool(bool),
    I64(i64),
    U64(u64),
    Object(Vec<(String, JsonValue)>),
    Other,
}

/// The value that rustc-serialize's parser reads from `text`, if the text is
/// valid JSON.
pub uninterp spec fn parsed_json(text: Seq<char>) -> Option<JsonValue>;

/// rustc-serialize's `Json::from_str`: parses `text`, `None` on a syntax
/// error. The contract names the result `parsed_json(text@)` and claims
/// nothing more of it. Objects are converted down to the third level (the
/// top-level object, the objects in it and their entries); an object nested
/// deeper comes out as `Other`. The parser panics when the object keys open
/// at one time take more than 65,535 bytes (it keeps them at 16-bit offsets)
/// and when an exponent overflows a `usize`; `requires` leaves those texts
/// out. How deep a nesting the parser's recursion survives depends on the
/// stack it runs on, which this contract leaves unsaid.
#[verifier::external_body]
pub fn parse_json(text: &str) -> (value: Option<JsonValue>)
    requires
        json_within_parser_limits(text.spec_bytes()),
    ensures
        value == parsed_json(text@),
{
    let leaf = |j: &Json| match j {
        Boolean(b) => JsonValue::Bool(*b),
        I64(n) => JsonValue::I64(*n),
        U64(n) => JsonValue::U64(*n),
        _ => JsonValue::Other,
    };
    let inner = |j: &Json| match j {
        Object(m) => JsonValue::Object(m.iter().map(|(k, v)| (k.clone(), leaf(v))).collect()),
        _ => leaf(j),
    };
    Json::from_str(text).ok().map(|j| match &j {
        Object(m) => JsonValue::Object(m.iter().map(|(k, v)| (k.clone(), inner(v))).collect()),
        _ => inner(&j),
    })
}

/// The value of the first entry with key `key`.
pub open spec fn lookup_entry(entries: Seq<(String, JsonValue)>, key: Seq<char>) -> Option<
    JsonValue,
>
    decreases entries.len(),
{
    if entries.len() == 0 {
        None
    } else if entries[0].0@ == key {
        Some(entries[0].1)
    } else {
        lookup_entry(entries.drop_first(), key)
    }
}

/// The entry `key` of an object; nothing for a value that is not an object.
pub open spec fn entry(v: JsonValue, key: Seq<char>) -> Option<JsonValue> {
    match v {
        JsonValue::Object(entries) => lookup_entry(entries@, key),
        _ => None,
    }
}

/// An integer that fits in a `u64`, as rustc-serialize's `Json::as_u64`
/// reads it.
pub open spec fn as_u64_value(v: Option<JsonValue>) -> Option<u64> {
    match v {
        Some(JsonValue::U64(n)) => Some(n),
        Some(JsonValue::I64(n)) => if n >= 0 {
            Some(n as u64)
        } else {
            None
        },
        _ => None,
    }
}

/// A boolean, as rustc-serialize's `Json::as_boolean` reads it.
pub open spec fn as_bool_value(v: Option<JsonValue>) -> Option<bool> {
    match v {
        Some(JsonValue::Bool(b)) => Some(b),
        _ => None,
    }
}

/// Looks the entry `key` up in an object.
pub fn get_entry<'a>(v: &'a JsonValue, key: &str) -> (found: Option<&'a JsonValue>)
    ensures
        match found {
            Some(e) => entry(*v, key@) == Some(*e),
            None => entry(*v, key@) is None,
        },
{
    match v {
        JsonValue::Object(entries) => {
            let wanted = key.to_owned();
            let n = entries.len();
            let mut i: usize = 0;
            proof {
                assert(entries@.skip(0) =~= entries@);
                assert(entry(*v, key@) == lookup_entry(entries@, key@));
            }
            while i < n
                invariant
                    n == entries@.len(),
                    0 <= i <= n,
                    wanted@ == key@,
                    entry(*v, key@) == lookup_entry(entries@, key@),
                    lookup_entry(entries@, key@) == lookup_entry(entries@.skip(i as int), key@),
                decreases n - i,
            {
                proof {
                    assert(entries@.skip(i as int).drop_first() =~= entries@.skip(i + 1));
                    assert(entries@.skip(i as int)[0] == entries@[i as int]);
                }
                if entries[i].0 == wanted {
                    proof {
                        assert(entries@[i as int].0@ == key@);
                        assert(lookup_entry(entries@.skip(i as int), key@) == Some(entries@[i as int].1));
                    }
                    let pair = &entries[i];
                    let found = &pair.1;
                    assert(*found == entries@[i as int].1);
                    return Some(found);
                }
                i = i + 1;
            }
            proof {
                assert(entries@.skip(n as int).len() == 0);
            }
            None
        },
        _ => None,
    }
}

/// The entry `key` of an object as a `u64`.
pub fn get_u64(v: &JsonValue, key: &str) -> (n: Option<u64>)
    ensures
        n == as_u64_value(entry(*v, key@)),
{
    match get_entry(v, key) {
        Some(JsonValue::U64(n)) => Some(*n),
        Some(JsonValue::I64(n)) => if *n >= 0 {
            Some(*n as u64)
        } else {
            None
        },
        _ => None,
    }
}

/// The entry `key` of an object as a boolean.
pub fn get_bool(v: &JsonValue, key: &str) -> (b: Option<bool>)
    ensures
        b == as_bool_value(entry(*v, key@)),
{
    match get_entry(v, key) {
        Some(JsonValue::Bool(b)) => Some(*b),
        _ => None,
    }
}

// ---------------------------------------------------------------------------
// The limits of the parser
// ---------------------------------------------------------------------------

/// What a left-to-right reading of the bytes of a JSON text has seen so far:
/// whether it is inside a string (and right after a backslash there), the
/// bytes of the current string (counted up to 65,536), the length of a
/// string that may still turn out to be a key, the length of the latest key
/// of each open object or array (0 for an array), whether a digit came just
/// before, and where it stands in an exponent (`exp_phase` 1 after the `e`,
/// 2 after its sign, 3 in its digits) with the exponent's value so far.
pub struct JsonScan {
    pub in_string: bool,
    pub escaped: bool,
    pub run: int,
    pub pending: Option<int>,
    pub keys: Seq<int>,
    pub digit_before: bool,
    pub exp_phase: int,
    pub exp_value: int,
}

/// The sum of a sequence of numbers.
pub open spec fn seq_sum(s: Seq<int>) -> int
    decreases s.len(),
{
    if s.len() == 0 {
        0
    } else {
        seq_sum(s.drop_last()) + s.last()
    }
}

/// JSON whitespace.
pub open spec fn is_json_space(b: u8) -> bool {
    b == 32 || b == 9 || b == 10 || b == 13
}

/// An ASCII digit.
pub open spec fn is_digit(b: u8) -> bool {
    48 <= b <= 57
}

/// One more string byte, counted up to 65,536.
pub open spec fn count_up(run: int) -> int {
    if run >= 65536 {
        65536
    } else {
        run + 1
    }
}

/// The state before the first byte.
pub open spec fn scan_start() -> JsonScan {
    JsonScan {
        in_string: false,
        escaped: false,
        run: 0,
        pending: None,
        keys: Seq::empty(),
        digit_before: false,
        exp_phase: 0,
        exp_value: 0,
    }
}

/// The state after reading the byte `b` in state `s`.
pub open spec fn scan_step(s: JsonScan, b: u8) -> JsonScan {
    let plain = JsonScan { pending: None, digit_before: false, exp_phase: 0, exp_value: 0, ..s };
    if s.in_string {
        if s.escaped {
            JsonScan { escaped: false, run: count_up(s.run), ..s }
        } else if b == 92 {
            JsonScan { escaped: true, run: count_up(s.run), ..s }
        } else if b == 34 {
            JsonScan { in_string: false, pending: Some(s.run), ..s }
        } else {
            JsonScan { run: count_up(s.run), ..s }
        }
    } else if b == 34 {
        JsonScan { in_string: true, escaped: false, run: 0, ..plain }
    } else if is_json_space(b) {
        JsonScan { digit_before: false, exp_phase: 0, exp_value: 0, ..s }
    } else if b == 58 {
        if s.pending is Some && s.keys.len() > 0 {
            JsonScan { keys: s.keys.update(s.keys.len() - 1, s.pending->0), ..plain }
        } else {
            plain
        }
    } else if b == 123 || b == 91 {
        JsonScan { keys: s.keys.push(0), ..plain }
    } else if b == 125 || b == 93 {
        JsonScan {
            keys: if s.keys.len() > 0 {
                s.keys.drop_last()
            } else {
                s.keys
            },
            ..plain
        }
    } else if is_digit(b) {
        if s.exp_phase >= 1 {
            JsonScan { exp_phase: 3, exp_value: s.exp_value * 10 + (b - 48), ..plain }
        } else {
            JsonScan { digit_before: true, ..plain }
        }
    } else if (b == 101 || b == 69) && s.digit_before {
        JsonScan { exp_phase: 1, exp_value: 0, ..plain }
    } else if (b == 43 || b == 45) && s.exp_phase == 1 {
        JsonScan { exp_phase: 2, exp_value: 0, ..plain }
    } else {
        plain
    }
}

/// The state after the first `n` bytes.
pub open spec fn scan_prefix(bytes: Seq<u8>, n: int) -> JsonScan
    decreases n,
{
    if n <= 0 {
        scan_start()
    } else {
        scan_step(scan_prefix(bytes, n - 1), bytes[n - 1])
    }
}

/// Reading `b` in state `s` stays within the parser's limits: a key that
/// completes keeps the open keys within 65,535 bytes, and an exponent digit
/// keeps the exponent within a `usize`.
pub open spec fn step_within_limits(s: JsonScan, b: u8) -> bool {
    &&& (!s.in_string && b == 58 && s.pending is Some && s.keys.len() > 0) ==> seq_sum(
        s.keys.drop_last(),
    ) + s.pending->0 <= 65535
    &&& (!s.in_string && is_digit(b) && s.exp_phase >= 1) ==> s.exp_value * 10 + (b - 48)
        <= usize::MAX
}

/// The JSON text with UTF-8 encoding `bytes` stays within the parser's
/// limits at every byte: the object keys open at one time, as written in
/// the text, take at most 65,535 bytes, and every exponent fits in a
/// `usize`.
pub open spec fn json_within_parser_limits(bytes: Seq<u8>) -> bool {
    forall|i: int| 0 <= i < bytes.len() ==> #[trigger] step_within_limits(scan_prefix(bytes, i), bytes[i])
}

proof fn lemma_sum_update_last(s: Seq<int>, v: int)
    requires
        s.len() > 0,
    ensures
        seq_sum(s.update(s.len() - 1, v)) == seq_sum(s.drop_last()) + v,
{
    assert(s.update(s.len() - 1, v).drop_last() =~= s.drop_last());
}

proof fn lemma_sum_push(s: Seq<int>, v: int)
    ensures
        seq_sum(s.push(v)) == seq_sum(s) + v,
{
    assert(s.push(v).drop_last() =~= s);
}

proof fn lemma_sum_nonneg(s: Seq<int>)
    requires
        forall|i: int| 0 <= i < s.len() ==> #[trigger] s[i] >= 0,
    ensures
        seq_sum(s) >= 0,
    decreases s.len(),
{
    if s.len() > 0 {
        let t = s.drop_last();
        assert forall|i: int| 0 <= i < t.len() implies #[trigger] t[i] >= 0 by {
            assert(t[i] == s[i]);
        }
        lemma_sum_nonneg(t);
    }
}

/// Whether rustc-serialize's parser can read `text` without running past
/// its limits (see `json_within_parser_limits`).
pub fn json_within_limits(text: &str) -> (ok: bool)
    ensures
        ok == json_within_parser_limits(text.spec_bytes()),
{
    let bytes = text.as_bytes();
    let ghost all = text.spec_bytes();
    let n = bytes.len();
    let mut in_string = false;
    let mut escaped = false;
    let mut run: usize = 0;
    let mut pending: Option<usize> = None;
    let mut keys: Vec<usize> = Vec::new();
    let mut total: usize = 0;
    let mut digit_before = false;
    let mut exp_phase: u8 = 0;
    let mut exp_value: usize = 0;
    let mut i: usize = 0;
    while i < n
        invariant
            bytes@ == all,
            all == text.spec_bytes(),
            n == all.len(),
            0 <= i <= n,
            forall|j: int| 0 <= j < i ==> #[trigger] step_within_limits(scan_prefix(all, j), all[j]),
            ({
                let s = scan_prefix(all, i as int);
                &&& s.in_string == in_string
                &&& s.escaped == escaped
                &&& s.run == run as int
                &&& s.run <= 65536
                &&& (match pending {
                    Some(p) => s.pending == Some(p as int),
                    None => s.pending is None,
                })
                &&& (pending matches Some(p) ==> p <= 65536)
                &&& s.keys.len() == keys@.len()
                &&& forall|j: int| 0 <= j < keys@.len() ==> #[trigger] s.keys[j] == keys@[j] as int
                &&& seq_sum(s.keys) == total as int
                &&& total <= 65535
                &&& s.digit_before == digit_before
                &&& s.exp_phase == exp_phase as int
                &&& s.exp_value == exp_value as int
            }),
        decreases n - i,
    {
        let b = bytes[i];
        let ghost s = scan_prefix(all, i as int);
        proof {
            assert forall|j: int| 0 <= j < s.keys.len() implies #[trigger] s.keys[j] >= 0 by {
                assert(s.keys[j] == keys@[j] as int);
            }
            if s.keys.len() > 0 {
                lemma_elem_le_sum(s.keys, s.keys.len() - 1);
                lemma_sum_nonneg(s.keys.drop_last());
                assert forall|j: int| 0 <= j < s.keys.drop_last().len() implies #[trigger] s.keys.drop_last()[j] >= 0 by {
                    assert(s.keys.drop_last()[j] == s.keys[j]);
                }
            }
        }
        if in_string {
            if escaped {
                escaped = false;
                run = if run >= 65536 { 65536 } else { run + 1 };
            } else if b == 92 {
                escaped = true;
                run = if run >= 65536 { 65536 } else { run + 1 };
            } else if b == 34 {
                in_string = false;
                pending = Some(run);
            } else {
                run = if run >= 65536 { 65536 } else { run + 1 };
            }
        } else if b == 34 {
            in_string = true;
            escaped = false;
            run = 0;
            pending = None;
            digit_before = false;
            exp_phase = 0;
            exp_value = 0;
        } else if b == 32 || b == 9 || b == 10 || b == 13 {
            digit_before = false;
            exp_phase = 0;
            exp_value = 0;
        } else {
            if b == 58 {
                if let Some(p) = pending {
                    if keys.len() > 0 {
                        let last = keys.len() - 1;
                        let top = keys[last];
                        let others = total - top;
                        proof {
                            lemma_sum_update_last(s.keys, s.keys[last as int]);
                            assert(s.keys.update(last as int, s.keys[last as int]) =~= s.keys);
                        }
                        if others + p > 65535 {
                            proof {
                                assert(bytes@[i as int] == all[i as int]);
                                assert(seq_sum(s.keys.drop_last()) == others as int);
                                assert(!step_within_limits(scan_prefix(all, i as int), all[i as int]));
                            assert(!json_within_parser_limits(all));
                            }
                            return false;
                        }
                        keys.set(last, p);
                        total = others + p;
                        proof {
                            lemma_sum_update_last(s.keys, p as int);
                        }
                    }
                }
            } else if b == 123 || b == 91 {
                keys.push(0);
                proof {
                    lemma_sum_push(s.keys, 0);
                }
            } else if b == 125 || b == 93 {
                if keys.len() > 0 {
                    let top = keys.pop().unwrap();
                    total = total - top;
                    proof {
                        assert(s.keys == s.keys.drop_last().push(s.keys.last()));
                    }
                }
            }
            if 48 <= b && b <= 57 {
                if exp_phase >= 1 {
                    let d = (b - 48) as usize;
                    if exp_value > (usize::MAX - d) / 10 {
                        proof {
                            assert(exp_value * 10 + d > usize::MAX) by (nonlinear_arith)
                                requires
                                    exp_value > (usize::MAX - d) / 10,
                                    d <= 9,
                            ;
                            assert(bytes@[i as int] == all[i as int]);
                            assert(!step_within_limits(scan_prefix(all, i as int), all[i as int]));
                            assert(!json_within_parser_limits(all));
                        }
                        return false;
                    }
                    proof {
                        assert(exp_value * 10 + d <= usize::MAX) by (nonlinear_arith)
                            requires
                                exp_value <= (usize::MAX - d) / 10,
                                d <= 9,
                        ;
                    }
                    exp_value = exp_value * 10 + d;
                    exp_phase = 3;
                    pending = None;
                    digit_before = false;
                } else {
                    pending = None;
                    digit_before = true;
                    exp_phase = 0;
                    exp_value = 0;
                }
            } else if (b == 101 || b == 69) && digit_before {
                pending = None;
                digit_before = false;
                exp_phase = 1;
                exp_value = 0;
            } else if (b == 43 || b == 45) && exp_phase == 1 {
                pending = None;
                digit_before = false;
                exp_phase = 2;
                exp_value = 0;
            } else {
                pending = None;
                digit_before = false;
                exp_phase = 0;
                exp_value = 0;
            }
        }
        proof {
            assert(scan_prefix(all, i + 1) == scan_step(s, b));
        }
        i = i + 1;
    }
    true
}

/// An element of a sequence of non-negative numbers is at most its sum.
proof fn lemma_elem_le_sum(s: Seq<int>, j: int)
    requires
        0 <= j < s.len(),
        forall|i: int| 0 <= i < s.len() ==> #[trigger] s[i] >= 0,
    ensures
        s[j] <= seq_sum(s),
    decreases s.len(),
{
    let t = s.drop_last();
    assert forall|i: int| 0 <= i < t.len() implies #[trigger] t[i] >= 0 by {
        assert(t[i] == s[i]);
    }
    lemma_sum_nonneg(t);
    if j < s.len() - 1 {
        lemma_elem_le_sum(t, j);
        assert(t[j] == s[j]);
    }
}

} // verus!
