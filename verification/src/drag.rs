//! The drag-and-drop interaction on the shared node list. A drag carries one
//! node id, encoded as a decimal string in the platform's drag payload; a
//! drop decodes it, locates the dragged and the target record in the list,
//! and swaps the two positions. A payload that does not decode, or an id that
//! is not in the list, leaves the list unchanged.

use vstd::prelude::*;
use vstd::string::StringSliceAdditionalSpecFns;
use crate::model::{contains_id, first_index_of, lemma_first_index_of, unique_ids, Node};

verus! {

/// A decimal digit, as a byte.
pub open spec fn is_digit_byte(b: u8) -> bool {
    48 <= b <= 57
}

/// Every byte of `s` is a decimal digit.
pub open spec fn all_digit_bytes(s: Seq<u8>) -> bool {
    forall|i: int| 0 <= i < s.len() ==> is_digit_byte(s[i])
}

/// The number a sequence of decimal digits denotes, most significant first.
pub open spec fn digits_value(s: Seq<u8>) -> int
    decreases s.len(),
{
    if s.len() == 0 {
        0
    } else {
        digits_value(s.drop_last()) * 10 + (s.last() - 48)
    }
}

/// A well-formed drag payload: an optional leading minus sign, then at least
/// one decimal digit, denoting a value in `i32`'s range.
pub open spec fn valid_id_payload(s: Seq<u8>) -> bool {
    if s.len() > 0 && s[0] == 45 {
        let d = s.subrange(1, s.len() as int);
        d.len() > 0 && all_digit_bytes(d) && digits_value(d) <= 0x8000_0000
    } else {
        s.len() > 0 && all_digit_bytes(s) && digits_value(s) <= 0x7fff_ffff
    }
}

/// The id a well-formed payload denotes.
pub open spec fn payload_value(s: Seq<u8>) -> int {
    if s.len() > 0 && s[0] == 45 {
        -digits_value(s.subrange(1, s.len() as int))
    } else {
        digits_value(s)
    }
}

/// What decoding a payload yields: the id it denotes when well formed,
/// nothing otherwise.
pub open spec fn spec_parse_id(s: Seq<u8>) -> Option<i32> {
    if valid_id_payload(s) {
        Some(payload_value(s) as i32)
    } else {
        None
    }
}

proof fn lemma_digits_value_nonneg(s: Seq<u8>)
    requires
        all_digit_bytes(s),
    ensures
        digits_value(s) >= 0,
    decreases s.len(),
{
    if s.len() > 0 {
        assert(all_digit_bytes(s.drop_last()));
        lemma_digits_value_nonneg(s.drop_last());
    }
}

/// A longer run of digits never denotes less than any of its prefixes.
proof fn lemma_digits_value_prefix(s: Seq<u8>, m: int)
    requires
        all_digit_bytes(s),
        0 <= m <= s.len(),
    ensures
        digits_value(s) >= digits_value(s.take(m)),
    decreases s.len(),
{
    if m == s.len() {
        assert(s.take(m) =~= s);
    } else {
        assert(all_digit_bytes(s.drop_last()));
        assert(s.take(m) =~= s.drop_last().take(m));
        lemma_digits_value_prefix(s.drop_last(), m);
        lemma_digits_value_nonneg(s.drop_last());
    }
}

/// Decodes a drag payload: an optional leading minus sign, then decimal
/// digits, giving the carried node id; anything else, or a value outside
/// `i32`'s range, decodes to nothing.
pub fn parse_node_id(s: &str) -> (r: Option<i32>)
    ensures
        r == spec_parse_id(s.spec_bytes()),
{
    let b = s.as_bytes();
    let n: usize = b.len();
    if n == 0 {
        return None;
    }
    let neg = b[0] == 45u8;
    let start: usize = if neg {
        1
    } else {
        0
    };
    if n == start {
        return None;
    }
    let mut i: usize = start;
    let mut v: i64 = 0;
    while i < n
        invariant
            start <= i <= n,
            n == b@.len(),
            n > start,
            b@ == s.spec_bytes(),
            neg == (b@[0] == 45),
            start == (if neg {
                1int
            } else {
                0int
            }),
            all_digit_bytes(b@.subrange(start as int, i as int)),
            v == digits_value(b@.subrange(start as int, i as int)),
            0 <= v <= 0x8000_0000,
        decreases n - i,
    {
        let c: u8 = b[i];
        if c < 48 || c > 57 {
            proof {
                if neg {
                    let d = b@.subrange(1, n as int);
                    assert(!is_digit_byte(d[i - 1]));
                } else {
                    assert(!is_digit_byte(b@[i as int]));
                }
                assert(!valid_id_payload(s.spec_bytes()));
            }
            return None;
        }
        proof {
            let pre = b@.subrange(start as int, i as int);
            let ext = b@.subrange(start as int, i as int + 1);
            assert(ext.drop_last() =~= pre);
            assert(ext.last() == b@[i as int]);
        }
        v = v * 10 + (c - 48) as i64;
        if v > 0x8000_0000i64 {
            proof {
                let d = b@.subrange(start as int, n as int);
                if valid_id_payload(s.spec_bytes()) {
                    assert(d =~= (if neg {
                        s.spec_bytes().subrange(1, n as int)
                    } else {
                        s.spec_bytes()
                    }));
                    assert(all_digit_bytes(d));
                    assert(d.take(i as int + 1 - start) =~= b@.subrange(
                        start as int,
                        i as int + 1,
                    ));
                    lemma_digits_value_prefix(d, i as int + 1 - start);
                    assert(digits_value(d) > 0x8000_0000);
                }
            }
            return None;
        }
        i += 1;
    }
    proof {
        let d = b@.subrange(start as int, n as int);
        assert(d =~= (if neg {
            s.spec_bytes().subrange(1, n as int)
        } else {
            s.spec_bytes()
        }));
    }
    if neg {
        Some((-v) as i32)
    } else {
        if v > 0x7fff_ffffi64 {
            None
        } else {
            Some(v as i32)
        }
    }
}

/// `s` with the entries at `i` and `j` exchanged.
pub open spec fn swap_at(s: Seq<Node>, i: int, j: int) -> Seq<Node> {
    s.update(i, s[j]).update(j, s[i])
}

/// The list after dropping the dragged id on the target id: the first record
/// carrying each id exchange positions when both are present; otherwise the
/// list is unchanged.
pub open spec fn drop_swap_spec(s: Seq<Node>, dragged_id: i32, target_id: i32) -> Seq<Node> {
    if contains_id(s, dragged_id) && contains_id(s, target_id) {
        swap_at(s, first_index_of(s, dragged_id), first_index_of(s, target_id))
    } else {
        s
    }
}

/// The position of the first record of `nodes` carrying `id`, or `None` when
/// no record does.
pub fn find_node_index(nodes: &[Node], id: i32) -> (r: Option<usize>)
    ensures
        (match r {
            Some(u) => u as int == first_index_of(nodes@, id),
            None => !contains_id(nodes@, id),
        }),
{
    proof {
        lemma_first_index_of(nodes@, id);
    }
    let n = nodes.len();
    let mut i: usize = 0;
    while i < n
        invariant
            i <= n,
            n == nodes@.len(),
            forall|k: int| 0 <= k < i ==> nodes@[k].id != id,
            contains_id(nodes@, id) <==> first_index_of(nodes@, id) >= 0,
            first_index_of(nodes@, id) >= 0 ==> first_index_of(nodes@, id) < nodes@.len()
                && nodes@[first_index_of(nodes@, id)].id == id,
            forall|k: int| 0 <= k < first_index_of(nodes@, id) ==> nodes@[k].id != id,
        decreases n - i,
    {
        if nodes[i].id == id {
            return Some(i);
        }
        i += 1;
    }
    None
}

/// Drops the dragged record on the target record: swaps the two list
/// positions in place when both ids are present, and otherwise leaves the
/// list exactly as it was. Returns whether a swap happened.
pub fn drop_swap(nodes: &mut Vec<Node>, dragged_id: i32, target_id: i32) -> (r: bool)
    ensures
        final(nodes)@ == drop_swap_spec(old(nodes)@, dragged_id, target_id),
        r == (contains_id(old(nodes)@, dragged_id) && contains_id(old(nodes)@, target_id)),
{
    let di = match find_node_index(nodes.as_slice(), dragged_id) {
        Some(i) => i,
        None => {
            return false;
        },
    };
    let ti = match find_node_index(nodes.as_slice(), target_id) {
        Some(i) => i,
        None => {
            return false;
        },
    };
    proof {
        lemma_first_index_of(nodes@, dragged_id);
        lemma_first_index_of(nodes@, target_id);
    }
    let dragged = nodes[di].clone();
    let target = nodes[ti].clone();
    nodes.set(di, target);
    nodes.set(ti, dragged);
    true
}

/// Dropping one node on another is a true swap: the two records exchange
/// their positions, every other position keeps its record, and performing the
/// same drop again restores the list as it was.
pub proof fn lemma_drop_swap_is_swap(s: Seq<Node>, a: i32, b: i32)
    requires
        unique_ids(s),
        a != b,
        contains_id(s, a),
        contains_id(s, b),
    ensures
        ({
            let i = first_index_of(s, a);
            let j = first_index_of(s, b);
            let s2 = drop_swap_spec(s, a, b);
            &&& 0 <= i < s.len()
            &&& 0 <= j < s.len()
            &&& i != j
            &&& s2.len() == s.len()
            &&& s2[i] == s[j]
            &&& s2[j] == s[i]
            &&& forall|k: int| 0 <= k < s.len() && k != i && k != j ==> s2[k] == s[k]
            &&& drop_swap_spec(s2, a, b) == s
        }),
{
    lemma_first_index_of(s, a);
    lemma_first_index_of(s, b);
    let i = first_index_of(s, a);
    let j = first_index_of(s, b);
    let s2 = drop_swap_spec(s, a, b);
    assert(s2 == swap_at(s, i, j));
    assert(s2[j] == s[i]);
    assert(contains_id(s2, a));
    assert(s2[i] == s[j]);
    assert(contains_id(s2, b));
    lemma_first_index_of(s2, a);
    lemma_first_index_of(s2, b);
    assert forall|k: int| 0 <= k < s2.len() && s2[k].id == a implies k == j by {
        if k != i && k != j {
            assert(s2[k] == s[k]);
            assert(s[k].id != s[i].id);
        }
    }
    assert forall|k: int| 0 <= k < s2.len() && s2[k].id == b implies k == i by {
        if k != i && k != j {
            assert(s2[k] == s[k]);
            assert(s[k].id != s[j].id);
        }
    }
    assert(first_index_of(s2, a) == j);
    assert(first_index_of(s2, b) == i);
    assert(drop_swap_spec(s2, a, b) == swap_at(s2, j, i));
    assert(swap_at(s2, j, i) =~= s);
}

/// Dropping a node on itself leaves the list unchanged.
pub proof fn lemma_drop_swap_same(s: Seq<Node>, a: i32)
    ensures
        drop_swap_spec(s, a, a) == s,
{
    if contains_id(s, a) {
        lemma_first_index_of(s, a);
        let i = first_index_of(s, a);
        assert(swap_at(s, i, i) =~= s);
    }
}

} // verus!
