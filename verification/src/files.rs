//! The names of log files, `<N>.log`, and which logs a directory holds.

use vstd::prelude::*;

verus! {

/// `.log`
pub open spec fn log_suffix() -> Seq<u8> {
    seq![0x2eu8, 0x6cu8, 0x6fu8, 0x67u8]
}

/// The decimal digits of `number`, without leading zeros.
pub open spec fn decimal(number: nat) -> Seq<u8>
    decreases number,
{
    if number < 10 {
        seq![(0x30 + number) as u8]
    } else {
        decimal(number / 10) + seq![(0x30 + number % 10) as u8]
    }
}

/// The name of log `file_id`: its decimal digits and `.log`.
pub open spec fn log_name(file_id: u64) -> Seq<u8> {
    decimal(file_id as nat) + log_suffix()
}

/// Whether `byte` is a decimal digit.
pub open spec fn is_digit(byte: u8) -> bool {
    0x30 <= byte <= 0x39
}

/// The number that the first `count` bytes of `digits` spell, or `None`
/// where one of them is no digit.
pub open spec fn digits_value(digits: Seq<u8>, count: int) -> Option<nat>
    decreases count,
{
    if count <= 0 {
        Some(0)
    } else {
        match digits_value(digits, count - 1) {
            Some(value) if is_digit(digits[count - 1]) => Some(value * 10 + (digits[count - 1] - 0x30) as nat),
            _ => None,
        }
    }
}

/// The id that `name` spells: at least one digit, then `.log`, and a
/// value that a `u64` holds. Leading zeros are read like other digits.
pub open spec fn spelled_id(name: Seq<u8>) -> Option<u64> {
    if name.len() > 4 && name.subrange(name.len() - 4, name.len() as int) == log_suffix() {
        match digits_value(name, name.len() - 4) {
            Some(value) if value <= u64::MAX => Some(value as u64),
            _ => None,
        }
    } else {
        None
    }
}

/// The id of the log that is named `name`, if `name` is the name of one.
pub open spec fn log_id(name: Seq<u8>) -> Option<u64> {
    match spelled_id(name) {
        Some(id) if name == log_name(id) => Some(id),
        _ => None,
    }
}

/// What follows the first `count` bytes does not change what they spell.
pub proof fn lemma_digits_prefix(digits: Seq<u8>, longer: Seq<u8>, count: int)
    requires
        0 <= count <= digits.len() <= longer.len(),
        longer.subrange(0, digits.len() as int) == digits,
    ensures
        digits_value(longer, count) == digits_value(digits, count),
    decreases count,
{
    if count > 0 {
        lemma_digits_prefix(digits, longer, count - 1);
        assert(longer.subrange(0, digits.len() as int)[count - 1] == longer[count - 1]);
    }
}

/// The digits of a number spell that number.
pub proof fn lemma_decimal_spells(number: nat)
    ensures
        decimal(number).len() > 0,
        digits_value(decimal(number), decimal(number).len() as int) == Some(number),
    decreases number,
{
    if number < 10 {
        let digits = decimal(number);
        assert(digits.len() == 1);
        assert(digits_value(digits, 0) == Some(0nat));
        assert(is_digit(digits[0]));
    } else {
        let shorter = decimal(number / 10);
        let digits = decimal(number);
        lemma_decimal_spells(number / 10);
        assert(digits.subrange(0, shorter.len() as int) =~= shorter);
        lemma_digits_prefix(shorter, digits, shorter.len() as int);
        assert(digits[digits.len() - 1] == (0x30 + number % 10) as u8);
        assert(is_digit(digits[digits.len() - 1]));
    }
}

/// The name of a log spells the id of that log, and only the name of log
/// `id` is read as `id`.
pub proof fn law_log_name_round_trip(file_id: u64)
    ensures
        log_id(log_name(file_id)) == Some(file_id),
{
    let digits = decimal(file_id as nat);
    let name = log_name(file_id);
    lemma_decimal_spells(file_id as nat);
    assert(name.subrange(name.len() - 4, name.len() as int) =~= log_suffix());
    assert(name.subrange(0, digits.len() as int) =~= digits);
    lemma_digits_prefix(digits, name, digits.len() as int);
}

fn write_decimal(out: &mut Vec<u8>, number: u64)
    ensures
        final(out)@ == old(out)@ + decimal(number as nat),
    decreases number,
{
    if number >= 10 {
        write_decimal(out, number / 10);
    }
    out.push(0x30 + (number % 10) as u8);
    proof {
        assert(out@ =~= old(out)@ + decimal(number as nat));
    }
}

/// The name of log `file_id`.
pub fn log_file_name(file_id: u64) -> (name: Vec<u8>)
    ensures
        name@ == log_name(file_id),
{
    let mut name: Vec<u8> = Vec::new();
    write_decimal(&mut name, file_id);
    name.push(0x2e);
    name.push(0x6c);
    name.push(0x6f);
    name.push(0x67);
    proof {
        assert(name@ =~= log_name(file_id));
    }
    name
}

/// The more digits are read, the larger the number they spell.
proof fn lemma_digits_grow(digits: Seq<u8>, fewer: int, more: int)
    requires
        0 <= fewer <= more,
        digits_value(digits, more) is Some,
    ensures
        digits_value(digits, fewer) matches Some(value) && value <= digits_value(digits, more).unwrap(),
    decreases more - fewer,
{
    if fewer < more {
        lemma_digits_grow(digits, fewer, more - 1);
    }
}

/// Once a byte is no digit, no longer stretch spells a number.
proof fn lemma_digits_stay_none(digits: Seq<u8>, fewer: int, more: int)
    requires
        0 <= fewer <= more,
        digits_value(digits, fewer) is None,
    ensures
        digits_value(digits, more) is None,
    decreases more - fewer,
{
    if fewer < more {
        lemma_digits_stay_none(digits, fewer, more - 1);
    }
}

fn read_spelled_id(name: &[u8]) -> (id: Option<u64>)
    ensures
        id == spelled_id(name@),
{
    let total: usize = name.len();
    if total <= 4 {
        return None;
    }
    let digits: usize = total - 4;
    if name[digits] != 0x2e || name[digits + 1] != 0x6c || name[digits + 2] != 0x6f || name[digits + 3] != 0x67 {
        proof {
            let tail = name@.subrange(total - 4, total as int);
            assert(tail[0] == name@[digits as int]);
            assert(tail[1] == name@[digits + 1]);
            assert(tail[2] == name@[digits + 2]);
            assert(tail[3] == name@[digits + 3]);
        }
        return None;
    }
    proof {
        assert(name@.subrange(total - 4, total as int) =~= log_suffix());
    }
    let mut value: u64 = 0;
    let mut i: usize = 0;
    while i < digits
        invariant
            total == name@.len(),
            digits == total - 4,
            i <= digits,
            digits_value(name@, i as int) == Some(value as nat),
        decreases digits - i,
    {
        let byte: u8 = name[i];
        if byte < 0x30 || byte > 0x39 {
            proof {
                assert(digits_value(name@, i + 1) is None);
                lemma_digits_stay_none(name@, i + 1, digits as int);
            }
            return None;
        }
        let next = match value.checked_mul(10) {
            Some(tens) => tens.checked_add((byte - 0x30) as u64),
            None => None,
        };
        match next {
            Some(next) => {
                value = next;
            },
            None => {
                proof {
                    assert(digits_value(name@, i + 1) == Some((value * 10 + (byte - 0x30)) as nat));
                    if digits_value(name@, digits as int) is Some {
                        lemma_digits_grow(name@, i + 1, digits as int);
                    }
                }
                return None;
            },
        }
        i += 1;
    }
    Some(value)
}

fn same_bytes(left: &[u8], right: &[u8]) -> (same: bool)
    ensures
        same == (left@ == right@),
{
    if left.len() != right.len() {
        return false;
    }
    let mut i: usize = 0;
    while i < left.len()
        invariant
            left@.len() == right@.len(),
            i <= left@.len(),
            forall|j: int| 0 <= j < i ==> left@[j] == right@[j],
        decreases left@.len() - i,
    {
        if left[i] != right[i] {
            return false;
        }
        i += 1;
    }
    proof {
        assert(left@ =~= right@);
    }
    true
}

/// Reads the name of a directory entry: the id of the log that has this
/// name, or `None` for any other name.
pub fn log_file_id(name: &[u8]) -> (id: Option<u64>)
    ensures
        id == log_id(name@),
        id matches Some(file_id) ==> name@ == log_name(file_id),
        id is None ==> forall|file_id: u64| name@ != #[trigger] log_name(file_id),
{
    proof {
        assert forall|file_id: u64| name@ == #[trigger] log_name(file_id) implies log_id(name@) == Some(
            file_id,
        ) by {
            law_log_name_round_trip(file_id);
        }
    }
    match read_spelled_id(name) {
        None => None,
        Some(id) => {
            let canonical = log_file_name(id);
            if same_bytes(name, canonical.as_slice()) {
                Some(id)
            } else {
                None
            }
        },
    }
}

/// Whether `ids` grows strictly from each id to the next.
pub open spec fn ascending(ids: Seq<u64>) -> bool {
    forall|i: int, j: int| 0 <= i < j < ids.len() ==> ids[i] < ids[j]
}

/// Whether one of the first `count` names is the name of log `id`.
pub open spec fn names_log(names: Seq<Vec<u8>>, count: int, id: u64) -> bool {
    exists|i: int| 0 <= i < count && (#[trigger] names[i])@ == log_name(id)
}

fn insert_id(ids: &mut Vec<u64>, id: u64)
    requires
        ascending(old(ids)@),
    ensures
        ascending(final(ids)@),
        forall|other: u64| final(ids)@.contains(other) <==> (other == id || old(ids)@.contains(other)),
{
    let mut at: usize = 0;
    while at < ids.len() && ids[at] < id
        invariant
            ids@ == old(ids)@,
            ascending(ids@),
            at <= ids@.len(),
            forall|j: int| 0 <= j < at ==> ids@[j] < id,
        decreases ids@.len() - at,
    {
        at += 1;
    }
    if at < ids.len() && ids[at] == id {
        proof {
            assert(ids@.contains(id));
        }
        return;
    }
    ids.insert(at, id);
    proof {
        let before = old(ids)@;
        let after = ids@;
        assert(after == before.insert(at as int, id));
        assert forall|i: int, j: int| 0 <= i < j < after.len() implies after[i] < after[j] by {
            if i < at && j > at {
                assert(after[i] == before[i]);
                assert(after[j] == before[j - 1]);
            }
        }
        assert forall|other: u64| after.contains(other) <==> (other == id || before.contains(other)) by {
            if after.contains(other) {
                let k = choose|k: int| 0 <= k < after.len() && after[k] == other;
                if k < at {
                    assert(before[k] == other);
                } else if k > at {
                    assert(before[k - 1] == other);
                }
            }
            if other == id {
                assert(after[at as int] == id);
            }
            if before.contains(other) {
                let k = choose|k: int| 0 <= k < before.len() && before[k] == other;
                if k < at {
                    assert(after[k] == other);
                } else {
                    assert(after[k + 1] == other);
                }
            }
        }
    }
}

/// The ids of the logs among the entries of a directory, oldest first:
/// every entry whose name is the name of a log counts, every other entry
/// is passed over.
pub fn sorted_log_ids(names: &Vec<Vec<u8>>) -> (ids: Vec<u64>)
    ensures
        ascending(ids@),
        forall|id: u64| ids@.contains(id) <==> names_log(names@, names@.len() as int, id),
{
    let mut ids: Vec<u64> = Vec::new();
    let mut i: usize = 0;
    while i < names.len()
        invariant
            i <= names@.len(),
            ascending(ids@),
            forall|id: u64| ids@.contains(id) <==> names_log(names@, i as int, id),
        decreases names@.len() - i,
    {
        let ghost before = ids@;
        match log_file_id(names[i].as_slice()) {
            Some(id) => {
                insert_id(&mut ids, id);
                proof {
                    assert forall|other: u64| ids@.contains(other) <==> names_log(
                        names@,
                        i + 1,
                        other,
                    ) by {
                        if other == id {
                            assert(names@[i as int]@ == log_name(id));
                        }
                        if names_log(names@, i + 1, other) && other != id {
                            let k = choose|k: int| 0 <= k < i + 1 && (#[trigger] names@[k])@ == log_name(other);
                            if k == i {
                                law_log_name_round_trip(other);
                                law_log_name_round_trip(id);
                            }
                            assert(names_log(names@, i as int, other));
                        }
                        if before.contains(other) {
                            let k = choose|k: int| 0 <= k < i && (#[trigger] names@[k])@ == log_name(other);
                            assert(0 <= k < i + 1);
                        }
                    }
                }
            },
            None => {
                proof {
                    assert forall|other: u64| ids@.contains(other) <==> names_log(
                        names@,
                        i + 1,
                        other,
                    ) by {
                        if names_log(names@, i + 1, other) {
                            let k = choose|k: int| 0 <= k < i + 1 && (#[trigger] names@[k])@ == log_name(other);
                            assert(k != i);
                            assert(names_log(names@, i as int, other));
                        }
                        if ids@.contains(other) {
                            let k = choose|k: int| 0 <= k < i && (#[trigger] names@[k])@ == log_name(other);
                            assert(0 <= k < i + 1);
                        }
                    }
                }
            },
        }
        i += 1;
    }
    ids
}

/// Those of the first `count` ids that lie below `bound`, in their
/// order.
pub open spec fn below(ids: Seq<u64>, bound: u64, count: int) -> Seq<u64>
    decreases count,
{
    if count <= 0 {
        Seq::empty()
    } else if ids[count - 1] < bound {
        below(ids, bound, count - 1).push(ids[count - 1])
    } else {
        below(ids, bound, count - 1)
    }
}

/// The ids among `ids` that lie below `bound`, in the order of `ids`:
/// the logs that a safe point of `bound` has made stale.
pub fn stale_ids(ids: &Vec<u64>, bound: u64) -> (stale: Vec<u64>)
    ensures
        stale@ == below(ids@, bound, ids@.len() as int),
        forall|id: u64| stale@.contains(id) <==> id < bound && ids@.contains(id),
{
    let mut stale: Vec<u64> = Vec::new();
    let mut i: usize = 0;
    while i < ids.len()
        invariant
            i <= ids@.len(),
            stale@ == below(ids@, bound, i as int),
        decreases ids@.len() - i,
    {
        if ids[i] < bound {
            stale.push(ids[i]);
        }
        i += 1;
    }
    proof {
        assert(ids@.subrange(0, ids@.len() as int) =~= ids@);
        assert forall|id: u64| stale@.contains(id) <==> id < bound && ids@.contains(id) by {
            lemma_below_holds(ids@, bound, ids@.len() as int, id);
        }
    }
    stale
}

/// Every id of `ids` below `bound` is stale, and nothing else is.
pub proof fn lemma_below_holds(ids: Seq<u64>, bound: u64, count: int, id: u64)
    requires
        0 <= count <= ids.len(),
    ensures
        below(ids, bound, count).contains(id) <==> id < bound && ids.subrange(0, count).contains(id),
    decreases count,
{
    if count > 0 {
        lemma_below_holds(ids, bound, count - 1, id);
        let shorter = ids.subrange(0, count - 1);
        let longer = ids.subrange(0, count);
        assert(longer =~= shorter.push(ids[count - 1]));
        if shorter.contains(id) {
            let k = choose|k: int| 0 <= k < shorter.len() && shorter[k] == id;
            assert(longer[k] == id);
        }
        if longer.contains(id) && ids[count - 1] != id {
            let k = choose|k: int| 0 <= k < longer.len() && longer[k] == id;
            assert(shorter[k] == id);
        }
        if ids[count - 1] == id {
            assert(longer[count - 1] == id);
        }
        let rest = below(ids, bound, count - 1);
        if ids[count - 1] < bound {
            let all = rest.push(ids[count - 1]);
            if rest.contains(id) {
                let k = choose|k: int| 0 <= k < rest.len() && rest[k] == id;
                assert(all[k] == id);
            }
            if all.contains(id) && ids[count - 1] != id {
                let k = choose|k: int| 0 <= k < all.len() && all[k] == id;
                assert(rest[k] == id);
            }
            if ids[count - 1] == id {
                assert(all[all.len() - 1] == id);
            }
        }
    }
}

} // verus!
