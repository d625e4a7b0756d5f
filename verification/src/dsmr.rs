//! Picking the power readings out of a DSMR5 P1 telegram.

use dsmr5::types::UFixedDouble;
use dsmr5::{Readout, OBIS};
use crate::text::{
    chars_of, cursor_ok, find_char, first_index_of, has_prefix, lemma_find_char_first, matches_at,
    next_piece, pieces_left, split_on, str_from_utf8,
};
use vstd::prelude::*;
use vstd::utf8::{decode_utf8, encode_utf8_decode_utf8, valid_utf8};

verus! {

/// The meter's fixed-point reading, carried opaquely.
#[verifier::external_type_specification]
#[verifier::external_body]
pub struct ExUFixedDouble(UFixedDouble);

/// A COSEM object of a telegram, as far as the power readings go.
pub enum PowerObject {
    /// `1-0:1.7.0`: the power the meter delivers.
    Delivered(UFixedDouble),
    /// `1-0:2.7.0`: the power the meter receives.
    Received(UFixedDouble),
    /// Any other object, or one that did not parse.
    Other,
}

/// The kind of a [`PowerObject`], without its value.
#[derive(Debug, Clone, Copy, PartialEq, Eq, Structural)]
pub enum ObjectKind {
    Delivered,
    Received,
    Other,
}

/// The kind of an object.
pub open spec fn kind_of(o: PowerObject) -> ObjectKind {
    match o {
        PowerObject::Delivered(_) => ObjectKind::Delivered,
        PowerObject::Received(_) => ObjectKind::Received,
        PowerObject::Other => ObjectKind::Other,
    }
}

/// The kinds of the objects of a sequence.
pub open spec fn kinds(objects: Seq<PowerObject>) -> Seq<ObjectKind> {
    objects.map_values(|o: PowerObject| kind_of(o))
}

/// Index of the first object of kind `k`.
pub open spec fn first_of_kind(ks: Seq<ObjectKind>, k: ObjectKind) -> Option<int>
    decreases ks.len(),
{
    if ks.len() == 0 {
        None
    } else if ks[0] == k {
        Some(0)
    } else {
        match first_of_kind(ks.drop_first(), k) {
            Some(i) => Some(i + 1),
            None => None,
        }
    }
}

/// `0-`: how the references of objects on a slave channel begin.
pub const ZERO_CHANNEL_PREFIX: [char; 2] = ['0', '-'];

/// `1-0:`: how the references of electricity objects begin.
pub const ELECTRICITY_PREFIX: [char; 4] = ['1', '-', '0', ':'];

/// `0-0:1.0.0`: the reference of the telegram's timestamp.
pub const TIMESTAMP_REF: [char; 9] = ['0', '-', '0', ':', '1', '.', '0', '.', '0'];

/// `24.2.1`: the end of the reference of a metered slave reading (gas,
/// water), after its channel.
pub const SLAVE_READING_REF: [char; 6] = ['2', '4', '.', '2', '.', '1'];

/// An ASCII character.
pub open spec fn is_ascii_char(c: char) -> bool {
    (c as u32) < 128
}

/// Every character of `s` is ASCII.
pub open spec fn all_ascii(s: Seq<char>) -> bool {
    forall|i: int| 0 <= i < s.len() ==> is_ascii_char(#[trigger] s[i])
}

/// The first `n` characters of `s` (all of them when it is shorter) are
/// ASCII.
pub open spec fn ascii_head(s: Seq<char>, n: int) -> bool {
    forall|i: int| 0 <= i < s.len() && i < n ==> is_ascii_char(#[trigger] s[i])
}

/// The reference `0-n:24.2.1` of a metered slave reading on channel 1 to 4.
pub open spec fn is_slave_reading_ref(r: Seq<char>) -> bool {
    &&& r.len() == 10
    &&& r[0] == '0'
    &&& r[1] == '-'
    &&& 49 <= (r[2] as u32) <= 52
    &&& r.subrange(4, 10) == SLAVE_READING_REF@
}

/// In a slave reading line (reference, then `(` at index 10), the
/// measurement, which runs from the second `(` on, has its decimal point,
/// if any, at most 9 characters in.
pub open spec fn slave_point_ok(line: Seq<char>) -> bool {
    match first_index_of(line.skip(11), '(') {
        None => true,
        Some(e) => match first_index_of(line.skip(11 + e), '.') {
            None => true,
            Some(p) => p <= 9,
        },
    }
}

/// A line that `dsmr5`'s object parser reads without panicking, as far as
/// these conditions go.  The reference is what precedes the first `(`, the
/// body the rest.  The parser slices a `0-` reference at fixed byte
/// offsets, the first 14 bytes of a timestamp body and of the fixed-point
/// bodies (all under `1-0:`), and the parts of a slave reading; and it
/// computes `9 - point` for the decimal point of a slave reading.
pub open spec fn line_is_parsable(line: Seq<char>) -> bool {
    match first_index_of(line, '(') {
        None => true,
        Some(k) => {
            let r = line.take(k);
            let body = line.skip(k);
            &&& has_prefix(r, ZERO_CHANNEL_PREFIX@) ==> all_ascii(r)
            &&& (has_prefix(r, ELECTRICITY_PREFIX@) || r == TIMESTAMP_REF@) ==> ascii_head(body, 14)
            &&& is_slave_reading_ref(r) ==> all_ascii(line) && slave_point_ok(line)
        },
    }
}

/// A readout buffer on which `dsmr5` returns without panicking, by a
/// sufficient condition: either it is not UTF-8 (the telegram is then
/// refused before any object is read), or every `\n`-separated line of its
/// text is parsable in the sense of [`line_is_parsable`].
pub open spec fn readout_is_parsable(buffer: Seq<u8>) -> bool {
    valid_utf8(buffer) ==> forall|i: int|
        0 <= i < split_on(decode_utf8(buffer), '\n').len() ==> #[trigger] line_is_parsable(
            split_on(decode_utf8(buffer), '\n')[i],
        )
}

/// The power objects of the telegram that a readout buffer holds, as
/// `dsmr5` parses it; `None` when the telegram does not parse or its
/// checksum is wrong.
pub uninterp spec fn telegram_power_objects(buffer: Seq<u8>) -> Option<Seq<PowerObject>>;

/// `dsmr5::Readout::to_telegram` and `Telegram::objects` on a readout buffer,
/// each object told apart by its variant.  What the objects are is a
/// function of the buffer alone.  A buffer that is not UTF-8 is refused by
/// `to_telegram` (`core::str::from_utf8` comes first).  Every object line is
/// a prefix of a `\n`-separated line of the buffer's text (the objects start
/// after the blank line and end before `\r\n!`; `str::lines` drops a
/// trailing `\r`), and [`line_is_parsable`] holds of every prefix of a line
/// it holds of, so the slicing and the `9 - point` underflow of the object
/// parser are ruled out.
#[verifier::external_body]
fn telegram_objects(buffer: &[u8; 2048]) -> (r: Option<Vec<PowerObject>>)
    requires
        readout_is_parsable(buffer@),
    ensures
        match telegram_power_objects(buffer@) {
            None => r is None,
            Some(objects) => r matches Some(v) && v@ == objects,
        },
        !valid_utf8(buffer@) ==> r is None,
{
    let readout = Readout { buffer: *buffer };
    match readout.to_telegram() {
        Err(_) => None,
        Ok(telegram) => Some(telegram.objects().map(|o| match o {
            Ok(OBIS::PowerDelivered(n)) => PowerObject::Delivered(n),
            Ok(OBIS::PowerReceived(n)) => PowerObject::Received(n),
            _ => PowerObject::Other,
        }).collect()),
    }
}

/// Whether `chars[lo..hi]` is all ASCII.
fn all_ascii_in(chars: &Vec<char>, lo: usize, hi: usize) -> (ok: bool)
    requires
        lo <= hi <= chars@.len(),
    ensures
        ok == all_ascii(chars@.subrange(lo as int, hi as int)),
{
    let ghost s = chars@.subrange(lo as int, hi as int);
    let mut i = lo;
    while i < hi
        invariant
            lo <= i <= hi <= chars@.len(),
            s == chars@.subrange(lo as int, hi as int),
            forall|k: int| lo <= k < i ==> is_ascii_char(chars@[k]),
        decreases hi - i,
    {
        if chars[i] as u32 >= 128 {
            assert(!is_ascii_char(s[i - lo]));
            return false;
        }
        i = i + 1;
    }
    assert forall|k: int| 0 <= k < s.len() implies is_ascii_char(#[trigger] s[k]) by {
        assert(s[k] == chars@[lo + k]);
    }
    true
}

/// Whether the slave reading point condition holds of `chars[a..b]`, a line
/// whose reference ends at `a + 10`.
fn slave_point_ok_in(chars: &Vec<char>, a: usize, b: usize) -> (ok: bool)
    requires
        a + 11 <= b <= chars@.len(),
    ensures
        ok == slave_point_ok(chars@.subrange(a as int, b as int)),
{
    let ghost line = chars@.subrange(a as int, b as int);
    let e = find_char(chars, a + 11, b, '(');
    proof {
        lemma_find_char_first(chars@, a + 11, b as int, '(', e as int);
        assert(line.skip(11) =~= chars@.subrange(a + 11, b as int));
    }
    if e == b {
        return true;
    }
    let p = find_char(chars, e, b, '.');
    proof {
        lemma_find_char_first(chars@, e as int, b as int, '.', p as int);
        assert(line.skip(11 + (e - (a + 11))) =~= chars@.subrange(e as int, b as int));
    }
    p == b || p - e <= 9
}

/// Whether `chars[a..b]` is a parsable line.
fn line_is_parsable_in(chars: &Vec<char>, a: usize, b: usize) -> (ok: bool)
    requires
        a <= b <= chars@.len(),
    ensures
        ok == line_is_parsable(chars@.subrange(a as int, b as int)),
{
    let ghost line = chars@.subrange(a as int, b as int);
    let k = find_char(chars, a, b, '(');
    proof {
        lemma_find_char_first(chars@, a as int, b as int, '(', k as int);
    }
    if k == b {
        return true;
    }
    let ghost r = chars@.subrange(a as int, k as int);
    let ghost body = chars@.subrange(k as int, b as int);
    assert(line.take(k - a) =~= r);
    assert(line.skip(k - a) =~= body);
    let zero = k - a >= 2 && matches_at(chars, a, &ZERO_CHANNEL_PREFIX);
    proof {
        if k - a >= 2 {
            assert(r.take(2) =~= chars@.subrange(a as int, a + 2));
        }
    }
    if zero && !all_ascii_in(chars, a, k) {
        return false;
    }
    let electricity = (k - a >= 4 && matches_at(chars, a, &ELECTRICITY_PREFIX)) || (k - a == 9
        && matches_at(chars, a, &TIMESTAMP_REF));
    proof {
        if k - a >= 4 {
            assert(r.take(4) =~= chars@.subrange(a as int, a + 4));
        }
        if k - a == 9 {
            assert(r =~= chars@.subrange(a as int, a + 9));
        }
    }
    let head_end = if b - k < 14 {
        b
    } else {
        k + 14
    };
    if electricity && !all_ascii_in(chars, k, head_end) {
        proof {
            let h = chars@.subrange(k as int, head_end as int);
            let m = choose|m: int| 0 <= m < h.len() && !is_ascii_char(#[trigger] h[m]);
            assert(body[m] == h[m]);
        }
        return false;
    }
    proof {
        if electricity {
            let h = chars@.subrange(k as int, head_end as int);
            assert forall|m: int| 0 <= m < body.len() && m < 14 implies is_ascii_char(
                #[trigger] body[m],
            ) by {
                assert(body[m] == h[m]);
            }
        }
    }
    let slave = k - a == 10 && chars[a] == '0' && chars[a + 1] == '-' && chars[a + 2] as u32 >= 49
        && chars[a + 2] as u32 <= 52 && matches_at(chars, a + 4, &SLAVE_READING_REF);
    proof {
        if k - a == 10 {
            assert(r.subrange(4, 10) =~= chars@.subrange(a + 4, a + 10));
        }
    }
    if slave {
        assert(chars@[k as int] == '(');
        if !all_ascii_in(chars, a, b) {
            return false;
        }
        return slave_point_ok_in(chars, a, b);
    }
    true
}

/// Whether a readout buffer meets [`readout_is_parsable`], the condition
/// under which [`readout_powers`] may be called.
pub fn readout_is_parsable_exec(buffer: &[u8; 2048]) -> (ok: bool)
    ensures
        ok == readout_is_parsable(buffer@),
{
    let text = match str_from_utf8(buffer.as_slice()) {
        Err(_) => {
            return true;
        },
        Ok(text) => text,
    };
    proof {
        encode_utf8_decode_utf8(text@);
    }
    let chars = chars_of(text);
    let len = chars.len();
    assert(chars@ == decode_utf8(buffer@));
    assert(chars@.subrange(0, len as int) =~= chars@);
    let ghost lines = split_on(chars@, '\n');
    let mut cur: Option<usize> = Some(0);
    let ghost mut k: int = 0;
    loop
        invariant
            chars@ == decode_utf8(buffer@),
            valid_utf8(buffer@),
            len == chars@.len(),
            lines == split_on(chars@, '\n'),
            cursor_ok(chars@, len as int, cur),
            0 <= k <= lines.len(),
            pieces_left(chars@, len as int, cur, '\n') == lines.skip(k),
            forall|j: int| 0 <= j < k ==> #[trigger] line_is_parsable(lines[j]),
        decreases lines.len() - k,
    {
        let ghost before = pieces_left(chars@, len as int, cur, '\n');
        let (piece, next) = next_piece(&chars, len, cur, '\n');
        match piece {
            None => {
                assert(k == lines.len());
                return true;
            },
            Some((a, b)) => {
                assert(before[0] == lines[k]);
                if !line_is_parsable_in(&chars, a, b) {
                    return false;
                }
                assert(before.drop_first() =~= lines.skip(k + 1));
                cur = next;
                proof {
                    k = k + 1;
                }
            },
        }
    }
}

/// The two power readings of a telegram.
pub struct PowerPair {
    pub delivered: UFixedDouble,
    pub received: UFixedDouble,
}

/// Index of the first object of kind `k` in `objects`.
fn find_kind(objects: &Vec<PowerObject>, k: ObjectKind) -> (r: Option<usize>)
    ensures
        r matches Some(i) ==> first_of_kind(kinds(objects@), k) == Some(i as int),
        r is None ==> first_of_kind(kinds(objects@), k) is None,
        r matches Some(i) ==> i < objects@.len(),
{
    let ghost ks = kinds(objects@);
    let mut i: usize = 0;
    while i < objects.len()
        invariant
            i <= objects@.len(),
            ks == kinds(objects@),
            forall|m: int| 0 <= m < i ==> ks[m] != k,
        decreases objects@.len() - i,
    {
        let this = match &objects[i] {
            PowerObject::Delivered(_) => ObjectKind::Delivered,
            PowerObject::Received(_) => ObjectKind::Received,
            PowerObject::Other => ObjectKind::Other,
        };
        assert(this == ks[i as int]);
        if this == k {
            proof {
                lemma_first_of_kind_at(ks, k, i as int);
            }
            return Some(i);
        }
        i = i + 1;
    }
    proof {
        lemma_first_of_kind_none(ks, k);
    }
    None
}

/// The first object of kind `k` sits where every earlier one differs.
proof fn lemma_first_of_kind_at(ks: Seq<ObjectKind>, k: ObjectKind, i: int)
    requires
        0 <= i < ks.len(),
        ks[i] == k,
        forall|m: int| 0 <= m < i ==> ks[m] != k,
    ensures
        first_of_kind(ks, k) == Some(i),
    decreases i,
{
    if i > 0 {
        let t = ks.drop_first();
        assert forall|m: int| 0 <= m < i - 1 implies t[m] != k by {
            assert(t[m] == ks[m + 1]);
        }
        lemma_first_of_kind_at(t, k, i - 1);
    }
}

/// The first object of kind `k` is of kind `k`.
proof fn lemma_first_of_kind_found(ks: Seq<ObjectKind>, k: ObjectKind)
    ensures
        first_of_kind(ks, k) matches Some(i) ==> 0 <= i < ks.len() && ks[i] == k,
    decreases ks.len(),
{
    if ks.len() > 0 {
        lemma_first_of_kind_found(ks.drop_first(), k);
    }
}

/// Without an object of kind `k` there is no first one.
proof fn lemma_first_of_kind_none(ks: Seq<ObjectKind>, k: ObjectKind)
    requires
        forall|m: int| 0 <= m < ks.len() ==> ks[m] != k,
    ensures
        first_of_kind(ks, k) is None,
    decreases ks.len(),
{
    if ks.len() > 0 {
        let t = ks.drop_first();
        assert forall|m: int| 0 <= m < t.len() implies t[m] != k by {
            assert(t[m] == ks[m + 1]);
        }
        lemma_first_of_kind_none(t, k);
    }
}

/// The values of the first `Received` and the first `Delivered` object;
/// `None` when either kind is missing.
pub fn select_powers(objects: Vec<PowerObject>) -> (r: Option<PowerPair>)
    ensures
        match (
            first_of_kind(kinds(objects@), ObjectKind::Received),
            first_of_kind(kinds(objects@), ObjectKind::Delivered),
        ) {
            (Some(i), Some(j)) => r matches Some(p) && objects@[i] == PowerObject::Received(
                p.received,
            ) && objects@[j] == PowerObject::Delivered(p.delivered),
            _ => r is None,
        },
{
    let ghost orig = objects@;
    let ri = match find_kind(&objects, ObjectKind::Received) {
        None => return None,
        Some(i) => i,
    };
    let di = match find_kind(&objects, ObjectKind::Delivered) {
        None => return None,
        Some(i) => i,
    };
    proof {
        lemma_first_of_kind_found(kinds(orig), ObjectKind::Received);
        lemma_first_of_kind_found(kinds(orig), ObjectKind::Delivered);
    }
    assert(kinds(orig)[ri as int] == ObjectKind::Received);
    assert(kinds(orig)[di as int] == ObjectKind::Delivered);
    assert(kind_of(orig[ri as int]) == ObjectKind::Received);
    assert(kind_of(orig[di as int]) == ObjectKind::Delivered);
    let mut objects = objects;
    let (received, delivered) = if ri > di {
        let r = objects.remove(ri);
        let d = objects.remove(di);
        (r, d)
    } else {
        let d = objects.remove(di);
        let r = objects.remove(ri);
        (r, d)
    };
    match (received, delivered) {
        (PowerObject::Received(received), PowerObject::Delivered(delivered)) => {
            Some(PowerPair { delivered, received })
        },
        _ => {
            proof {
                assert(false);
            }
            None
        },
    }
}

/// The power readings of the telegram in a readout buffer: the first
/// `Received` and the first `Delivered` object of the telegram, `None` when
/// the telegram does not parse or lacks either of them.
pub fn readout_powers(buffer: &[u8; 2048]) -> (r: Option<PowerPair>)
    requires
        readout_is_parsable(buffer@),
    ensures
        !valid_utf8(buffer@) ==> r is None,
        match telegram_power_objects(buffer@) {
            None => r is None,
            Some(objects) => match (
                first_of_kind(kinds(objects), ObjectKind::Received),
                first_of_kind(kinds(objects), ObjectKind::Delivered),
            ) {
                (Some(i), Some(j)) => r matches Some(p) && objects[i] == PowerObject::Received(
                    p.received,
                ) && objects[j] == PowerObject::Delivered(p.delivered),
                _ => r is None,
            },
        },
{
    match telegram_objects(buffer) {
        None => None,
        Some(objects) => select_powers(objects),
    }
}

/// The first `c` in `s` is a `c`, and none comes before it.
proof fn lemma_first_index_of_found(s: Seq<char>, c: char)
    ensures
        first_index_of(s, c) matches Some(k) ==> 0 <= k < s.len() && s[k] == c && forall|j: int|
            0 <= j < k ==> s[j] != c,
    decreases s.len(),
{
    if s.len() > 0 && s[0] != c {
        let t = s.drop_first();
        lemma_first_index_of_found(t, c);
        if let Some(k) = first_index_of(t, c) {
            assert forall|j: int| 0 <= j < k + 1 implies s[j] != c by {
                if j > 0 {
                    assert(s[j] == t[j - 1]);
                }
            }
        }
    }
}

/// Replacing one character that is not `c` by another that is not `c`
/// leaves the first `c` where it was.
proof fn lemma_first_index_of_update(s: Seq<char>, i: int, x: char, c: char)
    requires
        0 <= i < s.len(),
        s[i] != c,
        x != c,
    ensures
        first_index_of(s.update(i, x), c) == first_index_of(s, c),
    decreases i,
{
    let u = s.update(i, x);
    if i == 0 {
        assert(u.drop_first() =~= s.drop_first());
    } else {
        assert(u[0] == s[0]);
        assert(u.drop_first() =~= s.drop_first().update(i - 1, x));
        lemma_first_index_of_update(s.drop_first(), i - 1, x, c);
    }
}

/// A line of ASCII characters is parsable unless it is a metered slave
/// reading, on any of the channels 1 to 4, whose measurement has its
/// decimal point more than 9 characters in.
pub proof fn law_ascii_line_parsable(line: Seq<char>)
    requires
        all_ascii(line),
    ensures
        line_is_parsable(line) == match first_index_of(line, '(') {
            None => true,
            Some(k) => is_slave_reading_ref(line.take(k)) ==> slave_point_ok(line),
        },
{
    lemma_first_index_of_found(line, '(');
    if let Some(k) = first_index_of(line, '(') {
        let r = line.take(k);
        let body = line.skip(k);
        assert forall|i: int| 0 <= i < r.len() implies is_ascii_char(#[trigger] r[i]) by {
            assert(r[i] == line[i]);
        }
        assert forall|i: int| 0 <= i < body.len() && i < 14 implies is_ascii_char(
            #[trigger] body[i],
        ) by {
            assert(body[i] == line[k + i]);
        }
    }
}

/// The M-Bus channel of a line, the digit 1 to 4 at index 2, does not
/// decide whether the line is parsable: a line on one channel is parsable
/// exactly when the same line on another channel is.
pub proof fn law_channel_irrelevant(line: Seq<char>, c: char)
    requires
        line.len() > 2,
        49 <= (line[2] as u32) <= 52,
        49 <= (c as u32) <= 52,
    ensures
        line_is_parsable(line.update(2, c)) == line_is_parsable(line),
{
    let u = line.update(2, c);
    lemma_first_index_of_update(line, 2, c, '(');
    lemma_first_index_of_found(line, '(');
    if let Some(k) = first_index_of(line, '(') {
        let r = line.take(k);
        let ru = u.take(k);
        assert(k != 2);
        if k < 2 {
            assert(ru =~= r);
        } else {
            assert(ru =~= r.update(2, c));
            assert(!has_prefix(r, ELECTRICITY_PREFIX@)) by {
                if has_prefix(r, ELECTRICITY_PREFIX@) {
                    assert(r.take(4)[2] == r[2]);
                }
            }
            assert(!has_prefix(ru, ELECTRICITY_PREFIX@)) by {
                if has_prefix(ru, ELECTRICITY_PREFIX@) {
                    assert(ru.take(4)[2] == ru[2]);
                }
            }
            assert(r != TIMESTAMP_REF@) by {
                if r == TIMESTAMP_REF@ {
                    assert(r[2] == '0');
                }
            }
            assert(ru != TIMESTAMP_REF@) by {
                if ru == TIMESTAMP_REF@ {
                    assert(ru[2] == '0');
                }
            }
            assert(has_prefix(ru, ZERO_CHANNEL_PREFIX@) == has_prefix(r, ZERO_CHANNEL_PREFIX@)) by {
                assert(ru.take(2) =~= r.take(2));
            }
            assert(all_ascii(ru) == all_ascii(r)) by {
                if all_ascii(r) {
                    assert forall|i: int| 0 <= i < ru.len() implies is_ascii_char(#[trigger] ru[i]) by {
                        if i != 2 {
                            assert(ru[i] == r[i]);
                        }
                    }
                }
                if all_ascii(ru) {
                    assert forall|i: int| 0 <= i < r.len() implies is_ascii_char(#[trigger] r[i]) by {
                        if i != 2 {
                            assert(ru[i] == r[i]);
                        }
                    }
                }
            }
            assert(all_ascii(u) == all_ascii(line)) by {
                if all_ascii(line) {
                    assert forall|i: int| 0 <= i < u.len() implies is_ascii_char(#[trigger] u[i]) by {
                        if i != 2 {
                            assert(u[i] == line[i]);
                        }
                    }
                }
                if all_ascii(u) {
                    assert forall|i: int| 0 <= i < line.len() implies is_ascii_char(#[trigger] line[i]) by {
                        if i != 2 {
                            assert(u[i] == line[i]);
                        }
                    }
                }
            }
            assert(is_slave_reading_ref(ru) == is_slave_reading_ref(r)) by {
                if r.len() == 10 {
                    assert(ru.subrange(4, 10) =~= r.subrange(4, 10));
                }
            }
            if is_slave_reading_ref(r) {
                assert(u.skip(11) =~= line.skip(11));
                if let Some(e) = first_index_of(line.skip(11), '(') {
                    lemma_first_index_of_found(line.skip(11), '(');
                    assert(u.skip(11 + e) =~= line.skip(11 + e));
                }
            }
            assert(u.skip(k) =~= line.skip(k));
        }
    }
}

} // verus!
