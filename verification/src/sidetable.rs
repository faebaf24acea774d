//! The JSON side table: a self-describing key/value document holding the
//! object table (keyed by stable index) and the interned-string table, so
//! that every string handle referenced by records and objects can be
//! resolved after reload.
//!
//! The document is emitted without whitespace, with a fixed key order, and
//! with strings escaped (`\"`, `\\`, and `\u00XX` for control bytes); the
//! parser accepts exactly that shape.

use vstd::prelude::*;
use crate::table::{Object, ObjectTable};
use crate::interner::Interner;
use crate::textutil::{append_all, is_digit, dec_val, lemma_dec_val_take_le, all_digits};
use crate::records::{Records, RecordsError, EventRecord, RECORD_MAGIC, spec_decoded_magic,
    spec_decoded_count, spec_decode_record};

verus! {

/// Decimal digits of `n`, most significant first.
pub open spec fn spec_dec_digits(n: nat) -> Seq<u8>
    decreases n,
{
    if n < 10 {
        seq![(48 + n) as u8]
    } else {
        spec_dec_digits(n / 10).push((48 + n % 10) as u8)
    }
}

/// The bytes one string byte escapes to: `\"` and `\\` for quote and
/// backslash, `\u00XX` for control bytes, the byte itself otherwise.
pub open spec fn spec_esc_byte(b: u8) -> Seq<u8> {
    if b == 34 {
        seq![92u8, 34u8]
    } else if b == 92 {
        seq![92u8, 92u8]
    } else if b < 32 {
        seq![92u8, 117u8, 48u8, 48u8, hex_digit_byte((b / 16) as nat), hex_digit_byte((b % 16) as nat)]
    } else {
        seq![b]
    }
}

/// Lower-case hexadecimal digit byte for a value below sixteen.
pub open spec fn hex_digit_byte(v: nat) -> u8 {
    if v < 10 {
        (48 + v) as u8
    } else {
        (87 + v) as u8
    }
}

/// A string's content, escaped byte by byte.
pub open spec fn spec_escape(s: Seq<u8>) -> Seq<u8>
    decreases s.len(),
{
    if s.len() == 0 {
        Seq::empty()
    } else {
        spec_esc_byte(s[0]) + spec_escape(s.drop_first())
    }
}

/// A JSON string: quoted escaped content.
pub open spec fn spec_json_string(s: Seq<u8>) -> Seq<u8> {
    seq![34u8] + spec_escape(s) + seq![34u8]
}

/// A JSON boolean.
pub open spec fn spec_json_bool(b: bool) -> Seq<u8> {
    if b {
        seq!['t' as u8, 'r' as u8, 'u' as u8, 'e' as u8]
    } else {
        seq!['f' as u8, 'a' as u8, 'l' as u8, 's' as u8, 'e' as u8]
    }
}

/// The body of one object: its fields in fixed order.
pub open spec fn spec_object_body(o: Object) -> Seq<u8> {
    lit_file() + (spec_dec_digits(((o.file as u64) as nat)) + (lit_idx() + (spec_dec_digits(
        ((o.idx as u64) as nat),
    ) + (lit_maps() + (spec_dec_digits(((o.maps as u64) as nat)) + (lit_faults() + (
    spec_dec_digits(((o.faults as u64) as nat)) + (lit_biggest() + (spec_dec_digits(
        o.biggest_offset as nat,
    ) + (lit_smallest() + (spec_dec_digits(o.smallest_offset as nat) + (lit_show() + (
    spec_json_bool(o.show) + seq!['}' as u8])))))))))))))
}

/// The literal `{"file":`.
pub open spec fn lit_file() -> Seq<u8> {
    seq![
        '{' as u8, '"' as u8, 'f' as u8, 'i' as u8, 'l' as u8, 'e' as u8, '"' as u8, ':' as u8,
    ]
}

/// The literal `,"idx":`.
pub open spec fn lit_idx() -> Seq<u8> {
    seq![',' as u8, '"' as u8, 'i' as u8, 'd' as u8, 'x' as u8, '"' as u8, ':' as u8]
}

/// The literal `,"maps":`.
pub open spec fn lit_maps() -> Seq<u8> {
    seq![
        ',' as u8, '"' as u8, 'm' as u8, 'a' as u8, 'p' as u8, 's' as u8, '"' as u8, ':' as u8,
    ]
}

/// The literal `,"faults":`.
pub open spec fn lit_faults() -> Seq<u8> {
    seq![
        ',' as u8, '"' as u8, 'f' as u8, 'a' as u8, 'u' as u8, 'l' as u8, 't' as u8, 's' as u8,
        '"' as u8, ':' as u8,
    ]
}

/// The literal `,"biggest_offset":`.
pub open spec fn lit_biggest() -> Seq<u8> {
    seq![
        ',' as u8, '"' as u8, 'b' as u8, 'i' as u8, 'g' as u8, 'g' as u8, 'e' as u8, 's' as u8,
        't' as u8, '_' as u8, 'o' as u8, 'f' as u8, 'f' as u8, 's' as u8, 'e' as u8, 't' as u8,
        '"' as u8, ':' as u8,
    ]
}

/// The literal `,"smallest_offset":`.
pub open spec fn lit_smallest() -> Seq<u8> {
    seq![
        ',' as u8, '"' as u8, 's' as u8, 'm' as u8, 'a' as u8, 'l' as u8, 'l' as u8, 'e' as u8,
        's' as u8, 't' as u8, '_' as u8, 'o' as u8, 'f' as u8, 'f' as u8, 's' as u8, 'e' as u8,
        't' as u8, '"' as u8, ':' as u8,
    ]
}

/// The literal `,"show":`.
pub open spec fn lit_show() -> Seq<u8> {
    seq![
        ',' as u8, '"' as u8, 's' as u8, 'h' as u8, 'o' as u8, 'w' as u8, '"' as u8, ':' as u8,
    ]
}

/// The literal `{"objects":{`.
pub open spec fn lit_head() -> Seq<u8> {
    seq![
        '{' as u8, '"' as u8, 'o' as u8, 'b' as u8, 'j' as u8, 'e' as u8, 'c' as u8, 't' as u8,
        's' as u8, '"' as u8, ':' as u8, '{' as u8,
    ]
}

/// The literal `},"strings":[`.
pub open spec fn lit_mid() -> Seq<u8> {
    seq![
        '}' as u8, ',' as u8, '"' as u8, 's' as u8, 't' as u8, 'r' as u8, 'i' as u8, 'n' as u8,
        'g' as u8, 's' as u8, '"' as u8, ':' as u8, '[' as u8,
    ]
}

/// The literal `]}`.
pub open spec fn lit_tail() -> Seq<u8> {
    seq![']' as u8, '}' as u8]
}

/// One dictionary entry: the slot index as a quoted decimal key, then the
/// object body.
pub open spec fn spec_object_entry(i: nat, o: Object) -> Seq<u8> {
    seq![34u8] + spec_dec_digits(i) + seq![34u8, ':' as u8] + spec_object_body(o)
}

/// The entry byte strings of all live slots, in slot order.
pub open spec fn spec_object_entries(slots: Seq<Option<Object>>) -> Seq<Seq<u8>>
    decreases slots.len(),
{
    if slots.len() == 0 {
        Seq::empty()
    } else {
        spec_object_entries(slots.drop_last()) + (match slots.last() {
            Some(o) => seq![spec_object_entry((slots.len() - 1) as nat, o)],
            None => Seq::empty(),
        })
    }
}

/// The JSON strings of the string table, in handle order.
pub open spec fn spec_string_items(strs: Seq<Seq<u8>>) -> Seq<Seq<u8>>
    decreases strs.len(),
{
    if strs.len() == 0 {
        Seq::empty()
    } else {
        spec_string_items(strs.drop_last()).push(spec_json_string(strs.last()))
    }
}

/// Parts joined with commas.
pub open spec fn spec_join_comma(parts: Seq<Seq<u8>>) -> Seq<u8>
    decreases parts.len(),
{
    if parts.len() == 0 {
        Seq::empty()
    } else if parts.len() == 1 {
        parts[0]
    } else {
        spec_join_comma(parts.drop_last()) + seq![',' as u8] + parts.last()
    }
}

/// The whole side-table document.
pub open spec fn spec_root_bytes(slots: Seq<Option<Object>>, strs: Seq<Seq<u8>>) -> Seq<u8> {
    lit_head() + spec_join_comma(spec_object_entries(slots)) + lit_mid() + spec_join_comma(
        spec_string_items(strs),
    ) + lit_tail()
}

/// Whether any slot in `[a, b)` is live.
pub open spec fn has_live(slots: Seq<Option<Object>>, a: int, b: int) -> bool {
    exists|i: int| a <= i < b && b <= slots.len() && (#[trigger] slots[i]) is Some
}

/// First live slot at or after `k`; the slot count when none is.
pub open spec fn first_live(slots: Seq<Option<Object>>, k: int) -> int
    decreases slots.len() - k,
{
    if k < 0 || k >= slots.len() {
        slots.len() as int
    } else if slots[k] is Some {
        k
    } else {
        first_live(slots, k + 1)
    }
}

/// The object-dictionary bytes from slot `k` on, without a leading comma:
/// the first live entry, then the rest with comma separators.
pub open spec fn entries_region(slots: Seq<Option<Object>>, k: int) -> Seq<u8>
    decreases slots.len() - k,
{
    if k < 0 || k >= slots.len() {
        Seq::empty()
    } else {
        match slots[k] {
            None => entries_region(slots, k + 1),
            Some(o) => spec_object_entry(k as nat, o) + entries_rest(slots, k + 1),
        }
    }
}

/// The object-dictionary bytes from slot `k` on, each live entry preceded
/// by a comma.
pub open spec fn entries_rest(slots: Seq<Option<Object>>, k: int) -> Seq<u8>
    decreases slots.len() - k,
{
    if k < 0 || k >= slots.len() {
        Seq::empty()
    } else {
        match slots[k] {
            None => entries_rest(slots, k + 1),
            Some(o) => seq![',' as u8] + spec_object_entry(k as nat, o) + entries_rest(
                slots,
                k + 1,
            ),
        }
    }
}

/// The string-list bytes from handle `k` on, without a leading comma.
pub open spec fn strings_region(strs: Seq<Seq<u8>>, k: int) -> Seq<u8>
    decreases strs.len() - k,
{
    if k < 0 || k >= strs.len() {
        Seq::empty()
    } else {
        spec_json_string(strs[k]) + strings_rest(strs, k + 1)
    }
}

/// The string-list bytes from handle `k` on, each preceded by a comma.
pub open spec fn strings_rest(strs: Seq<Seq<u8>>, k: int) -> Seq<u8>
    decreases strs.len() - k,
{
    if k < 0 || k >= strs.len() {
        Seq::empty()
    } else {
        seq![',' as u8] + spec_json_string(strs[k]) + strings_rest(strs, k + 1)
    }
}

/// The comma-prefixed region is the plain region behind one comma when any
/// live slot remains, and empty otherwise.
proof fn lemma_entries_rest_region(slots: Seq<Option<Object>>, k: int)
    requires
        0 <= k <= slots.len(),
    ensures
        entries_rest(slots, k) == (if has_live(slots, k, slots.len() as int) {
            seq![',' as u8] + entries_region(slots, k)
        } else {
            Seq::<u8>::empty()
        }),
    decreases slots.len() - k,
{
    if k < slots.len() {
        lemma_entries_rest_region(slots, k + 1);
        match slots[k] {
            None => {
                assert(has_live(slots, k, slots.len() as int) == has_live(
                    slots,
                    k + 1,
                    slots.len() as int,
                )) by {
                    if has_live(slots, k, slots.len() as int) {
                        let i = choose|i: int|
                            k <= i < slots.len() && (#[trigger] slots[i]) is Some;
                        assert(k + 1 <= i < slots.len());
                    }
                }
            },
            Some(o) => {
                assert(has_live(slots, k, slots.len() as int)) by {
                    assert(slots[k] is Some);
                }
                if has_live(slots, k + 1, slots.len() as int) {
                    assert(seq![',' as u8] + spec_object_entry(k as nat, o) + entries_rest(
                        slots,
                        k + 1,
                    ) =~= seq![',' as u8] + entries_region(slots, k));
                } else {
                    assert(seq![',' as u8] + spec_object_entry(k as nat, o) + entries_rest(
                        slots,
                        k + 1,
                    ) =~= seq![',' as u8] + entries_region(slots, k));
                }
            },
        }
    }
}

/// The dictionary has entries exactly when a live slot exists.
proof fn lemma_entries_live(slots: Seq<Option<Object>>)
    ensures
        spec_object_entries(slots).len() > 0 <==> has_live(slots, 0, slots.len() as int),
    decreases slots.len(),
{
    if slots.len() > 0 {
        lemma_entries_live(slots.drop_last());
        let dl = slots.drop_last();
        if spec_object_entries(slots).len() > 0 {
            if slots.last() is Some {
                assert(slots[slots.len() - 1] is Some);
                assert(has_live(slots, 0, slots.len() as int));
            } else {
                assert(spec_object_entries(slots) =~= spec_object_entries(dl));
                let i = choose|i: int| 0 <= i < dl.len() && (#[trigger] dl[i]) is Some;
                assert(slots[i] is Some);
                assert(has_live(slots, 0, slots.len() as int));
            }
        }
        if has_live(slots, 0, slots.len() as int) {
            let i = choose|i: int| 0 <= i < slots.len() && (#[trigger] slots[i]) is Some;
            if i == slots.len() - 1 {
                assert(spec_object_entries(slots).len() > 0);
            } else {
                assert(dl[i] is Some);
                assert(has_live(dl, 0, dl.len() as int));
                assert(spec_object_entries(slots).len() >= spec_object_entries(dl).len());
            }
        }
    }
}

/// Dropping the last slot drops at most the last comma-prefixed entry from
/// the comma-prefixed region.
proof fn lemma_entries_rest_drop_last(slots: Seq<Option<Object>>, k: int)
    requires
        slots.len() > 0,
        0 <= k <= slots.len() - 1,
    ensures
        entries_rest(slots, k) == entries_rest(slots.drop_last(), k) + (match slots.last() {
            Some(o) => seq![',' as u8] + spec_object_entry((slots.len() - 1) as nat, o),
            None => Seq::<u8>::empty(),
        }),
    decreases slots.len() - k,
{
    let dl = slots.drop_last();
    if k == slots.len() - 1 {
        assert(entries_rest(dl, k) =~= Seq::<u8>::empty());
        assert(entries_rest(slots, k + 1) =~= Seq::<u8>::empty());
        assert(slots[k] == slots.last());
        match slots.last() {
            Some(o) => {
                assert(entries_rest(slots, k) =~= entries_rest(dl, k) + (seq![',' as u8]
                    + spec_object_entry((slots.len() - 1) as nat, o)));
            },
            None => {
                assert(entries_rest(slots, k) =~= Seq::<u8>::empty());
            },
        }
    } else {
        lemma_entries_rest_drop_last(slots, k + 1);
        assert(slots[k] == dl[k]);
        match slots[k] {
            None => {},
            Some(o) => {
                match slots.last() {
                    Some(ol) => {
                        assert(entries_rest(slots, k) =~= entries_rest(dl, k) + (seq![',' as u8]
                            + spec_object_entry((slots.len() - 1) as nat, ol)));
                    },
                    None => {
                        assert(entries_rest(slots, k) =~= entries_rest(dl, k));
                        assert(entries_rest(slots, k) =~= entries_rest(dl, k)
                            + Seq::<u8>::empty());
                    },
                }
            },
        }
    }
}

/// Dropping the last slot drops at most the last entry from the region.
proof fn lemma_entries_region_drop_last(slots: Seq<Option<Object>>, k: int)
    requires
        slots.len() > 0,
        0 <= k <= slots.len() - 1,
    ensures
        entries_region(slots, k) == entries_region(slots.drop_last(), k) + (match slots.last() {
            Some(o) => if has_live(slots, k, slots.len() - 1) {
                seq![',' as u8] + spec_object_entry((slots.len() - 1) as nat, o)
            } else {
                spec_object_entry((slots.len() - 1) as nat, o)
            },
            None => Seq::<u8>::empty(),
        }),
    decreases slots.len() - k,
{
    let dl = slots.drop_last();
    if k == slots.len() - 1 {
        assert(entries_region(dl, k) =~= Seq::<u8>::empty());
        assert(entries_region(slots, k + 1) =~= Seq::<u8>::empty());
        assert(entries_rest(slots, k + 1) =~= Seq::<u8>::empty());
        assert(slots[k] == slots.last());
        assert(!has_live(slots, k, slots.len() - 1));
        match slots.last() {
            Some(o) => {
                assert(entries_region(slots, k) =~= entries_region(dl, k) + spec_object_entry(
                    (slots.len() - 1) as nat,
                    o,
                ));
            },
            None => {
                assert(entries_region(slots, k) =~= Seq::<u8>::empty());
            },
        }
    } else {
        assert(slots[k] == dl[k]);
        match slots[k] {
            None => {
                lemma_entries_region_drop_last(slots, k + 1);
                assert(has_live(slots, k, slots.len() - 1) == has_live(
                    slots,
                    k + 1,
                    slots.len() - 1,
                )) by {
                    if has_live(slots, k, slots.len() - 1) {
                        let i = choose|i: int| k <= i < slots.len() - 1 && slots.len() - 1
                            <= slots.len() && (#[trigger] slots[i]) is Some;
                        assert(k + 1 <= i < slots.len() - 1);
                    }
                }
            },
            Some(o) => {
                lemma_entries_rest_drop_last(slots, k + 1);
                assert(has_live(slots, k, slots.len() - 1)) by {
                    assert(k <= k < slots.len() - 1 && (#[trigger] slots[k]) is Some);
                }
                match slots.last() {
                    Some(ol) => {
                        assert(entries_region(slots, k) =~= entries_region(dl, k) + (seq![
                            ',' as u8,
                        ] + spec_object_entry((slots.len() - 1) as nat, ol)));
                    },
                    None => {
                        assert(entries_region(slots, k) =~= entries_region(dl, k)
                            + Seq::<u8>::empty());
                    },
                }
            },
        }
    }
}

/// The emitted dictionary (comma-joined entry list) is the region form.
proof fn lemma_entries_bridge(slots: Seq<Option<Object>>)
    ensures
        spec_join_comma(spec_object_entries(slots)) == entries_region(slots, 0),
    decreases slots.len(),
{
    if slots.len() == 0 {
        assert(spec_object_entries(slots) =~= Seq::<Seq<u8>>::empty());
    } else {
        let dl = slots.drop_last();
        lemma_entries_bridge(dl);
        lemma_entries_live(dl);
        lemma_entries_region_drop_last(slots, 0);
        assert(has_live(slots, 0, slots.len() - 1) == has_live(dl, 0, dl.len() as int)) by {
            if has_live(slots, 0, slots.len() - 1) {
                let i = choose|i: int| 0 <= i < slots.len() - 1 && slots.len() - 1 <= slots.len()
                    && (#[trigger] slots[i]) is Some;
                assert(dl[i] is Some);
            }
            if has_live(dl, 0, dl.len() as int) {
                let i = choose|i: int| 0 <= i < dl.len() && (#[trigger] dl[i]) is Some;
                assert(0 <= i < slots.len() - 1 && (#[trigger] slots[i]) is Some);
            }
        }
        match slots.last() {
            None => {
                assert(spec_object_entries(slots) =~= spec_object_entries(dl));
                assert(entries_region(slots, 0) =~= entries_region(dl, 0));
            },
            Some(o) => {
                let entry = spec_object_entry((slots.len() - 1) as nat, o);
                let parts = spec_object_entries(dl);
                assert(spec_object_entries(slots) =~= parts.push(entry));
                if parts.len() == 0 {
                    assert(spec_join_comma(parts.push(entry)) == entry);
                    assert(entries_region(dl, 0) =~= Seq::<u8>::empty());
                    assert(entries_region(slots, 0) =~= entry);
                } else {
                    assert(parts.push(entry).drop_last() =~= parts);
                    assert(parts.push(entry).last() == entry);
                    assert(parts.push(entry).len() >= 2);
                    assert(spec_join_comma(parts.push(entry)) == spec_join_comma(parts) + seq![
                        ',' as u8,
                    ] + entry);
                    assert(entries_region(slots, 0) =~= spec_join_comma(parts) + seq![',' as u8]
                        + entry);
                }
            },
        }
    }
}

/// Dropping the last string drops the last comma-prefixed item.
proof fn lemma_strings_rest_drop_last(strs: Seq<Seq<u8>>, k: int)
    requires
        strs.len() > 0,
        0 <= k <= strs.len() - 1,
    ensures
        strings_rest(strs, k) == strings_rest(strs.drop_last(), k) + (seq![',' as u8]
            + spec_json_string(strs.last())),
    decreases strs.len() - k,
{
    let dl = strs.drop_last();
    if k == strs.len() - 1 {
        assert(strings_rest(dl, k) =~= Seq::<u8>::empty());
        assert(strings_rest(strs, k + 1) =~= Seq::<u8>::empty());
        assert(strs[k] == strs.last());
        assert(strings_rest(strs, k) =~= strings_rest(dl, k) + (seq![',' as u8]
            + spec_json_string(strs.last())));
    } else {
        lemma_strings_rest_drop_last(strs, k + 1);
        assert(strs[k] == dl[k]);
        assert(strings_rest(strs, k) =~= strings_rest(dl, k) + (seq![',' as u8]
            + spec_json_string(strs.last())));
    }
}

/// The emitted string list (comma-joined items) is the region form.
proof fn lemma_strings_bridge(strs: Seq<Seq<u8>>)
    ensures
        spec_join_comma(spec_string_items(strs)) == strings_region(strs, 0),
    decreases strs.len(),
{
    lemma_string_items_len(strs);
    if strs.len() == 0 {
    } else if strs.len() == 1 {
        assert(spec_string_items(strs) =~= seq![spec_json_string(strs[0])]);
        assert(strings_region(strs, 0) =~= spec_json_string(strs[0]));
    } else {
        let dl = strs.drop_last();
        lemma_strings_bridge(dl);
        lemma_string_items_len(dl);
        let item = spec_json_string(strs.last());
        let parts = spec_string_items(dl);
        assert(spec_string_items(strs) == parts.push(item));
        assert(parts.push(item).drop_last() =~= parts);
        assert(parts.push(item).last() == item);
        assert(spec_join_comma(parts.push(item)) == spec_join_comma(parts) + seq![',' as u8]
            + item);
        lemma_strings_rest_drop_last(strs, 1);
        assert(strs[0] == dl[0]);
        assert(strings_region(strs, 0) =~= strings_region(dl, 0) + seq![',' as u8] + item);
    }
}

/// Escaping distributes over appending one byte.
pub proof fn lemma_escape_snoc(t: Seq<u8>, b: u8)
    ensures
        spec_escape(t.push(b)) == spec_escape(t) + spec_esc_byte(b),
    decreases t.len(),
{
    if t.len() == 0 {
        assert(t.push(b).len() == 1);
        assert(t.push(b)[0] == b);
        assert(t.push(b).drop_first() =~= Seq::<u8>::empty());
        assert(spec_escape(t.push(b)) == spec_esc_byte(b) + spec_escape(Seq::<u8>::empty()));
        assert(spec_escape(t.push(b)) =~= spec_escape(t) + spec_esc_byte(b));
    } else {
        assert(t.push(b).len() == t.len() + 1);
        assert(t.push(b)[0] == t[0]);
        assert(t.push(b).drop_first() =~= t.drop_first().push(b));
        lemma_escape_snoc(t.drop_first(), b);
        assert(spec_escape(t.push(b)) == spec_esc_byte(t[0]) + (spec_escape(t.drop_first())
            + spec_esc_byte(b)));
        assert(spec_escape(t.push(b)) =~= spec_escape(t) + spec_esc_byte(b));
    }
}

/// Append the decimal digits of `n`.
pub fn emit_dec(out: &mut Vec<u8>, n: u64)
    ensures
        final(out)@ == old(out)@ + spec_dec_digits(n as nat),
    decreases n,
{
    if n < 10 {
        out.push(48 + n as u8);
        proof {
            assert(final(out)@ =~= old(out)@ + spec_dec_digits(n as nat));
        }
    } else {
        emit_dec(out, n / 10);
        out.push((48 + n % 10) as u8);
        proof {
            assert(final(out)@ =~= old(out)@ + spec_dec_digits(n as nat));
        }
    }
}

/// The lower-case hexadecimal digit byte for `v`.
fn hex_digit(v: u8) -> (r: u8)
    requires
        v < 16,
    ensures
        r == hex_digit_byte(v as nat),
{
    if v < 10 {
        48 + v
    } else {
        87 + v
    }
}

/// Append one escaped string byte.
fn emit_esc_byte(out: &mut Vec<u8>, b: u8)
    ensures
        final(out)@ == old(out)@ + spec_esc_byte(b),
{
    if b == 34 {
        out.push(92);
        out.push(34);
    } else if b == 92 {
        out.push(92);
        out.push(92);
    } else if b < 32 {
        out.push(92);
        out.push(117);
        out.push(48);
        out.push(48);
        let hi = hex_digit(b / 16);
        out.push(hi);
        let lo = hex_digit(b % 16);
        out.push(lo);
    } else {
        out.push(b);
    }
    proof {
        assert(final(out)@ =~= old(out)@ + spec_esc_byte(b));
    }
}

/// Append a quoted, escaped JSON string.
pub fn emit_string(out: &mut Vec<u8>, s: &Vec<u8>)
    ensures
        final(out)@ == old(out)@ + spec_json_string(s@),
{
    out.push(34);
    let ghost base = out@;
    proof {
        assert(s@.take(0) =~= Seq::<u8>::empty());
        assert(base + spec_escape(s@.take(0)) =~= base);
    }
    let mut i: usize = 0;
    while i < s.len()
        invariant
            0 <= i <= s@.len(),
            out@ == base + spec_escape(s@.take(i as int)),
        decreases s@.len() - i,
    {
        emit_esc_byte(out, s[i]);
        proof {
            assert(s@.take(i as int + 1) =~= s@.take(i as int).push(s@[i as int]));
            lemma_escape_snoc(s@.take(i as int), s@[i as int]);
            assert(out@ =~= base + spec_escape(s@.take(i as int + 1)));
        }
        i = i + 1;
    }
    out.push(34);
    proof {
        assert(s@.take(s@.len() as int) =~= s@);
        assert(final(out)@ =~= old(out)@ + spec_json_string(s@));
    }
}

/// Append a JSON boolean.
fn emit_bool(out: &mut Vec<u8>, b: bool)
    ensures
        final(out)@ == old(out)@ + spec_json_bool(b),
{
    if b {
        out.push('t' as u8);
        out.push('r' as u8);
        out.push('u' as u8);
        out.push('e' as u8);
    } else {
        out.push('f' as u8);
        out.push('a' as u8);
        out.push('l' as u8);
        out.push('s' as u8);
        out.push('e' as u8);
    }
    proof {
        assert(final(out)@ =~= old(out)@ + spec_json_bool(b));
    }
}

/// Append one object's body.
#[verifier::rlimit(100)]
fn emit_object_body(out: &mut Vec<u8>, o: &Object)
    ensures
        final(out)@ == old(out)@ + spec_object_body(*o),
{
    let l1: Vec<u8> = vec![
        '{' as u8, '"' as u8, 'f' as u8, 'i' as u8, 'l' as u8, 'e' as u8, '"' as u8, ':' as u8,
    ];
    proof {
        assert(l1@ =~= lit_file());
    }
    append_all(out, &l1);
    emit_dec(out, o.file as u64);
    let l2: Vec<u8> = vec![',' as u8, '"' as u8, 'i' as u8, 'd' as u8, 'x' as u8, '"' as u8, ':' as u8];
    proof {
        assert(l2@ =~= lit_idx());
    }
    append_all(out, &l2);
    emit_dec(out, o.idx as u64);
    let l3: Vec<u8> = vec![
        ',' as u8, '"' as u8, 'm' as u8, 'a' as u8, 'p' as u8, 's' as u8, '"' as u8, ':' as u8,
    ];
    proof {
        assert(l3@ =~= lit_maps());
    }
    append_all(out, &l3);
    emit_dec(out, o.maps as u64);
    let l4: Vec<u8> = vec![
        ',' as u8, '"' as u8, 'f' as u8, 'a' as u8, 'u' as u8, 'l' as u8, 't' as u8, 's' as u8,
        '"' as u8, ':' as u8,
    ];
    proof {
        assert(l4@ =~= lit_faults());
    }
    append_all(out, &l4);
    emit_dec(out, o.faults as u64);
    let l5: Vec<u8> = vec![
        ',' as u8, '"' as u8, 'b' as u8, 'i' as u8, 'g' as u8, 'g' as u8, 'e' as u8, 's' as u8,
        't' as u8, '_' as u8, 'o' as u8, 'f' as u8, 'f' as u8, 's' as u8, 'e' as u8, 't' as u8,
        '"' as u8, ':' as u8,
    ];
    proof {
        assert(l5@ =~= lit_biggest());
    }
    append_all(out, &l5);
    emit_dec(out, o.biggest_offset);
    let l6: Vec<u8> = vec![
        ',' as u8, '"' as u8, 's' as u8, 'm' as u8, 'a' as u8, 'l' as u8, 'l' as u8, 'e' as u8,
        's' as u8, 't' as u8, '_' as u8, 'o' as u8, 'f' as u8, 'f' as u8, 's' as u8, 'e' as u8,
        't' as u8, '"' as u8, ':' as u8,
    ];
    proof {
        assert(l6@ =~= lit_smallest());
    }
    append_all(out, &l6);
    emit_dec(out, o.smallest_offset);
    let l7: Vec<u8> = vec![
        ',' as u8, '"' as u8, 's' as u8, 'h' as u8, 'o' as u8, 'w' as u8, '"' as u8, ':' as u8,
    ];
    proof {
        assert(l7@ =~= lit_show());
    }
    append_all(out, &l7);
    emit_bool(out, o.show);
    out.push('}' as u8);
    proof {
        lemma_object_body_flat(*o);
    }
}

/// The object body, flattened: concatenation is associative.
#[verifier::rlimit(100)]
#[verifier::spinoff_prover]
proof fn lemma_object_body_flat(o: Object)
    ensures
        spec_object_body(o) == lit_file() + spec_dec_digits(((o.file as u64) as nat)) + lit_idx()
            + spec_dec_digits(((o.idx as u64) as nat)) + lit_maps() + spec_dec_digits(
            ((o.maps as u64) as nat),
        ) + lit_faults() + spec_dec_digits(((o.faults as u64) as nat)) + lit_biggest()
            + spec_dec_digits(o.biggest_offset as nat) + lit_smallest() + spec_dec_digits(
            o.smallest_offset as nat,
        ) + lit_show() + spec_json_bool(o.show) + seq!['}' as u8],
{
    assert(spec_object_body(o) =~= lit_file() + spec_dec_digits(((o.file as u64) as nat))
        + lit_idx() + spec_dec_digits(((o.idx as u64) as nat)) + lit_maps() + spec_dec_digits(
        ((o.maps as u64) as nat),
    ) + lit_faults() + spec_dec_digits(((o.faults as u64) as nat)) + lit_biggest()
        + spec_dec_digits(o.biggest_offset as nat) + lit_smallest() + spec_dec_digits(
        o.smallest_offset as nat,
    ) + lit_show() + spec_json_bool(o.show) + seq!['}' as u8]);
}

/// Serialize an object slot list and a string table into the side-table
/// document.
#[verifier::rlimit(60)]
pub fn encode_root(objects: &Vec<Option<Object>>, strings: &Vec<Vec<u8>>) -> (r: Vec<u8>)
    ensures
        r@ == spec_root_bytes(objects@, strings.deep_view()),
{
    let mut out: Vec<u8> = Vec::new();
    let head: Vec<u8> = vec![
        '{' as u8, '"' as u8, 'o' as u8, 'b' as u8, 'j' as u8, 'e' as u8, 'c' as u8, 't' as u8,
        's' as u8, '"' as u8, ':' as u8, '{' as u8,
    ];
    proof {
        assert(head@ =~= lit_head());
    }
    append_all(&mut out, &head);
    let ghost slots = objects@;
    let mut first = true;
    let n = objects.len();
    proof {
        assert(slots.take(0) =~= Seq::<Option<Object>>::empty());
        assert(out@ =~= lit_head() + spec_join_comma(spec_object_entries(slots.take(0))));
    }
    let mut i: usize = 0;
    while i < n
        invariant
            0 <= i <= n == slots.len(),
            slots == objects@,
            out@ == lit_head() + spec_join_comma(spec_object_entries(slots.take(i as int))),
            first == (spec_object_entries(slots.take(i as int)).len() == 0),
        decreases n - i,
    {
        proof {
            assert(slots.take(i as int + 1).drop_last() =~= slots.take(i as int));
            assert(slots.take(i as int + 1).last() == slots[i as int]);
        }
        match &objects[i] {
            Some(o) => {
                let o = *o;
                if !first {
                    out.push(',' as u8);
                }
                let ghost parts = spec_object_entries(slots.take(i as int));
                let ghost mark = out@;
                out.push(34);
                emit_dec(&mut out, i as u64);
                out.push(34);
                out.push(':' as u8);
                emit_object_body(&mut out, &o);
                proof {
                    let entry = spec_object_entry(i as nat, o);
                    if first {
                        assert(mark =~= lit_head());
                        assert(out@ =~= lit_head() + entry);
                        assert(spec_object_entries(slots.take(i as int + 1)) =~= seq![entry]);
                    } else {
                        assert(spec_object_entries(slots.take(i as int + 1)) =~= parts.push(entry));
                        assert(parts.push(entry).drop_last() =~= parts);
                        assert(parts.push(entry).last() == entry);
                        assert(parts.push(entry).len() >= 2);
                        assert(spec_join_comma(parts.push(entry)) == spec_join_comma(parts) + seq![
                            ',' as u8,
                        ] + entry);
                        assert(out@ =~= lit_head() + spec_join_comma(parts.push(entry)));
                    }
                }
                first = false;
            },
            None => {
                proof {
                    assert(spec_object_entries(slots.take(i as int + 1)) =~= spec_object_entries(
                        slots.take(i as int),
                    ));
                }
            },
        }
        i = i + 1;
    }
    proof {
        assert(slots.take(n as int) =~= slots);
    }
    let mid: Vec<u8> = vec![
        '}' as u8, ',' as u8, '"' as u8, 's' as u8, 't' as u8, 'r' as u8, 'i' as u8, 'n' as u8,
        'g' as u8, 's' as u8, '"' as u8, ':' as u8, '[' as u8,
    ];
    proof {
        assert(mid@ =~= lit_mid());
    }
    append_all(&mut out, &mid);
    let ghost strs = strings.deep_view();
    let ghost base2 = out@;
    let m = strings.len();
    proof {
        assert(strs.take(0) =~= Seq::<Seq<u8>>::empty());
        assert(out@ =~= base2 + spec_join_comma(spec_string_items(strs.take(0))));
    }
    let mut j: usize = 0;
    while j < m
        invariant
            0 <= j <= m == strs.len(),
            strs == strings.deep_view(),
            out@ == base2 + spec_join_comma(spec_string_items(strs.take(j as int))),
        decreases m - j,
    {
        proof {
            assert(strs.take(j as int + 1).drop_last() =~= strs.take(j as int));
            assert(strs.take(j as int + 1).last() == strs[j as int]);
        }
        if j > 0 {
            out.push(',' as u8);
        }
        let sv = &strings[j];
        let ghost parts = spec_string_items(strs.take(j as int));
        proof {
            assert(strs[j as int] == strings@[j as int].deep_view());
            assert(strings@[j as int].deep_view() =~= strings@[j as int]@);
        }
        emit_string(&mut out, sv);
        proof {
            let item = spec_json_string(strs[j as int]);
            assert(spec_string_items(strs.take(j as int + 1)) == parts.push(item));
            if j == 0 {
                assert(parts.len() == 0) by {
                    lemma_string_items_len(strs.take(0));
                }
                assert(out@ =~= base2 + spec_join_comma(parts.push(item)));
            } else {
                assert(parts.len() == j) by {
                    lemma_string_items_len(strs.take(j as int));
                }
                assert(parts.push(item).drop_last() =~= parts);
                assert(parts.push(item).last() == item);
                assert(parts.push(item).len() >= 2);
                assert(spec_join_comma(parts.push(item)) == spec_join_comma(parts) + seq![
                    ',' as u8,
                ] + item);
                assert(out@ =~= base2 + spec_join_comma(parts.push(item)));
            }
        }
        j = j + 1;
    }
    proof {
        assert(strs.take(m as int) =~= strs);
    }
    let tail: Vec<u8> = vec![']' as u8, '}' as u8];
    proof {
        assert(tail@ =~= lit_tail());
    }
    append_all(&mut out, &tail);
    proof {
        assert(out@ =~= spec_root_bytes(objects@, strings.deep_view()));
    }
    out
}

/// Serialize the object table and the interner into the side-table
/// document.
pub fn encode_side_table(objects: &ObjectTable, strings: &Interner) -> (r: Vec<u8>)
    ensures
        r@ == spec_root_bytes(objects@, strings.strings()),
{
    let slots = objects.slots_vec();
    let strs = strings.strings_vec();
    encode_root(&slots, &strs)
}

/// There is one string item per string.
pub proof fn lemma_string_items_len(strs: Seq<Seq<u8>>)
    ensures
        spec_string_items(strs).len() == strs.len(),
    decreases strs.len(),
{
    if strs.len() > 0 {
        lemma_string_items_len(strs.drop_last());
    }
}

/// The remaining input from `j` is the object dictionary from slot `k` on,
/// then the strings section and the document tail.
pub open spec fn entries_tail_shape(
    bytes: Seq<u8>,
    j: int,
    slots: Seq<Option<Object>>,
    k: int,
    strs: Seq<Seq<u8>>,
) -> bool {
    &&& 0 <= j <= bytes.len()
    &&& 0 <= k <= slots.len()
    &&& bytes.subrange(j, bytes.len() as int) == entries_region(slots, k) + lit_mid()
        + strings_region(strs, 0) + lit_tail()
}

/// The remaining input from `j` is the string list from handle `k` on, then
/// the document tail.
pub open spec fn strings_tail_shape(bytes: Seq<u8>, j: int, strs: Seq<Seq<u8>>, k: int) -> bool {
    &&& 0 <= j <= bytes.len()
    &&& 0 <= k <= strs.len()
    &&& bytes.subrange(j, bytes.len() as int) == strings_region(strs, k) + lit_tail()
}

/// `first_live` is the first live slot: everything before it is a
/// tombstone, and the region from `k` is the region from it.
proof fn lemma_first_live(slots: Seq<Option<Object>>, k: int)
    requires
        0 <= k <= slots.len(),
    ensures
        k <= first_live(slots, k) <= slots.len(),
        forall|i: int| k <= i < first_live(slots, k) ==> (#[trigger] slots[i]) is None,
        first_live(slots, k) < slots.len() ==> slots[first_live(slots, k)] is Some,
        entries_region(slots, k) == entries_region(slots, first_live(slots, k)),
        first_live(slots, k) == slots.len() ==> entries_region(slots, k) == Seq::<u8>::empty(),
        first_live(slots, k) < slots.len() ==> entries_region(slots, k) == spec_object_entry(
            first_live(slots, k) as nat,
            slots[first_live(slots, k)]->Some_0,
        ) + entries_rest(slots, first_live(slots, k) + 1),
        has_live(slots, k, slots.len() as int) <==> first_live(slots, k) < slots.len(),
    decreases slots.len() - k,
{
    if k < slots.len() {
        if slots[k] is None {
            lemma_first_live(slots, k + 1);
            if has_live(slots, k, slots.len() as int) {
                let i = choose|i: int| k <= i < slots.len() && (#[trigger] slots[i]) is Some;
                assert(k + 1 <= i);
                assert(has_live(slots, k + 1, slots.len() as int));
            }
        } else {
            assert(has_live(slots, k, slots.len() as int)) by {
                assert((#[trigger] slots[k]) is Some);
            }
        }
    }
}

/// Entering the dictionary: a document of `slots` and `strs` opens with the
/// head literal, then the dictionary from slot zero.
proof fn lemma_root_head(bytes: Seq<u8>, slots: Seq<Option<Object>>, strs: Seq<Seq<u8>>)
    requires
        bytes == spec_root_bytes(slots, strs),
    ensures
        bytes.len() >= 12,
        bytes.subrange(0, 12) == lit_head(),
        entries_tail_shape(bytes, 12, slots, 0, strs),
{
    lemma_entries_bridge(slots);
    lemma_strings_bridge(strs);
    let rest = entries_region(slots, 0) + lit_mid() + strings_region(strs, 0) + lit_tail();
    assert(bytes.subrange(0, bytes.len() as int) =~= bytes);
    assert(bytes.subrange(0, bytes.len() as int) == lit_head() + rest) by {
        assert(lit_head() + rest =~= spec_root_bytes(slots, strs));
    }
    lemma_chunk_split(bytes, 0, bytes.len() as int, lit_head(), rest);
}

/// At a dictionary position with a live slot remaining: the quoted decimal
/// key of the first live slot, a colon, that slot's object body, and then
/// either a comma and more entries or the closing brace.
#[verifier::rlimit(100)]
#[verifier::spinoff_prover]
proof fn lemma_entry_head(
    bytes: Seq<u8>,
    j: int,
    slots: Seq<Option<Object>>,
    k: int,
    strs: Seq<Seq<u8>>,
)
    requires
        entries_tail_shape(bytes, j, slots, k, strs),
        first_live(slots, k) < slots.len(),
    ensures
        ({
            let fl = first_live(slots, k);
            let o = slots[fl]->Some_0;
            let d = spec_dec_digits(fl as nat);
            let body = spec_object_body(o);
            let after = j + 3 + d.len() + body.len();
            &&& bytes[j] == 34
            &&& after < bytes.len()
            &&& bytes.subrange(j + 1, j + 1 + d.len()) == d
            &&& bytes[j + 1 + d.len()] == 34
            &&& bytes.subrange(j + 1 + d.len(), j + 3 + d.len()) == seq![34u8, 58u8]
            &&& object_shape(bytes, j + 3 + d.len(), o, after)
            &&& (if has_live(slots, fl + 1, slots.len() as int) {
                bytes[after] == ',' as u8 && entries_tail_shape(bytes, after + 1, slots, fl + 1, strs)
            } else {
                bytes[after] == '}' as u8 && entries_tail_shape(bytes, after, slots, fl + 1, strs)
            })
        }),
{
    lemma_first_live(slots, k);
    let fl = first_live(slots, k);
    let o = slots[fl]->Some_0;
    let d = spec_dec_digits(fl as nat);
    let body = spec_object_body(o);
    lemma_entries_rest_region(slots, fl + 1);
    let tail = lit_mid() + strings_region(strs, 0) + lit_tail();
    let rest1 = d + (seq![34u8, 58u8] + (body + (entries_rest(slots, fl + 1) + tail)));
    assert(bytes.subrange(j, bytes.len() as int) == seq![34u8] + rest1) by {
        assert(seq![34u8] + rest1 =~= entries_region(slots, k) + lit_mid() + strings_region(
            strs,
            0,
        ) + lit_tail());
    }
    lemma_chunk_split(bytes, j, bytes.len() as int, seq![34u8], rest1);
    lemma_chunk_split(
        bytes,
        j + 1,
        bytes.len() as int,
        d,
        seq![34u8, 58u8] + (body + (entries_rest(slots, fl + 1) + tail)),
    );
    lemma_chunk_split(
        bytes,
        j + 1 + d.len(),
        bytes.len() as int,
        seq![34u8, 58u8],
        body + (entries_rest(slots, fl + 1) + tail),
    );
    lemma_chunk_split(
        bytes,
        j + 3 + d.len(),
        bytes.len() as int,
        body,
        entries_rest(slots, fl + 1) + tail,
    );
    let after = j + 3 + d.len() + body.len();
    assert(bytes[j] == bytes.subrange(j, j + 1)[0]);
    assert(bytes[j + 1 + d.len()] == bytes.subrange(j + 1 + d.len(), j + 3 + d.len())[0]);
    assert(lit_mid().len() + strings_region(strs, 0).len() + lit_tail().len() >= 15);
    if has_live(slots, fl + 1, slots.len() as int) {
        let rest2 = entries_region(slots, fl + 1) + tail;
        assert(bytes.subrange(after, bytes.len() as int) == seq![',' as u8] + rest2) by {
            assert(seq![',' as u8] + rest2 =~= entries_rest(slots, fl + 1) + tail);
        }
        lemma_chunk_split(bytes, after, bytes.len() as int, seq![',' as u8], rest2);
        assert(bytes[after] == bytes.subrange(after, after + 1)[0]);
        assert(bytes.subrange(after + 1, bytes.len() as int) =~= entries_region(slots, fl + 1)
            + lit_mid() + strings_region(strs, 0) + lit_tail());
    } else {
        assert(bytes.subrange(after, bytes.len() as int) =~= entries_region(slots, fl + 1)
            + lit_mid() + strings_region(strs, 0) + lit_tail()) by {
            lemma_first_live(slots, fl + 1);
            assert(entries_region(slots, fl + 1) =~= Seq::<u8>::empty());
            assert(bytes.subrange(after, bytes.len() as int) =~= entries_rest(slots, fl + 1)
                + tail);
        }
        assert(bytes[after] == bytes.subrange(after, bytes.len() as int)[0]);
        assert((entries_region(slots, fl + 1) + lit_mid() + strings_region(strs, 0)
            + lit_tail())[0] == '}' as u8) by {
            lemma_first_live(slots, fl + 1);
            assert(entries_region(slots, fl + 1) =~= Seq::<u8>::empty());
        }
    }
}

/// Leaving the dictionary: with no live slot remaining, the mid literal
/// follows, then the string list from handle zero.
proof fn lemma_mid_transition(
    bytes: Seq<u8>,
    j: int,
    slots: Seq<Option<Object>>,
    k: int,
    strs: Seq<Seq<u8>>,
)
    requires
        entries_tail_shape(bytes, j, slots, k, strs),
        !has_live(slots, k, slots.len() as int),
    ensures
        j + 13 <= bytes.len(),
        bytes.subrange(j, j + 13) == lit_mid(),
        strings_tail_shape(bytes, j + 13, strs, 0),
{
    lemma_first_live(slots, k);
    assert(entries_region(slots, k) =~= Seq::<u8>::empty());
    let rest = strings_region(strs, 0) + lit_tail();
    assert(bytes.subrange(j, bytes.len() as int) == lit_mid() + rest) by {
        assert(lit_mid() + rest =~= entries_region(slots, k) + lit_mid() + strings_region(strs, 0)
            + lit_tail());
    }
    lemma_chunk_split(bytes, j, bytes.len() as int, lit_mid(), rest);
    assert(bytes.subrange(j + 13, bytes.len() as int) =~= strings_region(strs, 0) + lit_tail());
}

/// At a string-list position with strings remaining: the JSON string of the
/// next handle, then either a comma and more strings or the closing
/// bracket.
proof fn lemma_string_head(bytes: Seq<u8>, j: int, strs: Seq<Seq<u8>>, k: int)
    requires
        strings_tail_shape(bytes, j, strs, k),
        k < strs.len(),
    ensures
        ({
            let js = spec_json_string(strs[k]);
            let after = j + js.len();
            &&& after < bytes.len()
            &&& string_target(bytes, j, strs[k], after)
            &&& (if k + 1 < strs.len() {
                bytes[after] == ',' as u8 && strings_tail_shape(bytes, after + 1, strs, k + 1)
            } else {
                bytes[after] == ']' as u8 && strings_tail_shape(bytes, after, strs, k + 1)
            })
        }),
{
    let js = spec_json_string(strs[k]);
    let rest = strings_rest(strs, k + 1) + lit_tail();
    assert(bytes.subrange(j, bytes.len() as int) == js + rest) by {
        assert(js + rest =~= strings_region(strs, k) + lit_tail());
    }
    lemma_chunk_split(bytes, j, bytes.len() as int, js, rest);
    let after = j + js.len();
    if k + 1 < strs.len() {
        let rest2 = strings_region(strs, k + 1) + lit_tail();
        assert(bytes.subrange(after, bytes.len() as int) == seq![',' as u8] + rest2) by {
            assert(seq![',' as u8] + rest2 =~= strings_rest(strs, k + 1) + lit_tail());
        }
        lemma_chunk_split(bytes, after, bytes.len() as int, seq![',' as u8], rest2);
        assert(bytes[after] == bytes.subrange(after, after + 1)[0]);
        assert(bytes.subrange(after + 1, bytes.len() as int) =~= strings_region(strs, k + 1)
            + lit_tail());
    } else {
        assert(strings_rest(strs, k + 1) =~= Seq::<u8>::empty());
        assert(bytes.subrange(after, bytes.len() as int) =~= strings_region(strs, k + 1)
            + lit_tail()) by {
            assert(strings_region(strs, k + 1) =~= Seq::<u8>::empty());
        }
        assert(bytes[after] == bytes.subrange(after, bytes.len() as int)[0]);
        assert((strings_region(strs, k + 1) + lit_tail())[0] == ']' as u8) by {
            assert(strings_region(strs, k + 1) =~= Seq::<u8>::empty());
        }
    }
}

/// An object table image extended by tombstones serializes to the same
/// dictionary.
proof fn lemma_entries_agree(acc: Seq<Option<Object>>, slots: Seq<Option<Object>>)
    requires
        acc.len() <= slots.len(),
        forall|i: int| 0 <= i < acc.len() ==> acc[i] == slots[i],
        forall|i: int| acc.len() <= i < slots.len() ==> (#[trigger] slots[i]) is None,
    ensures
        spec_object_entries(acc) == spec_object_entries(slots),
    decreases slots.len(),
{
    if slots.len() == acc.len() {
        assert(acc =~= slots);
    } else {
        let dl = slots.drop_last();
        assert(slots.last() is None);
        lemma_entries_agree(acc, dl);
        assert(spec_object_entries(slots) =~= spec_object_entries(dl));
    }
}

/// Why a side-table document was rejected.
#[derive(Debug, Clone, Copy, PartialEq, Eq, Structural)]
pub enum SideTableError {
    /// The document does not parse under the side-table grammar.
    Malformed,
    /// The document parses but is not the canonical serialization of its
    /// own content.
    NotCanonical,
}

/// The reloaded side table: the object table image (tombstones included up
/// to the largest stored index) and the string table.
#[derive(Debug)]
pub struct JsonRoot {
    /// Object slots by stable index.
    pub objects: Vec<Option<Object>>,
    /// Interned strings by handle.
    pub strings: Vec<Vec<u8>>,
}

impl JsonRoot {
    /// The object stored under stable index `id`, if any.
    pub fn object(&self, id: usize) -> (r: Option<&Object>)
        ensures
            id < self.objects@.len() && self.objects@[id as int] is Some ==> (r matches Some(o)
                && Some(*o) == self.objects@[id as int]),
            !(id < self.objects@.len() && self.objects@[id as int] is Some) ==> r is None,
    {
        if id < self.objects.len() {
            match &self.objects[id] {
                Some(o) => Some(o),
                None => None,
            }
        } else {
            None
        }
    }
}

/// Match the literal `lit` at `pos`: succeeds exactly when the bytes at
/// `pos` are `lit`, and then consumes them.
fn eat_lit(bytes: &Vec<u8>, pos: usize, lit: &Vec<u8>) -> (r: Option<usize>)
    requires
        pos <= bytes@.len(),
    ensures
        r matches Some(p) ==> (pos + lit@.len() <= bytes@.len() && p == pos + lit@.len()
            && bytes@.subrange(pos as int, p as int) == lit@),
        r is None ==> !(pos + lit@.len() <= bytes@.len() && bytes@.subrange(
            pos as int,
            pos + lit@.len(),
        ) == lit@),
{
    let n = bytes.len();
    if lit.len() > n - pos {
        return None;
    }
    let mut i: usize = 0;
    while i < lit.len()
        invariant
            0 <= i <= lit@.len(),
            pos + lit@.len() <= bytes@.len(),
            n == bytes@.len(),
            forall|j: int| 0 <= j < i ==> bytes@[pos + j] == lit@[j],
        decreases lit@.len() - i,
    {
        if bytes[pos + i] != lit[i] {
            proof {
                assert(bytes@.subrange(pos as int, pos + lit@.len())[i as int] == bytes@[pos
                    + i]);
            }
            return None;
        }
        i = i + 1;
    }
    proof {
        assert(bytes@.subrange(pos as int, pos + lit@.len()) =~= lit@);
    }
    Some(pos + lit.len())
}

/// The decimal digits of a number are nonempty digits that evaluate back
/// to it.
proof fn lemma_dec_digits_props(n: nat)
    ensures
        spec_dec_digits(n).len() >= 1,
        all_digits(spec_dec_digits(n)),
        dec_val(spec_dec_digits(n)) == n,
    decreases n,
{
    if n < 10 {
        let s = spec_dec_digits(n);
        assert(s.len() == 1);
        assert(s.drop_last() =~= Seq::<u8>::empty());
        assert(dec_val(s) == dec_val(s.drop_last()) * 10 + (s.last() - 48) as nat);
        assert(s.last() == (48 + n) as u8);
    } else {
        lemma_dec_digits_props(n / 10);
        assert(spec_dec_digits(n).drop_last() =~= spec_dec_digits(n / 10));
        assert((n / 10) * 10 + n % 10 == n) by (nonlinear_arith);
    }
}

/// Parse a decimal number at `pos`: on the digits of `n` followed by a
/// non-digit (or the end), it returns exactly `n`.
fn parse_dec_at(bytes: &Vec<u8>, pos: usize) -> (r: Option<(u64, usize)>)
    requires
        pos <= bytes@.len(),
    ensures
        r matches Some(p) ==> pos < p.1 <= bytes@.len(),
        forall|n: u64, e: int|
            #![trigger bytes@.subrange(pos as int, e), spec_dec_digits(n as nat)]
            pos <= e <= bytes@.len() && bytes@.subrange(pos as int, e) == spec_dec_digits(
                n as nat,
            ) && (e == bytes@.len() || !is_digit(bytes@[e])) ==> r == Some((n, e as usize)),
{
    let n = bytes.len();
    let mut acc: u64 = 0;
    let mut i = pos;
    while i < n
        invariant
            pos <= i <= n == bytes@.len(),
            forall|j: int| pos <= j < i ==> is_digit(#[trigger] bytes@[j]),
            acc == dec_val(bytes@.subrange(pos as int, i as int)),
        ensures
            pos <= i <= n == bytes@.len(),
            forall|j: int| pos <= j < i ==> is_digit(#[trigger] bytes@[j]),
            acc == dec_val(bytes@.subrange(pos as int, i as int)),
            i == n || !is_digit(bytes@[i as int]),
        decreases n - i,
    {
        let b = bytes[i];
        if !(48 <= b && b <= 57) {
            break ;
        }
        let d = (b - 48) as u64;
        if acc > (u64::MAX - d) / 10 {
            proof {
                assert(acc * 10 + d > u64::MAX) by (nonlinear_arith)
                    requires
                        acc > (u64::MAX - d) / 10,
                        d <= 9,
                ;
                assert(bytes@.subrange(pos as int, i as int + 1).drop_last() =~= bytes@.subrange(
                    pos as int,
                    i as int,
                ));
                assert(dec_val(bytes@.subrange(pos as int, i as int + 1)) > u64::MAX);
                assert forall|nv: u64, e: int|
                    !(pos <= e <= bytes@.len() && bytes@.subrange(pos as int, e)
                        == spec_dec_digits(nv as nat) && (e == bytes@.len() || !is_digit(
                        bytes@[e],
                    ))) by {
                    if pos <= e <= bytes@.len() && bytes@.subrange(pos as int, e)
                        == spec_dec_digits(nv as nat) && (e == bytes@.len() || !is_digit(
                        bytes@[e],
                    )) {
                        lemma_dec_digits_props(nv as nat);
                        if e <= i {
                            // the byte at `e` is a scanned digit or the one
                            // being scanned, so the terminator cannot hold
                            assert(e < bytes@.len());
                            assert(is_digit(bytes@[e]));
                            assert(false);
                        } else {
                            // the overflowing scanned prefix bounds the value
                            assert(dec_val(bytes@.subrange(pos as int, e)) == nv as nat);
                            lemma_dec_val_take_le(bytes@.subrange(pos as int, e), i + 1 - pos);
                            assert(bytes@.subrange(pos as int, e).take(i + 1 - pos)
                                =~= bytes@.subrange(pos as int, i as int + 1));
                            assert(dec_val(bytes@.subrange(pos as int, i as int + 1)) <= nv as nat);
                            assert(false);
                        }
                    }
                }
            }
            return None;
        }
        proof {
            assert(acc * 10 + d <= u64::MAX) by (nonlinear_arith)
                requires
                    acc <= (u64::MAX - d) / 10,
                    d <= 9,
            ;
            assert(bytes@.subrange(pos as int, i as int + 1).drop_last() =~= bytes@.subrange(
                pos as int,
                i as int,
            ));
        }
        acc = acc * 10 + d;
        i = i + 1;
    }
    proof {
        assert forall|nv: u64, e: int|
            pos <= e <= bytes@.len() && bytes@.subrange(pos as int, e) == spec_dec_digits(
                nv as nat,
            ) && (e == bytes@.len() || !is_digit(bytes@[e])) implies e == i as int && acc == nv
            && i > pos by {
            lemma_dec_digits_props(nv as nat);
            if e < i {
                assert(is_digit(bytes@[e]));
                assert(false);
            }
            if e > i {
                // the loop stopped at `i`, so `i` is the end or a non-digit,
                // yet it would lie inside the digit run
                assert(bytes@.subrange(pos as int, e)[i - pos] == bytes@[i as int]);
                assert(is_digit(bytes@[i as int]));
                assert(false);
            }
            assert(acc == dec_val(spec_dec_digits(nv as nat)));
        }
    }
    if i == pos {
        None
    } else {
        Some((acc, i))
    }
}

/// Parse a boolean at `pos`: on the bytes of a boolean, it returns exactly
/// that boolean.
fn parse_bool_at(bytes: &Vec<u8>, pos: usize) -> (r: Option<(bool, usize)>)
    requires
        pos <= bytes@.len(),
    ensures
        r matches Some(p) ==> pos < p.1 <= bytes@.len(),
        forall|b: bool, e: int|
            #![trigger bytes@.subrange(pos as int, e), spec_json_bool(b)]
            pos <= e <= bytes@.len() && bytes@.subrange(pos as int, e) == spec_json_bool(b) ==> r
                == Some((b, e as usize)),
{
    let t: Vec<u8> = vec!['t' as u8, 'r' as u8, 'u' as u8, 'e' as u8];
    let f: Vec<u8> = vec!['f' as u8, 'a' as u8, 'l' as u8, 's' as u8, 'e' as u8];
    proof {
        assert(t@ =~= spec_json_bool(true));
        assert(f@ =~= spec_json_bool(false));
    }
    match eat_lit(bytes, pos, &t) {
        Some(p) => {
            proof {
                assert forall|b: bool, e: int|
                    pos <= e <= bytes@.len() && bytes@.subrange(pos as int, e) == spec_json_bool(
                        b,
                    ) implies b == true && e == p by {
                    if !b {
                        assert(bytes@.subrange(pos as int, e)[0] == 'f' as u8);
                        assert(bytes@.subrange(pos as int, p as int)[0] == 't' as u8);
                        assert(bytes@[pos as int] == 'f' as u8 && bytes@[pos as int] == 't' as u8);
                    }
                }
            }
            Some((true, p))
        },
        None => match eat_lit(bytes, pos, &f) {
            Some(p) => {
                proof {
                    assert forall|b: bool, e: int|
                        pos <= e <= bytes@.len() && bytes@.subrange(pos as int, e)
                            == spec_json_bool(b) implies b == false && e == p by {
                        if b {
                            assert(bytes@.subrange(pos as int, e) =~= bytes@.subrange(
                                pos as int,
                                pos + 4,
                            ));
                        }
                    }
                }
                Some((false, p))
            },
            None => {
                proof {
                    assert forall|b: bool, e: int|
                        !(pos <= e <= bytes@.len() && bytes@.subrange(pos as int, e)
                            == spec_json_bool(b)) by {
                        if pos <= e <= bytes@.len() && bytes@.subrange(pos as int, e)
                            == spec_json_bool(b) {
                            if b {
                                assert(bytes@.subrange(pos as int, pos + 4) =~= bytes@.subrange(
                                    pos as int,
                                    e,
                                ));
                            } else {
                                assert(bytes@.subrange(pos as int, pos + 5) =~= bytes@.subrange(
                                    pos as int,
                                    e,
                                ));
                            }
                        }
                    }
                }
                None
            },
        },
    }
}

/// Spec value of one hexadecimal digit byte; sixteen for a non-digit.
pub open spec fn hex_nibble_val(b: u8) -> u8 {
    if 48 <= b && b <= 57 {
        (b - 48) as u8
    } else if 97 <= b && b <= 102 {
        (b - 97 + 10) as u8
    } else if 65 <= b && b <= 70 {
        (b - 65 + 10) as u8
    } else {
        16
    }
}

/// Decode one hexadecimal digit byte.
fn hex_nibble(b: u8) -> (r: Option<u8>)
    ensures
        r == (if hex_nibble_val(b) < 16 {
            Some(hex_nibble_val(b))
        } else {
            None::<u8>
        }),
{
    if 48 <= b && b <= 57 {
        Some(b - 48)
    } else if 97 <= b && b <= 102 {
        Some(b - 97 + 10)
    } else if 65 <= b && b <= 70 {
        Some(b - 65 + 10)
    } else {
        None
    }
}

/// The bytes from `j` up to `e` are the escaped content `s` followed by
/// the closing quote.
pub open spec fn content_shape(bytes: Seq<u8>, j: int, s: Seq<u8>, e: int) -> bool {
    0 <= j <= e <= bytes.len() && bytes.subrange(j, e) == spec_escape(s) + seq![34u8]
}

/// The bytes from `pos` up to `e` are the JSON string of `s`.
pub open spec fn string_target(bytes: Seq<u8>, pos: int, s: Seq<u8>, e: int) -> bool {
    0 <= pos <= e <= bytes.len() && bytes.subrange(pos, e) == spec_json_string(s)
}

/// Head decomposition of escaped content: empty content is just the closing
/// quote; otherwise the first escape unit sits at `j` and the rest of the
/// content follows it.
proof fn lemma_content_head(bytes: Seq<u8>, j: int, s: Seq<u8>, e: int)
    requires
        content_shape(bytes, j, s, e),
    ensures
        j < e,
        s.len() == 0 ==> (bytes[j] == 34 && e == j + 1),
        s.len() > 0 ==> {
            let u = spec_esc_byte(s[0]);
            &&& j + u.len() < e
            &&& (forall|k: int| 0 <= k < u.len() ==> bytes[j + k] == u[k])
            &&& content_shape(bytes, j + u.len(), s.drop_first(), e)
        },
{
    if s.len() == 0 {
        assert(bytes.subrange(j, e) =~= seq![34u8]);
        assert(bytes.subrange(j, e).len() == 1);
        assert(bytes[j] == bytes.subrange(j, e)[0]);
    } else {
        let u = spec_esc_byte(s[0]);
        let rest = spec_escape(s.drop_first());
        assert(spec_escape(s) == u + rest);
        assert(bytes.subrange(j, e) == (u + rest) + seq![34u8]);
        assert(e - j == bytes.subrange(j, e).len());
        assert(((u + rest) + seq![34u8]).len() == u.len() + rest.len() + 1);
        assert(e - j == u.len() + rest.len() + 1);
        assert forall|k: int| 0 <= k < u.len() implies bytes[j + k] == u[k] by {
            assert(bytes[j + k] == bytes.subrange(j, e)[k]);
            assert(((u + rest) + seq![34u8])[k] == (u + rest)[k]);
            assert((u + rest)[k] == u[k]);
        }
        assert forall|k: int| 0 <= k < e - (j + u.len()) implies bytes.subrange(
            j + u.len(),
            e,
        )[k] == (rest + seq![34u8])[k] by {
            assert(bytes.subrange(j + u.len(), e)[k] == bytes.subrange(j, e)[k + u.len()]);
            assert(((u + rest) + seq![34u8])[k + u.len()] == (rest + seq![34u8])[k]);
        }
        assert(bytes.subrange(j + u.len(), e) =~= rest + seq![34u8]);
    }
}

/// The first byte of an escape unit is a backslash or the raw byte itself;
/// never a quote.
proof fn lemma_esc_byte_head(x: u8)
    ensures
        spec_esc_byte(x).len() >= 1,
        spec_esc_byte(x)[0] != 34,
        (x == 34 || x == 92 || x < 32) ==> spec_esc_byte(x)[0] == 92,
        !(x == 34 || x == 92 || x < 32) ==> spec_esc_byte(x)[0] == x,
{
}

/// Parse a quoted string at `pos`, undoing the emitter's escapes: on the
/// JSON string of `s`, it returns exactly `s`.
#[verifier::rlimit(100)]
fn parse_string_at(bytes: &Vec<u8>, pos: usize) -> (r: Option<(Vec<u8>, usize)>)
    requires
        pos <= bytes@.len(),
    ensures
        r matches Some(p) ==> pos < p.1 <= bytes@.len(),
        forall|s: Seq<u8>, e: int|
            #[trigger] string_target(bytes@, pos as int, s, e) ==> (r matches Some(p) && p.0@ == s
                && p.1 == e),
{
    let n = bytes.len();
    if pos >= n || bytes[pos] != 34 {
        proof {
            assert forall|s: Seq<u8>, e: int| !string_target(bytes@, pos as int, s, e) by {
                if string_target(bytes@, pos as int, s, e) {
                    let js = spec_json_string(s);
                    assert(js.len() == spec_escape(s).len() + 2);
                    assert(e - pos == js.len());
                    assert(js[0] == 34);
                    assert(bytes@[pos as int] == bytes@.subrange(pos as int, e)[0]);
                }
            }
        }
        return None;
    }
    proof {
        assert forall|s: Seq<u8>, e: int| #[trigger] string_target(bytes@, pos as int, s, e) implies content_shape(
            bytes@,
            pos + 1,
            s,
            e,
        ) by {
            let js = spec_json_string(s);
            assert(js.len() == spec_escape(s).len() + 2);
            assert(e - pos == js.len());
            assert forall|k: int| 0 <= k < e - (pos + 1) implies bytes@.subrange(pos + 1, e)[k]
                == (spec_escape(s) + seq![34u8])[k] by {
                assert(bytes@.subrange(pos + 1, e)[k] == bytes@.subrange(pos as int, e)[k + 1]);
                assert(js[k + 1] == (spec_escape(s) + seq![34u8])[k]);
            }
            assert(bytes@.subrange(pos + 1, e) =~= spec_escape(s) + seq![34u8]);
        }
    }
    let mut out: Vec<u8> = Vec::new();
    let mut i = pos + 1;
    while i < n
        invariant
            pos < i <= n == bytes@.len(),
            forall|s: Seq<u8>, e: int|
                #[trigger] string_target(bytes@, pos as int, s, e) ==> exists|s2: Seq<u8>|
                    s == out@ + s2 && #[trigger] content_shape(bytes@, i as int, s2, e),
        decreases n - i,
    {
        let b = bytes[i];
        if b == 34 {
            proof {
                assert forall|s: Seq<u8>, e: int| #[trigger] string_target(bytes@, pos as int, s, e) implies s == out@
                    && e == i + 1 by {
                    let s2 = choose|s2: Seq<u8>|
                        s == out@ + s2 && #[trigger] content_shape(bytes@, i as int, s2, e);
                    lemma_content_head(bytes@, i as int, s2, e);
                    if s2.len() > 0 {
                        lemma_esc_byte_head(s2[0]);
                    }
                    assert(s2 =~= Seq::<u8>::empty());
                    assert(s =~= out@);
                }
            }
            return Some((out, i + 1));
        }
        if b == 92 {
            if i + 1 >= n {
                proof {
                    assert forall|s: Seq<u8>, e: int| !string_target(bytes@, pos as int, s, e) by {
                        if string_target(bytes@, pos as int, s, e) {
                            let s2 = choose|s2: Seq<u8>|
                                s == out@ + s2 && #[trigger] content_shape(
                                    bytes@,
                                    i as int,
                                    s2,
                                    e,
                                );
                            lemma_content_head(bytes@, i as int, s2, e);
                            if s2.len() > 0 {
                                lemma_esc_byte_head(s2[0]);
                            }
                        }
                    }
                }
                return None;
            }
            let e2 = bytes[i + 1];
            if e2 == 34 || e2 == 92 {
                let ghost old_out = out@;
                let ghost old_i = i as int;
                out.push(e2);
                i = i + 2;
                proof {
                    assert forall|s: Seq<u8>, e: int| #[trigger] string_target(bytes@, pos as int, s, e) implies exists|
                        s2: Seq<u8>,
                    |
                        s == out@ + s2 && #[trigger] content_shape(bytes@, i as int, s2, e) by {
                        let s2 = choose|s2: Seq<u8>|
                            s == old_out + s2 && #[trigger] content_shape(bytes@, old_i, s2, e);
                        lemma_content_head(bytes@, old_i, s2, e);
                        assert(s2.len() > 0);
                        lemma_esc_byte_head(s2[0]);
                        assert(s2[0] == e2) by {
                            if s2[0] != 34 && s2[0] != 92 && s2[0] >= 32 {
                                assert(bytes@[old_i] == s2[0]);
                            } else if s2[0] < 32 {
                                assert(bytes@[old_i + 1] == 117);
                            } else {
                                assert(bytes@[old_i + 1] == s2[0]);
                            }
                        }
                        assert(spec_esc_byte(s2[0]).len() == 2);
                        assert(s == out@ + s2.drop_first()) by {
                            assert(s =~= old_out.push(e2) + s2.drop_first());
                        }
                        assert(content_shape(bytes@, i as int, s2.drop_first(), e));
                    }
                }
            } else if e2 == 117 {
                if n - i < 6 {
                    proof {
                        assert forall|s: Seq<u8>, e: int| !string_target(bytes@, pos as int, s, e) by {
                            if string_target(bytes@, pos as int, s, e) {
                                let s2 = choose|s2: Seq<u8>|
                                    s == out@ + s2 && #[trigger] content_shape(
                                        bytes@,
                                        i as int,
                                        s2,
                                        e,
                                    );
                                lemma_content_head(bytes@, i as int, s2, e);
                                if s2.len() > 0 {
                                    lemma_esc_byte_head(s2[0]);
                                    assert(s2[0] < 32) by {
                                        if s2[0] == 34 || s2[0] == 92 {
                                            assert(bytes@[i + 1] == s2[0]);
                                        }
                                        if !(s2[0] == 34 || s2[0] == 92 || s2[0] < 32) {
                                            assert(bytes@[i as int] == s2[0]);
                                        }
                                    }
                                    assert(spec_esc_byte(s2[0]).len() == 6);
                                }
                            }
                        }
                    }
                    return None;
                }
                let h1 = hex_nibble(bytes[i + 2]);
                let h2 = hex_nibble(bytes[i + 3]);
                let h3 = hex_nibble(bytes[i + 4]);
                let h4 = hex_nibble(bytes[i + 5]);
                let ghost old_out = out@;
                let ghost old_i = i as int;
                proof {
                    assert forall|s: Seq<u8>, e: int| #[trigger] string_target(bytes@, pos as int, s, e) implies {
                        let s2 = choose|s2: Seq<u8>|
                            s == old_out + s2 && #[trigger] content_shape(bytes@, old_i, s2, e);
                        &&& s2.len() > 0
                        &&& s2[0] < 32
                        &&& bytes@[old_i + 2] == 48
                        &&& bytes@[old_i + 3] == 48
                        &&& bytes@[old_i + 4] == hex_digit_byte((s2[0] / 16) as nat)
                        &&& bytes@[old_i + 5] == hex_digit_byte((s2[0] % 16) as nat)
                        &&& content_shape(bytes@, old_i + 6, s2.drop_first(), e)
                    } by {
                        let s2 = choose|s2: Seq<u8>|
                            s == old_out + s2 && #[trigger] content_shape(bytes@, old_i, s2, e);
                        lemma_content_head(bytes@, old_i, s2, e);
                        assert(s2.len() > 0);
                        lemma_esc_byte_head(s2[0]);
                        assert(s2[0] < 32) by {
                            if s2[0] == 34 || s2[0] == 92 {
                                assert(bytes@[old_i + 1] == s2[0]);
                            }
                            if !(s2[0] == 34 || s2[0] == 92 || s2[0] < 32) {
                                assert(bytes@[old_i] == s2[0]);
                            }
                        }
                        assert(spec_esc_byte(s2[0]).len() == 6);
                    }
                }
                match (h1, h2, h3, h4) {
                    (Some(v1), Some(v2), Some(v3), Some(v4)) => {
                        if v1 != 0 || v2 != 0 {
                            proof {
                                assert forall|s: Seq<u8>, e: int| !string_target(bytes@, pos as int, s, e) by {
                                    if string_target(bytes@, pos as int, s, e) {
                                        let s2 = choose|s2: Seq<u8>|
                                            s == old_out + s2 && #[trigger] content_shape(
                                                bytes@,
                                                old_i,
                                                s2,
                                                e,
                                            );
                                        lemma_hex_digit_byte_val(s2[0]);
                                    }
                                }
                            }
                            return None;
                        }
                        let decoded = v3 * 16 + v4;
                        out.push(decoded);
                        i = i + 6;
                        proof {
                            assert forall|s: Seq<u8>, e: int| #[trigger] string_target(bytes@, pos as int, s, e) implies
                                exists|s2: Seq<u8>|
                                s == out@ + s2 && #[trigger] content_shape(
                                    bytes@,
                                    i as int,
                                    s2,
                                    e,
                                ) by {
                                let s2 = choose|s2: Seq<u8>|
                                    s == old_out + s2 && #[trigger] content_shape(
                                        bytes@,
                                        old_i,
                                        s2,
                                        e,
                                    );
                                lemma_hex_digit_byte_val(s2[0]);
                                assert(v3 == (s2[0] / 16) as u8 && v4 == (s2[0] % 16) as u8);
                                assert(decoded == s2[0]) by {
                                    assert(s2[0] / 16 * 16 + s2[0] % 16 == s2[0]) by (nonlinear_arith);
                                }
                                assert(s == out@ + s2.drop_first()) by {
                                    assert(s =~= old_out.push(decoded) + s2.drop_first());
                                }
                                assert(content_shape(bytes@, i as int, s2.drop_first(), e));
                            }
                        }
                    },
                    _ => {
                        proof {
                            assert forall|s: Seq<u8>, e: int| !string_target(bytes@, pos as int, s, e) by {
                                    if string_target(bytes@, pos as int, s, e) {
                                        let s2 = choose|s2: Seq<u8>|
                                            s == old_out + s2 && #[trigger] content_shape(
                                                bytes@,
                                                old_i,
                                                s2,
                                                e,
                                            );
                                        lemma_hex_digit_byte_val(s2[0]);
                                    }
                                }
                        }
                        return None;
                    },
                }
            } else {
                proof {
                    assert forall|s: Seq<u8>, e: int| !string_target(bytes@, pos as int, s, e) by {
                        if string_target(bytes@, pos as int, s, e) {
                            let s2 = choose|s2: Seq<u8>|
                                s == out@ + s2 && #[trigger] content_shape(
                                    bytes@,
                                    i as int,
                                    s2,
                                    e,
                                );
                            lemma_content_head(bytes@, i as int, s2, e);
                            if s2.len() > 0 {
                                lemma_esc_byte_head(s2[0]);
                                if s2[0] == 34 || s2[0] == 92 || s2[0] < 32 {
                                    assert(bytes@[i + 1] == spec_esc_byte(s2[0])[1]);
                                } else {
                                    assert(bytes@[i as int] == s2[0]);
                                }
                            }
                        }
                    }
                }
                return None;
            }
        } else if b < 32 {
            proof {
                assert forall|s: Seq<u8>, e: int| !string_target(bytes@, pos as int, s, e) by {
                    if string_target(bytes@, pos as int, s, e) {
                        let s2 = choose|s2: Seq<u8>|
                            s == out@ + s2 && #[trigger] content_shape(bytes@, i as int, s2, e);
                        lemma_content_head(bytes@, i as int, s2, e);
                        if s2.len() > 0 {
                            lemma_esc_byte_head(s2[0]);
                        }
                    }
                }
            }
            return None;
        } else {
            let ghost old_out = out@;
            let ghost old_i = i as int;
            out.push(b);
            i = i + 1;
            proof {
                assert forall|s: Seq<u8>, e: int| #[trigger] string_target(bytes@, pos as int, s, e) implies exists|
                    s2: Seq<u8>,
                |
                    s == out@ + s2 && #[trigger] content_shape(bytes@, i as int, s2, e) by {
                    let s2 = choose|s2: Seq<u8>|
                        s == old_out + s2 && #[trigger] content_shape(bytes@, old_i, s2, e);
                    lemma_content_head(bytes@, old_i, s2, e);
                    assert(s2.len() > 0);
                    lemma_esc_byte_head(s2[0]);
                    assert(s2[0] == b);
                    assert(spec_esc_byte(s2[0]).len() == 1);
                    assert(s == out@ + s2.drop_first()) by {
                        assert(s =~= old_out.push(b) + s2.drop_first());
                    }
                    assert(content_shape(bytes@, i as int, s2.drop_first(), e));
                }
            }
        }
    }
    proof {
        assert forall|s: Seq<u8>, e: int| !string_target(bytes@, pos as int, s, e) by {
            if string_target(bytes@, pos as int, s, e) {
                let s2 = choose|s2: Seq<u8>|
                    s == out@ + s2 && #[trigger] content_shape(bytes@, i as int, s2, e);
                lemma_content_head(bytes@, i as int, s2, e);
            }
        }
    }
    None
}

/// The value of a hexadecimal digit byte made from a value below sixteen is
/// that value.
proof fn lemma_hex_digit_byte_val(c: u8)
    ensures
        hex_nibble_val(hex_digit_byte((c / 16) as nat)) == c / 16,
        hex_nibble_val(hex_digit_byte((c % 16) as nat)) == c % 16,
{
}



/// A leading chunk of a byte region can be split off.
proof fn lemma_chunk_split(bytes: Seq<u8>, q: int, e: int, a: Seq<u8>, rest: Seq<u8>)
    requires
        0 <= q <= e <= bytes.len(),
        bytes.subrange(q, e) == a + rest,
    ensures
        q + a.len() <= e,
        bytes.subrange(q, q + a.len()) == a,
        bytes.subrange(q + a.len(), e) == rest,
{
    assert(bytes.subrange(q, e).len() == e - q);
    assert((a + rest).len() == a.len() + rest.len());
    assert(e - q == a.len() + rest.len());
    assert forall|k: int| 0 <= k < a.len() implies bytes.subrange(q, q + a.len())[k] == a[k] by {
        assert(bytes.subrange(q, q + a.len())[k] == bytes.subrange(q, e)[k]);
        assert((a + rest)[k] == a[k]);
    }
    assert(bytes.subrange(q, q + a.len()) =~= a);
    assert forall|k: int| 0 <= k < rest.len() implies bytes.subrange(q + a.len(), e)[k]
        == rest[k] by {
        assert(bytes.subrange(q + a.len(), e)[k] == bytes.subrange(q, e)[k + a.len()]);
        assert((a + rest)[k + a.len()] == rest[k]);
    }
    assert(bytes.subrange(q + a.len(), e) =~= rest);
}

/// The shape of one object body at `q`.
pub open spec fn object_shape(bytes: Seq<u8>, q: int, o: Object, e: int) -> bool {
    0 <= q <= e <= bytes.len() && bytes.subrange(q, e) == spec_object_body(o)
}

/// Splitting an object body into its seven labelled fields and the closing
/// brace.
#[verifier::rlimit(100)]
#[verifier::spinoff_prover]
proof fn lemma_object_body_split(bytes: Seq<u8>, q: int, o: Object, e: int)
    requires
        object_shape(bytes, q, o, e),
    ensures
        ({
            let q0 = q + lit_file().len();
            let q1 = q0 + spec_dec_digits(((o.file as u64) as nat)).len();
            let q2 = q1 + lit_idx().len();
            let q3 = q2 + spec_dec_digits(((o.idx as u64) as nat)).len();
            let q4 = q3 + lit_maps().len();
            let q5 = q4 + spec_dec_digits(((o.maps as u64) as nat)).len();
            let q6 = q5 + lit_faults().len();
            let q7 = q6 + spec_dec_digits(((o.faults as u64) as nat)).len();
            let q8 = q7 + lit_biggest().len();
            let q9 = q8 + spec_dec_digits(o.biggest_offset as nat).len();
            let q10 = q9 + lit_smallest().len();
            let q11 = q10 + spec_dec_digits(o.smallest_offset as nat).len();
            let q12 = q11 + lit_show().len();
            let q13 = q12 + spec_json_bool(o.show).len();
            &&& q13 + 1 == e
            &&& bytes.subrange(q, q0) == lit_file()
            &&& bytes.subrange(q0, q1) == spec_dec_digits(((o.file as u64) as nat))
            &&& bytes.subrange(q1, q2) == lit_idx()
            &&& bytes.subrange(q2, q3) == spec_dec_digits(((o.idx as u64) as nat))
            &&& bytes.subrange(q3, q4) == lit_maps()
            &&& bytes.subrange(q4, q5) == spec_dec_digits(((o.maps as u64) as nat))
            &&& bytes.subrange(q5, q6) == lit_faults()
            &&& bytes.subrange(q6, q7) == spec_dec_digits(((o.faults as u64) as nat))
            &&& bytes.subrange(q7, q8) == lit_biggest()
            &&& bytes.subrange(q8, q9) == spec_dec_digits(o.biggest_offset as nat)
            &&& bytes.subrange(q9, q10) == lit_smallest()
            &&& bytes.subrange(q10, q11) == spec_dec_digits(o.smallest_offset as nat)
            &&& bytes.subrange(q11, q12) == lit_show()
            &&& bytes.subrange(q12, q13) == spec_json_bool(o.show)
            &&& bytes[q13] == '}' as u8
            &&& bytes[q1] == ',' as u8
            &&& bytes[q3] == ',' as u8
            &&& bytes[q5] == ',' as u8
            &&& bytes[q7] == ',' as u8
            &&& bytes[q9] == ',' as u8
            &&& bytes[q11] == ',' as u8
        }),
{
    let c1 = spec_dec_digits(((o.file as u64) as nat));
    let c2 = spec_dec_digits(((o.idx as u64) as nat));
    let c3 = spec_dec_digits(((o.maps as u64) as nat));
    let c4 = spec_dec_digits(((o.faults as u64) as nat));
    let c5 = spec_dec_digits(o.biggest_offset as nat);
    let c6 = spec_dec_digits(o.smallest_offset as nat);
    let cb = spec_json_bool(o.show);
    let r13 = seq!['}' as u8];
    let r12 = cb + r13;
    let r11 = lit_show() + r12;
    let r10 = c6 + r11;
    let r9 = lit_smallest() + r10;
    let r8 = c5 + r9;
    let r7 = lit_biggest() + r8;
    let r6 = c4 + r7;
    let r5 = lit_faults() + r6;
    let r4 = c3 + r5;
    let r3 = lit_maps() + r4;
    let r2 = c2 + r3;
    let r1 = lit_idx() + r2;
    let r0 = c1 + r1;
    assert(bytes.subrange(q, e) == lit_file() + r0);
    lemma_chunk_split(bytes, q, e, lit_file(), r0);
    let p0 = q + lit_file().len();
    lemma_chunk_split(bytes, p0, e, c1, r1);
    let p1 = p0 + c1.len();
    lemma_chunk_split(bytes, p1, e, lit_idx(), r2);
    let p2 = p1 + lit_idx().len();
    lemma_chunk_split(bytes, p2, e, c2, r3);
    let p3 = p2 + c2.len();
    lemma_chunk_split(bytes, p3, e, lit_maps(), r4);
    let p4 = p3 + lit_maps().len();
    lemma_chunk_split(bytes, p4, e, c3, r5);
    let p5 = p4 + c3.len();
    lemma_chunk_split(bytes, p5, e, lit_faults(), r6);
    let p6 = p5 + lit_faults().len();
    lemma_chunk_split(bytes, p6, e, c4, r7);
    let p7 = p6 + c4.len();
    lemma_chunk_split(bytes, p7, e, lit_biggest(), r8);
    let p8 = p7 + lit_biggest().len();
    lemma_chunk_split(bytes, p8, e, c5, r9);
    let p9 = p8 + c5.len();
    lemma_chunk_split(bytes, p9, e, lit_smallest(), r10);
    let p10 = p9 + lit_smallest().len();
    lemma_chunk_split(bytes, p10, e, c6, r11);
    let p11 = p10 + c6.len();
    lemma_chunk_split(bytes, p11, e, lit_show(), r12);
    let p12 = p11 + lit_show().len();
    lemma_chunk_split(bytes, p12, e, cb, r13);
    let p13 = p12 + cb.len();
    assert(bytes[p13] == bytes.subrange(p13, e)[0]);
    assert(bytes[p1] == bytes.subrange(p1, p1 + lit_idx().len())[0]);
    assert(bytes[p3] == bytes.subrange(p3, p3 + lit_maps().len())[0]);
    assert(bytes[p5] == bytes.subrange(p5, p5 + lit_faults().len())[0]);
    assert(bytes[p7] == bytes.subrange(p7, p7 + lit_biggest().len())[0]);
    assert(bytes[p9] == bytes.subrange(p9, p9 + lit_smallest().len())[0]);
    assert(bytes[p11] == bytes.subrange(p11, p11 + lit_show().len())[0]);
}

/// Parse one object body at `pos`: on the body of `o`, it returns exactly
/// `o`.
#[verifier::rlimit(100)]
/// Position of the fifth field label inside the body of `o` emitted at
/// `pos`.
pub open spec fn object_mid(pos: int, o: Object) -> int {
    pos + lit_file().len() + spec_dec_digits(((o.file as u64) as nat)).len() + lit_idx().len()
        + spec_dec_digits(((o.idx as u64) as nat)).len() + lit_maps().len() + spec_dec_digits(
        ((o.maps as u64) as nat),
    ).len() + lit_faults().len() + spec_dec_digits(((o.faults as u64) as nat)).len()
}

/// Parse the first four labelled fields of an object body.
#[verifier::rlimit(100)]
fn parse_object_head(bytes: &Vec<u8>, pos: usize) -> (r: Option<((u64, u64, u64, u64), usize)>)
    requires
        pos <= bytes@.len(),
    ensures
        r matches Some(p) ==> pos < p.1 <= bytes@.len(),
        forall|o: Object, e: int|
            #[trigger] object_shape(bytes@, pos as int, o, e) ==> r == Some(
                (
                    (o.file as u64, o.idx as u64, o.maps as u64, o.faults as u64),
                    object_mid(pos as int, o) as usize,
                ),
            ),
{
    let _blen = bytes.len();
    let l1: Vec<u8> = vec![
        '{' as u8, '"' as u8, 'f' as u8, 'i' as u8, 'l' as u8, 'e' as u8, '"' as u8, ':' as u8,
    ];
    let l2: Vec<u8> = vec![',' as u8, '"' as u8, 'i' as u8, 'd' as u8, 'x' as u8, '"' as u8, ':' as u8];
    let l3: Vec<u8> = vec![
        ',' as u8, '"' as u8, 'm' as u8, 'a' as u8, 'p' as u8, 's' as u8, '"' as u8, ':' as u8,
    ];
    let l4: Vec<u8> = vec![
        ',' as u8, '"' as u8, 'f' as u8, 'a' as u8, 'u' as u8, 'l' as u8, 't' as u8, 's' as u8,
        '"' as u8, ':' as u8,
    ];
    proof {
        assert(l1@ =~= lit_file());
        assert(l2@ =~= lit_idx());
        assert(l3@ =~= lit_maps());
        assert(l4@ =~= lit_faults());
    }
    let p1 = match eat_lit(bytes, pos, &l1) {
        Some(v) => v,
        None => {
            proof {
                assert forall|o: Object, e: int| !object_shape(bytes@, pos as int, o, e) by {
                    if object_shape(bytes@, pos as int, o, e) {
                        lemma_object_body_split(bytes@, pos as int, o, e);
                    }
                }
            }
            return None;
        },
    };
    let (file, p2) = match parse_dec_at(bytes, p1) {
        Some(v) => v,
        None => {
            proof {
                assert forall|o: Object, e: int| !object_shape(bytes@, pos as int, o, e) by {
                    if object_shape(bytes@, pos as int, o, e) {
                        lemma_object_body_split(bytes@, pos as int, o, e);
                    }
                }
            }
            return None;
        },
    };
    let p3 = match eat_lit(bytes, p2, &l2) {
        Some(v) => v,
        None => {
            proof {
                assert forall|o: Object, e: int| !object_shape(bytes@, pos as int, o, e) by {
                    if object_shape(bytes@, pos as int, o, e) {
                        lemma_object_body_split(bytes@, pos as int, o, e);
                    }
                }
            }
            return None;
        },
    };
    let (idx, p4) = match parse_dec_at(bytes, p3) {
        Some(v) => v,
        None => {
            proof {
                assert forall|o: Object, e: int| !object_shape(bytes@, pos as int, o, e) by {
                    if object_shape(bytes@, pos as int, o, e) {
                        lemma_object_body_split(bytes@, pos as int, o, e);
                    }
                }
            }
            return None;
        },
    };
    let p5 = match eat_lit(bytes, p4, &l3) {
        Some(v) => v,
        None => {
            proof {
                assert forall|o: Object, e: int| !object_shape(bytes@, pos as int, o, e) by {
                    if object_shape(bytes@, pos as int, o, e) {
                        lemma_object_body_split(bytes@, pos as int, o, e);
                    }
                }
            }
            return None;
        },
    };
    let (maps, p6) = match parse_dec_at(bytes, p5) {
        Some(v) => v,
        None => {
            proof {
                assert forall|o: Object, e: int| !object_shape(bytes@, pos as int, o, e) by {
                    if object_shape(bytes@, pos as int, o, e) {
                        lemma_object_body_split(bytes@, pos as int, o, e);
                    }
                }
            }
            return None;
        },
    };
    let p7 = match eat_lit(bytes, p6, &l4) {
        Some(v) => v,
        None => {
            proof {
                assert forall|o: Object, e: int| !object_shape(bytes@, pos as int, o, e) by {
                    if object_shape(bytes@, pos as int, o, e) {
                        lemma_object_body_split(bytes@, pos as int, o, e);
                    }
                }
            }
            return None;
        },
    };
    let (faults, p8) = match parse_dec_at(bytes, p7) {
        Some(v) => v,
        None => {
            proof {
                assert forall|o: Object, e: int| !object_shape(bytes@, pos as int, o, e) by {
                    if object_shape(bytes@, pos as int, o, e) {
                        lemma_object_body_split(bytes@, pos as int, o, e);
                    }
                }
            }
            return None;
        },
    };
    let result = Some(((file, idx, maps, faults), p8));
    proof {
        assert forall|o: Object, e: int| #[trigger] object_shape(bytes@, pos as int, o, e) implies
            result == Some(
            (
                (o.file as u64, o.idx as u64, o.maps as u64, o.faults as u64),
                object_mid(pos as int, o) as usize,
            ),
        ) by {
            lemma_object_body_split(bytes@, pos as int, o, e);
                        let q0 = pos + lit_file().len();
                        let q1 = q0 + spec_dec_digits(((o.file as u64) as nat)).len();
                        let q2 = q1 + lit_idx().len();
                        let q3 = q2 + spec_dec_digits(((o.idx as u64) as nat)).len();
                        let q4 = q3 + lit_maps().len();
                        let q5 = q4 + spec_dec_digits(((o.maps as u64) as nat)).len();
                        let q6 = q5 + lit_faults().len();
                        let q7 = q6 + spec_dec_digits(((o.faults as u64) as nat)).len();
                        assert(p1 == q0);
                        assert(bytes@.subrange(p1 as int, q1) == spec_dec_digits(((o.file as u64) as nat)));
                        assert(file == o.file as u64 && p2 == q1);
                        assert(p3 == q2);
                        assert(bytes@.subrange(p3 as int, q3) == spec_dec_digits(((o.idx as u64) as nat)));
                        assert(idx == o.idx as u64 && p4 == q3);
                        assert(p5 == q4);
                        assert(bytes@.subrange(p5 as int, q5) == spec_dec_digits(((o.maps as u64) as nat)));
                        assert(maps == o.maps as u64 && p6 == q5);
                        assert(p7 == q6);
                        assert(bytes@.subrange(p7 as int, q7) == spec_dec_digits(((o.faults as u64) as nat)));
                        assert(faults == o.faults as u64 && p8 == q7);
        }
    }
    result
}

/// Parse one object body at `pos`: on the body of `o`, it returns exactly
/// `o`.
#[verifier::rlimit(100)]
fn parse_object_at(bytes: &Vec<u8>, pos: usize) -> (r: Option<(Object, usize)>)
    requires
        pos <= bytes@.len(),
    ensures
        r matches Some(p) ==> pos < p.1 <= bytes@.len(),
        forall|o: Object, e: int|
            #[trigger] object_shape(bytes@, pos as int, o, e) ==> r == Some((o, e as usize)),
{
    let _blen = bytes.len();
    let l5: Vec<u8> = vec![
        ',' as u8, '"' as u8, 'b' as u8, 'i' as u8, 'g' as u8, 'g' as u8, 'e' as u8, 's' as u8,
        't' as u8, '_' as u8, 'o' as u8, 'f' as u8, 'f' as u8, 's' as u8, 'e' as u8, 't' as u8,
        '"' as u8, ':' as u8,
    ];
    let l6: Vec<u8> = vec![
        ',' as u8, '"' as u8, 's' as u8, 'm' as u8, 'a' as u8, 'l' as u8, 'l' as u8, 'e' as u8,
        's' as u8, 't' as u8, '_' as u8, 'o' as u8, 'f' as u8, 'f' as u8, 's' as u8, 'e' as u8,
        't' as u8, '"' as u8, ':' as u8,
    ];
    let l7: Vec<u8> = vec![
        ',' as u8, '"' as u8, 's' as u8, 'h' as u8, 'o' as u8, 'w' as u8, '"' as u8, ':' as u8,
    ];
    proof {
        assert(l5@ =~= lit_biggest());
        assert(l6@ =~= lit_smallest());
        assert(l7@ =~= lit_show());
    }
    let (head, p8) = match parse_object_head(bytes, pos) {
        Some(v) => v,
        None => {
            proof {
                assert forall|o: Object, e: int| !object_shape(bytes@, pos as int, o, e) by {
                    if object_shape(bytes@, pos as int, o, e) {
                        lemma_object_body_split(bytes@, pos as int, o, e);
                    }
                }
            }
            return None;
        },
    };
    let p9 = match eat_lit(bytes, p8, &l5) {
        Some(v) => v,
        None => {
            proof {
                assert forall|o: Object, e: int| !object_shape(bytes@, pos as int, o, e) by {
                    if object_shape(bytes@, pos as int, o, e) {
                        lemma_object_body_split(bytes@, pos as int, o, e);
                    }
                }
            }
            return None;
        },
    };
    let (biggest, p10) = match parse_dec_at(bytes, p9) {
        Some(v) => v,
        None => {
            proof {
                assert forall|o: Object, e: int| !object_shape(bytes@, pos as int, o, e) by {
                    if object_shape(bytes@, pos as int, o, e) {
                        lemma_object_body_split(bytes@, pos as int, o, e);
                    }
                }
            }
            return None;
        },
    };
    let p11 = match eat_lit(bytes, p10, &l6) {
        Some(v) => v,
        None => {
            proof {
                assert forall|o: Object, e: int| !object_shape(bytes@, pos as int, o, e) by {
                    if object_shape(bytes@, pos as int, o, e) {
                        lemma_object_body_split(bytes@, pos as int, o, e);
                    }
                }
            }
            return None;
        },
    };
    let (smallest, p12) = match parse_dec_at(bytes, p11) {
        Some(v) => v,
        None => {
            proof {
                assert forall|o: Object, e: int| !object_shape(bytes@, pos as int, o, e) by {
                    if object_shape(bytes@, pos as int, o, e) {
                        lemma_object_body_split(bytes@, pos as int, o, e);
                    }
                }
            }
            return None;
        },
    };
    let p13 = match eat_lit(bytes, p12, &l7) {
        Some(v) => v,
        None => {
            proof {
                assert forall|o: Object, e: int| !object_shape(bytes@, pos as int, o, e) by {
                    if object_shape(bytes@, pos as int, o, e) {
                        lemma_object_body_split(bytes@, pos as int, o, e);
                    }
                }
            }
            return None;
        },
    };
    let (show, p14) = match parse_bool_at(bytes, p13) {
        Some(v) => v,
        None => {
            proof {
                assert forall|o: Object, e: int| !object_shape(bytes@, pos as int, o, e) by {
                    if object_shape(bytes@, pos as int, o, e) {
                        lemma_object_body_split(bytes@, pos as int, o, e);
                    }
                }
            }
            return None;
        },
    };
    if p14 >= bytes.len() || bytes[p14] != '}' as u8 {
        proof {
            assert forall|o: Object, e: int| !object_shape(bytes@, pos as int, o, e) by {
                if object_shape(bytes@, pos as int, o, e) {
                    lemma_object_body_split(bytes@, pos as int, o, e);
                }
            }
        }
        return None;
    }
    let (file, idx, maps, faults) = head;
    if file > usize::MAX as u64 || idx > usize::MAX as u64 || maps > usize::MAX as u64 || faults
        > usize::MAX as u64 {
        proof {
            assert forall|o: Object, e: int| !object_shape(bytes@, pos as int, o, e) by {
                if object_shape(bytes@, pos as int, o, e) {
                    lemma_object_body_split(bytes@, pos as int, o, e);
                }
            }
        }
        return None;
    }
    let result = Some(
        (
            Object {
                file: file as usize,
                idx: idx as usize,
                maps: maps as usize,
                faults: faults as usize,
                biggest_offset: biggest,
                smallest_offset: smallest,
                show,
            },
            p14 + 1,
        ),
    );
    proof {
        assert forall|o: Object, e: int| #[trigger] object_shape(bytes@, pos as int, o, e) implies
            result == Some((o, e as usize)) by {
            lemma_object_body_split(bytes@, pos as int, o, e);
                        let q7 = object_mid(pos as int, o);
                        let q8 = q7 + lit_biggest().len();
                        let q9 = q8 + spec_dec_digits(o.biggest_offset as nat).len();
                        let q10 = q9 + lit_smallest().len();
                        let q11 = q10 + spec_dec_digits(o.smallest_offset as nat).len();
                        let q12 = q11 + lit_show().len();
                        let q13 = q12 + spec_json_bool(o.show).len();
                        assert(head == (o.file as u64, o.idx as u64, o.maps as u64, o.faults as u64) && p8 == q7);
                        assert(p9 == q8);
                        assert(bytes@.subrange(p9 as int, q9) == spec_dec_digits(o.biggest_offset as nat));
                        assert(biggest == o.biggest_offset && p10 == q9);
                        assert(p11 == q10);
                        assert(bytes@.subrange(p11 as int, q11) == spec_dec_digits(o.smallest_offset as nat));
                        assert(smallest == o.smallest_offset && p12 == q11);
                        assert(p13 == q12);
                        assert(bytes@.subrange(p13 as int, q13) == spec_json_bool(o.show));
                        assert(show == o.show && p14 == q13);
        }
    }
    result
}

/// Parse a side-table document, accepting exactly the canonical form this
/// library emits.
///
/// Soundness: any accepted document is the canonical serialization of the
/// returned tables. Completeness: on the serialization of any object table
/// image (of at most `u32`-many slots) and string table, parsing succeeds
/// and recovers the string table exactly and the object table up to
/// trailing tombstones, so reloading what this library wrote recovers what
/// was written.
/// Leaving the dictionary loop: when the scan stands on the closing brace
/// with the accumulated slots agreeing with every target's prefix, the
/// remaining tombstones of every target are known and the mid literal and
/// string list follow.
proof fn lemma_after_dict(bytes: Seq<u8>, p: int, acc: Seq<Option<Object>>)
    requires
        0 <= p <= bytes.len(),
        !(p < bytes.len() && bytes[p] != '}' as u8),
        forall|slotsq: Seq<Option<Object>>, strsq: Seq<Seq<u8>>|
            #![trigger spec_root_bytes(slotsq, strsq)]
            bytes == spec_root_bytes(slotsq, strsq) && slotsq.len() <= 0x1_0000_0000 ==> {
                &&& acc.len() <= slotsq.len()
                &&& (forall|i: int| 0 <= i < acc.len() ==> acc[i] == slotsq[i])
                &&& entries_tail_shape(bytes, p, slotsq, acc.len() as int, strsq)
            },
    ensures
        forall|slotsq: Seq<Option<Object>>, strsq: Seq<Seq<u8>>|
            #![trigger spec_root_bytes(slotsq, strsq)]
            bytes == spec_root_bytes(slotsq, strsq) && slotsq.len() <= 0x1_0000_0000 ==> {
                &&& (forall|i: int|
                    acc.len() <= i < slotsq.len() ==> (#[trigger] slotsq[i]) is None)
                &&& bytes.subrange(p, p + 13) == lit_mid()
                &&& p + 13 <= bytes.len()
                &&& strings_tail_shape(bytes, p + 13, strsq, 0)
            },
{
    assert forall|slotsq: Seq<Option<Object>>, strsq: Seq<Seq<u8>>|
        bytes == #[trigger] spec_root_bytes(slotsq, strsq) && slotsq.len()
            <= 0x1_0000_0000 implies {
        &&& (forall|i: int| acc.len() <= i < slotsq.len() ==> (#[trigger] slotsq[i]) is None)
        &&& bytes.subrange(p, p + 13) == lit_mid()
        &&& p + 13 <= bytes.len()
        &&& strings_tail_shape(bytes, p + 13, strsq, 0)
    } by {
        lemma_first_live(slotsq, acc.len() as int);
        if has_live(slotsq, acc.len() as int, slotsq.len() as int) {
            lemma_entry_head(bytes, p, slotsq, acc.len() as int, strsq);
            assert(bytes[p] == 34);
            assert(p < bytes.len() && bytes[p] != '}' as u8);
            assert(false);
        }
        lemma_mid_transition(bytes, p, slotsq, acc.len() as int, strsq);
    }
}

/// Leaving the string-list loop: when the scan stands on the closing
/// bracket with the accumulated strings a prefix of every target's table,
/// the whole table has been read and only the document tail remains.
proof fn lemma_after_list(bytes: Seq<u8>, p: int, acc: Seq<Seq<u8>>)
    requires
        0 <= p <= bytes.len(),
        !(p < bytes.len() && bytes[p] != ']' as u8),
        forall|slotsq: Seq<Option<Object>>, strsq: Seq<Seq<u8>>|
            #![trigger spec_root_bytes(slotsq, strsq)]
            bytes == spec_root_bytes(slotsq, strsq) && slotsq.len() <= 0x1_0000_0000 ==> {
                &&& acc.len() <= strsq.len()
                &&& acc == strsq.take(acc.len() as int)
                &&& strings_tail_shape(bytes, p, strsq, acc.len() as int)
            },
    ensures
        forall|slotsq: Seq<Option<Object>>, strsq: Seq<Seq<u8>>|
            #![trigger spec_root_bytes(slotsq, strsq)]
            bytes == spec_root_bytes(slotsq, strsq) && slotsq.len() <= 0x1_0000_0000 ==> {
                &&& acc.len() == strsq.len()
                &&& acc == strsq
                &&& bytes.subrange(p, p + 2) == lit_tail()
                &&& p + 2 == bytes.len()
            },
{
    assert forall|slotsq: Seq<Option<Object>>, strsq: Seq<Seq<u8>>|
        bytes == #[trigger] spec_root_bytes(slotsq, strsq) && slotsq.len()
            <= 0x1_0000_0000 implies {
        &&& acc.len() == strsq.len()
        &&& acc == strsq
        &&& bytes.subrange(p, p + 2) == lit_tail()
        &&& p + 2 == bytes.len()
    } by {
        let n = bytes.len() as int;
        if acc.len() < strsq.len() {
            lemma_string_head(bytes, p, strsq, acc.len() as int);
            let js = spec_json_string(strsq[acc.len() as int]);
            assert(bytes.subrange(p, p + js.len()) == js) by {
                assert(bytes.subrange(p, n) == js + (strings_rest(strsq, acc.len() as int + 1)
                    + lit_tail())) by {
                    assert(js + (strings_rest(strsq, acc.len() as int + 1) + lit_tail())
                        =~= strings_region(strsq, acc.len() as int) + lit_tail());
                }
                lemma_chunk_split(
                    bytes,
                    p,
                    n,
                    js,
                    strings_rest(strsq, acc.len() as int + 1) + lit_tail(),
                );
            }
            assert(bytes[p] == bytes.subrange(p, p + js.len())[0]);
            assert(js[0] == 34);
            assert(p < bytes.len() && bytes[p] != ']' as u8);
            assert(false);
        }
        assert(strings_region(strsq, acc.len() as int) =~= Seq::<u8>::empty());
        assert(bytes.subrange(p, n) =~= lit_tail());
        assert(acc =~= strsq);
    }
}

#[verifier::rlimit(100)]
pub fn parse_side_table(bytes: &Vec<u8>) -> (r: Result<JsonRoot, SideTableError>)
    ensures
        r matches Ok(root) ==> bytes@ == spec_root_bytes(root.objects@, root.strings.deep_view()),
        forall|slotsq: Seq<Option<Object>>, strsq: Seq<Seq<u8>>|
            #![trigger spec_root_bytes(slotsq, strsq)]
            bytes@ == spec_root_bytes(slotsq, strsq) && slotsq.len() <= 0x1_0000_0000 ==> (
            r matches Ok(root) && {
                &&& root.strings.deep_view() == strsq
                &&& root.objects@.len() <= slotsq.len()
                &&& (forall|i: int| 0 <= i < root.objects@.len() ==> root.objects@[i] == slotsq[i])
                &&& (forall|i: int|
                    root.objects@.len() <= i < slotsq.len() ==> (#[trigger] slotsq[i]) is None)
            }),
{
    let n = bytes.len();
    let head_lit: Vec<u8> = vec![
        '{' as u8, '"' as u8, 'o' as u8, 'b' as u8, 'j' as u8, 'e' as u8, 'c' as u8, 't' as u8,
        's' as u8, '"' as u8, ':' as u8, '{' as u8,
    ];
    proof {
        assert(head_lit@ =~= lit_head());
    }
    let mut p = match eat_lit(bytes, 0, &head_lit) {
        Some(v) => v,
        None => {
            proof {
                assert forall|slotsq: Seq<Option<Object>>, strsq: Seq<Seq<u8>>|
                    !(bytes@ == #[trigger] spec_root_bytes(slotsq, strsq) && slotsq.len()
                        <= 0x1_0000_0000) by {
                    if bytes@ == spec_root_bytes(slotsq, strsq) {
                        lemma_root_head(bytes@, slotsq, strsq);
                    }
                }
            }
            return Err(SideTableError::Malformed);
        },
    };
    let mut slots: Vec<Option<Object>> = Vec::new();
    proof {
        assert forall|slotsq: Seq<Option<Object>>, strsq: Seq<Seq<u8>>|
            bytes@ == #[trigger] spec_root_bytes(slotsq, strsq) && slotsq.len()
                <= 0x1_0000_0000 implies {
            &&& slots@.len() <= slotsq.len()
            &&& (forall|i: int| 0 <= i < slots@.len() ==> slots@[i] == slotsq[i])
            &&& entries_tail_shape(bytes@, p as int, slotsq, slots@.len() as int, strsq)
        } by {
            lemma_root_head(bytes@, slotsq, strsq);
        }
    }
    loop
        invariant
            p <= n,
            n == bytes@.len(),
            forall|slotsq: Seq<Option<Object>>, strsq: Seq<Seq<u8>>|
                #![trigger spec_root_bytes(slotsq, strsq)]
                bytes@ == spec_root_bytes(slotsq, strsq) && slotsq.len() <= 0x1_0000_0000 ==> {
                    &&& slots@.len() <= slotsq.len()
                    &&& (forall|i: int| 0 <= i < slots@.len() ==> slots@[i] == slotsq[i])
                    &&& entries_tail_shape(bytes@, p as int, slotsq, slots@.len() as int, strsq)
                },
        ensures
            p <= n,
            n == bytes@.len(),
            !(p < n && bytes@[p as int] != '}' as u8),
            forall|slotsq: Seq<Option<Object>>, strsq: Seq<Seq<u8>>|
                #![trigger spec_root_bytes(slotsq, strsq)]
                bytes@ == spec_root_bytes(slotsq, strsq) && slotsq.len() <= 0x1_0000_0000 ==> {
                    &&& slots@.len() <= slotsq.len()
                    &&& (forall|i: int| 0 <= i < slots@.len() ==> slots@[i] == slotsq[i])
                    &&& entries_tail_shape(bytes@, p as int, slotsq, slots@.len() as int, strsq)
                },
        decreases n - p,
    {
        if !(p < n && bytes[p] != '}' as u8) {
            break ;
        }
        let ghost old_p = p as int;
        let ghost old_acc = slots@;
        proof {
            assert forall|slotsq: Seq<Option<Object>>, strsq: Seq<Seq<u8>>|
                bytes@ == #[trigger] spec_root_bytes(slotsq, strsq) && slotsq.len()
                    <= 0x1_0000_0000 implies first_live(slotsq, old_acc.len() as int)
                < slotsq.len() by {
                lemma_first_live(slotsq, old_acc.len() as int);
                if !has_live(slotsq, old_acc.len() as int, slotsq.len() as int) {
                    lemma_mid_transition(bytes@, old_p, slotsq, old_acc.len() as int, strsq);
                    assert(bytes@[old_p] == bytes@.subrange(old_p, old_p + 13)[0]);
                }
            }
        }
        if bytes[p] != '"' as u8 {
            proof {
                assert forall|slotsq: Seq<Option<Object>>, strsq: Seq<Seq<u8>>|
                    !(bytes@ == #[trigger] spec_root_bytes(slotsq, strsq) && slotsq.len()
                        <= 0x1_0000_0000) by {
                    if bytes@ == spec_root_bytes(slotsq, strsq) && slotsq.len() <= 0x1_0000_0000 {
                        lemma_entry_head(bytes@, old_p, slotsq, old_acc.len() as int, strsq);
                    }
                }
            }
            return Err(SideTableError::Malformed);
        }
        let (key, p2) = match parse_dec_at(bytes, p + 1) {
            Some(v) => v,
            None => {
                proof {
                    assert forall|slotsq: Seq<Option<Object>>, strsq: Seq<Seq<u8>>|
                        !(bytes@ == #[trigger] spec_root_bytes(slotsq, strsq) && slotsq.len()
                            <= 0x1_0000_0000) by {
                        if bytes@ == spec_root_bytes(slotsq, strsq) && slotsq.len()
                            <= 0x1_0000_0000 {
                            lemma_first_live(slotsq, old_acc.len() as int);
                            lemma_entry_head(bytes@, old_p, slotsq, old_acc.len() as int, strsq);
                            let fl = first_live(slotsq, old_acc.len() as int);
                            assert(0 <= fl < 0x1_0000_0000);
                            assert((fl as u64) as int == fl);
                            assert(bytes@.subrange(
                                old_p + 1,
                                old_p + 1 + spec_dec_digits(fl as nat).len(),
                            ) == spec_dec_digits(((fl as u64) as nat)));
                        }
                    }
                }
                return Err(SideTableError::Malformed);
            },
        };
        let sep: Vec<u8> = vec!['"' as u8, ':' as u8];
        proof {
            assert(sep@ =~= seq![34u8, 58u8]);
        }
        let p3 = match eat_lit(bytes, p2, &sep) {
            Some(v) => v,
            None => {
                proof {
                    assert forall|slotsq: Seq<Option<Object>>, strsq: Seq<Seq<u8>>|
                        !(bytes@ == #[trigger] spec_root_bytes(slotsq, strsq) && slotsq.len()
                            <= 0x1_0000_0000) by {
                        if bytes@ == spec_root_bytes(slotsq, strsq) && slotsq.len()
                            <= 0x1_0000_0000 {
                            lemma_first_live(slotsq, old_acc.len() as int);
                            lemma_entry_head(bytes@, old_p, slotsq, old_acc.len() as int, strsq);
                            let fl = first_live(slotsq, old_acc.len() as int);
                            assert(0 <= fl < 0x1_0000_0000);
                            assert((fl as u64) as int == fl);
                            assert(bytes@.subrange(
                                old_p + 1,
                                old_p + 1 + spec_dec_digits(fl as nat).len(),
                            ) == spec_dec_digits(((fl as u64) as nat)));
                        }
                    }
                }
                return Err(SideTableError::Malformed);
            },
        };
        let (obj, p4) = match parse_object_at(bytes, p3) {
            Some(v) => v,
            None => {
                proof {
                    assert forall|slotsq: Seq<Option<Object>>, strsq: Seq<Seq<u8>>|
                        !(bytes@ == #[trigger] spec_root_bytes(slotsq, strsq) && slotsq.len()
                            <= 0x1_0000_0000) by {
                        if bytes@ == spec_root_bytes(slotsq, strsq) && slotsq.len()
                            <= 0x1_0000_0000 {
                            lemma_first_live(slotsq, old_acc.len() as int);
                            lemma_entry_head(bytes@, old_p, slotsq, old_acc.len() as int, strsq);
                            let fl = first_live(slotsq, old_acc.len() as int);
                            assert(0 <= fl < 0x1_0000_0000);
                            assert((fl as u64) as int == fl);
                            assert(bytes@.subrange(
                                old_p + 1,
                                old_p + 1 + spec_dec_digits(fl as nat).len(),
                            ) == spec_dec_digits(((fl as u64) as nat)));
                            assert(object_shape(
                                bytes@,
                                p3 as int,
                                slotsq[fl]->Some_0,
                                p3 as int + spec_object_body(slotsq[fl]->Some_0).len(),
                            ));
                        }
                    }
                }
                return Err(SideTableError::Malformed);
            },
        };
        proof {
            assert forall|slotsq: Seq<Option<Object>>, strsq: Seq<Seq<u8>>|
                bytes@ == #[trigger] spec_root_bytes(slotsq, strsq) && slotsq.len()
                    <= 0x1_0000_0000 implies {
                let fl = first_live(slotsq, old_acc.len() as int);
                let after = old_p + 3 + spec_dec_digits(fl as nat).len() + spec_object_body(
                    slotsq[fl]->Some_0,
                ).len();
                &&& old_acc.len() <= fl < slotsq.len()
                &&& slotsq[fl] is Some
                &&& key == fl as u64
                &&& obj == slotsq[fl]->Some_0
                &&& p4 == after
                &&& (forall|i: int|
                    old_acc.len() <= i < fl ==> (#[trigger] slotsq[i]) is None)
                &&& (if has_live(slotsq, fl + 1, slotsq.len() as int) {
                    bytes@[after] == ',' as u8 && entries_tail_shape(
                        bytes@,
                        after + 1,
                        slotsq,
                        fl + 1,
                        strsq,
                    )
                } else {
                    bytes@[after] == '}' as u8 && entries_tail_shape(
                        bytes@,
                        after,
                        slotsq,
                        fl + 1,
                        strsq,
                    )
                })
            } by {
                lemma_first_live(slotsq, old_acc.len() as int);
                lemma_entry_head(bytes@, old_p, slotsq, old_acc.len() as int, strsq);
                let fl = first_live(slotsq, old_acc.len() as int);
                assert(0 <= fl < 0x1_0000_0000);
                assert((fl as u64) as int == fl);
                assert(bytes@.subrange(old_p + 1, old_p + 1 + spec_dec_digits(fl as nat).len())
                    == spec_dec_digits(((fl as u64) as nat)));
                assert(object_shape(
                    bytes@,
                    p3 as int,
                    slotsq[fl]->Some_0,
                    p3 as int + spec_object_body(slotsq[fl]->Some_0).len(),
                ));
            }
        }
        if key > 0xFFFF_FFFFu64 || (key as usize) < slots.len() {
            return Err(SideTableError::Malformed);
        }
        let key = key as usize;
        while slots.len() < key
            invariant
                old_acc.len() <= slots@.len() <= key,
                forall|i: int| 0 <= i < old_acc.len() ==> slots@[i] == old_acc[i],
                forall|i: int| old_acc.len() <= i < slots@.len() ==> (#[trigger] slots@[i]) is None,
            decreases key - slots.len(),
        {
            slots.push(None);
        }
        slots.push(Some(obj));
        proof {
            assert forall|slotsq: Seq<Option<Object>>, strsq: Seq<Seq<u8>>|
                bytes@ == #[trigger] spec_root_bytes(slotsq, strsq) && slotsq.len()
                    <= 0x1_0000_0000 implies {
                &&& slots@.len() <= slotsq.len()
                &&& (forall|i: int| 0 <= i < slots@.len() ==> slots@[i] == slotsq[i])
                &&& ({
                    let fl = first_live(slotsq, old_acc.len() as int);
                    let after = old_p + 3 + spec_dec_digits(fl as nat).len() + spec_object_body(
                        slotsq[fl]->Some_0,
                    ).len();
                    &&& p4 == after
                    &&& slots@.len() == fl + 1
                    &&& (if has_live(slotsq, fl + 1, slotsq.len() as int) {
                        bytes@[after] == ',' as u8 && entries_tail_shape(
                            bytes@,
                            after + 1,
                            slotsq,
                            fl + 1,
                            strsq,
                        )
                    } else {
                        bytes@[after] == '}' as u8 && entries_tail_shape(
                            bytes@,
                            after,
                            slotsq,
                            fl + 1,
                            strsq,
                        )
                    })
                })
            } by {
                let fl = first_live(slotsq, old_acc.len() as int);
                assert(key as int == fl);
                assert forall|i: int| 0 <= i < slots@.len() implies slots@[i] == slotsq[i] by {
                    if i < old_acc.len() {
                        assert(slots@[i] == old_acc[i]);
                    } else if i < key as int {
                        assert(slots@[i] is None && slotsq[i] is None);
                    } else {
                        assert(slots@[i] == Some(obj));
                        assert(slotsq[fl] is Some);
                    }
                }
            }
        }
        if p4 < n && bytes[p4] == ',' as u8 {
            p = p4 + 1;
        } else {
            p = p4;
            proof {
                assert forall|slotsq: Seq<Option<Object>>, strsq: Seq<Seq<u8>>|
                    bytes@ == #[trigger] spec_root_bytes(slotsq, strsq) && slotsq.len()
                        <= 0x1_0000_0000 implies entries_tail_shape(
                    bytes@,
                    p as int,
                    slotsq,
                    slots@.len() as int,
                    strsq,
                ) by {
                    let fl = first_live(slotsq, old_acc.len() as int);
                    if has_live(slotsq, fl + 1, slotsq.len() as int) {
                        assert(bytes@[p4 as int] == ',' as u8);
                        assert(p4 < n);
                        assert(false);
                    }
                }
            }
        }
        proof {
            assert forall|slotsq: Seq<Option<Object>>, strsq: Seq<Seq<u8>>|
                bytes@ == #[trigger] spec_root_bytes(slotsq, strsq) && slotsq.len()
                    <= 0x1_0000_0000 implies entries_tail_shape(
                bytes@,
                p as int,
                slotsq,
                slots@.len() as int,
                strsq,
            ) by {
                let fl = first_live(slotsq, old_acc.len() as int);
                if !has_live(slotsq, fl + 1, slotsq.len() as int) {
                    if p as int != p4 as int {
                        assert(bytes@[p4 as int] == '}' as u8);
                        assert(false);
                    }
                }
            }
        }
    }
    proof {
        lemma_after_dict(bytes@, p as int, slots@);
    }
    let mid_lit: Vec<u8> = vec![
        '}' as u8, ',' as u8, '"' as u8, 's' as u8, 't' as u8, 'r' as u8, 'i' as u8, 'n' as u8,
        'g' as u8, 's' as u8, '"' as u8, ':' as u8, '[' as u8,
    ];
    proof {
        assert(mid_lit@ =~= lit_mid());
    }
    let mut p = match eat_lit(bytes, p, &mid_lit) {
        Some(v) => v,
        None => {
            return Err(SideTableError::Malformed);
        },
    };
    let mut strs: Vec<Vec<u8>> = Vec::new();
    proof {
        assert(strs.deep_view() =~= Seq::<Seq<u8>>::empty());
        assert forall|slotsq: Seq<Option<Object>>, strsq: Seq<Seq<u8>>|
            bytes@ == #[trigger] spec_root_bytes(slotsq, strsq) && slotsq.len()
                <= 0x1_0000_0000 implies strs.deep_view() == strsq.take(
            strs@.len() as int,
        ) by {
            assert(strsq.take(0) =~= Seq::<Seq<u8>>::empty());
        }
    }
    loop
        invariant
            p <= n,
            n == bytes@.len(),
            forall|slotsq: Seq<Option<Object>>, strsq: Seq<Seq<u8>>|
                #![trigger spec_root_bytes(slotsq, strsq)]
                bytes@ == spec_root_bytes(slotsq, strsq) && slotsq.len() <= 0x1_0000_0000 ==> {
                    &&& slots@.len() <= slotsq.len()
                    &&& (forall|i: int| 0 <= i < slots@.len() ==> slots@[i] == slotsq[i])
                    &&& (forall|i: int|
                        slots@.len() <= i < slotsq.len() ==> (#[trigger] slotsq[i]) is None)
                    &&& strs@.len() <= strsq.len()
                    &&& strs.deep_view() == strsq.take(strs@.len() as int)
                    &&& strings_tail_shape(bytes@, p as int, strsq, strs@.len() as int)
                },
        ensures
            p <= n,
            n == bytes@.len(),
            !(p < n && bytes@[p as int] != ']' as u8),
            forall|slotsq: Seq<Option<Object>>, strsq: Seq<Seq<u8>>|
                #![trigger spec_root_bytes(slotsq, strsq)]
                bytes@ == spec_root_bytes(slotsq, strsq) && slotsq.len() <= 0x1_0000_0000 ==> {
                    &&& slots@.len() <= slotsq.len()
                    &&& (forall|i: int| 0 <= i < slots@.len() ==> slots@[i] == slotsq[i])
                    &&& (forall|i: int|
                        slots@.len() <= i < slotsq.len() ==> (#[trigger] slotsq[i]) is None)
                    &&& strs@.len() <= strsq.len()
                    &&& strs.deep_view() == strsq.take(strs@.len() as int)
                    &&& strings_tail_shape(bytes@, p as int, strsq, strs@.len() as int)
                },
        decreases n - p,
    {
        if !(p < n && bytes[p] != ']' as u8) {
            break ;
        }
        let ghost old_p = p as int;
        let ghost old_strs = strs.deep_view();
        let ghost old_len = strs@.len() as int;
        let (sv, p2) = match parse_string_at(bytes, p) {
            Some(v) => v,
            None => {
                proof {
                    assert forall|slotsq: Seq<Option<Object>>, strsq: Seq<Seq<u8>>|
                        !(bytes@ == #[trigger] spec_root_bytes(slotsq, strsq) && slotsq.len()
                            <= 0x1_0000_0000) by {
                        if bytes@ == spec_root_bytes(slotsq, strsq) && slotsq.len()
                            <= 0x1_0000_0000 {
                            if old_len < strsq.len() {
                                lemma_string_head(bytes@, old_p, strsq, old_len);
                            } else {
                                assert(strings_region(strsq, old_len) =~= Seq::<u8>::empty());
                                assert(bytes@.subrange(old_p, n as int) =~= lit_tail());
                                assert(bytes@[old_p] == bytes@.subrange(old_p, n as int)[0]);
                            }
                        }
                    }
                }
                return Err(SideTableError::Malformed);
            },
        };
        strs.push(sv);
        proof {
            assert forall|slotsq: Seq<Option<Object>>, strsq: Seq<Seq<u8>>|
                bytes@ == #[trigger] spec_root_bytes(slotsq, strsq) && slotsq.len()
                    <= 0x1_0000_0000 implies {
                &&& old_len < strsq.len()
                &&& sv@ == strsq[old_len]
                &&& strs.deep_view() == strsq.take(strs@.len() as int)
                &&& p2 == old_p + spec_json_string(strsq[old_len]).len()
                &&& (if old_len + 1 < strsq.len() {
                    bytes@[p2 as int] == ',' as u8 && strings_tail_shape(
                        bytes@,
                        p2 + 1,
                        strsq,
                        old_len + 1,
                    )
                } else {
                    bytes@[p2 as int] == ']' as u8 && strings_tail_shape(
                        bytes@,
                        p2 as int,
                        strsq,
                        old_len + 1,
                    )
                })
            } by {
                if old_len < strsq.len() {
                    lemma_string_head(bytes@, old_p, strsq, old_len);
                    assert(strs.deep_view() =~~= old_strs.push(sv@));
                    assert(strs.deep_view() =~= strsq.take(old_len + 1));
                } else {
                    assert(strings_region(strsq, old_len) =~= Seq::<u8>::empty());
                    assert(bytes@.subrange(old_p, n as int) =~= lit_tail());
                    assert(bytes@[old_p] == bytes@.subrange(old_p, n as int)[0]);
                    assert(false);
                }
            }
        }
        if p2 < n && bytes[p2] == ',' as u8 {
            p = p2 + 1;
            proof {
                assert forall|slotsq: Seq<Option<Object>>, strsq: Seq<Seq<u8>>|
                    bytes@ == #[trigger] spec_root_bytes(slotsq, strsq) && slotsq.len()
                        <= 0x1_0000_0000 implies strings_tail_shape(
                    bytes@,
                    p as int,
                    strsq,
                    strs@.len() as int,
                ) by {
                    if !(old_len + 1 < strsq.len()) {
                        assert(bytes@[p2 as int] == ']' as u8);
                        assert(false);
                    }
                }
            }
        } else {
            p = p2;
            proof {
                assert forall|slotsq: Seq<Option<Object>>, strsq: Seq<Seq<u8>>|
                    bytes@ == #[trigger] spec_root_bytes(slotsq, strsq) && slotsq.len()
                        <= 0x1_0000_0000 implies strings_tail_shape(
                    bytes@,
                    p as int,
                    strsq,
                    strs@.len() as int,
                ) by {
                    if old_len + 1 < strsq.len() {
                        assert(bytes@[p2 as int] == ',' as u8);
                        assert(p2 < n);
                        assert(false);
                    }
                }
            }
        }
    }
    proof {
        lemma_after_list(bytes@, p as int, strs.deep_view());
    }
    let tail_lit: Vec<u8> = vec![']' as u8, '}' as u8];
    proof {
        assert(tail_lit@ =~= lit_tail());
    }
    let p = match eat_lit(bytes, p, &tail_lit) {
        Some(v) => v,
        None => {
            return Err(SideTableError::Malformed);
        },
    };
    if p != n {
        proof {
            assert forall|slotsq: Seq<Option<Object>>, strsq: Seq<Seq<u8>>|
                !(bytes@ == #[trigger] spec_root_bytes(slotsq, strsq) && slotsq.len()
                    <= 0x1_0000_0000) by {
            }
        }
        return Err(SideTableError::Malformed);
    }
    let reencoded = encode_root(&slots, &strs);
    if !crate::textutil::bytes_eq(&reencoded, bytes) {
        proof {
            assert forall|slotsq: Seq<Option<Object>>, strsq: Seq<Seq<u8>>|
                !(bytes@ == #[trigger] spec_root_bytes(slotsq, strsq) && slotsq.len()
                    <= 0x1_0000_0000) by {
                if bytes@ == spec_root_bytes(slotsq, strsq) && slotsq.len() <= 0x1_0000_0000 {
                    lemma_entries_agree(slots@, slotsq);
                    assert(reencoded@ =~= spec_root_bytes(slotsq, strsq));
                }
            }
        }
        return Err(SideTableError::NotCanonical);
    }
    Ok(JsonRoot { objects: slots, strings: strs })
}

/// Why a session failed to open.
#[derive(Debug, Clone, Copy, PartialEq, Eq, Structural)]
pub enum OpenError {
    /// The binary record file was rejected.
    Records(RecordsError),
    /// The side-table document was rejected.
    SideTable(SideTableError),
}

/// A loaded session: the reloaded side table and the decoded record
/// stream.
#[derive(Debug)]
pub struct FaultData {
    /// The reloaded side table.
    pub json: JsonRoot,
    /// The decoded record stream.
    pub records: Records,
}

impl FaultData {
    /// The load entry point: decode the binary record stream and the
    /// side-table document.
    ///
    /// Opening succeeds on exactly what the write path produces: a record
    /// file passing the header and bounds checks, and a canonical
    /// side-table document; the records and the side table are then
    /// recovered as written.
    pub fn open(data: &Vec<u8>, json: &Vec<u8>) -> (r: Result<FaultData, OpenError>)
        ensures
            r matches Ok(fd) ==> {
                &&& json@ == spec_root_bytes(fd.json.objects@, fd.json.strings.deep_view())
                &&& (data@.len() >= 64 && spec_decoded_magic(data@) == RECORD_MAGIC
                    && spec_decoded_count(data@) <= (data@.len() - 64) / 64)
                &&& fd.records.records().len() == spec_decoded_count(data@)
                &&& forall|i: int|
                    0 <= i < fd.records.records().len() ==> (#[trigger] fd.records.records()[i])
                        == spec_decode_record(data@, i)
            },
            forall|slotsq: Seq<Option<Object>>, strsq: Seq<Seq<u8>>|
                #![trigger spec_root_bytes(slotsq, strsq)]
                (data@.len() >= 64 && spec_decoded_magic(data@) == RECORD_MAGIC
                    && spec_decoded_count(data@) <= (data@.len() - 64) / 64 && json@
                    == spec_root_bytes(slotsq, strsq) && slotsq.len() <= 0x1_0000_0000) ==> (
                r matches Ok(fd) && {
                    &&& fd.json.strings.deep_view() == strsq
                    &&& fd.json.objects@.len() <= slotsq.len()
                    &&& (forall|i: int|
                        0 <= i < fd.json.objects@.len() ==> fd.json.objects@[i] == slotsq[i])
                    &&& (forall|i: int|
                        fd.json.objects@.len() <= i < slotsq.len() ==> (#[trigger] slotsq[i])
                            is None)
                }),
    {
        let records = match Records::from_bytes(data) {
            Ok(r) => r,
            Err(e) => {
                return Err(OpenError::Records(e));
            },
        };
        let root = match parse_side_table(json) {
            Ok(r) => r,
            Err(e) => {
                return Err(OpenError::SideTable(e));
            },
        };
        Ok(FaultData { json: root, records })
    }

    /// The object a record belongs to, if its index is in the side table.
    /// A missing index is handled defensively (no panic).
    pub fn object(&self, fault: &EventRecord) -> (r: Option<&Object>)
        ensures
            ({
                let id = fault.obj_id as usize;
                &&& (id < self.json.objects@.len() && self.json.objects@[id as int] is Some ==> (
                r matches Some(o) && Some(*o) == self.json.objects@[id as int]))
                &&& (!(id < self.json.objects@.len() && self.json.objects@[id as int] is Some)
                    ==> r is None)
            }),
    {
        self.json.object(fault.obj_id())
    }

    /// The file name of a record's object, or `[unknown]` when the object
    /// or its string handle cannot be resolved.
    pub fn object_name(&self, fault: &EventRecord) -> (r: Vec<u8>)
        ensures
            r@ == spec_session_name(
                self.json.objects@,
                self.json.strings.deep_view(),
                fault.obj_id as usize,
            ),
    {
        let unknown: Vec<u8> = vec![
            '[' as u8, 'u' as u8, 'n' as u8, 'k' as u8, 'n' as u8, 'o' as u8, 'w' as u8,
            'n' as u8, ']' as u8,
        ];
        proof {
            assert(unknown@ =~= crate::parse::unknown_sym());
        }
        match self.object(fault) {
            Some(o) => {
                let file = o.file;
                if file < self.json.strings.len() {
                    let s = &self.json.strings[file];
                    let copy = crate::textutil::subvec(s, 0, s.len());
                    proof {
                        assert(s@.subrange(0, s@.len() as int) =~= s@);
                        assert(self.json.strings.deep_view()[file as int]
                            == self.json.strings@[file as int].deep_view());
                        assert(self.json.strings@[file as int].deep_view() =~= s@);
                    }
                    copy
                } else {
                    unknown
                }
            },
            None => unknown,
        }
    }
}

/// The displayed name of the object under `id`: its file string from the
/// side table, or the `[unknown]` placeholder.
pub open spec fn spec_session_name(
    slots: Seq<Option<Object>>,
    strs: Seq<Seq<u8>>,
    id: usize,
) -> Seq<u8> {
    if id < slots.len() && (slots[id as int] matches Some(o) && o.file < strs.len()) {
        strs[slots[id as int]->Some_0.file as int]
    } else {
        crate::parse::unknown_sym()
    }
}

} // verus!
