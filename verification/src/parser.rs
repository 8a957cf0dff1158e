//! The strict recursive-descent parser for the wire grammar.
//!
//! The parser walks the input bytes once with a cursor and one byte of
//! lookahead, validating while it decodes: everything it returns is built
//! from the validated primitives, so every parsed value serializes again
//! (an empty list or dictionary aside). Whitespace is accepted only where
//! the grammar names it; anything left over after a parse is an error.
//!
//! The contracts tie results to input. Each piece parser pins its value to
//! the bytes it consumed — booleans, tokens, strings and keys to exactly
//! their canonical form, numbers to their signed digits, byte sequences to
//! the base64 body between their colons — and items, inner lists, list
//! members and dictionary members carry that relation up to the entry
//! points, segment by segment, together with where their spaces, commas
//! and parameters lay. A list or dictionary is empty exactly when the
//! input is nothing but spaces, and a whole boolean, token, string,
//! integer or decimal text always parses.

use vstd::prelude::*;
use vstd::string::StringSliceAdditionalSpecFns;
use vstd::utf8::encode_utf8;

use crate::bare_item::{BareItem, BareItemBoolean, BareItemByteSeq, BareItemDecimal,
    BareItemInteger, BareItemString, BareItemToken};
use crate::digits::{dec_value, lemma_pow10_monotone, pow10};
use crate::encoding::{base64_decode, string_from_ascii};
use crate::err::Error;
use crate::ordered_map::map_keys_unique;
use crate::serializer::{lemma_dict_entries_result_ok_iff, lemma_params_result_ok_iff,
    lemma_valid_key_validates, spec_dict_entries_result, spec_dict_member_result,
    spec_entries_result, spec_entry_result, spec_inner_list_result, spec_item_result,
    spec_items_result, spec_params_result};
use crate::utils::{digit, digits_only, is_key_byte, is_key_start, is_token_byte, is_token_start, is_valid_key,
    is_valid_string, is_valid_token, is_visible, key_byte, key_start, ows, token_byte,
    token_start, visible};
use crate::{Dictionary, InnerList, Item, List, ListEntry, Parameters, SFVResult};

verus! {

/// How an integer's consumed bytes determine its value: an optional
/// minus, then digits (leading zeros allowed) read as a decimal number.
pub open spec fn integer_from_bytes(s: Seq<u8>, v: int) -> bool {
    let neg = s.len() > 0 && s[0] == 0x2d;
    let ds: int = if neg {
        1
    } else {
        0
    };
    &&& ds < s.len()
    &&& crate::utils::is_digit(s[ds])
    &&& digits_only(s.subrange(ds, s.len() as int))
    &&& v == (if neg {
        -dec_value(s.subrange(ds, s.len() as int))
    } else {
        dec_value(s.subrange(ds, s.len() as int))
    })
}

/// How a decimal's consumed bytes determine its thousandths: an optional
/// minus, integer digits, a dot, then one to three fractional digits.
pub open spec fn decimal_from_bytes(s: Seq<u8>, t: int) -> bool {
    let neg = s.len() > 0 && s[0] == 0x2d;
    let ds: int = if neg {
        1
    } else {
        0
    };
    &&& ds < s.len()
    &&& crate::utils::is_digit(s[ds])
    &&& exists|dot: int|
        {
            &&& ds < dot && dot + 1 < s.len()
            &&& (#[trigger] s[dot]) == 0x2e
            &&& digits_only(s.subrange(ds, dot))
            &&& digits_only(s.subrange(dot + 1, s.len() as int))
            &&& 1 <= s.len() - (dot + 1) <= 3
            &&& t == (if neg {
                -1int
            } else {
                1int
            }) * (dec_value(s.subrange(ds, dot)) * 1000 + dec_value(
                s.subrange(dot + 1, s.len() as int),
            ) * pow10((3 - (s.len() - (dot + 1))) as nat))
        }
}

/// How a byte sequence's consumed bytes determine its content: a base64
/// body between colons; whenever the body is the encoding of some bytes,
/// the content is those bytes.
pub open spec fn byte_seq_from_bytes(s: Seq<u8>, v: Seq<u8>) -> bool {
    &&& s.len() >= 2
    &&& s[0] == 0x3a
    &&& s[s.len() - 1] == 0x3a
    &&& forall|j: int| 0 < j < s.len() - 1 ==> s[j] != 0x3a
    &&& forall|b2: Seq<u8>|
        s.subrange(1, s.len() - 1) == crate::encoding::base64_of(b2) ==> v == b2
}

/// How one parameter's consumed bytes determine its key and value: a
/// semicolon, optional spaces, the key's text, then nothing for the
/// boolean `true` or `=` and the value's bytes.
pub open spec fn param_segment_match(seg: Seq<u8>, k: Seq<u8>, v: &BareItem) -> bool {
    exists|m: int|
        {
            &&& 0 <= m
            &&& 1 + m + k.len() <= seg.len()
            &&& seg[0] == 0x3b
            &&& (forall|j: int| 1 <= j < 1 + m ==> seg[j] == 0x20)
            &&& (#[trigger] seg.subrange(1 + m, 1 + m + k.len() as int)) == k
            &&& ((seg.len() == 1 + m + k.len() && crate::bare_item::is_boolean_true(v)) || (
            seg.len() > 1 + m + k.len() && seg[1 + m + k.len() as int] == 0x3d
                && bare_item_from_bytes(
                seg.subrange(1 + m + k.len() + 1, seg.len() as int),
                v,
            )))
        }
}

/// How a parameter list's consumed bytes determine the raw sequence of
/// key/value pairs, one segment per pair in order.
pub open spec fn params_from_bytes(s: Seq<u8>, raw: Seq<(Seq<u8>, BareItem)>) -> bool
    decreases raw.len(),
{
    if raw.len() == 0 {
        s.len() == 0
    } else {
        exists|cut: int|
            #![trigger s.subrange(0, cut)]
            {
                &&& 0 <= cut < s.len()
                &&& params_from_bytes(s.subrange(0, cut), raw.drop_last())
                &&& param_segment_match(
                    s.subrange(cut, s.len() as int),
                    raw.last().0,
                    &raw.last().1,
                )
            }
    }
}

/// The parameter map that a raw pair sequence folds to: a re-occurring
/// key overwrites its value in place, a new key is appended.
pub open spec fn spec_param_fold(raw: Seq<(Seq<u8>, BareItem)>) -> Seq<(Seq<u8>, BareItem)>
    decreases raw.len(),
{
    if raw.len() == 0 {
        Seq::<(Seq<u8>, BareItem)>::empty()
    } else {
        let prev = spec_param_fold(raw.drop_last());
        let k = raw.last().0;
        if crate::ordered_map::map_contains_key(prev, k) {
            prev.update(crate::ordered_map::map_find(prev, k), (k, raw.last().1))
        } else {
            prev.push((k, raw.last().1))
        }
    }
}

/// Whether the bytes from `at` to the end are a decimal text with its dot
/// at `dot`: an optional minus, one to twelve integer digits, the dot,
/// then one to three fractional digits.
pub open spec fn canonical_decimal_run_at(input: Seq<u8>, at: int, dot: int) -> bool {
    let sgn = input[at] == 0x2d;
    let ds: int = if sgn {
        at + 1
    } else {
        at
    };
    &&& 0 <= at
    &&& ds < dot && dot + 1 < input.len()
    &&& input[dot] == 0x2e
    &&& digits_only(input.subrange(ds, dot))
    &&& digits_only(input.subrange(dot + 1, input.len() as int))
    &&& dot - ds <= 12
    &&& input.len() - (dot + 1) <= 3
}

/// How one item's consumed bytes determine it: the primitive's bytes,
/// then its parameters' bytes.
pub open spec fn item_from_bytes(s: Seq<u8>, it: &Item) -> bool {
    exists|mid: int, raw: Seq<(Seq<u8>, BareItem)>|
        #![trigger bare_item_from_bytes(s.subrange(0, mid), &it.bare_item), spec_param_fold(raw)]
        {
            &&& 0 < mid <= s.len()
            &&& bare_item_from_bytes(s.subrange(0, mid), &it.bare_item)
            &&& it.params@ == spec_param_fold(raw)
            &&& params_from_bytes(s.subrange(mid, s.len() as int), raw)
        }
}

/// How one list member's consumed bytes determine it: an item by its
/// primitive and parameters, an inner list by its items and parameters.
pub open spec fn entry_from_bytes(s: Seq<u8>, e: &ListEntry) -> bool {
    match e {
        ListEntry::Item(it) => item_from_bytes(s, it),
        ListEntry::InnerList(l) => inner_list_from_bytes(s, l),
    }
}

/// How an inner list's item region determines its items: each item's
/// bytes after a space run, with at least one space between items.
pub open spec fn inner_items_from_bytes(s: Seq<u8>, items: Seq<Item>) -> bool
    decreases items.len(),
{
    if items.len() == 0 {
        crate::utils::is_all_sp(s)
    } else {
        exists|cut: int, cut2: int|
            #![trigger s.subrange(0, cut), s.subrange(cut, cut2)]
            {
                &&& 0 <= cut <= cut2 < s.len()
                &&& inner_items_from_bytes(s.subrange(0, cut), items.drop_last())
                &&& crate::utils::is_all_sp(s.subrange(cut, cut2))
                &&& (items.len() > 1 ==> cut < cut2)
                &&& item_from_bytes(s.subrange(cut2, s.len() as int), &items.last())
            }
    }
}

/// How an inner list's consumed bytes determine it: a parenthesized item
/// region with optional trailing spaces, then the list's parameters.
pub open spec fn inner_list_from_bytes(s: Seq<u8>, l: &InnerList) -> bool {
    exists|bend: int, close: int, raw: Seq<(Seq<u8>, BareItem)>|
        #![trigger s.subrange(1, bend), s.subrange(bend, close), spec_param_fold(raw)]
        {
            &&& 1 <= bend <= close < s.len()
            &&& s[0] == 0x28
            &&& s[close] == 0x29
            &&& inner_items_from_bytes(s.subrange(1, bend), l.items@)
            &&& crate::utils::is_all_sp(s.subrange(bend, close))
            &&& l.params@ == spec_param_fold(raw)
            &&& params_from_bytes(s.subrange(close + 1, s.len() as int), raw)
        }
}

/// A member separator: optional whitespace around one comma.
pub open spec fn sep_match(s: Seq<u8>) -> bool {
    exists|c: int|
        #![trigger s[c]]
        {
            &&& 0 <= c < s.len()
            &&& s[c] == 0x2c
            &&& (forall|j: int| 0 <= j < c ==> crate::utils::is_ows(#[trigger] s[j]))
            &&& (forall|j: int| c < j < s.len() ==> crate::utils::is_ows(#[trigger] s[j]))
        }
}

/// How a list's consumed bytes determine its members: one segment per
/// member in order, joined by separators.
pub open spec fn list_members_from_bytes(s: Seq<u8>, l: Seq<ListEntry>) -> bool
    decreases l.len(),
{
    if l.len() == 0 {
        s.len() == 0
    } else if l.len() == 1 {
        entry_from_bytes(s, &l[0])
    } else {
        exists|cut: int, cut2: int|
            #![trigger s.subrange(0, cut), s.subrange(cut, cut2)]
            {
                &&& 0 < cut <= cut2 < s.len()
                &&& list_members_from_bytes(s.subrange(0, cut), l.drop_last())
                &&& sep_match(s.subrange(cut, cut2))
                &&& entry_from_bytes(s.subrange(cut2, s.len() as int), &l.last())
            }
    }
}

/// The dictionary map that a raw member sequence folds to, with the same
/// duplicate-key policy as the parameter fold.
pub open spec fn spec_member_fold(raw: Seq<(Seq<u8>, ListEntry)>) -> Seq<(Seq<u8>, ListEntry)>
    decreases raw.len(),
{
    if raw.len() == 0 {
        Seq::<(Seq<u8>, ListEntry)>::empty()
    } else {
        let prev = spec_member_fold(raw.drop_last());
        let k = raw.last().0;
        if crate::ordered_map::map_contains_key(prev, k) {
            prev.update(crate::ordered_map::map_find(prev, k), (k, raw.last().1))
        } else {
            prev.push((k, raw.last().1))
        }
    }
}

/// How one dictionary member's consumed bytes determine its key and
/// value: the key's text, then `=` and the member's bytes, or — for the
/// bare-key form — only the parameters of an implicit boolean true.
pub open spec fn dict_member_from_bytes(seg: Seq<u8>, k: Seq<u8>, e: &ListEntry) -> bool {
    &&& k.len() <= seg.len()
    &&& seg.subrange(0, k.len() as int) == k
    &&& ((seg.len() > k.len() && seg[k.len() as int] == 0x3d && entry_from_bytes(
        seg.subrange(k.len() as int + 1, seg.len() as int),
        e,
    )) || ((seg.len() == k.len() || seg[k.len() as int] != 0x3d) && (e matches ListEntry::Item(it)
        && crate::bare_item::is_boolean_true(&it.bare_item) && exists|raw: Seq<
        (Seq<u8>, BareItem),
    >|
        #![trigger spec_param_fold(raw)]
        it.params@ == spec_param_fold(raw) && params_from_bytes(
            seg.subrange(k.len() as int, seg.len() as int),
            raw,
        ))))
}

/// How a dictionary's consumed bytes determine its raw member sequence:
/// one segment per member in order, joined by separators.
pub open spec fn dict_members_from_bytes(s: Seq<u8>, raw: Seq<(Seq<u8>, ListEntry)>) -> bool
    decreases raw.len(),
{
    if raw.len() == 0 {
        s.len() == 0
    } else if raw.len() == 1 {
        dict_member_from_bytes(s, raw[0].0, &raw[0].1)
    } else {
        exists|cut: int, cut2: int|
            #![trigger s.subrange(0, cut), s.subrange(cut, cut2)]
            {
                &&& 0 < cut <= cut2 < s.len()
                &&& dict_members_from_bytes(s.subrange(0, cut), raw.drop_last())
                &&& sep_match(s.subrange(cut, cut2))
                &&& dict_member_from_bytes(
                    s.subrange(cut2, s.len() as int),
                    raw.last().0,
                    &raw.last().1,
                )
            }
    }
}

proof fn lemma_item_bytes_shift(input: Seq<u8>, a: int, z: int, it: &Item)
    requires
        0 <= a <= z <= input.len(),
        exists|mid: int, raw: Seq<(Seq<u8>, BareItem)>|
            #![trigger bare_item_from_bytes(input.subrange(a, mid), &it.bare_item),
                spec_param_fold(raw)]
            {
                &&& a < mid <= z
                &&& bare_item_from_bytes(input.subrange(a, mid), &it.bare_item)
                &&& it.params@ == spec_param_fold(raw)
                &&& params_from_bytes(input.subrange(mid, z), raw)
            },
    ensures
        item_from_bytes(input.subrange(a, z), it),
{
    let (mid, raw) = choose|mid: int, raw: Seq<(Seq<u8>, BareItem)>|
        #![trigger bare_item_from_bytes(input.subrange(a, mid), &it.bare_item),
            spec_param_fold(raw)]
        {
            &&& a < mid <= z
            &&& bare_item_from_bytes(input.subrange(a, mid), &it.bare_item)
            &&& it.params@ == spec_param_fold(raw)
            &&& params_from_bytes(input.subrange(mid, z), raw)
        };
    let c = input.subrange(a, z);
    let midl = mid - a;
    assert(c.subrange(0, midl) =~= input.subrange(a, mid));
    assert(c.subrange(midl, c.len() as int) =~= input.subrange(mid, z));
    assert(bare_item_from_bytes(c.subrange(0, midl), &it.bare_item));
    assert(params_from_bytes(c.subrange(midl, c.len() as int), raw));
}

/// How one bare item's consumed bytes determine its value. Booleans,
/// tokens and strings are read back from exactly their canonical form;
/// numbers from their signed digits, leading zeros allowed; byte
/// sequences from the base64 body between their colons.
pub open spec fn bare_item_from_bytes(s: Seq<u8>, b: &BareItem) -> bool {
    match b {
        BareItem::Boolean(v) => s == crate::bare_item::spec_ser_boolean(v@),
        BareItem::Token(v) => s == crate::bare_item::spec_ser_token(v@),
        BareItem::String(v) => s == crate::bare_item::spec_ser_string(v@),
        BareItem::Integer(v) => integer_from_bytes(s, v@),
        BareItem::Decimal(d) => decimal_from_bytes(s, d@),
        BareItem::ByteSeq(v) => byte_seq_from_bytes(s, v@),
    }
}

/// The head byte decides the kind: a bare item read from bytes whose
/// first byte starts a token is a token.
proof fn lemma_bare_variant_token(c: Seq<u8>, b: &BareItem)
    requires
        c.len() > 0,
        is_token_start(c[0]),
        bare_item_from_bytes(c, b),
    ensures
        b matches BareItem::Token(_),
{
    assert(c[0] != 0x2d);
    match b {
        BareItem::Integer(_) => {
            assert(crate::utils::is_digit(c[0]));
            assert(false);
        },
        BareItem::Decimal(_) => {
            assert(crate::utils::is_digit(c[0]));
            assert(false);
        },
        BareItem::String(v) => {
            assert(c[0] == 0x22);
            assert(false);
        },
        BareItem::ByteSeq(_) => {
            assert(c[0] == 0x3a);
            assert(false);
        },
        BareItem::Boolean(v) => {
            assert(c[0] == 0x3f);
            assert(false);
        },
        BareItem::Token(_) => {},
    }
}

proof fn lemma_integer_bytes_shift(s: Seq<u8>, a: int, z: int, v: int)
    requires
        0 <= a < z <= s.len(),
        ({
            let sgn = s[a] == 0x2d;
            let ds: int = if sgn {
                a + 1
            } else {
                a
            };
            &&& ds < z
            &&& digits_only(s.subrange(ds, z))
            &&& v == (if sgn {
                -dec_value(s.subrange(ds, z))
            } else {
                dec_value(s.subrange(ds, z))
            })
        }),
    ensures
        integer_from_bytes(s.subrange(a, z), v),
{
    let c = s.subrange(a, z);
    let sgn = s[a] == 0x2d;
    let ds: int = if sgn {
        a + 1
    } else {
        a
    };
    assert(c[0] == s[a]);
    let dsc: int = if sgn {
        1
    } else {
        0
    };
    assert(c.subrange(dsc, c.len() as int) =~= s.subrange(ds, z));
    assert(crate::utils::is_digit(c[dsc])) by {
        assert(c[dsc] == c.subrange(dsc, c.len() as int)[0]);
    }
}

proof fn lemma_decimal_bytes_shift(s: Seq<u8>, a: int, z: int, t: int)
    requires
        0 <= a < z <= s.len(),
        ({
            let sgn = s[a] == 0x2d;
            let ds: int = if sgn {
                a + 1
            } else {
                a
            };
            exists|dot: int|
                {
                    &&& ds < dot && dot + 1 < z
                    &&& (#[trigger] s[dot]) == 0x2e
                    &&& digits_only(s.subrange(ds, dot))
                    &&& digits_only(s.subrange(dot + 1, z))
                    &&& 1 <= z - (dot + 1) <= 3
                    &&& t == (if sgn {
                        -1int
                    } else {
                        1int
                    }) * (dec_value(s.subrange(ds, dot)) * 1000 + dec_value(
                        s.subrange(dot + 1, z),
                    ) * pow10((3 - (z - (dot + 1))) as nat))
                }
        }),
    ensures
        decimal_from_bytes(s.subrange(a, z), t),
{
    let c = s.subrange(a, z);
    let sgn = s[a] == 0x2d;
    let ds: int = if sgn {
        a + 1
    } else {
        a
    };
    let dot = choose|dot: int|
        {
            &&& ds < dot && dot + 1 < z
            &&& (#[trigger] s[dot]) == 0x2e
            &&& digits_only(s.subrange(ds, dot))
            &&& digits_only(s.subrange(dot + 1, z))
            &&& 1 <= z - (dot + 1) <= 3
            &&& t == (if sgn {
                -1int
            } else {
                1int
            }) * (dec_value(s.subrange(ds, dot)) * 1000 + dec_value(s.subrange(dot + 1, z))
                * pow10((3 - (z - (dot + 1))) as nat))
        };
    assert(c[0] == s[a]);
    let dsc: int = if sgn {
        1
    } else {
        0
    };
    let dotc = dot - a;
    assert(c.subrange(dsc, dotc) =~= s.subrange(ds, dot));
    assert(c.subrange(dotc + 1, c.len() as int) =~= s.subrange(dot + 1, z));
    assert(c[dotc] == 0x2e);
    assert(decimal_from_bytes(c, t)) by {
        assert(crate::utils::is_digit(c[dsc])) by {
            assert(c[dsc] == c.subrange(dsc, dotc)[0]);
        }
        assert((#[trigger] c[dotc]) == 0x2e);
        assert(dsc < dotc && dotc + 1 < c.len());
        assert(digits_only(c.subrange(dsc, dotc)));
        assert(digits_only(c.subrange(dotc + 1, c.len() as int)));
        assert(1 <= c.len() - (dotc + 1) <= 3);
        assert(t == (if c.len() > 0 && c[0] == 0x2d {
            -1int
        } else {
            1int
        }) * (dec_value(c.subrange(dsc, dotc)) * 1000 + dec_value(
            c.subrange(dotc + 1, c.len() as int),
        ) * pow10((3 - (c.len() - (dotc + 1))) as nat)));
    }
}

/// A parsed number: the grammar decides between the two kinds by the
/// presence of a fractional part.
pub(crate) enum Num {
    /// A decimal with at most twelve integer digits.
    Decimal(BareItemDecimal),
    /// An integer of at most fifteen digits.
    Integer(i64),
}

proof fn lemma_pow10_small_values()
    ensures
        pow10(0) == 1,
        pow10(1) == 10,
        pow10(2) == 100,
        pow10(3) == 1_000,
        pow10(12) == 1_000_000_000_000,
        pow10(14) == 100_000_000_000_000,
        pow10(15) == 1_000_000_000_000_000,
{
    reveal_with_fuel(pow10, 17);
}

/// Advances the cursor past spaces, stopping at the first byte that is
/// not a space.
fn skip_sp(input: &[u8], pos: &mut usize)
    requires
        *old(pos) <= input@.len(),
    ensures
        *old(pos) <= *final(pos) <= input@.len(),
        forall|j: int| *old(pos) <= j < *final(pos) ==> input@[j] == 0x20,
        *final(pos) == input@.len() || input@[*final(pos) as int] != 0x20,
{
    let n = input.len();
    while *pos < n && input[*pos] == 0x20
        invariant
            n == input@.len(),
            *pos <= n,
            *pos >= *old(pos),
            forall|j: int| *old(pos) <= j < *pos ==> input@[j] == 0x20,
        decreases n - *pos,
    {
        *pos = *pos + 1;
    }
}

/// Advances the cursor past spaces and horizontal tabs.
fn skip_ows(input: &[u8], pos: &mut usize)
    requires
        *old(pos) <= input@.len(),
    ensures
        *old(pos) <= *final(pos) <= input@.len(),
        forall|j: int| *old(pos) <= j < *final(pos) ==> crate::utils::is_ows(input@[j]),
    {
    let n = input.len();
    while *pos < n && ows(input[*pos])
        invariant
            n == input@.len(),
            *pos <= n,
            *pos >= *old(pos),
            forall|j: int| *old(pos) <= j < *pos ==> crate::utils::is_ows(input@[j]),
        decreases n - *pos,
    {
        *pos = *pos + 1;
    }
}

/// Parses a key: a lowercase letter or `*`, then the maximal run of key
/// characters, which is exactly the returned key's text.
fn parse_key(input: &[u8], pos: &mut usize) -> (r: SFVResult<String>)
    requires
        *old(pos) <= input@.len(),
    ensures
        *old(pos) <= *final(pos) <= input@.len(),
        r matches Ok(s) ==> is_valid_key(encode_utf8(s@)) && *final(pos) > *old(pos),
        r matches Ok(s) ==> encode_utf8(s@) == input@.subrange(
            *old(pos) as int,
            *final(pos) as int,
        ),
        r is Ok ==> *final(pos) == input@.len() || !is_key_byte(
            input@[*final(pos) as int],
        ),
        *old(pos) < input@.len() && is_key_start(input@[*old(pos) as int]) ==> r is Ok,
{
    let n = input.len();
    if *pos >= n {
        return Err(Error::ParseUnexpectedEnd);
    }
    if !key_start(input[*pos]) {
        return Err(Error::ParseUnexpectedChar);
    }
    let mut out: Vec<u8> = Vec::new();
    out.push(input[*pos]);
    *pos = *pos + 1;
    proof {
        assert(out@ =~= input@.subrange(*old(pos) as int, *pos as int));
    }
    while *pos < n && key_byte(input[*pos])
        invariant
            n == input@.len(),
            *pos <= n,
            out@.len() >= 1,
            is_key_start(out@[0]),
            forall|j: int| 0 < j < out@.len() ==> is_key_byte(#[trigger] out@[j]),
            *pos > *old(pos),
            out@ == input@.subrange(*old(pos) as int, *pos as int),
        decreases n - *pos,
    {
        out.push(input[*pos]);
        *pos = *pos + 1;
        proof {
            assert(out@ =~= input@.subrange(*old(pos) as int, *pos as int));
        }
    }
    proof {
        assert(is_valid_key(out@));
        assert forall|j: int| 0 <= j < out@.len() implies #[trigger] out@[j] < 0x80 by {
            if j == 0 {
                assert(is_key_start(out@[0]));
            } else {
                assert(is_key_byte(out@[j]));
            }
        }
    }
    let ghost bytes = out@;
    let s = string_from_ascii(out);
    proof {
        assert(encode_utf8(s@) == bytes);
    }
    Ok(s)
}

/// Whether the bytes at position `at` begin with the canonical wire form
/// of the string `v`.
pub open spec fn canonical_string_at(input: Seq<u8>, at: int, v: Seq<u8>) -> bool {
    &&& is_valid_string(v)
    &&& 0 <= at
    &&& at + crate::bare_item::spec_ser_string(v).len() <= input.len()
    &&& input.subrange(at, at + crate::bare_item::spec_ser_string(v).len() as int)
        == crate::bare_item::spec_ser_string(v)
}

/// What the canonical form of `v` holds at the cursor when `out` is the
/// part of `v` already unescaped: the closing quote if `out` is all of
/// `v`, otherwise the next character, escaped exactly when it must be.
proof fn lemma_canonical_string_probe(input: Seq<u8>, at: int, v: Seq<u8>, out: Seq<u8>)
    requires
        canonical_string_at(input, at, v),
        out.len() <= v.len(),
        out == v.take(out.len() as int),
    ensures
        ({
            let pos = at + 1 + crate::bare_item::spec_escape(out).len();
            let ser = crate::bare_item::spec_ser_string(v);
            &&& crate::bare_item::spec_escape(out).len() <= crate::bare_item::spec_escape(
                v,
            ).len()
            &&& pos < at + ser.len()
            &&& (out.len() == v.len() ==> input[pos] == 0x22 && pos + 1 == at + ser.len())
            &&& (out.len() < v.len() ==> ({
                let c = v[out.len() as int];
                &&& is_visible(c)
                &&& ((c == 0x22 || c == 0x5c) ==> input[pos] == 0x5c && pos + 2 < at + ser.len()
                    && input[pos + 1] == c && crate::bare_item::spec_escape(
                    v.take(out.len() as int + 1),
                ) == crate::bare_item::spec_escape(out) + seq![0x5cu8, c])
                &&& (!(c == 0x22 || c == 0x5c) ==> input[pos] == c
                    && crate::bare_item::spec_escape(v.take(out.len() as int + 1))
                    == crate::bare_item::spec_escape(out) + seq![c])
            }))
        }),
{
    let k = out.len() as int;
    let rest = v.skip(k);
    assert(v.take(k) + rest =~= v);
    crate::bare_item::lemma_escape_concat(out, rest);
    assert(crate::bare_item::spec_escape(v) == crate::bare_item::spec_escape(out)
        + crate::bare_item::spec_escape(rest));
    let ser = crate::bare_item::spec_ser_string(v);
    assert forall|i: int| 0 <= i < ser.len() implies input[at + i] == ser[i] by {
        assert(input.subrange(at, at + ser.len() as int)[i] == input[at + i]);
    }
    if k == v.len() {
        assert(rest =~= Seq::<u8>::empty());
        assert(crate::bare_item::spec_escape(rest) =~= Seq::<u8>::empty());
        assert(ser[1 + crate::bare_item::spec_escape(v).len() as int] == 0x22);
    } else {
        let c = rest[0];
        assert(c == v[k]);
        assert(is_visible(v[k]));
        crate::bare_item::lemma_escape_push(out, c);
        assert(v.take(k + 1) =~= out.push(c));
        let eo = crate::bare_item::spec_escape(out).len() as int;
        if c == 0x22 || c == 0x5c {
            assert(crate::bare_item::spec_escape(rest)[0] == 0x5c);
            assert(crate::bare_item::spec_escape(rest)[1] == c);
            assert(ser[1 + eo] == crate::bare_item::spec_escape(v)[eo]);
            assert(ser[1 + eo + 1] == crate::bare_item::spec_escape(v)[eo + 1]);
        } else {
            assert(crate::bare_item::spec_escape(rest)[0] == c);
            assert(ser[1 + eo] == crate::bare_item::spec_escape(v)[eo]);
        }
    }
}

/// Parses a quoted string, unescaping `\"` and `\\`. Escaping is forced
/// by the grammar, so the bytes consumed are exactly the canonical form of
/// the returned value, and conversely any canonical string form at the
/// cursor parses to exactly the string it encodes.
fn parse_string(input: &[u8], pos: &mut usize) -> (r: SFVResult<BareItemString>)
    requires
        *old(pos) <= input@.len(),
    ensures
        *old(pos) <= *final(pos) <= input@.len(),
        r is Ok ==> *final(pos) > *old(pos),
        r matches Ok(v) ==> input@.subrange(*old(pos) as int, *final(pos) as int)
            == crate::bare_item::spec_ser_string(v@),
        forall|v: Seq<u8>|
            #![trigger canonical_string_at(input@, *old(pos) as int, v)]
            canonical_string_at(input@, *old(pos) as int, v) ==> (r is Ok && *final(pos) == *old(
                pos,
            ) + crate::bare_item::spec_ser_string(v).len()),
{
    let n = input.len();
    if *pos >= n || input[*pos] != 0x22 {
        proof {
            assert forall|v: Seq<u8>|
                canonical_string_at(input@, *old(pos) as int, v) implies false by {
                let ser = crate::bare_item::spec_ser_string(v);
                assert(ser[0] == 0x22);
                assert(input@.subrange(*old(pos) as int, *old(pos) + ser.len() as int)[0]
                    == input@[*old(pos) as int]);
            }
        }
        return Err(Error::ParseUnexpectedChar);
    }
    *pos = *pos + 1;
    let mut out: Vec<u8> = Vec::new();
    proof {
        assert(input@.subrange(*old(pos) as int, *pos as int) =~= seq![0x22u8]
            + crate::bare_item::spec_escape(out@));
        assert forall|v: Seq<u8>|
            canonical_string_at(input@, *old(pos) as int, v) implies out@.len() <= v.len() && out@
            == v.take(out@.len() as int) by {
            assert(out@ =~= v.take(0));
        }
    }
    while *pos < n
        invariant
            n == input@.len(),
            *pos <= n,
            *pos > *old(pos),
            is_valid_string(out@),
            input@.subrange(*old(pos) as int, *pos as int) == seq![0x22u8]
                + crate::bare_item::spec_escape(out@),
            forall|v: Seq<u8>|
                #![trigger canonical_string_at(input@, *old(pos) as int, v)]
                canonical_string_at(input@, *old(pos) as int, v) ==> out@.len() <= v.len() && out@
                    == v.take(out@.len() as int),
        decreases n - *pos,
    {
        proof {
            assert(input@.subrange(*old(pos) as int, *pos as int).len() == *pos - *old(pos));
            assert((seq![0x22u8] + crate::bare_item::spec_escape(out@)).len() == 1
                + crate::bare_item::spec_escape(out@).len());
            assert(*pos - *old(pos) == 1 + crate::bare_item::spec_escape(out@).len());
        }
        let b = input[*pos];
        if b == 0x5c {
            if *pos + 1 >= n {
                proof {
                    assert forall|v: Seq<u8>|
                        canonical_string_at(input@, *old(pos) as int, v) implies false by {
                        lemma_canonical_string_probe(input@, *old(pos) as int, v, out@);
                        if out@.len() < v.len() {
                            let c = v[out@.len() as int];
                            if c == 0x22 || c == 0x5c {
                            } else {
                                assert(input@[*pos as int] == c);
                            }
                        }
                    }
                }
                return Err(Error::ParseUnterminatedString);
            }
            let c = input[*pos + 1];
            if c == 0x22 || c == 0x5c {
                let ghost prev = out@;
                out.push(c);
                *pos = *pos + 2;
                proof {
                    crate::bare_item::lemma_escape_push(prev, c);
                    assert(input@.subrange(*old(pos) as int, *pos as int) =~= input@.subrange(
                        *old(pos) as int,
                        *pos - 2,
                    ) + seq![0x5cu8, c]);
                    assert(input@.subrange(*old(pos) as int, *pos as int) =~= seq![0x22u8]
                        + crate::bare_item::spec_escape(out@));
                    assert forall|v: Seq<u8>|
                        canonical_string_at(input@, *old(pos) as int, v) implies out@.len()
                        <= v.len() && out@ == v.take(out@.len() as int) by {
                        lemma_canonical_string_probe(input@, *old(pos) as int, v, prev);
                        if prev.len() < v.len() {
                            let c0 = v[prev.len() as int];
                            if c0 == 0x22 || c0 == 0x5c {
                                assert(out@ =~= v.take(prev.len() as int + 1));
                            } else {
                                assert(input@[*pos - 2] == c0);
                            }
                        } else {
                            assert(input@[*pos - 2] == 0x22);
                        }
                    }
                }
            } else {
                proof {
                    assert forall|v: Seq<u8>|
                        canonical_string_at(input@, *old(pos) as int, v) implies false by {
                        lemma_canonical_string_probe(input@, *old(pos) as int, v, out@);
                        if out@.len() < v.len() {
                            let c0 = v[out@.len() as int];
                            if c0 == 0x22 || c0 == 0x5c {
                                assert(input@[*pos + 1] == c0);
                            } else {
                                assert(input@[*pos as int] == c0);
                            }
                        }
                    }
                }
                return Err(Error::ParseInvalidString);
            }
        } else if b == 0x22 {
            *pos = *pos + 1;
            proof {
                assert(input@.subrange(*old(pos) as int, *pos as int) =~= input@.subrange(
                    *old(pos) as int,
                    *pos - 1,
                ) + seq![0x22u8]);
            }
            proof {
                assert forall|j: int| 0 <= j < out@.len() implies #[trigger] out@[j] < 0x80 by {
                    assert(is_visible(out@[j]));
                }
                assert forall|v: Seq<u8>|
                    canonical_string_at(input@, *old(pos) as int, v) implies out@.len() == v.len()
                    && *pos == *old(pos) + crate::bare_item::spec_ser_string(v).len() by {
                    lemma_canonical_string_probe(input@, *old(pos) as int, v, out@);
                    if out@.len() < v.len() {
                        let c0 = v[out@.len() as int];
                        assert(input@[*pos - 1] != 0x22);
                    }
                }
            }
            let ghost bytes = out@;
            let s = string_from_ascii(out);
            proof {
                assert(encode_utf8(s@) == bytes);
            }
            return Ok(BareItemString::from_validated(s));
        } else if !visible(b) {
            proof {
                assert forall|v: Seq<u8>|
                    canonical_string_at(input@, *old(pos) as int, v) implies false by {
                    lemma_canonical_string_probe(input@, *old(pos) as int, v, out@);
                    if out@.len() < v.len() {
                        let c0 = v[out@.len() as int];
                        if c0 == 0x22 || c0 == 0x5c {
                            assert(input@[*pos as int] == 0x5c);
                        } else {
                            assert(input@[*pos as int] == c0 && is_visible(c0));
                        }
                    } else {
                        assert(input@[*pos as int] == 0x22);
                    }
                }
            }
            return Err(Error::ParseInvalidString);
        } else {
            let ghost prev = out@;
            out.push(b);
            *pos = *pos + 1;
            proof {
                crate::bare_item::lemma_escape_push(prev, b);
                assert(input@.subrange(*old(pos) as int, *pos as int) =~= input@.subrange(
                    *old(pos) as int,
                    *pos - 1,
                ) + seq![b]);
                assert(input@.subrange(*old(pos) as int, *pos as int) =~= seq![0x22u8]
                    + crate::bare_item::spec_escape(out@));
                assert forall|v: Seq<u8>|
                    canonical_string_at(input@, *old(pos) as int, v) implies out@.len() <= v.len()
                    && out@ == v.take(out@.len() as int) by {
                    lemma_canonical_string_probe(input@, *old(pos) as int, v, prev);
                    if prev.len() < v.len() {
                        let c0 = v[prev.len() as int];
                        if c0 == 0x22 || c0 == 0x5c {
                            assert(input@[*pos - 1] == 0x5c);
                        } else {
                            assert(out@ =~= v.take(prev.len() as int + 1));
                        }
                    } else {
                        assert(input@[*pos - 1] == 0x22);
                    }
                }
            }
        }
    }
    proof {
        assert forall|v: Seq<u8>|
            canonical_string_at(input@, *old(pos) as int, v) implies false by {
            lemma_canonical_string_probe(input@, *old(pos) as int, v, out@);
        }
    }
    Err(Error::ParseUnterminatedString)
}

/// Parses a token: the maximal run of token characters. The bytes
/// consumed are exactly the token's canonical form, so a parsed token
/// re-serializes to the very input it came from.
fn parse_token(input: &[u8], pos: &mut usize) -> (r: SFVResult<BareItemToken>)
    requires
        *old(pos) <= input@.len(),
    ensures
        *old(pos) <= *final(pos) <= input@.len(),
        r is Ok ==> *final(pos) > *old(pos),
        r matches Ok(t) ==> input@.subrange(*old(pos) as int, *final(pos) as int)
            == crate::bare_item::spec_ser_token(t@),
        r is Ok ==> *final(pos) == input@.len() || !is_token_byte(
            input@[*final(pos) as int],
        ),
        *old(pos) < input@.len() && is_token_start(input@[*old(pos) as int]) ==> r is Ok,
{
    let n = input.len();
    if *pos >= n || !token_start(input[*pos]) {
        return Err(Error::ParseUnexpectedChar);
    }
    let mut out: Vec<u8> = Vec::new();
    out.push(input[*pos]);
    *pos = *pos + 1;
    proof {
        assert(out@ =~= input@.subrange(*old(pos) as int, *pos as int));
    }
    while *pos < n && token_byte(input[*pos])
        invariant
            n == input@.len(),
            *pos <= n,
            out@.len() >= 1,
            is_token_start(out@[0]),
            forall|j: int| 0 < j < out@.len() ==> is_token_byte(#[trigger] out@[j]),
            *pos > *old(pos),
            out@ == input@.subrange(*old(pos) as int, *pos as int),
        decreases n - *pos,
    {
        out.push(input[*pos]);
        *pos = *pos + 1;
        proof {
            assert(out@ =~= input@.subrange(*old(pos) as int, *pos as int));
        }
    }
    proof {
        assert(is_valid_token(out@));
        assert forall|j: int| 0 <= j < out@.len() implies #[trigger] out@[j] < 0x80 by {
            if j == 0 {
                assert(is_token_start(out@[0]));
            } else {
                assert(is_token_byte(out@[j]));
            }
        }
    }
    let ghost bytes = out@;
    let s = string_from_ascii(out);
    proof {
        assert(encode_utf8(s@) == bytes);
    }
    Ok(BareItemToken::from_validated(s))
}

/// Parses a byte sequence: a base64 body between colons. The consumed
/// bytes are the colons around the body, and whenever that body is the
/// base64 encoding of some bytes, the result holds exactly those bytes.
fn parse_byte_seq(input: &[u8], pos: &mut usize) -> (r: SFVResult<BareItemByteSeq>)
    requires
        *old(pos) <= input@.len(),
    ensures
        *old(pos) <= *final(pos) <= input@.len(),
        r is Ok ==> *final(pos) > *old(pos),
        r matches Ok(v) ==> ({
            let c = input@.subrange(*old(pos) as int, *final(pos) as int);
            &&& c.len() >= 2
            &&& c[0] == 0x3a
            &&& c[c.len() - 1] == 0x3a
            &&& forall|j: int| 0 < j < c.len() - 1 ==> c[j] != 0x3a
            &&& forall|b: Seq<u8>|
                c.subrange(1, c.len() - 1) == crate::encoding::base64_of(b) ==> v@ == b
        }),
{
    let n = input.len();
    if *pos >= n || input[*pos] != 0x3a {
        return Err(Error::ParseUnexpectedChar);
    }
    *pos = *pos + 1;
    let mut body: Vec<u8> = Vec::new();
    while *pos < n && input[*pos] != 0x3a
        invariant
            n == input@.len(),
            *pos <= n,
            *pos > *old(pos),
            body@ == input@.subrange(*old(pos) + 1, *pos as int),
            forall|j: int| *old(pos) < j < *pos ==> input@[j] != 0x3a,
        decreases n - *pos,
    {
        body.push(input[*pos]);
        *pos = *pos + 1;
        proof {
            assert(body@ =~= input@.subrange(*old(pos) + 1, *pos as int));
        }
    }
    if *pos >= n {
        return Err(Error::ParseUnterminatedByteSeq);
    }
    *pos = *pos + 1;
    match base64_decode(body.as_slice()) {
        Some(decoded) => {
            proof {
                let c = input@.subrange(*old(pos) as int, *pos as int);
                assert(c.subrange(1, c.len() - 1) =~= body@);
                assert(c[0] == input@[*old(pos) as int]);
                assert(c[c.len() - 1] == input@[*pos - 1]);
                assert forall|j: int| 0 < j < c.len() - 1 implies c[j] != 0x3a by {
                    assert(input@[*old(pos) + j] != 0x3a);
                }
                assert forall|b: Seq<u8>|
                    c.subrange(1, c.len() - 1) == crate::encoding::base64_of(b) implies decoded@
                    == b by {
                    assert(body@ == crate::encoding::base64_of(b));
                }
            }
            Ok(BareItemByteSeq::from_vec(decoded))
        },
        None => Err(Error::ParseInvalidByteSeq),
    }
}

/// Parses a boolean: `?0` or `?1`. The bytes consumed are exactly the
/// canonical form of the returned value, so a parsed boolean re-serializes
/// to the very input it came from.
fn parse_bool(input: &[u8], pos: &mut usize) -> (r: SFVResult<BareItemBoolean>)
    requires
        *old(pos) <= input@.len(),
    ensures
        *old(pos) <= *final(pos) <= input@.len(),
        r is Ok ==> *final(pos) > *old(pos),
        r matches Ok(v) ==> input@.subrange(*old(pos) as int, *final(pos) as int)
            == crate::bare_item::spec_ser_boolean(v@),
        r is Ok ==> *final(pos) == *old(pos) + 2,
        *old(pos) + 1 < input@.len() && input@[*old(pos) as int] == 0x3f && (input@[*old(pos)
            + 1] == 0x30 || input@[*old(pos) + 1] == 0x31) ==> r is Ok,
{
    let n = input.len();
    if *pos >= n || input[*pos] != 0x3f {
        return Err(Error::ParseUnexpectedChar);
    }
    if *pos + 1 >= n {
        return Err(Error::ParseInvalidBoolean);
    }
    let b = input[*pos + 1];
    if b == 0x31 {
        *pos = *pos + 2;
        proof {
            assert(input@.subrange(*pos - 2, *pos as int) =~= seq![0x3fu8, 0x31u8]);
        }
        Ok(BareItemBoolean::new(true))
    } else if b == 0x30 {
        *pos = *pos + 2;
        proof {
            assert(input@.subrange(*pos - 2, *pos as int) =~= seq![0x3fu8, 0x30u8]);
        }
        Ok(BareItemBoolean::new(false))
    } else {
        Err(Error::ParseInvalidBoolean)
    }
}

/// Parses a number, deciding between integer and decimal at the first
/// point that is not a digit. Digit counts are capped at fifteen for
/// integers, and at twelve and three for a decimal's two components. The
/// returned value is the numeric value of the digits consumed, with the
/// sign of an optional leading minus.
fn parse_number(input: &[u8], pos: &mut usize) -> (r: SFVResult<Num>)
    requires
        *old(pos) <= input@.len(),
    ensures
        *old(pos) <= *final(pos) <= input@.len(),
        r is Ok ==> *final(pos) > *old(pos),
        r matches Ok(Num::Integer(v)) ==> crate::bare_item::int_in_range(v),
        r matches Ok(Num::Integer(v)) ==> (*final(pos) == input@.len() || (!crate::utils::is_digit(
            input@[*final(pos) as int],
        ) && input@[*final(pos) as int] != 0x2e)),
        r matches Ok(Num::Decimal(d)) ==> (*final(pos) == input@.len() || !crate::utils::is_digit(
            input@[*final(pos) as int],
        )),
        (*old(pos) < input@.len() && digits_only(input@.subrange(*old(pos) as int, input@.len() as int))
            && input@.len() - *old(pos) <= 15) ==> r is Ok && *final(pos) == input@.len(),
        (*old(pos) + 1 < input@.len() && input@[*old(pos) as int] == 0x2d && digits_only(
            input@.subrange(*old(pos) + 1, input@.len() as int),
        ) && input@.len() - *old(pos) <= 16) ==> r is Ok && *final(pos) == input@.len(),
        forall|dot: int|
            #![trigger canonical_decimal_run_at(input@, *old(pos) as int, dot)]
            canonical_decimal_run_at(input@, *old(pos) as int, dot) ==> (r is Ok && *final(pos)
                == input@.len()),
        r matches Ok(num) ==> ({
            let sgn = input@[*old(pos) as int] == 0x2d;
            let ds: int = if sgn {
                *old(pos) + 1
            } else {
                *old(pos) as int
            };
            match num {
                Num::Integer(v) => {
                    &&& ds < *final(pos)
                    &&& digits_only(input@.subrange(ds, *final(pos) as int))
                    &&& v as int == (if sgn {
                        -dec_value(input@.subrange(ds, *final(pos) as int))
                    } else {
                        dec_value(input@.subrange(ds, *final(pos) as int))
                    })
                },
                Num::Decimal(d) => exists|dot: int|
                    {
                        &&& ds < dot && dot + 1 < *final(pos)
                        &&& (#[trigger] input@[dot]) == 0x2e
                        &&& digits_only(input@.subrange(ds, dot))
                        &&& digits_only(input@.subrange(dot + 1, *final(pos) as int))
                        &&& 1 <= *final(pos) - (dot + 1) <= 3
                        &&& d@ == (if sgn {
                            -1int
                        } else {
                            1int
                        }) * (dec_value(input@.subrange(ds, dot)) * 1000 + dec_value(
                            input@.subrange(dot + 1, *final(pos) as int),
                        ) * pow10((3 - (*final(pos) - (dot + 1))) as nat))
                    },
            }
        }),
{
    let n = input.len();
    proof {
        lemma_pow10_small_values();
        if *pos < n && digits_only(input@.subrange(*pos as int, n as int)) && n - *pos <= 15 {
            assert(crate::utils::is_digit(input@.subrange(*pos as int, n as int)[0]));
        }
        if *pos + 1 < n && input@[*pos as int] == 0x2d && digits_only(
            input@.subrange(*pos + 1, n as int),
        ) {
            assert(crate::utils::is_digit(input@.subrange(*pos + 1, n as int)[0]));
        }
        assert forall|dot: int|
            canonical_decimal_run_at(input@, *pos as int, dot) implies crate::utils::is_digit(
            input@[if input@[*pos as int] == 0x2d {
                *pos + 1
            } else {
                *pos as int
            }],
        ) by {
            let ds: int = if input@[*pos as int] == 0x2d {
                *pos + 1
            } else {
                *pos as int
            };
            assert(input@.subrange(ds, dot)[0] == input@[ds]);
        }
    }
    let neg = if *pos < n && input[*pos] == 0x2d {
        *pos = *pos + 1;
        true
    } else {
        false
    };
    if *pos >= n {
        return Err(Error::ParseUnexpectedEnd);
    }
    if !digit(input[*pos]) {
        return Err(Error::ParseUnexpectedChar);
    }
    let ghost ds: int = *pos as int;
    let mut val: i64 = (input[*pos] - 0x30) as i64;
    let mut int_digits: usize = 1;
    *pos = *pos + 1;
    proof {
        assert(input@.subrange(ds, *pos as int).drop_last() =~= Seq::<u8>::empty());
        assert(input@.subrange(ds, *pos as int).last() == input@[ds]);
        assert(dec_value(Seq::<u8>::empty()) == 0);
        assert(val == dec_value(input@.subrange(ds, *pos as int)));
        assert forall|j: int| 0 <= j < input@.subrange(ds, *pos as int).len()
            implies crate::utils::is_digit(#[trigger] input@.subrange(ds, *pos as int)[j]) by {
            assert(input@.subrange(ds, *pos as int)[j] == input@[ds]);
        }
    }
    while *pos < n && digit(input[*pos])
        invariant
            n == input@.len(),
            *pos <= n,
            *pos > *old(pos),
            1 <= int_digits <= 15,
            0 <= val < pow10(int_digits as nat),
            pow10(1) == 10,
            pow10(15) == 1_000_000_000_000_000,
            pow10(14) == 100_000_000_000_000,
            pow10(12) == 1_000_000_000_000,
            pow10(3) == 1_000,
            *old(pos) <= ds <= *pos,
            int_digits == *pos - ds,
            neg ==> *old(pos) < n && input@[*old(pos) as int] == 0x2d && ds == *old(pos) + 1,
            !neg ==> ds == *old(pos) as int && *old(pos) < n && input@[*old(pos) as int] != 0x2d,
            digits_only(input@.subrange(ds, *pos as int)),
            val == dec_value(input@.subrange(ds, *pos as int)),
            (*old(pos) < n && digits_only(input@.subrange(*old(pos) as int, n as int)) && n
                - *old(pos) <= 15) ==> ds == *old(pos),
            (*old(pos) + 1 < n && input@[*old(pos) as int] == 0x2d && digits_only(
                input@.subrange(*old(pos) + 1, n as int),
            ) && n - *old(pos) <= 16) ==> ds == *old(pos) + 1,
            forall|dot: int|
                #![trigger canonical_decimal_run_at(input@, *old(pos) as int, dot)]
                canonical_decimal_run_at(input@, *old(pos) as int, dot) ==> ds == (if input@[*old(
                    pos,
                ) as int] == 0x2d {
                    *old(pos) + 1
                } else {
                    *old(pos) as int
                }) && *pos <= dot,
        decreases n - *pos,
    {
        if int_digits == 15 {
            return Err(Error::ParseTooManyDigits);
        }
        proof {
            lemma_pow10_monotone(int_digits as nat, 14);
            assert(pow10((int_digits + 1) as nat) == 10 * pow10(int_digits as nat));
        }
        proof {
            assert forall|dot: int|
                canonical_decimal_run_at(input@, *old(pos) as int, dot) implies *pos < dot by {
                if *pos == dot {
                    assert(input@[dot] == 0x2e);
                    assert(false);
                }
            }
        }
        let d = (input[*pos] - 0x30) as i64;
        val = val * 10 + d;
        int_digits = int_digits + 1;
        *pos = *pos + 1;
        proof {
            assert(input@.subrange(ds, *pos as int).drop_last() =~= input@.subrange(
                ds,
                *pos - 1,
            ));
            assert(input@.subrange(ds, *pos as int).last() == input@[*pos - 1]);
            assert(val == dec_value(input@.subrange(ds, *pos as int)));
            assert forall|j: int| 0 <= j < input@.subrange(ds, *pos as int).len()
                implies crate::utils::is_digit(
                #[trigger] input@.subrange(ds, *pos as int)[j],
            ) by {
                if j < *pos - 1 - ds {
                    assert(crate::utils::is_digit(input@.subrange(ds, *pos - 1)[j]));
                } else {
                    assert(input@.subrange(ds, *pos as int)[j] == input@[*pos - 1]);
                }
            }
        }
    }
    proof {
        if *old(pos) < n && digits_only(input@.subrange(*old(pos) as int, n as int)) && n
            - *old(pos) <= 15 && *pos < n {
            assert(crate::utils::is_digit(
                input@.subrange(*old(pos) as int, n as int)[*pos - *old(pos)],
            ));
            assert(false);
        }
        if *old(pos) + 1 < n && input@[*old(pos) as int] == 0x2d && digits_only(
            input@.subrange(*old(pos) + 1, n as int),
        ) && n - *old(pos) <= 16 && *pos < n {
            assert(crate::utils::is_digit(
                input@.subrange(*old(pos) + 1, n as int)[*pos - *old(pos) - 1],
            ));
            assert(false);
        }
    }
    if *pos < n && input[*pos] == 0x2e {
        proof {
            assert forall|doth: int|
                canonical_decimal_run_at(input@, *old(pos) as int, doth) implies *pos == doth by {
                let dsh: int = if input@[*old(pos) as int] == 0x2d {
                    *old(pos) + 1
                } else {
                    *old(pos) as int
                };
                if *pos < doth {
                    assert(input@.subrange(dsh, doth)[*pos - dsh] == input@[*pos as int]);
                    assert(crate::utils::is_digit(input@[*pos as int]));
                    assert(false);
                }
            }
        }
        if int_digits > 12 {
            return Err(Error::ParseTooManyDigits);
        }
        let ghost dot: int = *pos as int;
        proof {
            lemma_pow10_small_values();
            lemma_pow10_monotone(int_digits as nat, 12);
        }
        *pos = *pos + 1;
        let ghost fs: int = *pos as int;
        let mut frac: i64 = 0;
        let mut frac_digits: usize = 0;
        proof {
            assert(input@.subrange(fs, *pos as int) =~= Seq::<u8>::empty());
        }
        while *pos < n && digit(input[*pos])
            invariant
                n == input@.len(),
                *pos <= n,
                *pos > *old(pos),
                frac_digits <= 3,
                0 <= frac < pow10(frac_digits as nat),
                pow10(1) == 10,
                pow10(2) == 100,
                pow10(3) == 1_000,
                fs == dot + 1,
                dot + 1 <= *pos,
                input@[dot] == 0x2e,
                *old(pos) <= ds < dot <= n,
                frac_digits == *pos - fs,
                neg ==> *old(pos) < n && input@[*old(pos) as int] == 0x2d && ds == *old(pos)
                    + 1,
                !neg ==> ds == *old(pos) as int && *old(pos) < n && input@[*old(pos) as int]
                    != 0x2d,
                digits_only(input@.subrange(ds, dot)),
                val == dec_value(input@.subrange(ds, dot)),
                0 <= val < 1_000_000_000_000,
                digits_only(input@.subrange(fs, *pos as int)),
                frac == dec_value(input@.subrange(fs, *pos as int)),
                !(*old(pos) < n && digits_only(input@.subrange(*old(pos) as int, n as int)) && n
                    - *old(pos) <= 15),
                !(*old(pos) + 1 < n && input@[*old(pos) as int] == 0x2d && digits_only(
                    input@.subrange(*old(pos) + 1, n as int),
                ) && n - *old(pos) <= 16),
                forall|doth: int|
                    #![trigger canonical_decimal_run_at(input@, *old(pos) as int, doth)]
                    canonical_decimal_run_at(input@, *old(pos) as int, doth) ==> doth == dot,
            decreases n - *pos,
        {
            if frac_digits == 3 {
                proof {
                    assert forall|doth: int|
                        canonical_decimal_run_at(
                            input@,
                            *old(pos) as int,
                            doth,
                        ) implies false by {
                        assert(doth == dot);
                        assert(n - (doth + 1) <= 3);
                        assert(*pos - fs == 3);
                    }
                }
                return Err(Error::ParseBadFraction);
            }
            proof {
                lemma_pow10_small_values();
                lemma_pow10_monotone(frac_digits as nat, 2);
                assert(pow10((frac_digits + 1) as nat) == 10 * pow10(frac_digits as nat));
            }
            let d = (input[*pos] - 0x30) as i64;
            frac = frac * 10 + d;
            frac_digits = frac_digits + 1;
            *pos = *pos + 1;
            proof {
                assert(input@.subrange(fs, *pos as int).drop_last() =~= input@.subrange(
                    fs,
                    *pos - 1,
                ));
                assert(input@.subrange(fs, *pos as int).last() == input@[*pos - 1]);
                assert(frac == dec_value(input@.subrange(fs, *pos as int)));
                assert forall|j: int| 0 <= j < input@.subrange(fs, *pos as int).len()
                    implies crate::utils::is_digit(
                    #[trigger] input@.subrange(fs, *pos as int)[j],
                ) by {
                    if j < *pos - 1 - fs {
                        assert(crate::utils::is_digit(input@.subrange(fs, *pos - 1)[j]));
                    } else {
                        assert(input@.subrange(fs, *pos as int)[j] == input@[*pos - 1]);
                    }
                }
            }
        }
        proof {
            assert forall|doth: int|
                canonical_decimal_run_at(input@, *old(pos) as int, doth) implies *pos == n as int
                && frac_digits >= 1 by {
                assert(doth == dot);
                if *pos < n {
                    assert(input@.subrange(doth + 1, n as int)[*pos - (doth + 1)] == input@[*pos
                        as int]);
                    assert(crate::utils::is_digit(input@[*pos as int]));
                    assert(false);
                }
            }
        }
        if frac_digits == 0 {
            return Err(Error::ParseBadFraction);
        }
        proof {
            lemma_pow10_small_values();
        }
        let scaled: i64 = if frac_digits == 1 {
            frac * 100
        } else if frac_digits == 2 {
            frac * 10
        } else {
            frac
        };
        proof {
            assert(scaled == frac * pow10((3 - frac_digits) as nat)) by {
                if frac_digits == 1 {
                    assert(pow10((3 - frac_digits) as nat) == 100);
                } else if frac_digits == 2 {
                    assert(pow10((3 - frac_digits) as nat) == 10);
                } else {
                    assert(pow10((3 - frac_digits) as nat) == 1);
                }
            }
        }
        let t: i64 = if neg {
            -(val * 1000 + scaled)
        } else {
            val * 1000 + scaled
        };
        match BareItemDecimal::from_thousandths(t) {
            Ok(d2) => {
                proof {
                    assert(d2@ == (if neg {
                        -1int
                    } else {
                        1int
                    }) * (dec_value(input@.subrange(ds, dot)) * 1000 + dec_value(
                        input@.subrange(dot + 1, *pos as int),
                    ) * pow10((3 - (*pos - (dot + 1))) as nat)));
                }
                Ok(Num::Decimal(d2))
            },
            Err(e) => Err(e),
        }
    } else {
        proof {
            lemma_pow10_small_values();
            lemma_pow10_monotone(int_digits as nat, 15);
            assert forall|doth: int|
                canonical_decimal_run_at(input@, *old(pos) as int, doth) implies false by {
                let dsh: int = if input@[*old(pos) as int] == 0x2d {
                    *old(pos) + 1
                } else {
                    *old(pos) as int
                };
                if *pos < doth {
                    assert(input@.subrange(dsh, doth)[*pos - dsh] == input@[*pos as int]);
                    assert(crate::utils::is_digit(input@[*pos as int]));
                } else {
                    assert(*pos == doth);
                    assert(input@[doth] == 0x2e);
                }
            }
        }
        let v: i64 = if neg {
            -val
        } else {
            val
        };
        Ok(Num::Integer(v))
    }
}

/// Parses one bare item, dispatching on the lookahead byte. The value
/// returned is a function of the bytes consumed (for a byte sequence, up
/// to the base64 decoding relation), and a whole boolean or token text at
/// the cursor always parses.
fn parse_bare_item(input: &[u8], pos: &mut usize) -> (r: SFVResult<BareItem>)
    requires
        *old(pos) <= input@.len(),
    ensures
        *old(pos) <= *final(pos) <= input@.len(),
        r is Ok ==> *final(pos) > *old(pos),
        *old(pos) == input@.len() ==> r == Err::<BareItem, Error>(Error::ParseUnexpectedEnd),
        r matches Ok(b) ==> bare_item_from_bytes(
            input@.subrange(*old(pos) as int, *final(pos) as int),
            &b,
        ),
        *old(pos) + 1 < input@.len() && input@[*old(pos) as int] == 0x3f && (input@[*old(pos)
            + 1] == 0x30 || input@[*old(pos) + 1] == 0x31) ==> r is Ok && *final(pos) == *old(
            pos,
        ) + 2,
        *old(pos) < input@.len() && is_token_start(input@[*old(pos) as int]) ==> r is Ok,
        r matches Ok(b) ==> (b matches BareItem::Token(_) ==> *final(pos) == input@.len()
            || !is_token_byte(input@[*final(pos) as int])),
        (*old(pos) < input@.len() && digits_only(input@.subrange(*old(pos) as int, input@.len() as int))
            && input@.len() - *old(pos) <= 15) ==> r is Ok && *final(pos) == input@.len(),
        (*old(pos) + 1 < input@.len() && input@[*old(pos) as int] == 0x2d && digits_only(
            input@.subrange(*old(pos) + 1, input@.len() as int),
        ) && input@.len() - *old(pos) <= 16) ==> r is Ok && *final(pos) == input@.len(),
        forall|v: Seq<u8>|
            #![trigger canonical_string_at(input@, *old(pos) as int, v)]
            canonical_string_at(input@, *old(pos) as int, v) ==> (r is Ok && *final(pos) == *old(
                pos,
            ) + crate::bare_item::spec_ser_string(v).len()),
        forall|dot: int|
            #![trigger canonical_decimal_run_at(input@, *old(pos) as int, dot)]
            canonical_decimal_run_at(input@, *old(pos) as int, dot) ==> (r is Ok && *final(pos)
                == input@.len()),
{
    let n = input.len();
    if *pos >= n {
        proof {
            assert forall|v: Seq<u8>|
                canonical_string_at(input@, *old(pos) as int, v) implies false by {
                assert(crate::bare_item::spec_ser_string(v).len() >= 2);
            }
        }
        return Err(Error::ParseUnexpectedEnd);
    }
    proof {
        if *pos < n && digits_only(input@.subrange(*pos as int, n as int)) && n - *pos <= 15 {
            assert(crate::utils::is_digit(input@.subrange(*pos as int, n as int)[0]));
        }
        if input@[*pos as int] != 0x22 {
            assert forall|v: Seq<u8>|
                canonical_string_at(input@, *pos as int, v) implies false by {
                let ser = crate::bare_item::spec_ser_string(v);
                assert(ser[0] == 0x22);
                assert(input@.subrange(*pos as int, *pos + ser.len() as int)[0]
                    == input@[*pos as int]);
            }
        }
        if input@[*pos as int] != 0x2d && !crate::utils::is_digit(input@[*pos as int]) {
            assert forall|dot: int|
                canonical_decimal_run_at(input@, *pos as int, dot) implies false by {
                if input@[*pos as int] != 0x2d {
                    assert(input@.subrange(*pos as int, dot)[0] == input@[*pos as int]);
                    assert(crate::utils::is_digit(input@[*pos as int]));
                }
            }
        }
    }
    let b = input[*pos];
    if b == 0x2d || digit(b) {
        match parse_number(input, pos) {
            Ok(Num::Integer(v)) => {
                match BareItemInteger::new(v) {
                    Ok(iv) => {
                        proof {
                            lemma_integer_bytes_shift(
                                input@,
                                *old(pos) as int,
                                *pos as int,
                                iv@,
                            );
                        }
                        Ok(BareItem::Integer(iv))
                    },
                    Err(e) => Err(e),
                }
            },
            Ok(Num::Decimal(d)) => {
                proof {
                    lemma_decimal_bytes_shift(input@, *old(pos) as int, *pos as int, d@);
                }
                Ok(BareItem::Decimal(d))
            },
            Err(e) => Err(e),
        }
    } else if b == 0x22 {
        match parse_string(input, pos) {
            Ok(s) => Ok(BareItem::String(s)),
            Err(e) => Err(e),
        }
    } else if b == 0x3a {
        match parse_byte_seq(input, pos) {
            Ok(s) => Ok(BareItem::ByteSeq(s)),
            Err(e) => Err(e),
        }
    } else if b == 0x3f {
        match parse_bool(input, pos) {
            Ok(v) => Ok(BareItem::Boolean(v)),
            Err(e) => Err(e),
        }
    } else if token_start(b) {
        match parse_token(input, pos) {
            Ok(t) => Ok(BareItem::Token(t)),
            Err(e) => Err(e),
        }
    } else {
        Err(Error::ParseUnexpectedChar)
    }
}

/// Parses `*( ";" *SP parameter )`, overwriting re-occurring keys while
/// keeping their first position.
fn parse_parameters(input: &[u8], pos: &mut usize) -> (r: SFVResult<Parameters>)
    requires
        *old(pos) <= input@.len(),
    ensures
        *old(pos) <= *final(pos) <= input@.len(),
        r matches Ok(p) ==> spec_params_result(p@) is Ok && map_keys_unique(p@),
        *old(pos) == input@.len() || input@[*old(pos) as int] != 0x3b ==> (*final(pos) == *old(
            pos,
        ) && (r matches Ok(p) && p@.len() == 0)),
        r matches Ok(p) ==> exists|raw: Seq<(Seq<u8>, BareItem)>|
            #![trigger spec_param_fold(raw)]
            p@ == spec_param_fold(raw) && params_from_bytes(
                input@.subrange(*old(pos) as int, *final(pos) as int),
                raw,
            ),
{
    let n = input.len();
    let mut params = Parameters::new();
    let ghost mut raw: Seq<(Seq<u8>, BareItem)> = Seq::empty();
    proof {
        assert(input@.subrange(*pos as int, *pos as int) =~= Seq::<u8>::empty());
    }
    while *pos < n && input[*pos] == 0x3b
        invariant
            n == input@.len(),
            *pos <= n,
            *pos >= *old(pos),
            forall|i: int| 0 <= i < params@.len() ==> is_valid_key(#[trigger] params@[i].0),
            map_keys_unique(params@),
            *pos == *old(pos) ==> params@.len() == 0,
            *pos == *old(pos) || (*old(pos) < n && input@[*old(pos) as int] == 0x3b),
            params@ == spec_param_fold(raw),
            params_from_bytes(input@.subrange(*old(pos) as int, *pos as int), raw),
        decreases n - *pos,
    {
        let ghost seg0 = *pos as int;
        *pos = *pos + 1;
        skip_sp(input, pos);
        let ghost pos1 = *pos as int;
        let key = match parse_key(input, pos) {
            Ok(k) => k,
            Err(e) => {
                return Err(e);
            },
        };
        let ghost pos2 = *pos as int;
        let value = if *pos < n && input[*pos] == 0x3d {
            *pos = *pos + 1;
            match parse_bare_item(input, pos) {
                Ok(v) => v,
                Err(e) => {
                    return Err(e);
                },
            }
        } else {
            BareItem::Boolean(BareItemBoolean::new(true))
        };
        let ghost before = params@;
        let ghost kb = encode_utf8(key@);
        let ghost gv = value;
        proof {
            assert(is_valid_key(kb));
            let pend = *pos as int;
            let seg = input@.subrange(seg0, pend);
            let m = pos1 - seg0 - 1;
            assert(seg[0] == input@[seg0]);
            assert forall|j: int| 1 <= j < 1 + m implies seg[j] == 0x20 by {
                assert(input@[seg0 + j] == 0x20);
            }
            assert(seg.subrange(1 + m, 1 + m + kb.len() as int) =~= input@.subrange(
                pos1,
                pos2,
            ));
            if pend == pos2 {
                assert(seg.len() == 1 + m + kb.len());
                assert(crate::bare_item::is_boolean_true(&gv));
            } else {
                assert(seg[1 + m + kb.len() as int] == input@[pos2]);
                assert(seg.subrange(1 + m + kb.len() + 1, seg.len() as int) =~= input@.subrange(
                    pos2 + 1,
                    pend,
                ));
            }
            assert(param_segment_match(seg, kb, &gv));
            let s_all = input@.subrange(*old(pos) as int, pend);
            let cut = seg0 - *old(pos);
            let raw2 = raw.push((kb, gv));
            assert(raw2.drop_last() =~= raw);
            assert(raw2.last() == (kb, gv));
            assert(s_all.subrange(0, cut) =~= input@.subrange(*old(pos) as int, seg0));
            assert(s_all.subrange(cut, s_all.len() as int) =~= seg);
            assert(s_all.subrange(cut, s_all.len() as int) == seg);
            assert(param_segment_match(
                s_all.subrange(cut, s_all.len() as int),
                raw2.last().0,
                &raw2.last().1,
            ));
            assert(params_from_bytes(s_all.subrange(0, cut), raw2.drop_last()));
            assert(params_from_bytes(s_all, raw2)) by {
                reveal_with_fuel(params_from_bytes, 2);
                assert(raw2.len() > 0);
                assert(0 <= cut < s_all.len());
                assert(params_from_bytes(s_all.subrange(0, cut), raw2.drop_last()));
                assert(param_segment_match(
                    s_all.subrange(cut, s_all.len() as int),
                    raw2.last().0,
                    &raw2.last().1,
                ));
            }
            raw = raw2;
        }
        let _ = params.insert(key, value);
        proof {
            crate::ordered_map::lemma_map_find_contains(before, kb);
            if crate::ordered_map::map_contains_key(before, kb) {
                let at = crate::ordered_map::map_find(before, kb);
                assert(params@ == before.update(at, (kb, gv)));
            } else {
                assert(params@ == before.push((kb, gv)));
            }
            assert(raw.drop_last() =~= raw.drop_last());
            assert(params@ == spec_param_fold(raw)) by {
                assert(raw.last() == (kb, gv));
                assert(spec_param_fold(raw.drop_last()) == before);
            }
            assert forall|i: int| 0 <= i < params@.len() implies is_valid_key(
                #[trigger] params@[i].0,
            ) by {
                if params@[i].0 != kb {
                    if crate::ordered_map::map_contains_key(before, kb) {
                        let at = crate::ordered_map::map_find(before, kb);
                        assert(params@[i] == before[i]);
                    } else {
                        assert(params@[i] == before[i]);
                    }
                }
            }
        }
    }
    proof {
        lemma_params_result_ok_iff(params@);
        assert forall|i: int| 0 <= i < params@.len() implies crate::serializer::spec_validate_key(
            #[trigger] params@[i].0,
        ) is Ok by {
            lemma_valid_key_validates(params@[i].0);
        }
    }
    Ok(params)
}

/// Parses one item: a bare item, then its parameters. The bare item is
/// determined by the bytes before the parameters, and a whole boolean or
/// token text parses to that item with no parameters.
fn parse_item_inner(input: &[u8], pos: &mut usize) -> (r: SFVResult<Item>)
    requires
        *old(pos) <= input@.len(),
    ensures
        *old(pos) <= *final(pos) <= input@.len(),
        r matches Ok(it) ==> spec_item_result(&it) is Ok && map_keys_unique(it.params@)
            && *final(pos) > *old(pos),
        *old(pos) == input@.len() ==> r == Err::<Item, Error>(Error::ParseUnexpectedEnd),
        r matches Ok(it) ==> exists|mid: int|
            {
                &&& *old(pos) < mid <= *final(pos)
                &&& #[trigger] bare_item_from_bytes(
                    input@.subrange(*old(pos) as int, mid),
                    &it.bare_item,
                )
                &&& ((mid == *final(pos) && it.params@.len() == 0) || (mid < input@.len()
                    && input@[mid] == 0x3b))
            },
        r matches Ok(it) ==> exists|mid: int, raw: Seq<(Seq<u8>, BareItem)>|
            #![trigger bare_item_from_bytes(input@.subrange(*old(pos) as int, mid), &it.bare_item),
                spec_param_fold(raw)]
            {
                &&& *old(pos) < mid <= *final(pos)
                &&& bare_item_from_bytes(input@.subrange(*old(pos) as int, mid), &it.bare_item)
                &&& it.params@ == spec_param_fold(raw)
                &&& params_from_bytes(input@.subrange(mid, *final(pos) as int), raw)
            },
        *old(pos) + 2 == input@.len() && input@[*old(pos) as int] == 0x3f && (input@[*old(pos)
            + 1] == 0x30 || input@[*old(pos) + 1] == 0x31) ==> r is Ok && *final(pos)
            == input@.len(),
        (*old(pos) < input@.len() && is_token_start(input@[*old(pos) as int]) && (forall|j: int|
            *old(pos) < j < input@.len() ==> is_token_byte(#[trigger] input@[j]))) ==> r is Ok
            && *final(pos) == input@.len(),
        (*old(pos) < input@.len() && digits_only(input@.subrange(*old(pos) as int, input@.len() as int))
            && input@.len() - *old(pos) <= 15) ==> r is Ok && *final(pos) == input@.len(),
        (*old(pos) + 1 < input@.len() && input@[*old(pos) as int] == 0x2d && digits_only(
            input@.subrange(*old(pos) + 1, input@.len() as int),
        ) && input@.len() - *old(pos) <= 16) ==> r is Ok && *final(pos) == input@.len(),
        forall|v: Seq<u8>|
            #![trigger canonical_string_at(input@, *old(pos) as int, v)]
            canonical_string_at(input@, *old(pos) as int, v) && *old(pos)
                + crate::bare_item::spec_ser_string(v).len() == input@.len() ==> (r is Ok
                && *final(pos) == input@.len()),
        forall|dot: int|
            #![trigger canonical_decimal_run_at(input@, *old(pos) as int, dot)]
            canonical_decimal_run_at(input@, *old(pos) as int, dot) ==> (r is Ok && *final(pos)
                == input@.len()),
{
    let ghost start = *old(pos) as int;
    let bare_item = match parse_bare_item(input, pos) {
        Ok(b) => b,
        Err(e) => {
            return Err(e);
        },
    };
    let ghost mid = *pos as int;
    proof {
        if start < input@.len() && is_token_start(input@[start]) && (forall|j: int|
            start < j < input@.len() ==> is_token_byte(#[trigger] input@[j])) {
            let c = input@.subrange(start, mid);
            assert(c[0] == input@[start]);
            lemma_bare_variant_token(c, &bare_item);
            if mid < input@.len() {
                assert(!is_token_byte(input@[mid]));
                assert(false);
            }
        }
    }
    let params = match parse_parameters(input, pos) {
        Ok(p) => p,
        Err(e) => {
            return Err(e);
        },
    };
    proof {
        if mid == input@.len() || input@[mid] != 0x3b {
            assert(*pos == mid && params@.len() == 0);
        }
        assert(bare_item_from_bytes(input@.subrange(start, mid), &bare_item));
        let raw = choose|raw: Seq<(Seq<u8>, BareItem)>|
            #![trigger spec_param_fold(raw)]
            params@ == spec_param_fold(raw) && params_from_bytes(
                input@.subrange(mid, *pos as int),
                raw,
            );
        assert(params@ == spec_param_fold(raw));
        assert(params_from_bytes(input@.subrange(mid, *pos as int), raw));
    }
    Ok(Item { bare_item, params })
}

/// Parses an inner list: items separated by spaces between parentheses,
/// then the list's parameters. The items and parameters returned are
/// determined by the bytes consumed.
fn parse_inner_list(input: &[u8], pos: &mut usize) -> (r: SFVResult<InnerList>)
    requires
        *old(pos) <= input@.len(),
    ensures
        *old(pos) <= *final(pos) <= input@.len(),
        r matches Ok(l) ==> spec_inner_list_result(&l) is Ok && map_keys_unique(l.params@)
            && *final(pos) > *old(pos),
        r matches Ok(l) ==> inner_list_from_bytes(
            input@.subrange(*old(pos) as int, *final(pos) as int),
            &l,
        ),
{
    let n = input.len();
    if *pos >= n || input[*pos] != 0x28 {
        return Err(Error::ParseUnexpectedChar);
    }
    *pos = *pos + 1;
    let ghost istart = *pos as int;
    let ghost mut items_end: int = istart;
    let mut items: Vec<Item> = Vec::new();
    proof {
        assert(crate::utils::is_all_sp(input@.subrange(istart, items_end)));
    }
    loop
        invariant
            n == input@.len(),
            *pos <= n,
            *pos > *old(pos),
            spec_items_result(items@) is Ok,
            istart == *old(pos) + 1,
            istart <= items_end <= *pos,
            *pos == items_end,
            input@[*old(pos) as int] == 0x28,
            inner_items_from_bytes(input@.subrange(istart, items_end), items@),
            items@.len() > 0 && *pos < n ==> input@[*pos as int] == 0x20 || input@[*pos as int]
                == 0x29,
        decreases n - *pos,
    {
        let ghost w0 = *pos as int;
        skip_sp(input, pos);
        let ghost w1 = *pos as int;
        if *pos >= n {
            return Err(Error::ParseUnterminatedInnerList);
        }
        if input[*pos] == 0x29 {
            let ghost close = *pos as int;
            *pos = *pos + 1;
            let params = match parse_parameters(input, pos) {
                Ok(p) => p,
                Err(e) => {
                    return Err(e);
                },
            };
            proof {
                let sfull = input@.subrange(*old(pos) as int, *pos as int);
                let at = *old(pos) as int;
                let raw = choose|raw: Seq<(Seq<u8>, BareItem)>|
                    #![trigger spec_param_fold(raw)]
                    params@ == spec_param_fold(raw) && params_from_bytes(
                        input@.subrange(close + 1, *pos as int),
                        raw,
                    );
                assert(sfull[0] == input@[at]);
                assert(sfull[close - at] == input@[close]);
                assert(sfull.subrange(1, items_end - at) =~= input@.subrange(
                    istart,
                    items_end,
                ));
                assert forall|j: int|
                    0 <= j < sfull.subrange(items_end - at, close - at).len()
                    implies #[trigger] sfull.subrange(items_end - at, close - at)[j]
                    == 0x20 by {
                    assert(input@[items_end + j] == 0x20);
                }
                assert(crate::utils::is_all_sp(sfull.subrange(items_end - at, close - at)));
                assert(sfull.subrange(close - at + 1, sfull.len() as int) =~= input@.subrange(
                    close + 1,
                    *pos as int,
                ));
                assert(inner_items_from_bytes(
                    sfull.subrange(1, items_end - at),
                    items@,
                ));
                assert(params_from_bytes(
                    sfull.subrange(close - at + 1, sfull.len() as int),
                    raw,
                ));
                assert(inner_list_from_bytes(sfull, &InnerList { items, params }));
            }
            return Ok(InnerList { items, params });
        }
        let item = match parse_item_inner(input, pos) {
            Ok(it) => it,
            Err(e) => {
                return Err(e);
            },
        };
        let ghost w2 = *pos as int;
        let ghost before = items@;
        let ghost gi = item;
        items.push(item);
        proof {
            assert(items@.drop_last() =~= before);
            assert(items@.last() == gi);
            lemma_item_bytes_shift(input@, w1, w2, &gi);
            if before.len() > 0 {
                assert(input@[w0] == 0x20 || input@[w0] == 0x29);
                if w1 == w0 {
                    assert(input@[w1] != 0x20);
                    assert(input@[w1] == 0x29);
                    assert(false);
                }
            }
            let sp = input@.subrange(istart, w2);
            let cut = items_end - istart;
            let cut2 = w1 - istart;
            assert(sp.subrange(0, cut) =~= input@.subrange(istart, items_end));
            assert(sp.subrange(cut2, sp.len() as int) =~= input@.subrange(w1, w2));
            assert forall|j: int|
                0 <= j < sp.subrange(cut, cut2).len() implies #[trigger] sp.subrange(
                cut,
                cut2,
            )[j] == 0x20 by {
                assert(input@[items_end + j] == 0x20);
            }
            assert(crate::utils::is_all_sp(sp.subrange(cut, cut2)));
            assert(inner_items_from_bytes(sp.subrange(0, cut), items@.drop_last()));
            assert(item_from_bytes(sp.subrange(cut2, sp.len() as int), &items@.last()));
            assert(inner_items_from_bytes(sp, items@));
            items_end = w2;
        }
        if *pos >= n {
            return Err(Error::ParseUnterminatedInnerList);
        }
        if input[*pos] != 0x20 && input[*pos] != 0x29 {
            return Err(Error::ParseUnexpectedChar);
        }
    }
}

/// Parses one list member: an inner list where the lookahead is `(`,
/// otherwise an item. An item member's primitive and parameters are
/// determined by the bytes consumed, as in the item parser.
fn parse_list_entry(input: &[u8], pos: &mut usize) -> (r: SFVResult<ListEntry>)
    requires
        *old(pos) <= input@.len(),
    ensures
        *old(pos) <= *final(pos) <= input@.len(),
        r matches Ok(e) ==> spec_entry_result(&e) is Ok && *final(pos) > *old(pos),
        r matches Ok(e) ==> (e matches ListEntry::InnerList(_) ==> *old(pos) < input@.len()
            && input@[*old(pos) as int] == 0x28),
        r matches Ok(e) ==> (e matches ListEntry::InnerList(l) ==> inner_list_from_bytes(
            input@.subrange(*old(pos) as int, *final(pos) as int),
            &l,
        )),
        r matches Ok(e) ==> (e matches ListEntry::Item(it) ==> exists|mid: int, raw: Seq<
            (Seq<u8>, BareItem),
        >|
            #![trigger bare_item_from_bytes(input@.subrange(*old(pos) as int, mid), &it.bare_item),
                spec_param_fold(raw)]
            {
                &&& *old(pos) < mid <= *final(pos)
                &&& bare_item_from_bytes(input@.subrange(*old(pos) as int, mid), &it.bare_item)
                &&& it.params@ == spec_param_fold(raw)
                &&& params_from_bytes(input@.subrange(mid, *final(pos) as int), raw)
            }),
        (*old(pos) < input@.len() && is_token_start(input@[*old(pos) as int]) && (forall|j: int|
            *old(pos) < j < input@.len() ==> is_token_byte(#[trigger] input@[j]))) ==> r is Ok
            && *final(pos) == input@.len(),
        (*old(pos) < input@.len() && digits_only(input@.subrange(*old(pos) as int, input@.len() as int))
            && input@.len() - *old(pos) <= 15) ==> r is Ok && *final(pos) == input@.len(),
        (*old(pos) + 1 < input@.len() && input@[*old(pos) as int] == 0x2d && digits_only(
            input@.subrange(*old(pos) + 1, input@.len() as int),
        ) && input@.len() - *old(pos) <= 16) ==> r is Ok && *final(pos) == input@.len(),
        forall|v: Seq<u8>|
            #![trigger canonical_string_at(input@, *old(pos) as int, v)]
            canonical_string_at(input@, *old(pos) as int, v) && *old(pos)
                + crate::bare_item::spec_ser_string(v).len() == input@.len() ==> (r is Ok
                && *final(pos) == input@.len()),
        forall|dot: int|
            #![trigger canonical_decimal_run_at(input@, *old(pos) as int, dot)]
            canonical_decimal_run_at(input@, *old(pos) as int, dot) ==> (r is Ok && *final(pos)
                == input@.len()),
{
    let n = input.len();
    if *pos < n && input[*pos] == 0x28 {
        proof {
            assert forall|v: Seq<u8>|
                canonical_string_at(input@, *pos as int, v) implies false by {
                let ser = crate::bare_item::spec_ser_string(v);
                assert(ser[0] == 0x22);
                assert(input@.subrange(*pos as int, *pos + ser.len() as int)[0]
                    == input@[*pos as int]);
            }
            assert forall|dot: int|
                canonical_decimal_run_at(input@, *pos as int, dot) implies false by {
                if input@[*pos as int] != 0x2d {
                    assert(input@.subrange(*pos as int, dot)[0] == input@[*pos as int]);
                    assert(crate::utils::is_digit(input@[*pos as int]));
                }
            }
            if *pos < n && digits_only(input@.subrange(*pos as int, n as int)) && n - *pos
                <= 15 {
                assert(crate::utils::is_digit(input@.subrange(*pos as int, n as int)[0]));
            }
        }
        match parse_inner_list(input, pos) {
            Ok(l) => Ok(ListEntry::InnerList(l)),
            Err(e) => Err(e),
        }
    } else {
        match parse_item_inner(input, pos) {
            Ok(it) => Ok(ListEntry::Item(it)),
            Err(e) => Err(e),
        }
    }
}

/// The three entry points of the decoder. Each consumes the whole input:
/// trailing bytes beyond optional whitespace are an error.
pub struct Parser;

impl Parser {
    /// Parses an item field value: optional spaces, one item, optional
    /// spaces, nothing else. The item's primitive is determined by the
    /// bytes between the spaces and before its parameters, and a whole
    /// boolean or token text always parses.
    pub fn parse_item(input: &[u8]) -> (r: SFVResult<Item>)
        ensures
            r matches Ok(it) ==> spec_item_result(&it) is Ok && map_keys_unique(it.params@),
            input@.len() == 0 ==> r == Err::<Item, Error>(Error::ParseUnexpectedEnd),
            r matches Ok(it) ==> exists|a: int, mid: int, z: int, raw: Seq<(Seq<u8>, BareItem)>|
                #![trigger bare_item_from_bytes(input@.subrange(a, mid), &it.bare_item),
                    crate::utils::is_all_sp(input@.subrange(z, input@.len() as int)),
                    spec_param_fold(raw)]
                {
                    &&& 0 <= a < mid <= z <= input@.len()
                    &&& crate::utils::is_all_sp(input@.subrange(0, a))
                    &&& crate::utils::is_all_sp(input@.subrange(z, input@.len() as int))
                    &&& bare_item_from_bytes(input@.subrange(a, mid), &it.bare_item)
                    &&& it.params@ == spec_param_fold(raw)
                    &&& params_from_bytes(input@.subrange(mid, z), raw)
                },
            is_valid_token(input@) ==> r is Ok,
            input@.len() == 2 && input@[0] == 0x3f && (input@[1] == 0x30 || input@[1] == 0x31)
                ==> r is Ok,
            1 <= input@.len() <= 15 && digits_only(input@) ==> r is Ok,
            2 <= input@.len() <= 16 && input@[0] == 0x2d && digits_only(
                input@.subrange(1, input@.len() as int),
            ) ==> r is Ok,
            forall|v: Seq<u8>|
                #![trigger canonical_string_at(input@, 0, v)]
                canonical_string_at(input@, 0, v) && crate::bare_item::spec_ser_string(v).len()
                    == input@.len() ==> r is Ok,
            forall|dot: int|
                #![trigger canonical_decimal_run_at(input@, 0, dot)]
                canonical_decimal_run_at(input@, 0, dot) ==> r is Ok,
    {
        let n = input.len();
        let mut pos: usize = 0;
        skip_sp(input, &mut pos);
        let ghost a = pos as int;
        proof {
            assert forall|v: Seq<u8>|
                canonical_string_at(input@, 0, v) && crate::bare_item::spec_ser_string(v).len()
                    == input@.len() && a > 0 implies false by {
                let ser = crate::bare_item::spec_ser_string(v);
                assert(ser[0] == 0x22);
                assert(input@.subrange(0, ser.len() as int)[0] == input@[0]);
                assert(input@[0] == 0x20);
            }
            if 1 <= n && digits_only(input@) && a > 0 {
                assert(input@[0] == 0x20);
                assert(crate::utils::is_digit(input@[0]));
                assert(false);
            }
            if 1 <= n && digits_only(input@) {
                assert(input@.subrange(0, n as int) =~= input@);
            }
            if 2 <= n && input@[0] == 0x2d && a > 0 {
                assert(input@[0] == 0x20);
                assert(false);
            }
            assert forall|dot: int|
                canonical_decimal_run_at(input@, 0, dot) && a > 0 implies false by {
                assert(input@[0] == 0x20);
                if input@[0] != 0x2d {
                    assert(input@.subrange(0, dot)[0] == input@[0]);
                    assert(crate::utils::is_digit(input@[0]));
                }
            }
            if is_valid_token(input@) && a > 0 {
                assert(input@[0] == 0x20);
                assert(is_token_start(input@[0]));
                assert(false);
            }
            if n == 2 && input@[0] == 0x3f && a > 0 {
                assert(input@[0] == 0x20);
                assert(false);
            }
        }
        let item = match parse_item_inner(input, &mut pos) {
            Ok(it) => it,
            Err(e) => {
                return Err(e);
            },
        };
        let ghost z = pos as int;
        skip_sp(input, &mut pos);
        if pos < n {
            return Err(Error::ParseTrailingCharacters);
        }
        proof {
            let (mid, raw) = choose|mid: int, raw: Seq<(Seq<u8>, BareItem)>|
                #![trigger bare_item_from_bytes(input@.subrange(a, mid), &item.bare_item),
                    spec_param_fold(raw)]
                {
                    &&& a < mid <= z
                    &&& bare_item_from_bytes(input@.subrange(a, mid), &item.bare_item)
                    &&& item.params@ == spec_param_fold(raw)
                    &&& params_from_bytes(input@.subrange(mid, z), raw)
                };
            assert(bare_item_from_bytes(input@.subrange(a, mid), &item.bare_item));
            assert(item.params@ == spec_param_fold(raw));
            assert(params_from_bytes(input@.subrange(mid, z), raw));
            assert forall|j: int| 0 <= j < input@.subrange(0, a).len() implies #[trigger] input@
                .subrange(0, a)[j] == 0x20 by {
                assert(input@[j] == 0x20);
            }
            assert forall|j: int|
                0 <= j < input@.subrange(z, input@.len() as int).len() implies #[trigger] input@
                .subrange(z, input@.len() as int)[j] == 0x20 by {
                assert(input@[z + j] == 0x20);
            }
            assert(crate::utils::is_all_sp(input@.subrange(0, a)));
            assert(crate::utils::is_all_sp(input@.subrange(z, input@.len() as int)));
        }
        Ok(item)
    }

    /// Parses a list field value. An input of nothing but spaces — the
    /// empty input included — is a list with no members, and those are the
    /// only inputs that yield one. Each returned member is determined by
    /// the bytes consumed for it: exactly for items, at least by the
    /// opening parenthesis for inner lists.
    pub fn parse_list(input: &[u8]) -> (r: SFVResult<List>)
        ensures
            r matches Ok(l) ==> spec_entries_result(l@) is Ok,
            crate::utils::is_all_sp(input@) ==> (r matches Ok(l) && l@.len() == 0),
            r matches Ok(l) && l@.len() == 0 ==> crate::utils::is_all_sp(input@),
            r matches Ok(l) ==> exists|a: int, z: int|
                #![trigger list_members_from_bytes(input@.subrange(a, z), l@)]
                {
                    &&& 0 <= a <= z <= input@.len()
                    &&& crate::utils::is_all_sp(input@.subrange(0, a))
                    &&& (forall|j: int|
                        z <= j < input@.len() ==> crate::utils::is_ows(#[trigger] input@[j]))
                    &&& list_members_from_bytes(input@.subrange(a, z), l@)
                },
    {
        let n = input.len();
        let mut pos: usize = 0;
        let mut members: Vec<ListEntry> = Vec::new();
        skip_sp(input, &mut pos);
        let ghost p0 = pos as int;
        let ghost mut core_end: int = p0;
        proof {
            if crate::utils::is_all_sp(input@) && pos < n {
                assert(input@[pos as int] == 0x20);
            }
            assert forall|j: int|
                0 <= j < input@.subrange(0, p0).len() implies #[trigger] input@.subrange(
                0,
                p0,
            )[j] == 0x20 by {
                assert(input@[j] == 0x20);
            }
        }
        while pos < n
            invariant
                n == input@.len(),
                pos <= n,
                spec_entries_result(members@) is Ok,
                members@.len() == 0 ==> pos == p0 && core_end == p0,
                forall|j: int| 0 <= j < p0 ==> input@[j] == 0x20,
                crate::utils::is_all_sp(input@) ==> pos >= n && members@.len() == 0,
                0 <= p0 <= core_end <= pos,
                members@.len() > 0 ==> p0 < core_end < pos && pos < n
                    && list_members_from_bytes(input@.subrange(p0, core_end), members@)
                    && sep_match(input@.subrange(core_end, pos as int)),
            decreases n - pos,
        {
            let ghost m0 = pos as int;
            let entry = match parse_list_entry(input, &mut pos) {
                Ok(e) => e,
                Err(e) => {
                    return Err(e);
                },
            };
            let ghost m1 = pos as int;
            let ghost before = members@;
            let ghost ge = entry;
            members.push(entry);
            proof {
                assert(members@.drop_last() =~= before);
                assert(members@.last() == ge);
                match ge {
                    ListEntry::Item(it) => {
                        lemma_item_bytes_shift(input@, m0, m1, &it);
                    },
                    ListEntry::InnerList(_) => {},
                }
                assert(entry_from_bytes(input@.subrange(m0, m1), &ge));
                if before.len() == 0 {
                    assert(list_members_from_bytes(input@.subrange(p0, m1), members@));
                } else {
                    let sp = input@.subrange(p0, m1);
                    let cut = core_end - p0;
                    let cut2 = m0 - p0;
                    assert(sp.subrange(0, cut) =~= input@.subrange(p0, core_end));
                    assert(sp.subrange(cut, cut2) =~= input@.subrange(core_end, m0));
                    assert(sp.subrange(cut2, sp.len() as int) =~= input@.subrange(m0, m1));
                    assert(list_members_from_bytes(sp.subrange(0, cut), members@.drop_last()));
                    assert(sep_match(sp.subrange(cut, cut2)));
                    assert(entry_from_bytes(sp.subrange(cut2, sp.len() as int), &ge));
                    assert(list_members_from_bytes(sp, members@));
                }
                core_end = m1;
            }
            skip_ows(input, &mut pos);
            if pos >= n {
                proof {
                    assert forall|j: int|
                        core_end <= j < input@.len() implies crate::utils::is_ows(
                        #[trigger] input@[j],
                    ) by {}
                    assert(list_members_from_bytes(
                        input@.subrange(p0, core_end),
                        members@,
                    ));
                }
                return Ok(members);
            }
            if input[pos] != 0x2c {
                return Err(Error::ParseUnexpectedChar);
            }
            let ghost w1 = pos as int;
            pos = pos + 1;
            skip_ows(input, &mut pos);
            if pos >= n {
                return Err(Error::ParseUnexpectedEnd);
            }
            proof {
                let sep = input@.subrange(core_end, pos as int);
                let c = w1 - core_end;
                assert(sep[c] == input@[w1]);
                assert forall|j: int| 0 <= j < c implies crate::utils::is_ows(
                    #[trigger] sep[j],
                ) by {
                    assert(crate::utils::is_ows(input@[core_end + j]));
                }
                assert forall|j: int| c < j < sep.len() implies crate::utils::is_ows(
                    #[trigger] sep[j],
                ) by {
                    assert(crate::utils::is_ows(input@[core_end + j]));
                }
                assert(sep_match(sep));
            }
        }
        proof {
            if members@.len() == 0 {
                assert(p0 == n as int);
                assert forall|j: int| 0 <= j < input@.len() implies #[trigger] input@[j]
                    == 0x20 by {
                    assert(input@[j] == 0x20);
                }
                assert(input@.subrange(p0, p0).len() == 0);
                assert(list_members_from_bytes(input@.subrange(p0, p0), members@));
            }
        }
        Ok(members)
    }

    /// Parses a dictionary field value. An input of nothing but spaces —
    /// the empty input included — is a dictionary with no members, and
    /// those are the only inputs that yield one. A bare key stands for that
    /// key mapped to boolean true, with its own parameters. The returned
    /// map is the duplicate-key fold of raw members, each determined by the
    /// bytes consumed for it: exactly for item members, at least by the
    /// opening parenthesis for inner lists.
    #[verifier::rlimit(80)]
    pub fn parse_dictionary(input: &[u8]) -> (r: SFVResult<Dictionary>)
        ensures
            r matches Ok(d) ==> spec_dict_entries_result(d@) is Ok && map_keys_unique(d@),
            crate::utils::is_all_sp(input@) ==> (r matches Ok(d) && d@.len() == 0),
            r matches Ok(d) && d@.len() == 0 ==> crate::utils::is_all_sp(input@),
            r matches Ok(d) ==> exists|a: int, z: int, raw: Seq<(Seq<u8>, ListEntry)>|
                #![trigger dict_members_from_bytes(input@.subrange(a, z), raw)]
                {
                    &&& 0 <= a <= z <= input@.len()
                    &&& crate::utils::is_all_sp(input@.subrange(0, a))
                    &&& (forall|j: int|
                        z <= j < input@.len() ==> crate::utils::is_ows(#[trigger] input@[j]))
                    &&& d@ == spec_member_fold(raw)
                    &&& dict_members_from_bytes(input@.subrange(a, z), raw)
                },
    {
        let n = input.len();
        let mut pos: usize = 0;
        let mut dict = Dictionary::new();
        skip_sp(input, &mut pos);
        let ghost p0 = pos as int;
        let ghost mut core_end: int = p0;
        let ghost mut raw: Seq<(Seq<u8>, ListEntry)> = Seq::empty();
        proof {
            if crate::utils::is_all_sp(input@) && pos < n {
                assert(input@[pos as int] == 0x20);
            }
            assert forall|j: int|
                0 <= j < input@.subrange(0, p0).len() implies #[trigger] input@.subrange(
                0,
                p0,
            )[j] == 0x20 by {
                assert(input@[j] == 0x20);
            }
        }
        while pos < n
            invariant
                n == input@.len(),
                pos <= n,
                forall|i: int|
                    0 <= i < dict@.len() ==> spec_dict_member_result(
                        (#[trigger] dict@[i]).0,
                        &dict@[i].1,
                    ) is Ok,
                map_keys_unique(dict@),
                dict@.len() == 0 ==> pos == p0,
                forall|j: int| 0 <= j < p0 ==> input@[j] == 0x20,
                crate::utils::is_all_sp(input@) ==> pos >= n && dict@.len() == 0,
                0 <= p0 <= core_end <= pos,
                dict@ == spec_member_fold(raw),
                raw.len() == 0 ==> pos == p0 && core_end == p0,
                raw.len() > 0 ==> p0 < core_end < pos && pos < n && dict_members_from_bytes(
                    input@.subrange(p0, core_end),
                    raw,
                ) && sep_match(input@.subrange(core_end, pos as int)),
            decreases n - pos,
        {
            let ghost m0 = pos as int;
            let key = match parse_key(input, &mut pos) {
                Ok(k) => k,
                Err(e) => {
                    return Err(e);
                },
            };
            let ghost k1 = pos as int;
            let ghost kb = encode_utf8(key@);
            let member: ListEntry = if pos < n && input[pos] == 0x3d {
                pos = pos + 1;
                match parse_list_entry(input, &mut pos) {
                    Ok(e) => e,
                    Err(e) => {
                        return Err(e);
                    },
                }
            } else {
                let params = match parse_parameters(input, &mut pos) {
                    Ok(p) => p,
                    Err(e) => {
                        return Err(e);
                    },
                };
                ListEntry::Item(
                    Item { bare_item: BareItem::Boolean(BareItemBoolean::new(true)), params },
                )
            };
            let ghost m1 = pos as int;
            let ghost before = dict@;
            let ghost gm = member;
            proof {
                lemma_valid_key_validates(kb);
                assert(spec_dict_member_result(kb, &gm) is Ok);
                let seg = input@.subrange(m0, m1);
                assert(seg.subrange(0, kb.len() as int) =~= input@.subrange(m0, k1));
                if k1 < n && input@[k1] == 0x3d {
                    assert(seg[kb.len() as int] == input@[k1]);
                    match gm {
                        ListEntry::Item(it) => {
                            lemma_item_bytes_shift(input@, k1 + 1, m1, &it);
                        },
                        ListEntry::InnerList(_) => {},
                    }
                    assert(entry_from_bytes(input@.subrange(k1 + 1, m1), &gm));
                    assert(seg.subrange(kb.len() as int + 1, seg.len() as int) =~= input@.subrange(
                        k1 + 1,
                        m1,
                    ));
                } else {
                    if seg.len() > kb.len() {
                        assert(seg[kb.len() as int] == input@[k1]);
                    }
                    match gm {
                        ListEntry::Item(it) => {
                            let raw2 = choose|raw2: Seq<(Seq<u8>, BareItem)>|
                                #![trigger spec_param_fold(raw2)]
                                it.params@ == spec_param_fold(raw2) && params_from_bytes(
                                    input@.subrange(k1, m1),
                                    raw2,
                                );
                            assert(seg.subrange(kb.len() as int, seg.len() as int)
                                =~= input@.subrange(k1, m1));
                            assert(params_from_bytes(
                                seg.subrange(kb.len() as int, seg.len() as int),
                                raw2,
                            ));
                        },
                        ListEntry::InnerList(_) => {
                            assert(false);
                        },
                    }
                }
                assert(dict_member_from_bytes(seg, kb, &gm));
            }
            let _ = dict.insert(key, member);
            proof {
                crate::ordered_map::lemma_map_find_contains(before, kb);
                if crate::ordered_map::map_contains_key(before, kb) {
                    let at = crate::ordered_map::map_find(before, kb);
                    assert(dict@ == before.update(at, (kb, gm)));
                } else {
                    assert(dict@ == before.push((kb, gm)));
                }
                assert forall|i: int| 0 <= i < dict@.len() implies spec_dict_member_result(
                    (#[trigger] dict@[i]).0,
                    &dict@[i].1,
                ) is Ok by {
                    if crate::ordered_map::map_contains_key(before, kb) {
                        let at = crate::ordered_map::map_find(before, kb);
                        if i != at {
                            assert(dict@[i] == before[i]);
                        } else {
                            assert(dict@[i] == (kb, gm));
                        }
                    } else {
                        if i < before.len() {
                            assert(dict@[i] == before[i]);
                        } else {
                            assert(dict@[i] == (kb, gm));
                        }
                    }
                }
                let raw2 = raw.push((kb, gm));
                assert(raw2.drop_last() =~= raw);
                assert(dict@ == spec_member_fold(raw2)) by {
                    assert(raw2.last() == (kb, gm));
                    assert(spec_member_fold(raw2.drop_last()) == before);
                }
                if raw.len() == 0 {
                    assert(dict_members_from_bytes(input@.subrange(p0, m1), raw2));
                } else {
                    let sp = input@.subrange(p0, m1);
                    let cut = core_end - p0;
                    let cut2 = m0 - p0;
                    assert(sp.subrange(0, cut) =~= input@.subrange(p0, core_end));
                    assert(sp.subrange(cut, cut2) =~= input@.subrange(core_end, m0));
                    assert(sp.subrange(cut2, sp.len() as int) =~= input@.subrange(m0, m1));
                    assert(dict_members_from_bytes(sp.subrange(0, cut), raw2.drop_last()));
                    assert(sep_match(sp.subrange(cut, cut2)));
                    assert(dict_member_from_bytes(
                        sp.subrange(cut2, sp.len() as int),
                        kb,
                        &gm,
                    ));
                    assert(dict_members_from_bytes(sp, raw2));
                }
                raw = raw2;
                core_end = m1;
            }
            skip_ows(input, &mut pos);
            if pos >= n {
                proof {
                    lemma_dict_entries_result_ok_iff(dict@);
                    assert(dict_members_from_bytes(input@.subrange(p0, core_end), raw));
                }
                return Ok(dict);
            }
            if input[pos] != 0x2c {
                return Err(Error::ParseUnexpectedChar);
            }
            let ghost w1 = pos as int;
            pos = pos + 1;
            skip_ows(input, &mut pos);
            if pos >= n {
                return Err(Error::ParseUnexpectedEnd);
            }
            proof {
                let sep = input@.subrange(core_end, pos as int);
                let c = w1 - core_end;
                assert(sep[c] == input@[w1]);
                assert forall|j: int| 0 <= j < c implies crate::utils::is_ows(
                    #[trigger] sep[j],
                ) by {
                    assert(crate::utils::is_ows(input@[core_end + j]));
                }
                assert forall|j: int| c < j < sep.len() implies crate::utils::is_ows(
                    #[trigger] sep[j],
                ) by {
                    assert(crate::utils::is_ows(input@[core_end + j]));
                }
                assert(sep_match(sep));
            }
        }
        proof {
            lemma_dict_entries_result_ok_iff(dict@);
            if dict@.len() == 0 {
                assert(p0 == n as int);
                assert forall|j: int| 0 <= j < input@.len() implies #[trigger] input@[j]
                    == 0x20 by {
                    assert(input@[j] == 0x20);
                }
            }
            if raw.len() == 0 {
                assert(input@.subrange(p0, p0).len() == 0);
                assert(dict_members_from_bytes(input@.subrange(p0, p0), raw));
            }
        }
        Ok(dict)
    }
}

} // verus!
