//! How lists of rights are read, and what the file on an image says.
use vstd::prelude::*;
use crate::evaluation::{body_turns, unescaped};
use crate::json::{items_in, whole_in, field, field_holds, inner_field, Json};
use crate::openrouter::catalog::{any_endpoint_fault, has_active, is_active};
use crate::output::{ocr_markdown, QuotedView, Usage};
use crate::security::{
    ace_fault, grants_too_much, object_bytes, short_at, sid_bytes, sid_offset, word_at, Grant,
};
use crate::text::{contains_text, occurs_at, trimmed};

verus! {

// ---------------------------------------------------------------------------
// Rights
// ---------------------------------------------------------------------------

/// The numbers of lists of rights are read with the lower byte first.
pub proof fn lemma_numbers_in_lists(bytes: Seq<u8>, at: int, low: int, high: int)
    requires
        0 <= at,
        at + 4 <= bytes.len(),
        0 <= low < 0x1_0000,
        0 <= high < 0x1_0000,
        bytes[at] == low % 256,
        bytes[at + 1] == low / 256,
        bytes[at + 2] == high % 256,
        bytes[at + 3] == high / 256,
    ensures
        short_at(bytes, at) == low,
        word_at(bytes, at) == high * 65_536 + low,
{
}

/// An entry that is read lies in its list whole, and its identifier in the
/// entry; an entry that gives rights in an unknown way is not read.
pub proof fn lemma_entries_stay_in_lists(list: Seq<u8>, start: usize)
    requires
        ace_fault(list, Some(start)) is None,
    ensures
        start + 4 <= list.len(),
        4 <= short_at(list, start + 2) <= list.len() - start,
        list[start as int] != 0x04,
        list[start as int] == 0x00 || list[start as int] == 0x09 ==> sid_offset(list, start as int)
            == 8 && 8 + sid_bytes(list, start as int) <= short_at(list, start + 2),
        list[start as int] == 0x05 || list[start as int] == 0x0b ==> 12 <= sid_offset(
            list,
            start as int,
        ) <= 44 && sid_offset(list, start as int) + sid_bytes(list, start as int) <= short_at(
            list,
            start + 2,
        ),
        sid_bytes(list, start as int) == 8 + 4 * list[start + sid_offset(list, start as int) + 1],
{
}

/// Each of the two identifiers of objects takes sixteen bytes.
pub proof fn lemma_object_bytes(flags: u32)
    ensures
        flags & 1 == 0 && flags & 2 == 0 ==> object_bytes(flags) == 0,
        flags & 1 != 0 && flags & 2 != 0 ==> object_bytes(flags) == 32,
        (flags & 1 != 0) != (flags & 2 != 0) ==> object_bytes(flags) == 16,
{
}

/// A list gives too much exactly where somebody else may write, append, delete
/// or change rights by one of its entries.
pub proof fn lemma_too_much(grants: Seq<Grant>, k: int)
    requires
        0 <= k < grants.len(),
    ensures
        !grants[k].permitted && (grants[k].mask & 0x2 != 0 || grants[k].mask & 0x4 != 0
            || grants[k].mask & 0x10 != 0 || grants[k].mask & 0x40 != 0 || grants[k].mask & 0x100
            != 0 || grants[k].mask & 0x1_0000 != 0 || grants[k].mask & 0x4_0000 != 0
            || grants[k].mask & 0x8_0000 != 0 || grants[k].mask & 0x1000_0000 != 0
            || grants[k].mask & 0x4000_0000 != 0) ==> grants_too_much(grants),
        (forall|j: int|
            0 <= j < grants.len() ==> (#[trigger] grants[j]).permitted || grants[j].mask
                & 0x530d_0156 == 0) ==> !grants_too_much(grants),
{
    let mask = grants[k].mask;
    assert(mask & 0x2 != 0 || mask & 0x4 != 0 || mask & 0x10 != 0 || mask & 0x40 != 0 || mask
        & 0x100 != 0 || mask & 0x1_0000 != 0 || mask & 0x4_0000 != 0 || mask & 0x8_0000 != 0 || mask
        & 0x1000_0000 != 0 || mask & 0x4000_0000 != 0 ==> mask & 0x530d_0156 != 0) by (bit_vector);
}

// ---------------------------------------------------------------------------
// Images
// ---------------------------------------------------------------------------

/// The file on an image ends with what was read, under the title.
pub proof fn lemma_read_text_is_written(
    fields: QuotedView,
    title: Seq<char>,
    width: u64,
    height: u64,
    usage: Usage,
    cost: Seq<char>,
    body: Seq<char>,
)
    ensures
        ({
            let text = ocr_markdown(fields, title, width, height, usage, cost, body);
            let end = "# "@ + title + " OCR\n\n"@ + trimmed(body) + "\n"@;
            &&& text.len() >= end.len()
            &&& text.skip(text.len() - end.len()) == end
            &&& contains_text(text, trimmed(body))
        }),
{
    let text = ocr_markdown(fields, title, width, height, usage, cost, body);
    let end = "# "@ + title + " OCR\n\n"@ + trimmed(body) + "\n"@;
    assert(text.skip(text.len() - end.len()) =~= end);
    let at = text.len() - "\n"@.len() - trimmed(body).len();
    assert(text.subrange(at, at + trimmed(body).len()) =~= trimmed(body));
    assert(occurs_at(text, at, trimmed(body)));
}

// ---------------------------------------------------------------------------
// Transcripts
// ---------------------------------------------------------------------------

/// A blank line and a heading say nothing of what was spoken.
pub proof fn lemma_headings_are_no_turns(lines: Seq<Seq<char>>, n: nat)
    requires
        n < lines.len(),
        trimmed(lines[n as int]).len() == 0 || trimmed(lines[n as int])[0] == '#',
    ensures
        body_turns(lines, n + 1) == body_turns(lines, n),
{
}

/// A line without a speaker goes on with the turn before it: the speaker stays,
/// and the words stand behind a space; no turn is added.
pub proof fn lemma_lines_go_on(lines: Seq<Seq<char>>, n: nat)
    requires
        n < lines.len(),
        body_turns(lines, n).len() > 0,
        trimmed(lines[n as int]).len() > 0,
        trimmed(lines[n as int])[0] != '#',
        crate::evaluation::speaker_turn(unescaped(trimmed(lines[n as int]))) is None,
    ensures
        body_turns(lines, n + 1).len() == body_turns(lines, n).len(),
        body_turns(lines, n + 1).last().0 == body_turns(lines, n).last().0,
        body_turns(lines, n + 1).last().1 == body_turns(lines, n).last().1 + seq![' '] + trimmed(
            unescaped(trimmed(lines[n as int])),
        ),
        forall|k: int|
            0 <= k < body_turns(lines, n).len() - 1 ==> #[trigger] body_turns(lines, n + 1)[k]
                == body_turns(lines, n)[k],
{
    let turns = body_turns(lines, n);
    let plain = unescaped(trimmed(lines[n as int]));
    assert(turns.last().1.push(' ') =~= turns.last().1 + seq![' ']);
}

// ---------------------------------------------------------------------------
// Open routes
// ---------------------------------------------------------------------------

/// Where any provider may serve, a model passes only with an endpoint that
/// works, and for sound with one that works and answers in the form that was
/// asked for.
pub proof fn lemma_open_route(endpoints: Json, sound: bool, model: Seq<char>)
    requires
        any_endpoint_fault(
            endpoints,
            if sound {
                "audio"@
            } else {
                "image"@
            },
            model,
        ) is None,
    ensures
        items_in(inner_field(endpoints, "data"@, "endpoints"@)) is Some,
        (items_in(inner_field(endpoints, "data"@, "endpoints"@))->0).len() <= 256,
        exists|entry: Json| #[trigger]
            (items_in(inner_field(endpoints, "data"@, "endpoints"@))->0).contains(entry)
                && whole_in(field(entry, "status"@)) == Some(0int) && (sound ==> field_holds(
                field(entry, "supported_parameters"@),
                "response_format"@,
            ) && field_holds(field(entry, "supported_parameters"@), "structured_outputs"@)),
{
    let items = items_in(inner_field(endpoints, "data"@, "endpoints"@))->0;
    if sound {
        let k = choose|k: int|
            0 <= k < items.len() && is_active(#[trigger] items[k])
                && crate::openrouter::catalog::supports_structure(items[k]);
        assert(items.contains(items[k]));
    } else {
        assert(has_active(items));
        let k = choose|k: int| 0 <= k < items.len() && is_active(#[trigger] items[k]);
        assert(items.contains(items[k]));
    }
}

} // verus!
